//! A cursor that lists the indices held by a word sequence in decreasing order.

use vstd::prelude::*;

use crate::inner::{Inner, Iter, chunk_to_bits, ones};
use crate::words::{
    at_chunk, count, lemma_ones_positions, lemma_values_concat, lemma_values_split_last,
    lemma_values_zero, positions, values, values_in,
};

verus! {

/// A descending cursor over the values of a set.
#[derive(Clone, Copy)]
pub struct Descending<'data> {
    data: &'data [Inner],
    end: usize,
    len: usize,
    cached: Iter,
}

impl<'data> Descending<'data> {
    /// The indices not yet returned, in increasing order: the chunks not yet
    /// scanned, then the rest of the cached word.
    pub closed spec fn behind(&self) -> Seq<int> {
        values_in(self.data@, 0, self.end as int) + at_chunk(self.cached@, self.end as int)
    }

    pub closed spec fn wf(&self) -> bool {
        &&& self.end <= self.data@.len()
        &&& 64 * self.data@.len() <= usize::MAX
        &&& self.cached.wf()
        &&& positions(self.cached@)
        &&& self.cached@.len() > 0 ==> self.end < self.data@.len()
        &&& self.len <= self.behind().len()
    }
}

impl<'data> View for Descending<'data> {
    type V = Seq<int>;

    /// The values still to be returned, in order.
    closed spec fn view(&self) -> Seq<int> {
        self.behind().reverse().take(self.len as int)
    }
}

impl<'data> Descending<'data> {
    /// Returns a cursor over the `remaining` largest indices set in `data`.
    pub fn new(data: &'data [Inner], remaining: usize) -> (r: Self)
        requires
            remaining <= count(data@),
            64 * data@.len() <= usize::MAX,
        ensures
            r.wf(),
            r@ == values(data@).reverse().take(remaining as int),
    {
        let r = Self { data, end: data.len(), len: remaining, cached: Iter::new(0) };
        proof {
            crate::inner::lemma_full_and_empty();
            lemma_ones_positions(0);
            assert(r.behind() =~= values(data@));
        }
        r
    }

    /// Moves the cache, and `end`, to the last non-zero word before `end`.
    fn find_non_zero(&mut self)
        requires
            old(self).end <= old(self).data@.len(),
            exists|j: int| 0 <= j < old(self).end && old(self).data@[j] != 0,
        ensures
            final(self).data == old(self).data,
            final(self).len == old(self).len,
            final(self).end < old(self).end,
            final(self).data@[final(self).end as int] != 0,
            forall|k: int| final(self).end < k < old(self).end ==> final(self).data@[k] == 0,
            final(self).cached.wf(),
            final(self).cached@ == ones(final(self).data@[final(self).end as int]),
    {
        loop
            invariant_except_break
                self.data == old(self).data,
                self.len == old(self).len,
                self.end <= old(self).end <= self.data@.len(),
                forall|k: int| self.end <= k < old(self).end ==> self.data@[k] == 0,
                exists|j: int| 0 <= j < self.end && self.data@[j] != 0,
            ensures
                self.data == old(self).data,
                self.len == old(self).len,
                self.end < old(self).end,
                self.data@[self.end as int] != 0,
                forall|k: int| self.end < k < old(self).end ==> self.data@[k] == 0,
                self.cached.wf(),
                self.cached@ == ones(self.data@[self.end as int]),
            decreases self.end,
        {
            self.end -= 1;
            let inner = self.data[self.end];
            if inner != 0 {
                self.cached = Iter::new(inner);
                break;
            }
        }
    }

    /// Returns the next value, or `None` once all have been returned.
    pub fn next(&mut self) -> (r: Option<usize>)
        requires
            old(self).wf(),
        ensures
            final(self).wf(),
            old(self)@.len() == 0 ==> r is None && final(self)@ == old(self)@,
            old(self)@.len() > 0 ==> r is Some && r->0 == old(self)@[0] && final(self)@ == old(
                self,
            )@.drop_first(),
    {
        if self.len == 0 {
            return None;
        }
        self.len -= 1;
        if self.cached.len() == 0 {
            let ghost stop = self.end as int;
            proof {
                assert(old(self).behind() =~= values_in(self.data@, 0, stop));
                lemma_values_zero(self.data@, 0, stop);
            }
            self.find_non_zero();
            proof {
                let j = self.end as int;
                lemma_values_concat(self.data@, 0, j + 1, stop);
                lemma_values_zero(self.data@, j + 1, stop);
                lemma_values_split_last(self.data@, 0, j + 1);
                crate::inner::lemma_clear_lowest(self.data@[j]);
                lemma_ones_positions(self.data@[j]);
                assert(self.behind() =~= values_in(self.data@, 0, stop));
            }
        }
        let ghost before = self.behind();
        let ghost cached = self.cached@;
        match self.cached.next_back() {
            Some(index) => {
                proof {
                    assert(before.last() == 64 * self.end + cached.last());
                    assert(self.behind() =~= before.drop_last());
                    assert(self@ =~= old(self)@.drop_first());
                    assert(self.end * 64 + 64 <= 64 * self.data@.len()) by (nonlinear_arith)
                        requires
                            self.end < self.data@.len(),
                    ;
                }
                Some(chunk_to_bits(self.end) + index as usize)
            },
            None => None,
        }
    }

    /// Returns the number of values left.
    pub fn len(&self) -> (r: usize)
        requires
            self.wf(),
        ensures
            r == self@.len(),
    {
        self.len
    }

    /// Returns the exact bounds on the number of values left.
    pub fn size_hint(&self) -> (r: (usize, Option<usize>))
        requires
            self.wf(),
        ensures
            r.0 == self@.len(),
            r.1 == Some(self@.len() as usize),
    {
        (self.len, Some(self.len))
    }

    /// Returns the values left, in order.
    pub fn to_vec(self) -> (r: Vec<usize>)
        requires
            self.wf(),
        ensures
            r@.map_values(|x: usize| x as int) == self@,
    {
        let mut it = self;
        let mut r: Vec<usize> = Vec::new();
        while it.len() > 0
            invariant
                it.wf(),
                r@.map_values(|x: usize| x as int) + it@ == self@,
            decreases it@.len(),
        {
            let ghost prev = it@;
            let ghost done = r@.map_values(|x: usize| x as int);
            if let Some(x) = it.next() {
                r.push(x);
                assert(r@.map_values(|x: usize| x as int) =~= done.push(x as int));
                assert(done.push(x as int) + it@ =~= done + prev);
            }
        }
        assert(r@.map_values(|x: usize| x as int) + it@ =~= r@.map_values(|x: usize| x as int));
        r
    }
}

} // verus!
