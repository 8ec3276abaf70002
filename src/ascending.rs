//! A cursor that lists the indices held by a word sequence in increasing order.

use vstd::prelude::*;

use crate::inner::{Inner, Iter, chunk_to_bits, ones};
use crate::words::{
    at_chunk, count, lemma_ones_positions, lemma_values_concat, lemma_values_zero, positions, values,
    values_in,
};

verus! {

/// An ascending cursor over the values of a set.
#[derive(Clone, Copy)]
pub struct Ascending<'data> {
    data: &'data [Inner],
    end: usize,
    len: usize,
    cached: Iter,
}

impl<'data> Ascending<'data> {
    /// The indices still to come: the rest of the cached word, then the
    /// chunks not yet scanned.
    pub closed spec fn ahead(&self) -> Seq<int> {
        at_chunk(self.cached@, self.end - 1) + values_in(self.data@, self.end as int, self.data@.len() as int)
    }

    pub closed spec fn wf(&self) -> bool {
        &&& self.end <= self.data@.len()
        &&& 64 * self.data@.len() <= usize::MAX
        &&& self.cached.wf()
        &&& positions(self.cached@)
        &&& self.cached@.len() > 0 ==> self.end >= 1
        &&& self.len <= self.ahead().len()
    }
}

impl<'data> View for Ascending<'data> {
    type V = Seq<int>;

    /// The values still to be returned, in order.
    closed spec fn view(&self) -> Seq<int> {
        self.ahead().take(self.len as int)
    }
}

impl<'data> Ascending<'data> {
    /// Returns a cursor over the `remaining` smallest indices set in `data`.
    pub fn new(data: &'data [Inner], remaining: usize) -> (r: Self)
        requires
            remaining <= count(data@),
            64 * data@.len() <= usize::MAX,
        ensures
            r.wf(),
            r@ == values(data@).take(remaining as int),
    {
        let r = Self { data, end: 0, len: remaining, cached: Iter::new(0) };
        proof {
            crate::inner::lemma_full_and_empty();
            lemma_ones_positions(0);
            assert(r.ahead() =~= values(data@));
        }
        r
    }

    /// Moves the cache to the first non-zero word at or after `end`, and
    /// `end` just past it.
    fn find_non_zero(&mut self)
        requires
            exists|j: int| old(self).end <= j < old(self).data@.len() && old(self).data@[j] != 0,
        ensures
            final(self).data == old(self).data,
            final(self).len == old(self).len,
            old(self).end < final(self).end <= final(self).data@.len(),
            final(self).data@[final(self).end - 1] != 0,
            forall|k: int| old(self).end <= k < final(self).end - 1 ==> final(self).data@[k] == 0,
            final(self).cached.wf(),
            final(self).cached@ == ones(final(self).data@[final(self).end - 1]),
    {
        loop
            invariant_except_break
                self.data == old(self).data,
                self.len == old(self).len,
                old(self).end <= self.end,
                forall|k: int| old(self).end <= k < self.end ==> self.data@[k] == 0,
                exists|j: int| self.end <= j < self.data@.len() && self.data@[j] != 0,
            ensures
                self.data == old(self).data,
                self.len == old(self).len,
                old(self).end < self.end <= self.data@.len(),
                self.data@[self.end - 1] != 0,
                forall|k: int| old(self).end <= k < self.end - 1 ==> self.data@[k] == 0,
                self.cached.wf(),
                self.cached@ == ones(self.data@[self.end - 1]),
            decreases self.data@.len() - self.end,
        {
            let inner = self.data[self.end];
            self.end += 1;
            if inner != 0 {
                self.cached = Iter::new(inner);
                break;
            }
        }
    }

    /// Returns the next value, or `None` once all have been returned.
    pub fn next(&mut self) -> (r: Option<usize>)
        requires
            old(self).wf(),
        ensures
            final(self).wf(),
            old(self)@.len() == 0 ==> r is None && final(self)@ == old(self)@,
            old(self)@.len() > 0 ==> r is Some && r->0 == old(self)@[0] && final(self)@ == old(
                self,
            )@.drop_first(),
    {
        if self.len == 0 {
            return None;
        }
        self.len -= 1;
        if self.cached.len() == 0 {
            let ghost n = self.data@.len() as int;
            let ghost start = self.end as int;
            proof {
                assert(old(self).ahead() =~= values_in(self.data@, start, n));
                lemma_values_zero(self.data@, start, n);
            }
            self.find_non_zero();
            proof {
                let j = self.end - 1;
                lemma_values_concat(self.data@, start, j, n);
                lemma_values_zero(self.data@, start, j);
                crate::inner::lemma_clear_lowest(self.data@[j]);
                lemma_ones_positions(self.data@[j]);
                assert(self.ahead() =~= values_in(self.data@, start, n));
            }
        }
        let ghost before = self.ahead();
        let ghost cached = self.cached@;
        match self.cached.next() {
            Some(index) => {
                proof {
                    assert(before[0] == 64 * (self.end - 1) + cached[0]);
                    assert(self.ahead() =~= before.drop_first());
                    assert(self@ =~= old(self)@.drop_first());
                    assert((self.end - 1) * 64 + 64 <= 64 * self.data@.len()) by (nonlinear_arith)
                        requires
                            self.end <= self.data@.len(),
                    ;
                }
                Some(chunk_to_bits(self.end - 1) + index as usize)
            },
            None => None,
        }
    }

    /// Returns the number of values left.
    pub fn len(&self) -> (r: usize)
        requires
            self.wf(),
        ensures
            r == self@.len(),
    {
        self.len
    }

    /// Returns the exact bounds on the number of values left.
    pub fn size_hint(&self) -> (r: (usize, Option<usize>))
        requires
            self.wf(),
        ensures
            r.0 == self@.len(),
            r.1 == Some(self@.len() as usize),
    {
        (self.len, Some(self.len))
    }

    /// Returns the values left, in order.
    pub fn to_vec(self) -> (r: Vec<usize>)
        requires
            self.wf(),
        ensures
            r@.map_values(|x: usize| x as int) == self@,
    {
        let mut it = self;
        let mut r: Vec<usize> = Vec::new();
        while it.len() > 0
            invariant
                it.wf(),
                r@.map_values(|x: usize| x as int) + it@ == self@,
            decreases it@.len(),
        {
            let ghost prev = it@;
            let ghost done = r@.map_values(|x: usize| x as int);
            if let Some(x) = it.next() {
                r.push(x);
                assert(r@.map_values(|x: usize| x as int) =~= done.push(x as int));
                assert(done.push(x as int) + it@ =~= done + prev);
            }
        }
        assert(r@.map_values(|x: usize| x as int) + it@ =~= r@.map_values(|x: usize| x as int));
        r
    }
}

} // verus!
