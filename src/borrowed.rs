//! A read-only view of a word sequence together with its tracked cardinality.

use vstd::prelude::*;

use crate::ascending::Ascending;
use crate::descending::Descending;
use crate::inner::{Inner, bits_to_chunk, chunk_to_bits, get};
use crate::words::{count, holds, lemma_members, members, values};

verus! {

/// How the sorted lists `a` and `b` compare, element by element; a list that
/// is a prefix of the other sorts first.
pub open spec fn lex_cmp(a: Seq<int>, b: Seq<int>) -> core::cmp::Ordering
    decreases a.len(),
{
    if a.len() == 0 {
        if b.len() == 0 {
            core::cmp::Ordering::Equal
        } else {
            core::cmp::Ordering::Less
        }
    } else if b.len() == 0 {
        core::cmp::Ordering::Greater
    } else if a[0] < b[0] {
        core::cmp::Ordering::Less
    } else if a[0] > b[0] {
        core::cmp::Ordering::Greater
    } else {
        lex_cmp(a.drop_first(), b.drop_first())
    }
}

/// A borrowed set of natural numbers.
#[derive(Clone, Copy)]
pub struct Borrowed<'data> {
    data: &'data [Inner],
    len: usize,
}

impl<'data> View for Borrowed<'data> {
    type V = Seq<u64>;

    /// The words of the set.
    closed spec fn view(&self) -> Seq<u64> {
        self.data@
    }
}

impl<'data> Borrowed<'data> {
    /// The tracked cardinality is the number of set bits, and every index of
    /// the words fits in a `usize`.
    #[verifier::type_invariant]
    closed spec fn inv(self) -> bool {
        &&& self.len == count(self.data@)
        &&& 64 * self.data@.len() <= usize::MAX
    }

    /// Returns a view of the words `data`, which hold `len` set bits.
    pub fn new(data: &'data [Inner], len: usize) -> (r: Self)
        requires
            len == count(data@),
            64 * data@.len() <= usize::MAX,
        ensures
            r@ == data@,
    {
        Self { data, len }
    }

    /// Returns the words of the set.
    pub(crate) fn words(self) -> (r: &'data [Inner])
        ensures
            r@ == self@,
    {
        self.data
    }

    /// Returns the number of values the set can hold: `64` per word.
    pub fn maximum(self) -> (r: usize)
        ensures
            r == 64 * self@.len(),
    {
        proof {
            use_type_invariant(&self);
        }
        chunk_to_bits(self.data.len())
    }

    /// Returns the number of values in the set.
    pub fn len(self) -> (r: usize)
        ensures
            r == count(self@),
            r == members(self@).len(),
            members(self@).finite(),
    {
        proof {
            use_type_invariant(&self);
            lemma_members(self@);
        }
        self.len
    }

    /// Returns whether the set holds no value.
    pub fn is_empty(self) -> (r: bool)
        ensures
            r == (members(self@) == Set::<int>::empty()),
    {
        proof {
            use_type_invariant(&self);
            lemma_members(self@);
            vstd::set_lib::lemma_set_empty_equivalency_len(members(self@));
        }
        self.len() == 0
    }

    /// Returns whether the set holds `index`; false beyond its capacity.
    pub fn contains(self, index: usize) -> (r: bool)
        ensures
            r == members(self@).contains(index as int),
            r == holds(self@, index as int),
    {
        let offset = bits_to_chunk(index);
        offset < self.data.len() && get(self.data[offset], index)
    }

    /// Returns a cursor over the values in increasing order.
    pub fn ascending(self) -> (r: Ascending<'data>)
        ensures
            r.wf(),
            r@ == values(self@),
    {
        proof {
            use_type_invariant(&self);
            assert(values(self@).take(self.len as int) =~= values(self@));
        }
        Ascending::new(self.data, self.len)
    }

    /// Returns a cursor over the values in decreasing order.
    pub fn descending(self) -> (r: Descending<'data>)
        ensures
            r.wf(),
            r@ == values(self@).reverse(),
    {
        proof {
            use_type_invariant(&self);
            assert(values(self@).reverse().take(self.len as int) =~= values(self@).reverse());
        }
        Descending::new(self.data, self.len)
    }

    /// Compares the sorted values of the two sets element by element.
    pub fn cmp(&self, other: &Self) -> (r: core::cmp::Ordering)
        ensures
            r == lex_cmp(values(self@), values(other@)),
    {
        let mut a = self.ascending();
        let mut b = other.ascending();
        loop
            invariant
                a.wf(),
                b.wf(),
                lex_cmp(a@, b@) == lex_cmp(values(self@), values(other@)),
            decreases a@.len(),
        {
            match (a.next(), b.next()) {
                (None, None) => return core::cmp::Ordering::Equal,
                (None, Some(_)) => return core::cmp::Ordering::Less,
                (Some(_), None) => return core::cmp::Ordering::Greater,
                (Some(x), Some(y)) => {
                    if x < y {
                        return core::cmp::Ordering::Less;
                    } else if x > y {
                        return core::cmp::Ordering::Greater;
                    }
                },
            }
        }
    }
}

impl<'data> PartialEq for Borrowed<'data> {
    fn eq(&self, other: &Self) -> (r: bool) {
        proof {
            use_type_invariant(self);
            use_type_invariant(other);
        }
        if self.len != other.len {
            return false;
        }
        let mut a = self.ascending();
        let mut b = other.ascending();
        while a.len() > 0
            invariant
                a.wf(),
                b.wf(),
                a@.len() == b@.len(),
                (values(self@) == values(other@)) == (a@ == b@),
            decreases a@.len(),
        {
            let ghost (pa, pb) = (a@, b@);
            match (a.next(), b.next()) {
                (Some(x), Some(y)) => {
                    if x != y {
                        assert(pa[0] != pb[0]);
                        return false;
                    }
                    proof {
                        assert(pa =~= seq![pa[0]] + a@);
                        assert(pb =~= seq![pb[0]] + b@);
                        if a@ != b@ {
                            assert(pa.drop_first() != pb.drop_first());
                        }
                    }
                },
                _ => return false,
            }
        }
        assert(a@ =~= b@);
        true
    }
}

impl<'data> vstd::std_specs::cmp::PartialEqSpecImpl for Borrowed<'data> {
    open spec fn obeys_eq_spec() -> bool {
        true
    }

    open spec fn eq_spec(&self, other: &Self) -> bool {
        values(self@) == values(other@)
    }
}

impl<'data> Eq for Borrowed<'data> {

}

impl<'data> PartialOrd for Borrowed<'data> {
    fn partial_cmp(&self, other: &Self) -> (r: Option<core::cmp::Ordering>) {
        Some(self.cmp(other))
    }
}

impl<'data> vstd::std_specs::cmp::PartialOrdSpecImpl for Borrowed<'data> {
    open spec fn obeys_partial_cmp_spec() -> bool {
        true
    }

    open spec fn partial_cmp_spec(&self, other: &Self) -> Option<core::cmp::Ordering> {
        Some(lex_cmp(values(self@), values(other@)))
    }
}

} // verus!
