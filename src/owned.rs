//! The owned, growable set: the mutation surface over a word buffer.

use vstd::prelude::*;

use crate::ascending::Ascending;
use crate::borrowed::{Borrowed, lex_cmp};
use crate::descending::Descending;
use crate::inner::{Inner, bits_to_chunk, chunk_to_bits, get, mask};
use crate::words::{
    count, holds, lemma_clear_bit, lemma_fill_chunk, lemma_members, lemma_set_bit,
    lemma_count_bound, lemma_values_zero, lemma_zero_extend, members, range_set, values,
};

verus! {

/// The word count after growing `n` words to hold `maximum`: unchanged when
/// they already hold it, else the larger of twice as many words (at most the
/// largest count whose indices fit in a `usize`) and the words needed.
pub open spec fn grown_len(n: nat, maximum: nat) -> nat {
    if maximum / 64 < n {
        n
    } else {
        let doubled = if n <= (usize::MAX / 64) / 2 {
            2 * n
        } else {
            (usize::MAX / 64) as nat
        };
        if doubled > maximum / 64 + 1 {
            doubled
        } else {
            maximum / 64 + 1
        }
    }
}

/// The word count after growing `n` words to hold each of `items` in turn.
pub open spec fn grown_over(n: nat, items: Seq<usize>) -> nat
    decreases items.len(),
{
    if items.len() == 0 {
        n
    } else {
        grown_len(grown_over(n, items.drop_last()), items.last() as nat)
    }
}

/// An owned set of natural numbers.
pub struct Owned {
    data: Vec<Inner>,
    len: usize,
}

impl View for Owned {
    type V = Seq<u64>;

    /// The words of the set.
    closed spec fn view(&self) -> Seq<u64> {
        self.data@
    }
}

impl Owned {
    /// The tracked cardinality is the number of set bits, and every index of
    /// the words fits in a `usize`.
    #[verifier::type_invariant]
    closed spec fn inv(self) -> bool {
        &&& self.len == count(self.data@)
        &&& 64 * self.data@.len() <= usize::MAX
    }

    /// The set of values held.
    pub open spec fn members(&self) -> Set<int> {
        members(self@)
    }

    /// Returns a set that holds no value and has no capacity.
    pub fn new() -> (r: Self)
        ensures
            r@ == Seq::<u64>::empty(),
    {
        proof {
            assert(count(Seq::<u64>::empty()) == 0);
        }
        Self { data: Vec::new(), len: 0 }
    }

    /// Returns an empty set with `maximum` zeroed words, that is room for the
    /// values `0..64 * maximum`.
    pub fn with_maximum(maximum: usize) -> (r: Self)
        requires
            64 * maximum <= usize::MAX,
        ensures
            r@ == Seq::new(maximum as nat, |_i: int| 0u64),
    {
        let data: Vec<Inner> = vec![0; maximum];
        proof {
            lemma_values_zero(data@, 0, maximum as int);
            assert(data@ =~= Seq::new(maximum as nat, |_i: int| 0u64));
        }
        Self { data, len: 0 }
    }

    /// Moves the words and the cardinality out, leaving an empty set behind.
    fn take(&mut self) -> (r: (Vec<Inner>, usize))
        ensures
            r.0@ == old(self)@,
            r.1 == count(old(self)@),
            64 * r.0@.len() <= usize::MAX,
    {
        let mut other = Self::new();
        core::mem::swap(self, &mut other);
        proof {
            use_type_invariant(&other);
        }
        (other.data, other.len)
    }

    /// Returns a read-only view of the set.
    pub fn as_slice(&self) -> (r: Borrowed<'_>)
        ensures
            r@ == self@,
    {
        proof {
            use_type_invariant(self);
        }
        Borrowed::new(self.data.as_slice(), self.len)
    }

    /// Returns the number of values the set can hold without growing.
    pub fn maximum(&self) -> (r: usize)
        ensures
            r == 64 * self@.len(),
    {
        self.as_slice().maximum()
    }

    /// Returns the number of values in the set.
    pub fn len(&self) -> (r: usize)
        ensures
            r == self.members().len(),
            self.members().finite(),
    {
        self.as_slice().len()
    }

    /// Returns whether the set holds no value.
    pub fn is_empty(&self) -> (r: bool)
        ensures
            r == (self.members() == Set::<int>::empty()),
    {
        self.as_slice().is_empty()
    }

    /// Returns whether the set holds `value`; false beyond its capacity.
    pub fn contains(&self, value: usize) -> (r: bool)
        ensures
            r == self.members().contains(value as int),
    {
        self.as_slice().contains(value)
    }

    /// Returns a cursor over the values in increasing order.
    pub fn ascending(&self) -> (r: Ascending<'_>)
        ensures
            r.wf(),
            r@ == values(self@),
    {
        self.as_slice().ascending()
    }

    /// Returns a cursor over the values in decreasing order.
    pub fn descending(&self) -> (r: Descending<'_>)
        ensures
            r.wf(),
            r@ == values(self@).reverse(),
    {
        self.as_slice().descending()
    }

    /// Removes every value; the capacity stays. Scanning stops once as many
    /// set bits as the cardinality have been cleared.
    pub fn clear(&mut self)
        ensures
            final(self)@ == Seq::new(old(self)@.len(), |_i: int| 0u64),
            final(self).members() == Set::<int>::empty(),
    {
        let (mut data, len) = self.take();
        let ghost original = data@;
        let mut position: usize = 0;
        let mut removed: usize = 0;
        while removed < len
            invariant
                data@.len() == original.len(),
                len == count(original),
                position <= data@.len(),
                forall|k: int| 0 <= k < position ==> data@[k] == 0,
                forall|k: int| position <= k < data@.len() ==> data@[k] == original[k],
                removed == crate::words::values_in(original, 0, position as int).len(),
            decreases data@.len() - position,
        {
            proof {
                crate::words::lemma_values_concat(original, 0, position as int, original.len() as int);
                if position == data.len() {
                    assert(crate::words::values_in(original, position as int, position as int).len() == 0);
                }
                crate::words::lemma_values_split_last(original, 0, position as int + 1);
                crate::words::lemma_chunk_shape(original[position as int], position as int);
                crate::words::lemma_values_concat(original, 0, position as int + 1, original.len() as int);
            }
            let inner = data[position];
            proof {
                crate::inner::lemma_full_and_empty();
            }
            if inner != 0 {
                removed += inner.count_ones() as usize;
                data.set(position, 0);
            }
            position += 1;
        }
        proof {
            crate::words::lemma_values_concat(original, 0, position as int, original.len() as int);
            lemma_values_zero(original, position as int, original.len() as int);
            assert forall|k: int| 0 <= k < data@.len() implies data@[k] == 0u64 by {
                if k >= position {
                    assert(original[k] == 0u64);
                }
            }
            assert(data@ =~= Seq::new(original.len(), |_i: int| 0u64));
            lemma_values_zero(data@, 0, data@.len() as int);
            lemma_members(data@);
            vstd::set_lib::lemma_set_empty_equivalency_len(members(data@));
        }
        *self = Self { data, len: 0 };
    }

    /// Grows the set so that it can hold `maximum`. The buffer at least
    /// doubles when it grows; the values stay.
    pub fn grow_maximum(&mut self, maximum: usize)
        requires
            maximum / 64 < usize::MAX / 64,
        ensures
            final(self).members() == old(self).members(),
            final(self)@.len() > maximum / 64,
            final(self)@.len() == grown_len(old(self)@.len(), maximum as nat),
            final(self)@.subrange(0, old(self)@.len() as int) == old(self)@,
            forall|k: int| old(self)@.len() <= k < final(self)@.len() ==> final(self)@[k] == 0,
    {
        let offset = bits_to_chunk(maximum);
        let (mut data, len) = self.take();
        let ghost original = data@;
        if offset >= data.len() {
            let largest: usize = usize::MAX / 64;
            let doubled: usize = if data.len() <= largest / 2 { 2 * data.len() } else { largest };
            let wanted: usize = if doubled > offset + 1 { doubled } else { offset + 1 };
            data.resize(wanted, 0);
            proof {
                assert(64 * wanted <= usize::MAX) by (nonlinear_arith)
                    requires
                        wanted <= usize::MAX / 64,
                ;
                lemma_zero_extend(original, data@);
            }
        }
        proof {
            assert(data@.subrange(0, original.len() as int) =~= original);
        }
        *self = Self { data, len };
    }

    /// Drops the zero words at the end of the buffer; the values stay.
    pub fn shrink_to_fit(&mut self)
        ensures
            final(self).members() == old(self).members(),
            final(self)@ == old(self)@.subrange(0, final(self)@.len() as int),
            final(self)@.len() == 0 || final(self)@.last() != 0,
            forall|k: int| final(self)@.len() <= k < old(self)@.len() ==> old(self)@[k] == 0,
    {
        let (mut data, len) = self.take();
        let ghost original = data@;
        let mut maximum: usize = data.len();
        while maximum > 0 && data[maximum - 1] == 0
            invariant
                data@ == original,
                maximum <= data@.len(),
                forall|k: int| maximum <= k < data@.len() ==> data@[k] == 0,
            decreases maximum,
        {
            maximum -= 1;
        }
        data.truncate(maximum);
        proof {
            lemma_zero_extend(data@, original);
        }
        *self = Self { data, len };
    }

    /// Adds `value` and returns whether it was already there, or returns
    /// `None` without change when `value` is beyond the capacity.
    pub fn insert(&mut self, value: usize) -> (r: Option<bool>)
        ensures
            final(self)@.len() == old(self)@.len(),
            value < 64 * old(self)@.len() ==> r == Some(old(self).members().contains(value as int))
                && final(self).members() == old(self).members().insert(value as int),
            value >= 64 * old(self)@.len() ==> r is None && final(self)@ == old(self)@,
    {
        let offset = bits_to_chunk(value);
        let (mut data, mut len) = self.take();
        let r = if offset < data.len() {
            let inner = data[offset];
            proof {
                assert(value < 64 * data@.len()) by (nonlinear_arith)
                    requires
                        value / 64 < data@.len(),
                ;
                lemma_set_bit(data@, value as int);
                lemma_members(data@);
                let k = value / 64;
                let t = data@.update(k as int, data@[k as int] | (1u64 << ((value % 64) as u64)));
                lemma_count_bound(t, 0, t.len() as int);
            }
            if get(inner, value) {
                Some(true)
            } else {
                data.set(offset, inner | mask(value));
                len += 1;
                Some(false)
            }
        } else {
            proof {
                assert(value >= 64 * data@.len()) by (nonlinear_arith)
                    requires
                        value / 64 >= data@.len(),
                ;
            }
            None
        };
        *self = Self { data, len };
        r
    }

    /// Fills chunk `offset` and returns its previous word, or `None` when the
    /// chunk is beyond the capacity.
    fn insert_chunk(&mut self, offset: usize) -> (r: Option<Inner>)
        ensures
            final(self)@.len() == old(self)@.len(),
            offset < old(self)@.len() ==> r == Some(old(self)@[offset as int])
                && final(self).members() == old(self).members().union(
                range_set(64 * offset, 64 * offset + 64),
            ),
            offset >= old(self)@.len() ==> r is None && final(self)@ == old(self)@,
    {
        let (mut data, mut len) = self.take();
        let r = if offset < data.len() {
            let inner = data[offset];
            proof {
                lemma_fill_chunk(data@, offset as int);
                lemma_members(data@);
                crate::inner::lemma_bits_in_shape(inner, 0, 64);
                let t = data@.update(offset as int, 0xffff_ffff_ffff_ffffu64);
                lemma_count_bound(t, 0, t.len() as int);
            }
            let zeros = 64 - inner.count_ones();
            len += zeros as usize;
            data.set(offset, Inner::MAX);
            Some(inner)
        } else {
            None
        };
        *self = Self { data, len };
        r
    }

    /// Adds every value of `start..end`. Returns `None` without change when
    /// the range is not empty and reaches beyond the capacity.
    pub fn insert_all(&mut self, start: usize, end: usize) -> (r: Option<()>)
        ensures
            final(self)@.len() == old(self)@.len(),
            start < end && end > 64 * old(self)@.len() ==> r is None && final(self)@ == old(self)@,
            !(start < end && end > 64 * old(self)@.len()) ==> r is Some && final(self).members()
                == old(self).members().union(range_set(start as int, end as int)),
    {
        proof {
            use_type_invariant(&*self);
        }
        if start >= end {
            assert(old(self).members().union(range_set(start as int, end as int)) =~= old(self).members());
            return Some(());
        }
        if end > self.maximum() {
            return None;
        }
        let ghost before = self.members();
        let ghost n = self@.len();
        let start_chunk = bits_to_chunk(start);
        assert((start_chunk + 1) * 64 <= 64 * n) by (nonlinear_arith)
            requires
                start_chunk == start / 64,
                start < end <= 64 * n,
        ;
        let naive_end = if chunk_to_bits(start_chunk + 1) < end { chunk_to_bits(start_chunk + 1) } else { end };
        for value in start..naive_end
            invariant
                self@.len() == n,
                end <= 64 * n,
                naive_end <= end,
                self.members() == before.union(range_set(start as int, value as int)),
        {
            let _ = self.insert(value);
            assert(self.members() =~= before.union(range_set(start as int, value + 1)));
        }
        let end_chunk = bits_to_chunk(end);
        let naive_start = if chunk_to_bits(end_chunk) > start { chunk_to_bits(end_chunk) } else { start };
        let ghost head = self.members();
        for value in naive_start..end
            invariant
                self@.len() == n,
                end <= 64 * n,
                self.members() == head.union(range_set(naive_start as int, value as int)),
        {
            let _ = self.insert(value);
            assert(self.members() =~= head.union(range_set(naive_start as int, value + 1)));
        }
        let ghost ends = self.members();
        let mut offset = start_chunk + 1;
        while offset < end_chunk
            invariant
                self@.len() == n,
                end_chunk <= n,
                start_chunk + 1 <= offset,
                offset <= end_chunk || offset == start_chunk + 1,
                self.members() == ends.union(range_set(64 * (start_chunk + 1), 64 * offset)),
            decreases end_chunk - offset,
        {
            let _ = self.insert_chunk(offset);
            assert(self.members() =~= ends.union(range_set(64 * (start_chunk + 1), 64 * (offset + 1))));
            offset += 1;
        }
        proof {
            assert(64 * start_chunk <= start < 64 * start_chunk + 64) by (nonlinear_arith)
                requires
                    start_chunk == start / 64,
            ;
            assert(64 * end_chunk <= end < 64 * end_chunk + 64) by (nonlinear_arith)
                requires
                    end_chunk == end / 64,
            ;
            assert(self.members() =~= before.union(range_set(start as int, end as int)));
        }
        Some(())
    }

    /// Removes `value` and returns whether it was there, or returns `None`
    /// without change when `value` is beyond the capacity.
    pub fn remove(&mut self, value: usize) -> (r: Option<bool>)
        ensures
            final(self)@.len() == old(self)@.len(),
            value < 64 * old(self)@.len() ==> r == Some(old(self).members().contains(value as int))
                && final(self).members() == old(self).members().remove(value as int),
            value >= 64 * old(self)@.len() ==> r is None && final(self)@ == old(self)@,
    {
        let offset = bits_to_chunk(value);
        let (mut data, mut len) = self.take();
        let r = if offset < data.len() {
            let inner = data[offset];
            proof {
                assert(value < 64 * data@.len()) by (nonlinear_arith)
                    requires
                        value / 64 < data@.len(),
                ;
                lemma_clear_bit(data@, value as int);
                lemma_members(data@);
            }
            if get(inner, value) {
                data.set(offset, inner & !mask(value));
                len -= 1;
                Some(true)
            } else {
                Some(false)
            }
        } else {
            proof {
                assert(value >= 64 * data@.len()) by (nonlinear_arith)
                    requires
                        value / 64 >= data@.len(),
                ;
            }
            None
        };
        *self = Self { data, len };
        r
    }

    /// Empties chunk `offset` and returns its previous word, or `None` when
    /// the chunk is beyond the capacity.
    fn remove_chunk(&mut self, offset: usize) -> (r: Option<Inner>)
        ensures
            final(self)@.len() == old(self)@.len(),
            offset < old(self)@.len() ==> r == Some(old(self)@[offset as int])
                && final(self).members() == old(self).members().difference(
                range_set(64 * offset, 64 * offset + 64),
            ),
            offset >= old(self)@.len() ==> r is None && final(self)@ == old(self)@,
    {
        let (mut data, mut len) = self.take();
        let r = if offset < data.len() {
            let inner = data[offset];
            proof {
                lemma_fill_chunk(data@, offset as int);
                lemma_members(data@);
                crate::words::lemma_values_concat(data@, 0, offset as int, data@.len() as int);
                crate::words::lemma_chunk_shape(inner, offset as int);
                crate::words::lemma_values_concat(data@, offset as int, offset as int + 1, data@.len() as int);
            }
            let ones = inner.count_ones();
            len -= ones as usize;
            data.set(offset, Inner::MIN);
            Some(inner)
        } else {
            None
        };
        *self = Self { data, len };
        r
    }

    /// Removes every value of `start..end`. Returns `None` without change
    /// when the range is not empty and reaches beyond the capacity.
    pub fn remove_all(&mut self, start: usize, end: usize) -> (r: Option<()>)
        ensures
            final(self)@.len() == old(self)@.len(),
            start < end && end > 64 * old(self)@.len() ==> r is None && final(self)@ == old(self)@,
            !(start < end && end > 64 * old(self)@.len()) ==> r is Some && final(self).members()
                == old(self).members().difference(range_set(start as int, end as int)),
    {
        proof {
            use_type_invariant(&*self);
        }
        if start >= end {
            assert(old(self).members().difference(range_set(start as int, end as int)) =~= old(self).members());
            return Some(());
        }
        if end > self.maximum() {
            return None;
        }
        let ghost before = self.members();
        let ghost n = self@.len();
        let start_chunk = bits_to_chunk(start);
        assert((start_chunk + 1) * 64 <= 64 * n) by (nonlinear_arith)
            requires
                start_chunk == start / 64,
                start < end <= 64 * n,
        ;
        let naive_end = if chunk_to_bits(start_chunk + 1) < end { chunk_to_bits(start_chunk + 1) } else { end };
        for value in start..naive_end
            invariant
                self@.len() == n,
                end <= 64 * n,
                naive_end <= end,
                self.members() == before.difference(range_set(start as int, value as int)),
        {
            let _ = self.remove(value);
            assert(self.members() =~= before.difference(range_set(start as int, value + 1)));
        }
        let end_chunk = bits_to_chunk(end);
        let naive_start = if chunk_to_bits(end_chunk) > start { chunk_to_bits(end_chunk) } else { start };
        let ghost head = self.members();
        for value in naive_start..end
            invariant
                self@.len() == n,
                end <= 64 * n,
                self.members() == head.difference(range_set(naive_start as int, value as int)),
        {
            let _ = self.remove(value);
            assert(self.members() =~= head.difference(range_set(naive_start as int, value + 1)));
        }
        let ghost ends = self.members();
        let mut offset = start_chunk + 1;
        while offset < end_chunk
            invariant
                self@.len() == n,
                end_chunk <= n,
                start_chunk + 1 <= offset,
                offset <= end_chunk || offset == start_chunk + 1,
                self.members() == ends.difference(range_set(64 * (start_chunk + 1), 64 * offset)),
            decreases end_chunk - offset,
        {
            let _ = self.remove_chunk(offset);
            assert(self.members() =~= ends.difference(range_set(64 * (start_chunk + 1), 64 * (offset + 1))));
            offset += 1;
        }
        proof {
            assert(64 * start_chunk <= start < 64 * start_chunk + 64) by (nonlinear_arith)
                requires
                    start_chunk == start / 64,
            ;
            assert(64 * end_chunk <= end < 64 * end_chunk + 64) by (nonlinear_arith)
                requires
                    end_chunk == end / 64,
            ;
            assert(self.members() =~= before.difference(range_set(start as int, end as int)));
        }
        Some(())
    }

    /// Grows the set as needed so that it can hold `value`, then adds it;
    /// returns whether it was already there.
    pub fn grow_insert(&mut self, value: usize) -> (r: bool)
        requires
            value / 64 < usize::MAX / 64,
        ensures
            r == old(self).members().contains(value as int),
            final(self).members() == old(self).members().insert(value as int),
            final(self)@.len() == grown_len(old(self)@.len(), value as nat),
    {
        self.grow_maximum(value);
        proof {
            assert(value < 64 * self@.len()) by (nonlinear_arith)
                requires
                    self@.len() > value / 64,
            ;
        }
        match self.insert(value) {
            Some(previous) => previous,
            None => false,
        }
    }

    /// Grows the set as needed so that it can hold `end`, then adds every
    /// value of `start..end`.
    pub fn grow_insert_all(&mut self, start: usize, end: usize)
        requires
            end / 64 < usize::MAX / 64,
        ensures
            final(self).members() == old(self).members().union(range_set(start as int, end as int)),
            final(self)@.len() == grown_len(old(self)@.len(), end as nat),
    {
        self.grow_maximum(end);
        proof {
            assert(end < 64 * self@.len()) by (nonlinear_arith)
                requires
                    self@.len() > end / 64,
            ;
        }
        let _ = self.insert_all(start, end);
    }

    /// Makes this set a copy of `source`, reusing the buffer that it has: the
    /// words become those of `source`, followed by zero words up to the old
    /// length when `source` is shorter.
    pub fn clone_from_slice(&mut self, source: Borrowed)
        ensures
            final(self)@.len() == if source@.len() < old(self)@.len() {
                old(self)@.len()
            } else {
                source@.len()
            },
            final(self)@.subrange(0, source@.len() as int) == source@,
            forall|k: int| source@.len() <= k < final(self)@.len() ==> final(self)@[k] == 0,
            final(self).members() == members(source@),
    {
        let len = source.len();
        // The view's capacity fits in a `usize`, so the copy keeps the invariant.
        let _ = source.maximum();
        let (mut data, _) = self.take();
        let previous = data.len();
        data.clear();
        data.extend_from_slice(source.words());
        proof {
            assert(data@ =~= source@);
        }
        if data.len() < previous {
            data.resize(previous, 0);
        }
        proof {
            assert(data@.subrange(0, source@.len() as int) =~= source@);
            lemma_zero_extend(source@, data@);
        }
        *self = Self { data, len };
    }

    /// Compares the sorted values of the two sets element by element; a set
    /// whose values are a prefix of the other's sorts first.
    pub fn cmp(&self, other: &Self) -> (r: core::cmp::Ordering)
        ensures
            r == lex_cmp(values(self@), values(other@)),
    {
        self.as_slice().cmp(&other.as_slice())
    }

    /// Adds every value of `items`, growing the set as needed.
    pub fn extend(&mut self, items: &[usize])
        requires
            forall|i: int| 0 <= i < items@.len() ==> #[trigger] items@[i] / 64 < usize::MAX / 64,
        ensures
            final(self).members() == old(self).members().union(
                items@.map_values(|v: usize| v as int).to_set(),
            ),
            final(self)@.len() == grown_over(old(self)@.len(), items@),
            final(self)@.len() >= old(self)@.len(),
    {
        let ghost before = self.members();
        let ghost all = items@.map_values(|v: usize| v as int);
        for i in 0..items.len()
            invariant
                forall|j: int| 0 <= j < items@.len() ==> #[trigger] items@[j] / 64 < usize::MAX / 64,
                all == items@.map_values(|v: usize| v as int),
                self.members() == before.union(all.take(i as int).to_set()),
                self@.len() == grown_over(old(self)@.len(), items@.take(i as int)),
                self@.len() >= old(self)@.len(),
        {
            self.grow_insert(items[i]);
            assert(all.take(i + 1) =~= all.take(i as int).push(items@[i as int] as int));
            assert(items@.take(i + 1).drop_last() =~= items@.take(i as int));
            proof {
                all.take(i as int).lemma_push_to_set_commute(items@[i as int] as int);
            }
            assert(self.members() =~= before.union(all.take(i + 1).to_set()));
        }
        assert(all.take(items@.len() as int) =~= all);
        assert(items@.take(items@.len() as int) =~= items@);
    }

    /// Returns the set of the values in `items`, with the capacity that
    /// growing for each of them in turn gives; none at all for no items.
    pub fn from_slice(items: &[usize]) -> (r: Self)
        requires
            forall|i: int| 0 <= i < items@.len() ==> #[trigger] items@[i] / 64 < usize::MAX / 64,
        ensures
            r.members() == items@.map_values(|v: usize| v as int).to_set(),
            r@.len() == grown_over(0, items@),
            items@.len() == 0 ==> r@.len() == 0,
    {
        let mut set = Self::new();
        proof {
            lemma_members(set@);
            vstd::set_lib::lemma_set_empty_equivalency_len(members(set@));
        }
        set.extend(items);
        assert(set.members() =~= items@.map_values(|v: usize| v as int).to_set());
        set
    }
}

impl Default for Owned {
    fn default() -> (r: Self)
        ensures
            r@ == Seq::<u64>::empty(),
    {
        Self::new()
    }
}

impl Clone for Owned {
    fn clone(&self) -> (r: Self)
        ensures
            r@ == self@,
    {
        proof {
            use_type_invariant(self);
        }
        let data = self.data.clone();
        proof {
            assert(data@ =~= self.data@);
        }
        Self { data, len: self.len }
    }
}

impl PartialEq for Owned {
    fn eq(&self, other: &Self) -> (r: bool) {
        self.as_slice().eq(&other.as_slice())
    }
}

impl vstd::std_specs::cmp::PartialEqSpecImpl for Owned {
    open spec fn obeys_eq_spec() -> bool {
        true
    }

    open spec fn eq_spec(&self, other: &Self) -> bool {
        values(self@) == values(other@)
    }
}

impl Eq for Owned {

}

impl PartialOrd for Owned {
    fn partial_cmp(&self, other: &Self) -> (r: Option<core::cmp::Ordering>) {
        Some(self.cmp(other))
    }
}

impl vstd::std_specs::cmp::PartialOrdSpecImpl for Owned {
    open spec fn obeys_partial_cmp_spec() -> bool {
        true
    }

    open spec fn partial_cmp_spec(&self, other: &Self) -> Option<core::cmp::Ordering> {
        Some(lex_cmp(values(self@), values(other@)))
    }
}

} // verus!
