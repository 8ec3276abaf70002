//! Word primitives: where a global index lives inside a sequence of words,
//! and the set bits of a single word.

use vstd::prelude::*;

verus! {

/// One packed chunk of the bit array.
pub type Inner = u64;

/// Number of bits in one word.
pub const BITS_USIZE: usize = 64;

/// Whether bit `c` of `w` is set; false for positions outside the word.
pub open spec fn bit(w: u64, c: int) -> bool {
    0 <= c < 64 && (w >> (c as u64)) & 1u64 == 1u64
}

/// The set positions of `w` within `lo..hi`, in increasing order.
pub open spec fn bits_in(w: u64, lo: int, hi: int) -> Seq<int>
    decreases hi - lo,
{
    if lo >= hi {
        Seq::empty()
    } else if bit(w, lo) {
        seq![lo] + bits_in(w, lo + 1, hi)
    } else {
        bits_in(w, lo + 1, hi)
    }
}

/// All set positions of `w`, in increasing order.
pub open spec fn ones(w: u64) -> Seq<int> {
    bits_in(w, 0, 64)
}

/// Number of set bits of `w`.
pub open spec fn popcount(w: u64) -> nat {
    ones(w).len()
}

/// Splitting a position range splits the list of set positions.
pub proof fn lemma_bits_in_concat(w: u64, lo: int, mid: int, hi: int)
    requires
        lo <= mid <= hi,
    ensures
        bits_in(w, lo, hi) == bits_in(w, lo, mid) + bits_in(w, mid, hi),
    decreases mid - lo,
{
    if lo < mid {
        lemma_bits_in_concat(w, lo + 1, mid, hi);
        if bit(w, lo) {
            assert(bits_in(w, lo, hi) =~= seq![lo] + (bits_in(w, lo + 1, mid) + bits_in(w, mid, hi)));
        }
    } else {
        assert(bits_in(w, lo, mid) =~= Seq::<int>::empty());
        assert(bits_in(w, lo, hi) =~= bits_in(w, lo, mid) + bits_in(w, mid, hi));
    }
}

/// The set positions in `lo..hi` lie in that range, are strictly increasing,
/// and are exactly the set bits there.
pub proof fn lemma_bits_in_shape(w: u64, lo: int, hi: int)
    ensures
        forall|i: int|
            0 <= i < bits_in(w, lo, hi).len() ==> lo <= #[trigger] bits_in(w, lo, hi)[i] < hi
                && bit(w, bits_in(w, lo, hi)[i]),
        forall|i: int, j: int|
            0 <= i < j < bits_in(w, lo, hi).len() ==> #[trigger] bits_in(w, lo, hi)[i]
                < #[trigger] bits_in(w, lo, hi)[j],
        forall|c: int| lo <= c < hi && bit(w, c) ==> #[trigger] bits_in(w, lo, hi).contains(c),
        bits_in(w, lo, hi).len() <= if lo < hi { hi - lo } else { 0 },
    decreases hi - lo,
{
    if lo < hi {
        lemma_bits_in_shape(w, lo + 1, hi);
        let rest = bits_in(w, lo + 1, hi);
        if bit(w, lo) {
            let s = seq![lo] + rest;
            assert forall|c: int| lo <= c < hi && bit(w, c) implies #[trigger] s.contains(c) by {
                if c == lo {
                    assert(s[0] == c);
                } else {
                    assert(rest.contains(c));
                    let k = choose|k: int| 0 <= k < rest.len() && rest[k] == c;
                    assert(s[k + 1] == c);
                }
            }
        }
    }
}

/// Words that agree on `lo..hi` have the same set positions there.
pub proof fn lemma_bits_in_agree(a: u64, b: u64, lo: int, hi: int)
    requires
        forall|c: int| lo <= c < hi ==> bit(a, c) == bit(b, c),
    ensures
        bits_in(a, lo, hi) == bits_in(b, lo, hi),
    decreases hi - lo,
{
    if lo < hi {
        lemma_bits_in_agree(a, b, lo + 1, hi);
    }
}

/// A range without set bits has no set positions.
pub proof fn lemma_bits_in_clear(w: u64, lo: int, hi: int)
    requires
        forall|c: int| lo <= c < hi ==> !bit(w, c),
    ensures
        bits_in(w, lo, hi) == Seq::<int>::empty(),
    decreases hi - lo,
{
    if lo < hi {
        lemma_bits_in_clear(w, lo + 1, hi);
    }
}

proof fn lemma_single_bit_u64(w: u64, b: u64, c: u64)
    by (bit_vector)
    requires
        b < 64,
        c < 64,
    ensures
        ((w | (1u64 << b)) >> c) & 1u64 == (if c == b { 1u64 } else { (w >> c) & 1u64 }),
        ((w & !(1u64 << b)) >> c) & 1u64 == (if c == b { 0u64 } else { (w >> c) & 1u64 }),
        ((w & (1u64 << b)) != 0u64) == ((w >> b) & 1u64 == 1u64),
        ((0xffff_ffff_ffff_ffffu64 >> c) & 1u64) == 1u64,
        ((0u64 >> c) & 1u64) == 0u64,
        ((w >> b) & 1u64 == 1u64) ==> (w | (1u64 << b)) == w,
        ((w >> b) & 1u64 != 1u64) ==> (w & !(1u64 << b)) == w,
{
}

/// The set bits of `w` with bit `b` set, and with bit `b` cleared.
pub proof fn lemma_single_bit(w: u64, b: u64)
    requires
        b < 64,
    ensures
        forall|c: int| #[trigger] bit(w | (1u64 << b), c) == (bit(w, c) || c == b),
        forall|c: int| #[trigger] bit(w & !(1u64 << b), c) == (bit(w, c) && c != b),
        ((w & (1u64 << b)) != 0u64) == bit(w, b as int),
        bit(w, b as int) ==> (w | (1u64 << b)) == w,
        !bit(w, b as int) ==> (w & !(1u64 << b)) == w,
{
    assert forall|c: int| #[trigger] bit(w | (1u64 << b), c) == (bit(w, c) || c == b) by {
        if 0 <= c < 64 {
            lemma_single_bit_u64(w, b, c as u64);
        }
    }
    assert forall|c: int| #[trigger] bit(w & !(1u64 << b), c) == (bit(w, c) && c != b) by {
        if 0 <= c < 64 {
            lemma_single_bit_u64(w, b, c as u64);
        }
    }
    lemma_single_bit_u64(w, b, b);
}

/// The full word has every position set, the empty word none.
pub proof fn lemma_full_and_empty()
    ensures
        ones(0xffff_ffff_ffff_ffffu64).len() == 64,
        ones(0u64) == Seq::<int>::empty(),
        forall|c: int| 0 <= c < 64 ==> #[trigger] bit(0xffff_ffff_ffff_ffffu64, c),
        forall|c: int| !#[trigger] bit(0u64, c),
{
    assert forall|c: int| 0 <= c < 64 implies #[trigger] bit(0xffff_ffff_ffff_ffffu64, c) by {
        lemma_single_bit_u64(0, 0, c as u64);
    }
    assert forall|c: int| !#[trigger] bit(0u64, c) by {
        if 0 <= c < 64 {
            lemma_single_bit_u64(0, 0, c as u64);
        }
    }
    lemma_bits_in_clear(0u64, 0, 64);
    lemma_full_count(0);
}

proof fn lemma_full_count(lo: int)
    requires
        0 <= lo <= 64,
        forall|c: int| 0 <= c < 64 ==> #[trigger] bit(0xffff_ffff_ffff_ffffu64, c),
    ensures
        bits_in(0xffff_ffff_ffff_ffffu64, lo, 64).len() == 64 - lo,
    decreases 64 - lo,
{
    if lo < 64 {
        lemma_full_count(lo + 1);
    }
}

/// Two words that differ only at position `p`, set in `b` and clear in `a`,
/// differ by one in their counts.
pub proof fn lemma_popcount_flip(a: u64, b: u64, p: int)
    requires
        0 <= p < 64,
        !bit(a, p),
        bit(b, p),
        forall|c: int| c != p ==> #[trigger] bit(a, c) == bit(b, c),
    ensures
        popcount(b) == popcount(a) + 1,
{
    lemma_bits_in_concat(a, 0, p, 64);
    lemma_bits_in_concat(b, 0, p, 64);
    lemma_bits_in_agree(a, b, 0, p);
    lemma_bits_in_agree(a, b, p + 1, 64);
    assert(bits_in(b, p, 64) == seq![p] + bits_in(b, p + 1, 64));
    assert(bits_in(a, p, 64) == bits_in(a, p + 1, 64));
}

proof fn lemma_clear_lowest_u64(w: u64, t: u64, c: u64)
    by (bit_vector)
    requires
        w != 0u64,
        t < 64,
        c < 64,
        (w >> t) & 1u64 == 1u64,
        w << vstd::prelude::sub(64u64, t) == 0u64,
    ensures
        ((w & ((w - 1u64) as u64)) >> c) & 1u64 == (if c <= t { 0u64 } else { (w >> c) & 1u64 }),
{
}

proof fn lemma_clear_highest_u64(w: u64, z: u64, c: u64)
    by (bit_vector)
    requires
        z < 64,
        c < 64,
        (w >> vstd::prelude::sub(63u64, z)) & 1u64 != 0u64,
        w >> vstd::prelude::sub(64u64, z) == 0u64,
    ensures
        ((w & ((0xffff_ffff_ffff_ffffu64 >> 1u64) >> z)) >> c) & 1u64 == (if c >= vstd::prelude::sub(
            63u64,
            z,
        ) {
            0u64
        } else {
            (w >> c) & 1u64
        }),
{
}

/// Clearing the lowest set bit of a non-zero word, `w & (w - 1)`, drops the
/// first of its set positions, which is its count of trailing zeros.
pub proof fn lemma_clear_lowest(w: u64)
    requires
        w != 0,
    ensures
        ones(w).len() > 0,
        ones(w)[0] == w.trailing_zeros() as int,
        ones(w & ((w - 1) as u64)) == ones(w).drop_first(),
{
    let t = w.trailing_zeros();
    vstd::std_specs::bits::axiom_u64_trailing_zeros(w);
    assert(t < 64);
    let n = w & ((w - 1) as u64);
    assert forall|c: int| 0 <= c < t implies !#[trigger] bit(w, c) by {
        let j = c as u64;
        assert((w >> j) & 1u64 == 0u64);
    }
    assert forall|c: int| 0 <= c < 64 implies #[trigger] bit(n, c) == (c > t && bit(w, c)) by {
        lemma_clear_lowest_u64(w, t as u64, c as u64);
    }
    assert(bit(w, t as int));
    lemma_bits_in_concat(w, 0, t as int, 64);
    lemma_bits_in_clear(w, 0, t as int);
    lemma_bits_in_concat(n, 0, t as int + 1, 64);
    lemma_bits_in_clear(n, 0, t as int + 1);
    lemma_bits_in_agree(n, w, t as int + 1, 64);
    assert(ones(w) =~= seq![t as int] + bits_in(w, t as int + 1, 64));
    assert(ones(n) =~= ones(w).drop_first());
}

/// Keeping only the bits below the highest set bit of a non-zero word drops
/// the last of its set positions, which is `63 - z` for `z` leading zeros.
pub proof fn lemma_clear_highest(w: u64, z: u64)
    requires
        w != 0,
        z as int == vstd::std_specs::bits::u64_leading_zeros(w),
    ensures
        z < 64,
        ones(w).len() > 0,
        ones(w).last() == 63 - z,
        ones(w & ((0xffff_ffff_ffff_ffffu64 >> 1u64) >> z)) == ones(w).drop_last(),
{
    vstd::std_specs::bits::axiom_u64_leading_zeros(w);
    assert(z < 64);
    let h = 63 - z;
    let n = w & ((0xffff_ffff_ffff_ffffu64 >> 1u64) >> z);
    assert forall|c: int| h < c < 64 implies !#[trigger] bit(w, c) by {
        let j = c as u64;
        assert((w >> j) & 1u64 == 0u64);
    }
    assert forall|c: int| 0 <= c < 64 implies #[trigger] bit(n, c) == (c < h && bit(w, c)) by {
        lemma_clear_highest_u64(w, z, c as u64);
    }
    assert(bit(w, h)) by {
        let hh = vstd::prelude::sub(63u64, z);
        assert(hh == h);
        assert(((w >> hh) & 1u64 != 0u64) ==> ((w >> hh) & 1u64 == 1u64)) by (bit_vector);
    }
    lemma_bits_in_concat(w, 0, h, 64);
    lemma_bits_in_clear(w, h + 1, 64);
    assert(bits_in(w, h, 64) =~= seq![h]);
    lemma_bits_in_concat(n, 0, h, 64);
    lemma_bits_in_clear(n, h, 64);
    lemma_bits_in_agree(n, w, 0, h);
    assert(ones(n) =~= ones(w).drop_last());
}

/// Relies on `u64::count_ones`: the number of ones in the binary
/// representation of the word.
pub assume_specification[ u64::count_ones ](i: u64) -> (r: u32)
    ensures
        r == popcount(i),
;

/// Returns the chunk that holds the given global index.
pub fn bits_to_chunk(index: usize) -> (r: usize)
    ensures
        r == index / 64,
{
    index / BITS_USIZE
}

/// Returns the first global index that the given chunk covers.
pub fn chunk_to_bits(index: usize) -> (r: usize)
    requires
        index * 64 <= usize::MAX,
    ensures
        r == index * 64,
{
    index * BITS_USIZE
}

/// Returns the word whose only set bit is the position of `bit` within its chunk.
pub fn mask(bit: usize) -> (r: Inner)
    ensures
        r == 1u64 << ((bit % 64) as u64),
        forall|c: int| #[trigger] self::bit(r, c) == (c == bit % 64),
{
    let b: u64 = (bit % BITS_USIZE) as u64;
    proof {
        lemma_single_bit(0u64, b);
        assert((0u64 | (1u64 << b)) == 1u64 << b) by (bit_vector);
        assert forall|c: int| !#[trigger] self::bit(0u64, c) by {
            if 0 <= c < 64 {
                lemma_single_bit_u64(0, 0, c as u64);
            }
        }
    }
    1u64 << b
}

/// Returns whether the position of `bit` within its chunk is set in `inner`.
pub fn get(inner: Inner, bit: usize) -> (r: bool)
    ensures
        r == self::bit(inner, (bit % 64) as int),
{
    proof {
        lemma_single_bit(inner, (bit % 64) as u64);
    }
    inner & mask(bit) != 0
}

/// The set positions of one word, taken from either end.
#[derive(Clone, Copy)]
pub struct Iter {
    inner: Inner,
    remaining: u8,
}

impl View for Iter {
    type V = Seq<int>;

    /// The positions not yet taken, in increasing order.
    closed spec fn view(&self) -> Seq<int> {
        ones(self.inner)
    }
}

impl Iter {
    /// The count of positions left matches the word.
    pub closed spec fn wf(&self) -> bool {
        self.remaining == popcount(self.inner)
    }

    /// Returns an iterator over the set positions of `inner`.
    pub fn new(inner: Inner) -> (r: Self)
        ensures
            r.wf(),
            r@ == ones(inner),
    {
        proof {
            lemma_bits_in_shape(inner, 0, 64);
        }
        Self { inner, remaining: inner.count_ones() as u8 }
    }

    /// Returns the number of positions left.
    pub fn len(&self) -> (r: usize)
        requires
            self.wf(),
        ensures
            r == self@.len(),
    {
        self.remaining as usize
    }

    /// Returns the exact bounds on the number of positions left.
    pub fn size_hint(&self) -> (r: (usize, Option<usize>))
        requires
            self.wf(),
        ensures
            r.0 == self@.len(),
            r.1 == Some(self@.len() as usize),
    {
        let len = self.remaining as usize;
        (len, Some(len))
    }

    /// Takes the lowest position left.
    pub fn next(&mut self) -> (r: Option<u8>)
        requires
            old(self).wf(),
        ensures
            final(self).wf(),
            old(self)@.len() == 0 ==> r is None && final(self)@ == old(self)@,
            old(self)@.len() > 0 ==> r == Some(old(self)@[0] as u8) && final(self)@ == old(
                self,
            )@.drop_first(),
    {
        if self.remaining == 0 {
            return None;
        }
        proof {
            if self.inner == 0 {
                lemma_full_and_empty();
            }
            lemma_clear_lowest(self.inner);
        }
        let position = self.inner.trailing_zeros() as u8;
        *self = Self { inner: self.inner & (self.inner - 1), remaining: self.remaining - 1 };
        Some(position)
    }

    /// Takes the highest position left.
    pub fn next_back(&mut self) -> (r: Option<u8>)
        requires
            old(self).wf(),
        ensures
            final(self).wf(),
            old(self)@.len() == 0 ==> r is None && final(self)@ == old(self)@,
            old(self)@.len() > 0 ==> r == Some(old(self)@.last() as u8) && final(self)@ == old(
                self,
            )@.drop_last(),
    {
        if self.remaining == 0 {
            return None;
        }
        proof {
            if self.inner == 0 {
                lemma_full_and_empty();
            }
        }
        let position: u64 = self.inner.leading_zeros() as u64;
        proof {
            lemma_clear_highest(self.inner, position);
        }
        *self = Self {
            inner: self.inner & ((u64::MAX >> 1u64) >> position),
            remaining: self.remaining - 1,
        };
        Some((63 - position) as u8)
    }
}

} // verus!
