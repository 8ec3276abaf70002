//! The meaning of a sequence of words: the set of global indices whose bit is
//! set, and the same indices listed in increasing order.

use vstd::prelude::*;

use crate::inner::{
    bit, bits_in, lemma_bits_in_shape, lemma_full_and_empty, lemma_popcount_flip, lemma_single_bit,
    ones, popcount,
};

verus! {

/// Whether global index `i` is set in the words `s`.
pub open spec fn holds(s: Seq<u64>, i: int) -> bool {
    0 <= i && i / 64 < s.len() && bit(s[i / 64], i % 64)
}

/// The set of global indices held by the words `s`.
pub open spec fn members(s: Seq<u64>) -> Set<int> {
    Set::new(|i: int| holds(s, i))
}

/// In-word positions `bits` turned into global indices of chunk `k`.
pub open spec fn at_chunk(bits: Seq<int>, k: int) -> Seq<int> {
    bits.map_values(|b: int| 64 * k + b)
}

/// The indices that word `w` contributes when it stands at chunk `k`.
pub open spec fn chunk_values(w: u64, k: int) -> Seq<int> {
    at_chunk(ones(w), k)
}

/// Whether `bits` is a strictly increasing list of in-word positions.
pub open spec fn positions(bits: Seq<int>) -> bool {
    increasing(bits) && forall|i: int| 0 <= i < bits.len() ==> 0 <= #[trigger] bits[i] < 64
}

/// The set positions of a word are in-word positions.
pub proof fn lemma_ones_positions(w: u64)
    ensures
        positions(ones(w)),
{
    lemma_bits_in_shape(w, 0, 64);
}

/// The indices held by chunks `lo..hi` of `s`, in increasing order.
pub open spec fn values_in(s: Seq<u64>, lo: int, hi: int) -> Seq<int>
    decreases hi - lo,
{
    if lo >= hi {
        Seq::empty()
    } else {
        chunk_values(s[lo], lo) + values_in(s, lo + 1, hi)
    }
}

/// Every index held by `s`, in increasing order.
pub open spec fn values(s: Seq<u64>) -> Seq<int> {
    values_in(s, 0, s.len() as int)
}

/// The number of set bits in `s`.
pub open spec fn count(s: Seq<u64>) -> nat {
    values(s).len()
}

/// Whether `v` is strictly increasing.
pub open spec fn increasing(v: Seq<int>) -> bool {
    forall|i: int, j: int| 0 <= i < j < v.len() ==> #[trigger] v[i] < #[trigger] v[j]
}

proof fn lemma_chunk_index(x: int, k: int)
    requires
        64 * k <= x < 64 * k + 64,
    ensures
        x / 64 == k,
        x % 64 == x - 64 * k,
{
    assert(x / 64 == k && x % 64 == x - 64 * k) by (nonlinear_arith)
        requires
            64 * k <= x < 64 * k + 64,
    ;
}

/// Splitting a chunk range splits the list of indices.
pub proof fn lemma_values_concat(s: Seq<u64>, lo: int, mid: int, hi: int)
    requires
        lo <= mid <= hi,
    ensures
        values_in(s, lo, hi) == values_in(s, lo, mid) + values_in(s, mid, hi),
    decreases mid - lo,
{
    if lo < mid {
        lemma_values_concat(s, lo + 1, mid, hi);
        assert(values_in(s, lo, hi) =~= chunk_values(s[lo], lo) + (values_in(s, lo + 1, mid)
            + values_in(s, mid, hi)));
    } else {
        assert(values_in(s, lo, hi) =~= values_in(s, lo, mid) + values_in(s, mid, hi));
    }
}

/// The last chunk of a range contributes the last indices.
pub proof fn lemma_values_split_last(s: Seq<u64>, lo: int, hi: int)
    requires
        lo < hi,
    ensures
        values_in(s, lo, hi) == values_in(s, lo, hi - 1) + chunk_values(s[hi - 1], hi - 1),
{
    lemma_values_concat(s, lo, hi - 1, hi);
    assert(values_in(s, hi, hi) =~= Seq::<int>::empty());
    assert(values_in(s, hi - 1, hi) =~= chunk_values(s[hi - 1], hi - 1));
}

/// The indices of one chunk lie in it, increase, and are its set bits.
pub proof fn lemma_chunk_shape(w: u64, k: int)
    ensures
        increasing(chunk_values(w, k)),
        forall|i: int|
            0 <= i < chunk_values(w, k).len() ==> 64 * k <= #[trigger] chunk_values(w, k)[i] < 64
                * k + 64,
        forall|x: int|
            64 * k <= x < 64 * k + 64 ==> (#[trigger] chunk_values(w, k).contains(x) <==> bit(
                w,
                x - 64 * k,
            )),
        chunk_values(w, k).len() == popcount(w),
        chunk_values(w, k).len() <= 64,
{
    lemma_bits_in_shape(w, 0, 64);
    let cv = chunk_values(w, k);
    assert forall|x: int| 64 * k <= x < 64 * k + 64 implies (#[trigger] cv.contains(x) <==> bit(
        w,
        x - 64 * k,
    )) by {
        if bit(w, x - 64 * k) {
            assert(ones(w).contains(x - 64 * k));
            let j = choose|j: int| 0 <= j < ones(w).len() && ones(w)[j] == x - 64 * k;
            assert(cv[j] == x);
        }
        if cv.contains(x) {
            let j = choose|j: int| 0 <= j < cv.len() && cv[j] == x;
            assert(ones(w)[j] == x - 64 * k);
        }
    }
}

/// The indices of chunks `lo..hi` lie in them, increase, and are exactly the
/// indices set there.
pub proof fn lemma_values_shape(s: Seq<u64>, lo: int, hi: int)
    requires
        0 <= lo,
        hi <= s.len(),
    ensures
        increasing(values_in(s, lo, hi)),
        forall|i: int|
            0 <= i < values_in(s, lo, hi).len() ==> 64 * lo <= #[trigger] values_in(s, lo, hi)[i]
                < 64 * hi,
        forall|x: int|
            #[trigger] values_in(s, lo, hi).contains(x) <==> (64 * lo <= x < 64 * hi && holds(s, x)),
    decreases hi - lo,
{
    let v = values_in(s, lo, hi);
    if lo < hi {
        lemma_values_shape(s, lo + 1, hi);
        lemma_chunk_shape(s[lo], lo);
        let cv = chunk_values(s[lo], lo);
        let rest = values_in(s, lo + 1, hi);
        assert(v == cv + rest);
        assert forall|i: int| 0 <= i < v.len() implies 64 * lo <= #[trigger] v[i] < 64 * hi by {
            if i < cv.len() {
                assert(v[i] == cv[i]);
            } else {
                assert(v[i] == rest[i - cv.len()]);
            }
        }
        assert forall|i: int, j: int| 0 <= i < j < v.len() implies #[trigger] v[i] < #[trigger] v[j] by {
            if j < cv.len() {
                assert(v[i] == cv[i] && v[j] == cv[j]);
            } else if i < cv.len() {
                assert(v[i] == cv[i] && v[j] == rest[j - cv.len()]);
            } else {
                assert(v[i] == rest[i - cv.len()] && v[j] == rest[j - cv.len()]);
            }
        }
        assert forall|x: int| #[trigger] v.contains(x) <==> (64 * lo <= x < 64 * hi && holds(s, x)) by {
            if v.contains(x) {
                let j = choose|j: int| 0 <= j < v.len() && v[j] == x;
                if j < cv.len() {
                    assert(cv.contains(x));
                } else {
                    assert(rest[j - cv.len()] == x);
                    assert(rest.contains(x));
                }
            }
            if 64 * lo <= x < 64 * lo + 64 {
                lemma_chunk_index(x, lo);
                if holds(s, x) {
                    assert(cv.contains(x));
                    let j = choose|j: int| 0 <= j < cv.len() && cv[j] == x;
                    assert(v[j] == x);
                }
            } else if 64 * lo + 64 <= x < 64 * hi && holds(s, x) {
                assert(rest.contains(x));
                let j = choose|j: int| 0 <= j < rest.len() && rest[j] == x;
                assert(v[j + cv.len()] == x);
            }
        }
    }
}

/// The set held by `s` is finite, its sorted list is `values(s)`, and its
/// size is `count(s)`.
pub proof fn lemma_members(s: Seq<u64>)
    ensures
        increasing(values(s)),
        values(s).to_set() == members(s),
        members(s).finite(),
        members(s).len() == count(s),
        forall|x: int| #[trigger] values(s).contains(x) <==> holds(s, x),
{
    let v = values(s);
    lemma_values_shape(s, 0, s.len() as int);
    assert forall|x: int| #[trigger] v.contains(x) <==> holds(s, x) by {
        if holds(s, x) {
            assert(0 <= x);
            assert(x < 64 * s.len()) by (nonlinear_arith)
                requires
                    0 <= x,
                    x / 64 < s.len(),
            ;
        }
    }
    assert(v.to_set() =~= members(s));
    assert(v.no_duplicates()) by {
        assert forall|i: int, j: int| 0 <= i < v.len() && 0 <= j < v.len() && i != j implies v[i]
            != v[j] by {
            if i < j {
                assert(v[i] < v[j]);
            } else {
                assert(v[j] < v[i]);
            }
        }
    }
    v.unique_seq_to_set();
}

/// Replacing one word inside a chunk range changes the count of that range
/// by the difference of the two words' counts.
pub proof fn lemma_count_update(s: Seq<u64>, k: int, w: u64, lo: int, hi: int)
    requires
        0 <= k < s.len(),
        0 <= lo,
        hi <= s.len(),
    ensures
        lo <= k < hi ==> values_in(s.update(k, w), lo, hi).len() == values_in(s, lo, hi).len()
            - popcount(s[k]) + popcount(w),
        !(lo <= k < hi) ==> values_in(s.update(k, w), lo, hi) == values_in(s, lo, hi),
    decreases hi - lo,
{
    if lo < hi {
        lemma_count_update(s, k, w, lo + 1, hi);
        lemma_chunk_shape(s[k], k);
        lemma_chunk_shape(w, k);
        let t = s.update(k, w);
        assert(values_in(t, lo, hi) == chunk_values(t[lo], lo) + values_in(t, lo + 1, hi));
        assert(values_in(s, lo, hi) == chunk_values(s[lo], lo) + values_in(s, lo + 1, hi));
        if lo != k {
            assert(t[lo] == s[lo]);
        }
    }
}

/// Chunks that are all zero hold no index, and a range that holds no index
/// has only zero chunks.
pub proof fn lemma_values_zero(s: Seq<u64>, lo: int, hi: int)
    requires
        0 <= lo,
        hi <= s.len(),
    ensures
        (forall|k: int| lo <= k < hi ==> s[k] == 0) <==> values_in(s, lo, hi).len() == 0,
    decreases hi - lo,
{
    if lo < hi {
        lemma_values_zero(s, lo + 1, hi);
        crate::inner::lemma_full_and_empty();
        lemma_chunk_shape(s[lo], lo);
        if s[lo] != 0 {
            crate::inner::lemma_clear_lowest(s[lo]);
        }
    }
}

/// A chunk range holds at most 64 indices per chunk.
pub proof fn lemma_count_bound(s: Seq<u64>, lo: int, hi: int)
    requires
        lo <= hi,
    ensures
        values_in(s, lo, hi).len() <= 64 * (hi - lo),
    decreases hi - lo,
{
    if lo < hi {
        lemma_count_bound(s, lo + 1, hi);
        lemma_chunk_shape(s[lo], lo);
    }
}

/// The indices `lo..hi`.
pub open spec fn range_set(lo: int, hi: int) -> Set<int> {
    Set::new(|i: int| lo <= i < hi)
}

/// Word sequences that agree on chunks `lo..hi` hold the same indices there.
pub proof fn lemma_values_agree(s: Seq<u64>, t: Seq<u64>, lo: int, hi: int)
    requires
        0 <= lo,
        hi <= s.len(),
        hi <= t.len(),
        forall|k: int| lo <= k < hi ==> s[k] == t[k],
    ensures
        values_in(s, lo, hi) == values_in(t, lo, hi),
    decreases hi - lo,
{
    if lo < hi {
        lemma_values_agree(s, t, lo + 1, hi);
    }
}

/// Appending zero words keeps the indices and the count.
pub proof fn lemma_zero_extend(s: Seq<u64>, t: Seq<u64>)
    requires
        s.len() <= t.len(),
        t.subrange(0, s.len() as int) == s,
        forall|k: int| s.len() <= k < t.len() ==> t[k] == 0,
    ensures
        members(t) == members(s),
        count(t) == count(s),
{
    lemma_values_concat(t, 0, s.len() as int, t.len() as int);
    assert forall|k: int| 0 <= k < s.len() implies s[k] == t[k] by {
        assert(t.subrange(0, s.len() as int)[k] == t[k]);
    }
    lemma_values_agree(s, t, 0, s.len() as int);
    lemma_values_zero(t, s.len() as int, t.len() as int);
    lemma_full_and_empty();
    assert(members(t) =~= members(s)) by {
        assert forall|i: int| holds(t, i) == holds(s, i) by {
            if 0 <= i && i / 64 < s.len() {
                assert(s[i / 64] == t[i / 64]);
            }
        }
    }
}

/// Replacing word `k` changes only the indices of chunk `k`.
proof fn lemma_has_update(s: Seq<u64>, k: int, w: u64, i: int)
    requires
        0 <= k < s.len(),
    ensures
        holds(s.update(k, w), i) == if 0 <= i && i / 64 == k {
            bit(w, i % 64)
        } else {
            holds(s, i)
        },
{
}

/// Whether `i` is in chunk `k`.
proof fn lemma_in_chunk(i: int, k: int)
    requires
        0 <= k,
    ensures
        (0 <= i && i / 64 == k) <==> 64 * k <= i < 64 * k + 64,
{
    if 64 * k <= i < 64 * k + 64 {
        lemma_chunk_index(i, k);
    }
    if 0 <= i && i / 64 == k {
        assert(64 * k <= i < 64 * k + 64) by (nonlinear_arith)
            requires
                0 <= i,
                i / 64 == k,
        ;
    }
}

/// Setting the bit of `v` adds `v`, and one to the count unless it was there.
pub proof fn lemma_set_bit(s: Seq<u64>, v: int)
    requires
        0 <= v < 64 * s.len(),
    ensures
        0 <= v / 64 < s.len(),
        ({
            let t = s.update(v / 64, s[v / 64] | (1u64 << ((v % 64) as u64)));
            &&& members(t) == members(s).insert(v)
            &&& count(t) == count(s) + if holds(s, v) { 0int } else { 1int }
        }),
{
    let k = v / 64;
    lemma_in_chunk(v, (v / 64));
    let b = (v % 64) as u64;
    let w = s[k] | (1u64 << b);
    let t = s.update(k, w);
    lemma_single_bit(s[k], b);
    assert forall|i: int| holds(t, i) == (holds(s, i) || i == v) by {
        lemma_has_update(s, k, w, i);
        if 0 <= i && i / 64 == k {
            lemma_in_chunk(i, k);
        }
    }
    assert(members(t) =~= members(s).insert(v));
    lemma_count_update(s, k, w, 0, s.len() as int);
    if !holds(s, v) {
        lemma_popcount_flip(s[k], w, b as int);
    } else {
        assert(t =~= s);
    }
}

/// Clearing the bit of `v` removes `v`, and one from the count if it was there.
pub proof fn lemma_clear_bit(s: Seq<u64>, v: int)
    requires
        0 <= v < 64 * s.len(),
    ensures
        0 <= v / 64 < s.len(),
        ({
            let t = s.update(v / 64, s[v / 64] & !(1u64 << ((v % 64) as u64)));
            &&& members(t) == members(s).remove(v)
            &&& count(t) + if holds(s, v) { 1int } else { 0int } == count(s)
        }),
{
    let k = v / 64;
    lemma_in_chunk(v, (v / 64));
    let b = (v % 64) as u64;
    let w = s[k] & !(1u64 << b);
    let t = s.update(k, w);
    lemma_single_bit(s[k], b);
    assert forall|i: int| holds(t, i) == (holds(s, i) && i != v) by {
        lemma_has_update(s, k, w, i);
        if 0 <= i && i / 64 == k {
            lemma_in_chunk(i, k);
        }
    }
    assert(members(t) =~= members(s).remove(v));
    lemma_count_update(s, k, w, 0, s.len() as int);
    if holds(s, v) {
        lemma_popcount_flip(w, s[k], b as int);
    } else {
        assert(t =~= s);
    }
}

/// Filling chunk `k` adds its indices; emptying it removes them.
pub proof fn lemma_fill_chunk(s: Seq<u64>, k: int)
    requires
        0 <= k < s.len(),
    ensures
        members(s.update(k, 0xffff_ffff_ffff_ffffu64)) == members(s).union(
            range_set(64 * k, 64 * k + 64),
        ),
        count(s.update(k, 0xffff_ffff_ffff_ffffu64)) == count(s) - popcount(s[k]) + 64,
        members(s.update(k, 0u64)) == members(s).difference(range_set(64 * k, 64 * k + 64)),
        count(s.update(k, 0u64)) == count(s) - popcount(s[k]),
{
    lemma_full_and_empty();
    let full = s.update(k, 0xffff_ffff_ffff_ffffu64);
    let empty = s.update(k, 0u64);
    assert forall|i: int| holds(full, i) == (holds(s, i) || 64 * k <= i < 64 * k + 64) by {
        lemma_has_update(s, k, 0xffff_ffff_ffff_ffffu64, i);
        lemma_in_chunk(i, k);
        if 0 <= i && i / 64 == k {
            assert(0 <= i % 64 < 64);
        }
    }
    assert forall|i: int| holds(empty, i) == (holds(s, i) && !(64 * k <= i < 64 * k + 64)) by {
        lemma_has_update(s, k, 0u64, i);
        lemma_in_chunk(i, k);
    }
    assert(members(full) =~= members(s).union(range_set(64 * k, 64 * k + 64)));
    assert(members(empty) =~= members(s).difference(range_set(64 * k, 64 * k + 64)));
    lemma_count_update(s, k, 0xffff_ffff_ffff_ffffu64, 0, s.len() as int);
    lemma_count_update(s, k, 0u64, 0, s.len() as int);
}

} // verus!
