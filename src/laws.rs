//! Properties that hold across the operations of a set, stated over the
//! model that the operations' contracts use.

use vstd::prelude::*;

use crate::words::{count, increasing, lemma_members, members, range_set, values};

verus! {

/// The set after adding `start..end` to `m` one value at a time, in
/// increasing order.
pub open spec fn insert_each(m: Set<int>, start: int, end: int) -> Set<int>
    decreases end - start,
{
    if start >= end {
        m
    } else {
        insert_each(m.insert(start), start + 1, end)
    }
}

/// The set after removing `start..end` from `m` one value at a time, in
/// increasing order.
pub open spec fn remove_each(m: Set<int>, start: int, end: int) -> Set<int>
    decreases end - start,
{
    if start >= end {
        m
    } else {
        remove_each(m.remove(start), start + 1, end)
    }
}

/// The cardinality that a set tracks, its count of set bits, is the number
/// of values for which it answers that it holds them.
pub proof fn law_cardinality(s: Seq<u64>)
    ensures
        members(s).finite(),
        members(s).len() == count(s),
{
    lemma_members(s);
}

/// The descending order of a set is its ascending order reversed: the
/// ascending list strictly increases, the descending list strictly
/// decreases, and each lists exactly the values held.
pub proof fn law_descending_reverses_ascending(s: Seq<u64>)
    ensures
        increasing(values(s)),
        forall|i: int, j: int|
            0 <= i < j < values(s).len() ==> #[trigger] values(s).reverse()[i] > #[trigger] values(
                s,
            ).reverse()[j],
        values(s).to_set() == members(s),
        values(s).reverse().to_set() == members(s),
{
    lemma_members(s);
    let v = values(s);
    let r = v.reverse();
    assert forall|i: int, j: int| 0 <= i < j < v.len() implies #[trigger] r[i] > #[trigger] r[j] by {
        assert(v[v.len() - 1 - j] < v[v.len() - 1 - i]);
    }
    assert forall|x: int| r.contains(x) <==> v.contains(x) by {
        if r.contains(x) {
            let i = choose|i: int| 0 <= i < r.len() && r[i] == x;
            assert(v[v.len() - 1 - i] == x);
        }
        if v.contains(x) {
            let i = choose|i: int| 0 <= i < v.len() && v[i] == x;
            assert(r[v.len() - 1 - i] == x);
        }
    }
    assert(r.to_set() =~= v.to_set());
}

/// Adding a value that the set does not hold and then removing it gives
/// back the same values and the same cardinality; adding a value that it
/// already holds changes neither.
pub proof fn law_insert_remove_round_trip(s: Seq<u64>, v: int)
    ensures
        !members(s).contains(v) ==> members(s).insert(v).remove(v) == members(s)
            && members(s).insert(v).remove(v).len() == count(s),
        members(s).contains(v) ==> members(s).insert(v) == members(s) && members(s).insert(
            v,
        ).len() == count(s),
{
    lemma_members(s);
    assert(!members(s).contains(v) ==> members(s).insert(v).remove(v) =~= members(s));
    assert(members(s).contains(v) ==> members(s).insert(v) =~= members(s));
}

/// Adding a value twice leaves the same values as adding it once, and the
/// second addition finds it present; clearing twice leaves the same words
/// as clearing once.
pub proof fn law_idempotence(s: Seq<u64>, v: int)
    ensures
        members(s).insert(v).insert(v) == members(s).insert(v),
        members(s).insert(v).contains(v),
        Seq::new(Seq::new(s.len(), |_i: int| 0u64).len(), |_i: int| 0u64) == Seq::new(
            s.len(),
            |_i: int| 0u64,
        ),
{
    assert(members(s).insert(v).insert(v) =~= members(s).insert(v));
    assert(Seq::new(Seq::new(s.len(), |_i: int| 0u64).len(), |_i: int| 0u64) =~= Seq::new(
        s.len(),
        |_i: int| 0u64,
    ));
}

/// Adding or removing the range `start..end` at once gives the same set as
/// adding or removing its values one at a time.
pub proof fn law_range_is_single_steps(m: Set<int>, start: int, end: int)
    requires
        start <= end,
    ensures
        m.union(range_set(start, end)) == insert_each(m, start, end),
        m.difference(range_set(start, end)) == remove_each(m, start, end),
    decreases end - start,
{
    if start < end {
        law_range_is_single_steps(m.insert(start), start + 1, end);
        law_range_is_single_steps(m.remove(start), start + 1, end);
        assert(m.union(range_set(start, end)) =~= m.insert(start).union(range_set(start + 1, end)));
        assert(m.difference(range_set(start, end)) =~= m.remove(start).difference(
            range_set(start + 1, end),
        ));
    } else {
        assert(m.union(range_set(start, end)) =~= m);
        assert(m.difference(range_set(start, end)) =~= m);
    }
}

/// A set holds no value at or beyond its capacity of 64 values per word.
pub proof fn law_nothing_beyond_capacity(s: Seq<u64>, v: int)
    requires
        v >= 64 * s.len(),
    ensures
        !members(s).contains(v),
{
    assert(v / 64 >= s.len()) by (nonlinear_arith)
        requires
            v >= 64 * s.len(),
    ;
}

} // verus!
