//! Finding the pivot interval that a value falls into.

use vstd::prelude::*;
use crate::order::sorted;

verus! {

/// The first index at or after `from` whose pivot is at least `e`, found by
/// looking at the pivots one after another; the length of `pivots` if there is
/// none.
pub open spec fn first_at_least(pivots: Seq<i32>, e: i32, from: int) -> int
    decreases pivots.len() - from,
{
    if from < 0 || from >= pivots.len() {
        pivots.len() as int
    } else if pivots[from] >= e {
        from
    } else {
        first_at_least(pivots, e, from + 1)
    }
}

/// The interval of `e` among sorted `pivots`: the smallest index whose pivot is
/// at least `e`, or the last index where `e` exceeds every pivot. With no pivot
/// at all it is 0.
pub open spec fn position(pivots: Seq<i32>, e: i32) -> int {
    let first = first_at_least(pivots, e, 0);
    if first < pivots.len() {
        first
    } else if pivots.len() == 0 {
        0
    } else {
        pivots.len() - 1
    }
}

/// What the scan from `from` finds: every pivot it passes is below `e`, and
/// where it stops short of the end the pivot there is at least `e`.
pub proof fn lemma_first_at_least(pivots: Seq<i32>, e: i32, from: int)
    requires
        0 <= from <= pivots.len(),
    ensures
        from <= first_at_least(pivots, e, from) <= pivots.len(),
        forall|k: int| from <= k < first_at_least(pivots, e, from) ==> pivots[k] < e,
        first_at_least(pivots, e, from) < pivots.len() ==> pivots[first_at_least(pivots, e, from)]
            >= e,
    decreases pivots.len() - from,
{
    if from < pivots.len() && pivots[from] < e {
        lemma_first_at_least(pivots, e, from + 1);
    }
}

/// An index that has only smaller pivots before it, and is either the end or
/// holds a pivot that is at least `e`, is the one that the scan finds.
pub proof fn lemma_first_at_least_is(pivots: Seq<i32>, e: i32, k: int)
    requires
        0 <= k <= pivots.len(),
        forall|j: int| 0 <= j < k ==> pivots[j] < e,
        k < pivots.len() ==> pivots[k] >= e,
    ensures
        first_at_least(pivots, e, 0) == k,
{
    lemma_first_at_least(pivots, e, 0);
    let found = first_at_least(pivots, e, 0);
    if found < k {
        assert(pivots[found] < e);
    } else if k < found {
        assert(pivots[k] < e);
    }
}

/// The interval contract. Among sorted pivots, of which there is at least one,
/// the position of `e` is an index of the sequence; every pivot before it is
/// below `e`; every pivot from it on is at least `e`, unless `e` exceeds all
/// pivots, and then it is the last index; and where `e` is itself a pivot, the
/// pivot at the position is `e`.
pub proof fn lemma_position_interval(pivots: Seq<i32>, e: i32)
    requires
        sorted(pivots),
        pivots.len() > 0,
    ensures
        0 <= position(pivots, e) < pivots.len(),
        forall|k: int| 0 <= k < position(pivots, e) ==> pivots[k] < e,
        pivots[position(pivots, e)] >= e ==> forall|k: int|
            position(pivots, e) <= k < pivots.len() ==> pivots[k] >= e,
        pivots[position(pivots, e)] < e ==> position(pivots, e) == pivots.len() - 1 && forall|
            k: int,
        | 0 <= k < pivots.len() ==> pivots[k] < e,
        pivots.contains(e) ==> pivots[position(pivots, e)] == e,
{
    lemma_first_at_least(pivots, e, 0);
    let pos = position(pivots, e);
    if pivots.contains(e) {
        let at = choose|at: int| 0 <= at < pivots.len() && pivots[at] == e;
        if at < pos {
            assert(pivots[at] < e);
        }
        assert(pivots[pos] <= pivots[at]);
    }
}

/// A larger value never falls into an earlier interval.
pub proof fn lemma_position_monotone(pivots: Seq<i32>, e1: i32, e2: i32)
    requires
        sorted(pivots),
        e1 <= e2,
    ensures
        position(pivots, e1) <= position(pivots, e2),
{
    lemma_first_at_least(pivots, e1, 0);
    lemma_first_at_least(pivots, e2, 0);
    let first1 = first_at_least(pivots, e1, 0);
    let first2 = first_at_least(pivots, e2, 0);
    if first2 < first1 {
        assert(pivots[first2] < e1);
    }
}

/// Binary search among the first `n` values of `a`, which are sorted, for the
/// interval of `e`.
pub fn search(a: &[i32], n: usize, e: i32) -> (pos: usize)
    requires
        n <= a@.len(),
        sorted(a@.take(n as int)),
    ensures
        pos == position(a@.take(n as int), e),
{
    let ghost pivots = a@.take(n as int);
    let mut lo: usize = 0;
    let mut hi: usize = n;
    while lo < hi
        invariant
            lo <= hi <= n <= a@.len(),
            pivots == a@.take(n as int),
            sorted(pivots),
            forall|k: int| 0 <= k < lo ==> pivots[k] < e,
            forall|k: int| hi <= k < n ==> pivots[k] >= e,
        decreases hi - lo,
    {
        let mid: usize = lo + (hi - lo) / 2;
        assert(pivots[mid as int] == a@[mid as int]);
        if e == a[mid] {
            // A match; the first of several equal pivots is here or before.
            assert forall|k: int| mid <= k < n implies pivots[k] >= e by {
                assert(pivots[mid as int] <= pivots[k]);
            }
            hi = mid;
        } else if e > a[mid] {
            assert forall|k: int| 0 <= k < mid + 1 implies pivots[k] < e by {
                assert(pivots[k] <= pivots[mid as int]);
            }
            lo = mid + 1;
        } else {
            assert forall|k: int| mid <= k < n implies pivots[k] >= e by {
                assert(pivots[mid as int] <= pivots[k]);
            }
            hi = mid;
        }
    }
    proof {
        lemma_first_at_least_is(pivots, e, lo as int);
    }
    if lo < n {
        lo
    } else if n == 0 {
        0
    } else {
        n - 1
    }
}

} // verus!
