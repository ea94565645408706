//! Distributing the elements of a region over the bins, in one pass.

use vstd::prelude::*;
use crate::mapper::{bin_index, calibratable, Calibration};

verus! {

/// The test that a value goes to bin `b`.
pub open spec fn in_bin(pivots: Seq<i32>, bins: int, b: int) -> spec_fn(i32) -> bool {
    |v: i32| bin_index(pivots, bins, v) == b
}

/// The elements of `region` that go to bin `b`, in the order in which they
/// stand in the region.
pub open spec fn bin_members(region: Seq<i32>, pivots: Seq<i32>, bins: int, b: int) -> Seq<i32> {
    region.filter(in_bin(pivots, bins, b))
}

/// The sizes of the bins, added up.
pub open spec fn total_len(bins: Seq<Vec<i32>>) -> nat
    decreases bins.len(),
{
    if bins.len() == 0 {
        0
    } else {
        total_len(bins.drop_last()) + bins.last()@.len()
    }
}

/// Empty bins hold nothing.
pub proof fn lemma_total_len_empty(bins: Seq<Vec<i32>>)
    requires
        forall|b: int| 0 <= b < bins.len() ==> (#[trigger] bins[b])@.len() == 0,
    ensures
        total_len(bins) == 0,
    decreases bins.len(),
{
    if bins.len() > 0 {
        lemma_total_len_empty(bins.drop_last());
    }
}

/// Replacing one bin changes the total by the change of that bin's size.
pub proof fn lemma_total_len_update(bins: Seq<Vec<i32>>, b: int, bin: Vec<i32>)
    requires
        0 <= b < bins.len(),
    ensures
        total_len(bins.update(b, bin)) == total_len(bins) - bins[b]@.len() + bin@.len(),
    decreases bins.len(),
{
    let after = bins.update(b, bin);
    if b == bins.len() - 1 {
        assert(after.drop_last() =~= bins.drop_last());
    } else {
        lemma_total_len_update(bins.drop_last(), b, bin);
        assert(after.drop_last() =~= bins.drop_last().update(b, bin));
    }
}

/// `count` empty bins.
fn empty_bins(count: usize) -> (bins: Vec<Vec<i32>>)
    ensures
        bins@.len() == count,
        forall|b: int| 0 <= b < count ==> (#[trigger] bins@[b])@ == Seq::<i32>::empty(),
{
    let mut bins: Vec<Vec<i32>> = Vec::new();
    let mut b: usize = 0;
    while b < count
        invariant
            b <= count,
            bins@.len() == b,
            forall|k: int| 0 <= k < b ==> (#[trigger] bins@[k])@ == Seq::<i32>::empty(),
        decreases count - b,
    {
        bins.push(Vec::new());
        b = b + 1;
    }
    bins
}

/// Distributes the elements of the region `arr[l..=r]` over `count` bins: each
/// element is appended to the bin that the calibration gives for it. Every
/// bin ends up holding the elements that belong to it, in the order in which
/// they stand in the region, so no element is lost and none is added.
pub fn distribute(
    arr: &[i32],
    l: usize,
    r: usize,
    pivots: &[i32],
    table: &Calibration,
    count: usize,
) -> (bins: Vec<Vec<i32>>)
    requires
        l <= r < arr@.len(),
        calibratable(pivots@, count as int),
        table.calibrates(pivots@, count as int),
    ensures
        bins@.len() == count,
        forall|b: int|
            0 <= b < count ==> (#[trigger] bins@[b])@ == bin_members(
                arr@.subrange(l as int, r + 1),
                pivots@,
                count as int,
                b,
            ),
        total_len(bins@) == r - l + 1,
{
    let ghost region = arr@.subrange(l as int, r + 1);
    let len: usize = arr.len();
    let n: usize = r - l + 1;
    let mut bins: Vec<Vec<i32>> = empty_bins(count);
    proof {
        lemma_total_len_empty(bins@);
        assert forall|b: int| 0 <= b < count implies (#[trigger] bins@[b])@ == bin_members(
            region.take(0),
            pivots@,
            count as int,
            b,
        ) by {
            reveal(Seq::filter);
        }
    }
    let mut k: usize = 0;
    while k < n
        invariant
            k <= n,
            n == r - l + 1,
            l <= r < arr@.len() == len,
            region == arr@.subrange(l as int, r + 1),
            calibratable(pivots@, count as int),
            table.calibrates(pivots@, count as int),
            bins@.len() == count,
            forall|b: int|
                0 <= b < count ==> (#[trigger] bins@[b])@ == bin_members(
                    region.take(k as int),
                    pivots@,
                    count as int,
                    b,
                ),
            total_len(bins@) == k,
        decreases n - k,
    {
        let v: i32 = arr[l + k];
        let target: usize = table.bin_of(pivots, count, v);
        let ghost before = bins@;
        bins[target].push(v);
        proof {
            let seen = region.take(k as int);
            assert(region.take(k + 1) =~= seen.push(v));
            assert(bins@ =~= before.update(target as int, bins@[target as int]));
            lemma_total_len_update(before, target as int, bins@[target as int]);
            assert forall|b: int| 0 <= b < count implies (#[trigger] bins@[b])@ == bin_members(
                region.take(k + 1),
                pivots@,
                count as int,
                b,
            ) by {
                seen.lemma_filter_push(v, in_bin(pivots@, count as int, b));
                assert(before[b]@ == bin_members(seen, pivots@, count as int, b));
            }
        }
        k = k + 1;
    }
    proof {
        assert(region.take(n as int) =~= region);
    }
    bins
}

} // verus!
