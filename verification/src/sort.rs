//! The sort itself: sample, calibrate, distribute, then sort every bin, by the
//! comparison sort or by this sort again, and write the bins back in order.

use vstd::prelude::*;
use vstd::seq_lib::{group_to_multiset_ensures, lemma_multiset_commutative};
use vstd::multiset::group_multiset_axioms;
use crate::binner::{bin_members, distribute, in_bin};
use crate::direct::direct_sort;
use crate::mapper::{
    bin_index,
    calibratable,
    calibrate,
    lemma_bin_index_in_range,
    lemma_bin_index_monotone,
    Calibration,
};
use crate::order::{
    all_at_most,
    is_sorting_of,
    lemma_sorted_concat,
    lemma_sorting_sorted_is_identity,
    same_elements,
    sorted,
};
use crate::sampler::sample;
use crate::sizing::{bin_count, is_sorted_directly, lemma_bin_count_bounds, tree_size};
use crate::source::RandomSource;

verus! {

/// Why a sort was refused.
#[derive(Clone, Copy, Debug, PartialEq, Eq)]
pub enum SortError {
    /// The range does not lie within the array, or its left end is more than
    /// one past its right end.
    InvalidRange,
}

/// The closed range `l ..= r` lies within an array of `len` elements. The
/// empty range is written with `l == r + 1`.
pub open spec fn valid_range(len: int, l: int, r: int) -> bool {
    0 <= l <= r + 1 <= len
}

/// `after` is `before` with the closed range `l ..= r` sorted: the same length,
/// the same values outside the range, and within it the values of `before` in
/// non-decreasing order.
pub open spec fn sorts_range(before: Seq<i32>, after: Seq<i32>, l: int, r: int) -> bool {
    &&& after.len() == before.len()
    &&& forall|k: int| 0 <= k < before.len() && !(l <= k <= r) ==> after[k] == before[k]
    &&& is_sorting_of(after.subrange(l, r + 1), before.subrange(l, r + 1))
}

/// The test that a value goes to a bin before bin `b`.
pub open spec fn below_bin(pivots: Seq<i32>, bins: int, b: int) -> spec_fn(i32) -> bool {
    |v: i32| bin_index(pivots, bins, v) < b
}

/// The elements of `region` that go to a bin before bin `b`.
pub open spec fn members_below(region: Seq<i32>, pivots: Seq<i32>, bins: int, b: int) -> Seq<i32> {
    region.filter(below_bin(pivots, bins, b))
}

/// The elements that go to a bin before `b + 1` are those that go to a bin
/// before `b` together with those of bin `b`.
pub proof fn lemma_members_split(region: Seq<i32>, pivots: Seq<i32>, bins: int, b: int)
    ensures
        members_below(region, pivots, bins, b + 1).to_multiset() == members_below(
            region,
            pivots,
            bins,
            b,
        ).to_multiset().add(bin_members(region, pivots, bins, b).to_multiset()),
    decreases region.len(),
{
    broadcast use group_to_multiset_ensures;
    broadcast use group_multiset_axioms;

    if region.len() == 0 {
        reveal(Seq::filter);
        assert(members_below(region, pivots, bins, b + 1).to_multiset() =~= members_below(
            region,
            pivots,
            bins,
            b,
        ).to_multiset().add(bin_members(region, pivots, bins, b).to_multiset()));
    } else {
        let init = region.drop_last();
        let x = region.last();
        assert(region =~= init.push(x));
        lemma_members_split(init, pivots, bins, b);
        init.lemma_filter_push(x, below_bin(pivots, bins, b + 1));
        init.lemma_filter_push(x, below_bin(pivots, bins, b));
        init.lemma_filter_push(x, in_bin(pivots, bins, b));
        assert(members_below(region, pivots, bins, b + 1).to_multiset() =~= members_below(
            region,
            pivots,
            bins,
            b,
        ).to_multiset().add(bin_members(region, pivots, bins, b).to_multiset()));
    }
}

/// Every element goes to a bin before the number of bins.
pub proof fn lemma_members_below_all(region: Seq<i32>, pivots: Seq<i32>, bins: int)
    requires
        bins >= 1,
    ensures
        members_below(region, pivots, bins, bins) == region,
    decreases region.len(),
{
    if region.len() == 0 {
        reveal(Seq::filter);
    } else {
        let init = region.drop_last();
        let x = region.last();
        assert(region =~= init.push(x));
        lemma_members_below_all(init, pivots, bins);
        init.lemma_filter_push(x, below_bin(pivots, bins, bins));
        lemma_bin_index_in_range(pivots, bins, x);
    }
}

/// No element that goes to a bin before `b` is larger than one of bin `b`.
pub proof fn lemma_earlier_bins_at_most(
    prefix: Seq<i32>,
    bin: Seq<i32>,
    region: Seq<i32>,
    pivots: Seq<i32>,
    bins: int,
    b: int,
)
    requires
        calibratable(pivots, bins),
        same_elements(prefix, members_below(region, pivots, bins, b)),
        same_elements(bin, bin_members(region, pivots, bins, b)),
    ensures
        all_at_most(prefix, bin),
{
    broadcast use group_to_multiset_ensures;

    let below = members_below(region, pivots, bins, b);
    let members = bin_members(region, pivots, bins, b);
    assert forall|i: int, j: int| 0 <= i < prefix.len() && 0 <= j < bin.len() implies prefix[i]
        <= bin[j] by {
        let p = prefix[i];
        let s = bin[j];
        assert(prefix.contains(p));
        assert(bin.contains(s));
        assert(below.to_multiset().count(p) > 0);
        assert(members.to_multiset().count(s) > 0);
        assert(below.contains(p));
        assert(members.contains(s));
        let pi = choose|pi: int| 0 <= pi < below.len() && below[pi] == p;
        let si = choose|si: int| 0 <= si < members.len() && members[si] == s;
        region.lemma_filter_pred(below_bin(pivots, bins, b), pi);
        region.lemma_filter_pred(in_bin(pivots, bins, b), si);
        if s < p {
            lemma_bin_index_monotone(pivots, bins, s, p);
        }
    }
}

/// Bin `b` fits behind the bins before it: together they hold what goes to a
/// bin before `b + 1`, which is no more than the region holds.
pub proof fn lemma_bin_fits(
    prefix: Seq<i32>,
    bin: Seq<i32>,
    region: Seq<i32>,
    pivots: Seq<i32>,
    bins: int,
    b: int,
)
    requires
        same_elements(prefix, members_below(region, pivots, bins, b)),
        same_elements(bin, bin_members(region, pivots, bins, b)),
    ensures
        same_elements(prefix + bin, members_below(region, pivots, bins, b + 1)),
        prefix.len() + bin.len() <= region.len(),
{
    broadcast use group_to_multiset_ensures;

    let upto = members_below(region, pivots, bins, b + 1);
    lemma_members_split(region, pivots, bins, b);
    lemma_multiset_commutative(prefix, bin);
    region.lemma_filter_len(below_bin(pivots, bins, b + 1));
    assert((prefix + bin).to_multiset().len() == upto.to_multiset().len());
}

/// Appending the sorted bin `b` to the sorted bins before it gives a sorted
/// sequence.
pub proof fn lemma_append_sorted_bin(
    prefix: Seq<i32>,
    bin: Seq<i32>,
    region: Seq<i32>,
    pivots: Seq<i32>,
    bins: int,
    b: int,
)
    requires
        calibratable(pivots, bins),
        sorted(prefix),
        same_elements(prefix, members_below(region, pivots, bins, b)),
        is_sorting_of(bin, bin_members(region, pivots, bins, b)),
    ensures
        sorted(prefix + bin),
{
    lemma_earlier_bins_at_most(prefix, bin, region, pivots, bins, b);
    lemma_sorted_concat(prefix, bin);
}

/// Copies `bin` into `arr` from position `at` on.
fn write_back(arr: &mut [i32], at: usize, bin: &[i32])
    requires
        at + bin@.len() <= old(arr)@.len(),
    ensures
        final(arr)@.len() == old(arr)@.len(),
        final(arr)@.subrange(0, at as int) == old(arr)@.subrange(0, at as int),
        final(arr)@.subrange(at as int, at + bin@.len()) == bin@,
        final(arr)@.subrange(at + bin@.len(), old(arr)@.len() as int) == old(arr)@.subrange(
            at + bin@.len(),
            old(arr)@.len() as int,
        ),
{
    let len: usize = arr.len();
    let size: usize = bin.len();
    let mut k: usize = 0;
    while k < size
        invariant
            k <= size,
            size == bin@.len(),
            at + size <= len,
            len == arr@.len(),
            arr@.len() == old(arr)@.len(),
            forall|j: int|
                0 <= j < arr@.len() ==> arr@[j] == if at <= j < at + k {
                    bin@[j - at]
                } else {
                    old(arr)@[j]
                },
        decreases size - k,
    {
        arr[at + k] = bin[k];
        k = k + 1;
    }
    proof {
        assert(arr@.subrange(0, at as int) =~= old(arr)@.subrange(0, at as int));
        assert(arr@.subrange(at as int, at + size) =~= bin@);
        assert(arr@.subrange(at + size, len as int) =~= old(arr)@.subrange(at + size, len as int));
    }
}

/// Sorts one bin of a region of `n` elements spread over `count` bins: by the
/// comparison sort where the bin is small or holds the whole region, by bins
/// again otherwise.
fn sort_bin(bin: &mut Vec<i32>, n: usize, count: usize, source: &mut RandomSource)
    requires
        old(bin)@.len() <= n,
        count > 0,
    ensures
        is_sorting_of(final(bin)@, old(bin)@),
    decreases n, 0nat,
{
    let size: usize = bin.len();
    if is_sorted_directly(size, n, count) {
        direct_sort(bin.as_mut_slice());
    } else {
        sort_region(bin.as_mut_slice(), 0, size - 1, source);
        proof {
            assert(bin@.subrange(0, size as int) =~= bin@);
            assert(old(bin)@.subrange(0, size as int) =~= old(bin)@);
        }
    }
}

/// Sorts the region `arr[lo..=hi]`, which holds at least two elements.
fn sort_region(arr: &mut [i32], lo: usize, hi: usize, source: &mut RandomSource)
    requires
        lo < hi < old(arr)@.len(),
    ensures
        sorts_range(old(arr)@, final(arr)@, lo as int, hi as int),
    decreases hi - lo + 1, 1nat,
{
    let ghost before = arr@;
    let ghost region = arr@.subrange(lo as int, hi + 1);
    let len: usize = arr.len();
    let n: usize = hi - lo + 1;
    let tree: usize = tree_size(n);
    let count: usize = bin_count(n);
    let pivots: Vec<i32> = sample(arr, lo, hi, tree, source);
    proof {
        lemma_bin_count_bounds(n as nat);
    }
    let table: Calibration = calibrate(pivots.as_slice(), count);
    let mut bins: Vec<Vec<i32>> = distribute(arr, lo, hi, pivots.as_slice(), &table, count);
    let mut cursor: usize = lo;
    let mut b: usize = 0;
    proof {
        assert(arr@.subrange(lo as int, cursor as int) =~= Seq::<i32>::empty());
        lemma_members_nothing_below(region, pivots@, count as int);
    }
    while b < count
        invariant
            b <= count,
            bins@.len() == count,
            count > 0,
            lo < hi < len,
            len == arr@.len(),
            len == before.len(),
            n == hi - lo + 1,
            region == before.subrange(lo as int, hi + 1),
            region.len() == n,
            calibratable(pivots@, count as int),
            lo <= cursor <= hi + 1,
            arr@.subrange(0, lo as int) == before.subrange(0, lo as int),
            arr@.subrange(hi + 1, len as int) == before.subrange(hi + 1, len as int),
            sorted(arr@.subrange(lo as int, cursor as int)),
            same_elements(
                arr@.subrange(lo as int, cursor as int),
                members_below(region, pivots@, count as int, b as int),
            ),
            forall|k: int|
                b <= k < count ==> (#[trigger] bins@[k])@ == bin_members(
                    region,
                    pivots@,
                    count as int,
                    k,
                ),
        decreases count - b,
    {
        let ghost prefix = arr@.subrange(lo as int, cursor as int);
        let ghost held = arr@;
        let ghost others = bins@;
        proof {
            lemma_bin_fits(prefix, bins@[b as int]@, region, pivots@, count as int, b as int);
        }
        if bins[b].len() == 0 {
            proof {
                assert(prefix + bins@[b as int]@ =~= prefix);
            }
            b = b + 1;
            continue;
        }
        sort_bin(&mut bins[b], n, count, source);
        let ghost bin = bins@[b as int]@;
        proof {
            assert(forall|k: int| b < k < count ==> bins@[k] == others[k]);
            lemma_bin_fits(prefix, bin, region, pivots@, count as int, b as int);
            lemma_append_sorted_bin(prefix, bin, region, pivots@, count as int, b as int);
        }
        write_back(arr, cursor, bins[b].as_slice());
        proof {
            let size = bin.len() as int;
            assert(arr@.subrange(lo as int, cursor + size) =~= prefix + bin) by {
                assert(arr@.subrange(0, cursor as int) == held.subrange(0, cursor as int));
                assert forall|k: int| 0 <= k < prefix.len() implies arr@[lo + k] == prefix[k] by {
                    assert(arr@.subrange(0, cursor as int)[lo + k] == held.subrange(
                        0,
                        cursor as int,
                    )[lo + k]);
                }
                assert forall|k: int| 0 <= k < size implies arr@[cursor + k] == bin[k] by {
                    assert(arr@.subrange(cursor as int, cursor + size)[k] == bin[k]);
                }
            }
            assert(arr@.subrange(0, lo as int) =~= before.subrange(0, lo as int)) by {
                assert forall|k: int| 0 <= k < lo implies arr@[k] == before[k] by {
                    assert(arr@.subrange(0, cursor as int)[k] == held.subrange(0, cursor as int)[k]);
                    assert(held.subrange(0, lo as int)[k] == before.subrange(0, lo as int)[k]);
                }
            }
            assert(arr@.subrange(hi + 1, len as int) =~= before.subrange(hi + 1, len as int)) by {
                assert forall|k: int| hi < k < len implies arr@[k] == before[k] by {
                    assert(arr@.subrange(cursor + size, len as int)[k - cursor - size]
                        == held.subrange(cursor + size, len as int)[k - cursor - size]);
                    assert(held.subrange(hi + 1, len as int)[k - hi - 1] == before.subrange(
                        hi + 1,
                        len as int,
                    )[k - hi - 1]);
                }
            }
        }
        cursor = cursor + bins[b].len();
        b = b + 1;
    }
    proof {
        lemma_sorted_range(before, arr@, lo as int, hi as int, cursor as int, pivots@, count as int);
    }
}

/// Once every bin is written back, the range is sorted.
proof fn lemma_sorted_range(
    before: Seq<i32>,
    after: Seq<i32>,
    lo: int,
    hi: int,
    cursor: int,
    pivots: Seq<i32>,
    bins: int,
)
    requires
        0 <= lo <= cursor <= hi + 1 <= before.len(),
        after.len() == before.len(),
        bins >= 1,
        after.subrange(0, lo) == before.subrange(0, lo),
        after.subrange(hi + 1, before.len() as int) == before.subrange(hi + 1, before.len() as int),
        sorted(after.subrange(lo, cursor)),
        same_elements(
            after.subrange(lo, cursor),
            members_below(before.subrange(lo, hi + 1), pivots, bins, bins),
        ),
    ensures
        cursor == hi + 1,
        sorts_range(before, after, lo, hi),
{
    broadcast use group_to_multiset_ensures;

    let region = before.subrange(lo, hi + 1);
    let out = after.subrange(lo, cursor);
    lemma_members_below_all(region, pivots, bins);
    assert(out.to_multiset().len() == region.to_multiset().len());
    assert forall|k: int| 0 <= k < before.len() && !(lo <= k <= hi) implies after[k] == before[k] by {
        let len = before.len() as int;
        if k < lo {
            assert(after.subrange(0, lo)[k] == after[k]);
            assert(before.subrange(0, lo)[k] == before[k]);
        } else {
            assert(after.subrange(hi + 1, len)[k - hi - 1] == after[k]);
            assert(before.subrange(hi + 1, len)[k - hi - 1] == before[k]);
        }
    }
}

/// No element goes to a bin before the first.
proof fn lemma_members_nothing_below(region: Seq<i32>, pivots: Seq<i32>, bins: int)
    requires
        bins >= 1,
    ensures
        members_below(region, pivots, bins, 0) == Seq::<i32>::empty(),
    decreases region.len(),
{
    if region.len() == 0 {
        reveal(Seq::filter);
    } else {
        let init = region.drop_last();
        let x = region.last();
        assert(region =~= init.push(x));
        lemma_members_nothing_below(init, pivots, bins);
        init.lemma_filter_push(x, below_bin(pivots, bins, 0));
        lemma_bin_index_in_range(pivots, bins, x);
    }
}

/// Sorts the closed range `l ..= r` of `arr` in place, drawing the sample from
/// `source`.
///
/// A range that does not lie within the array is refused, and the array left
/// as it was. Otherwise the range ends up holding the values that it held, in
/// non-decreasing order, and the rest of the array is untouched. A range of
/// no or one element, and a range that is sorted already, are left as they
/// were.
pub fn tbsort_with(arr: &mut [i32], l: isize, r: isize, source: &mut RandomSource) -> (res: Result<
    (),
    SortError,
>)
    ensures
        res is Ok <==> valid_range(old(arr)@.len() as int, l as int, r as int),
        res is Err ==> res == Err::<(), SortError>(SortError::InvalidRange) && final(arr)@ == old(
            arr,
        )@,
        res is Ok ==> sorts_range(old(arr)@, final(arr)@, l as int, r as int),
        res is Ok && r <= l ==> final(arr)@ == old(arr)@,
        res is Ok && sorted(old(arr)@.subrange(l as int, r + 1)) ==> final(arr)@ == old(arr)@,
{
    let len: usize = arr.len();
    if l < 0 {
        return Err(SortError::InvalidRange);
    }
    if r < l - 1 {
        return Err(SortError::InvalidRange);
    }
    if r >= 0 && (r as usize) >= len {
        return Err(SortError::InvalidRange);
    }
    if l < r {
        sort_region(arr, l as usize, r as usize, source);
        proof {
            let was = old(arr)@.subrange(l as int, r + 1);
            let now = arr@.subrange(l as int, r + 1);
            if sorted(was) {
                lemma_sorting_sorted_is_identity(now, was);
                assert forall|k: int| 0 <= k < arr@.len() implies arr@[k] == old(arr)@[k] by {
                    if l <= k <= r {
                        assert(now[k - l] == was[k - l]);
                    }
                }
                assert(arr@ =~= old(arr)@);
            }
        }
    } else {
        proof {
            let was = old(arr)@.subrange(l as int, r + 1);
            assert(was.len() <= 1);
        }
    }
    Ok(())
}

/// Sorts the closed range `l ..= r` of `arr` in place, drawing the sample from
/// the calling thread's own generator.
///
/// A range that does not lie within the array is refused, and the array left
/// as it was. Otherwise the range ends up holding the values that it held, in
/// non-decreasing order, and the rest of the array is untouched. A range of
/// no or one element, and a range that is sorted already, are left as they
/// were.
pub fn tbsort(arr: &mut [i32], l: isize, r: isize) -> (res: Result<(), SortError>)
    ensures
        res is Ok <==> valid_range(old(arr)@.len() as int, l as int, r as int),
        res is Err ==> res == Err::<(), SortError>(SortError::InvalidRange) && final(arr)@ == old(
            arr,
        )@,
        res is Ok ==> sorts_range(old(arr)@, final(arr)@, l as int, r as int),
        res is Ok && r <= l ==> final(arr)@ == old(arr)@,
        res is Ok && sorted(old(arr)@.subrange(l as int, r + 1)) ==> final(arr)@ == old(arr)@,
{
    let mut source: RandomSource = RandomSource::ambient();
    tbsort_with(arr, l, r, &mut source)
}

} // verus!
