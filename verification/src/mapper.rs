//! The calibration of bins against pivots: a piecewise-linear estimate of the
//! bin that a value belongs to.
//!
//! With `m` sorted pivots there are `m + 2` calibration points: the pivots and
//! a sentinel at either end. Point `i` has a target bin; pivot `k` is point
//! `k + 1`. Interval `i` lies between pivot `i - 1` and pivot `i`, interval 0
//! below the first pivot. On its interval the estimate is the affine map
//! `v * slope + offset` through the calibration points at its ends. Slopes and
//! offsets are kept as exact fractions over a common positive denominator, so
//! the estimate never decreases as the value grows.

use vstd::prelude::*;
use vstd::arithmetic::div_mod::{
    lemma_div_by_multiple,
    lemma_div_is_ordered,
    lemma_div_pos_is_pos,
    lemma_multiply_divide_lt,
};
use vstd::arithmetic::mul::{lemma_mul_inequality, lemma_mul_nonnegative};
use crate::order::sorted;
use crate::clamp::myclamp;
use crate::search::{lemma_position_interval, lemma_position_monotone, position, search};

verus! {

/// The inputs that a calibration is made from: at least one pivot, the pivots
/// sorted, and at least as many bins as calibration points.
pub open spec fn calibratable(pivots: Seq<i32>, bins: int) -> bool {
    &&& pivots.len() >= 1
    &&& sorted(pivots)
    &&& bins >= pivots.len() + 2
}

/// The number of calibration points for `pivots`: the pivots and the two
/// sentinels.
pub open spec fn points_of(pivots: Seq<i32>) -> int {
    pivots.len() as int + 2
}

/// The target bin of calibration point `i` out of `points`: the bins divided
/// evenly over the points, the first point pinned to bin 0 and the last to
/// the last bin.
pub open spec fn target_bin_of(points: int, bins: int, i: int) -> int {
    if i <= 0 {
        0
    } else if i >= points - 1 {
        bins - 1
    } else {
        i * bins / points
    }
}

/// Interval `j` lies between two pivots that differ, so its slope is defined.
pub open spec fn spanned(pivots: Seq<i32>, j: int) -> bool {
    1 <= j < pivots.len() && pivots[j - 1] < pivots[j]
}

/// The nearest interval at or below `i` whose slope is defined; 0 if there is
/// none.
pub open spec fn spanned_at_or_below(pivots: Seq<i32>, i: int) -> int
    decreases i,
{
    if i < 1 {
        0
    } else if spanned(pivots, i) {
        i
    } else {
        spanned_at_or_below(pivots, i - 1)
    }
}

/// The nearest interval at or above `i` whose slope is defined; 0 if there is
/// none.
pub open spec fn spanned_at_or_above(pivots: Seq<i32>, i: int) -> int
    decreases pivots.len() - i,
{
    if i >= pivots.len() {
        0
    } else if spanned(pivots, i) {
        i
    } else {
        spanned_at_or_above(pivots, i + 1)
    }
}

/// The interval whose slope interval `i` takes: its own where that is
/// defined, else that of the nearest interval below it with a defined slope,
/// else that of the nearest above it; 0 if all pivots are equal.
pub open spec fn slope_source(pivots: Seq<i32>, i: int) -> int {
    if spanned_at_or_below(pivots, i) != 0 {
        spanned_at_or_below(pivots, i)
    } else {
        spanned_at_or_above(pivots, 1)
    }
}

/// The numerator of the slope of interval `i`: the rise in target bin over
/// the interval that lends the slope, and 1 if all pivots are equal.
pub open spec fn slope_rise(pivots: Seq<i32>, bins: int, i: int) -> int {
    let source = slope_source(pivots, i);
    if source == 0 {
        1
    } else {
        target_bin_of(points_of(pivots), bins, source + 1) - target_bin_of(
            points_of(pivots),
            bins,
            source,
        )
    }
}

/// The denominator of the slope and of the offset of interval `i`: the
/// distance between the pivots of the interval that lends the slope, and 1 if
/// all pivots are equal.
pub open spec fn slope_run(pivots: Seq<i32>, i: int) -> int {
    let source = slope_source(pivots, i);
    if source == 0 {
        1
    } else {
        pivots[source] - pivots[source - 1]
    }
}

/// The pivot that the line of interval `i` passes through: the one at its
/// lower end, and for the interval below the first pivot that pivot; the
/// intervals past the last pivot pass through the last.
pub open spec fn anchor_of(pivots: Seq<i32>, i: int) -> int {
    if i <= 0 {
        0
    } else if i >= pivots.len() {
        pivots.len() - 1
    } else {
        i - 1
    }
}

/// The numerator of the offset of interval `i`, over `slope_run`: such that
/// the line maps the anchor pivot to its target bin; 0 if all pivots are
/// equal.
pub open spec fn offset_of(pivots: Seq<i32>, bins: int, i: int) -> int {
    if slope_source(pivots, i) == 0 {
        0
    } else {
        let anchor = anchor_of(pivots, i);
        target_bin_of(points_of(pivots), bins, anchor + 1) * slope_run(pivots, i) - pivots[anchor]
            * slope_rise(pivots, bins, i)
    }
}

/// `num / den` rounded towards zero, for a positive `den`.
pub open spec fn truncated_quotient(num: int, den: int) -> int {
    if num >= 0 {
        num / den
    } else {
        -((-num) / den)
    }
}

/// `v * slope + offset` on interval `i`, times the common denominator.
pub open spec fn numerator_of(pivots: Seq<i32>, bins: int, i: int, v: i32) -> int {
    v * slope_rise(pivots, bins, i) + offset_of(pivots, bins, i)
}

/// The estimate for `v` on interval `i`, truncated to a whole number.
pub open spec fn raw_bin(pivots: Seq<i32>, bins: int, i: int, v: i32) -> int {
    truncated_quotient(numerator_of(pivots, bins, i, v), slope_run(pivots, i))
}

/// `raw` brought into `0 ..= bins - 1`.
pub open spec fn clamp_index(raw: int, bins: int) -> int {
    if raw <= 0 {
        0
    } else if raw >= bins - 1 {
        bins - 1
    } else {
        raw
    }
}

/// The bin of `v`: the estimate on the interval that `v` falls into,
/// truncated and brought into the range of the bins.
pub open spec fn bin_index(pivots: Seq<i32>, bins: int, v: i32) -> int {
    clamp_index(raw_bin(pivots, bins, position(pivots, v), v), bins)
}

/// Target bins are bins.
pub proof fn lemma_target_bin_bounds(points: int, bins: int, i: int)
    requires
        3 <= points <= bins,
    ensures
        0 <= target_bin_of(points, bins, i) <= bins - 1,
{
    if 0 < i < points - 1 {
        lemma_mul_nonnegative(i, bins);
        lemma_div_pos_is_pos(i * bins, points);
        assert(i * bins < points * bins) by (nonlinear_arith)
            requires
                0 < i < points,
                bins > 0,
        ;
        lemma_multiply_divide_lt(i * bins, points, bins);
    }
}

/// Target bins do not decrease from one calibration point to the next.
pub proof fn lemma_target_bin_monotone(points: int, bins: int, i: int, j: int)
    requires
        3 <= points <= bins,
        i <= j,
    ensures
        target_bin_of(points, bins, i) <= target_bin_of(points, bins, j),
{
    lemma_target_bin_bounds(points, bins, i);
    lemma_target_bin_bounds(points, bins, j);
    if 0 < i && j < points - 1 {
        lemma_mul_inequality(i, j, bins);
        lemma_div_is_ordered(i * bins, j * bins, points);
    }
}

/// What `spanned_at_or_below` finds: an interval with a defined slope that is
/// at most `i`, with none between it and `i`; or 0, and then no interval up to
/// `i` has a defined slope.
pub proof fn lemma_spanned_at_or_below(pivots: Seq<i32>, i: int)
    ensures
        spanned_at_or_below(pivots, i) == 0 || (spanned(pivots, spanned_at_or_below(pivots, i))
            && spanned_at_or_below(pivots, i) <= i),
        forall|j: int| spanned_at_or_below(pivots, i) < j <= i ==> !spanned(pivots, j),
    decreases i,
{
    if i >= 1 && !spanned(pivots, i) {
        lemma_spanned_at_or_below(pivots, i - 1);
    }
}

/// What `spanned_at_or_above` finds: an interval with a defined slope that is
/// at least `i`, with none between `i` and it; or 0, and then no interval from
/// `i` on has a defined slope.
pub proof fn lemma_spanned_at_or_above(pivots: Seq<i32>, i: int)
    requires
        1 <= i,
    ensures
        spanned_at_or_above(pivots, i) == 0 || (spanned(pivots, spanned_at_or_above(pivots, i))
            && spanned_at_or_above(pivots, i) >= i),
        spanned_at_or_above(pivots, i) == 0 ==> forall|j: int| i <= j ==> !spanned(pivots, j),
        forall|j: int| i <= j < spanned_at_or_above(pivots, i) ==> !spanned(pivots, j),
    decreases pivots.len() - i,
{
    if i < pivots.len() && !spanned(pivots, i) {
        lemma_spanned_at_or_above(pivots, i + 1);
    }
}

/// The interval that lends its slope has a defined slope, and an interval
/// with a defined slope keeps its own. Where none lends one, all pivots are
/// equal.
pub proof fn lemma_slope_source(pivots: Seq<i32>, i: int)
    requires
        sorted(pivots),
    ensures
        slope_source(pivots, i) == 0 || spanned(pivots, slope_source(pivots, i)),
        spanned(pivots, i) ==> slope_source(pivots, i) == i,
        slope_source(pivots, i) == 0 ==> forall|j: int, k: int|
            0 <= j < pivots.len() && 0 <= k < pivots.len() ==> pivots[j] == pivots[k],
{
    lemma_spanned_at_or_below(pivots, i);
    lemma_spanned_at_or_above(pivots, 1);
    if slope_source(pivots, i) == 0 {
        lemma_all_equal(pivots, pivots.len() as int);
    }
}

/// Sorted pivots with no two neighbours that differ are all equal.
proof fn lemma_all_equal(pivots: Seq<i32>, upto: int)
    requires
        sorted(pivots),
        0 <= upto <= pivots.len(),
        forall|j: int| 1 <= j ==> !spanned(pivots, j),
    ensures
        forall|j: int, k: int| 0 <= j < upto && 0 <= k < upto ==> pivots[j] == pivots[k],
    decreases upto,
{
    if upto >= 2 {
        lemma_all_equal(pivots, upto - 1);
        assert(!spanned(pivots, upto - 1));
        assert(pivots[upto - 2] == pivots[upto - 1]);
    }
}

/// Every slope is a fraction that is not negative, with a positive
/// denominator; the numerator is less than the number of bins and the
/// denominator is a distance between two pivots.
pub proof fn lemma_slope_bounds(pivots: Seq<i32>, bins: int, i: int)
    requires
        calibratable(pivots, bins),
    ensures
        0 <= slope_rise(pivots, bins, i) < bins,
        1 <= slope_run(pivots, i) <= 0xffff_ffff,
        0 <= anchor_of(pivots, i) < pivots.len(),
{
    lemma_slope_source(pivots, i);
    let source = slope_source(pivots, i);
    let points = points_of(pivots);
    if source != 0 {
        lemma_target_bin_monotone(points, bins, source, source + 1);
        lemma_target_bin_bounds(points, bins, source);
        lemma_target_bin_bounds(points, bins, source + 1);
    }
}

/// Rounding towards zero keeps the order of the numerators.
pub proof fn lemma_truncated_monotone(a: int, b: int, den: int)
    requires
        a <= b,
        den > 0,
    ensures
        truncated_quotient(a, den) <= truncated_quotient(b, den),
{
    if a >= 0 {
        lemma_div_is_ordered(a, b, den);
    } else if b >= 0 {
        lemma_div_pos_is_pos(-a, den);
        lemma_div_pos_is_pos(b, den);
    } else {
        lemma_div_is_ordered(-b, -a, den);
    }
}

/// A multiple of the denominator has the multiplier for its quotient.
pub proof fn lemma_truncated_multiple(q: int, den: int)
    requires
        den > 0,
    ensures
        truncated_quotient(q * den, den) == q,
{
    if q >= 0 {
        lemma_mul_nonnegative(q, den);
        lemma_div_by_multiple(q, den);
    } else {
        assert(-(q * den) == (-q) * den) by (nonlinear_arith);
        assert(q * den < 0) by (nonlinear_arith)
            requires
                q < 0,
                den > 0,
        ;
        lemma_div_by_multiple(-q, den);
    }
}

/// The numerator, written from the anchor: the anchor's target bin times the
/// denominator, and the rise over the distance from the anchor.
pub proof fn lemma_numerator_from_anchor(pivots: Seq<i32>, bins: int, i: int, v: i32)
    requires
        slope_source(pivots, i) != 0,
    ensures
        numerator_of(pivots, bins, i, v) == target_bin_of(
            points_of(pivots),
            bins,
            anchor_of(pivots, i) + 1,
        ) * slope_run(pivots, i) + (v - pivots[anchor_of(pivots, i)]) * slope_rise(pivots, bins, i),
{
    let rise = slope_rise(pivots, bins, i);
    let anchor = pivots[anchor_of(pivots, i)];
    assert(v * rise - anchor * rise == (v - anchor) * rise) by (nonlinear_arith);
}

/// At or below its anchor pivot the estimate is at most the anchor's target
/// bin, and at or above it at least that.
pub proof fn lemma_raw_bin_around_anchor(pivots: Seq<i32>, bins: int, i: int, v: i32)
    requires
        calibratable(pivots, bins),
        slope_source(pivots, i) != 0,
    ensures
        v <= pivots[anchor_of(pivots, i)] ==> raw_bin(pivots, bins, i, v) <= target_bin_of(
            points_of(pivots),
            bins,
            anchor_of(pivots, i) + 1,
        ),
        v >= pivots[anchor_of(pivots, i)] ==> raw_bin(pivots, bins, i, v) >= target_bin_of(
            points_of(pivots),
            bins,
            anchor_of(pivots, i) + 1,
        ),
{
    lemma_slope_bounds(pivots, bins, i);
    lemma_numerator_from_anchor(pivots, bins, i, v);
    let rise = slope_rise(pivots, bins, i);
    let run = slope_run(pivots, i);
    let anchor = pivots[anchor_of(pivots, i)];
    let level = target_bin_of(points_of(pivots), bins, anchor_of(pivots, i) + 1);
    let num = numerator_of(pivots, bins, i, v);
    lemma_truncated_multiple(level, run);
    if v <= anchor {
        assert((v - anchor) * rise <= 0) by (nonlinear_arith)
            requires
                v - anchor <= 0,
                rise >= 0,
        ;
        lemma_truncated_monotone(num, level * run, run);
    }
    if v >= anchor {
        assert((v - anchor) * rise >= 0) by (nonlinear_arith)
            requires
                v - anchor >= 0,
                rise >= 0,
        ;
        lemma_truncated_monotone(level * run, num, run);
    }
}

/// On an interval with a slope of its own the estimate does not pass the
/// target bin of the pivot at the interval's upper end, up to that pivot.
pub proof fn lemma_raw_bin_within_interval(pivots: Seq<i32>, bins: int, i: int, v: i32)
    requires
        calibratable(pivots, bins),
        spanned(pivots, i),
        v <= pivots[i],
    ensures
        raw_bin(pivots, bins, i, v) <= target_bin_of(points_of(pivots), bins, i + 1),
{
    lemma_slope_source(pivots, i);
    lemma_slope_bounds(pivots, bins, i);
    lemma_numerator_from_anchor(pivots, bins, i, v);
    let rise = slope_rise(pivots, bins, i);
    let run = slope_run(pivots, i);
    let low = target_bin_of(points_of(pivots), bins, i);
    let high = target_bin_of(points_of(pivots), bins, i + 1);
    let num = numerator_of(pivots, bins, i, v);
    assert((v - pivots[i - 1]) * rise <= run * rise) by (nonlinear_arith)
        requires
            v - pivots[i - 1] <= run,
            rise >= 0,
    ;
    assert(low * run + run * rise == high * run) by (nonlinear_arith)
        requires
            rise == high - low,
    ;
    lemma_truncated_multiple(high, run);
    lemma_truncated_monotone(num, high * run, run);
}

/// Where all pivots are equal the estimate for a value is the value itself.
pub proof fn lemma_raw_bin_all_equal(pivots: Seq<i32>, bins: int, i: int, v: i32)
    requires
        slope_source(pivots, i) == 0,
    ensures
        raw_bin(pivots, bins, i, v) == v,
{
    assert(slope_rise(pivots, bins, i) == 1);
    assert(slope_run(pivots, i) == 1);
    assert(offset_of(pivots, bins, i) == 0);
    assert(numerator_of(pivots, bins, i, v) == v);
}

/// The bin of a value is one of the bins.
pub proof fn lemma_bin_index_in_range(pivots: Seq<i32>, bins: int, v: i32)
    requires
        bins >= 1,
    ensures
        0 <= bin_index(pivots, bins, v) < bins,
{
}

/// A larger value never goes to an earlier bin.
pub proof fn lemma_bin_index_monotone(pivots: Seq<i32>, bins: int, v1: i32, v2: i32)
    requires
        calibratable(pivots, bins),
        v1 <= v2,
    ensures
        bin_index(pivots, bins, v1) <= bin_index(pivots, bins, v2),
{
    let from = position(pivots, v1);
    let to = position(pivots, v2);
    let points = points_of(pivots);
    lemma_position_monotone(pivots, v1, v2);
    lemma_position_interval(pivots, v1);
    lemma_position_interval(pivots, v2);
    lemma_slope_source(pivots, from);
    lemma_slope_source(pivots, to);
    lemma_slope_bounds(pivots, bins, from);
    lemma_slope_bounds(pivots, bins, to);
    if slope_source(pivots, from) == 0 {
        // All pivots are equal: every interval has slope 1 and offset 0.
        assert(slope_source(pivots, to) == 0) by {
            if slope_source(pivots, to) != 0 {
                let s = slope_source(pivots, to);
                assert(pivots[s - 1] == pivots[s]);
            }
        }
        lemma_raw_bin_all_equal(pivots, bins, from, v1);
        lemma_raw_bin_all_equal(pivots, bins, to, v2);
    } else if from == to {
        assert(slope_source(pivots, to) != 0);
        let rise = slope_rise(pivots, bins, from);
        assert(v1 * rise <= v2 * rise) by (nonlinear_arith)
            requires
                v1 <= v2,
                rise >= 0,
        ;
        lemma_truncated_monotone(
            numerator_of(pivots, bins, from, v1),
            numerator_of(pivots, bins, to, v2),
            slope_run(pivots, from),
        );
    } else {
        // `v2` lies above the pivot at the lower end of its interval.
        assert(slope_source(pivots, to) != 0) by {
            if slope_source(pivots, to) == 0 {
                let s = slope_source(pivots, from);
                assert(pivots[s - 1] == pivots[s]);
            }
        }
        assert(pivots[to - 1] < v2);
        lemma_raw_bin_around_anchor(pivots, bins, to, v2);
        assert(raw_bin(pivots, bins, to, v2) >= target_bin_of(points, bins, to));
        // `v1` does not lie above the pivot at the upper end of its interval.
        assert(pivots[from] >= v1);
        if from == 0 {
            lemma_raw_bin_around_anchor(pivots, bins, from, v1);
            lemma_target_bin_monotone(points, bins, 1, to);
        } else {
            assert(pivots[from - 1] < v1);
            assert(spanned(pivots, from));
            lemma_raw_bin_within_interval(pivots, bins, from, v1);
            lemma_target_bin_monotone(points, bins, from + 1, to);
        }
    }
}

/// The offset's numerator is within `2^33` times the number of bins of zero.
pub proof fn lemma_offset_bounds(pivots: Seq<i32>, bins: int, i: int)
    requires
        calibratable(pivots, bins),
    ensures
        -0x2_0000_0000 * bins <= offset_of(pivots, bins, i) <= 0x2_0000_0000 * bins,
{
    lemma_slope_bounds(pivots, bins, i);
    if slope_source(pivots, i) != 0 {
        let anchor = anchor_of(pivots, i);
        let level = target_bin_of(points_of(pivots), bins, anchor + 1);
        let run = slope_run(pivots, i);
        let rise = slope_rise(pivots, bins, i);
        let pivot = pivots[anchor] as int;
        lemma_target_bin_bounds(points_of(pivots), bins, anchor + 1);
        assert(0 <= level * run <= 0x1_0000_0000 * bins) by (nonlinear_arith)
            requires
                0 <= level < bins,
                1 <= run <= 0xffff_ffff,
        ;
        assert(-0x8000_0000 * bins <= pivot * rise <= 0x8000_0000 * bins) by (nonlinear_arith)
            requires
                0 <= rise < bins,
                -0x8000_0000 <= pivot <= 0x7fff_ffff,
        ;
    }
}

/// A calibration table: for each of the calibration points its target bin,
/// and for each interval the slope and the offset of its line, as the
/// fractions `slope_rise / slope_run` and `offset / slope_run`.
pub struct Calibration {
    pub target_bin: Vec<usize>,
    pub slope_rise: Vec<i128>,
    pub slope_run: Vec<i128>,
    pub offset: Vec<i128>,
}

impl Calibration {
    /// The table is the calibration of `bins` bins against `pivots`: its
    /// sequences have one entry for each calibration point, and every entry
    /// is what the definitions above give.
    pub open spec fn calibrates(&self, pivots: Seq<i32>, bins: int) -> bool {
        &&& self.target_bin@.len() == points_of(pivots)
        &&& self.slope_rise@.len() == points_of(pivots)
        &&& self.slope_run@.len() == points_of(pivots)
        &&& self.offset@.len() == points_of(pivots)
        &&& forall|i: int|
            0 <= i < points_of(pivots) ==> #[trigger] self.target_bin@[i] == target_bin_of(
                points_of(pivots),
                bins,
                i,
            )
        &&& forall|i: int|
            0 <= i < points_of(pivots) ==> #[trigger] self.slope_rise@[i] == slope_rise(
                pivots,
                bins,
                i,
            )
        &&& forall|i: int|
            0 <= i < points_of(pivots) ==> #[trigger] self.slope_run@[i] == slope_run(pivots, i)
        &&& forall|i: int|
            0 <= i < points_of(pivots) ==> #[trigger] self.offset@[i] == offset_of(pivots, bins, i)
    }

    /// The bin of `v` under this calibration.
    pub fn bin_of(&self, pivots: &[i32], bins: usize, v: i32) -> (bin: usize)
        requires
            calibratable(pivots@, bins as int),
            self.calibrates(pivots@, bins as int),
        ensures
            bin == bin_index(pivots@, bins as int, v),
            bin < bins,
    {
        proof {
            assert(pivots@.take(pivots@.len() as int) =~= pivots@);
            lemma_position_interval(pivots@, v);
        }
        let i: usize = search(pivots, pivots.len(), v);
        let rise: i128 = self.slope_rise[i];
        let run: i128 = self.slope_run[i];
        let offset: i128 = self.offset[i];
        proof {
            lemma_slope_bounds(pivots@, bins as int, i as int);
            lemma_offset_bounds(pivots@, bins as int, i as int);
            assert(-0x8000_0000 * bins <= v * rise <= 0x8000_0000 * bins) by (nonlinear_arith)
                requires
                    0 <= rise < bins,
                    -0x8000_0000 <= v <= 0x7fff_ffff,
            ;
        }
        let num: i128 = (v as i128) * rise + offset;
        let raw: i128 = num / run;
        let last: i128 = (bins - 1) as i128;
        let bin: i128 = myclamp(raw, 0, last);
        bin as usize
    }
}

/// The first interval between two pivots that differ; 0 if there is none.
fn first_spanned(pivots: &[i32]) -> (first: usize)
    ensures
        first == spanned_at_or_above(pivots@, 1),
{
    let m: usize = pivots.len();
    let mut j: usize = 1;
    while j < m
        invariant
            1 <= j,
            m == pivots@.len(),
            spanned_at_or_above(pivots@, 1) == spanned_at_or_above(pivots@, j as int),
        decreases m - j,
    {
        if pivots[j - 1] < pivots[j] {
            return j;
        }
        j = j + 1;
    }
    0
}

/// The target bins of the calibration points of `m` pivots.
fn target_bins(m: usize, bins: usize) -> (targets: Vec<usize>)
    requires
        m >= 1,
        bins >= m + 2,
    ensures
        targets@.len() == m + 2,
        forall|i: int| 0 <= i < m + 2 ==> #[trigger] targets@[i] == target_bin_of(m + 2, bins as int, i),
{
    let points: usize = m + 2;
    let mut targets: Vec<usize> = Vec::new();
    let mut i: usize = 0;
    while i < points
        invariant
            i <= points,
            points == m + 2,
            3 <= points <= bins,
            targets@.len() == i,
            forall|k: int| 0 <= k < i ==> #[trigger] targets@[k] == target_bin_of(m + 2, bins as int, k),
        decreases points - i,
    {
        let target: usize = if i == 0 {
            0
        } else if i == points - 1 {
            bins - 1
        } else {
            proof {
                lemma_target_bin_bounds(points as int, bins as int, i as int);
                assert(0 <= i * bins <= 0xffff_ffff_ffff_ffff * 0xffff_ffff_ffff_ffff)
                    by (nonlinear_arith)
                    requires
                        0 <= i <= 0xffff_ffff_ffff_ffff,
                        0 <= bins <= 0xffff_ffff_ffff_ffff,
                ;
            }
            let product: u128 = (i as u128) * (bins as u128);
            (product / (points as u128)) as usize
        };
        targets.push(target);
        i = i + 1;
    }
    targets
}

/// Calibrates `bins` bins against `pivots`.
pub fn calibrate(pivots: &[i32], bins: usize) -> (table: Calibration)
    requires
        calibratable(pivots@, bins as int),
    ensures
        table.calibrates(pivots@, bins as int),
{
    let m: usize = pivots.len();
    let points: usize = m + 2;
    let target_bin: Vec<usize> = target_bins(m, bins);
    let first: usize = first_spanned(pivots);
    let mut rises: Vec<i128> = Vec::new();
    let mut runs: Vec<i128> = Vec::new();
    let mut offsets: Vec<i128> = Vec::new();
    let mut last: usize = 0;
    let mut i: usize = 0;
    while i < points
        invariant
            i <= points,
            points == m + 2,
            m == pivots@.len(),
            calibratable(pivots@, bins as int),
            first == spanned_at_or_above(pivots@, 1),
            last == spanned_at_or_below(pivots@, i - 1),
            target_bin@.len() == points,
            forall|k: int|
                0 <= k < points ==> #[trigger] target_bin@[k] == target_bin_of(
                    points as int,
                    bins as int,
                    k,
                ),
            rises@.len() == i,
            runs@.len() == i,
            offsets@.len() == i,
            forall|k: int| 0 <= k < i ==> #[trigger] rises@[k] == slope_rise(pivots@, bins as int, k),
            forall|k: int| 0 <= k < i ==> #[trigger] runs@[k] == slope_run(pivots@, k),
            forall|k: int| 0 <= k < i ==> #[trigger] offsets@[k] == offset_of(pivots@, bins as int, k),
        decreases points - i,
    {
        if 1 <= i && i < m && pivots[i - 1] < pivots[i] {
            last = i;
        }
        let source: usize = if last != 0 {
            last
        } else {
            first
        };
        proof {
            assert(source == slope_source(pivots@, i as int));
            lemma_slope_source(pivots@, i as int);
            lemma_slope_bounds(pivots@, bins as int, i as int);
            lemma_offset_bounds(pivots@, bins as int, i as int);
        }
        if source == 0 {
            rises.push(1);
            runs.push(1);
            offsets.push(0);
        } else {
            let anchor: usize = if i == 0 {
                0
            } else if i >= m {
                m - 1
            } else {
                i - 1
            };
            let rise: i128 = (target_bin[source + 1] as i128) - (target_bin[source] as i128);
            let run: i128 = (pivots[source] as i128) - (pivots[source - 1] as i128);
            let level: i128 = target_bin[anchor + 1] as i128;
            let pivot: i128 = pivots[anchor] as i128;
            proof {
                lemma_target_bin_bounds(points as int, bins as int, anchor + 1);
                assert(0 <= level * run <= 0x1_0000_0000 * bins) by (nonlinear_arith)
                    requires
                        0 <= level < bins,
                        1 <= run <= 0xffff_ffff,
                ;
                assert(-0x8000_0000 * bins <= pivot * rise <= 0x8000_0000 * bins) by (nonlinear_arith)
                    requires
                        0 <= rise < bins,
                        -0x8000_0000 <= pivot <= 0x7fff_ffff,
                ;
            }
            rises.push(rise);
            runs.push(run);
            offsets.push(level * run - pivot * rise);
        }
        i = i + 1;
    }
    Calibration { target_bin, slope_rise: rises, slope_run: runs, offset: offsets }
}

} // verus!
