//! How many pivots to sample and how many bins to open for a region of a
//! given size, and below which size a bin is sorted directly.
//!
//! Everything here is integer arithmetic. The number of pivots is exactly
//! `2^round(log2(log2 n))`; the binary logarithm that divides the region size
//! to give the number of bins is rounded down to a whole number.

use vstd::prelude::*;
use vstd::arithmetic::div_mod::{lemma_div_basics_5, lemma_fundamental_div_mod};
use vstd::arithmetic::mul::{lemma_mul_inequality, lemma_mul_is_commutative};
use vstd::arithmetic::power::{lemma_pow_increases, lemma_pow_multiplies, lemma_pow_positive, pow};
use vstd::arithmetic::power2::{lemma2_to64, lemma_pow2, lemma_pow2_unfold, pow2};

verus! {

/// The number of pivots sampled from a region of `n` elements:
/// `2^round(log2(log2 n))`, and 1 where that is not defined (`n < 2`).
///
/// The exponent rounds up to `k` from the point where `log2 n` reaches
/// `2^(k - 1/2)`, that is from `n = ceil(2^(2^(k - 1/2)))` on: 3, 8, 51, 2546,
/// 6479348 and 41981937869757 for `k` from 1 to 6.
pub open spec fn tree_size_of(n: nat) -> nat {
    if n < 3 {
        1
    } else if n < 8 {
        2
    } else if n < 51 {
        4
    } else if n < 2546 {
        8
    } else if n < 6479348 {
        16
    } else if n < 41981937869757 {
        32
    } else {
        64
    }
}

/// The binary logarithm of `n`, rounded down; 0 for `n < 2`.
pub open spec fn log2_floor(n: nat) -> nat
    decreases n,
{
    if n < 2 {
        0
    } else {
        1 + log2_floor(n / 2)
    }
}

/// `n / d` rounded up.
pub open spec fn ceil_div(n: nat, d: nat) -> nat {
    if n % d == 0 {
        n / d
    } else {
        n / d + 1
    }
}

/// The number of calibration points for a region of `n` elements: one for
/// each pivot and one sentinel at either end.
pub open spec fn target_size_of(n: nat) -> nat {
    tree_size_of(n) + 2
}

/// The divisor that stands for `log2 n` in the bin count: the logarithm
/// rounded down, and 1 where that would be 0.
pub open spec fn log2_divisor(n: nat) -> nat {
    if log2_floor(n) == 0 {
        1
    } else {
        log2_floor(n)
    }
}

/// The number of bins for a region of `n` elements: `n / log2 n` rounded up,
/// but never fewer than there are calibration points.
pub open spec fn bin_count_of(n: nat) -> nat {
    let by_size = ceil_div(n, log2_divisor(n));
    if by_size < target_size_of(n) {
        target_size_of(n)
    } else {
        by_size
    }
}

/// The size from which on a bin is refined rather than sorted directly:
/// `5 * n / bins`, rounded down.
pub open spec fn threshold_of(n: nat, bins: nat) -> nat {
    5 * n / bins
}

/// A bin of `size` elements, out of a region of `n` spread over `bins` bins, is
/// finished by the comparison sort rather than refined: it is below the
/// threshold, or holds less than two elements, or holds the whole region, so
/// that sorting it by bins again might never make it smaller.
pub open spec fn sorted_directly(size: nat, n: nat, bins: nat) -> bool {
    size < threshold_of(n, bins) || size < 2 || size == n
}

/// `log2_floor` is the whole part of the binary logarithm: `n` lies between
/// the power of two with that exponent and the next.
pub proof fn lemma_log2_floor_bounds(n: nat)
    requires
        n >= 1,
    ensures
        pow2(log2_floor(n)) <= n < pow2(log2_floor(n) + 1),
    decreases n,
{
    if n < 2 {
        lemma2_to64();
    } else {
        lemma_log2_floor_bounds(n / 2);
        lemma_pow2_unfold(log2_floor(n));
        lemma_pow2_unfold(log2_floor(n) + 1);
    }
}

/// The logarithm of a number is no larger than the number.
pub proof fn lemma_log2_floor_at_most(n: nat)
    ensures
        log2_floor(n) <= n,
    decreases n,
{
    if n >= 2 {
        lemma_log2_floor_at_most(n / 2);
    }
}

/// There are at least three bins and at least as many as calibration points,
/// and beyond that no more than elements.
pub proof fn lemma_bin_count_bounds(n: nat)
    ensures
        3 <= target_size_of(n) <= bin_count_of(n),
        target_size_of(n) <= 66,
        bin_count_of(n) <= n || bin_count_of(n) == target_size_of(n),
{
    let d = log2_divisor(n);
    lemma_fundamental_div_mod(n as int, d as int);
    lemma_div_basics_5(n as int, d as int);
    if n % d != 0 {
        assert(d * (n / d) >= n / d) by (nonlinear_arith)
            requires
                d >= 1,
                n / d >= 0,
        ;
    }
}

/// A larger base gives a larger power.
pub proof fn lemma_pow_base_monotone(a: nat, b: nat, e: nat)
    requires
        a <= b,
    ensures
        pow(a as int, e) <= pow(b as int, e),
    decreases e,
{
    reveal(pow);
    if e > 0 {
        let rest = (e - 1) as nat;
        lemma_pow_base_monotone(a, b, rest);
        assert(pow(a as int, e) == a * pow(a as int, rest));
        assert(pow(b as int, e) == b * pow(b as int, rest));
        if a > 0 {
            lemma_pow_positive(a as int, rest);
            assert(a * pow(a as int, rest) <= b * pow(b as int, rest)) by (nonlinear_arith)
                requires
                    0 < a <= b,
                    0 < pow(a as int, rest) <= pow(b as int, rest),
            ;
        } else if b > 0 {
            lemma_pow_positive(b as int, rest);
            assert(0 <= b * pow(b as int, rest)) by (nonlinear_arith)
                requires
                    0 < b,
                    0 < pow(b as int, rest),
            ;
        }
    }
}

/// Rounding the logarithm down never leaves too few bins: there are at least
/// `n / log2 n` of them, that is, `n` to the power of their number is at
/// least `2^n`.
pub proof fn lemma_bin_count_covers(n: nat)
    requires
        n >= 2,
    ensures
        pow(n as int, bin_count_of(n)) >= pow2(n),
{
    let lg = log2_floor(n);
    let bins = bin_count_of(n);
    lemma_log2_floor_bounds(n);
    assert(lg >= 1);
    assert(ceil_div(n, lg) * lg >= n) by {
        lemma_fundamental_div_mod(n as int, lg as int);
        lemma_mul_is_commutative(lg as int, (n / lg) as int);
        assert((n / lg + 1) * lg == (n / lg) * lg + lg) by (nonlinear_arith);
    }
    assert(lg * bins >= n) by {
        lemma_mul_inequality(ceil_div(n, lg) as int, bins as int, lg as int);
        lemma_mul_is_commutative(lg as int, bins as int);
    }
    lemma_pow2(lg);
    lemma_pow2(n);
    lemma_pow_base_monotone(pow2(lg), n, bins);
    lemma_pow_multiplies(2, lg, bins);
    lemma_pow_increases(2, n, lg * bins);
}

/// The number of pivots to sample from a region of `n` elements.
pub fn tree_size(n: usize) -> (size: usize)
    ensures
        size == tree_size_of(n as nat),
        1 <= size <= 64,
{
    let wide: u64 = n as u64;
    if wide < 3 {
        1
    } else if wide < 8 {
        2
    } else if wide < 51 {
        4
    } else if wide < 2546 {
        8
    } else if wide < 6479348 {
        16
    } else if wide < 41981937869757 {
        32
    } else {
        64
    }
}

/// The binary logarithm of `n`, rounded down.
pub fn floor_log2(n: usize) -> (lg: usize)
    ensures
        lg == log2_floor(n as nat),
{
    let mut lg: usize = 0;
    let mut rest: usize = n;
    proof {
        lemma_log2_floor_at_most(n as nat);
    }
    while rest >= 2
        invariant
            lg + log2_floor(rest as nat) == log2_floor(n as nat),
            log2_floor(n as nat) <= n,
        decreases rest,
    {
        rest = rest / 2;
        lg = lg + 1;
    }
    lg
}

/// The number of bins to open for a region of `n` elements.
pub fn bin_count(n: usize) -> (bins: usize)
    ensures
        bins == bin_count_of(n as nat),
        bins >= target_size_of(n as nat),
{
    let floor: usize = tree_size(n) + 2;
    let lg: usize = floor_log2(n);
    let divisor: usize = if lg == 0 {
        1
    } else {
        lg
    };
    proof {
        lemma_bin_count_bounds(n as nat);
    }
    let by_size: usize = if n % divisor == 0 {
        n / divisor
    } else {
        n / divisor + 1
    };
    if by_size < floor {
        floor
    } else {
        by_size
    }
}

/// The size from which on a bin of a region of `n` elements, spread over
/// `bins` bins, is refined rather than sorted directly.
pub fn bin_threshold(n: usize, bins: usize) -> (threshold: u128)
    requires
        bins > 0,
    ensures
        threshold == threshold_of(n as nat, bins as nat),
{
    let five: u128 = 5;
    five * (n as u128) / (bins as u128)
}

/// Whether a bin of `size` elements, out of a region of `n` spread over `bins`
/// bins, is finished by the comparison sort rather than refined.
pub fn is_sorted_directly(size: usize, n: usize, bins: usize) -> (direct: bool)
    requires
        bins > 0,
    ensures
        direct == sorted_directly(size as nat, n as nat, bins as nat),
{
    let threshold: u128 = bin_threshold(n, bins);
    (size as u128) < threshold || size < 2 || size == n
}

} // verus!
