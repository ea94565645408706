//! Clamping a value between two bounds.

use vstd::prelude::*;
use vstd::std_specs::cmp::PartialOrdIs;
use vstd::std_specs::cmp::PartialOrdSpec;

verus! {

/// The value that clamping `n` between `lower` and `upper` gives: `lower` when
/// `n` is at most `lower`, otherwise `upper` when `n` is at least `upper`,
/// otherwise `n` itself. The lower bound is tested first, so it wins where the
/// bounds are crossed.
pub open spec fn clamped<T: PartialOrd>(n: T, lower: T, upper: T) -> T {
    if n.is_le(&lower) {
        lower
    } else if n.is_ge(&upper) {
        upper
    } else {
        n
    }
}

/// Clamps `n` between `lower` and `upper`.
pub fn myclamp<T: PartialOrd + Copy>(n: T, lower: T, upper: T) -> (res: T)
    ensures
        res == n || res == lower || res == upper,
        T::obeys_partial_cmp_spec() ==> res == clamped(n, lower, upper),
{
    if n <= lower {
        lower
    } else if n >= upper {
        upper
    } else {
        n
    }
}

} // verus!
