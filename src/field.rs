//! The numeric capabilities that the matrix engine asks of its elements.
use vstd::prelude::*;
use rand::Rng;

verus! {

/// Additive and multiplicative identities of an element type.
pub trait Field: Sized {
    spec fn spec_zero() -> Self;

    spec fn spec_one() -> Self;

    fn zero() -> (r: Self)
        ensures
            r == Self::spec_zero(),
    ;

    fn one() -> (r: Self)
        ensures
            r == Self::spec_one(),
    ;
}

/// Uniform sampling of an element from a closed range.
pub trait RandomRange: Sized {
    /// The range from `min` to `max` holds at least one value.
    spec fn valid_range(min: Self, max: Self) -> bool;

    /// `x` lies in the closed range from `min` to `max`.
    spec fn in_range(min: Self, max: Self, x: Self) -> bool;

    fn rand_range(min: &Self, max: &Self) -> (r: Self)
        requires
            Self::valid_range(*min, *max),
        ensures
            Self::in_range(*min, *max, r),
    ;
}

impl Field for i64 {
    open spec fn spec_zero() -> i64 {
        0
    }

    open spec fn spec_one() -> i64 {
        1
    }

    fn zero() -> (r: i64) {
        0
    }

    fn one() -> (r: i64) {
        1
    }
}

/// Relies on rand's `Rng::gen_range` over an inclusive range, which returns a
/// value between the two bounds and panics only when the range is empty.
#[verifier::external_body]
fn sample_inclusive(min: i64, max: i64) -> (r: i64)
    requires
        min <= max,
    ensures
        min <= r <= max,
{
    rand::thread_rng().gen_range(min..=max)
}

impl RandomRange for i64 {
    open spec fn valid_range(min: i64, max: i64) -> bool {
        min <= max
    }

    open spec fn in_range(min: i64, max: i64, x: i64) -> bool {
        min <= x <= max
    }

    fn rand_range(min: &i64, max: &i64) -> (r: i64) {
        sample_inclusive(*min, *max)
    }
}

} // verus!
