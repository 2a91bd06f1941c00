//! A value with its variance.

use vstd::prelude::*;

verus! {

/// A measured scalar: a value and the variance of the measurement, both held as
/// binary64 patterns. Nothing is asked of either: a negative variance, an
/// infinity or a NaN is carried like any other number.
#[derive(Clone, Copy, Debug, PartialEq, Eq, Structural)]
pub struct F64v {
    pub value: u64,
    pub variance: u64,
}

/// The scalar with the given value and variance.
pub fn make_scalar(value: u64, variance: u64) -> (scalar: F64v)
    ensures
        scalar.value == value,
        scalar.variance == variance,
{
    F64v { value, variance }
}

} // verus!
