//! IEEE 754 binary64 arithmetic on bit patterns, rounding to nearest with ties
//! to even.

pub mod format;
pub mod rounding;
pub mod multiply;
pub mod divide;
pub mod addition;
pub mod truncate;
pub mod accuracy;
pub mod fraction;
