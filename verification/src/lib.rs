//! Angle conversions for surveying, with first-order variance carried along.
//!
//! Every number is an IEEE 754 binary64 value held as its bit pattern, and the
//! arithmetic on those patterns is carried out and proved here in integers, so
//! that each conversion is pinned down to the last bit.

pub mod geodesy;
