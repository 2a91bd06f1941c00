//! Measured scalars and the angles built from them.

pub mod binary64;
pub mod vv;
pub mod angle;
