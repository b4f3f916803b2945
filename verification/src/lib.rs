//! Conversion between Cartesian and geographic coordinates on a sphere,
//! great-circle distance, and pluggable map projections.
//!
//! Every scalar is a fixed-point number: an `i64` (or `u64` for the
//! non-negative ones) counting billionths. Angles are stored in billionths
//! of a radian, with `scalar::PI` as the fixed-point half turn; lengths are
//! stored in billionths of the abstract unit length (`scalar::UNIT`).

pub mod cartesian;
pub mod geographic;
pub mod projection;
pub mod scalar;
pub mod trig;
