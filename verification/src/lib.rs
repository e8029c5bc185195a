//! A discretized 2D flow field over a padded rectangular domain.
//!
//! All world-space quantities are fixed-point integers in milli-units
//! (one world unit is `SCALE` = 1000), so every computation is exact
//! integer arithmetic with fully specified rounding.

pub mod common;
pub mod field;
pub mod flow;
pub mod math;
pub mod trig;
pub mod vec2;

use vstd::prelude::*;

verus! {

/// Fixed-point denominator: one world unit, force unit or radian is
/// `SCALE` milli-units.
pub const SCALE: i64 = 1000;

/// The largest number of columns or rows a grid may have.
pub const MAX_AXIS: usize = 32768;

} // verus!
