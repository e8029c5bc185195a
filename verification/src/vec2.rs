//! The 2D vector the grid stores, with fixed-point milli-unit components.

use vstd::prelude::*;

verus! {

/// A 2D vector whose components are fixed-point integers in milli-units.
#[derive(Clone, Copy, PartialEq, Eq, Structural, Debug)]
pub struct Vec2i {
    pub x: i64,
    pub y: i64,
}

impl Vec2i {
    /// The zero vector.
    pub fn zero() -> (v: Vec2i)
        ensures
            v == (Vec2i { x: 0, y: 0 }),
    {
        Vec2i { x: 0, y: 0 }
    }
}

} // verus!
