//! Cartesian system of coordinates.

use vstd::prelude::*;

verus! {

/// A point in a three-dimensional Cartesian system of coordinates. Each
/// axis is a fixed-point scalar (billionths of the unit length) and carries
/// no invariant; the default is the origin.
#[derive(Debug, Clone, Copy, PartialEq, Eq, Structural)]
pub struct Coordinates {
    pub x: i64,
    pub y: i64,
    pub z: i64,
}

impl Default for Coordinates {
    /// The origin.
    fn default() -> (r: Self)
        ensures
            r.x == 0 && r.y == 0 && r.z == 0,
    {
        Coordinates { x: 0, y: 0, z: 0 }
    }
}

impl Coordinates {
    /// A copy of the point with its first axis replaced.
    pub fn with_x(self, x: i64) -> (r: Self)
        ensures
            r.x == x,
            r.y == self.y,
            r.z == self.z,
    {
        Coordinates { x, ..self }
    }

    /// A copy of the point with its second axis replaced.
    pub fn with_y(self, y: i64) -> (r: Self)
        ensures
            r.x == self.x,
            r.y == y,
            r.z == self.z,
    {
        Coordinates { y, ..self }
    }

    /// A copy of the point with its third axis replaced.
    pub fn with_z(self, z: i64) -> (r: Self)
        ensures
            r.x == self.x,
            r.y == self.y,
            r.z == z,
    {
        Coordinates { z, ..self }
    }
}

} // verus!
