//! Map projections between geographic coordinates and a flat plane.

use crate::cartesian;
use crate::geographic;
use vstd::prelude::*;

pub mod equirectangular;

verus! {

/// A bidirectional mapping between geographic coordinates and a flat
/// Cartesian plane. `forward` is a pure function of the point and the
/// projection's own configuration; `reverse` inverts it, up to fixed-point
/// rounding, for values `forward` produced, and funnels any other planar
/// input through the scalar types' own normalization.
pub trait Projection {
    /// Whether `reverse` is defined for this configuration. A degenerate
    /// configuration, such as a zero radius, projects everything onto a
    /// point and has no inverse.
    spec fn reversible(&self) -> bool;

    /// Projects a geographic point onto the Cartesian plane.
    fn forward(&self, coordinates: &geographic::Coordinates) -> cartesian::Coordinates;

    /// Maps a planar Cartesian point back to geographic coordinates.
    fn reverse(&self, coordinates: &cartesian::Coordinates) -> geographic::Coordinates
        requires
            self.reversible(),
    ;
}

} // verus!
