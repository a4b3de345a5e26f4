//! The trait that every sketch shares.

use vstd::prelude::*;

use crate::length::Length;
use crate::sketch::circle::Circle;
use crate::sketch::polygon::Polygon;
use crate::sketch::rectangle::Rectangle;
use crate::solid::extrusion::Extrusion;

verus! {

/// A Sketch is a flat shape in the XY plane.
pub trait Sketch: Sized {
    /// Lift this sketch along Z by `height`.
    fn extrude(self, height: Length) -> (e: Extrusion<Self>)
        ensures
            e.sketch == self,
            e.height == height,
    {
        Extrusion::new(self, height)
    }
}

impl Sketch for Circle {}

impl Sketch for Rectangle {}

impl Sketch for Polygon {}

} // verus!
