//! The trait that every solid shares.

use vstd::prelude::*;

use crate::solid::csg::{Difference, Intersection, Union};
use crate::solid::cuboid::Cuboid;
use crate::solid::cylinder::Cylinder;
use crate::solid::extrusion::Extrusion;
use crate::solid::sphere::Sphere;

verus! {

/// A Solid represents a 3-dimensional volume. Solids combine into boolean
/// trees; each tree keeps its children so it can be tessellated again at
/// another tolerance.
pub trait Solid: Sized {
    /// Combine this solid with `other` (A ∪ B).
    fn union<O>(self, other: O) -> (u: Union<Self, O>)
        ensures
            u.a == self,
            u.b == other,
    {
        Union::new(self, other)
    }

    /// Cut `other` from this solid (A \ B).
    fn difference<O>(self, other: O) -> (d: Difference<Self, O>)
        ensures
            d.a == self,
            d.b == other,
    {
        Difference::new(self, other)
    }

    /// Keep the overlap of this solid and `other` (A ∩ B).
    fn intersection<O>(self, other: O) -> (i: Intersection<Self, O>)
        ensures
            i.a == self,
            i.b == other,
    {
        Intersection::new(self, other)
    }
}

impl Solid for Cuboid {}

impl Solid for Cylinder {}

impl Solid for Sphere {}

impl<S> Solid for Extrusion<S> {}

impl<A: Solid, B: Solid> Solid for Union<A, B> {}

impl<A: Solid, B: Solid> Solid for Difference<A, B> {}

impl<A: Solid, B: Solid> Solid for Intersection<A, B> {}

} // verus!
