//! Circles centered on the origin.

use vstd::prelude::*;

use crate::length::{Length, trunc_div};

verus! {

#[derive(Debug, Clone, Copy, PartialEq, Eq, Structural)]
pub struct Circle {
    pub radius: Length,
}

impl Circle {
    pub fn new(radius: Length) -> (c: Circle)
        ensures
            c.radius == radius,
    {
        Circle { radius }
    }

    /// The circle of diameter `diameter`: its radius is half of it, rounded
    /// toward zero to whole micrometers.
    pub fn diameter(diameter: Length) -> (c: Circle)
        ensures
            c.radius@ == trunc_div(diameter@, 2),
    {
        Circle::new(diameter.halved())
    }
}

} // verus!
