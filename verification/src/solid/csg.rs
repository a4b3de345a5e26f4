//! Boolean combinations of two solids.

use vstd::prelude::*;

verus! {

/// Boolean union of two solids (A ∪ B).
#[derive(Debug, Clone, Copy, PartialEq, Eq, Structural)]
pub struct Union<A, B> {
    pub a: A,
    pub b: B,
}

impl<A, B> Union<A, B> {
    pub fn new(a: A, b: B) -> (u: Union<A, B>)
        ensures
            u.a == a,
            u.b == b,
    {
        Union { a, b }
    }
}

/// Boolean difference of two solids (A \ B). The first solid is the body;
/// the second is the cut.
#[derive(Debug, Clone, Copy, PartialEq, Eq, Structural)]
pub struct Difference<A, B> {
    pub a: A,
    pub b: B,
}

impl<A, B> Difference<A, B> {
    pub fn new(a: A, b: B) -> (d: Difference<A, B>)
        ensures
            d.a == a,
            d.b == b,
    {
        Difference { a, b }
    }
}

/// Boolean intersection of two solids (A ∩ B).
#[derive(Debug, Clone, Copy, PartialEq, Eq, Structural)]
pub struct Intersection<A, B> {
    pub a: A,
    pub b: B,
}

impl<A, B> Intersection<A, B> {
    pub fn new(a: A, b: B) -> (i: Intersection<A, B>)
        ensures
            i.a == a,
            i.b == b,
    {
        Intersection { a, b }
    }
}

} // verus!
