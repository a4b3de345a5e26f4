//! Rectangles centered on the origin.

use vstd::prelude::*;

use crate::length::Length;

verus! {

#[derive(Debug, Clone, Copy, PartialEq, Eq, Structural)]
pub struct Rectangle {
    pub width: Length,
    pub depth: Length,
}

impl Rectangle {
    pub fn new(width: Length, depth: Length) -> (r: Rectangle)
        ensures
            r == (Rectangle { width, depth }),
    {
        Rectangle { width, depth }
    }

    /// A square with sides of `size`.
    pub fn square(size: Length) -> (r: Rectangle)
        ensures
            r == (Rectangle { width: size, depth: size }),
    {
        Rectangle::new(size, size)
    }
}

} // verus!
