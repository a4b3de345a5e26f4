//! Solids: primitives and the trees that combine them.

pub mod csg;
pub mod cuboid;
pub mod cylinder;
pub mod extrusion;
pub mod rotate_extrusion;
pub mod solid_trait;
pub mod sphere;

pub use csg::{Difference, Intersection, Union};
pub use cuboid::Cuboid;
pub use cylinder::Cylinder;
pub use extrusion::Extrusion;
pub use solid_trait::Solid;
pub use sphere::Sphere;
