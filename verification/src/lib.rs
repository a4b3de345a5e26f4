use vstd::prelude::*;

pub mod decimal;
pub mod export;
pub mod length;
pub mod color;
pub mod mesh;
pub mod model;
pub mod sketch;
pub mod solid;

pub use length::{Length, ToLength};
pub use color::Color;
pub use mesh::Mesh;
pub use model::{Infill, InfillPattern, Model, Nozzle, Object, PrintSettings, Support, SupportKind};
pub use sketch::{Circle, Polygon, Rectangle, Sketch};
pub use solid::{Cuboid, Cylinder, Difference, Extrusion, Intersection, Solid, Sphere, Union};

verus! {
} // verus!
