//! Sketches: flat shapes in the XY plane.

pub mod circle;
pub mod hull;
pub mod polygon;
pub mod rectangle;
pub mod sketch_trait;
pub mod triangulate;

pub use circle::Circle;
pub use polygon::Polygon;
pub use rectangle::Rectangle;
pub use sketch_trait::Sketch;
