//! Rasterization of filled polygons, with optional holes, onto an in-memory
//! pixel buffer: Bresenham lines for the outline, an even-odd scanline fill
//! for the interior, and a ray-casting point-in-polygon test for the holes.
//!
//! Every function is total on its inputs: coordinates outside the buffer are
//! dropped, and all intermediate arithmetic is carried out in a width that
//! cannot overflow.

pub mod arith;
pub mod color;
pub mod convex;
pub mod fill;
pub mod image;
pub mod line;
pub mod polygon;
pub mod sort;

pub use crate::color::Color;
pub use crate::fill::fill_polygon;
pub use crate::image::Image;
pub use crate::image::Raster;
pub use crate::line::draw_line_bresenham;
pub use crate::polygon::draw_polygon_edges;
pub use crate::polygon::point_in_polygon;
