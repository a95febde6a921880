//! Polyline simplification on an integer grid: an optional radial pre-filter,
//! Douglas-Peucker reduction driven by an explicit work list, and a final pass
//! that collapses repeated vertices.
pub mod geometry;
pub mod retention;
pub mod model;
pub mod polyline;
pub mod laws;

pub use geometry::Point;
pub use polyline::Polyline;
