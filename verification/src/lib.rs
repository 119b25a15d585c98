//! Planar geometry on a fixed-point grid: points, lines, circles and polygons
//! with exact predicates, plus convex hull and closest pair.
//!
//! Every coordinate and every length is an integer count of grid units;
//! [`fixed::SCALE`] units make up one whole. Products of two lengths (areas,
//! dot and cross products, squared distances) are kept exactly, in square
//! units, so that no predicate depends on rounding. A result that is a
//! length or an area is rounded down to the grid once, at the end, and its
//! contract says so.
//!
//! The tolerance of the predicates is one grid unit: three points count as
//! collinear where the triangle they make has an area below it, and two
//! lines as parallel where the cross product of their directions is below
//! it.
//!
//! A query without an answer returns a [`error::GeometryError`]: the length
//! of an unbounded line, the distance to a line whose two points coincide,
//! the crossing of parallel lines, a result that does not fit the grid.

pub mod choice;
pub mod circle;
pub mod closest;
pub mod convex;
pub mod error;
pub mod extreme;
pub mod fixed;
pub mod hull;
pub mod line;
pub mod order;
pub mod point;
pub mod polygon;
pub mod wide;
