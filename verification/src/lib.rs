//! Route finding over a sparse graph of lattice points in three dimensions.
//!
//! Coordinates are signed fixed-point integers; the distance between two
//! points is the Euclidean distance rounded up to a whole unit, so every
//! cost in a search is an exact integer and the triangle inequality holds.

pub mod cheapest;
pub mod graph;
pub mod laws;
pub mod model;
pub mod point;
pub mod search;
pub mod theory;

pub use crate::graph::AStarPathFinder;
pub use crate::point::AStarPoint;
