//! Dead-zone-aware routing: a road graph whose edge costs can be weighted by
//! mobile-network coverage, with the spatial index and the geometry that the
//! construction of such a graph needs.
//!
//! All quantities are exact integers. Coordinates are degrees scaled by
//! 10,000,000, lengths are millimetres, and fractions of an edge are counted
//! in units of 1 / 2^30.
//!
//! The distance between two points of the sphere and the projection of a
//! point into the plane are not computed here. The functions that need them
//! take them as arguments: `dist` measures the distance between two
//! positions, and `project` takes a position, relative to a latitude, to a
//! point of the plane. What is proved holds of whatever these return.

pub mod geom;
pub mod graph;
pub mod grid;
pub mod order;
pub mod pbf;
pub mod towers;
pub mod web;
pub mod wide;

use vstd::prelude::*;

verus! {

/// A road graph together with the towers whose coverage it holds.
pub struct ApplicationState {
    pub graph: graph::Graph,
    pub towers: Vec<towers::Tower>,
}

} // verus!
