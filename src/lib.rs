//! Planar waypoint graph editing, shortest-path planning over the graph, and
//! the proportional controllers that drive a point robot along a planned path.
//!
//! All positions are fixed-point: one unit is 1e-5 field units, so distances
//! and comparisons are exact integer arithmetic.
use vstd::prelude::*;

pub mod geometry;
pub mod graph;
pub mod planner;
pub mod editor;
pub mod pursuit;
pub mod physics;
pub mod robot;
pub mod auto;
