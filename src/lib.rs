//! A Barnes–Hut quadtree for 2D gravitational n-body simulation.
//!
//! Positions live on an integer grid and masses are integers, so that the tree's
//! geometry and its aggregates are exact:
//! - `geometry`: points, square quadrants, their four children and the bounding
//!   square of a set of positions;
//! - `body`: bodies, the sources of attraction they make, and sums over them;
//! - `tree`: the quadtree, its insertion, and the query that lists the sources
//!   acting on a body under the opening-angle threshold;
//! - `laws`: what holds of every tree and every query.
//!
//! Turning sources into forces is left to the caller, who holds the time step and
//! the gravitational constant.

pub mod geometry;
pub mod body;
pub mod tree;
pub mod laws;
