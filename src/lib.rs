//! A uniform-grid cell list for short-range particle interactions.
//!
//! Positions are fixed-point lattice points with non-negative coordinates;
//! the grid answers "which pairs of particles lie within the interaction
//! radius" in time linear in the number of particles.

pub mod point;
pub mod step;
pub mod adjacency;
pub mod arith;
pub mod celllist;
