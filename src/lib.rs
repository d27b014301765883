//! A graph walked by moving entities whose overused edges break and rewire.
//!
//! The store keeps an edge map keyed by ordered node pairs and a neighbour
//! index that mirrors it; the lifecycle ages out overused edges; walkers hop
//! from node to node and report the edges they cross.

pub mod graph;
pub mod lifecycle;
mod chance;
pub mod walker;
pub mod sim;
