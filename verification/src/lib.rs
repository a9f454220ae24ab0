//! Procedural maze generation over several planar tessellations.
//!
//! A maze is a grid of cells (rectangular, hexagonal, triangular or polar)
//! whose fixed, symmetric *neighbour* relation describes spatial adjacency,
//! and whose mutable, symmetric *link* relation describes open passages.
//! Randomized generators grow the link relation into a spanning tree of the
//! neighbour graph; a braiding pass can then add extra links to remove dead
//! ends; a breadth-first solver labels every cell with its distance from a
//! start cell and with its predecessor on a shortest path.

pub mod delta;
pub mod generate;
pub mod graph;
pub mod grid;
pub mod hexagonal;
pub mod polar;
pub mod rectangle;
pub mod rng;
pub mod settings;
pub mod solve;
