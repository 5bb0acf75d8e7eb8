//! A maze library: a rectangular grid of cells with shared walls, two
//! steppable maze-generation algorithms (binary tree and sidewinder), and a
//! breadth-first distance field over the open passages of a finished maze.

pub mod djikstra_distances;
pub mod generators;
pub mod grid;
