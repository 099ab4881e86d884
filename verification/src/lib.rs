//! Generation and solving of perfect mazes on a square grid.
//!
//! A maze is a spanning tree over a `dim x dim` grid of cells: between any two
//! cells there is exactly one path. Each cell carries a 4-bit mask saying
//! which of its four neighbours it is connected to. The library
//!
//! - generates such a maze by recursive region splitting, carving one doorway
//!   per split (`generate`),
//! - decodes a cell's mask into the neighbouring cells it opens onto
//!   (`get_possible_moves`),
//! - solves a maze by a stochastic wavefront expansion over an
//!   alive / narrow / far partition of the cells (`solve_maze`), and
//! - reconstructs the entrance-to-goal path from the predecessor links the
//!   solver records (`conduct_backtracking`).
//!
//! Randomness is drawn from a `rand::rngs::StdRng` owned by the caller and
//! threaded through every function that consumes it.

pub mod pos;
pub mod errors;
pub mod maze;
pub mod moves;
pub mod reach;
pub mod generate;
pub mod backtrack;
pub mod solve;
mod rand_src;
