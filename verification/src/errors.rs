use vstd::prelude::*;

verus! {

/// The invariant violations the maze routines can report. All four signal a
/// bug in generation or solving rather than an environmental condition; each
/// variant carries enough of the offending state to debug it.
#[derive(Clone, Copy, PartialEq, Eq, Structural, Debug)]
pub enum MazeError {
    /// A cell's encoded connectivity value is 0 or exceeds 15.
    InvalidMask { x: usize, y: usize, mask: u8 },
    /// A region split was asked for with inverted bounds (min > max).
    InvalidRegion { wall_min: usize, wall_max: usize, door_min: usize, door_max: usize },
    /// The solver's frontier emptied before the goal was reached, so the grid
    /// is not fully connected.
    EmptyNarrowBand,
    /// A backtracking step from the cell `(x, y)` was not a single unit step
    /// along one axis toward a recorded predecessor.
    ImpossiblePath { x: usize, y: usize },
}

} // verus!
