use vstd::prelude::*;

verus! {

/// Coordinates of one cell: `x` grows rightward, `y` grows downward.
#[derive(Clone, Copy, PartialEq, Eq, Structural, Debug)]
pub struct Pos {
    pub x: usize,
    pub y: usize,
}

/// The four moves a cell mask can encode: left-to-right, right-to-left,
/// up-to-down and down-to-up.
#[derive(Clone, Copy, PartialEq, Eq, Structural, Debug)]
pub enum Direction {
    L2R,
    R2L,
    U2D,
    D2U,
}

/// Mask bit meaning "can move right from this cell".
pub const L2R_BIT: u8 = 1;

/// Mask bit meaning "can move left from this cell".
pub const R2L_BIT: u8 = 2;

/// Mask bit meaning "can move down from this cell".
pub const U2D_BIT: u8 = 4;

/// Mask bit meaning "can move up from this cell".
pub const D2U_BIT: u8 = 8;

/// Whether bit `b` is set in mask `m`.
pub open spec fn bit_set(m: u8, b: u8) -> bool {
    m & b != 0
}

/// The mask bit that encodes direction `d`.
pub open spec fn dir_bit(d: Direction) -> u8 {
    match d {
        Direction::L2R => L2R_BIT,
        Direction::R2L => R2L_BIT,
        Direction::U2D => U2D_BIT,
        Direction::D2U => D2U_BIT,
    }
}

/// The direction of the move that undoes a move in direction `d`.
pub open spec fn opp_dir(d: Direction) -> Direction {
    match d {
        Direction::L2R => Direction::R2L,
        Direction::R2L => Direction::L2R,
        Direction::U2D => Direction::D2U,
        Direction::D2U => Direction::U2D,
    }
}

/// The x coordinate of the cell one step in direction `d` from column `x`.
pub open spec fn nb_x(x: int, d: Direction) -> int {
    match d {
        Direction::L2R => x + 1,
        Direction::R2L => x - 1,
        Direction::U2D => x,
        Direction::D2U => x,
    }
}

/// The y coordinate of the cell one step in direction `d` from row `y`.
pub open spec fn nb_y(y: int, d: Direction) -> int {
    match d {
        Direction::L2R => y,
        Direction::R2L => y,
        Direction::U2D => y + 1,
        Direction::D2U => y - 1,
    }
}

/// Index of cell `(x, y)` in the row-major backing vector of a `dim x dim`
/// table.
pub open spec fn grid_idx(dim: int, x: int, y: int) -> int {
    y * dim + x
}

/// Row-major index of the cell `p`.
pub open spec fn idx_of(dim: int, p: Pos) -> int {
    grid_idx(dim, p.x as int, p.y as int)
}

/// The direction of the displacement from `a` to `b`, if it is exactly one
/// unit along exactly one axis, and `None` for every other displacement.
pub open spec fn classify_spec(a: Pos, b: Pos) -> Option<Direction> {
    if b.y == a.y && b.x == a.x + 1 {
        Some(Direction::L2R)
    } else if b.y == a.y && a.x == b.x + 1 {
        Some(Direction::R2L)
    } else if b.x == a.x && b.y == a.y + 1 {
        Some(Direction::U2D)
    } else if b.x == a.x && a.y == b.y + 1 {
        Some(Direction::D2U)
    } else {
        None
    }
}

/// Whether `b` is one unit away from `a` along exactly one axis.
pub open spec fn unit_step(a: Pos, b: Pos) -> bool {
    classify_spec(a, b) is Some
}

/// Classify the displacement from `a` to `b` as one of the four directions,
/// or `None` when it is not a single unit step along one axis.
pub fn classify_step(a: Pos, b: Pos) -> (r: Option<Direction>)
    ensures
        r == classify_spec(a, b),
{
    if b.y == a.y && b.x > a.x && b.x - a.x == 1 {
        Some(Direction::L2R)
    } else if b.y == a.y && a.x > b.x && a.x - b.x == 1 {
        Some(Direction::R2L)
    } else if b.x == a.x && b.y > a.y && b.y - a.y == 1 {
        Some(Direction::U2D)
    } else if b.x == a.x && a.y > b.y && a.y - b.y == 1 {
        Some(Direction::D2U)
    } else {
        None
    }
}

/// The four direction bits are distinct powers of two: each tests positive
/// against itself and negative against every other.
pub proof fn lemma_dir_bits(d1: Direction, d2: Direction)
    ensures
        dir_bit(d1) <= 15,
        bit_set(dir_bit(d1), dir_bit(d1)),
        d1 != d2 ==> !bit_set(dir_bit(d1), dir_bit(d2)),
{
    assert(1u8 & 1 != 0 && 2u8 & 2 != 0 && 4u8 & 4 != 0 && 8u8 & 8 != 0 && 1u8 & 2 == 0 && 1u8 & 4
        == 0 && 1u8 & 8 == 0 && 2u8 & 1 == 0 && 2u8 & 4 == 0 && 2u8 & 8 == 0 && 4u8 & 1 == 0 && 4u8
        & 2 == 0 && 4u8 & 8 == 0 && 8u8 & 1 == 0 && 8u8 & 2 == 0 && 8u8 & 4 == 0) by (bit_vector);
}

/// No bit is set in the zero mask.
pub proof fn lemma_bit_zero(b: u8)
    ensures
        !bit_set(0u8, b),
{
    assert(0u8 & b == 0) by (bit_vector);
}

/// Bits of an `or` of two masks: a bit is set in `m | b` exactly when it is
/// set in one of the two.
pub proof fn lemma_or_bit(m: u8, b: u8, c: u8)
    ensures
        bit_set(m | b, c) == (bit_set(m, c) || bit_set(b, c)),
{
    assert((m | b) & c != 0 <==> (m & c != 0 || b & c != 0)) by (bit_vector);
}

/// A mask stays within the low four bits when a low bit is set in it.
pub proof fn lemma_or_keeps_low(m: u8, b: u8)
    requires
        m <= 15,
        b <= 15,
    ensures
        m | b <= 15,
{
    assert(m <= 15 && b <= 15 ==> (m | b) <= 15) by (bit_vector);
}

} // verus!
