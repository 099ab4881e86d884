use vstd::prelude::*;
use crate::errors::MazeError;
use crate::maze::Maze;
use crate::pos::{
    bit_set, dir_bit, idx_of, lemma_dir_bits, Direction, Pos, D2U_BIT, L2R_BIT, R2L_BIT, U2D_BIT,
};

verus! {

/// The neighbour coordinates a mask opens onto, in the fixed decode order:
/// left, right, up, down.
pub open spec fn decode_moves(mask: u8, p: Pos) -> Seq<Pos> {
    (if bit_set(mask, R2L_BIT) {
        seq![Pos { x: (p.x - 1) as usize, y: p.y }]
    } else {
        Seq::empty()
    }) + (if bit_set(mask, L2R_BIT) {
        seq![Pos { x: (p.x + 1) as usize, y: p.y }]
    } else {
        Seq::empty()
    }) + (if bit_set(mask, D2U_BIT) {
        seq![Pos { x: p.x, y: (p.y - 1) as usize }]
    } else {
        Seq::empty()
    }) + (if bit_set(mask, U2D_BIT) {
        seq![Pos { x: p.x, y: (p.y + 1) as usize }]
    } else {
        Seq::empty()
    })
}

/// Whether some cell of `s` has the integer coordinates `(x, y)`.
pub open spec fn has_move_to(s: Seq<Pos>, x: int, y: int) -> bool {
    exists|i: int| 0 <= i < s.len() && (#[trigger] s[i]).x == x && s[i].y == y
}

/// The mask implied by a set of neighbour coordinates of `p`: the OR of the
/// direction bit implied by each unit offset that occurs in `s`.
pub open spec fn encode_moves(p: Pos, s: Seq<Pos>) -> u8 {
    (if has_move_to(s, p.x + 1, p.y as int) {
        L2R_BIT
    } else {
        0
    }) | (if has_move_to(s, p.x - 1, p.y as int) {
        R2L_BIT
    } else {
        0
    }) | (if has_move_to(s, p.x as int, p.y + 1) {
        U2D_BIT
    } else {
        0
    }) | (if has_move_to(s, p.x as int, p.y - 1) {
        D2U_BIT
    } else {
        0
    })
}

/// Decode the mask of the cell at `pos` into the list of neighbour cells it
/// opens onto. Masks `0` and anything above `15` are invalid; under
/// well-formedness a mask never exceeds `15`, so the error comes exactly on
/// mask `0`, the fully closed cell that a connected grid never holds.
pub fn get_possible_moves(maze: &Maze, pos: Pos) -> (r: Result<Vec<Pos>, MazeError>)
    requires
        maze.wf(),
        maze.pos_in_bounds(pos),
    ensures
        match r {
            Ok(v) => {
                &&& 1 <= maze.mask(pos.x as int, pos.y as int) <= 15
                &&& v@ == decode_moves(maze.mask(pos.x as int, pos.y as int), pos)
                &&& forall|i: int|
                    0 <= i < v@.len() ==> maze.pos_in_bounds(#[trigger] v@[i]) && maze.edge(
                        pos,
                        v@[i],
                    )
                &&& forall|t: Pos| #[trigger] maze.edge(pos, t) ==> v@.contains(t)
            },
            Err(e) => {
                &&& maze.mask(pos.x as int, pos.y as int) == 0
                &&& e == (MazeError::InvalidMask { x: pos.x, y: pos.y, mask: 0u8 })
            },
        },
{
    let m = maze.mask_at(pos.x, pos.y);
    if m == 0 || m > 15 {
        return Err(MazeError::InvalidMask { x: pos.x, y: pos.y, mask: m });
    }
    let ghost gx = pos.x as int;
    let ghost gy = pos.y as int;
    let mut v: Vec<Pos> = Vec::new();
    if m & 2 != 0 {
        proof {
            assert(maze.can_go(gx, gy, Direction::R2L));
        }
        v.push(Pos { x: pos.x - 1, y: pos.y });
    }
    if m & 1 != 0 {
        proof {
            assert(maze.can_go(gx, gy, Direction::L2R));
        }
        v.push(Pos { x: pos.x + 1, y: pos.y });
    }
    if m & 8 != 0 {
        proof {
            assert(maze.can_go(gx, gy, Direction::D2U));
        }
        v.push(Pos { x: pos.x, y: pos.y - 1 });
    }
    if m & 4 != 0 {
        proof {
            assert(maze.can_go(gx, gy, Direction::U2D));
        }
        v.push(Pos { x: pos.x, y: pos.y + 1 });
    }
    proof {
        assert(v@ =~= decode_moves(m, pos));
        assert forall|i: int| 0 <= i < v@.len() implies maze.pos_in_bounds(#[trigger] v@[i])
            && maze.edge(pos, v@[i]) by {
            lemma_decode_elements(*maze, pos, i);
        }
        assert forall|t: Pos| #[trigger] maze.edge(pos, t) implies v@.contains(t) by {
            let d = choose|d: Direction| maze.step(pos, t, d);
            lemma_dir_bits(d, d);
            match d {
                Direction::L2R => {
                    assert(v@[(if bit_set(m, R2L_BIT) {
                        1int
                    } else {
                        0int
                    })] == t);
                },
                Direction::R2L => {
                    assert(v@[0] == t);
                },
                Direction::U2D => {
                    assert(v@[v@.len() - 1] == t);
                },
                Direction::D2U => {
                    assert(v@[v@.len() - (if bit_set(m, U2D_BIT) {
                        2int
                    } else {
                        1int
                    })] == t);
                },
            }
        }
    }
    Ok(v)
}

/// Each element of the decode of a well-formed cell's mask is an in-bounds
/// cell joined to `pos` by a carved doorway.
proof fn lemma_decode_elements(maze: Maze, pos: Pos, i: int)
    requires
        maze.wf(),
        maze.pos_in_bounds(pos),
        0 <= i < decode_moves(maze.mask(pos.x as int, pos.y as int), pos).len(),
    ensures
        maze.pos_in_bounds(decode_moves(maze.mask(pos.x as int, pos.y as int), pos)[i]),
        maze.edge(pos, decode_moves(maze.mask(pos.x as int, pos.y as int), pos)[i]),
{
    let gx = pos.x as int;
    let gy = pos.y as int;
    let m = maze.mask(gx, gy);
    let s = decode_moves(m, pos);
    let t = s[i];
    // The element at `i` is the neighbour for one of the four bits; find
    // which by walking the concatenation from the left.
    let l0: int = if bit_set(m, R2L_BIT) {
        1
    } else {
        0
    };
    let l1: int = l0 + (if bit_set(m, L2R_BIT) {
        1int
    } else {
        0int
    });
    let l2: int = l1 + (if bit_set(m, D2U_BIT) {
        1int
    } else {
        0int
    });
    if i < l0 {
        assert(maze.can_go(gx, gy, Direction::R2L));
        assert(maze.step(pos, t, Direction::R2L));
    } else if i < l1 {
        assert(maze.can_go(gx, gy, Direction::L2R));
        assert(maze.step(pos, t, Direction::L2R));
    } else if i < l2 {
        assert(maze.can_go(gx, gy, Direction::D2U));
        assert(maze.step(pos, t, Direction::D2U));
    } else {
        assert(maze.can_go(gx, gy, Direction::U2D));
        assert(maze.step(pos, t, Direction::U2D));
    }
}

/// Restrict candidate moves to those landing in the far region, keeping
/// their order: the cells already alive or in the narrow band are dropped.
pub fn refine_moves_based_on_far_region(
    candidate_moves: Vec<Pos>,
    far_region: &Vec<bool>,
    dim: usize,
) -> (r: Vec<Pos>)
    requires
        1 <= dim,
        far_region@.len() == dim * dim,
        forall|i: int|
            0 <= i < candidate_moves@.len() ==> (#[trigger] candidate_moves@[i]).x < dim
                && candidate_moves@[i].y < dim,
    ensures
        r@ == candidate_moves@.filter(
            |p: Pos| far_region@[idx_of(dim as int, p)],
        ),
{
    let ghost pred = |p: Pos| far_region@[idx_of(dim as int, p)];
    let mut r: Vec<Pos> = Vec::new();
    let mut i: usize = 0;
    let n = candidate_moves.len();
    while i < n
        invariant
            i <= n,
            n == candidate_moves@.len(),
            1 <= dim,
            far_region@.len() == dim * dim,
            forall|k: int|
                0 <= k < candidate_moves@.len() ==> (#[trigger] candidate_moves@[k]).x < dim
                    && candidate_moves@[k].y < dim,
            pred == (|p: Pos| far_region@[idx_of(dim as int, p)]),
            r@ == candidate_moves@.subrange(0, i as int).filter(pred),
        decreases n - i,
    {
        let p = candidate_moves[i];
        proof {
            crate::maze::lemma_grid_idx_bounds(dim as int, p.x as int, p.y as int);
            reveal(Seq::filter);
            assert(candidate_moves@.subrange(0, i + 1).drop_last() =~= candidate_moves@.subrange(
                0,
                i as int,
            ));
        }
        let len = far_region.len();
        if far_region[p.y * dim + p.x] {
            r.push(p);
        }
        i = i + 1;
    }
    proof {
        assert(candidate_moves@.subrange(0, n as int) =~= candidate_moves@);
    }
    r
}

/// Round trip of the connectivity encoding: re-encoding the neighbour set
/// that a cell's mask decodes to reproduces the mask exactly.
pub proof fn lemma_moves_round_trip(maze: Maze, pos: Pos)
    requires
        maze.wf(),
        maze.pos_in_bounds(pos),
    ensures
        encode_moves(pos, decode_moves(maze.mask(pos.x as int, pos.y as int), pos)) == maze.mask(
            pos.x as int,
            pos.y as int,
        ),
{
    let gx = pos.x as int;
    let gy = pos.y as int;
    let m = maze.mask(gx, gy);
    let s = decode_moves(m, pos);
    // Each direction bit of the mask corresponds exactly to the presence of
    // the matching neighbour coordinates in the decode.
    assert(has_move_to(s, gx + 1, gy) == bit_set(m, L2R_BIT)) by {
        if bit_set(m, L2R_BIT) {
            assert(maze.can_go(gx, gy, Direction::L2R));
            let j: int = if bit_set(m, R2L_BIT) {
                1
            } else {
                0
            };
            assert(s[j].x == gx + 1 && s[j].y == gy);
        }
        if has_move_to(s, gx + 1, gy) {
            let i = choose|i: int|
                0 <= i < s.len() && (#[trigger] s[i]).x == gx + 1 && s[i].y == gy;
            lemma_decode_elements(maze, pos, i);
            let d = choose|d: Direction| maze.step(pos, s[i], d);
            assert(maze.step(pos, s[i], d));
            assert(d == Direction::L2R);
        }
    }
    assert(has_move_to(s, gx - 1, gy) == bit_set(m, R2L_BIT)) by {
        if bit_set(m, R2L_BIT) {
            assert(maze.can_go(gx, gy, Direction::R2L));
            assert(s[0].x == gx - 1 && s[0].y == gy);
        }
        if has_move_to(s, gx - 1, gy) {
            let i = choose|i: int|
                0 <= i < s.len() && (#[trigger] s[i]).x == gx - 1 && s[i].y == gy;
            lemma_decode_elements(maze, pos, i);
            let d = choose|d: Direction| maze.step(pos, s[i], d);
            assert(maze.step(pos, s[i], d));
            assert(d == Direction::R2L);
        }
    }
    assert(has_move_to(s, gx, gy + 1) == bit_set(m, U2D_BIT)) by {
        if bit_set(m, U2D_BIT) {
            assert(maze.can_go(gx, gy, Direction::U2D));
            assert(s[s.len() - 1].x == gx && s[s.len() - 1].y == gy + 1);
        }
        if has_move_to(s, gx, gy + 1) {
            let i = choose|i: int|
                0 <= i < s.len() && (#[trigger] s[i]).x == gx && s[i].y == gy + 1;
            lemma_decode_elements(maze, pos, i);
            let d = choose|d: Direction| maze.step(pos, s[i], d);
            assert(maze.step(pos, s[i], d));
            assert(d == Direction::U2D);
        }
    }
    assert(has_move_to(s, gx, gy - 1) == bit_set(m, D2U_BIT)) by {
        if bit_set(m, D2U_BIT) {
            assert(maze.can_go(gx, gy, Direction::D2U));
            let j: int = s.len() - (if bit_set(m, U2D_BIT) {
                2int
            } else {
                1int
            });
            assert(s[j].x == gx && s[j].y == gy - 1);
        }
        if has_move_to(s, gx, gy - 1) {
            let i = choose|i: int|
                0 <= i < s.len() && (#[trigger] s[i]).x == gx && s[i].y == gy - 1;
            lemma_decode_elements(maze, pos, i);
            let d = choose|d: Direction| maze.step(pos, s[i], d);
            assert(maze.step(pos, s[i], d));
            assert(d == Direction::D2U);
        }
    }
    // Each term of the encode equals the matching bit of the mask, and the
    // OR of the four bits of a 4-bit mask is the mask itself.
    assert(m & 1 == (if m & 1 != 0 {
        1u8
    } else {
        0u8
    }) && m & 2 == (if m & 2 != 0 {
        2u8
    } else {
        0u8
    }) && m & 4 == (if m & 4 != 0 {
        4u8
    } else {
        0u8
    }) && m & 8 == (if m & 8 != 0 {
        8u8
    } else {
        0u8
    })) by (bit_vector);
    assert(m <= 15 ==> ((m & 1) | (m & 2) | (m & 4) | (m & 8)) == m) by (bit_vector);
}

} // verus!
