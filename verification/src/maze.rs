use vstd::prelude::*;
use crate::pos::{
    bit_set, dir_bit, grid_idx, lemma_bit_zero, lemma_dir_bits, lemma_or_bit, lemma_or_keeps_low,
    nb_x, nb_y, opp_dir, Direction, Pos, L2R_BIT, U2D_BIT,
};

verus! {

/// A `dim x dim` grid of cells, each holding a 4-bit connectivity mask in
/// `[0, 15]` that says which of its four axis-aligned neighbours it is
/// connected to. Stored row-major: cell `(x, y)` lives at `y * dim + x`.
pub struct Maze {
    dim: usize,
    cells: Vec<u8>,
}

/// 1 for each of the rightward and downward bits set in `m`: the number of
/// carved edges for which the cell holding `m` is the left or the upper
/// endpoint.
pub open spec fn out_edges(m: u8) -> int {
    (if bit_set(m, L2R_BIT) {
        1int
    } else {
        0int
    }) + (if bit_set(m, U2D_BIT) {
        1int
    } else {
        0int
    })
}

/// Total of `out_edges` over a sequence of masks. Under the bit-symmetry
/// invariant every carved edge is counted exactly once, at its left or upper
/// endpoint, so this is the number of carved edges of the grid.
pub open spec fn edge_sum(s: Seq<u8>) -> int
    decreases s.len(),
{
    if s.len() == 0 {
        0
    } else {
        edge_sum(s.drop_last()) + out_edges(s.last())
    }
}

/// Updating one mask changes `edge_sum` by the difference of the two cells'
/// `out_edges`.
pub proof fn lemma_edge_sum_update(s: Seq<u8>, i: int, v: u8)
    requires
        0 <= i < s.len(),
    ensures
        edge_sum(s.update(i, v)) == edge_sum(s) - out_edges(s[i]) + out_edges(v),
    decreases s.len(),
{
    if i == s.len() - 1 {
        assert(s.update(i, v).drop_last() =~= s.drop_last());
    } else {
        assert(s.update(i, v).drop_last() =~= s.drop_last().update(i, v));
        lemma_edge_sum_update(s.drop_last(), i, v);
    }
}

/// Row-major indexing stays within a `dim x dim` table.
pub proof fn lemma_grid_idx_bounds(dim: int, x: int, y: int)
    by (nonlinear_arith)
    requires
        0 <= x < dim,
        0 <= y < dim,
    ensures
        0 <= grid_idx(dim, x, y) < dim * dim,
{
}

/// Row-major indexing is injective on a `dim x dim` table.
pub proof fn lemma_grid_idx_inj(dim: int, x1: int, y1: int, x2: int, y2: int)
    by (nonlinear_arith)
    requires
        0 <= x1 < dim,
        0 <= y1 < dim,
        0 <= x2 < dim,
        0 <= y2 < dim,
        grid_idx(dim, x1, y1) == grid_idx(dim, x2, y2),
    ensures
        x1 == x2 && y1 == y2,
{
}

impl Maze {
    /// The side length of the grid.
    pub closed spec fn spec_dim(self) -> int {
        self.dim as int
    }

    /// The row-major sequence of the cells' masks.
    pub closed spec fn masks(self) -> Seq<u8> {
        self.cells@
    }

    /// Whether `(x, y)` is a cell of the grid.
    pub open spec fn in_bounds(self, x: int, y: int) -> bool {
        0 <= x < self.spec_dim() && 0 <= y < self.spec_dim()
    }

    /// Whether `p` is a cell of the grid.
    pub open spec fn pos_in_bounds(self, p: Pos) -> bool {
        self.in_bounds(p.x as int, p.y as int)
    }

    /// The mask of cell `(x, y)`.
    pub open spec fn mask(self, x: int, y: int) -> u8 {
        self.masks()[grid_idx(self.spec_dim(), x, y)]
    }

    /// Whether the grid allows a move from cell `(x, y)` in direction `d`.
    pub open spec fn can_go(self, x: int, y: int, d: Direction) -> bool {
        self.in_bounds(x, y) && bit_set(self.mask(x, y), dir_bit(d))
    }

    /// Well-formedness: the backing vector matches the dimension, every mask
    /// stays in `[0, 15]`, and no mask points across the grid boundary.
    pub open spec fn wf(self) -> bool {
        &&& 1 <= self.spec_dim() <= usize::MAX
        &&& self.masks().len() == self.spec_dim() * self.spec_dim()
        &&& forall|x: int, y: int| self.in_bounds(x, y) ==> #[trigger] self.mask(x, y) <= 15
        &&& forall|x: int, y: int, d: Direction|
            #[trigger] self.can_go(x, y, d) ==> self.in_bounds(nb_x(x, d), nb_y(y, d))
    }

    /// Whether the single move from `a` to `b` in direction `d` is open.
    pub open spec fn step(self, a: Pos, b: Pos, d: Direction) -> bool {
        &&& self.can_go(a.x as int, a.y as int, d)
        &&& b.x as int == nb_x(a.x as int, d)
        &&& b.y as int == nb_y(a.y as int, d)
        &&& self.pos_in_bounds(b)
    }

    /// Whether a doorway connects the adjacent cells `a` and `b`.
    pub open spec fn edge(self, a: Pos, b: Pos) -> bool {
        exists|d: Direction| self.step(a, b, d)
    }

    /// Bit symmetry: for every pair of adjacent cells, the move from the
    /// first to the second is open exactly when the move back is.
    pub open spec fn symmetric(self) -> bool {
        forall|x: int, y: int, d: Direction|
            self.in_bounds(x, y) && self.in_bounds(nb_x(x, d), nb_y(y, d)) ==> #[trigger] self.can_go(
                x,
                y,
                d,
            ) == self.can_go(nb_x(x, d), nb_y(y, d), opp_dir(d))
    }

    /// The number of carved edges of the grid.
    pub open spec fn spec_edge_count(self) -> int {
        edge_sum(self.masks())
    }

    /// A fresh grid with every mask zero: no doorway is carved yet.
    pub fn new(dim: usize) -> (m: Maze)
        requires
            1 <= dim,
            dim * dim <= usize::MAX,
        ensures
            m.wf(),
            m.spec_dim() == dim,
            forall|x: int, y: int| m.in_bounds(x, y) ==> #[trigger] m.mask(x, y) == 0,
            m.spec_edge_count() == 0,
    {
        let n = dim * dim;
        let mut cells: Vec<u8> = Vec::new();
        let mut i: usize = 0;
        while i < n
            invariant
                i <= n,
                cells@.len() == i,
                forall|k: int| 0 <= k < i ==> cells@[k] == 0u8,
                edge_sum(cells@) == 0,
            decreases n - i,
        {
            let ghost prev = cells@;
            cells.push(0u8);
            proof {
                assert(cells@.drop_last() =~= prev);
                assert(out_edges(0u8) == 0) by {
                    assert(0u8 & 1 == 0 && 0u8 & 4 == 0) by (bit_vector);
                }
            }
            i = i + 1;
        }
        let m = Maze { dim, cells };
        proof {
            assert forall|x: int, y: int| m.in_bounds(x, y) implies #[trigger] m.mask(x, y)
                == 0 by {
                lemma_grid_idx_bounds(m.spec_dim(), x, y);
            }
            assert forall|x: int, y: int, d: Direction| #[trigger] m.can_go(x, y, d) implies m
                .in_bounds(nb_x(x, d), nb_y(y, d)) by {
                lemma_grid_idx_bounds(m.spec_dim(), x, y);
                lemma_bit_zero(dir_bit(d));
                assert(m.mask(x, y) == 0);
            }
        }
        m
    }

    /// The side length of the grid.
    pub fn dim(&self) -> (d: usize)
        ensures
            d == self.spec_dim(),
    {
        self.dim
    }

    /// The number of cells of the grid.
    pub fn num_cells(&self) -> (n: usize)
        requires
            self.wf(),
        ensures
            n as int == self.spec_dim() * self.spec_dim(),
    {
        self.cells.len()
    }

    /// The mask of cell `(x, y)`.
    pub fn mask_at(&self, x: usize, y: usize) -> (m: u8)
        requires
            self.wf(),
            self.in_bounds(x as int, y as int),
        ensures
            m == self.mask(x as int, y as int),
    {
        let len = self.cells.len();
        proof {
            lemma_grid_idx_bounds(self.spec_dim(), x as int, y as int);
        }
        self.cells[y * self.dim + x]
    }

    /// Set the mask bit for direction `d` on cell `(x, y)`. The bit must be
    /// clear and must point at a cell of the grid, so the operation carves
    /// exactly one new open move and, when `d` is rightward or downward, one
    /// new counted edge.
    pub(crate) fn or_bit(&mut self, x: usize, y: usize, d: Direction)
        requires
            old(self).wf(),
            old(self).in_bounds(x as int, y as int),
            old(self).in_bounds(nb_x(x as int, d), nb_y(y as int, d)),
            !old(self).can_go(x as int, y as int, d),
        ensures
            final(self).wf(),
            final(self).spec_dim() == old(self).spec_dim(),
            final(self).masks() == old(self).masks().update(
                grid_idx(old(self).spec_dim(), x as int, y as int),
                old(self).mask(x as int, y as int) | dir_bit(d),
            ),
            final(self).can_go(x as int, y as int, d),
            final(self).mask(x as int, y as int) == old(self).mask(x as int, y as int) | dir_bit(
                d,
            ),
            forall|x2: int, y2: int|
                old(self).in_bounds(x2, y2) && !(x2 == x as int && y2 == y as int)
                    ==> #[trigger] final(self).mask(x2, y2) == old(self).mask(x2, y2),
            forall|x2: int, y2: int, d2: Direction|
                !(x2 == x as int && y2 == y as int && d2 == d) ==> #[trigger] final(self).can_go(
                    x2,
                    y2,
                    d2,
                ) == old(self).can_go(x2, y2, d2),
            final(self).spec_edge_count() == old(self).spec_edge_count() + (
            if d == Direction::L2R || d == Direction::U2D {
                1int
            } else {
                0int
            }),
    {
        let len = self.cells.len();
        proof {
            lemma_grid_idx_bounds(self.spec_dim(), x as int, y as int);
        }
        let i = y * self.dim + x;
        let b: u8 = match d {
            Direction::L2R => 1,
            Direction::R2L => 2,
            Direction::U2D => 4,
            Direction::D2U => 8,
        };
        let m0 = self.cells[i];
        self.cells.set(i, m0 | b);
        proof {
            let dim = self.spec_dim();
            let old_m = old(self).mask(x as int, y as int);
            let new_m = (old_m | dir_bit(d)) as u8;
            lemma_dir_bits(d, d);
            lemma_or_keeps_low(old_m, dir_bit(d));
            // The new mask has the bit for `d` set, and every other bit as
            // before.
            assert forall|c: Direction| true implies bit_set(new_m, dir_bit(c)) == (bit_set(
                old_m,
                dir_bit(c),
            ) || c == d) by {
                lemma_or_bit(old_m, dir_bit(d), dir_bit(c));
                lemma_dir_bits(d, c);
                lemma_dir_bits(c, c);
            }
            // Only the one cell changed.
            assert forall|x2: int, y2: int|
                self.in_bounds(x2, y2) && !(x2 == x as int && y2 == y as int) implies self.mask(
                x2,
                y2,
            ) == old(self).mask(x2, y2) by {
                lemma_grid_idx_bounds(dim, x2, y2);
                if grid_idx(dim, x2, y2) == grid_idx(dim, x as int, y as int) {
                    lemma_grid_idx_inj(dim, x2, y2, x as int, y as int);
                }
            }
            assert forall|x2: int, y2: int, d2: Direction|
                !(x2 == x as int && y2 == y as int && d2 == d) implies #[trigger] self.can_go(
                x2,
                y2,
                d2,
            ) == old(self).can_go(x2, y2, d2) by {
                if self.in_bounds(x2, y2) && x2 == x as int && y2 == y as int {
                    assert(bit_set(new_m, dir_bit(d2)) == bit_set(old_m, dir_bit(d2)));
                }
            }
            assert forall|x2: int, y2: int, d2: Direction| #[trigger] self.can_go(
                x2,
                y2,
                d2,
            ) implies self.in_bounds(nb_x(x2, d2), nb_y(y2, d2)) by {
                if !(x2 == x as int && y2 == y as int && d2 == d) {
                    assert(old(self).can_go(x2, y2, d2));
                }
            }
            // One edge more when the new bit is rightward or downward.
            lemma_edge_sum_update(
                old(self).masks(),
                grid_idx(dim, x as int, y as int),
                new_m,
            );
            assert(out_edges(new_m) == out_edges(old_m) + (
            if d == Direction::L2R || d == Direction::U2D {
                1int
            } else {
                0int
            })) by {
                lemma_or_bit(old_m, dir_bit(d), 1u8);
                lemma_or_bit(old_m, dir_bit(d), 4u8);
                lemma_dir_bits(Direction::L2R, d);
                lemma_dir_bits(Direction::U2D, d);
                lemma_dir_bits(d, Direction::L2R);
                lemma_dir_bits(d, Direction::U2D);
            }
        }
    }

    /// Count the carved edges of the grid: each doorway is counted once, at
    /// its left or upper endpoint.
    pub fn count_carved_edges(&self) -> (n: usize)
        requires
            self.wf(),
            2 * self.masks().len() <= usize::MAX,
        ensures
            n as int == self.spec_edge_count(),
    {
        let mut n: usize = 0;
        let mut i: usize = 0;
        let len = self.cells.len();
        while i < len
            invariant
                i <= len,
                len == self.masks().len(),
                2 * len <= usize::MAX,
                n as int == edge_sum(self.masks().subrange(0, i as int)),
                n <= 2 * i,
            decreases len - i,
        {
            let m = self.cells[i];
            proof {
                assert(self.masks().subrange(0, i + 1).drop_last() =~= self.masks().subrange(
                    0,
                    i as int,
                ));
                assert(self.masks().subrange(0, i + 1).last() == self.masks()[i as int]);
            }
            if m & 1 != 0 {
                n = n + 1;
            }
            if m & 4 != 0 {
                n = n + 1;
            }
            i = i + 1;
        }
        proof {
            assert(self.masks().subrange(0, len as int) =~= self.masks());
        }
        n
    }
}

} // verus!
