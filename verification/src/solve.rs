use vstd::prelude::*;
use rand::rngs::StdRng;
use crate::backtrack::{
    backtrack_chain, lemma_chain_fuel_mono, lemma_chain_pred_frame, lemma_chain_props,
    lemma_linked_distinct,
};
use crate::errors::MazeError;
use crate::maze::{lemma_grid_idx_bounds, lemma_grid_idx_inj, Maze};
use crate::moves::{get_possible_moves, refine_moves_based_on_far_region};
use crate::pos::{dir_bit, grid_idx, idx_of, lemma_bit_zero, opp_dir, unit_step, Direction, Pos};
use crate::rand_src::rand_below;
use crate::reach::{
    acyclic, is_path, lemma_reach_marked, lemma_reach_refl, lemma_reach_step, lemma_reach_trans,
    lemma_unique_simple_path, reachable,
};

verus! {

/// The number of `true` entries of a boolean sequence.
pub open spec fn count_true(s: Seq<bool>) -> int
    decreases s.len(),
{
    if s.len() == 0 {
        0
    } else {
        count_true(s.drop_last()) + (if s.last() {
            1int
        } else {
            0int
        })
    }
}

/// Updating one entry changes the count by the difference of the two
/// entries.
pub proof fn lemma_count_true_update(s: Seq<bool>, i: int, v: bool)
    requires
        0 <= i < s.len(),
    ensures
        count_true(s.update(i, v)) == count_true(s) - (if s[i] {
            1int
        } else {
            0int
        }) + (if v {
            1int
        } else {
            0int
        }),
    decreases s.len(),
{
    if i == s.len() - 1 {
        assert(s.update(i, v).drop_last() =~= s.drop_last());
    } else {
        assert(s.update(i, v).drop_last() =~= s.drop_last().update(i, v));
        lemma_count_true_update(s.drop_last(), i, v);
    }
}

/// The count lies between zero and the length, strictly below the length
/// when some entry is `false` and at least one when some entry is `true`.
pub proof fn lemma_count_true_bounds(s: Seq<bool>)
    ensures
        0 <= count_true(s) <= s.len(),
        forall|i: int| 0 <= i < s.len() && !s[i] ==> count_true(s) < s.len(),
        forall|i: int| 0 <= i < s.len() && s[i] ==> count_true(s) >= 1,
    decreases s.len(),
{
    if s.len() > 0 {
        lemma_count_true_bounds(s.drop_last());
        assert forall|i: int| 0 <= i < s.len() && !s[i] implies count_true(s) < s.len() by {
            if i < s.len() - 1 {
                assert(!s.drop_last()[i]);
            }
        }
        assert forall|i: int| 0 <= i < s.len() && s[i] implies count_true(s) >= 1 by {
            if i < s.len() - 1 {
                assert(s.drop_last()[i]);
            }
        }
    }
}

/// Whether exactly one of the three flags is set: each cell is alive, in
/// the narrow band, or far, never two of them at once.
pub open spec fn exactly_one(a: bool, b: bool, c: bool) -> bool {
    (a || b || c) && !(a && b) && !(a && c) && !(b && c)
}

/// Count the `true` entries of a boolean table, as used to report how much
/// of the grid each solver region covers.
pub fn count_nb_of_true(alv_nar_far_array: &Vec<bool>) -> (n: usize)
    ensures
        n as int == count_true(alv_nar_far_array@),
{
    let mut n: usize = 0;
    let mut i: usize = 0;
    let len = alv_nar_far_array.len();
    while i < len
        invariant
            i <= len,
            len == alv_nar_far_array@.len(),
            n <= i,
            n as int == count_true(alv_nar_far_array@.subrange(0, i as int)),
        decreases len - i,
    {
        proof {
            assert(alv_nar_far_array@.subrange(0, i + 1).drop_last() =~= alv_nar_far_array@
                .subrange(0, i as int));
        }
        if alv_nar_far_array[i] {
            n = n + 1;
        }
        i = i + 1;
    }
    proof {
        assert(alv_nar_far_array@.subrange(0, len as int) =~= alv_nar_far_array@);
    }
    n
}

/// The cell index of `p` lies in the table, and no other cell shares it.
proof fn lemma_idx_facts(m: Maze, pos: Pos)
    requires
        m.wf(),
        m.pos_in_bounds(pos),
    ensures
        0 <= idx_of(m.spec_dim(), pos) < m.spec_dim() * m.spec_dim(),
        forall|p: Pos|
            m.pos_in_bounds(p) && p != pos ==> #[trigger] idx_of(m.spec_dim(), p) != idx_of(
                m.spec_dim(),
                pos,
            ),
        forall|p: Pos|
            m.pos_in_bounds(p) ==> 0 <= #[trigger] idx_of(m.spec_dim(), p) < m.spec_dim()
                * m.spec_dim(),
{
    let dim = m.spec_dim();
    lemma_grid_idx_bounds(dim, pos.x as int, pos.y as int);
    assert forall|p: Pos| m.pos_in_bounds(p) implies 0 <= #[trigger] idx_of(dim, p) < dim
        * dim by {
        lemma_grid_idx_bounds(dim, p.x as int, p.y as int);
    }
    assert forall|p: Pos| m.pos_in_bounds(p) && p != pos implies #[trigger] idx_of(dim, p)
        != idx_of(dim, pos) by {
        if idx_of(dim, p) == idx_of(dim, pos) {
            lemma_grid_idx_inj(dim, p.x as int, p.y as int, pos.x as int, pos.y as int);
        }
    }
}

/// Every cell a walk from `a` ends at, other than `a` itself, has an open
/// move back along the walk's last doorway.
proof fn lemma_reached_has_door(m: Maze, a: Pos, b: Pos)
    requires
        m.wf(),
        m.symmetric(),
        reachable(m, a, b),
        a != b,
    ensures
        m.pos_in_bounds(b),
        m.mask(b.x as int, b.y as int) != 0,
{
    let p = choose|p: Seq<Pos>| #[trigger] is_path(m, p) && p.first() == a && p.last() == b;
    lemma_path_end_door(m, p);
}

/// Helper for `lemma_reached_has_door`: induction over the walk.
proof fn lemma_path_end_door(m: Maze, p: Seq<Pos>)
    requires
        m.wf(),
        m.symmetric(),
        is_path(m, p),
        p.first() != p.last(),
    ensures
        m.pos_in_bounds(p.last()),
        m.mask(p.last().x as int, p.last().y as int) != 0,
    decreases p.len(),
{
    let k = p.len() - 1;
    if p[k - 1] == p[k] {
        let q = p.drop_last();
        assert(q.last() == p[k - 1]);
        assert forall|i: int| 0 <= i < q.len() - 1 implies #[trigger] m.edge(q[i], q[i + 1]) by {
            assert(m.edge(p[i], p[i + 1]));
        }
        assert(is_path(m, q));
        lemma_path_end_door(m, q);
    } else {
        assert(m.edge(p[k - 1], p[k - 1 + 1]));
        let u = p[k - 1];
        let v = p[k];
        let d = choose|d: Direction| m.step(u, v, d);
        assert(m.step(u, v, d));
        assert(m.can_go(v.x as int, v.y as int, opp_dir(d)));
        lemma_bit_zero(dir_bit(opp_dir(d)));
    }
}

/// An open doorway joins two cells one unit step apart.
proof fn lemma_edge_unit_step(m: Maze, a: Pos, b: Pos)
    requires
        m.edge(a, b),
    ensures
        unit_step(a, b),
{
    let d = choose|d: Direction| m.step(a, b, d);
    assert(m.step(a, b, d));
}

/// Every element of a filtered sequence is an element of the original.
proof fn lemma_filter_elems(s: Seq<Pos>, pred: spec_fn(Pos) -> bool, i: int)
    requires
        0 <= i < s.filter(pred).len(),
    ensures
        s.contains(s.filter(pred)[i]),
    decreases s.len(),
{
    reveal(Seq::filter);
    if s.len() > 0 {
        let f = s.filter(pred);
        let sub = s.drop_last().filter(pred);
        if pred(s.last()) && i == f.len() - 1 {
            assert(f[i] == s.last());
            assert(s[s.len() - 1] == s.last());
        } else {
            lemma_filter_elems(s.drop_last(), pred, i);
            let j = choose|j: int| 0 <= j < s.drop_last().len() && s.drop_last()[j] == sub[i];
            assert(s[j] == f[i]);
        }
    }
}

/// A fully closed cell reaches nothing but itself.
proof fn lemma_isolated_cell(m: Maze, a: Pos, b: Pos)
    requires
        m.wf(),
        m.pos_in_bounds(a),
        m.mask(a.x as int, a.y as int) == 0,
        a != b,
    ensures
        !reachable(m, a, b),
{
    if reachable(m, a, b) {
        let p = choose|p: Seq<Pos>| #[trigger] is_path(m, p) && p.first() == a && p.last() == b;
        lemma_path_from_isolated(m, p, a);
    }
}

/// A walk starting at a fully closed cell never leaves it.
proof fn lemma_path_from_isolated(m: Maze, p: Seq<Pos>, a: Pos)
    requires
        m.wf(),
        is_path(m, p),
        p.first() == a,
        m.mask(a.x as int, a.y as int) == 0,
    ensures
        p.last() == a,
    decreases p.len(),
{
    if p.len() > 1 {
        assert(m.edge(p[0], p[0int + 1]));
        let u = p[0];
        let v = p[0int + 1];
        let d = choose|d: Direction| m.step(u, v, d);
        assert(m.step(u, v, d));
        lemma_bit_zero(dir_bit(d));
        assert(false);
    }
}

/// The state the front propagation leaves behind: the three-way region
/// partition at solve completion and the recorded predecessor links.
pub struct SolveOutcome {
    /// Cells whose distance from the entrance is settled.
    pub alive: Vec<bool>,
    /// The frontier: discovered cells not yet finalized.
    pub narrow: Vec<bool>,
    /// Undiscovered cells.
    pub far: Vec<bool>,
    /// For every cell that left the far region other than the entrance, the
    /// alive cell that discovered it.
    pub pred: Vec<Option<Pos>>,
    /// How many cells the solver finalized before the goal was reached.
    pub iterations: usize,
}

/// The solver's state invariant over the region tables and predecessor
/// links: the tables cover the grid, every cell is in exactly one region,
/// the entrance left the far region first and has no predecessor, every
/// other non-far cell records exactly one predecessor, each recorded
/// predecessor is an adjacent alive cell one unit step away, the links walk
/// back to the entrance, and every non-far cell is reachable from the
/// entrance through carved doorways.
pub open spec fn state_inv(
    m: Maze,
    entrance: Pos,
    alive: Seq<bool>,
    narrow: Seq<bool>,
    far: Seq<bool>,
    pred: Seq<Option<Pos>>,
) -> bool {
    let dim = m.spec_dim();
    let n = dim * dim;
    &&& m.wf()
    &&& m.symmetric()
    &&& m.pos_in_bounds(entrance)
    &&& alive.len() == n
    &&& narrow.len() == n
    &&& far.len() == n
    &&& pred.len() == n
    &&& (forall|p: Pos|
        #![trigger idx_of(dim, p)]
        m.pos_in_bounds(p) ==> exactly_one(
            alive[idx_of(dim, p)],
            narrow[idx_of(dim, p)],
            far[idx_of(dim, p)],
        ))
    &&& !far[idx_of(dim, entrance)]
    &&& pred[idx_of(dim, entrance)] is None
    &&& (forall|p: Pos|
        #![trigger idx_of(dim, p)]
        m.pos_in_bounds(p) && p != entrance ==> (pred[idx_of(dim, p)] is Some <==> !far[idx_of(
            dim,
            p,
        )]))
    &&& (forall|p: Pos|
        #![trigger idx_of(dim, p)]
        m.pos_in_bounds(p) ==> (pred[idx_of(dim, p)] matches Some(q) ==> m.pos_in_bounds(q)
            && alive[idx_of(dim, q)] && m.edge(q, p) && unit_step(q, p)))
    &&& count_true(far) <= n - 1
    &&& (forall|p: Pos|
        #![trigger idx_of(dim, p)]
        m.pos_in_bounds(p) && !far[idx_of(dim, p)] ==> backtrack_chain(
            pred,
            dim,
            entrance,
            p,
            (n - count_true(far) - 1) as nat,
        ) is Some)
    &&& (forall|p: Pos|
        #![trigger idx_of(dim, p)]
        m.pos_in_bounds(p) && !far[idx_of(dim, p)] ==> reachable(m, entrance, p))
}

/// The state invariant, read off a returned outcome.
pub open spec fn outcome_wf(m: Maze, entrance: Pos, o: SolveOutcome) -> bool {
    state_inv(m, entrance, o.alive@, o.narrow@, o.far@, o.pred@)
}

/// The narrow band's listing matches its table: the vector holds exactly
/// the cells marked narrow, each once.
pub open spec fn narrow_list_inv(m: Maze, narrow: Seq<bool>, vn: Seq<Pos>) -> bool {
    let dim = m.spec_dim();
    &&& (forall|p: Pos|
        #![trigger idx_of(dim, p)]
        #![trigger vn.contains(p)]
        m.pos_in_bounds(p) ==> (narrow[idx_of(dim, p)] <==> vn.contains(p)))
    &&& (forall|k: int| 0 <= k < vn.len() ==> m.pos_in_bounds(#[trigger] vn[k]))
    &&& (forall|k1: int, k2: int| 0 <= k1 < k2 < vn.len() ==> vn[k1] != vn[k2])
}

/// Row-major index of the cell `p`, with its bound.
fn cell_index(dim: usize, n: usize, p: Pos) -> (i: usize)
    requires
        p.x < dim,
        p.y < dim,
        n == dim * dim,
    ensures
        i as int == idx_of(dim as int, p),
        i < n,
{
    proof {
        lemma_grid_idx_bounds(dim as int, p.x as int, p.y as int);
    }
    p.y * dim + p.x
}

/// The initial solver state satisfies the state invariant: the entrance is
/// the one narrow-band cell, everything else is far, nothing is alive and
/// no predecessor is recorded.
proof fn lemma_init_state(
    m: Maze,
    entrance: Pos,
    alive: Seq<bool>,
    narrow: Seq<bool>,
    far: Seq<bool>,
    pred: Seq<Option<Pos>>,
)
    requires
        m.wf(),
        m.symmetric(),
        m.pos_in_bounds(entrance),
        alive.len() == m.spec_dim() * m.spec_dim(),
        narrow.len() == m.spec_dim() * m.spec_dim(),
        far.len() == m.spec_dim() * m.spec_dim(),
        pred.len() == m.spec_dim() * m.spec_dim(),
        forall|k: int| 0 <= k < alive.len() ==> !(#[trigger] alive[k]),
        forall|k: int|
            0 <= k < narrow.len() ==> ((#[trigger] narrow[k]) <==> k == idx_of(
                m.spec_dim(),
                entrance,
            )),
        forall|k: int|
            0 <= k < far.len() ==> ((#[trigger] far[k]) <==> k != idx_of(m.spec_dim(), entrance)),
        forall|k: int| 0 <= k < pred.len() ==> (#[trigger] pred[k]) is None,
        count_true(far) == m.spec_dim() * m.spec_dim() - 1,
    ensures
        state_inv(m, entrance, alive, narrow, far, pred),
{
    let dim = m.spec_dim();
    let n = dim * dim;
    lemma_idx_facts(m, entrance);
    lemma_reach_refl(m, entrance);
    assert forall|p: Pos| m.pos_in_bounds(p) implies exactly_one(
        alive[idx_of(dim, p)],
        narrow[idx_of(dim, p)],
        far[idx_of(dim, p)],
    ) by {
        assert(!alive[idx_of(dim, p)]);
    }
    assert forall|p: Pos| m.pos_in_bounds(p) && !far[idx_of(dim, p)] implies backtrack_chain(
        pred,
        dim,
        entrance,
        p,
        (n - count_true(far) - 1) as nat,
    ) is Some && reachable(m, entrance, p) by {
        assert(idx_of(dim, p) == idx_of(dim, entrance));
        assert(p == entrance);
    }
}

/// Moving the selected narrow-band cell to the alive region preserves the
/// solver's state invariant and shortens the narrow listing by that one
/// cell.
proof fn lemma_select_update(
    m: Maze,
    entrance: Pos,
    alive0: Seq<bool>,
    narrow0: Seq<bool>,
    far: Seq<bool>,
    pred: Seq<Option<Pos>>,
    vn0: Seq<Pos>,
    idx_cell: int,
)
    requires
        state_inv(m, entrance, alive0, narrow0, far, pred),
        narrow_list_inv(m, narrow0, vn0),
        0 <= idx_cell < vn0.len(),
    ensures
        m.pos_in_bounds(vn0[idx_cell]),
        !alive0[idx_of(m.spec_dim(), vn0[idx_cell])],
        !far[idx_of(m.spec_dim(), vn0[idx_cell])],
        state_inv(
            m,
            entrance,
            alive0.update(idx_of(m.spec_dim(), vn0[idx_cell]), true),
            narrow0.update(idx_of(m.spec_dim(), vn0[idx_cell]), false),
            far,
            pred,
        ),
        narrow_list_inv(
            m,
            narrow0.update(idx_of(m.spec_dim(), vn0[idx_cell]), false),
            vn0.remove(idx_cell),
        ),
        count_true(alive0.update(idx_of(m.spec_dim(), vn0[idx_cell]), true)) == count_true(alive0)
            + 1,
{
    let dim = m.spec_dim();
    let pos = vn0[idx_cell];
    let i = idx_of(dim, pos);
    assert(vn0.contains(pos));
    assert(narrow0[i]);
    lemma_idx_facts(m, pos);
    lemma_count_true_update(alive0, i, true);
    let alive = alive0.update(i, true);
    let narrow = narrow0.update(i, false);
    let vn = vn0.remove(idx_cell);
    vn0.remove_ensures(idx_cell);
    assert forall|p: Pos| m.pos_in_bounds(p) implies (narrow[idx_of(dim, p)] <==> vn.contains(
        p,
    )) by {
        if p == pos {
            if vn.contains(p) {
                let l = choose|l: int| 0 <= l < vn.len() && vn[l] == p;
                if l < idx_cell {
                    assert(vn0[l] == p && vn0[idx_cell] == p);
                } else {
                    assert(vn0[l + 1] == p && vn0[idx_cell] == p);
                }
                assert(false);
            }
        } else {
            if narrow[idx_of(dim, p)] {
                assert(narrow0[idx_of(dim, p)]);
                assert(vn0.contains(p));
                let l = choose|l: int| 0 <= l < vn0.len() && vn0[l] == p;
                if l < idx_cell {
                    assert(vn[l] == p);
                } else {
                    assert(l != idx_cell);
                    assert(vn[l - 1] == p);
                }
                assert(vn.contains(p));
            }
            if vn.contains(p) {
                let l = choose|l: int| 0 <= l < vn.len() && vn[l] == p;
                if l < idx_cell {
                    assert(vn0[l] == p);
                } else {
                    assert(vn0[l + 1] == p);
                }
                assert(vn0.contains(p));
            }
        }
    }
    assert forall|k1: int, k2: int| 0 <= k1 < k2 < vn.len() implies vn[k1] != vn[k2] by {
        let o1: int = if k1 < idx_cell {
            k1
        } else {
            k1 + 1
        };
        let o2: int = if k2 < idx_cell {
            k2
        } else {
            k2 + 1
        };
        assert(vn[k1] == vn0[o1] && vn[k2] == vn0[o2]);
    }
    assert forall|k: int| 0 <= k < vn.len() implies m.pos_in_bounds(#[trigger] vn[k]) by {
        if k < idx_cell {
            assert(vn[k] == vn0[k]);
        } else {
            assert(vn[k] == vn0[k + 1]);
        }
    }
}

/// Discovering a far neighbour of an alive cell preserves the solver's
/// state invariant: the neighbour joins the narrow band, records the alive
/// cell as its predecessor, and its backtracking walk is one step longer
/// than its predecessor's.
#[verifier::rlimit(100)]
proof fn lemma_expand_update(
    m: Maze,
    entrance: Pos,
    alive: Seq<bool>,
    narrow1: Seq<bool>,
    far0: Seq<bool>,
    pred0: Seq<Option<Pos>>,
    vn1: Seq<Pos>,
    pos: Pos,
    t: Pos,
)
    requires
        state_inv(m, entrance, alive, narrow1, far0, pred0),
        narrow_list_inv(m, narrow1, vn1),
        m.pos_in_bounds(pos),
        m.pos_in_bounds(t),
        alive[idx_of(m.spec_dim(), pos)],
        far0[idx_of(m.spec_dim(), t)],
        m.edge(pos, t),
    ensures
        t != entrance,
        state_inv(
            m,
            entrance,
            alive,
            narrow1.update(idx_of(m.spec_dim(), t), true),
            far0.update(idx_of(m.spec_dim(), t), false),
            pred0.update(idx_of(m.spec_dim(), t), Some(pos)),
        ),
        narrow_list_inv(m, narrow1.update(idx_of(m.spec_dim(), t), true), vn1.push(t)),
        count_true(far0.update(idx_of(m.spec_dim(), t), false)) == count_true(far0) - 1,
{
    let dim = m.spec_dim();
    let n = dim * dim;
    let ti = idx_of(dim, t);
    lemma_idx_facts(m, t);
    lemma_count_true_update(far0, ti, false);
    lemma_count_true_bounds(far0);
    let narrow = narrow1.update(ti, true);
    let far = far0.update(ti, false);
    let pred = pred0.update(ti, Some(pos));
    let vn = vn1.push(t);
    let fuel0 = (n - count_true(far0) - 1) as nat;
    let fuel1 = (n - count_true(far) - 1) as nat;
    assert(t != entrance);
    assert(fuel1 == fuel0 + 1);
    lemma_edge_unit_step(m, pos, t);
    assert(reachable(m, entrance, pos));
    lemma_reach_step(m, pos, t);
    lemma_reach_trans(m, entrance, pos, t);
    // Recorded walks only visit non-far cells, so the new link leaves them
    // unchanged, and more fuel does not change them either.
    assert forall|c: Pos| m.pos_in_bounds(c) && !far[idx_of(dim, c)] implies backtrack_chain(
        pred,
        dim,
        entrance,
        c,
        fuel1,
    ) is Some by {
        if c != t {
            assert(!far0[idx_of(dim, c)]);
            lemma_chain_pred_frame(pred0, pred, dim, entrance, c, fuel0, far0);
            lemma_chain_fuel_mono(pred, dim, entrance, c, fuel0, fuel1);
        } else {
            assert(pred[idx_of(dim, t)] == Some(pos));
            lemma_chain_pred_frame(pred0, pred, dim, entrance, pos, fuel0, far0);
            assert(backtrack_chain(pred, dim, entrance, pos, fuel0) is Some);
            assert(backtrack_chain(pred, dim, entrance, t, fuel1) is Some);
        }
    }
    // The pushed cell was far, so it was not yet listed.
    assert(!vn1.contains(t));
    assert forall|p: Pos| m.pos_in_bounds(p) implies (narrow[idx_of(dim, p)] <==> vn.contains(
        p,
    )) by {
        if p == t {
            assert(vn[vn.len() - 1] == t);
        } else {
            if narrow[idx_of(dim, p)] {
                assert(narrow1[idx_of(dim, p)]);
                let l = choose|l: int| 0 <= l < vn1.len() && vn1[l] == p;
                assert(vn[l] == p);
            }
            if vn.contains(p) {
                let l = choose|l: int| 0 <= l < vn.len() && vn[l] == p;
                assert(l < vn1.len());
                assert(vn1[l] == p);
            }
        }
    }
    assert forall|k1: int, k2: int| 0 <= k1 < k2 < vn.len() implies vn[k1] != vn[k2] by {
        if k2 == vn.len() - 1 {
            assert(vn[k1] == vn1[k1]);
            assert(!vn1.contains(t));
        }
    }
}

/// When the frontier empties before the goal is alive, the alive region is
/// closed under carved doorways, so the goal is not reachable from the
/// entrance.
proof fn lemma_frontier_empty(
    m: Maze,
    entrance: Pos,
    goal: Pos,
    alive: Seq<bool>,
    narrow: Seq<bool>,
    far: Seq<bool>,
    pred: Seq<Option<Pos>>,
    vn: Seq<Pos>,
)
    requires
        state_inv(m, entrance, alive, narrow, far, pred),
        narrow_list_inv(m, narrow, vn),
        vn.len() == 0,
        m.pos_in_bounds(goal),
        !alive[idx_of(m.spec_dim(), goal)],
        alive[idx_of(m.spec_dim(), entrance)],
        forall|u: Pos, t: Pos|
            m.pos_in_bounds(u) && alive[idx_of(m.spec_dim(), u)] && u != goal
                && #[trigger] m.edge(u, t) ==> !far[idx_of(m.spec_dim(), t)],
    ensures
        !reachable(m, entrance, goal),
{
    let dim = m.spec_dim();
    if reachable(m, entrance, goal) {
        assert forall|u: Pos, v: Pos|
            #[trigger] m.edge(u, v) && alive[idx_of(dim, u)] implies alive[idx_of(dim, v)] by {
            let d = choose|d: Direction| m.step(u, v, d);
            assert(m.step(u, v, d));
            assert(u != goal);
            assert(!far[idx_of(dim, v)]);
            if narrow[idx_of(dim, v)] {
                assert(vn.contains(v));
                assert(false);
            }
        }
        lemma_reach_marked(m, entrance, goal, alive);
        assert(false);
    }
}

/// Process one candidate neighbour of the freshly finalized cell `pos`:
/// when it is still far, move it to the narrow band and record `pos` as its
/// predecessor; otherwise leave everything unchanged. Either way the cell
/// is not far afterwards, no other cell's region changes, and the alive
/// table is untouched.
#[verifier::rlimit(100)]
fn expand_one(
    maze: &Maze,
    pos_entrance: Pos,
    pos: Pos,
    t: Pos,
    alive: &Vec<bool>,
    narrow: &mut Vec<bool>,
    far: &mut Vec<bool>,
    pred: &mut Vec<Option<Pos>>,
    vec_narrow: &mut Vec<Pos>,
)
    requires
        state_inv(*maze, pos_entrance, alive@, old(narrow)@, old(far)@, old(pred)@),
        narrow_list_inv(*maze, old(narrow)@, old(vec_narrow)@),
        maze.pos_in_bounds(pos),
        maze.pos_in_bounds(t),
        alive@[idx_of(maze.spec_dim(), pos)],
        maze.edge(pos, t),
    ensures
        state_inv(*maze, pos_entrance, alive@, final(narrow)@, final(far)@, final(pred)@),
        narrow_list_inv(*maze, final(narrow)@, final(vec_narrow)@),
        !final(far)@[idx_of(maze.spec_dim(), t)],
        forall|q: Pos|
            maze.pos_in_bounds(q) && q != t ==> #[trigger] final(far)@[idx_of(maze.spec_dim(), q)]
                == old(far)@[idx_of(maze.spec_dim(), q)],
        forall|q: Pos|
            maze.pos_in_bounds(q) && #[trigger] final(far)@[idx_of(maze.spec_dim(), q)] ==> old(
                far,
            )@[idx_of(maze.spec_dim(), q)],
{
    let dim = maze.dim();
    let n = maze.num_cells();
    let t_i = cell_index(dim, n, t);
    proof {
        lemma_idx_facts(*maze, t);
    }
    if far[t_i] {
        proof {
            lemma_expand_update(
                *maze,
                pos_entrance,
                alive@,
                narrow@,
                far@,
                pred@,
                vec_narrow@,
                pos,
                t,
            );
        }
        far.set(t_i, false);
        narrow.set(t_i, true);
        vec_narrow.push(t);
        pred.set(t_i, Some(pos));
    }
}

/// Solve the maze by stochastic front propagation: grow the alive region
/// from the entrance one narrow-band cell per iteration, picking the goal
/// as soon as it enters the frontier and a uniformly random frontier cell
/// otherwise, and record each discovered cell's predecessor. Succeeds
/// exactly when the goal is reachable from the entrance; a closed entrance
/// cell fails with `InvalidMask`, an exhausted frontier with
/// `EmptyNarrowBand`.
#[verifier::rlimit(100)]
#[verifier::spinoff_prover]
pub fn solve_maze(maze: &Maze, pos_entrance: Pos, pos_goal: Pos, rng: &mut StdRng) -> (r: Result<
    SolveOutcome,
    MazeError,
>)
    requires
        maze.wf(),
        maze.symmetric(),
        maze.pos_in_bounds(pos_entrance),
        maze.pos_in_bounds(pos_goal),
    ensures
        match r {
            Ok(o) => {
                &&& outcome_wf(*maze, pos_entrance, o)
                &&& reachable(*maze, pos_entrance, pos_goal)
                &&& o.alive@[idx_of(maze.spec_dim(), pos_goal)]
                &&& o.alive@[idx_of(maze.spec_dim(), pos_entrance)]
                &&& o.iterations as int == count_true(o.alive@)
                &&& 1 <= o.iterations as int <= maze.spec_dim() * maze.spec_dim()
                &&& backtrack_chain(
                    o.pred@,
                    maze.spec_dim(),
                    pos_entrance,
                    pos_goal,
                    (maze.spec_dim() * maze.spec_dim()) as nat,
                ) is Some
            },
            Err(e) => {
                &&& !reachable(*maze, pos_entrance, pos_goal)
                &&& (e == MazeError::EmptyNarrowBand || e matches MazeError::InvalidMask { .. })
                &&& (e == MazeError::EmptyNarrowBand ==> maze.mask(
                    pos_entrance.x as int,
                    pos_entrance.y as int,
                ) != 0)
                &&& (e matches MazeError::InvalidMask { .. } ==> maze.mask(
                    pos_entrance.x as int,
                    pos_entrance.y as int,
                ) == 0 && pos_entrance != pos_goal && e == (MazeError::InvalidMask {
                    x: pos_entrance.x,
                    y: pos_entrance.y,
                    mask: 0u8,
                }))
            },
        },
{
    let dim = maze.dim();
    let n = maze.num_cells();
    let ghost gdim = maze.spec_dim();
    let mut alive: Vec<bool> = Vec::new();
    let mut narrow: Vec<bool> = Vec::new();
    let mut far: Vec<bool> = Vec::new();
    let mut pred: Vec<Option<Pos>> = Vec::new();
    let mut i: usize = 0;
    while i < n
        invariant
            i <= n,
            alive@.len() == i,
            narrow@.len() == i,
            far@.len() == i,
            pred@.len() == i,
            forall|k: int| 0 <= k < i ==> !(#[trigger] alive@[k]),
            forall|k: int| 0 <= k < i ==> !(#[trigger] narrow@[k]),
            forall|k: int| 0 <= k < i ==> #[trigger] far@[k],
            forall|k: int| 0 <= k < i ==> (#[trigger] pred@[k]) is None,
            count_true(alive@) == 0,
            count_true(far@) == i,
        decreases n - i,
    {
        let ghost a0 = alive@;
        let ghost f0 = far@;
        alive.push(false);
        narrow.push(false);
        far.push(true);
        pred.push(None);
        proof {
            assert(alive@.drop_last() =~= a0);
            assert(far@.drop_last() =~= f0);
        }
        i = i + 1;
    }
    // Place the entrance: the one narrow-band cell; everything else is far.
    let e_i = cell_index(dim, n, pos_entrance);
    let ghost far_init = far@;
    narrow.set(e_i, true);
    far.set(e_i, false);
    let mut vec_narrow: Vec<Pos> = Vec::new();
    vec_narrow.push(pos_entrance);
    let mut goal_has_been_reached: bool = false;
    let mut nb_iter_solve: usize = 0;
    proof {
        lemma_count_true_update(far_init, e_i as int, false);
        lemma_reach_refl(*maze, pos_entrance);
        lemma_idx_facts(*maze, pos_entrance);
        lemma_init_state(*maze, pos_entrance, alive@, narrow@, far@, pred@);
        assert(state_inv(*maze, pos_entrance, alive@, narrow@, far@, pred@));
        assert forall|p: Pos| maze.pos_in_bounds(p) implies (narrow@[idx_of(gdim, p)]
            <==> vec_narrow@.contains(p)) by {
            if p == pos_entrance {
                assert(vec_narrow@[0] == pos_entrance);
            } else {
                if vec_narrow@.contains(p) {
                    let l = choose|l: int| 0 <= l < vec_narrow@.len() && vec_narrow@[l] == p;
                    assert(vec_narrow@[l] == pos_entrance);
                    assert(false);
                }
            }
        }
        assert(narrow_list_inv(*maze, narrow@, vec_narrow@));
    }
    while !goal_has_been_reached
        invariant
            maze.wf(),
            maze.symmetric(),
            maze.pos_in_bounds(pos_entrance),
            maze.pos_in_bounds(pos_goal),
            gdim == maze.spec_dim(),
            dim == gdim,
            n == gdim * gdim,
            state_inv(*maze, pos_entrance, alive@, narrow@, far@, pred@),
            narrow_list_inv(*maze, narrow@, vec_narrow@),
            nb_iter_solve as int == count_true(alive@),
            nb_iter_solve <= n,
            goal_has_been_reached == alive@[idx_of(gdim, pos_goal)],
            nb_iter_solve == 0 ==> forall|p: Pos|
                #![trigger idx_of(gdim, p)]
                maze.pos_in_bounds(p) ==> ((narrow@[idx_of(gdim, p)] <==> p == pos_entrance)
                    && !alive@[idx_of(gdim, p)]),
            nb_iter_solve >= 1 ==> alive@[idx_of(gdim, pos_entrance)],
            nb_iter_solve >= 1 && !goal_has_been_reached ==> maze.mask(
                pos_entrance.x as int,
                pos_entrance.y as int,
            ) != 0,
            forall|u: Pos, t: Pos|
                maze.pos_in_bounds(u) && alive@[idx_of(gdim, u)] && u != pos_goal
                    && #[trigger] maze.edge(u, t) ==> !far@[idx_of(gdim, t)],
        decreases n - nb_iter_solve,
    {
        if vec_narrow.len() == 0 {
            proof {
                if nb_iter_solve == 0 {
                    assert(narrow@[idx_of(gdim, pos_entrance)]);
                    assert(vec_narrow@.contains(pos_entrance));
                    assert(false);
                }
                lemma_frontier_empty(
                    *maze,
                    pos_entrance,
                    pos_goal,
                    alive@,
                    narrow@,
                    far@,
                    pred@,
                    vec_narrow@,
                );
            }
            return Err(MazeError::EmptyNarrowBand);
        }
        proof {
            lemma_count_true_bounds(alive@);
            lemma_idx_facts(*maze, pos_goal);
            assert(nb_iter_solve < n);
        }
        nb_iter_solve = nb_iter_solve + 1;
        // Select the goal if it is in the narrow band, else a uniformly
        // random narrow-band cell.
        let g_i = cell_index(dim, n, pos_goal);
        let vn_len = vec_narrow.len();
        let idx_cell: usize = if narrow[g_i] {
            proof {
                assert(vec_narrow@.contains(pos_goal));
            }
            let ghost k0 = choose|k: int| 0 <= k < vec_narrow@.len() && vec_narrow@[k] == pos_goal;
            let mut j: usize = 0;
            while !(vec_narrow[j].x == pos_goal.x && vec_narrow[j].y == pos_goal.y)
                invariant
                    0 <= k0 < vec_narrow@.len(),
                    vn_len == vec_narrow@.len(),
                    vec_narrow@[k0] == pos_goal,
                    j <= k0,
                    forall|l: int| 0 <= l < j ==> vec_narrow@[l] != pos_goal,
                decreases k0 - j,
            {
                proof {
                    assert(vec_narrow@[j as int] != pos_goal);
                    assert(j < k0);
                }
                j = j + 1;
            }
            j
        } else {
            rand_below(rng, 0, vn_len)
        };
        let pos = vec_narrow[idx_cell];
        let p_i = cell_index(dim, n, pos);
        proof {
            lemma_select_update(
                *maze,
                pos_entrance,
                alive@,
                narrow@,
                far@,
                pred@,
                vec_narrow@,
                idx_cell as int,
            );
            lemma_idx_facts(*maze, pos);
        }
        let ghost alive0 = alive@;
        let ghost narrow0 = narrow@;
        let ghost vn0 = vec_narrow@;
        alive.set(p_i, true);
        narrow.set(p_i, false);
        vec_narrow.remove(idx_cell);
        proof {
            if nb_iter_solve == 1 {
                assert(narrow0[idx_of(gdim, pos)]);
                assert(pos == pos_entrance);
            }
            if pos != pos_goal {
                assert(alive@[idx_of(gdim, pos_goal)] == alive0[idx_of(gdim, pos_goal)]);
            }
            if pos != pos_entrance && nb_iter_solve >= 2 {
                assert(alive@[idx_of(gdim, pos_entrance)] == alive0[idx_of(gdim, pos_entrance)]);
            }
        }
        if pos.x == pos_goal.x && pos.y == pos_goal.y {
            goal_has_been_reached = true;
        } else {
            proof {
                assert(pos != pos_goal);
            }
            let moves = match get_possible_moves(maze, pos) {
                Ok(v) => v,
                Err(e) => {
                    proof {
                        assert(!far@[idx_of(gdim, pos)]);
                        assert(reachable(*maze, pos_entrance, pos));
                        if pos != pos_entrance {
                            lemma_reached_has_door(*maze, pos_entrance, pos);
                            assert(false);
                        }
                        lemma_isolated_cell(*maze, pos_entrance, pos_goal);
                    }
                    return Err(e);
                },
            };
            let vr = refine_moves_based_on_far_region(moves, &far, dim);
            let ghost fpred = |p: Pos| far@[idx_of(dim as int, p)];
            proof {
                assert forall|j: int| 0 <= j < vr@.len() implies maze.pos_in_bounds(
                    #[trigger] vr@[j],
                ) && maze.edge(pos, vr@[j]) by {
                    lemma_filter_elems(moves@, fpred, j);
                    let l = choose|l: int| 0 <= l < moves@.len() && moves@[l] == vr@[j];
                    assert(maze.edge(pos, moves@[l]));
                }
                assert forall|t: Pos| #[trigger] maze.edge(pos, t) implies !far@[idx_of(gdim, t)]
                    || (exists|j: int| 0 <= j < vr@.len() && vr@[j] == t) by {
                    if far@[idx_of(gdim, t)] {
                        assert(moves@.contains(t));
                        let l = choose|l: int| 0 <= l < moves@.len() && moves@[l] == t;
                        assert(fpred(moves@[l]));
                        moves@.lemma_filter_contains(fpred, l);
                        let j = choose|j: int| 0 <= j < vr@.len() && vr@[j] == t;
                        assert(vr@[j] == t);
                    }
                }
            }
            let nmoves = vr.len();
            let mut k: usize = 0;
            while k < nmoves
                invariant
                    maze.wf(),
                    maze.symmetric(),
                    maze.pos_in_bounds(pos_entrance),
                    maze.pos_in_bounds(pos_goal),
                    maze.pos_in_bounds(pos),
                    gdim == maze.spec_dim(),
                    dim == gdim,
                    n == gdim * gdim,
                    k <= nmoves,
                    nmoves == vr@.len(),
                    state_inv(*maze, pos_entrance, alive@, narrow@, far@, pred@),
                    narrow_list_inv(*maze, narrow@, vec_narrow@),
                    nb_iter_solve as int == count_true(alive@),
                    nb_iter_solve <= n,
                    nb_iter_solve >= 1,
                    alive@[idx_of(gdim, pos)],
                    alive@[idx_of(gdim, pos_entrance)],
                    pos != pos_goal,
                    !alive@[idx_of(gdim, pos_goal)],
                    maze.mask(pos_entrance.x as int, pos_entrance.y as int) != 0,
                    forall|j: int|
                        0 <= j < vr@.len() ==> maze.pos_in_bounds(#[trigger] vr@[j]) && maze.edge(
                            pos,
                            vr@[j],
                        ),
                    forall|u: Pos, t: Pos|
                        maze.pos_in_bounds(u) && alive@[idx_of(gdim, u)] && u != pos_goal && u
                            != pos && #[trigger] maze.edge(u, t) ==> !far@[idx_of(gdim, t)],
                    forall|t: Pos|
                        #[trigger] maze.edge(pos, t) ==> !far@[idx_of(gdim, t)] || (exists|j: int|
                            k <= j < vr@.len() && vr@[j] == t),
                decreases nmoves - k,
            {
                let t = vr[k];
                proof {
                    assert(maze.pos_in_bounds(vr@[k as int]) && maze.edge(pos, vr@[k as int]));
                }
                expand_one(
                    maze,
                    pos_entrance,
                    pos,
                    t,
                    &alive,
                    &mut narrow,
                    &mut far,
                    &mut pred,
                    &mut vec_narrow,
                );
                k = k + 1;
            }
            proof {
                assert forall|u: Pos, t: Pos|
                    maze.pos_in_bounds(u) && alive@[idx_of(gdim, u)] && u != pos_goal
                        && #[trigger] maze.edge(u, t) implies !far@[idx_of(gdim, t)] by {
                    if u == pos {
                        assert(!far@[idx_of(gdim, t)] || (exists|j: int|
                            nmoves <= j < vr@.len() && vr@[j] == t));
                    }
                }
            }
        }
    }
    proof {
        lemma_count_true_bounds(far@);
        lemma_count_true_bounds(alive@);
        lemma_chain_fuel_mono(
            pred@,
            gdim,
            pos_entrance,
            pos_goal,
            ((n as int) - count_true(far@) - 1) as nat,
            (gdim * gdim) as nat,
        );
    }
    Ok(SolveOutcome { alive, narrow, far, pred, iterations: nb_iter_solve })
}

/// The walk the backtracking yields from a well-formed solve outcome is a
/// simple walk through carved doorways from the entrance to the goal.
proof fn lemma_chain_is_simple_path(m: Maze, entrance: Pos, goal: Pos, o: SolveOutcome)
    requires
        outcome_wf(m, entrance, o),
        m.pos_in_bounds(goal),
        backtrack_chain(
            o.pred@,
            m.spec_dim(),
            entrance,
            goal,
            (m.spec_dim() * m.spec_dim()) as nat,
        ) is Some,
    ensures
        backtrack_chain(
            o.pred@,
            m.spec_dim(),
            entrance,
            goal,
            (m.spec_dim() * m.spec_dim()) as nat,
        ) matches Some(s) && is_path(m, s) && s.first() == entrance && s.last() == goal && (
        forall|i: int, j: int| 0 <= i < j < s.len() ==> s[i] != s[j]),
{
    let dim = m.spec_dim();
    let fuel = (dim * dim) as nat;
    lemma_chain_props(o.pred@, dim, entrance, goal, fuel);
    let s = backtrack_chain(o.pred@, dim, entrance, goal, fuel).unwrap();
    assert forall|k: int| 0 <= k < s.len() implies m.pos_in_bounds(#[trigger] s[k]) by {
        if k == s.len() - 1 {
            assert(s[k] == goal);
        }
    }
    assert forall|k: int| 0 <= k < s.len() - 1 implies #[trigger] m.edge(s[k], s[k + 1]) by {
        assert(o.pred@[idx_of(dim, s[k + 1])] == Some(s[k]));
        assert(m.pos_in_bounds(s[k + 1]));
    }
    assert(is_path(m, s));
    assert forall|i: int, j: int| 0 <= i < j < s.len() implies s[i] != s[j] by {
        lemma_linked_distinct(o.pred@, dim, s, i, j);
    }
}

/// For a fixed spanning-tree grid and a fixed entrance and goal, the
/// reconstructed path does not depend on the order in which the solver's
/// randomness explored the frontier: any two outcomes the solver can
/// return record predecessor links that backtrack to the same walk, so
/// only the iteration count varies between runs, never the path.
pub proof fn lemma_path_independent_of_random_order(
    m: Maze,
    entrance: Pos,
    goal: Pos,
    o1: SolveOutcome,
    o2: SolveOutcome,
)
    requires
        acyclic(m),
        m.pos_in_bounds(goal),
        outcome_wf(m, entrance, o1),
        outcome_wf(m, entrance, o2),
        backtrack_chain(
            o1.pred@,
            m.spec_dim(),
            entrance,
            goal,
            (m.spec_dim() * m.spec_dim()) as nat,
        ) is Some,
        backtrack_chain(
            o2.pred@,
            m.spec_dim(),
            entrance,
            goal,
            (m.spec_dim() * m.spec_dim()) as nat,
        ) is Some,
    ensures
        backtrack_chain(
            o1.pred@,
            m.spec_dim(),
            entrance,
            goal,
            (m.spec_dim() * m.spec_dim()) as nat,
        ) == backtrack_chain(
            o2.pred@,
            m.spec_dim(),
            entrance,
            goal,
            (m.spec_dim() * m.spec_dim()) as nat,
        ),
{
    let dim = m.spec_dim();
    let fuel = (dim * dim) as nat;
    lemma_chain_is_simple_path(m, entrance, goal, o1);
    lemma_chain_is_simple_path(m, entrance, goal, o2);
    let s1 = backtrack_chain(o1.pred@, dim, entrance, goal, fuel).unwrap();
    let s2 = backtrack_chain(o2.pred@, dim, entrance, goal, fuel).unwrap();
    lemma_unique_simple_path(m, s1, s2);
}

} // verus!
