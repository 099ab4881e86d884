use vstd::prelude::*;
use crate::maze::Maze;
use crate::pos::{idx_of, opp_dir, Direction, Pos};

verus! {

/// Whether `p` is a walk through the grid: at least one cell, every cell a
/// cell of the grid, and every consecutive pair joined by a carved doorway.
pub open spec fn is_path(m: Maze, p: Seq<Pos>) -> bool {
    &&& p.len() >= 1
    &&& forall|i: int| 0 <= i < p.len() ==> m.pos_in_bounds(#[trigger] p[i])
    &&& forall|i: int| 0 <= i < p.len() - 1 ==> #[trigger] m.edge(p[i], p[i + 1])
}

/// Whether some walk through carved doorways leads from `a` to `b`.
pub open spec fn reachable(m: Maze, a: Pos, b: Pos) -> bool {
    exists|p: Seq<Pos>| #[trigger] is_path(m, p) && p.first() == a && p.last() == b
}

/// Every cell reaches itself.
pub proof fn lemma_reach_refl(m: Maze, a: Pos)
    requires
        m.pos_in_bounds(a),
    ensures
        reachable(m, a, a),
{
    let p = seq![a];
    assert(is_path(m, p) && p.first() == a && p.last() == a);
}

/// A single carved doorway makes its far end reachable.
pub proof fn lemma_reach_step(m: Maze, a: Pos, b: Pos)
    requires
        m.edge(a, b),
    ensures
        reachable(m, a, b),
{
    let d = choose|d: Direction| m.step(a, b, d);
    assert(m.step(a, b, d));
    let p = seq![a, b];
    assert(is_path(m, p) && p.first() == a && p.last() == b);
}

/// Reachability composes: a walk to `b` followed by a walk from `b` reaches
/// `c`.
pub proof fn lemma_reach_trans(m: Maze, a: Pos, b: Pos, c: Pos)
    requires
        reachable(m, a, b),
        reachable(m, b, c),
    ensures
        reachable(m, a, c),
{
    let p1 = choose|p: Seq<Pos>| #[trigger] is_path(m, p) && p.first() == a && p.last() == b;
    let p2 = choose|p: Seq<Pos>| #[trigger] is_path(m, p) && p.first() == b && p.last() == c;
    if p2.len() == 1 {
        assert(is_path(m, p1) && p1.first() == a && p1.last() == c);
    } else {
        let q = p1 + p2.subrange(1, p2.len() as int);
        assert forall|i: int| 0 <= i < q.len() implies m.pos_in_bounds(#[trigger] q[i]) by {
            if i < p1.len() {
                assert(q[i] == p1[i]);
            } else {
                assert(q[i] == p2[i - p1.len() + 1]);
            }
        }
        assert forall|i: int| 0 <= i < q.len() - 1 implies #[trigger] m.edge(q[i], q[i + 1]) by {
            if i < p1.len() - 1 {
                assert(q[i] == p1[i] && q[i + 1] == p1[i + 1]);
            } else if i == p1.len() - 1 {
                assert(q[i] == p2[0] && q[i + 1] == p2[1]);
                assert(m.edge(p2[0], p2[0int + 1]));
            } else {
                let j = i - p1.len() + 1;
                assert(q[i] == p2[j] && q[i + 1] == p2[j + 1]);
                assert(m.edge(p2[j], p2[j + 1]));
            }
        }
        assert(is_path(m, q) && q.first() == a && q.last() == c);
    }
}

/// Opening further doorways never removes a walk: reachability carries over
/// to any grid of the same size that keeps every open move.
pub proof fn lemma_reach_monotone(m1: Maze, m2: Maze, a: Pos, b: Pos)
    requires
        reachable(m1, a, b),
        m1.spec_dim() == m2.spec_dim(),
        forall|x: int, y: int, d: Direction| #[trigger] m1.can_go(x, y, d) ==> m2.can_go(x, y, d),
    ensures
        reachable(m2, a, b),
{
    let p = choose|p: Seq<Pos>| #[trigger] is_path(m1, p) && p.first() == a && p.last() == b;
    assert forall|i: int| 0 <= i < p.len() - 1 implies #[trigger] m2.edge(p[i], p[i + 1]) by {
        assert(m1.edge(p[i], p[i + 1]));
        let u = p[i];
        let v = p[i + 1];
        let d = choose|d: Direction| m1.step(u, v, d);
        assert(m1.step(u, v, d));
        assert(m2.step(u, v, d));
    }
    assert(is_path(m2, p) && p.first() == a && p.last() == b);
}

/// Whether the cells of the walk, apart from a repeated final endpoint,
/// are pairwise distinct.
pub open spec fn cells_distinct(p: Seq<Pos>) -> bool {
    forall|i: int, j: int| 0 <= i < j < p.len() - 1 ==> p[i] != p[j]
}

/// A simple cycle: a closed walk of at least three doorways whose cells,
/// apart from the repeated endpoint, are pairwise distinct.
pub open spec fn is_cycle(m: Maze, p: Seq<Pos>) -> bool {
    &&& is_path(m, p)
    &&& p.len() >= 4
    &&& p.first() == p.last()
    &&& cells_distinct(p)
}

/// Whether the grid's carved doorways form no simple cycle.
pub open spec fn acyclic(m: Maze) -> bool {
    forall|p: Seq<Pos>| !(#[trigger] is_cycle(m, p))
}

/// A walk whose two ends lie on different sides of a cell property crosses
/// it somewhere: this returns an index where one step changes sides.
pub proof fn lemma_find_flip(p: Seq<Pos>, f: spec_fn(Pos) -> bool, lo: int, hi: int) -> (k: int)
    requires
        0 <= lo <= hi < p.len(),
        f(p[lo]) != f(p[hi]),
    ensures
        lo <= k < hi,
        f(p[k]) != f(p[k + 1]),
    decreases hi - lo,
{
    if f(p[lo]) != f(p[lo + 1]) {
        lo
    } else {
        lemma_find_flip(p, f, lo + 1, hi)
    }
}

/// Under bit symmetry an open doorway can be walked in both directions.
pub proof fn lemma_edge_symm(m: Maze, u: Pos, v: Pos)
    requires
        m.wf(),
        m.symmetric(),
        m.edge(u, v),
    ensures
        m.edge(v, u),
{
    let d = choose|d: Direction| m.step(u, v, d);
    assert(m.step(u, v, d));
    assert(m.can_go(v.x as int, v.y as int, opp_dir(d)));
    assert(m.step(v, u, opp_dir(d)));
}

/// The first place a walk meets the tail of another walk: the least index
/// of `p1`, at or after `k`, whose cell occurs in `p2` past its start.
proof fn lemma_find_meet(p1: Seq<Pos>, p2: Seq<Pos>, k: int) -> (r: (int, int))
    requires
        1 <= k < p1.len(),
        2 <= p2.len(),
        exists|l: int| 1 <= l < p2.len() && #[trigger] p2[l] == p1[p1.len() - 1],
        forall|k2: int, l: int|
            1 <= k2 < k && 1 <= l < p2.len() ==> #[trigger] p2[l] != #[trigger] p1[k2],
    ensures
        k <= r.0 < p1.len(),
        1 <= r.1 < p2.len(),
        p2[r.1] == p1[r.0],
        forall|k2: int, l: int|
            1 <= k2 < r.0 && 1 <= l < p2.len() ==> #[trigger] p2[l] != #[trigger] p1[k2],
    decreases p1.len() - k,
{
    if exists|l: int| 1 <= l < p2.len() && #[trigger] p2[l] == p1[k] {
        let l = choose|l: int| 1 <= l < p2.len() && #[trigger] p2[l] == p1[k];
        (k, l)
    } else {
        assert(k < p1.len() - 1) by {
            if k == p1.len() - 1 {
                let l = choose|l: int| 1 <= l < p2.len() && #[trigger] p2[l] == p1[p1.len() - 1];
                assert(p2[l] == p1[k]);
                assert(false);
            }
        }
        lemma_find_meet(p1, p2, k + 1)
    }
}

/// In a bit-symmetric grid whose doorways form no simple cycle, the walk
/// between two cells that repeats no cell is unique.
#[verifier::rlimit(100)]
pub proof fn lemma_unique_simple_path(m: Maze, p1: Seq<Pos>, p2: Seq<Pos>)
    requires
        m.wf(),
        m.symmetric(),
        acyclic(m),
        is_path(m, p1),
        is_path(m, p2),
        forall|i: int, j: int| 0 <= i < j < p1.len() ==> p1[i] != p1[j],
        forall|i: int, j: int| 0 <= i < j < p2.len() ==> p2[i] != p2[j],
        p1.first() == p2.first(),
        p1.last() == p2.last(),
    ensures
        p1 == p2,
    decreases p1.len(),
{
    if p1.len() == 1 {
        if p2.len() >= 2 {
            assert(p2[0] != p2[p2.len() - 1]);
            assert(false);
        }
        assert(p1 =~= p2);
    } else if p2.len() == 1 {
        assert(p1[0] != p1[p1.len() - 1]);
        assert(false);
    } else if p1[1] == p2[1] {
        // Common first step: the two tails are walks between the same
        // cells, so they coincide by induction.
        let q1 = p1.subrange(1, p1.len() as int);
        let q2 = p2.subrange(1, p2.len() as int);
        assert forall|i: int| 0 <= i < q1.len() - 1 implies #[trigger] m.edge(q1[i], q1[i + 1]) by {
            assert(m.edge(p1[i + 1], p1[i + 1 + 1]));
        }
        assert forall|i: int| 0 <= i < q2.len() - 1 implies #[trigger] m.edge(q2[i], q2[i + 1]) by {
            assert(m.edge(p2[i + 1], p2[i + 1 + 1]));
        }
        assert(is_path(m, q1));
        assert(is_path(m, q2));
        lemma_unique_simple_path(m, q1, q2);
        assert forall|i: int| 0 <= i < p1.len() implies p1[i] == p2[i] by {
            if i >= 1 {
                assert(q1[i - 1] == q2[i - 1]);
            }
        }
        assert(p1 =~= p2);
    } else {
        // The walks diverge at the start. Follow the first walk to the
        // first cell it shares with the second walk's tail; the two arcs up
        // to that cell close into a simple cycle, which is impossible.
        let mr = lemma_find_meet(p1, p2, 1);
        let j1 = mr.0;
        let j2 = mr.1;
        let c = p1.subrange(0, j1 + 1) + p2.subrange(1, j2).reverse() + seq![p1[0]];
        let len = j1 + j2 + 1;
        assert(c.len() == len);
        assert forall|i: int| 0 <= i < len implies #[trigger] c[i] == (if i <= j1 {
            p1[i]
        } else if i < j1 + j2 {
            p2[j1 + j2 - i]
        } else {
            p1[0]
        }) by {
            if j1 < i < j1 + j2 {
                assert(c[i] == p2.subrange(1, j2).reverse()[i - j1 - 1]);
                assert(p2.subrange(1, j2).reverse()[i - j1 - 1] == p2.subrange(1, j2)[j2 - 1 - (i
                    - j1 - 1) - 1 + 1 - 1]);
            }
        }
        // The closed walk takes at least three doorways: a two-door closing
        // would mean the walks agreed on their first step.
        assert(j1 >= 1 && j2 >= 1);
        assert(j1 + j2 >= 3) by {
            if j1 == 1 && j2 == 1 {
                assert(p1[1] == p2[1]);
                assert(false);
            }
        }
        // Every consecutive pair of the closed walk is a doorway.
        assert forall|i: int| 0 <= i < len - 1 implies #[trigger] m.edge(c[i], c[i + 1]) by {
            if i < j1 {
                assert(m.edge(p1[i], p1[i + 1]));
            } else if i == j1 {
                if j2 == 1 {
                    assert(c[i] == p1[j1] && p1[j1] == p2[1] && c[i + 1] == p1[0] && p1[0]
                        == p2[0]);
                    assert(m.edge(p2[0], p2[0int + 1]));
                    lemma_edge_symm(m, p2[0], p2[1]);
                } else {
                    assert(c[i] == p1[j1] && p1[j1] == p2[j2] && c[i + 1] == p2[j2 - 1]);
                    assert(m.edge(p2[j2 - 1], p2[j2 - 1 + 1]));
                    lemma_edge_symm(m, p2[j2 - 1], p2[j2]);
                }
            } else if i < j1 + j2 - 1 {
                let l = j1 + j2 - i;
                assert(c[i] == p2[l] && c[i + 1] == p2[l - 1]);
                assert(m.edge(p2[l - 1], p2[l - 1 + 1]));
                lemma_edge_symm(m, p2[l - 1], p2[l]);
            } else {
                assert(i == j1 + j2 - 1);
                assert(c[i] == p2[1] && c[i + 1] == p1[0] && p1[0] == p2[0]);
                assert(m.edge(p2[0], p2[0int + 1]));
                lemma_edge_symm(m, p2[0], p2[1]);
            }
        }
        assert forall|i: int| 0 <= i < len implies m.pos_in_bounds(#[trigger] c[i]) by {
            if i <= j1 {
                assert(m.pos_in_bounds(p1[i]));
            } else if i < j1 + j2 {
                assert(m.pos_in_bounds(p2[j1 + j2 - i]));
            } else {
                assert(m.pos_in_bounds(p1[0]));
            }
        }
        assert(is_path(m, c));
        // And its cells, apart from the closing endpoint, never repeat.
        assert forall|i: int, j: int| 0 <= i < j < len - 1 implies c[i] != c[j] by {
            if j <= j1 {
                assert(p1[i] != p1[j]);
            } else {
                let l = j1 + j2 - j;
                assert(c[j] == p2[l] && 1 <= l <= j2 - 1);
                if i <= j1 {
                    if i == 0 {
                        assert(p1[0] == p2[0]);
                        assert(p2[0] != p2[l]);
                    } else if i == j1 {
                        assert(p1[j1] == p2[j2]);
                        assert(p2[l] != p2[j2]);
                    } else {
                        assert(p2[l] != p1[i]);
                    }
                } else {
                    let l2 = j1 + j2 - i;
                    assert(c[i] == p2[l2]);
                    assert(p2[l] != p2[l2]);
                }
            }
        }
        assert(is_cycle(m, c));
        assert(false);
    }
}

/// A cell marking that holds at the start of a walk and is closed under
/// carved doorways holds at its end.
pub proof fn lemma_path_marked(m: Maze, p: Seq<Pos>, marking: Seq<bool>)
    requires
        m.wf(),
        is_path(m, p),
        marking.len() == m.spec_dim() * m.spec_dim(),
        marking[idx_of(m.spec_dim(), p.first())],
        forall|u: Pos, v: Pos|
            #[trigger] m.edge(u, v) && marking[idx_of(m.spec_dim(), u)]
                ==> marking[idx_of(m.spec_dim(), v)],
    ensures
        marking[idx_of(m.spec_dim(), p.last())],
    decreases p.len(),
{
    if p.len() > 1 {
        assert(m.edge(p[0], p[0int + 1]));
        let q = p.subrange(1, p.len() as int);
        assert(q.first() == p[1]);
        assert forall|i: int| 0 <= i < q.len() - 1 implies #[trigger] m.edge(q[i], q[i + 1]) by {
            assert(m.edge(p[i + 1], p[i + 1 + 1]));
        }
        assert(is_path(m, q));
        lemma_path_marked(m, q, marking);
    }
}

/// Every cell a walk from a marked start reaches is marked, when the marking
/// is closed under carved doorways.
pub proof fn lemma_reach_marked(m: Maze, a: Pos, b: Pos, marking: Seq<bool>)
    requires
        m.wf(),
        reachable(m, a, b),
        marking.len() == m.spec_dim() * m.spec_dim(),
        marking[idx_of(m.spec_dim(), a)],
        forall|u: Pos, v: Pos|
            #[trigger] m.edge(u, v) && marking[idx_of(m.spec_dim(), u)]
                ==> marking[idx_of(m.spec_dim(), v)],
    ensures
        marking[idx_of(m.spec_dim(), b)],
{
    let p = choose|p: Seq<Pos>| #[trigger] is_path(m, p) && p.first() == a && p.last() == b;
    lemma_path_marked(m, p, marking);
}

} // verus!
