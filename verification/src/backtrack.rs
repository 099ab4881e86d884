use vstd::prelude::*;
use crate::errors::MazeError;
use crate::pos::{classify_spec, classify_step, idx_of, unit_step, Direction, Pos};

verus! {

/// The cell sequence the predecessor links yield, walking from `goal` back
/// to `entrance` and listing the cells entrance first; `None` when a link is
/// missing, leaves the grid, is not a single unit step, or the walk does not
/// reach the entrance within `fuel` steps.
pub open spec fn backtrack_chain(
    pred: Seq<Option<Pos>>,
    dim: int,
    entrance: Pos,
    goal: Pos,
    fuel: nat,
) -> Option<Seq<Pos>>
    decreases fuel,
{
    if goal == entrance {
        Some(seq![entrance])
    } else if fuel == 0 {
        None
    } else {
        match pred[idx_of(dim, goal)] {
            Some(p) => {
                if p.x < dim && p.y < dim && unit_step(p, goal) {
                    match backtrack_chain(pred, dim, entrance, p, (fuel - 1) as nat) {
                        Some(s) => Some(s.push(goal)),
                        None => None,
                    }
                } else {
                    None
                }
            },
            None => None,
        }
    }
}

/// More fuel never changes a walk that already reaches the entrance.
pub proof fn lemma_chain_fuel_mono(
    pred: Seq<Option<Pos>>,
    dim: int,
    entrance: Pos,
    goal: Pos,
    f1: nat,
    f2: nat,
)
    requires
        f1 <= f2,
        backtrack_chain(pred, dim, entrance, goal, f1) is Some,
    ensures
        backtrack_chain(pred, dim, entrance, goal, f2) == backtrack_chain(
            pred,
            dim,
            entrance,
            goal,
            f1,
        ),
    decreases f1,
{
    if goal == entrance {
    } else {
        let p = pred[idx_of(dim, goal)].unwrap();
        lemma_chain_fuel_mono(pred, dim, entrance, p, (f1 - 1) as nat, (f2 - 1) as nat);
    }
}

/// A reconstructed walk starts at the entrance, ends at the goal, and moves
/// one unit step at a time along the recorded predecessor links.
pub proof fn lemma_chain_props(
    pred: Seq<Option<Pos>>,
    dim: int,
    entrance: Pos,
    goal: Pos,
    fuel: nat,
)
    requires
        backtrack_chain(pred, dim, entrance, goal, fuel) is Some,
    ensures
        backtrack_chain(pred, dim, entrance, goal, fuel) matches Some(s) && s.len() >= 1
            && s.first() == entrance && s.last() == goal && (forall|i: int|
            0 <= i < s.len() - 1 ==> unit_step(#[trigger] s[i], s[i + 1]) && pred[idx_of(
                dim,
                s[i + 1],
            )] == Some(s[i])) && (forall|i: int|
            0 <= i < s.len() - 1 ==> (#[trigger] s[i]).x < dim && s[i].y < dim),
    decreases fuel,
{
    if goal == entrance {
    } else {
        let p = pred[idx_of(dim, goal)].unwrap();
        lemma_chain_props(pred, dim, entrance, p, (fuel - 1) as nat);
    }
}

/// A walk along predecessor links repeats no cell when the links walk one
/// step back each: two equal cells would force the whole walk before them
/// to coincide, ending in a recorded predecessor for the start cell.
pub proof fn lemma_linked_distinct(
    pred: Seq<Option<Pos>>,
    dim: int,
    s: Seq<Pos>,
    i: int,
    j: int,
)
    requires
        s.len() >= 1,
        forall|k: int|
            0 <= k < s.len() - 1 ==> pred[idx_of(dim, #[trigger] s[k + 1])] == Some(s[k]),
        pred[idx_of(dim, s[0])] is None,
        0 <= i < j < s.len(),
    ensures
        s[i] != s[j],
    decreases i,
{
    if s[i] == s[j] {
        assert(pred[idx_of(dim, s[j - 1 + 1])] == Some(s[j - 1]));
        if i == 0 {
            assert(false);
        } else {
            assert(pred[idx_of(dim, s[i - 1 + 1])] == Some(s[i - 1]));
            assert(s[i - 1] == s[j - 1]);
            lemma_linked_distinct(pred, dim, s, i - 1, j - 1);
            assert(false);
        }
    }
}

/// Links recorded only at cells outside a protected set leave the walks of
/// protected cells unchanged: the walk from a protected cell only ever
/// visits protected cells.
pub proof fn lemma_chain_pred_frame(
    pred1: Seq<Option<Pos>>,
    pred2: Seq<Option<Pos>>,
    dim: int,
    entrance: Pos,
    c: Pos,
    fuel: nat,
    far: Seq<bool>,
)
    requires
        1 <= dim,
        pred1.len() == dim * dim,
        pred2.len() == dim * dim,
        far.len() == dim * dim,
        c.x < dim && c.y < dim,
        !far[idx_of(dim, c)],
        forall|p: Pos|
            p.x < dim && p.y < dim && !far[idx_of(dim, p)] ==> #[trigger] pred2[idx_of(dim, p)]
                == pred1[idx_of(dim, p)],
        forall|p: Pos|
            p.x < dim && p.y < dim ==> ((#[trigger] pred1[idx_of(dim, p)]) matches Some(q)
                ==> q.x < dim && q.y < dim && !far[idx_of(dim, q)]),
    ensures
        backtrack_chain(pred2, dim, entrance, c, fuel) == backtrack_chain(
            pred1,
            dim,
            entrance,
            c,
            fuel,
        ),
    decreases fuel,
{
    if c == entrance || fuel == 0 {
    } else {
        assert(pred2[idx_of(dim, c)] == pred1[idx_of(dim, c)]);
        match pred1[idx_of(dim, c)] {
            Some(q) => {
                lemma_chain_pred_frame(pred1, pred2, dim, entrance, q, (fuel - 1) as nat, far);
            },
            None => {},
        }
    }
}

/// Walk the predecessor links from the goal back to the entrance, reverse
/// the collected cells so they run entrance to goal, and classify each
/// step's direction. The walk fails with `ImpossiblePath` exactly when the
/// links do not lead from the goal to the entrance by unit steps within
/// `dim * dim` cells.
pub fn conduct_backtracking(
    pred: &Vec<Option<Pos>>,
    dim: usize,
    pos_entrance: Pos,
    pos_goal: Pos,
) -> (r: Result<(Vec<Pos>, Vec<Direction>), MazeError>)
    requires
        1 <= dim,
        dim * dim <= usize::MAX,
        pred@.len() == dim * dim,
        pos_entrance.x < dim && pos_entrance.y < dim,
        pos_goal.x < dim && pos_goal.y < dim,
    ensures
        match r {
            Ok(path_dirs) => {
                &&& backtrack_chain(
                    pred@,
                    dim as int,
                    pos_entrance,
                    pos_goal,
                    (dim * dim) as nat,
                ) == Some(path_dirs.0@)
                &&& path_dirs.1@.len() + 1 == path_dirs.0@.len()
                &&& forall|i: int|
                    0 <= i < path_dirs.1@.len() ==> Some(#[trigger] path_dirs.1@[i])
                        == classify_spec(path_dirs.0@[i], path_dirs.0@[i + 1])
            },
            Err(e) => {
                &&& backtrack_chain(
                    pred@,
                    dim as int,
                    pos_entrance,
                    pos_goal,
                    (dim * dim) as nat,
                ) is None
                &&& e matches MazeError::ImpossiblePath { .. }
            },
        },
{
    let n = dim * dim;
    let ghost gdim = dim as int;
    let ghost full_fuel = (dim * dim) as nat;
    let mut shortest_path: Vec<Pos> = Vec::new();
    let mut pos_current = pos_goal;
    shortest_path.push(pos_goal);
    let mut steps: usize = 0;
    while !(pos_current.x == pos_entrance.x && pos_current.y == pos_entrance.y) && steps < n
        invariant
            1 <= dim,
            n == dim * dim,
            gdim == dim as int,
            full_fuel == n as nat,
            pred@.len() == n,
            pos_entrance.x < dim && pos_entrance.y < dim,
            pos_current.x < dim && pos_current.y < dim,
            steps <= n,
            shortest_path@.len() == steps + 1,
            shortest_path@[0] == pos_goal,
            shortest_path@[steps as int] == pos_current,
            backtrack_chain(pred@, gdim, pos_entrance, pos_goal, full_fuel) == (
            match backtrack_chain(pred@, gdim, pos_entrance, pos_current, (n - steps) as nat) {
                Some(t) => Some(t + shortest_path@.subrange(0, steps as int).reverse()),
                None => None,
            }),
        decreases n - steps,
    {
        let ghost prev_current = pos_current;
        let ghost prev_steps = steps;
        let ghost prev_path = shortest_path@;
        proof {
            crate::maze::lemma_grid_idx_bounds(gdim, pos_current.x as int, pos_current.y as int);
        }
        let i = pos_current.y * dim + pos_current.x;
        proof {
            assert(i as int == idx_of(gdim, pos_current));
        }
        let link = pred[i];
        match link {
            None => {
                proof {
                    assert(backtrack_chain(
                        pred@,
                        gdim,
                        pos_entrance,
                        pos_current,
                        (n - steps) as nat,
                    ) is None);
                }
                return Err(
                    MazeError::ImpossiblePath { x: pos_current.x, y: pos_current.y },
                );
            },
            Some(p) => {
                if !(p.x < dim && p.y < dim) {
                    return Err(
                        MazeError::ImpossiblePath { x: pos_current.x, y: pos_current.y },
                    );
                }
                let step_dir = classify_step(p, pos_current);
                if step_dir.is_none() {
                    return Err(
                        MazeError::ImpossiblePath { x: pos_current.x, y: pos_current.y },
                    );
                }
                shortest_path.push(p);
                pos_current = p;
                steps = steps + 1;
                proof {
                    assert(shortest_path@.subrange(0, steps as int) =~= prev_path);
                    assert(backtrack_chain(
                        pred@,
                        gdim,
                        pos_entrance,
                        prev_current,
                        (n - prev_steps) as nat,
                    ) == (match backtrack_chain(
                        pred@,
                        gdim,
                        pos_entrance,
                        pos_current,
                        (n - steps) as nat,
                    ) {
                        Some(t) => Some(t.push(prev_current)),
                        None => None,
                    }));
                    let ch = backtrack_chain(
                        pred@,
                        gdim,
                        pos_entrance,
                        pos_current,
                        (n - steps) as nat,
                    );
                    if ch is Some {
                        let t = ch.unwrap();
                        assert(t.push(prev_current) + prev_path.subrange(
                            0,
                            prev_steps as int,
                        ).reverse() =~= t + shortest_path@.subrange(0, steps as int).reverse());
                    }
                }
            },
        }
    }
    if !(pos_current.x == pos_entrance.x && pos_current.y == pos_entrance.y) {
        // The walk did not reach the entrance within `dim * dim` cells: the
        // links loop or wander.
        proof {
            assert(backtrack_chain(pred@, gdim, pos_entrance, pos_current, (n - steps) as nat)
                is None);
        }
        return Err(MazeError::ImpossiblePath { x: pos_current.x, y: pos_current.y });
    }
    proof {
        assert(pos_current == pos_entrance);
        assert(backtrack_chain(pred@, gdim, pos_entrance, pos_current, (n - steps) as nat)
            == Some(seq![pos_entrance]));
    }
    // Reverse the collected cells so the path runs entrance to goal.
    let ghost chain = seq![pos_entrance] + shortest_path@.subrange(0, steps as int).reverse();
    let total = shortest_path.len();
    let mut path: Vec<Pos> = Vec::new();
    let mut k: usize = 0;
    while k < total
        invariant
            total == shortest_path@.len(),
            k <= total,
            path@.len() == k,
            forall|j: int| 0 <= j < k ==> #[trigger] path@[j] == shortest_path@[total - 1 - j],
        decreases total - k,
    {
        path.push(shortest_path[total - 1 - k]);
        k = k + 1;
    }
    proof {
        assert(path@ =~= chain);
    }
    // Classify the direction of every step of the path.
    let ghost gpath = path@;
    proof {
        lemma_chain_props(pred@, gdim, pos_entrance, pos_goal, full_fuel);
    }
    let mut dirs: Vec<Direction> = Vec::new();
    let mut k2: usize = 0;
    let plen = path.len();
    while k2 + 1 < plen
        invariant
            path@ == gpath,
            plen == gpath.len(),
            plen >= 1,
            k2 < plen,
            dirs@.len() == k2,
            forall|i: int|
                0 <= i < plen - 1 ==> unit_step(#[trigger] gpath[i], gpath[i + 1]),
            forall|i: int|
                0 <= i < k2 ==> Some(#[trigger] dirs@[i]) == classify_spec(gpath[i], gpath[i + 1]),
        decreases plen - k2,
    {
        let d = classify_step(path[k2], path[k2 + 1]).unwrap();
        dirs.push(d);
        k2 = k2 + 1;
    }
    Ok((path, dirs))
}

} // verus!
