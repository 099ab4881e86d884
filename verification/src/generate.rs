use vstd::prelude::*;
use rand::rngs::StdRng;
use crate::errors::MazeError;
use crate::maze::Maze;
use crate::pos::{dir_bit, lemma_bit_zero, nb_x, nb_y, Direction, Pos};
use crate::rand_src::rand_below;
use crate::reach::{
    acyclic, is_cycle, lemma_reach_monotone, lemma_reach_refl, lemma_reach_step,
    lemma_reach_trans, reachable,
};

verus! {

/// Whether cell `(x, y)` lies in the region described by a wall-axis
/// interval, a door-axis interval and an orientation. Orientation `true`
/// means the wall axis is `x` (walls are vertical, doors open horizontally);
/// orientation `false` is the transpose.
pub open spec fn in_region(
    x: int,
    y: int,
    wall_min: int,
    wall_max: int,
    door_min: int,
    door_max: int,
    orientation: bool,
) -> bool {
    if orientation {
        wall_min <= x <= wall_max && door_min <= y <= door_max
    } else {
        door_min <= x <= door_max && wall_min <= y <= wall_max
    }
}

/// `in_region` for a cell given as a `Pos`.
pub open spec fn pos_in_region(
    p: Pos,
    wall_min: int,
    wall_max: int,
    door_min: int,
    door_max: int,
    orientation: bool,
) -> bool {
    in_region(p.x as int, p.y as int, wall_min, wall_max, door_min, door_max, orientation)
}

/// Whether no doorway is carved yet between any two cells of the region.
pub open spec fn region_uncarved(
    m: Maze,
    wall_min: int,
    wall_max: int,
    door_min: int,
    door_max: int,
    orientation: bool,
) -> bool {
    forall|x: int, y: int, d: Direction|
        in_region(x, y, wall_min, wall_max, door_min, door_max, orientation) && in_region(
            nb_x(x, d),
            nb_y(y, d),
            wall_min,
            wall_max,
            door_min,
            door_max,
            orientation,
        ) ==> !(#[trigger] m.can_go(x, y, d))
}

/// The number of cells of the region.
pub open spec fn region_size(wall_min: int, wall_max: int, door_min: int, door_max: int) -> int {
    (wall_max - wall_min + 1) * (door_max - door_min + 1)
}

/// The number of recursive calls the splitting of the region takes: one per
/// cell of the recursion tree. A degenerate wall interval beside a proper
/// door interval costs one extra call, for the transposing step.
pub open spec fn region_calls(
    wall_min: int,
    wall_max: int,
    door_min: int,
    door_max: int,
) -> int {
    if wall_min == wall_max && door_min < door_max {
        2 * region_size(wall_min, wall_max, door_min, door_max)
    } else {
        2 * region_size(wall_min, wall_max, door_min, door_max) - 1
    }
}

/// Whether the cell `(x, y)` has at least one open move.
pub open spec fn has_door(m: Maze, x: int, y: int) -> bool {
    exists|d: Direction| m.can_go(x, y, d)
}

/// A region of at least one cell in each axis direction has at least one
/// cell, and splitting it along the wall axis partitions its cells.
proof fn lemma_region_size_split(wall_min: int, wall_max: int, door_min: int, door_max: int, wall_pos: int)
    by (nonlinear_arith)
    requires
        wall_min <= wall_pos < wall_max,
        door_min <= door_max,
    ensures
        region_size(wall_min, wall_pos, door_min, door_max) + region_size(
            wall_pos + 1,
            wall_max,
            door_min,
            door_max,
        ) == region_size(wall_min, wall_max, door_min, door_max),
        region_size(wall_min, wall_pos, door_min, door_max) >= 1,
        region_size(wall_pos + 1, wall_max, door_min, door_max) >= 1,
{
}

/// A region's cell count is at least one, and at least two when one of its
/// intervals is proper.
proof fn lemma_region_size_pos(wall_min: int, wall_max: int, door_min: int, door_max: int)
    by (nonlinear_arith)
    requires
        wall_min <= wall_max,
        door_min <= door_max,
    ensures
        region_size(wall_min, wall_max, door_min, door_max) >= 1,
        wall_min < wall_max || door_min < door_max ==> region_size(
            wall_min,
            wall_max,
            door_min,
            door_max,
        ) >= 2,
        wall_min == wall_max && door_min == door_max ==> region_size(
            wall_min,
            wall_max,
            door_min,
            door_max,
        ) == 1,
{
}

/// The transposed description covers the same cells and counts the same
/// size.
proof fn lemma_region_transpose(wall_min: int, wall_max: int, door_min: int, door_max: int)
    by (nonlinear_arith)
    requires
        wall_min <= wall_max,
        door_min <= door_max,
    ensures
        region_size(door_min, door_max, wall_min, wall_max) == region_size(
            wall_min,
            wall_max,
            door_min,
            door_max,
        ),
{
}

/// Recursively generate the maze by splitting a region in two sub-regions
/// and carving one doorway between two neighbouring cells across the wall.
/// Each call strictly shrinks one of the two intervals, so the recursion
/// carves exactly `region_size - 1` doorways and leaves the region's cells
/// connected, bit-symmetric, and each with at least one open move.
#[verifier::rlimit(100)]
#[verifier::spinoff_prover]
fn recursive_region_splitting(
    maze: &mut Maze,
    wall_min: usize,
    wall_max: usize,
    door_min: usize,
    door_max: usize,
    orientation: bool,
    nb_iter_create: &mut usize,
    rng: &mut StdRng,
)
    requires
        old(maze).wf(),
        old(maze).symmetric(),
        wall_min <= wall_max,
        door_min <= door_max,
        wall_max < old(maze).spec_dim(),
        door_max < old(maze).spec_dim(),
        region_uncarved(
            *old(maze),
            wall_min as int,
            wall_max as int,
            door_min as int,
            door_max as int,
            orientation,
        ),
        *old(nb_iter_create) + region_calls(
            wall_min as int,
            wall_max as int,
            door_min as int,
            door_max as int,
        ) <= usize::MAX,
    ensures
        final(maze).wf(),
        final(maze).symmetric(),
        final(maze).spec_dim() == old(maze).spec_dim(),
        *final(nb_iter_create) == *old(nb_iter_create) + region_calls(
            wall_min as int,
            wall_max as int,
            door_min as int,
            door_max as int,
        ),
        final(maze).spec_edge_count() == old(maze).spec_edge_count() + region_size(
            wall_min as int,
            wall_max as int,
            door_min as int,
            door_max as int,
        ) - 1,
        forall|x: int, y: int, d: Direction| #[trigger]
            old(maze).can_go(x, y, d) ==> final(maze).can_go(x, y, d),
        forall|x: int, y: int, d: Direction| #[trigger]
            final(maze).can_go(x, y, d) ==> old(maze).can_go(x, y, d) || (in_region(
                x,
                y,
                wall_min as int,
                wall_max as int,
                door_min as int,
                door_max as int,
                orientation,
            ) && in_region(
                nb_x(x, d),
                nb_y(y, d),
                wall_min as int,
                wall_max as int,
                door_min as int,
                door_max as int,
                orientation,
            )),
        forall|x: int, y: int|
            old(maze).in_bounds(x, y) && !in_region(
                x,
                y,
                wall_min as int,
                wall_max as int,
                door_min as int,
                door_max as int,
                orientation,
            ) ==> #[trigger] final(maze).mask(x, y) == old(maze).mask(x, y),
        region_size(wall_min as int, wall_max as int, door_min as int, door_max as int) >= 2
            ==> forall|x: int, y: int|
            in_region(
                x,
                y,
                wall_min as int,
                wall_max as int,
                door_min as int,
                door_max as int,
                orientation,
            ) ==> #[trigger] has_door(*final(maze), x, y),
        forall|a: Pos, b: Pos|
            pos_in_region(
                a,
                wall_min as int,
                wall_max as int,
                door_min as int,
                door_max as int,
                orientation,
            ) && pos_in_region(
                b,
                wall_min as int,
                wall_max as int,
                door_min as int,
                door_max as int,
                orientation,
            ) ==> #[trigger] reachable(*final(maze), a, b),
        forall|p: Seq<Pos>|
            (forall|i: int|
                0 <= i < p.len() ==> pos_in_region(
                    #[trigger] p[i],
                    wall_min as int,
                    wall_max as int,
                    door_min as int,
                    door_max as int,
                    orientation,
                )) ==> !(#[trigger] is_cycle(*final(maze), p)),
    decreases
            wall_max - wall_min + door_max - door_min,
            door_max - door_min,
{
    let ghost wmin = wall_min as int;
    let ghost wmax = wall_max as int;
    let ghost dmin = door_min as int;
    let ghost dmax = door_max as int;
    let ghost m_in = *maze;
    proof {
        lemma_region_size_pos(wmin, wmax, dmin, dmax);
    }
    *nb_iter_create = *nb_iter_create + 1;

    if wall_max > wall_min {
        // Split the region: choose the wall and the doorway through it.
        let wall_pos = rand_below(rng, wall_min, wall_max);
        let wall_pos_plus_one = wall_pos + 1;
        let door_pos = if door_max > door_min {
            rand_below(rng, door_min, door_max)
        } else {
            door_min
        };
        let ghost wpos = wall_pos as int;
        let ghost dpos = door_pos as int;

        // Carve the doorway: complementary bits on the two cells adjacent
        // across the wall.
        let (ax, ay, bx, by) = if orientation {
            (wall_pos, door_pos, wall_pos + 1, door_pos)
        } else {
            (door_pos, wall_pos, door_pos, wall_pos + 1)
        };
        let (da, db) = if orientation {
            (Direction::L2R, Direction::R2L)
        } else {
            (Direction::U2D, Direction::D2U)
        };
        let ghost door_a = Pos { x: ax, y: ay };
        let ghost door_b = Pos { x: bx, y: by };
        proof {
            assert(in_region(ax as int, ay as int, wmin, wmax, dmin, dmax, orientation));
            assert(in_region(bx as int, by as int, wmin, wmax, dmin, dmax, orientation));
            assert(nb_x(ax as int, da) == bx as int && nb_y(ay as int, da) == by as int);
            assert(nb_x(bx as int, db) == ax as int && nb_y(by as int, db) == ay as int);
            assert(!m_in.can_go(ax as int, ay as int, da));
            assert(!m_in.can_go(bx as int, by as int, db));
        }
        maze.or_bit(ax, ay, da);
        maze.or_bit(bx, by, db);
        let ghost m_c = *maze;
        proof {
            // The carve preserves bit symmetry: the two new open moves are
            // each other's mirrors, and every other move is untouched.
            assert forall|x: int, y: int, d: Direction|
                m_c.in_bounds(x, y) && m_c.in_bounds(nb_x(x, d), nb_y(y, d)) implies #[trigger] m_c
                .can_go(x, y, d) == m_c.can_go(nb_x(x, d), nb_y(y, d), opp_of(d)) by {
                if x == ax as int && y == ay as int && d == da {
                } else if x == bx as int && y == by as int && d == db {
                } else {
                    assert(m_c.can_go(x, y, d) == m_in.can_go(x, y, d));
                    if nb_x(x, d) == ax as int && nb_y(y, d) == ay as int && opp_of(d) == da {
                        assert(x == bx as int && y == by as int && d == db);
                    } else if nb_x(x, d) == bx as int && nb_y(y, d) == by as int && opp_of(d)
                        == db {
                        assert(x == ax as int && y == ay as int && d == da);
                    } else {
                        assert(m_c.can_go(nb_x(x, d), nb_y(y, d), opp_of(d)) == m_in.can_go(
                            nb_x(x, d),
                            nb_y(y, d),
                            opp_of(d),
                        ));
                        assert(m_in.can_go(x, y, d) == m_in.can_go(
                            nb_x(x, d),
                            nb_y(y, d),
                            opp_of(d),
                        ));
                    }
                }
            }
            assert(m_c.symmetric());
        }

        if door_max > door_min {
            // The room is large enough to subdivide along the other
            // orientation: recurse on both sides with the axes swapped.
            proof {
                lemma_region_size_split(wmin, wmax, dmin, dmax, wpos);
                lemma_region_transpose(dmin, dmax, wmin, wpos);
                lemma_region_transpose(dmin, dmax, wpos + 1, wmax);
                lemma_region_size_pos(dmin, dmax, wmin, wpos);
                lemma_region_size_pos(dmin, dmax, wpos + 1, wmax);
                assert(region_uncarved(m_c, dmin, dmax, wmin, wpos, !orientation)) by {
                    assert forall|x: int, y: int, d: Direction|
                        in_region(x, y, dmin, dmax, wmin, wpos, !orientation) && in_region(
                            nb_x(x, d),
                            nb_y(y, d),
                            dmin,
                            dmax,
                            wmin,
                            wpos,
                            !orientation,
                        ) implies !(#[trigger] m_c.can_go(x, y, d)) by {
                        assert(m_c.can_go(x, y, d) == m_in.can_go(x, y, d));
                        assert(in_region(x, y, wmin, wmax, dmin, dmax, orientation));
                        assert(in_region(nb_x(x, d), nb_y(y, d), wmin, wmax, dmin, dmax, orientation));
                    }
                }
            }
            recursive_region_splitting(
                maze,
                door_min,
                door_max,
                wall_min,
                wall_pos,
                !orientation,
                nb_iter_create,
                rng,
            );
            let ghost m_1 = *maze;
            proof {
                assert(region_uncarved(m_1, dmin, dmax, wpos + 1, wmax, !orientation)) by {
                    assert forall|x: int, y: int, d: Direction|
                        in_region(x, y, dmin, dmax, wpos + 1, wmax, !orientation) && in_region(
                            nb_x(x, d),
                            nb_y(y, d),
                            dmin,
                            dmax,
                            wpos + 1,
                            wmax,
                            !orientation,
                        ) implies !(#[trigger] m_1.can_go(x, y, d)) by {
                        if m_1.can_go(x, y, d) {
                            assert(m_c.can_go(x, y, d) || (in_region(
                                x,
                                y,
                                dmin,
                                dmax,
                                wmin,
                                wpos,
                                !orientation,
                            ) && in_region(
                                nb_x(x, d),
                                nb_y(y, d),
                                dmin,
                                dmax,
                                wmin,
                                wpos,
                                !orientation,
                            )));
                            assert(m_c.can_go(x, y, d));
                            assert(m_c.can_go(x, y, d) == m_in.can_go(x, y, d));
                            assert(in_region(x, y, wmin, wmax, dmin, dmax, orientation));
                            assert(in_region(nb_x(x, d), nb_y(y, d), wmin, wmax, dmin, dmax, orientation));
                        }
                    }
                }
            }
            recursive_region_splitting(
                maze,
                door_min,
                door_max,
                wall_pos_plus_one,
                wall_max,
                !orientation,
                nb_iter_create,
                rng,
            );
            let ghost m_2 = *maze;
            proof {
                lemma_split_connect(
                    m_in,
                    m_c,
                    m_1,
                    m_2,
                    wmin,
                    wmax,
                    dmin,
                    dmax,
                    wpos,
                    orientation,
                    door_a,
                    door_b,
                    da,
                    db,
                );
                assert(*nb_iter_create == *old(nb_iter_create) + region_calls(
                    wmin,
                    wmax,
                    dmin,
                    dmax,
                ));
                assert(m_2.spec_edge_count() == old(maze).spec_edge_count() + region_size(
                    wmin,
                    wmax,
                    dmin,
                    dmax,
                ) - 1);
                assert forall|x: int, y: int, d: Direction| #[trigger]
                    m_in.can_go(x, y, d) implies m_2.can_go(x, y, d) by {
                    assert(m_c.can_go(x, y, d));
                    assert(m_1.can_go(x, y, d));
                }
                assert forall|x: int, y: int, d: Direction| #[trigger]
                    m_2.can_go(x, y, d) && !m_in.can_go(x, y, d) implies in_region(
                    x,
                    y,
                    wmin,
                    wmax,
                    dmin,
                    dmax,
                    orientation,
                ) && in_region(
                    nb_x(x, d),
                    nb_y(y, d),
                    wmin,
                    wmax,
                    dmin,
                    dmax,
                    orientation,
                ) by {
                    if m_1.can_go(x, y, d) {
                        if m_c.can_go(x, y, d) {
                            assert((x == door_a.x as int && y == door_a.y as int && d == da) || (x
                                == door_b.x as int && y == door_b.y as int && d == db));
                        } else {
                            assert(in_region(x, y, dmin, dmax, wmin, wpos, !orientation)
                                && in_region(
                                nb_x(x, d),
                                nb_y(y, d),
                                dmin,
                                dmax,
                                wmin,
                                wpos,
                                !orientation,
                            ));
                        }
                    } else {
                        assert(in_region(x, y, dmin, dmax, wpos + 1, wmax, !orientation)
                            && in_region(
                            nb_x(x, d),
                            nb_y(y, d),
                            dmin,
                            dmax,
                            wpos + 1,
                            wmax,
                            !orientation,
                        ));
                    }
                }
                assert forall|x: int, y: int|
                    m_in.in_bounds(x, y) && !in_region(
                        x,
                        y,
                        wmin,
                        wmax,
                        dmin,
                        dmax,
                        orientation,
                    ) implies #[trigger] m_2.mask(x, y) == m_in.mask(x, y) by {
                    assert(m_c.mask(x, y) == m_in.mask(x, y));
                    assert(m_1.mask(x, y) == m_c.mask(x, y));
                    assert(m_2.mask(x, y) == m_1.mask(x, y));
                }
                assert forall|x: int, y: int|
                    in_region(x, y, wmin, wmax, dmin, dmax, orientation) implies #[trigger] has_door(
                    m_2,
                    x,
                    y,
                ) by {
                    if in_region(x, y, dmin, dmax, wmin, wpos, !orientation) {
                        assert(has_door(m_1, x, y));
                        let d0 = choose|d0: Direction| m_1.can_go(x, y, d0);
                        assert(m_2.can_go(x, y, d0));
                    } else {
                        assert(in_region(x, y, dmin, dmax, wpos + 1, wmax, !orientation));
                        assert(has_door(m_2, x, y));
                    }
                }
                // No simple cycle fits inside the split region.
                assert forall|x: int, y: int, d: Direction| #[trigger]
                    m_1.can_go(x, y, d) implies m_in.can_go(x, y, d) || (x == door_a.x as int && y
                    == door_a.y as int && d == da) || (x == door_b.x as int && y
                    == door_b.y as int && d == db) || (in_region(
                    x,
                    y,
                    wmin,
                    wpos,
                    dmin,
                    dmax,
                    orientation,
                ) && in_region(nb_x(x, d), nb_y(y, d), wmin, wpos, dmin, dmax, orientation)) by {
                    if !m_c.can_go(x, y, d) {
                        assert(in_region(x, y, dmin, dmax, wmin, wpos, !orientation) && in_region(
                            nb_x(x, d),
                            nb_y(y, d),
                            dmin,
                            dmax,
                            wmin,
                            wpos,
                            !orientation,
                        ));
                    } else if !m_in.can_go(x, y, d) {
                        assert((x == door_a.x as int && y == door_a.y as int && d == da) || (x
                            == door_b.x as int && y == door_b.y as int && d == db));
                    }
                }
                assert forall|x: int, y: int, d: Direction| #[trigger]
                    m_2.can_go(x, y, d) implies m_1.can_go(x, y, d) || (in_region(
                    x,
                    y,
                    wpos + 1,
                    wmax,
                    dmin,
                    dmax,
                    orientation,
                ) && in_region(nb_x(x, d), nb_y(y, d), wpos + 1, wmax, dmin, dmax, orientation)) by {
                    if !m_1.can_go(x, y, d) {
                        assert(in_region(x, y, dmin, dmax, wpos + 1, wmax, !orientation)
                            && in_region(
                            nb_x(x, d),
                            nb_y(y, d),
                            dmin,
                            dmax,
                            wpos + 1,
                            wmax,
                            !orientation,
                        ));
                    }
                }
                assert forall|p: Seq<Pos>|
                    (forall|i: int|
                        0 <= i < p.len() ==> pos_in_region(
                            #[trigger] p[i],
                            wmin,
                            wpos,
                            dmin,
                            dmax,
                            orientation,
                        )) implies !(#[trigger] is_cycle(m_1, p)) by {
                    assert(forall|i: int|
                        0 <= i < p.len() ==> pos_in_region(
                            #[trigger] p[i],
                            dmin,
                            dmax,
                            wmin,
                            wpos,
                            !orientation,
                        ));
                }
                assert forall|p: Seq<Pos>|
                    (forall|i: int|
                        0 <= i < p.len() ==> pos_in_region(
                            #[trigger] p[i],
                            wpos + 1,
                            wmax,
                            dmin,
                            dmax,
                            orientation,
                        )) implies !(#[trigger] is_cycle(m_2, p)) by {
                    assert(forall|i: int|
                        0 <= i < p.len() ==> pos_in_region(
                            #[trigger] p[i],
                            dmin,
                            dmax,
                            wpos + 1,
                            wmax,
                            !orientation,
                        ));
                }
                lemma_split_acyclic(
                    m_in,
                    m_1,
                    m_2,
                    wmin,
                    wmax,
                    dmin,
                    dmax,
                    wpos,
                    orientation,
                    door_a,
                    door_b,
                    da,
                    db,
                );
            }
        } else {
            // The room is one cell wide along the door axis: keep the
            // orientation and split the remaining wall interval.
            proof {
                lemma_region_size_split(wmin, wmax, dmin, dmax, wpos);
                assert(region_uncarved(m_c, wmin, wpos, dmin, dmax, orientation)) by {
                    assert forall|x: int, y: int, d: Direction|
                        in_region(x, y, wmin, wpos, dmin, dmax, orientation) && in_region(
                            nb_x(x, d),
                            nb_y(y, d),
                            wmin,
                            wpos,
                            dmin,
                            dmax,
                            orientation,
                        ) implies !(#[trigger] m_c.can_go(x, y, d)) by {
                        assert(m_c.can_go(x, y, d) == m_in.can_go(x, y, d));
                        assert(in_region(x, y, wmin, wmax, dmin, dmax, orientation));
                        assert(in_region(nb_x(x, d), nb_y(y, d), wmin, wmax, dmin, dmax, orientation));
                    }
                }
            }
            recursive_region_splitting(
                maze,
                wall_min,
                wall_pos,
                door_min,
                door_max,
                orientation,
                nb_iter_create,
                rng,
            );
            let ghost m_1 = *maze;
            proof {
                assert(region_uncarved(m_1, wpos + 1, wmax, dmin, dmax, orientation)) by {
                    assert forall|x: int, y: int, d: Direction|
                        in_region(x, y, wpos + 1, wmax, dmin, dmax, orientation) && in_region(
                            nb_x(x, d),
                            nb_y(y, d),
                            wpos + 1,
                            wmax,
                            dmin,
                            dmax,
                            orientation,
                        ) implies !(#[trigger] m_1.can_go(x, y, d)) by {
                        if m_1.can_go(x, y, d) {
                            assert(m_c.can_go(x, y, d) || (in_region(
                                x,
                                y,
                                wmin,
                                wpos,
                                dmin,
                                dmax,
                                orientation,
                            ) && in_region(
                                nb_x(x, d),
                                nb_y(y, d),
                                wmin,
                                wpos,
                                dmin,
                                dmax,
                                orientation,
                            )));
                            assert(m_c.can_go(x, y, d));
                            assert(m_c.can_go(x, y, d) == m_in.can_go(x, y, d));
                            assert(in_region(x, y, wmin, wmax, dmin, dmax, orientation));
                            assert(in_region(nb_x(x, d), nb_y(y, d), wmin, wmax, dmin, dmax, orientation));
                        }
                    }
                }
            }
            recursive_region_splitting(
                maze,
                wall_pos_plus_one,
                wall_max,
                door_min,
                door_max,
                orientation,
                nb_iter_create,
                rng,
            );
            let ghost m_2 = *maze;
            proof {
                lemma_split_connect(
                    m_in,
                    m_c,
                    m_1,
                    m_2,
                    wmin,
                    wmax,
                    dmin,
                    dmax,
                    wpos,
                    orientation,
                    door_a,
                    door_b,
                    da,
                    db,
                );
                assert(*nb_iter_create == *old(nb_iter_create) + region_calls(
                    wmin,
                    wmax,
                    dmin,
                    dmax,
                ));
                assert(m_2.spec_edge_count() == old(maze).spec_edge_count() + region_size(
                    wmin,
                    wmax,
                    dmin,
                    dmax,
                ) - 1);
                assert forall|x: int, y: int, d: Direction| #[trigger]
                    m_in.can_go(x, y, d) implies m_2.can_go(x, y, d) by {
                    assert(m_c.can_go(x, y, d));
                    assert(m_1.can_go(x, y, d));
                }
                assert forall|x: int, y: int, d: Direction| #[trigger]
                    m_2.can_go(x, y, d) && !m_in.can_go(x, y, d) implies in_region(
                    x,
                    y,
                    wmin,
                    wmax,
                    dmin,
                    dmax,
                    orientation,
                ) && in_region(
                    nb_x(x, d),
                    nb_y(y, d),
                    wmin,
                    wmax,
                    dmin,
                    dmax,
                    orientation,
                ) by {
                    if m_1.can_go(x, y, d) {
                        if m_c.can_go(x, y, d) {
                            assert((x == door_a.x as int && y == door_a.y as int && d == da) || (x
                                == door_b.x as int && y == door_b.y as int && d == db));
                        } else {
                            assert(in_region(x, y, wmin, wpos, dmin, dmax, orientation)
                                && in_region(
                                nb_x(x, d),
                                nb_y(y, d),
                                wmin,
                                wpos,
                                dmin,
                                dmax,
                                orientation,
                            ));
                        }
                    } else {
                        assert(in_region(x, y, wpos + 1, wmax, dmin, dmax, orientation)
                            && in_region(
                            nb_x(x, d),
                            nb_y(y, d),
                            wpos + 1,
                            wmax,
                            dmin,
                            dmax,
                            orientation,
                        ));
                    }
                }
                assert forall|x: int, y: int|
                    m_in.in_bounds(x, y) && !in_region(
                        x,
                        y,
                        wmin,
                        wmax,
                        dmin,
                        dmax,
                        orientation,
                    ) implies #[trigger] m_2.mask(x, y) == m_in.mask(x, y) by {
                    assert(m_c.mask(x, y) == m_in.mask(x, y));
                    assert(m_1.mask(x, y) == m_c.mask(x, y));
                    assert(m_2.mask(x, y) == m_1.mask(x, y));
                }
                assert forall|x: int, y: int|
                    in_region(x, y, wmin, wmax, dmin, dmax, orientation) implies #[trigger] has_door(
                    m_2,
                    x,
                    y,
                ) by {
                    if in_region(x, y, wmin, wpos, dmin, dmax, orientation) {
                        if wmin < wpos {
                            lemma_region_size_pos(wmin, wpos, dmin, dmax);
                            assert(has_door(m_1, x, y));
                            let d0 = choose|d0: Direction| m_1.can_go(x, y, d0);
                            assert(m_2.can_go(x, y, d0));
                        } else {
                            // The left side is the single doorway cell.
                            assert(x == door_a.x as int && y == door_a.y as int);
                            assert(m_c.can_go(x, y, da));
                            assert(m_1.can_go(x, y, da));
                            assert(m_2.can_go(x, y, da));
                        }
                    } else {
                        assert(in_region(x, y, wpos + 1, wmax, dmin, dmax, orientation));
                        if wpos + 1 < wmax {
                            lemma_region_size_pos(wpos + 1, wmax, dmin, dmax);
                            assert(has_door(m_2, x, y));
                        } else {
                            // The right side is the single doorway cell.
                            assert(x == door_b.x as int && y == door_b.y as int);
                            assert(m_c.can_go(x, y, db));
                            assert(m_1.can_go(x, y, db));
                            assert(m_2.can_go(x, y, db));
                        }
                    }
                }
                // No simple cycle fits inside the split region.
                assert forall|x: int, y: int, d: Direction| #[trigger]
                    m_1.can_go(x, y, d) implies m_in.can_go(x, y, d) || (x == door_a.x as int && y
                    == door_a.y as int && d == da) || (x == door_b.x as int && y
                    == door_b.y as int && d == db) || (in_region(
                    x,
                    y,
                    wmin,
                    wpos,
                    dmin,
                    dmax,
                    orientation,
                ) && in_region(nb_x(x, d), nb_y(y, d), wmin, wpos, dmin, dmax, orientation)) by {
                    if m_c.can_go(x, y, d) && !m_in.can_go(x, y, d) {
                        assert((x == door_a.x as int && y == door_a.y as int && d == da) || (x
                            == door_b.x as int && y == door_b.y as int && d == db));
                    }
                }
                lemma_split_acyclic(
                    m_in,
                    m_1,
                    m_2,
                    wmin,
                    wmax,
                    dmin,
                    dmax,
                    wpos,
                    orientation,
                    door_a,
                    door_b,
                    da,
                    db,
                );
            }
        }
    } else if wall_max == wall_min && door_max > door_min {
        // A single line along the door axis: transpose and split there.
        proof {
            lemma_region_transpose(wmin, wmax, dmin, dmax);
            assert(region_uncarved(m_in, dmin, dmax, wmin, wmax, !orientation)) by {
                assert forall|x: int, y: int, d: Direction|
                    in_region(x, y, dmin, dmax, wmin, wmax, !orientation) && in_region(
                        nb_x(x, d),
                        nb_y(y, d),
                        dmin,
                        dmax,
                        wmin,
                        wmax,
                        !orientation,
                    ) implies !(#[trigger] m_in.can_go(x, y, d)) by {
                    assert(in_region(x, y, wmin, wmax, dmin, dmax, orientation));
                    assert(in_region(nb_x(x, d), nb_y(y, d), wmin, wmax, dmin, dmax, orientation));
                }
            }
        }
        recursive_region_splitting(
            maze,
            door_min,
            door_max,
            wall_min,
            wall_max,
            !orientation,
            nb_iter_create,
            rng,
        );
        let ghost m_t = *maze;
        proof {
            assert forall|p: Seq<Pos>|
                (forall|i: int|
                    0 <= i < p.len() ==> pos_in_region(
                        #[trigger] p[i],
                        wmin,
                        wmax,
                        dmin,
                        dmax,
                        orientation,
                    )) implies !(#[trigger] is_cycle(m_t, p)) by {
                assert(forall|i: int|
                    0 <= i < p.len() ==> pos_in_region(
                        #[trigger] p[i],
                        dmin,
                        dmax,
                        wmin,
                        wmax,
                        !orientation,
                    ));
            }
        }
    } else {
        // A single cell: nothing to split.
        proof {
            assert forall|a: Pos, b: Pos|
                pos_in_region(a, wmin, wmax, dmin, dmax, orientation) && pos_in_region(
                    b,
                    wmin,
                    wmax,
                    dmin,
                    dmax,
                    orientation,
                ) implies #[trigger] reachable(*maze, a, b) by {
                assert(a == b);
                lemma_reach_refl(*maze, a);
            }
            assert forall|p: Seq<Pos>|
                (forall|i: int|
                    0 <= i < p.len() ==> pos_in_region(
                        #[trigger] p[i],
                        wmin,
                        wmax,
                        dmin,
                        dmax,
                        orientation,
                    )) && is_cycle(*maze, p) implies false by {
                assert(pos_in_region(p[0], wmin, wmax, dmin, dmax, orientation));
                assert(pos_in_region(p[1], wmin, wmax, dmin, dmax, orientation));
                assert(p[0].x == p[1].x && p[0].y == p[1].y);
                assert(p[0] == p[1]);
                assert(p[0] != p[1]);
            }
        }
    }
}

/// The opposite direction, named so the carve proof can speak of it.
pub open spec fn opp_of(d: Direction) -> Direction {
    crate::pos::opp_dir(d)
}

/// Split one region of a well-formed grid, carving one doorway per split.
/// Inverted bounds are rejected with `InvalidRegion`; on success the region
/// becomes pairwise connected, the grid stays bit-symmetric, exactly one
/// doorway less than the region has cells is carved, and every cell outside
/// the region keeps its mask. The returned count is the number of recursive
/// splitting steps taken.
pub fn split_region(
    maze: &mut Maze,
    wall_min: usize,
    wall_max: usize,
    door_min: usize,
    door_max: usize,
    orientation: bool,
    rng: &mut StdRng,
) -> (r: Result<usize, MazeError>)
    requires
        old(maze).wf(),
        old(maze).symmetric(),
        wall_min <= wall_max && door_min <= door_max ==> {
            &&& wall_max < old(maze).spec_dim()
            &&& door_max < old(maze).spec_dim()
            &&& region_uncarved(
                *old(maze),
                wall_min as int,
                wall_max as int,
                door_min as int,
                door_max as int,
                orientation,
            )
            &&& region_calls(wall_min as int, wall_max as int, door_min as int, door_max as int)
                <= usize::MAX
        },
    ensures
        match r {
            Ok(n) => {
                &&& wall_min <= wall_max && door_min <= door_max
                &&& final(maze).wf()
                &&& final(maze).symmetric()
                &&& final(maze).spec_dim() == old(maze).spec_dim()
                &&& n as int == region_calls(
                    wall_min as int,
                    wall_max as int,
                    door_min as int,
                    door_max as int,
                )
                &&& final(maze).spec_edge_count() == old(maze).spec_edge_count() + region_size(
                    wall_min as int,
                    wall_max as int,
                    door_min as int,
                    door_max as int,
                ) - 1
                &&& forall|x: int, y: int|
                    old(maze).in_bounds(x, y) && !in_region(
                        x,
                        y,
                        wall_min as int,
                        wall_max as int,
                        door_min as int,
                        door_max as int,
                        orientation,
                    ) ==> #[trigger] final(maze).mask(x, y) == old(maze).mask(x, y)
                &&& forall|a: Pos, b: Pos|
                    pos_in_region(
                        a,
                        wall_min as int,
                        wall_max as int,
                        door_min as int,
                        door_max as int,
                        orientation,
                    ) && pos_in_region(
                        b,
                        wall_min as int,
                        wall_max as int,
                        door_min as int,
                        door_max as int,
                        orientation,
                    ) ==> #[trigger] reachable(*final(maze), a, b)
            },
            Err(e) => {
                &&& (wall_min > wall_max || door_min > door_max)
                &&& *final(maze) == *old(maze)
                &&& e == (MazeError::InvalidRegion { wall_min, wall_max, door_min, door_max })
            },
        },
{
    if wall_min > wall_max || door_min > door_max {
        return Err(MazeError::InvalidRegion { wall_min, wall_max, door_min, door_max });
    }
    let mut count: usize = 0;
    recursive_region_splitting(
        maze,
        wall_min,
        wall_max,
        door_min,
        door_max,
        orientation,
        &mut count,
        rng,
    );
    Ok(count)
}

/// Generate a random perfect maze: a spanning tree over the `dim x dim`
/// grid. The top-level call splits the full grid; the result is
/// bit-symmetric, carries exactly `dim * dim - 1` carved doorways, connects
/// every pair of cells, and for `dim >= 2` leaves no cell fully closed. The
/// second component is the number of splitting steps taken, always
/// `2 * dim * dim - 1`.
pub fn generate(dim: usize, orientation: bool, rng: &mut StdRng) -> (r: (Maze, usize))
    requires
        1 <= dim,
        2 * dim * dim <= usize::MAX,
    ensures
        r.0.wf(),
        r.0.spec_dim() == dim,
        r.0.symmetric(),
        r.0.spec_edge_count() == dim * dim - 1,
        r.1 as int == 2 * dim * dim - 1,
        dim >= 2 ==> forall|x: int, y: int|
            r.0.in_bounds(x, y) ==> #[trigger] r.0.mask(x, y) != 0,
        forall|a: Pos, b: Pos|
            r.0.pos_in_bounds(a) && r.0.pos_in_bounds(b) ==> #[trigger] reachable(r.0, a, b),
        acyclic(r.0),
{
    let ghost gdim = dim as int;
    proof {
        assert(gdim * gdim >= 1 && 2 * (gdim * gdim) == 2 * gdim * gdim) by (nonlinear_arith)
            requires
                gdim >= 1,
        ;
    }
    let mut maze = Maze::new(dim);
    let mut count: usize = 0;
    let hi = dim - 1;
    proof {
        assert forall|x: int, y: int, d: Direction|
            in_region(x, y, 0, gdim - 1, 0, gdim - 1, orientation) && in_region(
                nb_x(x, d),
                nb_y(y, d),
                0,
                gdim - 1,
                0,
                gdim - 1,
                orientation,
            ) implies !(#[trigger] maze.can_go(x, y, d)) by {
            lemma_bit_zero(dir_bit(d));
        }
        assert forall|x: int, y: int, d: Direction|
            maze.in_bounds(x, y) && maze.in_bounds(nb_x(x, d), nb_y(y, d)) implies #[trigger] maze
            .can_go(x, y, d) == maze.can_go(nb_x(x, d), nb_y(y, d), opp_of(d)) by {
            lemma_bit_zero(dir_bit(d));
            lemma_bit_zero(dir_bit(opp_of(d)));
        }
        assert(maze.symmetric());
        assert(region_size(0, gdim - 1, 0, gdim - 1) == gdim * gdim);
    }
    recursive_region_splitting(&mut maze, 0, hi, 0, hi, orientation, &mut count, rng);
    proof {
        if dim >= 2 {
            lemma_region_size_pos(0, gdim - 1, 0, gdim - 1);
            assert forall|x: int, y: int| maze.in_bounds(x, y) implies #[trigger] maze.mask(x, y)
                != 0 by {
                assert(in_region(x, y, 0, gdim - 1, 0, gdim - 1, orientation));
                assert(has_door(maze, x, y));
                let d = choose|d: Direction| maze.can_go(x, y, d);
                lemma_bit_zero(dir_bit(d));
            }
        }
        assert forall|a: Pos, b: Pos|
            maze.pos_in_bounds(a) && maze.pos_in_bounds(b) implies #[trigger] reachable(
            maze,
            a,
            b,
        ) by {
            assert(pos_in_region(a, 0, gdim - 1, 0, gdim - 1, orientation));
            assert(pos_in_region(b, 0, gdim - 1, 0, gdim - 1, orientation));
        }
        assert forall|p: Seq<Pos>| is_cycle(maze, p) implies false by {
            assert forall|i: int|
                0 <= i < p.len() implies pos_in_region(
                #[trigger] p[i],
                0,
                gdim - 1,
                0,
                gdim - 1,
                orientation,
            ) by {
                assert(maze.pos_in_bounds(p[i]));
            }
        }
        assert(acyclic(maze));
    }
    (maze, count)
}

/// A step of a walk inside the split region that changes sides can only be
/// the carved doorway: every other open move either predates the split,
/// which the uncarved precondition rules out inside the region, or stays
/// inside one sub-region.
proof fn lemma_crossing_is_door(
    m_in: Maze,
    m_1: Maze,
    m_2: Maze,
    wmin: int,
    wmax: int,
    dmin: int,
    dmax: int,
    wpos: int,
    orientation: bool,
    door_a: Pos,
    door_b: Pos,
    da: Direction,
    db: Direction,
    p: Seq<Pos>,
    k: int,
)
    requires
        m_in.spec_dim() == m_1.spec_dim(),
        m_1.spec_dim() == m_2.spec_dim(),
        wmin <= wpos < wmax,
        dmin <= dmax,
        region_uncarved(m_in, wmin, wmax, dmin, dmax, orientation),
        nb_x(door_a.x as int, da) == door_b.x as int,
        nb_y(door_a.y as int, da) == door_b.y as int,
        nb_x(door_b.x as int, db) == door_a.x as int,
        nb_y(door_b.y as int, db) == door_a.y as int,
        forall|x: int, y: int, d: Direction| #[trigger]
            m_1.can_go(x, y, d) ==> m_in.can_go(x, y, d) || (x == door_a.x as int && y
                == door_a.y as int && d == da) || (x == door_b.x as int && y == door_b.y as int
                && d == db) || (in_region(x, y, wmin, wpos, dmin, dmax, orientation) && in_region(
                nb_x(x, d),
                nb_y(y, d),
                wmin,
                wpos,
                dmin,
                dmax,
                orientation,
            )),
        forall|x: int, y: int, d: Direction| #[trigger]
            m_2.can_go(x, y, d) ==> m_1.can_go(x, y, d) || (in_region(
                x,
                y,
                wpos + 1,
                wmax,
                dmin,
                dmax,
                orientation,
            ) && in_region(nb_x(x, d), nb_y(y, d), wpos + 1, wmax, dmin, dmax, orientation)),
        crate::reach::is_path(m_2, p),
        forall|i: int|
            0 <= i < p.len() ==> pos_in_region(
                #[trigger] p[i],
                wmin,
                wmax,
                dmin,
                dmax,
                orientation,
            ),
        0 <= k < p.len() - 1,
        pos_in_region(p[k], wmin, wpos, dmin, dmax, orientation) != pos_in_region(
            p[k + 1],
            wmin,
            wpos,
            dmin,
            dmax,
            orientation,
        ),
    ensures
        (p[k] == door_a && p[k + 1] == door_b) || (p[k] == door_b && p[k + 1] == door_a),
{
    assert(m_2.edge(p[k], p[k + 1]));
    let u = p[k];
    let v = p[k + 1];
    let d = choose|d: Direction| m_2.step(u, v, d);
    assert(m_2.step(u, v, d));
    assert(m_2.can_go(u.x as int, u.y as int, d));
    if m_in.can_go(u.x as int, u.y as int, d) {
        assert(in_region(u.x as int, u.y as int, wmin, wmax, dmin, dmax, orientation));
        assert(in_region(v.x as int, v.y as int, wmin, wmax, dmin, dmax, orientation));
        assert(false);
    }
    if u.x as int == door_a.x as int && u.y as int == door_a.y as int && d == da {
        assert(u == door_a && v == door_b);
    } else if u.x as int == door_b.x as int && u.y as int == door_b.y as int && d == db {
        assert(u == door_b && v == door_a);
    } else {
        // An internal move of either side keeps the walk on that side.
        assert(false);
    }
}

/// After a split is fully processed, the region holds no simple cycle: a
/// cycle inside one sub-region contradicts that sub-region's own
/// cycle-freeness, and a cycle visiting both sides would have to take the
/// single carved doorway twice, repeating a cell.
#[verifier::rlimit(100)]
proof fn lemma_split_acyclic(
    m_in: Maze,
    m_1: Maze,
    m_2: Maze,
    wmin: int,
    wmax: int,
    dmin: int,
    dmax: int,
    wpos: int,
    orientation: bool,
    door_a: Pos,
    door_b: Pos,
    da: Direction,
    db: Direction,
)
    requires
        m_in.spec_dim() == m_1.spec_dim(),
        m_1.spec_dim() == m_2.spec_dim(),
        wmin <= wpos < wmax,
        dmin <= dmax,
        region_uncarved(m_in, wmin, wmax, dmin, dmax, orientation),
        pos_in_region(door_a, wmin, wpos, dmin, dmax, orientation),
        pos_in_region(door_b, wpos + 1, wmax, dmin, dmax, orientation),
        nb_x(door_a.x as int, da) == door_b.x as int,
        nb_y(door_a.y as int, da) == door_b.y as int,
        nb_x(door_b.x as int, db) == door_a.x as int,
        nb_y(door_b.y as int, db) == door_a.y as int,
        forall|x: int, y: int, d: Direction| #[trigger]
            m_1.can_go(x, y, d) ==> m_in.can_go(x, y, d) || (x == door_a.x as int && y
                == door_a.y as int && d == da) || (x == door_b.x as int && y == door_b.y as int
                && d == db) || (in_region(x, y, wmin, wpos, dmin, dmax, orientation) && in_region(
                nb_x(x, d),
                nb_y(y, d),
                wmin,
                wpos,
                dmin,
                dmax,
                orientation,
            )),
        forall|x: int, y: int, d: Direction| #[trigger]
            m_2.can_go(x, y, d) ==> m_1.can_go(x, y, d) || (in_region(
                x,
                y,
                wpos + 1,
                wmax,
                dmin,
                dmax,
                orientation,
            ) && in_region(nb_x(x, d), nb_y(y, d), wpos + 1, wmax, dmin, dmax, orientation)),
        forall|p: Seq<Pos>|
            (forall|i: int|
                0 <= i < p.len() ==> pos_in_region(
                    #[trigger] p[i],
                    wmin,
                    wpos,
                    dmin,
                    dmax,
                    orientation,
                )) ==> !(#[trigger] is_cycle(m_1, p)),
        forall|p: Seq<Pos>|
            (forall|i: int|
                0 <= i < p.len() ==> pos_in_region(
                    #[trigger] p[i],
                    wpos + 1,
                    wmax,
                    dmin,
                    dmax,
                    orientation,
                )) ==> !(#[trigger] is_cycle(m_2, p)),
    ensures
        forall|p: Seq<Pos>|
            (forall|i: int|
                0 <= i < p.len() ==> pos_in_region(
                    #[trigger] p[i],
                    wmin,
                    wmax,
                    dmin,
                    dmax,
                    orientation,
                )) ==> !(#[trigger] is_cycle(m_2, p)),
{
    let left = |q: Pos| pos_in_region(q, wmin, wpos, dmin, dmax, orientation);
    assert forall|p: Seq<Pos>|
        (forall|i: int|
            0 <= i < p.len() ==> pos_in_region(
                #[trigger] p[i],
                wmin,
                wmax,
                dmin,
                dmax,
                orientation,
            )) && is_cycle(m_2, p) implies false by {
        let len = p.len();
        if forall|i: int|
            0 <= i < len ==> pos_in_region(#[trigger] p[i], wmin, wpos, dmin, dmax, orientation) {
            // The whole cycle lies on the left side: every step predates
            // the right side's call, so the cycle already exists in `m_1`.
            assert forall|i: int| 0 <= i < len - 1 implies #[trigger] m_1.edge(p[i], p[i + 1]) by {
                assert(m_2.edge(p[i], p[i + 1]));
                let u = p[i];
                let v = p[i + 1];
                let d = choose|d: Direction| m_2.step(u, v, d);
                assert(m_2.step(u, v, d));
                assert(m_1.can_go(u.x as int, u.y as int, d));
                assert(m_1.step(u, v, d));
            }
            assert(is_cycle(m_1, p));
            assert(false);
        } else if forall|i: int|
            0 <= i < len ==> pos_in_region(
                #[trigger] p[i],
                wpos + 1,
                wmax,
                dmin,
                dmax,
                orientation,
            ) {
            assert(is_cycle(m_2, p));
            assert(false);
        } else {
            // The cycle visits both sides, so it crosses the wall twice.
            let k0 = choose|k: int|
                0 <= k < len && !pos_in_region(#[trigger] p[k], wmin, wpos, dmin, dmax, orientation);
            let k1 = choose|k: int|
                0 <= k < len && !pos_in_region(
                    #[trigger] p[k],
                    wpos + 1,
                    wmax,
                    dmin,
                    dmax,
                    orientation,
                );
            assert(left(p[k1]));
            assert(left(p[k0]) != left(p[k1]));
            let lo: int = if k0 < k1 {
                k0
            } else {
                k1
            };
            let hi: int = if k0 < k1 {
                k1
            } else {
                k0
            };
            let i = crate::reach::lemma_find_flip(p, left, lo, hi);
            let j: int = if left(p[i + 1]) != left(p[len - 1]) {
                crate::reach::lemma_find_flip(p, left, i + 1, len - 1)
            } else {
                assert(left(p[0]) != left(p[i]));
                crate::reach::lemma_find_flip(p, left, 0, i)
            };
            assert(i != j);
            let i1: int = if i < j {
                i
            } else {
                j
            };
            let j1: int = if i < j {
                j
            } else {
                i
            };
            lemma_crossing_is_door(
                m_in, m_1, m_2, wmin, wmax, dmin, dmax, wpos, orientation, door_a, door_b, da, db,
                p, i1,
            );
            lemma_crossing_is_door(
                m_in, m_1, m_2, wmin, wmax, dmin, dmax, wpos, orientation, door_a, door_b, da, db,
                p, j1,
            );
            // Both crossing steps use the doorway's two cells; with the
            // cycle's cells pairwise distinct that forces the walk to be
            // shorter than a cycle can be.
            assert(p[i1] != p[j1]);
            if j1 > i1 + 1 {
                assert(p[i1 + 1] != p[j1]);
                assert(false);
            } else {
                assert(j1 == i1 + 1);
                if j1 + 1 < len - 1 {
                    assert(p[i1] != p[j1 + 1]);
                    assert(false);
                } else {
                    assert(j1 + 1 == len - 1);
                    assert(p[0] == p[len - 1]);
                    if i1 == 0 {
                        assert(len == 3);
                        assert(false);
                    } else {
                        assert(p[0] != p[i1]);
                        assert(false);
                    }
                }
            }
        }
    }
}

/// After a split is fully processed, the whole region is pairwise
/// connected: walks inside each sub-region come from the recursive calls,
/// and the carved doorway joins the two sides.
#[verifier::rlimit(60)]
proof fn lemma_split_connect(
    m_in: Maze,
    m_c: Maze,
    m_1: Maze,
    m_2: Maze,
    wmin: int,
    wmax: int,
    dmin: int,
    dmax: int,
    wpos: int,
    orientation: bool,
    door_a: Pos,
    door_b: Pos,
    da: Direction,
    db: Direction,
)
    requires
        m_c.spec_dim() == m_1.spec_dim(),
        m_1.spec_dim() == m_2.spec_dim(),
        wmin <= wpos < wmax,
        dmin <= dmax,
        m_c.can_go(door_a.x as int, door_a.y as int, da),
        m_c.can_go(door_b.x as int, door_b.y as int, db),
        nb_x(door_a.x as int, da) == door_b.x as int,
        nb_y(door_a.y as int, da) == door_b.y as int,
        nb_x(door_b.x as int, db) == door_a.x as int,
        nb_y(door_b.y as int, db) == door_a.y as int,
        m_2.pos_in_bounds(door_a),
        m_2.pos_in_bounds(door_b),
        pos_in_region(door_a, wmin, wpos, dmin, dmax, orientation),
        pos_in_region(door_b, wpos + 1, wmax, dmin, dmax, orientation),
        forall|x: int, y: int, d: Direction| #[trigger]
            m_c.can_go(x, y, d) ==> m_1.can_go(x, y, d),
        forall|x: int, y: int, d: Direction| #[trigger]
            m_1.can_go(x, y, d) ==> m_2.can_go(x, y, d),
        forall|a: Pos, b: Pos|
            pos_in_region(a, wmin, wpos, dmin, dmax, orientation) && pos_in_region(
                b,
                wmin,
                wpos,
                dmin,
                dmax,
                orientation,
            ) ==> #[trigger] reachable(m_1, a, b),
        forall|a: Pos, b: Pos|
            pos_in_region(a, wpos + 1, wmax, dmin, dmax, orientation) && pos_in_region(
                b,
                wpos + 1,
                wmax,
                dmin,
                dmax,
                orientation,
            ) ==> #[trigger] reachable(m_2, a, b),
    ensures
        forall|a: Pos, b: Pos|
            pos_in_region(a, wmin, wmax, dmin, dmax, orientation) && pos_in_region(
                b,
                wmin,
                wmax,
                dmin,
                dmax,
                orientation,
            ) ==> #[trigger] reachable(m_2, a, b),
{
    assert(m_2.can_go(door_a.x as int, door_a.y as int, da));
    assert(m_2.step(door_a, door_b, da));
    assert(m_2.step(door_b, door_a, db));
    lemma_reach_step(m_2, door_a, door_b);
    lemma_reach_step(m_2, door_b, door_a);
    assert forall|a: Pos, b: Pos|
        pos_in_region(a, wmin, wmax, dmin, dmax, orientation) && pos_in_region(
            b,
            wmin,
            wmax,
            dmin,
            dmax,
            orientation,
        ) implies #[trigger] reachable(m_2, a, b) by {
        let a_left = pos_in_region(a, wmin, wpos, dmin, dmax, orientation);
        let b_left = pos_in_region(b, wmin, wpos, dmin, dmax, orientation);
        if a_left && b_left {
            assert(reachable(m_1, a, b));
            lemma_reach_monotone(m_1, m_2, a, b);
        } else if a_left && !b_left {
            assert(pos_in_region(b, wpos + 1, wmax, dmin, dmax, orientation));
            assert(reachable(m_1, a, door_a));
            lemma_reach_monotone(m_1, m_2, a, door_a);
            assert(reachable(m_2, door_b, b));
            lemma_reach_trans(m_2, a, door_a, door_b);
            lemma_reach_trans(m_2, a, door_b, b);
        } else if !a_left && b_left {
            assert(pos_in_region(a, wpos + 1, wmax, dmin, dmax, orientation));
            assert(reachable(m_2, a, door_b));
            assert(reachable(m_1, door_a, b));
            lemma_reach_monotone(m_1, m_2, door_a, b);
            lemma_reach_trans(m_2, a, door_b, door_a);
            lemma_reach_trans(m_2, a, door_a, b);
        } else {
            assert(pos_in_region(a, wpos + 1, wmax, dmin, dmax, orientation));
            assert(pos_in_region(b, wpos + 1, wmax, dmin, dmax, orientation));
            assert(reachable(m_2, a, b));
        }
    }
}

} // verus!
