use maze_core::backtrack::conduct_backtracking;
use maze_core::errors::MazeError;
use maze_core::generate::{generate, split_region};
use maze_core::maze::Maze;
use maze_core::moves::{get_possible_moves, refine_moves_based_on_far_region};
use maze_core::pos::{classify_step, Direction, Pos};
use maze_core::solve::{count_nb_of_true, solve_maze};
use rand::rngs::StdRng;
use rand::SeedableRng;

fn seeded(seed: u64) -> StdRng {
    StdRng::seed_from_u64(seed)
}

#[test]
fn generated_grid_has_dim_squared_minus_one_edges() {
    for dim in 2..=8usize {
        for seed in [1u64, 42, 893] {
            let mut rng = seeded(seed);
            let (maze, _) = generate(dim, true, &mut rng);
            assert_eq!(maze.count_carved_edges(), dim * dim - 1);
        }
    }
}

#[test]
fn generation_reports_fixed_iteration_count() {
    for dim in 1..=6usize {
        let mut rng = seeded(7);
        let (_, iterations) = generate(dim, false, &mut rng);
        assert_eq!(iterations, 2 * dim * dim - 1);
    }
}

#[test]
fn generated_grid_is_bit_symmetric() {
    let dim = 6usize;
    for seed in [3u64, 893] {
        for orientation in [true, false] {
            let mut rng = seeded(seed);
            let (maze, _) = generate(dim, orientation, &mut rng);
            for y in 0..dim {
                for x in 0..dim {
                    let m = maze.mask_at(x, y);
                    if x + 1 < dim {
                        let right = maze.mask_at(x + 1, y);
                        assert_eq!(m & 1 != 0, right & 2 != 0, "horizontal pair ({x},{y})");
                    }
                    if y + 1 < dim {
                        let below = maze.mask_at(x, y + 1);
                        assert_eq!(m & 4 != 0, below & 8 != 0, "vertical pair ({x},{y})");
                    }
                }
            }
        }
    }
}

#[test]
fn generated_grid_has_no_closed_cell_and_no_boundary_leak() {
    let dim = 5usize;
    let mut rng = seeded(11);
    let (maze, _) = generate(dim, true, &mut rng);
    for y in 0..dim {
        for x in 0..dim {
            let m = maze.mask_at(x, y);
            assert!(m >= 1 && m <= 15);
            if x == 0 {
                assert_eq!(m & 2, 0, "leftmost column must not open left");
            }
            if x == dim - 1 {
                assert_eq!(m & 1, 0, "rightmost column must not open right");
            }
            if y == 0 {
                assert_eq!(m & 8, 0, "top row must not open up");
            }
            if y == dim - 1 {
                assert_eq!(m & 4, 0, "bottom row must not open down");
            }
        }
    }
}

#[test]
fn decode_reencode_round_trip_reproduces_mask() {
    let dim = 5usize;
    let mut rng = seeded(29);
    let (maze, _) = generate(dim, true, &mut rng);
    for y in 0..dim {
        for x in 0..dim {
            let mask = maze.mask_at(x, y);
            let moves = get_possible_moves(&maze, Pos { x, y }).unwrap();
            let mut reencoded: u8 = 0;
            for q in &moves {
                if q.y == y && q.x == x + 1 {
                    reencoded |= 1;
                } else if q.y == y && q.x + 1 == x {
                    reencoded |= 2;
                } else if q.x == x && q.y == y + 1 {
                    reencoded |= 4;
                } else if q.x == x && q.y + 1 == y {
                    reencoded |= 8;
                } else {
                    panic!("decoded neighbour is not adjacent");
                }
            }
            assert_eq!(reencoded, mask);
        }
    }
}

#[test]
fn decode_of_closed_cell_reports_invalid_mask() {
    let maze = Maze::new(2);
    let r = get_possible_moves(&maze, Pos { x: 1, y: 0 });
    assert_eq!(r, Err(MazeError::InvalidMask { x: 1, y: 0, mask: 0 }));
}

#[test]
fn decode_order_is_left_right_up_down() {
    // Centre cell of a 3x3 grid fully open to all four neighbours.
    let mut maze = Maze::new(3);
    let mut rng = seeded(5);
    // Carve the full grid: the centre of some generated 3x3 maze may not be
    // fully open, so split a handmade cross instead via region splits of
    // single rows and columns.
    let _ = split_region(&mut maze, 0, 2, 1, 1, true, &mut rng).unwrap();
    let _ = split_region(&mut maze, 0, 2, 1, 1, false, &mut rng).unwrap();
    let moves = get_possible_moves(&maze, Pos { x: 1, y: 1 }).unwrap();
    assert_eq!(
        moves,
        vec![
            Pos { x: 0, y: 1 },
            Pos { x: 2, y: 1 },
            Pos { x: 1, y: 0 },
            Pos { x: 1, y: 2 },
        ]
    );
}

#[test]
fn refine_moves_keeps_only_far_cells_in_order() {
    let dim = 3usize;
    let mut far = vec![false; dim * dim];
    far[0 * dim + 1] = true; // (1, 0)
    far[2 * dim + 1] = true; // (1, 2)
    let candidates = vec![
        Pos { x: 0, y: 1 },
        Pos { x: 1, y: 0 },
        Pos { x: 2, y: 1 },
        Pos { x: 1, y: 2 },
    ];
    let refined = refine_moves_based_on_far_region(candidates, &far, dim);
    assert_eq!(refined, vec![Pos { x: 1, y: 0 }, Pos { x: 1, y: 2 }]);
}

#[test]
fn solver_iteration_count_equals_alive_cells_and_is_bounded() {
    let dim = 7usize;
    let mut rng = seeded(893);
    let (maze, _) = generate(dim, true, &mut rng);
    let entrance = Pos { x: 0, y: 3 };
    let goal = Pos { x: dim - 1, y: 2 };
    let outcome = solve_maze(&maze, entrance, goal, &mut rng).unwrap();
    assert_eq!(outcome.iterations, count_nb_of_true(&outcome.alive));
    assert!(outcome.iterations >= 1);
    assert!(outcome.iterations <= dim * dim);
    // Every cell is in exactly one of the three regions.
    for i in 0..dim * dim {
        let flags = [outcome.alive[i], outcome.narrow[i], outcome.far[i]];
        assert_eq!(flags.iter().filter(|f| **f).count(), 1, "cell {i}");
    }
    assert_eq!(
        count_nb_of_true(&outcome.alive)
            + count_nb_of_true(&outcome.narrow)
            + count_nb_of_true(&outcome.far),
        dim * dim
    );
}

#[test]
fn reconstructed_path_is_independent_of_solver_seed() {
    let dim = 7usize;
    let mut gen_rng = seeded(893);
    let (maze, _) = generate(dim, true, &mut gen_rng);
    let entrance = Pos { x: 0, y: 0 };
    let goal = Pos { x: dim - 1, y: dim - 1 };
    let mut reference: Option<Vec<Pos>> = None;
    for solver_seed in [0u64, 1, 2, 17, 100] {
        let mut rng = seeded(solver_seed);
        let outcome = solve_maze(&maze, entrance, goal, &mut rng).unwrap();
        let (path, _) = conduct_backtracking(&outcome.pred, dim, entrance, goal).unwrap();
        match &reference {
            None => reference = Some(path),
            Some(p) => assert_eq!(&path, p, "seed {solver_seed} changed the path"),
        }
    }
}

#[test]
fn single_cell_maze_solves_in_one_iteration() {
    let mut rng = seeded(1);
    let (maze, _) = generate(1, true, &mut rng);
    assert_eq!(maze.count_carved_edges(), 0);
    let origin = Pos { x: 0, y: 0 };
    let outcome = solve_maze(&maze, origin, origin, &mut rng).unwrap();
    assert_eq!(outcome.iterations, 1);
    let (path, dirs) = conduct_backtracking(&outcome.pred, 1, origin, origin).unwrap();
    assert_eq!(path, vec![origin]);
    assert!(dirs.is_empty());
}

#[test]
fn two_by_two_maze_has_three_edges_and_a_three_cell_path() {
    let dim = 2usize;
    for seed in [0u64, 1, 2, 3, 4] {
        let mut rng = seeded(seed);
        let (maze, _) = generate(dim, true, &mut rng);
        assert_eq!(maze.count_carved_edges(), 3);
        let entrance = Pos { x: 0, y: 0 };
        let goal = Pos { x: 1, y: 1 };
        let outcome = solve_maze(&maze, entrance, goal, &mut rng).unwrap();
        let (path, dirs) = conduct_backtracking(&outcome.pred, dim, entrance, goal).unwrap();
        assert_eq!(path.len(), 3);
        assert_eq!(dirs.len(), 2);
        assert_eq!(path[0], entrance);
        assert_eq!(path[2], goal);
        // The middle cell is one of the two corners adjacent to both ends.
        assert!(path[1] == Pos { x: 1, y: 0 } || path[1] == Pos { x: 0, y: 1 });
        for i in 0..2 {
            assert!(classify_step(path[i], path[i + 1]).is_some());
        }
    }
}

#[test]
fn same_seed_generates_identical_grids() {
    for dim in [1usize, 2, 5, 8] {
        for orientation in [true, false] {
            let mut rng1 = seeded(893);
            let mut rng2 = seeded(893);
            let (m1, i1) = generate(dim, orientation, &mut rng1);
            let (m2, i2) = generate(dim, orientation, &mut rng2);
            assert_eq!(i1, i2);
            for y in 0..dim {
                for x in 0..dim {
                    assert_eq!(m1.mask_at(x, y), m2.mask_at(x, y));
                }
            }
        }
    }
}

#[test]
fn every_cell_is_reachable_from_every_entrance() {
    let dim = 4usize;
    let mut rng = seeded(17);
    let (maze, _) = generate(dim, false, &mut rng);
    let entrance = Pos { x: 2, y: 0 };
    for y in 0..dim {
        for x in 0..dim {
            let mut solver_rng = seeded(99);
            let outcome = solve_maze(&maze, entrance, Pos { x, y }, &mut solver_rng).unwrap();
            let (path, _) =
                conduct_backtracking(&outcome.pred, dim, entrance, Pos { x, y }).unwrap();
            assert_eq!(path[0], entrance);
            assert_eq!(*path.last().unwrap(), Pos { x, y });
        }
    }
}

#[test]
fn inverted_region_bounds_report_invalid_region() {
    let mut maze = Maze::new(3);
    let mut rng = seeded(0);
    let r = split_region(&mut maze, 2, 1, 0, 2, true, &mut rng);
    assert_eq!(
        r,
        Err(MazeError::InvalidRegion { wall_min: 2, wall_max: 1, door_min: 0, door_max: 2 })
    );
    let r2 = split_region(&mut maze, 0, 2, 2, 0, true, &mut rng);
    assert_eq!(
        r2,
        Err(MazeError::InvalidRegion { wall_min: 0, wall_max: 2, door_min: 2, door_max: 0 })
    );
}

#[test]
fn disconnected_goal_reports_empty_narrow_band() {
    // Carve only the top row of a 3x3 grid: the bottom rows stay isolated.
    let mut maze = Maze::new(3);
    let mut rng = seeded(4);
    let _ = split_region(&mut maze, 0, 2, 0, 0, true, &mut rng).unwrap();
    let outcome = solve_maze(&maze, Pos { x: 0, y: 0 }, Pos { x: 2, y: 2 }, &mut rng);
    assert_eq!(outcome.err(), Some(MazeError::EmptyNarrowBand));
}

#[test]
fn closed_entrance_reports_invalid_mask() {
    let maze = Maze::new(2);
    let mut rng = seeded(8);
    let outcome = solve_maze(&maze, Pos { x: 0, y: 0 }, Pos { x: 1, y: 1 }, &mut rng);
    assert_eq!(outcome.err(), Some(MazeError::InvalidMask { x: 0, y: 0, mask: 0 }));
}

#[test]
fn backtracking_follows_recorded_predecessors() {
    let dim = 2usize;
    let entrance = Pos { x: 0, y: 0 };
    let goal = Pos { x: 1, y: 1 };
    // (0,0) -> (1,0) -> (1,1), recorded backwards.
    let mut pred: Vec<Option<Pos>> = vec![None; dim * dim];
    pred[0 * dim + 1] = Some(Pos { x: 0, y: 0 }); // (1,0) discovered from (0,0)
    pred[1 * dim + 1] = Some(Pos { x: 1, y: 0 }); // (1,1) discovered from (1,0)
    let (path, dirs) = conduct_backtracking(&pred, dim, entrance, goal).unwrap();
    assert_eq!(
        path,
        vec![Pos { x: 0, y: 0 }, Pos { x: 1, y: 0 }, Pos { x: 1, y: 1 }]
    );
    assert_eq!(dirs, vec![Direction::L2R, Direction::U2D]);
}

#[test]
fn missing_predecessor_reports_impossible_path() {
    let dim = 2usize;
    let pred: Vec<Option<Pos>> = vec![None; dim * dim];
    let r = conduct_backtracking(&pred, dim, Pos { x: 0, y: 0 }, Pos { x: 1, y: 1 });
    assert_eq!(r, Err(MazeError::ImpossiblePath { x: 1, y: 1 }));
}

#[test]
fn non_unit_predecessor_step_reports_impossible_path() {
    let dim = 3usize;
    let mut pred: Vec<Option<Pos>> = vec![None; dim * dim];
    // A diagonal jump is not a unit step along one axis.
    pred[2 * dim + 2] = Some(Pos { x: 0, y: 0 });
    let r = conduct_backtracking(&pred, dim, Pos { x: 0, y: 0 }, Pos { x: 2, y: 2 });
    assert!(matches!(r, Err(MazeError::ImpossiblePath { .. })));
}

#[test]
fn looping_predecessors_report_impossible_path() {
    let dim = 2usize;
    let mut pred: Vec<Option<Pos>> = vec![None; dim * dim];
    // (1,1) and (1,0) point at each other and never reach the entrance.
    pred[1 * dim + 1] = Some(Pos { x: 1, y: 0 });
    pred[0 * dim + 1] = Some(Pos { x: 1, y: 1 });
    let r = conduct_backtracking(&pred, dim, Pos { x: 0, y: 0 }, Pos { x: 1, y: 1 });
    assert!(matches!(r, Err(MazeError::ImpossiblePath { .. })));
}

#[test]
fn classify_step_names_each_unit_direction() {
    let c = Pos { x: 2, y: 2 };
    assert_eq!(classify_step(c, Pos { x: 3, y: 2 }), Some(Direction::L2R));
    assert_eq!(classify_step(c, Pos { x: 1, y: 2 }), Some(Direction::R2L));
    assert_eq!(classify_step(c, Pos { x: 2, y: 3 }), Some(Direction::U2D));
    assert_eq!(classify_step(c, Pos { x: 2, y: 1 }), Some(Direction::D2U));
    assert_eq!(classify_step(c, Pos { x: 4, y: 2 }), None);
    assert_eq!(classify_step(c, Pos { x: 3, y: 3 }), None);
    assert_eq!(classify_step(c, c), None);
}

#[test]
fn count_nb_of_true_counts_set_flags() {
    assert_eq!(count_nb_of_true(&vec![]), 0);
    assert_eq!(count_nb_of_true(&vec![false, false]), 0);
    assert_eq!(count_nb_of_true(&vec![true, false, true, true]), 3);
}

#[test]
fn split_region_carves_one_door_per_split() {
    // Splitting a single 3-cell row carves exactly two doorways.
    let mut maze = Maze::new(3);
    let mut rng = seeded(21);
    let steps = split_region(&mut maze, 0, 2, 1, 1, true, &mut rng).unwrap();
    assert_eq!(maze.count_carved_edges(), 2);
    assert_eq!(steps, 5);
    // The doors open along the row y = 1 only.
    for y in [0usize, 2] {
        for x in 0..3 {
            assert_eq!(maze.mask_at(x, y), 0);
        }
    }
}
