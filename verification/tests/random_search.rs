use klotski::board::{Board, CorruptBoard, Kind, Piece};
use klotski::cycles::hash_board;
use klotski::search::{
    advance, find_solution_path, first_goal, meets_target, randomwalk, take_step, SearchError,
    CLEANUP_PERIOD,
};
use klotski::successors::get_next_states;
use rand::rngs::StdRng;
use rand::SeedableRng;

fn board(tags: [[i32; 4]; 5]) -> Board {
    Board::from_tags(&tags).unwrap()
}

fn start() -> Board {
    board([
        [2, 4, 4, 2],
        [2, 4, 4, 2],
        [2, 3, 3, 2],
        [2, 1, 1, 2],
        [1, 0, 0, 1],
    ])
}

fn square_at(row: usize, col: usize) -> Vec<Piece> {
    vec![Piece { kind: Kind::Square, row, col }]
}

#[test]
fn a_board_meets_the_target_by_any_of_its_pieces() {
    let b = start();
    assert_eq!(meets_target(&b, &square_at(0, 1)), Ok(true));
    assert_eq!(meets_target(&b, &square_at(3, 1)), Ok(false));
    assert_eq!(meets_target(&b, &square_at(0, 2)), Ok(false));
    assert_eq!(meets_target(&b, &Vec::new()), Ok(false));
    let either = vec![
        Piece { kind: Kind::Single, row: 0, col: 0 },
        Piece { kind: Kind::Single, row: 4, col: 3 },
    ];
    assert_eq!(meets_target(&b, &either), Ok(true));
    let wrong_shape = vec![Piece { kind: Kind::VerticalPair, row: 4, col: 3 }];
    assert_eq!(meets_target(&b, &wrong_shape), Ok(false));
    let empty_cell = vec![Piece { kind: Kind::Empty, row: 4, col: 1 }];
    assert_eq!(meets_target(&b, &empty_cell), Ok(false));
}

#[test]
fn a_corrupt_board_meets_nothing() {
    let mut tags = [[0; 4]; 5];
    tags[4][0] = 2;
    assert_eq!(meets_target(&board(tags), &square_at(0, 0)), Err(CorruptBoard));
}

#[test]
fn the_first_board_to_meet_the_target_is_found() {
    let states = get_next_states(&start()).unwrap();
    let single = |row, col| vec![Piece { kind: Kind::Single, row, col }];
    assert_eq!(first_goal(&states, &single(4, 1)), Ok(Some(0)));
    assert_eq!(first_goal(&states, &single(4, 2)), Ok(Some(2)));
    assert_eq!(first_goal(&states, &single(3, 1)), Ok(Some(1)));
    assert_eq!(first_goal(&states, &single(0, 0)), Ok(None));
    assert_eq!(first_goal(&Vec::new(), &single(4, 1)), Ok(None));
}

#[test]
fn a_corrupt_board_before_the_goal_stops_the_scan() {
    let mut tags = [[0; 4]; 5];
    tags[4][0] = 2;
    let broken = board(tags);
    let goal = vec![Piece { kind: Kind::Square, row: 0, col: 1 }];
    assert_eq!(first_goal(&vec![broken, start()], &goal), Err(CorruptBoard));
    assert_eq!(first_goal(&vec![start(), broken], &goal), Ok(Some(0)));
}

#[test]
fn a_step_leads_to_a_successor() {
    let b = start();
    let successors = get_next_states(&b).unwrap();
    let mut seen = vec![false; successors.len()];
    let mut rng = StdRng::seed_from_u64(3);
    for _ in 0..200 {
        let next = take_step(&b, &mut rng).unwrap();
        let at = successors.iter().position(|s| *s == next).unwrap();
        seen[at] = true;
    }
    assert_eq!(seen, vec![true; 4]);
}

#[test]
fn no_step_from_a_dead_end() {
    let mut rng = StdRng::seed_from_u64(3);
    assert_eq!(take_step(&board([[1; 4]; 5]), &mut rng), Err(SearchError::DeadEnd));
    assert_eq!(take_step(&Board::empty(), &mut rng), Err(SearchError::DeadEnd));
}

#[test]
fn no_step_from_a_corrupt_board() {
    let mut tags = [[0; 4]; 5];
    tags[2][1] = 2;
    let mut rng = StdRng::seed_from_u64(3);
    assert_eq!(take_step(&board(tags), &mut rng), Err(SearchError::CorruptBoard));
}

#[test]
fn a_random_walk_goes_from_successor_to_successor() {
    let mut rng = StdRng::seed_from_u64(5);
    let walk = randomwalk(start(), 300, &mut rng).unwrap();
    assert_eq!(walk.len(), 301);
    assert_eq!(walk[0], start());
    for i in 1..walk.len() {
        assert!(get_next_states(&walk[i - 1]).unwrap().contains(&walk[i]));
    }
}

#[test]
fn a_random_walk_of_no_steps_stays() {
    let mut rng = StdRng::seed_from_u64(5);
    assert_eq!(randomwalk(start(), 0, &mut rng), Ok(vec![start()]));
    assert_eq!(randomwalk(board([[1; 4]; 5]), 0, &mut rng), Ok(vec![board([[1; 4]; 5])]));
}

#[test]
fn a_random_walk_ends_at_a_dead_end() {
    let mut rng = StdRng::seed_from_u64(5);
    assert_eq!(randomwalk(board([[1; 4]; 5]), 1, &mut rng), Err(SearchError::DeadEnd));
}

#[test]
fn the_same_seed_gives_the_same_walk() {
    let mut first = StdRng::seed_from_u64(21);
    let mut second = StdRng::seed_from_u64(21);
    assert_eq!(randomwalk(start(), 100, &mut first), randomwalk(start(), 100, &mut second));
}

#[test]
fn a_full_search_from_the_start_board() {
    let mut rng = StdRng::seed_from_u64(0);
    let (trajectory, visited) =
        find_solution_path(start(), &square_at(3, 1), 1_000_000, &mut rng).unwrap();
    let last = trajectory.last().unwrap();
    for (r, c) in [(3, 1), (3, 2), (4, 1), (4, 2)] {
        assert_eq!(last.get(r, c), Kind::Square);
    }
    assert_eq!(meets_target(last, &square_at(3, 1)), Ok(true));
    assert!(visited >= trajectory.len());
    assert!(visited > CLEANUP_PERIOD);
    // The path starts at the start board and goes by single moves.
    assert_eq!(trajectory[0], start());
    for i in 1..trajectory.len() {
        assert!(get_next_states(&trajectory[i - 1]).unwrap().contains(&trajectory[i]));
    }
    // No board of it meets the target before the last, and none comes twice.
    for i in 0..trajectory.len() {
        if i + 1 < trajectory.len() {
            assert_eq!(meets_target(&trajectory[i], &square_at(3, 1)), Ok(false));
        }
        for j in 0..i {
            assert_ne!(hash_board(&trajectory[i]), hash_board(&trajectory[j]));
        }
    }
}

#[test]
fn a_goal_one_move_away_is_found_at_once() {
    let target = vec![Piece { kind: Kind::Single, row: 4, col: 2 }];
    for seed in 0..5 {
        let mut rng = StdRng::seed_from_u64(seed);
        let found = find_solution_path(start(), &target, 0, &mut rng);
        let goal = board([
            [2, 4, 4, 2],
            [2, 4, 4, 2],
            [2, 3, 3, 2],
            [2, 1, 0, 2],
            [1, 0, 1, 1],
        ]);
        assert_eq!(found, Ok((vec![start(), goal], 2)));
    }
}

#[test]
fn the_start_board_itself_is_not_tested() {
    let mut rng = StdRng::seed_from_u64(1);
    let b = board([
        [1, 0, 0, 0],
        [0, 0, 0, 0],
        [0, 0, 0, 0],
        [0, 0, 0, 0],
        [0, 0, 0, 0],
    ]);
    let target = vec![Piece { kind: Kind::Single, row: 0, col: 0 }];
    let (trajectory, visited) = find_solution_path(b, &target, 1000, &mut rng).unwrap();
    assert!(visited >= 3);
    // The walk came back to where it started: the loop is cut out.
    assert_eq!(trajectory, vec![b]);
}

#[test]
fn a_search_from_a_dead_end_reports_it() {
    let mut rng = StdRng::seed_from_u64(0);
    let full = board([[1; 4]; 5]);
    assert_eq!(
        find_solution_path(full, &square_at(3, 1), 1000, &mut rng),
        Err(SearchError::DeadEnd)
    );
}

#[test]
fn a_search_out_of_steps_reports_it() {
    let mut rng = StdRng::seed_from_u64(0);
    // No square is ever anchored in the last column.
    assert_eq!(
        find_solution_path(start(), &square_at(0, 3), 500, &mut rng),
        Err(SearchError::Exhausted)
    );
    assert_eq!(
        find_solution_path(start(), &square_at(3, 1), 0, &mut rng),
        Err(SearchError::Exhausted)
    );
}

#[test]
fn a_search_from_a_corrupt_board_reports_it() {
    let mut rng = StdRng::seed_from_u64(0);
    let mut tags = [[0; 4]; 5];
    tags[2][1] = 2;
    assert_eq!(
        find_solution_path(board(tags), &square_at(3, 1), 1000, &mut rng),
        Err(SearchError::CorruptBoard)
    );
    // Here the pieces next to the empty cell resolve, so the board has
    // successors; but the square is broken, on them as on the board itself.
    let b = board([
        [4, 4, 1, 1],
        [4, 1, 1, 1],
        [1, 1, 1, 1],
        [1, 1, 1, 1],
        [1, 1, 1, 0],
    ]);
    assert_eq!(get_next_states(&b).unwrap().len(), 2);
    assert_eq!(
        find_solution_path(b, &square_at(3, 1), 1000, &mut rng),
        Err(SearchError::CorruptBoard)
    );
}

#[test]
fn moving_on_appends_the_board_drawn_and_counts_it() {
    let candidates = get_next_states(&start()).unwrap();
    let (path, visited) = advance(vec![start()], 1, &candidates, 2);
    assert_eq!(visited, 2);
    assert_eq!(path, vec![start(), candidates[2]]);
    let (path, visited) = advance(path, visited, &candidates, 0);
    assert_eq!(visited, 3);
    assert_eq!(path, vec![start(), candidates[2], candidates[0]]);
}

#[test]
fn moving_on_removes_the_cycles_at_every_period() {
    let aside = get_next_states(&start()).unwrap()[0];
    let held = vec![start(), aside];
    let back = vec![start()];
    let (path, visited) = advance(held.clone(), CLEANUP_PERIOD - 1, &back, 0);
    assert_eq!(visited, CLEANUP_PERIOD);
    assert_eq!(path, vec![start()]);
    let (path, visited) = advance(held.clone(), 3 * CLEANUP_PERIOD - 1, &back, 0);
    assert_eq!(visited, 3 * CLEANUP_PERIOD);
    assert_eq!(path, vec![start()]);
    let (path, visited) = advance(held.clone(), CLEANUP_PERIOD, &back, 0);
    assert_eq!(visited, CLEANUP_PERIOD + 1);
    assert_eq!(path, vec![start(), aside, start()]);
}
