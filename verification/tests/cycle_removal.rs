use klotski::board::{Board, Kind};
use klotski::cycles::{hash_board, hash_states_seq, remove_cycles};

/// A board with one single, at the cell of the given number.
fn marked(cell: usize) -> Board {
    let mut board = Board::empty();
    board.put(cell / 4, cell % 4, Kind::Single);
    board
}

fn path(cells: &[usize]) -> Vec<Board> {
    cells.iter().map(|&c| marked(c)).collect()
}

#[test]
fn equal_boards_hash_alike() {
    let a = Board::from_tags(&[
        [2, 4, 4, 2],
        [2, 4, 4, 2],
        [2, 3, 3, 2],
        [2, 1, 1, 2],
        [1, 0, 0, 1],
    ])
    .unwrap();
    let mut b = a;
    assert_eq!(hash_board(&a), hash_board(&b));
    b.put(4, 1, Kind::Single);
    b.put(3, 1, Kind::Empty);
    assert_ne!(hash_board(&a), hash_board(&b));
    b.put(3, 1, Kind::Single);
    b.put(4, 1, Kind::Empty);
    assert_eq!(hash_board(&a), hash_board(&b));
}

#[test]
fn boards_with_one_single_hash_differently() {
    let hashed = hash_states_seq(&path(&[0, 1, 2, 3, 4, 5, 6, 7, 8, 9]));
    for i in 0..hashed.len() {
        for j in 0..i {
            assert_ne!(hashed[i], hashed[j]);
        }
    }
}

#[test]
fn a_trajectory_is_hashed_board_by_board() {
    let states = path(&[3, 1, 3]);
    let hashed = hash_states_seq(&states);
    assert_eq!(hashed, vec![hash_board(&states[0]), hash_board(&states[1]), hash_board(&states[2])]);
    assert_eq!(hashed[0], hashed[2]);
    assert_eq!(hash_states_seq(&Vec::new()), Vec::<u64>::new());
}

#[test]
fn a_path_without_repeats_is_left_alone() {
    assert_eq!(remove_cycles(path(&[0, 1, 2, 3])), path(&[0, 1, 2, 3]));
    assert_eq!(remove_cycles(path(&[7])), path(&[7]));
    assert_eq!(remove_cycles(Vec::new()), Vec::<Board>::new());
}

#[test]
fn a_loop_collapses_to_one_occurrence() {
    assert_eq!(remove_cycles(path(&[0, 1, 0])), path(&[0]));
    assert_eq!(remove_cycles(path(&[0, 1, 2, 1, 3])), path(&[0, 1, 3]));
    assert_eq!(remove_cycles(path(&[0, 1, 1, 2])), path(&[0, 1, 2]));
    assert_eq!(remove_cycles(path(&[5, 5, 5, 5])), path(&[5]));
}

#[test]
fn repeats_inside_a_loop_go_with_it() {
    assert_eq!(remove_cycles(path(&[0, 1, 2, 1, 3, 1, 4])), path(&[0, 1, 4]));
    assert_eq!(remove_cycles(path(&[0, 1, 2, 3, 2, 1, 0, 4])), path(&[0, 4]));
}

#[test]
fn loops_are_cut_in_the_order_of_first_occurrence() {
    // Once the loop on board 0 is gone the path is 0 2 1 2 3 1. Board 1 was
    // met before board 2, so its loop is cut first, and board 3 goes with it;
    // cutting the loop on board 2 first would have kept board 3.
    assert_eq!(remove_cycles(path(&[0, 1, 2, 0, 2, 1, 2, 3, 1])), path(&[0, 2, 1]));
    assert_eq!(remove_cycles(path(&[1, 2, 1, 3, 2, 4])), path(&[1, 3, 2, 4]));
}

#[test]
fn the_last_board_always_stays() {
    for cells in [vec![0, 1, 2, 0], vec![0, 1, 0, 1], vec![2, 2], vec![0, 1, 2, 3, 1]] {
        let cleaned = remove_cycles(path(&cells));
        assert_eq!(cleaned.last(), Some(&marked(*cells.last().unwrap())));
        assert_eq!(hash_board(&cleaned[0]), hash_board(&marked(cells[0])));
    }
}

#[test]
fn removing_cycles_twice_changes_nothing_more() {
    let trajectories = [
        vec![0, 1, 2, 0, 2, 1, 2, 3, 1],
        vec![0, 1, 0, 2, 0, 3, 4, 3],
        vec![4, 3, 2, 1, 2, 3, 4, 5, 6, 5],
        vec![0, 1, 2, 3],
        vec![],
    ];
    for cells in trajectories {
        let once = remove_cycles(path(&cells));
        let twice = remove_cycles(once.clone());
        assert_eq!(once, twice);
        let hashed = hash_states_seq(&once);
        for i in 0..hashed.len() {
            for j in 0..i {
                assert_ne!(hashed[i], hashed[j]);
            }
        }
        for i in 1..once.len() {
            assert_ne!(once[i - 1], once[i]);
        }
    }
}
