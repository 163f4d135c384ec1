use klotski::board::{Board, CorruptBoard};
use klotski::successors::get_next_states;

fn board(tags: [[i32; 4]; 5]) -> Board {
    Board::from_tags(&tags).unwrap()
}

fn tags_of(states: &[Board]) -> Vec<[[i32; 4]; 5]> {
    states.iter().map(|b| b.tags()).collect()
}

#[test]
fn successors_of_the_start_board() {
    let b = board([
        [2, 4, 4, 2],
        [2, 4, 4, 2],
        [2, 3, 3, 2],
        [2, 1, 1, 2],
        [1, 0, 0, 1],
    ]);
    let states = get_next_states(&b).unwrap();
    assert_eq!(
        tags_of(&states),
        vec![
            [[2, 4, 4, 2], [2, 4, 4, 2], [2, 3, 3, 2], [2, 0, 1, 2], [1, 1, 0, 1]],
            [[2, 4, 4, 2], [2, 4, 4, 2], [2, 3, 3, 2], [2, 1, 1, 2], [0, 1, 0, 1]],
            [[2, 4, 4, 2], [2, 4, 4, 2], [2, 3, 3, 2], [2, 1, 0, 2], [1, 0, 1, 1]],
            [[2, 4, 4, 2], [2, 4, 4, 2], [2, 3, 3, 2], [2, 1, 1, 2], [1, 0, 1, 0]],
        ]
    );
}

#[test]
fn a_piece_next_to_two_empty_cells_is_moved_once() {
    let b = board([
        [2, 4, 4, 2],
        [2, 4, 4, 2],
        [2, 1, 1, 2],
        [2, 3, 3, 2],
        [1, 0, 0, 1],
    ]);
    let states = get_next_states(&b).unwrap();
    assert_eq!(
        tags_of(&states),
        vec![
            [[2, 4, 4, 2], [2, 4, 4, 2], [2, 1, 1, 2], [2, 0, 0, 2], [1, 3, 3, 1]],
            [[2, 4, 4, 2], [2, 4, 4, 2], [2, 1, 1, 2], [2, 3, 3, 2], [0, 1, 0, 1]],
            [[2, 4, 4, 2], [2, 4, 4, 2], [2, 1, 1, 2], [2, 3, 3, 2], [1, 0, 1, 0]],
        ]
    );
}

#[test]
fn a_piece_gives_one_board_for_each_legal_direction() {
    let b = board([
        [1, 1, 1, 1],
        [1, 0, 1, 1],
        [0, 1, 0, 1],
        [1, 0, 1, 1],
        [1, 1, 1, 1],
    ]);
    let states = get_next_states(&b).unwrap();
    // The single in the middle is met first from the cell above it, and can go
    // all four ways.
    let from_middle = [
        [[1, 1, 1, 1], [1, 1, 1, 1], [0, 0, 0, 1], [1, 0, 1, 1], [1, 1, 1, 1]],
        [[1, 1, 1, 1], [1, 0, 1, 1], [0, 0, 0, 1], [1, 1, 1, 1], [1, 1, 1, 1]],
        [[1, 1, 1, 1], [1, 0, 1, 1], [1, 0, 0, 1], [1, 0, 1, 1], [1, 1, 1, 1]],
        [[1, 1, 1, 1], [1, 0, 1, 1], [0, 0, 1, 1], [1, 0, 1, 1], [1, 1, 1, 1]],
    ];
    let all = tags_of(&states);
    let at = all.iter().position(|t| *t == from_middle[0]).unwrap();
    assert_eq!(all[at..at + 4], from_middle);
    assert_eq!(at, 1);
    assert_eq!(all.len(), 15);
}

#[test]
fn pieces_around_an_empty_cell_come_below_left_right() {
    let b = board([
        [1, 0, 1, 1],
        [1, 1, 1, 1],
        [1, 1, 1, 1],
        [1, 1, 1, 1],
        [1, 1, 1, 1],
    ]);
    let all = tags_of(&get_next_states(&b).unwrap());
    assert_eq!(
        all,
        vec![
            [[1, 1, 1, 1], [1, 0, 1, 1], [1, 1, 1, 1], [1, 1, 1, 1], [1, 1, 1, 1]],
            [[0, 1, 1, 1], [1, 1, 1, 1], [1, 1, 1, 1], [1, 1, 1, 1], [1, 1, 1, 1]],
            [[1, 1, 0, 1], [1, 1, 1, 1], [1, 1, 1, 1], [1, 1, 1, 1], [1, 1, 1, 1]],
        ]
    );
}

#[test]
fn a_full_board_is_a_dead_end() {
    let b = board([[1; 4]; 5]);
    assert_eq!(get_next_states(&b), Ok(vec![]));
    let b = board([
        [2, 4, 4, 2],
        [2, 4, 4, 2],
        [2, 3, 3, 2],
        [2, 1, 1, 2],
        [1, 3, 3, 1],
    ]);
    assert_eq!(get_next_states(&b), Ok(vec![]));
}

#[test]
fn an_empty_board_has_no_successor() {
    assert_eq!(get_next_states(&Board::empty()), Ok(vec![]));
}

#[test]
fn successors_are_the_same_when_asked_twice() {
    let b = board([
        [2, 4, 4, 2],
        [2, 4, 4, 2],
        [0, 3, 3, 2],
        [2, 1, 1, 2],
        [2, 1, 0, 1],
    ]);
    let first = get_next_states(&b).unwrap();
    let second = get_next_states(&b).unwrap();
    assert_eq!(first, second);
    assert!(!first.is_empty());
}

#[test]
fn a_broken_piece_next_to_an_empty_cell_is_reported() {
    let mut tags = [[0; 4]; 5];
    tags[2][1] = 2;
    assert_eq!(get_next_states(&board(tags)), Err(CorruptBoard));
    let b = board([
        [4, 4, 0, 0],
        [4, 1, 0, 0],
        [0, 0, 0, 0],
        [0, 0, 0, 0],
        [0, 0, 0, 0],
    ]);
    assert_eq!(get_next_states(&b), Err(CorruptBoard));
}
