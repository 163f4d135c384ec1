use klotski::board::{Board, CorruptBoard, Kind, Piece};
use klotski::pieces::{
    get_board_piece_at_ij, get_board_pieces_of_type, get_board_tuple_repr, scan_pieces,
};

fn board(tags: [[i32; 4]; 5]) -> Board {
    Board::from_tags(&tags).unwrap()
}

fn piece(kind: Kind, row: usize, col: usize) -> Piece {
    Piece { kind, row, col }
}

fn start() -> Board {
    board([
        [2, 4, 4, 2],
        [2, 4, 4, 2],
        [2, 3, 3, 2],
        [2, 1, 1, 2],
        [1, 0, 0, 1],
    ])
}

#[test]
fn piece_list_of_the_start_board() {
    let expected = vec![
        piece(Kind::VerticalPair, 0, 0),
        piece(Kind::Square, 0, 1),
        piece(Kind::VerticalPair, 0, 3),
        piece(Kind::VerticalPair, 2, 0),
        piece(Kind::HorizontalPair, 2, 1),
        piece(Kind::VerticalPair, 2, 3),
        piece(Kind::Single, 3, 1),
        piece(Kind::Single, 3, 2),
        piece(Kind::Single, 4, 0),
        piece(Kind::Single, 4, 3),
    ];
    assert_eq!(get_board_tuple_repr(&start()), Ok(expected.clone()));
    assert_eq!(scan_pieces(&start(), None), Ok(expected));
}

#[test]
fn pieces_of_each_type_on_the_start_board() {
    let b = start();
    assert_eq!(
        get_board_pieces_of_type(&b, Kind::VerticalPair),
        Ok(vec![
            piece(Kind::VerticalPair, 0, 0),
            piece(Kind::VerticalPair, 0, 3),
            piece(Kind::VerticalPair, 2, 0),
            piece(Kind::VerticalPair, 2, 3),
        ])
    );
    assert_eq!(
        get_board_pieces_of_type(&b, Kind::HorizontalPair),
        Ok(vec![piece(Kind::HorizontalPair, 2, 1)])
    );
    assert_eq!(get_board_pieces_of_type(&b, Kind::Square), Ok(vec![piece(Kind::Square, 0, 1)]));
    assert_eq!(
        get_board_pieces_of_type(&b, Kind::Single),
        Ok(vec![
            piece(Kind::Single, 3, 1),
            piece(Kind::Single, 3, 2),
            piece(Kind::Single, 4, 0),
            piece(Kind::Single, 4, 3),
        ])
    );
    assert_eq!(
        get_board_pieces_of_type(&b, Kind::Empty),
        Ok(vec![piece(Kind::Empty, 4, 1), piece(Kind::Empty, 4, 2)])
    );
}

#[test]
fn empty_board_has_no_pieces() {
    let b = Board::empty();
    assert_eq!(get_board_tuple_repr(&b), Ok(vec![]));
    assert_eq!(get_board_pieces_of_type(&b, Kind::Square), Ok(vec![]));
    assert_eq!(get_board_pieces_of_type(&b, Kind::Empty).unwrap().len(), 20);
}

#[test]
fn stacked_and_adjacent_pairs_are_told_apart() {
    let b = board([
        [2, 3, 3, 0],
        [2, 3, 3, 0],
        [2, 0, 0, 0],
        [2, 3, 3, 0],
        [0, 0, 3, 3],
    ]);
    assert_eq!(
        get_board_pieces_of_type(&b, Kind::VerticalPair),
        Ok(vec![piece(Kind::VerticalPair, 0, 0), piece(Kind::VerticalPair, 2, 0)])
    );
    assert_eq!(
        get_board_pieces_of_type(&b, Kind::HorizontalPair),
        Ok(vec![
            piece(Kind::HorizontalPair, 0, 1),
            piece(Kind::HorizontalPair, 1, 1),
            piece(Kind::HorizontalPair, 3, 1),
            piece(Kind::HorizontalPair, 4, 2),
        ])
    );
}

#[test]
fn vertical_pair_cut_off_by_the_bottom_edge_is_corrupt() {
    let mut tags = [[0; 4]; 5];
    tags[4][2] = 2;
    let b = board(tags);
    assert_eq!(get_board_pieces_of_type(&b, Kind::VerticalPair), Err(CorruptBoard));
    assert_eq!(get_board_tuple_repr(&b), Err(CorruptBoard));
    assert_eq!(get_board_pieces_of_type(&b, Kind::Single), Ok(vec![]));
}

#[test]
fn horizontal_pair_cut_off_by_the_right_edge_is_corrupt() {
    let mut tags = [[0; 4]; 5];
    tags[0][3] = 3;
    assert_eq!(get_board_tuple_repr(&board(tags)), Err(CorruptBoard));
}

#[test]
fn square_with_a_missing_corner_is_corrupt() {
    let b = board([
        [4, 4, 0, 0],
        [4, 0, 0, 0],
        [0, 0, 0, 0],
        [0, 0, 0, 0],
        [0, 0, 0, 0],
    ]);
    assert_eq!(get_board_pieces_of_type(&b, Kind::Square), Err(CorruptBoard));
    assert_eq!(get_board_tuple_repr(&b), Err(CorruptBoard));
}

#[test]
fn overlapping_squares_are_corrupt() {
    let b = board([
        [0, 4, 4, 0],
        [4, 4, 4, 0],
        [4, 4, 0, 0],
        [0, 0, 0, 0],
        [0, 0, 0, 0],
    ]);
    assert_eq!(get_board_pieces_of_type(&b, Kind::Square), Err(CorruptBoard));
}

#[test]
fn footprint_of_mixed_labels_is_corrupt() {
    let b = board([
        [2, 0, 0, 0],
        [1, 0, 0, 0],
        [0, 0, 0, 0],
        [0, 0, 0, 0],
        [0, 0, 0, 0],
    ]);
    assert_eq!(get_board_tuple_repr(&b), Err(CorruptBoard));
}

#[test]
fn every_cell_of_the_start_board_resolves_to_its_piece() {
    let b = start();
    let owners = [
        [(2, 0, 0), (4, 0, 1), (4, 0, 1), (2, 0, 3)],
        [(2, 0, 0), (4, 0, 1), (4, 0, 1), (2, 0, 3)],
        [(2, 2, 0), (3, 2, 1), (3, 2, 1), (2, 2, 3)],
        [(2, 2, 0), (1, 3, 1), (1, 3, 2), (2, 2, 3)],
        [(1, 4, 0), (0, 4, 1), (0, 4, 2), (1, 4, 3)],
    ];
    for i in 0..5 {
        for j in 0..4 {
            let (tag, row, col) = owners[i][j];
            let expected = piece(Kind::from_tag(tag).unwrap(), row, col);
            assert_eq!(get_board_piece_at_ij(&b, i, j), Ok(expected));
        }
    }
}

#[test]
fn pairs_at_the_edges_resolve_by_the_edge() {
    let b = board([
        [3, 3, 0, 2],
        [0, 0, 0, 2],
        [0, 0, 0, 0],
        [2, 0, 0, 0],
        [2, 0, 3, 3],
    ]);
    assert_eq!(get_board_piece_at_ij(&b, 0, 0), Ok(piece(Kind::HorizontalPair, 0, 0)));
    assert_eq!(get_board_piece_at_ij(&b, 4, 3), Ok(piece(Kind::HorizontalPair, 4, 2)));
    assert_eq!(get_board_piece_at_ij(&b, 0, 3), Ok(piece(Kind::VerticalPair, 0, 3)));
    assert_eq!(get_board_piece_at_ij(&b, 4, 0), Ok(piece(Kind::VerticalPair, 3, 0)));
    assert_eq!(get_board_piece_at_ij(&b, 3, 0), Ok(piece(Kind::VerticalPair, 3, 0)));
    assert_eq!(get_board_piece_at_ij(&b, 1, 3), Ok(piece(Kind::VerticalPair, 0, 3)));
}

#[test]
fn inner_horizontal_pair_and_square_resolve_to_the_first_listed() {
    let b = board([
        [0, 3, 3, 0],
        [0, 0, 0, 0],
        [0, 3, 3, 0],
        [0, 4, 4, 0],
        [0, 4, 4, 0],
    ]);
    assert_eq!(get_board_piece_at_ij(&b, 2, 2), Ok(piece(Kind::HorizontalPair, 0, 1)));
    assert_eq!(get_board_piece_at_ij(&b, 4, 2), Ok(piece(Kind::Square, 3, 1)));
}

#[test]
fn stacked_vertical_pairs_resolve_to_the_right_one() {
    let b = board([
        [0, 2, 0, 0],
        [0, 2, 0, 0],
        [0, 2, 0, 0],
        [0, 2, 0, 0],
        [0, 0, 0, 0],
    ]);
    assert_eq!(get_board_piece_at_ij(&b, 1, 1), Ok(piece(Kind::VerticalPair, 0, 1)));
    assert_eq!(get_board_piece_at_ij(&b, 2, 1), Ok(piece(Kind::VerticalPair, 2, 1)));
    assert_eq!(get_board_piece_at_ij(&b, 3, 1), Ok(piece(Kind::VerticalPair, 2, 1)));
}

#[test]
fn lone_cell_of_a_vertical_pair_does_not_resolve() {
    let mut tags = [[0; 4]; 5];
    tags[2][1] = 2;
    let b = board(tags);
    assert_eq!(get_board_piece_at_ij(&b, 2, 1), Err(CorruptBoard));
}

#[test]
fn broken_square_does_not_resolve() {
    let b = board([
        [4, 4, 0, 0],
        [4, 1, 0, 0],
        [0, 0, 0, 0],
        [0, 0, 0, 0],
        [0, 0, 0, 0],
    ]);
    assert_eq!(get_board_piece_at_ij(&b, 0, 1), Err(CorruptBoard));
    assert_eq!(get_board_piece_at_ij(&b, 1, 1), Ok(piece(Kind::Single, 1, 1)));
    assert_eq!(get_board_piece_at_ij(&b, 3, 3), Ok(piece(Kind::Empty, 3, 3)));
}
