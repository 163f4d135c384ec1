use klotski::board::{Board, Direction, Kind, Piece};
use klotski::moves::{is_valid_move, move_piece};
use klotski::pieces::get_board_tuple_repr;
use klotski::search::randomwalk;
use rand::rngs::StdRng;
use rand::SeedableRng;

const DIRECTIONS: [Direction; 4] =
    [Direction::Up, Direction::Down, Direction::Left, Direction::Right];

fn board(tags: [[i32; 4]; 5]) -> Board {
    Board::from_tags(&tags).unwrap()
}

fn piece(kind: Kind, row: usize, col: usize) -> Piece {
    Piece { kind, row, col }
}

fn start() -> Board {
    board([
        [2, 4, 4, 2],
        [2, 4, 4, 2],
        [2, 3, 3, 2],
        [2, 1, 1, 2],
        [1, 0, 0, 1],
    ])
}

fn legal_directions(b: &Board, p: Piece) -> Vec<Direction> {
    let mut legal = Vec::new();
    for d in DIRECTIONS {
        if is_valid_move(b, p, d) {
            legal.push(d);
        }
    }
    legal
}

fn shifted(p: Piece, d: Direction) -> Piece {
    let (dr, dc) = d.delta();
    Piece {
        kind: p.kind,
        row: (p.row as i32 + dr) as usize,
        col: (p.col as i32 + dc) as usize,
    }
}

#[test]
fn legal_moves_on_the_start_board() {
    let b = start();
    assert_eq!(legal_directions(&b, piece(Kind::Single, 3, 1)), vec![Direction::Down]);
    assert_eq!(legal_directions(&b, piece(Kind::Single, 3, 2)), vec![Direction::Down]);
    assert_eq!(legal_directions(&b, piece(Kind::Single, 4, 0)), vec![Direction::Right]);
    assert_eq!(legal_directions(&b, piece(Kind::Single, 4, 3)), vec![Direction::Left]);
    assert_eq!(legal_directions(&b, piece(Kind::Square, 0, 1)), vec![]);
    assert_eq!(legal_directions(&b, piece(Kind::HorizontalPair, 2, 1)), vec![]);
    assert_eq!(legal_directions(&b, piece(Kind::VerticalPair, 0, 0)), vec![]);
    assert_eq!(legal_directions(&b, piece(Kind::VerticalPair, 2, 3)), vec![]);
}

#[test]
fn a_piece_is_not_in_its_own_way() {
    let mut tags = [[0; 4]; 5];
    tags[1][1] = 4;
    tags[1][2] = 4;
    tags[2][1] = 4;
    tags[2][2] = 4;
    let b = board(tags);
    assert_eq!(legal_directions(&b, piece(Kind::Square, 1, 1)), DIRECTIONS.to_vec());
    let mut tags = [[0; 4]; 5];
    tags[1][1] = 2;
    tags[2][1] = 2;
    let b = board(tags);
    assert_eq!(legal_directions(&b, piece(Kind::VerticalPair, 1, 1)), DIRECTIONS.to_vec());
    let mut tags = [[0; 4]; 5];
    tags[1][1] = 3;
    tags[1][2] = 3;
    let b = board(tags);
    assert_eq!(legal_directions(&b, piece(Kind::HorizontalPair, 1, 1)), DIRECTIONS.to_vec());
}

#[test]
fn the_whole_extent_must_stay_on_the_grid() {
    let b = board([
        [3, 3, 0, 0],
        [0, 0, 0, 0],
        [0, 0, 3, 3],
        [2, 0, 4, 4],
        [2, 0, 4, 4],
    ]);
    assert_eq!(
        legal_directions(&b, piece(Kind::HorizontalPair, 0, 0)),
        vec![Direction::Down, Direction::Right]
    );
    assert_eq!(
        legal_directions(&b, piece(Kind::HorizontalPair, 2, 2)),
        vec![Direction::Up, Direction::Left]
    );
    assert_eq!(
        legal_directions(&b, piece(Kind::VerticalPair, 3, 0)),
        vec![Direction::Up, Direction::Right]
    );
    assert_eq!(legal_directions(&b, piece(Kind::Square, 3, 2)), vec![Direction::Left]);
}

#[test]
fn every_destination_cell_must_be_empty() {
    let b = board([
        [0, 1, 0, 0],
        [4, 4, 0, 1],
        [4, 4, 1, 0],
        [1, 0, 0, 0],
        [0, 0, 0, 0],
    ]);
    assert_eq!(legal_directions(&b, piece(Kind::Square, 1, 0)), vec![]);
    let b = board([
        [0, 0, 0, 0],
        [4, 4, 0, 1],
        [4, 4, 0, 0],
        [0, 0, 0, 0],
        [0, 0, 0, 0],
    ]);
    assert_eq!(
        legal_directions(&b, piece(Kind::Square, 1, 0)),
        vec![Direction::Up, Direction::Down, Direction::Right]
    );
}

#[test]
fn references_to_nothing_have_no_legal_move() {
    let b = Board::empty();
    assert_eq!(legal_directions(&b, piece(Kind::Empty, 2, 2)), vec![]);
    assert_eq!(legal_directions(&b, piece(Kind::Single, 5, 0)), vec![]);
    assert_eq!(legal_directions(&b, piece(Kind::Single, 0, 4)), vec![]);
    assert_eq!(legal_directions(&b, piece(Kind::VerticalPair, 4, 0)), vec![]);
    assert_eq!(legal_directions(&b, piece(Kind::HorizontalPair, 0, 3)), vec![]);
    assert_eq!(legal_directions(&b, piece(Kind::Square, usize::MAX, usize::MAX)), vec![]);
}

#[test]
fn legality_check_leaves_the_board_alone() {
    let b = start();
    let copy = b;
    for _ in 0..3 {
        assert!(is_valid_move(&b, piece(Kind::Single, 3, 1), Direction::Down));
        assert!(!is_valid_move(&b, piece(Kind::Single, 3, 1), Direction::Up));
    }
    assert_eq!(b, copy);
}

#[test]
fn moving_a_single_down() {
    let b = start();
    let next = move_piece(&b, piece(Kind::Single, 3, 1), Direction::Down);
    assert_eq!(
        next.tags(),
        [
            [2, 4, 4, 2],
            [2, 4, 4, 2],
            [2, 3, 3, 2],
            [2, 0, 1, 2],
            [1, 1, 0, 1],
        ]
    );
    assert_eq!(b, start());
}

#[test]
fn moving_each_shape_in_each_direction() {
    let b = board([
        [0, 0, 0, 0],
        [0, 4, 4, 0],
        [0, 4, 4, 0],
        [0, 0, 0, 0],
        [0, 0, 0, 0],
    ]);
    let square = piece(Kind::Square, 1, 1);
    assert_eq!(
        move_piece(&b, square, Direction::Up).tags(),
        [[0, 4, 4, 0], [0, 4, 4, 0], [0, 0, 0, 0], [0, 0, 0, 0], [0, 0, 0, 0]]
    );
    assert_eq!(
        move_piece(&b, square, Direction::Down).tags(),
        [[0, 0, 0, 0], [0, 0, 0, 0], [0, 4, 4, 0], [0, 4, 4, 0], [0, 0, 0, 0]]
    );
    assert_eq!(
        move_piece(&b, square, Direction::Left).tags(),
        [[0, 0, 0, 0], [4, 4, 0, 0], [4, 4, 0, 0], [0, 0, 0, 0], [0, 0, 0, 0]]
    );
    assert_eq!(
        move_piece(&b, square, Direction::Right).tags(),
        [[0, 0, 0, 0], [0, 0, 4, 4], [0, 0, 4, 4], [0, 0, 0, 0], [0, 0, 0, 0]]
    );
    let b = board([
        [0, 0, 0, 0],
        [0, 2, 0, 0],
        [0, 2, 3, 3],
        [0, 0, 0, 0],
        [0, 0, 0, 0],
    ]);
    assert_eq!(
        move_piece(&b, piece(Kind::VerticalPair, 1, 1), Direction::Down).tags(),
        [[0, 0, 0, 0], [0, 0, 0, 0], [0, 2, 3, 3], [0, 2, 0, 0], [0, 0, 0, 0]]
    );
    assert_eq!(
        move_piece(&b, piece(Kind::VerticalPair, 1, 1), Direction::Left).tags(),
        [[0, 0, 0, 0], [2, 0, 0, 0], [2, 0, 3, 3], [0, 0, 0, 0], [0, 0, 0, 0]]
    );
    assert_eq!(
        move_piece(&b, piece(Kind::HorizontalPair, 2, 2), Direction::Up).tags(),
        [[0, 0, 0, 0], [0, 2, 3, 3], [0, 2, 0, 0], [0, 0, 0, 0], [0, 0, 0, 0]]
    );
}

#[test]
fn moves_keep_the_pieces_whole_on_boards_of_a_random_walk() {
    let mut rng = StdRng::seed_from_u64(11);
    let boards = randomwalk(start(), 150, &mut rng).unwrap();
    assert_eq!(boards.len(), 151);
    for b in &boards {
        let placed = get_board_tuple_repr(b).unwrap();
        assert_eq!(placed.len(), 10);
        for &p in &placed {
            for d in DIRECTIONS {
                if !is_valid_move(b, p, d) {
                    continue;
                }
                let next = move_piece(b, p, d);
                // The same pieces, the moved one one step further.
                let mut expected: Vec<Piece> =
                    placed.iter().map(|&q| if q == p { shifted(p, d) } else { q }).collect();
                expected.sort_by_key(|q| (q.row, q.col));
                let after = get_board_tuple_repr(&next).unwrap();
                assert_eq!(after, expected);
                // No piece past the grid, no two pieces on one cell.
                let mut covered = [[0u32; 4]; 5];
                for q in &after {
                    let (h, w) = q.kind.extent();
                    assert!(q.row + h <= 5 && q.col + w <= 4);
                    for r in q.row..q.row + h {
                        for c in q.col..q.col + w {
                            covered[r][c] += 1;
                            assert_eq!(next.get(r, c), q.kind);
                        }
                    }
                }
                for r in 0..5 {
                    for c in 0..4 {
                        let occupied = next.get(r, c) != Kind::Empty;
                        assert_eq!(covered[r][c], if occupied { 1 } else { 0 });
                    }
                }
            }
        }
    }
}
