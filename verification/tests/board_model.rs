use klotski::board::{Board, CorruptBoard, Direction, Kind};

const START: [[i32; 4]; 5] = [
    [2, 4, 4, 2],
    [2, 4, 4, 2],
    [2, 3, 3, 2],
    [2, 1, 1, 2],
    [1, 0, 0, 1],
];

#[test]
fn tags_round_trip() {
    let board = Board::from_tags(&START).unwrap();
    assert_eq!(board.tags(), START);
    assert_eq!(board.get(0, 1), Kind::Square);
    assert_eq!(board.get(2, 2), Kind::HorizontalPair);
    assert_eq!(board.get(4, 1), Kind::Empty);
}

#[test]
fn from_tags_refuses_unknown_labels() {
    let mut grid = START;
    grid[3][2] = 5;
    assert_eq!(Board::from_tags(&grid), Err(CorruptBoard));
    grid[3][2] = -1;
    assert_eq!(Board::from_tags(&grid), Err(CorruptBoard));
    grid[3][2] = 0;
    assert!(Board::from_tags(&grid).is_ok());
}

#[test]
fn kind_tags_and_extents() {
    let kinds = [
        (Kind::Empty, 0, (1, 1)),
        (Kind::Single, 1, (1, 1)),
        (Kind::VerticalPair, 2, (2, 1)),
        (Kind::HorizontalPair, 3, (1, 2)),
        (Kind::Square, 4, (2, 2)),
    ];
    for (kind, tag, extent) in kinds {
        assert_eq!(kind.tag(), tag);
        assert_eq!(Kind::from_tag(tag), Some(kind));
        assert_eq!(kind.extent(), extent);
    }
    assert_eq!(Kind::from_tag(5), None);
    assert_eq!(Kind::from_tag(-3), None);
}

#[test]
fn direction_deltas() {
    assert_eq!(Direction::Up.delta(), (-1, 0));
    assert_eq!(Direction::Down.delta(), (1, 0));
    assert_eq!(Direction::Left.delta(), (0, -1));
    assert_eq!(Direction::Right.delta(), (0, 1));
}

#[test]
fn put_changes_one_cell() {
    let mut board = Board::empty();
    board.put(2, 3, Kind::Single);
    let mut expected = [[0; 4]; 5];
    expected[2][3] = 1;
    assert_eq!(board.tags(), expected);
}
