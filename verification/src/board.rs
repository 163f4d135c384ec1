//! The grid, the piece catalogue and the directions a piece can slide in.
//!
//! A board stores one label per cell and nothing else: which cells make up
//! one piece is read off the labels (see the `pieces` module).

use vstd::prelude::*;

verus! {

/// The mathematical model of a board: five rows of four labels.
pub type Grid = Seq<Seq<Kind>>;

/// What a cell is labelled with: nothing, or the shape of the piece that
/// occupies it.
#[derive(Clone, Copy, Debug, PartialEq, Eq, Hash, Structural)]
pub enum Kind {
    Empty,
    Single,
    VerticalPair,
    HorizontalPair,
    Square,
}

/// One of the four unit moves.
#[derive(Clone, Copy, Debug, PartialEq, Eq, Hash, Structural)]
pub enum Direction {
    Up,
    Down,
    Left,
    Right,
}

/// A reference to a placed piece: its shape and the topmost, leftmost cell
/// it occupies. It is read off a board, and does not own anything.
#[derive(Clone, Copy, Debug, PartialEq, Eq, Hash, Structural)]
pub struct Piece {
    pub kind: Kind,
    pub row: usize,
    pub col: usize,
}

/// The board does not decompose into whole pieces, or holds a label that
/// names no shape.
#[derive(Clone, Copy, Debug, PartialEq, Eq, Structural)]
pub struct CorruptBoard;

/// A 5 by 4 grid of labels.
#[derive(Clone, Copy, Debug, PartialEq, Eq, Hash)]
pub struct Board {
    pub cells: [[Kind; 4]; 5],
}

/// `(r, c)` names a cell of the grid.
pub open spec fn in_grid(r: int, c: int) -> bool {
    0 <= r < 5 && 0 <= c < 4
}

/// A grid has the shape of a board.
pub open spec fn well_shaped(g: Grid) -> bool {
    &&& g.len() == 5
    &&& forall|r: int| 0 <= r < 5 ==> (#[trigger] g[r]).len() == 4
}

/// A footprint of shape `k` anchored at `(r0, c0)` lies within the grid.
pub open spec fn fits(k: Kind, r0: int, c0: int) -> bool {
    0 <= r0 && r0 + k.height() <= 5 && 0 <= c0 && c0 + k.width() <= 4
}

/// The footprint of shape `k` anchored at `(r0, c0)` contains `(r, c)`.
pub open spec fn spans(k: Kind, r0: int, c0: int, r: int, c: int) -> bool {
    r0 <= r < r0 + k.height() && c0 <= c < c0 + k.width()
}

impl Kind {
    /// Rows that the shape extends over, counted from its anchor.
    pub open spec fn height(self) -> int {
        match self {
            Kind::VerticalPair | Kind::Square => 2,
            _ => 1,
        }
    }

    /// Columns that the shape extends over, counted from its anchor.
    pub open spec fn width(self) -> int {
        match self {
            Kind::HorizontalPair | Kind::Square => 2,
            _ => 1,
        }
    }

    /// The small integer that stands for the label in a plain grid.
    pub open spec fn tag_of(self) -> int {
        match self {
            Kind::Empty => 0,
            Kind::Single => 1,
            Kind::VerticalPair => 2,
            Kind::HorizontalPair => 3,
            Kind::Square => 4,
        }
    }

    /// The footprint table: rows and columns that the shape extends over.
    pub fn extent(self) -> (e: (usize, usize))
        ensures
            e.0 == self.height(),
            e.1 == self.width(),
    {
        match self {
            Kind::Empty | Kind::Single => (1, 1),
            Kind::VerticalPair => (2, 1),
            Kind::HorizontalPair => (1, 2),
            Kind::Square => (2, 2),
        }
    }

    /// The integer tag of the label: 0 for an empty cell, 1 to 4 for the
    /// shapes.
    pub fn tag(self) -> (t: i32)
        ensures
            t == self.tag_of(),
    {
        match self {
            Kind::Empty => 0,
            Kind::Single => 1,
            Kind::VerticalPair => 2,
            Kind::HorizontalPair => 3,
            Kind::Square => 4,
        }
    }

    /// The label that an integer tag stands for, if it stands for one.
    pub fn from_tag(tag: i32) -> (k: Option<Kind>)
        ensures
            k is Some <==> 0 <= tag <= 4,
            k is Some ==> k->0.tag_of() == tag,
    {
        if tag == 0 {
            Some(Kind::Empty)
        } else if tag == 1 {
            Some(Kind::Single)
        } else if tag == 2 {
            Some(Kind::VerticalPair)
        } else if tag == 3 {
            Some(Kind::HorizontalPair)
        } else if tag == 4 {
            Some(Kind::Square)
        } else {
            None
        }
    }
}

impl Direction {
    /// Change of the row index under one step.
    pub open spec fn row_step(self) -> int {
        match self {
            Direction::Up => -1,
            Direction::Down => 1,
            _ => 0,
        }
    }

    /// Change of the column index under one step.
    pub open spec fn col_step(self) -> int {
        match self {
            Direction::Left => -1,
            Direction::Right => 1,
            _ => 0,
        }
    }

    /// The direction as a unit row and column delta.
    pub fn delta(self) -> (d: (i32, i32))
        ensures
            d.0 == self.row_step(),
            d.1 == self.col_step(),
    {
        match self {
            Direction::Up => (-1, 0),
            Direction::Down => (1, 0),
            Direction::Left => (0, -1),
            Direction::Right => (0, 1),
        }
    }
}

impl Piece {
    /// The piece's footprint lies within the grid.
    pub open spec fn on_grid(self) -> bool {
        fits(self.kind, self.row as int, self.col as int)
    }

    /// The piece's footprint contains the cell `(r, c)`.
    pub open spec fn covers(self, r: int, c: int) -> bool {
        spans(self.kind, self.row as int, self.col as int, r, c)
    }
}

impl View for Board {
    type V = Grid;

    open spec fn view(&self) -> Grid {
        Seq::new(5, |r: int| self.cells@[r]@)
    }
}

impl DeepView for Board {
    type V = Grid;

    open spec fn deep_view(&self) -> Grid {
        self@
    }
}

impl Board {
    /// The board whose cells are all empty.
    pub fn empty() -> (b: Board)
        ensures
            forall|r: int, c: int| in_grid(r, c) ==> b@[r][c] == Kind::Empty,
    {
        Board { cells: [[Kind::Empty; 4]; 5] }
    }

    /// Reads a board from a grid of integer tags, 0 for an empty cell and
    /// 1 to 4 for the shapes. Any other value is refused.
    pub fn from_tags(tags: &[[i32; 4]; 5]) -> (res: Result<Board, CorruptBoard>)
        ensures
            res is Ok <==> forall|r: int, c: int| in_grid(r, c) ==> 0 <= #[trigger] tags@[r]@[c] <= 4,
            res is Ok ==> forall|r: int, c: int|
                in_grid(r, c) ==> (#[trigger] res->Ok_0@[r][c]).tag_of() == tags@[r]@[c],
    {
        let mut board = Board::empty();
        let mut n: usize = 0;
        while n < 20
            invariant
                n <= 20,
                forall|r: int, c: int|
                    in_grid(r, c) && 4 * r + c < n ==> 0 <= #[trigger] tags@[r]@[c] <= 4,
                forall|r: int, c: int|
                    in_grid(r, c) && 4 * r + c < n ==> (#[trigger] board@[r][c]).tag_of()
                        == tags@[r]@[c],
            decreases 20 - n,
        {
            let i: usize = n / 4;
            let j: usize = n % 4;
            match Kind::from_tag(tags[i][j]) {
                Some(kind) => {
                    board.put(i, j, kind);
                },
                None => {
                    return Err(CorruptBoard);
                },
            }
            n = n + 1;
        }
        Ok(board)
    }

    /// The grid of integer tags that stands for the board.
    pub fn tags(&self) -> (tags: [[i32; 4]; 5])
        ensures
            forall|r: int, c: int| in_grid(r, c) ==> #[trigger] tags@[r]@[c] == self@[r][c].tag_of(),
    {
        let mut tags: [[i32; 4]; 5] = [[0i32; 4]; 5];
        let mut n: usize = 0;
        while n < 20
            invariant
                n <= 20,
                forall|r: int, c: int|
                    in_grid(r, c) && 4 * r + c < n ==> #[trigger] tags@[r]@[c] == self@[r][c].tag_of(),
            decreases 20 - n,
        {
            let i: usize = n / 4;
            let j: usize = n % 4;
            tags[i][j] = self.get(i, j).tag();
            n = n + 1;
        }
        tags
    }

    /// The label of a cell.
    pub fn get(&self, row: usize, col: usize) -> (k: Kind)
        requires
            in_grid(row as int, col as int),
        ensures
            k == self@[row as int][col as int],
    {
        self.cells[row][col]
    }

    /// Relabels one cell.
    pub fn put(&mut self, row: usize, col: usize, kind: Kind)
        requires
            in_grid(row as int, col as int),
        ensures
            well_shaped(final(self)@),
            forall|r: int, c: int|
                in_grid(r, c) ==> #[trigger] final(self)@[r][c] == (if r == row && c == col {
                    kind
                } else {
                    old(self)@[r][c]
                }),
    {
        self.cells[row][col] = kind;
    }

    /// The model of a board always has the shape of the grid.
    pub proof fn lemma_well_shaped(&self)
        ensures
            well_shaped(self@),
    {
    }
}

} // verus!
