//! Sliding a piece by one cell: when it is allowed, and what it does to the
//! board.

use vstd::prelude::*;
use crate::board::{fits, in_grid, spans, well_shaped, Board, Direction, Grid, Kind, Piece};
use crate::pieces::{
    anchor_set, count_in, intact, is_anchor, lemma_at_most_one, lemma_intact_layout,
    lemma_pieces_contains, lemma_tiling_unique, lemma_unit_shapes_whole, lemma_whole_is_tiling,
    pieces, pieces_of_kind, resolvable, tiles, whole,
};

verus! {

/// The piece `p` may slide one step in direction `d` on the board `g`: it is
/// a piece that lies on the grid, it stays on the grid, and every cell it
/// moves onto is empty. The cells it occupies itself do not stand in its way.
pub open spec fn legal(g: Grid, p: Piece, d: Direction) -> bool {
    &&& p.kind != Kind::Empty
    &&& p.on_grid()
    &&& fits(p.kind, p.row + d.row_step(), p.col + d.col_step())
    &&& forall|r: int, c: int|
        #![trigger g[r][c]]
        spans(p.kind, p.row + d.row_step(), p.col + d.col_step(), r, c) && !p.covers(r, c)
            ==> g[r][c] == Kind::Empty
}

/// The reference to the piece `p` after one step in direction `d`.
pub open spec fn slid(p: Piece, d: Direction) -> Piece {
    Piece {
        kind: p.kind,
        row: (p.row + d.row_step()) as usize,
        col: (p.col + d.col_step()) as usize,
    }
}

/// The board `g` after the piece `p` has slid one step in direction `d`:
/// its shape is written at the new footprint, what it has left is empty,
/// every other cell is as before.
pub open spec fn moved(g: Grid, p: Piece, d: Direction) -> Grid {
    Seq::new(
        5,
        |r: int|
            Seq::new(
                4,
                |c: int|
                    if spans(p.kind, p.row + d.row_step(), p.col + d.col_step(), r, c) {
                        p.kind
                    } else if p.covers(r, c) {
                        Kind::Empty
                    } else {
                        g[r][c]
                    },
            ),
    )
}

/// Tells whether a piece may slide one step in a direction.
///
/// The move is refused if it would push any part of the piece past an edge
/// of the grid, or onto a cell that is not empty; the piece's own cells do
/// not count against it. A reference to an empty cell, or to a footprint
/// that does not lie on the grid, has no legal move. The board is only read.
pub fn is_valid_move(board: &Board, piece: Piece, dir: Direction) -> (ok: bool)
    ensures
        ok == legal(board@, piece, dir),
{
    let (h, w) = piece.kind.extent();
    if piece.kind == Kind::Empty {
        return false;
    }
    if piece.row >= 5 || piece.col >= 4 || piece.row + h > 5 || piece.col + w > 4 {
        return false;
    }
    let i: usize = piece.row;
    let j: usize = piece.col;
    match dir {
        Direction::Up => {
            if i == 0 {
                false
            } else {
                board.get(i - 1, j) == Kind::Empty && (w == 1 || board.get(i - 1, j + 1)
                    == Kind::Empty)
            }
        },
        Direction::Down => {
            if i + h >= 5 {
                false
            } else {
                board.get(i + h, j) == Kind::Empty && (w == 1 || board.get(i + h, j + 1)
                    == Kind::Empty)
            }
        },
        Direction::Left => {
            if j == 0 {
                false
            } else {
                board.get(i, j - 1) == Kind::Empty && (h == 1 || board.get(i + 1, j - 1)
                    == Kind::Empty)
            }
        },
        Direction::Right => {
            if j + w >= 4 {
                false
            } else {
                board.get(i, j + w) == Kind::Empty && (h == 1 || board.get(i + 1, j + w)
                    == Kind::Empty)
            }
        },
    }
}

/// Labels every cell of the footprint of shape `shape` at `(i, j)`.
fn fill_footprint(board: &mut Board, shape: Kind, i: usize, j: usize, label: Kind)
    requires
        fits(shape, i as int, j as int),
    ensures
        well_shaped(final(board)@),
        forall|r: int, c: int|
            in_grid(r, c) ==> #[trigger] final(board)@[r][c] == (if spans(
                shape,
                i as int,
                j as int,
                r,
                c,
            ) {
                label
            } else {
                old(board)@[r][c]
            }),
{
    let (h, w) = shape.extent();
    board.put(i, j, label);
    if w == 2 {
        board.put(i, j + 1, label);
    }
    if h == 2 {
        board.put(i + 1, j, label);
    }
    if h == 2 && w == 2 {
        board.put(i + 1, j + 1, label);
    }
}

/// Slides a piece one step: the result is a new board on which the piece's
/// old footprint is cleared and its shape is written one cell further in the
/// direction given. The board handed in is left as it is.
pub fn move_piece(board: &Board, piece: Piece, dir: Direction) -> (next: Board)
    requires
        legal(board@, piece, dir),
    ensures
        next@ == moved(board@, piece, dir),
{
    let mut next: Board = *board;
    let i: usize = piece.row;
    let j: usize = piece.col;
    fill_footprint(&mut next, piece.kind, i, j, Kind::Empty);
    let (i2, j2): (usize, usize) = match dir {
        Direction::Up => (i - 1, j),
        Direction::Down => (i + 1, j),
        Direction::Left => (i, j - 1),
        Direction::Right => (i, j + 1),
    };
    fill_footprint(&mut next, piece.kind, i2, j2, piece.kind);
    assert(next@ =~~= moved(board@, piece, dir));
    next
}

/// The anchors of a tiling after one of its pieces has slid: the old
/// anchor is replaced by the new one.
pub open spec fn slid_anchors(t: Set<(int, int)>, p: Piece, d: Direction) -> Set<(int, int)> {
    t.remove((p.row as int, p.col as int)).insert(
        (p.row + d.row_step(), p.col + d.col_step()),
    )
}

/// Sliding a piece of a tiling gives a tiling of the new board.
proof fn lemma_move_tiles(g: Grid, p: Piece, d: Direction, t: Set<(int, int)>)
    requires
        well_shaped(g),
        legal(g, p, d),
        tiles(g, p.kind, t),
        t.contains((p.row as int, p.col as int)),
    ensures
        tiles(moved(g, p, d), p.kind, slid_anchors(t, p, d)),
{
    let k = p.kind;
    let a = (p.row as int, p.col as int);
    let b = (p.row + d.row_step(), p.col + d.col_step());
    let t2 = slid_anchors(t, p, d);
    let g2 = moved(g, p, d);
    // The new anchor is not the anchor of another piece.
    assert(!t.contains(b)) by {
        if t.contains(b) {
            assert(count_in(t, k, b.0, b.1) == (if g[b.0][b.1] == k {
                1int
            } else {
                0int
            }));
        }
    }
    assert forall|r: int, c: int| #[trigger] t2.contains((r, c)) implies fits(k, r, c) by {
        if (r, c) != b {
            assert(t.contains((r, c)));
        }
    }
    assert forall|r: int, c: int| in_grid(r, c) implies #[trigger] count_in(t2, k, r, c) == (
    if g2[r][c] == k {
        1int
    } else {
        0int
    }) by {
        assert(count_in(t, k, r, c) == (if g[r][c] == k {
            1int
        } else {
            0int
        }));
        assert(t2.contains((r, c)) == ((t.contains((r, c)) && (r, c) != a) || (r, c) == b));
        assert(t2.contains((r, c - 1)) == ((t.contains((r, c - 1)) && (r, c - 1) != a) || (r, c - 1)
            == b));
        assert(t2.contains((r - 1, c)) == ((t.contains((r - 1, c)) && (r - 1, c) != a) || (r - 1, c)
            == b));
        assert(t2.contains((r - 1, c - 1)) == ((t.contains((r - 1, c - 1)) && (r - 1, c - 1) != a)
            || (r - 1, c - 1) == b));
        assert(count_in(t2, k, r, c) == count_in(t, k, r, c) - (if spans(k, a.0, a.1, r, c) {
            1int
        } else {
            0int
        }) + (if spans(k, b.0, b.1, r, c) {
            1int
        } else {
            0int
        }));
        assert(g2[r][c] == (if spans(k, b.0, b.1, r, c) {
            k
        } else if p.covers(r, c) {
            Kind::Empty
        } else {
            g[r][c]
        }));
        if spans(k, b.0, b.1, r, c) && !p.covers(r, c) {
            assert(g[r][c] == Kind::Empty);
        }
    }
}

/// Sliding a piece leaves the tilings of the other shapes as they are.
proof fn lemma_move_keeps_other(g: Grid, p: Piece, d: Direction, k: Kind, t: Set<(int, int)>)
    requires
        well_shaped(g),
        legal(g, p, d),
        forall|r: int, c: int| #![trigger g[r][c]] p.covers(r, c) ==> g[r][c] == p.kind,
        k != p.kind,
        k != Kind::Empty,
        tiles(g, k, t),
    ensures
        tiles(moved(g, p, d), k, t),
{
    let g2 = moved(g, p, d);
    assert forall|r: int, c: int| in_grid(r, c) implies #[trigger] count_in(t, k, r, c) == (
    if g2[r][c] == k {
        1int
    } else {
        0int
    }) by {
        assert(count_in(t, k, r, c) == (if g[r][c] == k {
            1int
        } else {
            0int
        }));
        assert(g2[r][c] == (if spans(p.kind, p.row + d.row_step(), p.col + d.col_step(), r, c) {
            p.kind
        } else if p.covers(r, c) {
            Kind::Empty
        } else {
            g[r][c]
        }));
        if spans(p.kind, p.row + d.row_step(), p.col + d.col_step(), r, c) && !p.covers(r, c) {
            assert(g[r][c] == Kind::Empty);
        }
    }
}

/// A legal move keeps the board in shape.
pub proof fn lemma_moved_well_shaped(g: Grid, p: Piece, d: Direction)
    ensures
        well_shaped(moved(g, p, d)),
{
}

/// How a legal move of a piece of the board changes the anchors: those of
/// the piece's shape lose the old anchor and gain the new one, those of the
/// other shapes stay, and every shape still splits into whole pieces.
pub proof fn lemma_move_anchors(g: Grid, p: Piece, d: Direction)
    requires
        well_shaped(g),
        intact(g),
        is_anchor(g, p.kind, p.row as int, p.col as int),
        legal(g, p, d),
    ensures
        intact(moved(g, p, d)),
        anchor_set(moved(g, p, d), p.kind) == slid_anchors(anchor_set(g, p.kind), p, d),
        forall|k: Kind|
            k != p.kind && k != Kind::Empty ==> #[trigger] anchor_set(moved(g, p, d), k)
                == anchor_set(g, k),
{
    let g2 = moved(g, p, d);
    lemma_unit_shapes_whole(g, Kind::Single);
    lemma_unit_shapes_whole(g2, Kind::Single);
    assert(whole(g, p.kind));
    lemma_whole_is_tiling(g, p.kind);
    let t = anchor_set(g, p.kind);
    assert(t.contains((p.row as int, p.col as int)));
    assert forall|r: int, c: int| #![trigger g[r][c]] p.covers(r, c) implies g[r][c]
        == p.kind by {
        assert(fits(p.kind, p.row as int, p.col as int));
        assert(count_in(t, p.kind, r, c) == (if g[r][c] == p.kind {
            1int
        } else {
            0int
        }));
    }
    lemma_move_tiles(g, p, d, t);
    lemma_tiling_unique(g2, p.kind, slid_anchors(t, p, d));
    lemma_whole_is_tiling(g2, p.kind);
    assert forall|k: Kind| k != p.kind && k != Kind::Empty implies #[trigger] anchor_set(g2, k)
        == anchor_set(g, k) && whole(g2, k) by {
        assert(whole(g, k));
        lemma_whole_is_tiling(g, k);
        lemma_move_keeps_other(g, p, d, k, anchor_set(g, k));
        lemma_tiling_unique(g2, k, anchor_set(g, k));
        lemma_whole_is_tiling(g2, k);
    }
    if p.kind != Kind::VerticalPair {
        assert(anchor_set(g2, Kind::VerticalPair) == anchor_set(g, Kind::VerticalPair));
    }
    if p.kind != Kind::HorizontalPair {
        assert(anchor_set(g2, Kind::HorizontalPair) == anchor_set(g, Kind::HorizontalPair));
    }
    if p.kind != Kind::Square {
        assert(anchor_set(g2, Kind::Square) == anchor_set(g, Kind::Square));
    }
}

/// A legal move of a piece of the board keeps the pieces: the board still
/// splits into whole pieces, and they are the pieces it had before, with the
/// moved one one step further and all others where they were.
pub proof fn lemma_move_keeps_pieces(g: Grid, p: Piece, d: Direction)
    requires
        well_shaped(g),
        intact(g),
        pieces(g).contains(p),
        legal(g, p, d),
    ensures
        intact(moved(g, p, d)),
        pieces(moved(g, p, d)).to_set() == pieces(g).to_set().remove(p).insert(slid(p, d)),
{
    let g2 = moved(g, p, d);
    lemma_pieces_contains(g, p);
    lemma_move_anchors(g, p, d);
    let after = pieces(g2).to_set();
    let expected = pieces(g).to_set().remove(p).insert(slid(p, d));
    assert forall|q: Piece| after.contains(q) == expected.contains(q) by {
        lemma_pieces_contains(g, q);
        lemma_pieces_contains(g2, q);
        let cell = (q.row as int, q.col as int);
        assert(is_anchor(g2, q.kind, cell.0, cell.1) == anchor_set(g2, q.kind).contains(cell));
        assert(is_anchor(g, q.kind, cell.0, cell.1) == anchor_set(g, q.kind).contains(cell));
        if q.kind != p.kind && q.kind != Kind::Empty {
            assert(anchor_set(g2, q.kind) == anchor_set(g, q.kind));
        }
    }
    assert(after =~= expected);
}

/// After a legal move of a piece of the board, no piece reaches past the
/// grid and no two pieces overlap.
pub proof fn lemma_legal_move_well_placed(g: Grid, p: Piece, d: Direction)
    requires
        well_shaped(g),
        intact(g),
        pieces(g).contains(p),
        legal(g, p, d),
    ensures
        forall|q: Piece| #[trigger] pieces(moved(g, p, d)).contains(q) ==> q.on_grid(),
        forall|q1: Piece, q2: Piece, r: int, c: int|
            #![trigger q1.covers(r, c), q2.covers(r, c)]
            pieces(moved(g, p, d)).contains(q1) && pieces(moved(g, p, d)).contains(q2)
                && q1.covers(r, c) && q2.covers(r, c) ==> q1 == q2,
{
    lemma_move_keeps_pieces(g, p, d);
    lemma_intact_layout(moved(g, p, d));
}

/// After a legal move of a piece of the board, a shape that had at most one
/// piece still has at most one.
proof fn lemma_move_keeps_count(g: Grid, p: Piece, d: Direction, k: Kind)
    requires
        well_shaped(g),
        intact(g),
        pieces(g).contains(p),
        legal(g, p, d),
        k != Kind::Empty,
        pieces_of_kind(g, k).len() <= 1,
    ensures
        pieces_of_kind(moved(g, p, d), k).len() <= 1,
{
    let g2 = moved(g, p, d);
    lemma_pieces_contains(g, p);
    lemma_move_anchors(g, p, d);
    lemma_at_most_one(g, k);
    lemma_at_most_one(g2, k);
    let t = anchor_set(g, k);
    let t2 = anchor_set(g2, k);
    let from = (p.row as int, p.col as int);
    let to = (p.row + d.row_step(), p.col + d.col_step());
    assert forall|a: (int, int), b: (int, int)|
        #![trigger t2.contains(a), t2.contains(b)]
        t2.contains(a) && t2.contains(b) implies a == b by {
        if k == p.kind {
            assert(t.contains(from));
            assert(t2 == slid_anchors(t, p, d));
            if a != to {
                assert(t.contains(a) && t.contains(from));
            }
            if b != to {
                assert(t.contains(b) && t.contains(from));
            }
        } else {
            assert(t2 == t);
            assert(t.contains(a) && t.contains(b));
        }
    }
}

/// A legal move of a piece of the board keeps it a board on which every
/// cell resolves to its piece.
pub proof fn lemma_move_keeps_resolvable(g: Grid, p: Piece, d: Direction)
    requires
        well_shaped(g),
        resolvable(g),
        pieces(g).contains(p),
        legal(g, p, d),
    ensures
        resolvable(moved(g, p, d)),
{
    lemma_move_keeps_pieces(g, p, d);
    lemma_move_keeps_count(g, p, d, Kind::HorizontalPair);
    lemma_move_keeps_count(g, p, d, Kind::Square);
}

} // verus!
