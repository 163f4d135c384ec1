//! The boards that one legal move leads to.

use vstd::prelude::*;
use crate::board::{
    in_grid, spans, well_shaped, Board, CorruptBoard, Direction, Grid, Kind, Piece,
};
use crate::dedup::{
    first_occurrences, lemma_first_occurrences, lemma_first_occurrences_map, unique_keys,
};
use crate::moves::{
    is_valid_move, legal, lemma_move_keeps_resolvable, lemma_moved_well_shaped, move_piece, moved,
};
use crate::pieces::{
    get_board_piece_at_ij, is_listed, lemma_intact_layout, lemma_listing, lemma_pieces_contains,
    lemma_resolve_owner, listed_before, pieces, pieces_of_kind, resolvable, resolve,
};

verus! {

/// The references collected so far, with the piece next to an empty cell
/// added: if `(r, c)` is a cell of the grid and occupied, what it resolves
/// to. A failure to resolve, once met, stays.
pub open spec fn with_neighbour(
    found: Result<Seq<Piece>, CorruptBoard>,
    g: Grid,
    r: int,
    c: int,
) -> Result<Seq<Piece>, CorruptBoard> {
    match found {
        Err(e) => Err(e),
        Ok(list) => if in_grid(r, c) && g[r][c] != Kind::Empty {
            match resolve(g, r, c) {
                Ok(p) => Ok(list.push(p)),
                Err(e) => Err(e),
            }
        } else {
            Ok(list)
        },
    }
}

/// The references collected so far, with the pieces around one empty cell
/// added: the one above it, below it, left and right of it, in that order.
pub open spec fn with_neighbours(
    found: Result<Seq<Piece>, CorruptBoard>,
    g: Grid,
    cell: Piece,
) -> Result<Seq<Piece>, CorruptBoard> {
    let i = cell.row as int;
    let j = cell.col as int;
    with_neighbour(
        with_neighbour(with_neighbour(with_neighbour(found, g, i - 1, j), g, i + 1, j), g, i, j - 1),
        g,
        i,
        j + 1,
    )
}

/// The pieces around the first `m` of the given empty cells.
pub open spec fn touching_before(g: Grid, cells: Seq<Piece>, m: int) -> Result<
    Seq<Piece>,
    CorruptBoard,
>
    decreases m,
{
    if m <= 0 {
        Ok(Seq::empty())
    } else {
        with_neighbours(touching_before(g, cells, m - 1), g, cells[m - 1])
    }
}

/// The pieces next to the empty cells of the board, as they are met: the
/// empty cells in row-major order, around each the cell above, below, left
/// and right. A piece is listed once for every time it is met.
pub open spec fn touching(g: Grid) -> Result<Seq<Piece>, CorruptBoard> {
    touching_before(g, pieces_of_kind(g, Kind::Empty), pieces_of_kind(g, Kind::Empty).len() as int)
}

/// The first `m` references of a list, without those to empty cells.
pub open spec fn occupied_before(list: Seq<Piece>, m: int) -> Seq<Piece>
    decreases m,
{
    if m <= 0 {
        Seq::empty()
    } else {
        let earlier = occupied_before(list, m - 1);
        if list[m - 1].kind != Kind::Empty {
            earlier.push(list[m - 1])
        } else {
            earlier
        }
    }
}

/// The pieces that may be able to move: those next to an empty cell, each
/// once, in the order in which they are first met.
pub open spec fn candidates(found: Seq<Piece>) -> Seq<Piece> {
    occupied_before(first_occurrences(found), first_occurrences(found).len() as int)
}

/// The boards collected so far, with the result of one move added if the
/// move is legal.
pub open spec fn with_move(states: Seq<Grid>, g: Grid, p: Piece, d: Direction) -> Seq<Grid> {
    if legal(g, p, d) {
        states.push(moved(g, p, d))
    } else {
        states
    }
}

/// The boards collected so far, with the legal moves of one piece added: up,
/// down, left, right, in that order.
pub open spec fn with_moves(states: Seq<Grid>, g: Grid, p: Piece) -> Seq<Grid> {
    with_move(
        with_move(
            with_move(with_move(states, g, p, Direction::Up), g, p, Direction::Down),
            g,
            p,
            Direction::Left,
        ),
        g,
        p,
        Direction::Right,
    )
}

/// The boards that the legal moves of the first `m` of the given pieces
/// lead to.
pub open spec fn moves_before(g: Grid, list: Seq<Piece>, m: int) -> Seq<Grid>
    decreases m,
{
    if m <= 0 {
        Seq::empty()
    } else {
        with_moves(moves_before(g, list, m - 1), g, list[m - 1])
    }
}

/// The successors of a board: for every piece next to an empty cell, in the
/// order in which they are first met, the boards that its legal moves lead
/// to. Two moves that lead to the same board give it twice.
pub open spec fn next_states(g: Grid) -> Result<Seq<Grid>, CorruptBoard> {
    match touching(g) {
        Err(e) => Err(e),
        Ok(found) => Ok(moves_before(g, candidates(found), candidates(found).len() as int)),
    }
}

/// The number that stands for a reference where references are compared.
pub open spec fn key_of(p: Piece) -> u64 {
    ((4 * p.row + p.col) * 8 + p.kind.tag_of()) as u64
}

/// Once a neighbour has failed to resolve, the collection has failed.
proof fn lemma_touching_fails(g: Grid, cells: Seq<Piece>, m: int, n: int)
    requires
        0 <= m <= n,
        touching_before(g, cells, m) is Err,
    ensures
        touching_before(g, cells, n) is Err,
    decreases n - m,
{
    if m < n {
        lemma_touching_fails(g, cells, m, n - 1);
    }
}

/// The number that stands for a reference to a cell of the grid.
fn piece_key(p: Piece) -> (key: u64)
    requires
        in_grid(p.row as int, p.col as int),
    ensures
        key == key_of(p),
{
    let position: u64 = (4 * p.row + p.col) as u64;
    let tag: u64 = match p.kind {
        Kind::Empty => 0,
        Kind::Single => 1,
        Kind::VerticalPair => 2,
        Kind::HorizontalPair => 3,
        Kind::Square => 4,
    };
    position * 8 + tag
}

/// The reference that a number stands for.
fn piece_of_key(key: u64) -> (p: Piece)
    requires
        exists|q: Piece| in_grid(q.row as int, q.col as int) && key == key_of(q),
    ensures
        in_grid(p.row as int, p.col as int),
        key == key_of(p),
{
    let position: usize = (key / 8) as usize;
    let tag: u64 = key % 8;
    let kind = if tag == 0 {
        Kind::Empty
    } else if tag == 1 {
        Kind::Single
    } else if tag == 2 {
        Kind::VerticalPair
    } else if tag == 3 {
        Kind::HorizontalPair
    } else {
        Kind::Square
    };
    Piece { kind, row: position / 4, col: position % 4 }
}

/// The pieces next to the empty cells, as they are met.
fn touching_pieces(board: &Board) -> (res: Result<Vec<Piece>, CorruptBoard>)
    ensures
        match res {
            Ok(found) => touching(board@) == Ok::<Seq<Piece>, CorruptBoard>(found@),
            Err(_) => touching(board@) is Err,
        },
        res is Ok ==> forall|t: int|
            0 <= t < res->Ok_0@.len() ==> in_grid(
                (#[trigger] res->Ok_0@[t]).row as int,
                res->Ok_0@[t].col as int,
            ),
{
    // The empty cells, in row-major order.
    let mut empties: Vec<Piece> = Vec::new();
    let mut n: usize = 0;
    while n < 20
        invariant
            n <= 20,
            empties@ == listed_before(board@, Some(Kind::Empty), n as int),
            forall|t: int|
                0 <= t < empties@.len() ==> in_grid(
                    (#[trigger] empties@[t]).row as int,
                    empties@[t].col as int,
                ),
        decreases 20 - n,
    {
        let i: usize = n / 4;
        let j: usize = n % 4;
        if board.get(i, j) == Kind::Empty {
            empties.push(Piece { kind: Kind::Empty, row: i, col: j });
        }
        n = n + 1;
    }
    // For each of them, the pieces that touch it.
    let mut found: Vec<Piece> = Vec::new();
    let mut m: usize = 0;
    while m < empties.len()
        invariant
            m <= empties.len(),
            empties@ == pieces_of_kind(board@, Kind::Empty),
            forall|t: int|
                0 <= t < empties@.len() ==> in_grid(
                    (#[trigger] empties@[t]).row as int,
                    empties@[t].col as int,
                ),
            touching_before(board@, empties@, m as int) == Ok::<Seq<Piece>, CorruptBoard>(found@),
            forall|t: int|
                0 <= t < found@.len() ==> in_grid(
                    (#[trigger] found@[t]).row as int,
                    found@[t].col as int,
                ),
        decreases empties.len() - m,
    {
        let i: usize = empties[m].row;
        let j: usize = empties[m].col;
        let ghost before = touching_before(board@, empties@, m as int);
        let ghost g = board@;
        let ghost total = empties@.len() as int;
        if i != 0 && board.get(i - 1, j) != Kind::Empty {
            match get_board_piece_at_ij(board, i - 1, j) {
                Ok(p) => {
                    found.push(p);
                },
                Err(e) => {
                    proof {
                        assert(with_neighbours(before, g, empties@[m as int]) is Err);
                        lemma_touching_fails(g, empties@, m + 1, total);
                    }
                    return Err(e);
                },
            }
        }
        let ghost first = with_neighbour(before, g, i - 1, j as int);
        assert(first == Ok::<Seq<Piece>, CorruptBoard>(found@));
        if i != 4 && board.get(i + 1, j) != Kind::Empty {
            match get_board_piece_at_ij(board, i + 1, j) {
                Ok(p) => {
                    found.push(p);
                },
                Err(e) => {
                    proof {
                        assert(with_neighbours(before, g, empties@[m as int]) is Err);
                        lemma_touching_fails(g, empties@, m + 1, total);
                    }
                    return Err(e);
                },
            }
        }
        let ghost second = with_neighbour(first, g, i + 1, j as int);
        assert(second == Ok::<Seq<Piece>, CorruptBoard>(found@));
        if j != 0 && board.get(i, j - 1) != Kind::Empty {
            match get_board_piece_at_ij(board, i, j - 1) {
                Ok(p) => {
                    found.push(p);
                },
                Err(e) => {
                    proof {
                        assert(with_neighbours(before, g, empties@[m as int]) is Err);
                        lemma_touching_fails(g, empties@, m + 1, total);
                    }
                    return Err(e);
                },
            }
        }
        let ghost third = with_neighbour(second, g, i as int, j - 1);
        assert(third == Ok::<Seq<Piece>, CorruptBoard>(found@));
        if j != 3 && board.get(i, j + 1) != Kind::Empty {
            match get_board_piece_at_ij(board, i, j + 1) {
                Ok(p) => {
                    found.push(p);
                },
                Err(e) => {
                    proof {
                        assert(with_neighbours(before, g, empties@[m as int]) is Err);
                        lemma_touching_fails(g, empties@, m + 1, total);
                    }
                    return Err(e);
                },
            }
        }
        assert(with_neighbours(before, g, empties@[m as int]) == Ok::<Seq<Piece>, CorruptBoard>(
            found@,
        ));
        m = m + 1;
    }
    Ok(found)
}

/// Drops the repeated references of a list and those to empty cells: what
/// stays are the pieces, each once, in the order of their first occurrence.
fn distinct_pieces(found: &Vec<Piece>) -> (kept: Vec<Piece>)
    requires
        forall|t: int|
            0 <= t < found@.len() ==> in_grid(
                (#[trigger] found@[t]).row as int,
                found@[t].col as int,
            ),
    ensures
        kept@ == candidates(found@),
{
    let mut keys: Vec<u64> = Vec::new();
    let mut n: usize = 0;
    while n < found.len()
        invariant
            n <= found.len(),
            forall|t: int|
                0 <= t < found@.len() ==> in_grid(
                    (#[trigger] found@[t]).row as int,
                    found@[t].col as int,
                ),
            keys@ == found@.take(n as int).map_values(|p: Piece| key_of(p)),
        decreases found.len() - n,
    {
        keys.push(piece_key(found[n]));
        assert(keys@ =~= found@.take(n + 1).map_values(|p: Piece| key_of(p)));
        n = n + 1;
    }
    assert(found@.take(n as int) == found@);
    let distinct: Vec<u64> = unique_keys(&keys);
    let ghost firsts = first_occurrences(found@);
    proof {
        lemma_first_occurrences_map(found@, |p: Piece| key_of(p));
        lemma_first_occurrences(found@);
        assert(distinct@ == firsts.map_values(|p: Piece| key_of(p)));
        assert forall|t: int| 0 <= t < firsts.len() implies in_grid(
            (#[trigger] firsts[t]).row as int,
            firsts[t].col as int,
        ) by {
            assert(firsts.contains(firsts[t]));
            assert(found@.contains(firsts[t]));
        }
    }
    let mut kept: Vec<Piece> = Vec::new();
    let mut m: usize = 0;
    while m < distinct.len()
        invariant
            m <= distinct.len(),
            distinct@ == firsts.map_values(|p: Piece| key_of(p)),
            forall|t: int|
                0 <= t < firsts.len() ==> in_grid(
                    (#[trigger] firsts[t]).row as int,
                    firsts[t].col as int,
                ),
            kept@ == occupied_before(firsts, m as int),
        decreases distinct.len() - m,
    {
        assert(distinct@[m as int] == key_of(firsts[m as int]));
        let p = piece_of_key(distinct[m]);
        assert(p == firsts[m as int]);
        if p.kind != Kind::Empty {
            kept.push(p);
        }
        m = m + 1;
    }
    kept
}

/// The board `b` is what one legal move of a piece of the board `g` gives.
pub open spec fn one_move_apart(g: Grid, b: Grid) -> bool {
    exists|p: Piece, d: Direction|
        pieces(g).contains(p) && legal(g, p, d) && b == #[trigger] moved(g, p, d)
}

/// On a board on which every cell resolves to its piece, a cell resolves to
/// the one piece of the board that covers it.
proof fn lemma_resolve_is_cover(g: Grid, p: Piece, r: int, c: int)
    requires
        resolvable(g),
        in_grid(r, c),
        pieces(g).contains(p),
        p.covers(r, c),
    ensures
        resolve(g, r, c) == Ok::<Piece, CorruptBoard>(p),
{
    lemma_resolve_owner(g, r, c);
    lemma_intact_layout(g);
    let q = resolve(g, r, c)->Ok_0;
    assert(g[r][c] == p.kind);
    lemma_pieces_contains(g, q);
    assert(pieces(g).contains(q));
    assert(q.covers(r, c) && p.covers(r, c));
}

/// On a board on which every cell resolves to its piece, adding the piece
/// next to an empty cell cannot fail, and adds a piece of the board, if
/// anything.
proof fn lemma_with_neighbour(g: Grid, list: Seq<Piece>, r: int, c: int)
    requires
        resolvable(g),
        forall|t: int| 0 <= t < list.len() ==> pieces(g).contains(#[trigger] list[t]),
    ensures
        with_neighbour(Ok(list), g, r, c) is Ok,
        forall|t: int|
            0 <= t < with_neighbour(Ok(list), g, r, c)->Ok_0.len() ==> pieces(g).contains(
                #[trigger] with_neighbour(Ok(list), g, r, c)->Ok_0[t],
            ),
        forall|q: Piece| list.contains(q) ==> with_neighbour(Ok(list), g, r, c)->Ok_0.contains(q),
        forall|q: Piece|
            in_grid(r, c) && pieces(g).contains(q) && q.covers(r, c) ==> with_neighbour(
                Ok(list),
                g,
                r,
                c,
            )->Ok_0.contains(q),
{
    let after = with_neighbour(Ok(list), g, r, c);
    if in_grid(r, c) && g[r][c] != Kind::Empty {
        lemma_resolve_owner(g, r, c);
        let p = resolve(g, r, c)->Ok_0;
        lemma_pieces_contains(g, p);
        assert(after == Ok::<Seq<Piece>, CorruptBoard>(list.push(p)));
        assert forall|q: Piece| list.contains(q) implies after->Ok_0.contains(q) by {
            let t = choose|t: int| 0 <= t < list.len() && list[t] == q;
            assert(after->Ok_0[t] == q);
        }
        assert forall|q: Piece|
            in_grid(r, c) && pieces(g).contains(q) && q.covers(r, c) implies after->Ok_0.contains(
            q,
        ) by {
            lemma_resolve_is_cover(g, q, r, c);
            assert(after->Ok_0[list.len() as int] == q);
        }
    } else {
        assert forall|q: Piece|
            in_grid(r, c) && pieces(g).contains(q) && q.covers(r, c) implies after->Ok_0.contains(
            q,
        ) by {
            lemma_intact_layout(g);
            assert(g[r][c] == q.kind);
            lemma_pieces_contains(g, q);
        }
    }
}

/// The same for the four cells around an empty cell.
proof fn lemma_with_neighbours(g: Grid, list: Seq<Piece>, cell: Piece)
    requires
        resolvable(g),
        forall|t: int| 0 <= t < list.len() ==> pieces(g).contains(#[trigger] list[t]),
    ensures
        with_neighbours(Ok(list), g, cell) is Ok,
        forall|t: int|
            0 <= t < with_neighbours(Ok(list), g, cell)->Ok_0.len() ==> pieces(g).contains(
                #[trigger] with_neighbours(Ok(list), g, cell)->Ok_0[t],
            ),
        forall|q: Piece| list.contains(q) ==> with_neighbours(Ok(list), g, cell)->Ok_0.contains(q),
        forall|q: Piece, r: int, c: int|
            #![trigger q.covers(r, c)]
            in_grid(r, c) && pieces(g).contains(q) && q.covers(r, c) && ((r == cell.row - 1 && c
                == cell.col) || (r == cell.row + 1 && c == cell.col) || (r == cell.row && c
                == cell.col - 1) || (r == cell.row && c == cell.col + 1)) ==> with_neighbours(
                Ok(list),
                g,
                cell,
            )->Ok_0.contains(q),
{
    let i = cell.row as int;
    let j = cell.col as int;
    lemma_with_neighbour(g, list, i - 1, j);
    let up = with_neighbour(Ok(list), g, i - 1, j);
    lemma_with_neighbour(g, up->Ok_0, i + 1, j);
    let down = with_neighbour(up, g, i + 1, j);
    lemma_with_neighbour(g, down->Ok_0, i, j - 1);
    let left = with_neighbour(down, g, i, j - 1);
    lemma_with_neighbour(g, left->Ok_0, i, j + 1);
}

/// On a board on which every cell resolves to its piece, collecting the
/// pieces around empty cells cannot fail and gives pieces of the board, among
/// them every piece that touches one of the cells gone through.
proof fn lemma_touching_before(g: Grid, cells: Seq<Piece>, m: int)
    requires
        resolvable(g),
        0 <= m <= cells.len(),
    ensures
        touching_before(g, cells, m) is Ok,
        forall|t: int|
            0 <= t < touching_before(g, cells, m)->Ok_0.len() ==> pieces(g).contains(
                #[trigger] touching_before(g, cells, m)->Ok_0[t],
            ),
        forall|q: Piece, r: int, c: int, u: int|
            #![trigger q.covers(r, c), cells[u]]
            0 <= u < m && in_grid(r, c) && pieces(g).contains(q) && q.covers(r, c) && ((r
                == cells[u].row - 1 && c == cells[u].col) || (r == cells[u].row + 1 && c
                == cells[u].col) || (r == cells[u].row && c == cells[u].col - 1) || (r
                == cells[u].row && c == cells[u].col + 1)) ==> touching_before(
                g,
                cells,
                m,
            )->Ok_0.contains(q),
    decreases m,
{
    if m > 0 {
        lemma_touching_before(g, cells, m - 1);
        let earlier = touching_before(g, cells, m - 1)->Ok_0;
        lemma_with_neighbours(g, earlier, cells[m - 1]);
        let now = touching_before(g, cells, m)->Ok_0;
        assert forall|q: Piece, r: int, c: int, u: int|
            #![trigger q.covers(r, c), cells[u]]
            0 <= u < m && in_grid(r, c) && pieces(g).contains(q) && q.covers(r, c) && ((r
                == cells[u].row - 1 && c == cells[u].col) || (r == cells[u].row + 1 && c
                == cells[u].col) || (r == cells[u].row && c == cells[u].col - 1) || (r
                == cells[u].row && c == cells[u].col + 1)) implies now.contains(q) by {
            if u < m - 1 {
                assert(earlier.contains(q));
            }
        }
    }
}

/// What stays of a list of references: those to pieces, each once.
proof fn lemma_candidates(found: Seq<Piece>)
    ensures
        forall|q: Piece| candidates(found).contains(q) <==> found.contains(q) && q.kind != Kind::Empty,
{
    let firsts = first_occurrences(found);
    lemma_first_occurrences(found);
    lemma_occupied_before(firsts, firsts.len() as int);
    assert forall|q: Piece| candidates(found).contains(q) <==> found.contains(q) && q.kind
        != Kind::Empty by {
        if found.contains(q) && q.kind != Kind::Empty {
            assert(firsts.contains(q));
            let t = choose|t: int| 0 <= t < firsts.len() && firsts[t] == q;
            assert(firsts[t] == q);
        }
        if candidates(found).contains(q) {
            let t = choose|t: int| 0 <= t < firsts.len() && firsts[t] == q && q.kind != Kind::Empty;
            assert(firsts.contains(q));
        }
    }
}

/// What stays of the first `m` references of a list: those to pieces.
proof fn lemma_occupied_before(list: Seq<Piece>, m: int)
    requires
        0 <= m <= list.len(),
    ensures
        forall|q: Piece|
            occupied_before(list, m).contains(q) <==> (exists|t: int|
                0 <= t < m && #[trigger] list[t] == q && q.kind != Kind::Empty),
    decreases m,
{
    if m > 0 {
        lemma_occupied_before(list, m - 1);
        let earlier = occupied_before(list, m - 1);
        let now = occupied_before(list, m);
        assert forall|q: Piece|
            now.contains(q) <==> (exists|t: int|
                0 <= t < m && #[trigger] list[t] == q && q.kind != Kind::Empty) by {
            if now.contains(q) {
                let u = choose|u: int| 0 <= u < now.len() && now[u] == q;
                if u < earlier.len() {
                    assert(earlier[u] == q);
                    assert(earlier.contains(q));
                } else {
                    assert(list[m - 1] == q);
                }
            }
            if exists|t: int| 0 <= t < m && #[trigger] list[t] == q && q.kind != Kind::Empty {
                let t = choose|t: int| 0 <= t < m && #[trigger] list[t] == q && q.kind != Kind::Empty;
                if t < m - 1 {
                    assert(earlier.contains(q));
                    let u = choose|u: int| 0 <= u < earlier.len() && earlier[u] == q;
                    assert(now[u] == q);
                } else {
                    assert(now[now.len() - 1] == q);
                }
            }
        }
    }
}

/// The boards collected hold a board exactly if they held it before or it
/// is what the move gives, the move being legal.
proof fn lemma_with_move(states: Seq<Grid>, g: Grid, p: Piece, d: Direction)
    ensures
        forall|b: Grid|
            with_move(states, g, p, d).contains(b) <==> states.contains(b) || (legal(g, p, d) && b
                == moved(g, p, d)),
{
    let after = with_move(states, g, p, d);
    assert forall|b: Grid|
        after.contains(b) <==> states.contains(b) || (legal(g, p, d) && b == moved(g, p, d)) by {
        if after.contains(b) {
            let u = choose|u: int| 0 <= u < after.len() && after[u] == b;
            if u < states.len() {
                assert(states[u] == b);
            }
        }
        if states.contains(b) {
            let u = choose|u: int| 0 <= u < states.len() && states[u] == b;
            assert(after[u] == b);
        }
        if legal(g, p, d) && b == moved(g, p, d) {
            assert(after[after.len() - 1] == b);
        }
    }
}

/// The boards that the moves of the first `m` pieces of a list lead to are
/// the results of their legal moves.
proof fn lemma_moves_before(g: Grid, list: Seq<Piece>, m: int)
    requires
        0 <= m <= list.len(),
    ensures
        forall|b: Grid|
            moves_before(g, list, m).contains(b) <==> (exists|t: int, d: Direction|
                0 <= t < m && legal(g, list[t], d) && b == #[trigger] moved(g, list[t], d)),
    decreases m,
{
    if m > 0 {
        lemma_moves_before(g, list, m - 1);
        let p = list[m - 1];
        let s0 = moves_before(g, list, m - 1);
        let s1 = with_move(s0, g, p, Direction::Up);
        let s2 = with_move(s1, g, p, Direction::Down);
        let s3 = with_move(s2, g, p, Direction::Left);
        let s4 = with_move(s3, g, p, Direction::Right);
        lemma_with_move(s0, g, p, Direction::Up);
        lemma_with_move(s1, g, p, Direction::Down);
        lemma_with_move(s2, g, p, Direction::Left);
        lemma_with_move(s3, g, p, Direction::Right);
        assert(s4 == moves_before(g, list, m));
        assert forall|b: Grid|
            s4.contains(b) <==> (exists|t: int, d: Direction|
                0 <= t < m && legal(g, list[t], d) && b == #[trigger] moved(g, list[t], d)) by {
            let by_last = |d: Direction| legal(g, p, d) && b == moved(g, p, d);
            assert(s1.contains(b) <==> s0.contains(b) || by_last(Direction::Up));
            assert(s2.contains(b) <==> s1.contains(b) || by_last(Direction::Down));
            assert(s3.contains(b) <==> s2.contains(b) || by_last(Direction::Left));
            assert(s4.contains(b) <==> s3.contains(b) || by_last(Direction::Right));
            let earlier = exists|t: int, d: Direction|
                0 <= t < m - 1 && legal(g, list[t], d) && b == #[trigger] moved(g, list[t], d);
            let now = exists|t: int, d: Direction|
                0 <= t < m && legal(g, list[t], d) && b == #[trigger] moved(g, list[t], d);
            assert(s0.contains(b) <==> earlier);
            if s4.contains(b) {
                if earlier {
                    let (t, d) = choose|t: int, d: Direction|
                        0 <= t < m - 1 && legal(g, list[t], d) && b == #[trigger] moved(
                            g,
                            list[t],
                            d,
                        );
                    assert(0 <= t < m && legal(g, list[t], d) && b == moved(g, list[t], d));
                } else {
                    let d = if by_last(Direction::Up) {
                        Direction::Up
                    } else if by_last(Direction::Down) {
                        Direction::Down
                    } else if by_last(Direction::Left) {
                        Direction::Left
                    } else {
                        Direction::Right
                    };
                    assert(by_last(d));
                    assert(legal(g, list[m - 1], d) && b == moved(g, list[m - 1], d));
                }
                assert(now);
            }
            if now {
                let (t, d) = choose|t: int, d: Direction|
                    0 <= t < m && legal(g, list[t], d) && b == #[trigger] moved(g, list[t], d);
                if t < m - 1 {
                    assert(0 <= t < m - 1 && legal(g, list[t], d) && b == moved(g, list[t], d));
                    assert(earlier);
                } else {
                    assert(by_last(d));
                    match d {
                        Direction::Up => {},
                        Direction::Down => {},
                        Direction::Left => {},
                        Direction::Right => {},
                    }
                }
                assert(s4.contains(b));
            }
        }
    }
}

/// A piece that has a legal move touches an empty cell.
proof fn lemma_movable_touches(g: Grid, p: Piece, d: Direction)
    requires
        well_shaped(g),
        resolvable(g),
        pieces(g).contains(p),
        legal(g, p, d),
    ensures
        touching(g) is Ok,
        touching(g)->Ok_0.contains(p),
{
    let cells = pieces_of_kind(g, Kind::Empty);
    lemma_touching_before(g, cells, cells.len() as int);
    lemma_listing(g, Some(Kind::Empty), 20);
    lemma_intact_layout(g);
    let h = p.kind.height();
    let w = p.kind.width();
    // The cell that the piece moves onto, and the cell of the piece behind it.
    let (er, ec) = match d {
        Direction::Up => (p.row - 1, p.col as int),
        Direction::Down => (p.row + h, p.col as int),
        Direction::Left => (p.row as int, p.col - 1),
        Direction::Right => (p.row as int, p.col + w),
    };
    let (br, bc) = (er - d.row_step(), ec - d.col_step());
    assert(spans(p.kind, p.row + d.row_step(), p.col + d.col_step(), er, ec));
    assert(!p.covers(er, ec));
    assert(g[er][ec] == Kind::Empty);
    assert(p.covers(br, bc));
    assert(is_listed(g, Some(Kind::Empty), er, ec));
    let e = Piece { kind: Kind::Empty, row: er as usize, col: ec as usize };
    assert(cells.contains(e));
    let u = choose|u: int| 0 <= u < cells.len() && cells[u] == e;
    assert(cells[u].row == er && cells[u].col == ec);
    assert(p.covers(br, bc) && cells[u] == e);
}

/// The successors of a board on which every cell resolves to its piece are
/// exactly the boards that one legal move of one of its pieces gives; on
/// each of them, again, every cell resolves to its piece.
pub proof fn lemma_successors(g: Grid)
    requires
        well_shaped(g),
        resolvable(g),
    ensures
        next_states(g) is Ok,
        forall|b: Grid| next_states(g)->Ok_0.contains(b) <==> one_move_apart(g, b),
        forall|b: Grid| next_states(g)->Ok_0.contains(b) ==> well_shaped(b) && resolvable(b),
{
    let cells = pieces_of_kind(g, Kind::Empty);
    lemma_touching_before(g, cells, cells.len() as int);
    let found = touching(g)->Ok_0;
    let list = candidates(found);
    lemma_candidates(found);
    lemma_moves_before(g, list, list.len() as int);
    let states = next_states(g)->Ok_0;
    assert forall|b: Grid| states.contains(b) <==> one_move_apart(g, b) by {
        if states.contains(b) {
            let (t, d) = choose|t: int, d: Direction|
                0 <= t < list.len() && legal(g, list[t], d) && b == #[trigger] moved(g, list[t], d);
            assert(list.contains(list[t]));
            assert(found.contains(list[t]));
            let u = choose|u: int| 0 <= u < found.len() && found[u] == list[t];
            assert(pieces(g).contains(found[u]));
            assert(pieces(g).contains(list[t]) && legal(g, list[t], d) && b == moved(g, list[t], d));
        }
        if one_move_apart(g, b) {
            let (p, d) = choose|p: Piece, d: Direction|
                pieces(g).contains(p) && legal(g, p, d) && b == #[trigger] moved(g, p, d);
            lemma_movable_touches(g, p, d);
            assert(list.contains(p));
            let t = choose|t: int| 0 <= t < list.len() && list[t] == p;
            assert(legal(g, list[t], d) && b == moved(g, list[t], d));
        }
    }
    assert forall|b: Grid| states.contains(b) implies well_shaped(b) && resolvable(b) by {
        let (p, d) = choose|p: Piece, d: Direction|
            pieces(g).contains(p) && legal(g, p, d) && b == #[trigger] moved(g, p, d);
        lemma_move_keeps_resolvable(g, p, d);
        lemma_moved_well_shaped(g, p, d);
    }
}

/// A board without an empty cell is a dead end: it has no successor.
pub proof fn lemma_full_board_has_no_successor(g: Grid)
    requires
        forall|r: int, c: int| in_grid(r, c) ==> #[trigger] g[r][c] != Kind::Empty,
    ensures
        next_states(g) == Ok::<Seq<Grid>, CorruptBoard>(Seq::empty()),
{
    let cells = pieces_of_kind(g, Kind::Empty);
    lemma_listing(g, Some(Kind::Empty), 20);
    if cells.len() > 0 {
        let e = cells[0];
        assert(is_listed(g, Some(Kind::Empty), e.row as int, e.col as int));
    }
    assert(touching(g) == Ok::<Seq<Piece>, CorruptBoard>(Seq::empty()));
    assert(first_occurrences(Seq::<Piece>::empty()) == Seq::<Piece>::empty());
}

/// `res` is what listing the successors of the board `g` gives.
pub open spec fn successors_are(g: Grid, res: Result<Vec<Board>, CorruptBoard>) -> bool {
    match res {
        Ok(states) => next_states(g) == Ok::<Seq<Grid>, CorruptBoard>(states.deep_view()),
        Err(_) => next_states(g) is Err,
    }
}

/// Successors are determined by the board: listing them twice for one board
/// gives the same boards, in the same order, or fails both times.
pub proof fn lemma_successors_deterministic(
    g: Grid,
    first: Result<Vec<Board>, CorruptBoard>,
    second: Result<Vec<Board>, CorruptBoard>,
)
    requires
        successors_are(g, first),
        successors_are(g, second),
    ensures
        first is Ok <==> second is Ok,
        first is Ok ==> first->Ok_0.deep_view() == second->Ok_0.deep_view(),
        first is Ok ==> first->Ok_0.deep_view().to_set() == second->Ok_0.deep_view().to_set(),
{
}

/// Lists the boards that one legal move leads to.
///
/// The pieces next to an empty cell are collected, each resolved from the
/// labels; every one of them is tried in the four directions, and each legal
/// move gives one board. A board without an empty cell, or on which nothing
/// can move, has no successor. Fails if a cell next to an empty one does not
/// resolve to a piece.
pub fn get_next_states(board: &Board) -> (res: Result<Vec<Board>, CorruptBoard>)
    ensures
        successors_are(board@, res),
        resolvable(board@) ==> res is Ok && (forall|b: Grid|
            res->Ok_0.deep_view().contains(b) <==> one_move_apart(board@, b)),
        (forall|r: int, c: int| in_grid(r, c) ==> #[trigger] board@[r][c] != Kind::Empty) ==> res
            is Ok && res->Ok_0@.len() == 0,
{
    proof {
        if resolvable(board@) {
            lemma_successors(board@);
        }
        if forall|r: int, c: int| in_grid(r, c) ==> #[trigger] board@[r][c] != Kind::Empty {
            lemma_full_board_has_no_successor(board@);
        }
    }
    let found = match touching_pieces(board) {
        Ok(found) => found,
        Err(e) => {
            return Err(e);
        },
    };
    let movable = distinct_pieces(&found);
    let mut states: Vec<Board> = Vec::new();
    let mut m: usize = 0;
    assert(states.deep_view() =~= Seq::<Grid>::empty());
    while m < movable.len()
        invariant
            m <= movable.len(),
            states.deep_view() == moves_before(board@, movable@, m as int),
        decreases movable.len() - m,
    {
        let p = movable[m];
        let ghost g = board@;
        let ghost start = states.deep_view();
        if is_valid_move(board, p, Direction::Up) {
            states.push(move_piece(board, p, Direction::Up));
        }
        assert(states.deep_view() =~= with_move(start, g, p, Direction::Up));
        let ghost up = states.deep_view();
        if is_valid_move(board, p, Direction::Down) {
            states.push(move_piece(board, p, Direction::Down));
        }
        assert(states.deep_view() =~= with_move(up, g, p, Direction::Down));
        let ghost down = states.deep_view();
        if is_valid_move(board, p, Direction::Left) {
            states.push(move_piece(board, p, Direction::Left));
        }
        assert(states.deep_view() =~= with_move(down, g, p, Direction::Left));
        let ghost left = states.deep_view();
        if is_valid_move(board, p, Direction::Right) {
            states.push(move_piece(board, p, Direction::Right));
        }
        assert(states.deep_view() =~= with_move(left, g, p, Direction::Right));
        m = m + 1;
    }
    Ok(states)
}

} // verus!
