//! Reading pieces off a board.
//!
//! A cell stores only the shape of the piece that occupies it. Walking the
//! cells row by row, the first cell of a shape that no earlier footprint of
//! that shape has claimed is the anchor of a piece; the rest of its
//! footprint is thereby claimed.

use vstd::prelude::*;
use crate::board::{fits, in_grid, spans, Board, CorruptBoard, Grid, Kind, Piece};

verus! {

/// `(r, c)` is the anchor of a piece of shape `k`: it is labelled `k`, and no
/// footprint of shape `k` anchored above or to the left of it claims it.
pub open spec fn is_anchor(g: Grid, k: Kind, r: int, c: int) -> bool
    decreases
        (if in_grid(r, c) {
            r + c + 1
        } else {
            0
        }),
{
    &&& in_grid(r, c)
    &&& g[r][c] == k
    &&& !(k.width() == 2 && is_anchor(g, k, r, c - 1))
    &&& !(k.height() == 2 && is_anchor(g, k, r - 1, c))
    &&& !(k.height() == 2 && k.width() == 2 && is_anchor(g, k, r - 1, c - 1))
}

/// `(r, c)` is an anchor of shape `k` among the first `n` cells in row-major
/// order.
pub open spec fn anchored_before(g: Grid, k: Kind, r: int, c: int, n: int) -> bool {
    is_anchor(g, k, r, c) && 4 * r + c < n
}

/// How many footprints of shape `k`, anchored among the first `n` cells,
/// contain the cell `(r, c)`.
pub open spec fn covering(g: Grid, k: Kind, r: int, c: int, n: int) -> int {
    (if anchored_before(g, k, r, c, n) {
        1int
    } else {
        0int
    }) + (if k.width() == 2 && anchored_before(g, k, r, c - 1, n) {
        1int
    } else {
        0int
    }) + (if k.height() == 2 && anchored_before(g, k, r - 1, c, n) {
        1int
    } else {
        0int
    }) + (if k.height() == 2 && k.width() == 2 && anchored_before(g, k, r - 1, c - 1, n) {
        1int
    } else {
        0int
    })
}

/// As far as the footprints anchored among the first `n` cells go, the cell
/// `(r, c)` is in order: a footprint anchored at it fits the grid, at most
/// one footprint contains it, and if one does the cell is labelled `k`.
pub open spec fn cell_in_order(g: Grid, k: Kind, r: int, c: int, n: int) -> bool {
    &&& anchored_before(g, k, r, c, n) ==> fits(k, r, c)
    &&& covering(g, k, r, c, n) <= 1
    &&& covering(g, k, r, c, n) == 1 ==> g[r][c] == k
}

/// The footprints of shape `k` anchored among the first `n` cells are
/// complete and do not overlap.
pub open spec fn whole_before(g: Grid, k: Kind, n: int) -> bool {
    forall|r: int, c: int| in_grid(r, c) ==> #[trigger] cell_in_order(g, k, r, c, n)
}

/// The cells labelled `k` split into whole pieces of shape `k`: every
/// footprint fits the grid, is labelled `k` throughout, and shares no cell
/// with another.
pub open spec fn whole(g: Grid, k: Kind) -> bool {
    whole_before(g, k, 20)
}

/// Every shape that takes more than one cell splits into whole pieces.
pub open spec fn intact(g: Grid) -> bool {
    whole(g, Kind::VerticalPair) && whole(g, Kind::HorizontalPair) && whole(g, Kind::Square)
}

/// Which shapes a listing takes: one shape only (`Kind::Empty` lists the
/// empty cells), or every shape a piece can have.
pub open spec fn selects(only: Option<Kind>, k: Kind) -> bool {
    match only {
        Some(shape) => k == shape,
        None => k != Kind::Empty,
    }
}

/// `(r, c)` is the anchor of a piece that the listing takes.
pub open spec fn is_listed(g: Grid, only: Option<Kind>, r: int, c: int) -> bool {
    in_grid(r, c) && selects(only, g[r][c]) && is_anchor(g, g[r][c], r, c)
}

/// The pieces anchored among the first `n` cells that the listing takes, in
/// row-major order.
pub open spec fn listed_before(g: Grid, only: Option<Kind>, n: int) -> Seq<Piece>
    decreases n,
{
    if n <= 0 {
        Seq::empty()
    } else {
        let earlier = listed_before(g, only, n - 1);
        let r = (n - 1) / 4;
        let c = (n - 1) % 4;
        if is_listed(g, only, r, c) {
            earlier.push(Piece { kind: g[r][c], row: r as usize, col: c as usize })
        } else {
            earlier
        }
    }
}

/// The pieces of shape `k` on the board, in row-major order of their
/// anchors. For `Kind::Empty` these are the empty cells.
pub open spec fn pieces_of_kind(g: Grid, k: Kind) -> Seq<Piece> {
    listed_before(g, Some(k), 20)
}

/// The canonical piece list of a board: one reference for each piece, in
/// row-major order of the anchors.
pub open spec fn pieces(g: Grid) -> Seq<Piece> {
    listed_before(g, None, 20)
}

/// Every shape that the listing takes is in order as far as the footprints
/// anchored among the first `n` cells go.
pub open spec fn listing_sound(g: Grid, only: Option<Kind>, n: int) -> bool {
    forall|k: Kind| selects(only, k) ==> #[trigger] whole_before(g, k, n)
}

/// `rest` is the board with the cells blanked that the footprints anchored
/// among the first `n` cells have claimed beyond their anchors; only the
/// cells still to be visited matter.
pub open spec fn tracks(g: Grid, only: Option<Kind>, rest: Grid, n: int) -> bool {
    forall|r: int, c: int|
        in_grid(r, c) && 4 * r + c >= n ==> #[trigger] rest[r][c] == (if selects(only, g[r][c])
            && covering(g, g[r][c], r, c, n) > 0 {
            Kind::Empty
        } else {
            g[r][c]
        })
}

/// `rest` shows a complete, unclaimed footprint of shape `k` at `(i, j)`.
pub open spec fn footprint_free(rest: Grid, k: Kind, i: int, j: int) -> bool {
    &&& fits(k, i, j)
    &&& forall|r: int, c: int| #![trigger rest[r][c]] spans(k, i, j, r, c) ==> rest[r][c] == k
}

/// `after` is `before` with the footprint of shape `k` at `(i, j)` blanked,
/// but for the anchor.
pub open spec fn claimed(before: Grid, after: Grid, k: Kind, i: int, j: int) -> bool {
    forall|r: int, c: int|
        in_grid(r, c) ==> #[trigger] after[r][c] == (if spans(k, i, j, r, c) && !(r == i && c == j) {
            Kind::Empty
        } else {
            before[r][c]
        })
}

/// Counting one more cell adds the footprint anchored at that cell, if there
/// is one, and nothing else.
pub proof fn lemma_covering_step(g: Grid, k: Kind, n: int)
    requires
        0 <= n < 20,
    ensures
        forall|r: int, c: int|
            in_grid(r, c) ==> #[trigger] covering(g, k, r, c, n + 1) == covering(g, k, r, c, n) + (
            if is_anchor(g, k, n / 4, n % 4) && spans(k, n / 4, n % 4, r, c) {
                1int
            } else {
                0int
            }),
{
    let i = n / 4;
    let j = n % 4;
    assert forall|r: int, c: int| in_grid(r, c) implies #[trigger] covering(g, k, r, c, n + 1)
        == covering(g, k, r, c, n) + (if is_anchor(g, k, i, j) && spans(k, i, j, r, c) {
        1int
    } else {
        0int
    }) by {
        assert(anchored_before(g, k, r, c, n + 1) == (anchored_before(g, k, r, c, n) || (
        is_anchor(g, k, i, j) && r == i && c == j)));
        assert(anchored_before(g, k, r, c - 1, n + 1) == (anchored_before(g, k, r, c - 1, n) || (
        is_anchor(g, k, i, j) && r == i && c - 1 == j)));
        assert(anchored_before(g, k, r - 1, c, n + 1) == (anchored_before(g, k, r - 1, c, n) || (
        is_anchor(g, k, i, j) && r - 1 == i && c == j)));
        assert(anchored_before(g, k, r - 1, c - 1, n + 1) == (anchored_before(
            g,
            k,
            r - 1,
            c - 1,
            n,
        ) || (is_anchor(g, k, i, j) && r - 1 == i && c - 1 == j)));
    }
}

/// Counting more cells never lowers the count.
pub proof fn lemma_covering_grows(g: Grid, k: Kind, r: int, c: int, n: int, m: int)
    requires
        n <= m,
    ensures
        covering(g, k, r, c, n) <= covering(g, k, r, c, m),
{
}

/// A footprint claims each of its cells.
pub proof fn lemma_anchor_covers(g: Grid, k: Kind, i: int, j: int, r: int, c: int)
    requires
        is_anchor(g, k, i, j),
        spans(k, i, j, r, c),
    ensures
        covering(g, k, r, c, 4 * i + j + 1) == covering(g, k, r, c, 4 * i + j) + 1,
        covering(g, k, r, c, 20) >= covering(g, k, r, c, 4 * i + j) + 1,
{
    lemma_covering_grows(g, k, r, c, 4 * i + j + 1, 20);
}

/// The footprints anchored among the first `n + 1` cells are in order if
/// those among the first `n` are and the one anchored at cell `n`, if any,
/// fits the grid, is labelled throughout and takes no cell already claimed.
pub proof fn lemma_whole_step(g: Grid, k: Kind, n: int)
    requires
        0 <= n < 20,
        whole_before(g, k, n),
        is_anchor(g, k, n / 4, n % 4) ==> fits(k, n / 4, n % 4),
        is_anchor(g, k, n / 4, n % 4) ==> forall|r: int, c: int|
            #![trigger spans(k, n / 4, n % 4, r, c)]
            spans(k, n / 4, n % 4, r, c) ==> g[r][c] == k && covering(g, k, r, c, n) == 0,
    ensures
        whole_before(g, k, n + 1),
{
    lemma_covering_step(g, k, n);
    assert forall|r: int, c: int| in_grid(r, c) implies #[trigger] cell_in_order(
        g,
        k,
        r,
        c,
        n + 1,
    ) by {
        assert(cell_in_order(g, k, r, c, n));
    }
}

/// The cell that the walk visits holds no piece to list: nothing changes.
proof fn lemma_scan_skip(g: Grid, only: Option<Kind>, rest: Grid, n: int)
    requires
        0 <= n < 20,
        tracks(g, only, rest, n),
        listing_sound(g, only, n),
        !selects(only, rest[n / 4][n % 4]),
    ensures
        !is_listed(g, only, n / 4, n % 4),
        tracks(g, only, rest, n + 1),
        listing_sound(g, only, n + 1),
{
    let i = n / 4;
    let j = n % 4;
    assert(in_grid(i, j) && 4 * i + j == n);
    assert(!is_listed(g, only, i, j));
    lemma_covering_step(g, Kind::Empty, n);
    lemma_covering_step(g, Kind::Single, n);
    lemma_covering_step(g, Kind::VerticalPair, n);
    lemma_covering_step(g, Kind::HorizontalPair, n);
    lemma_covering_step(g, Kind::Square, n);
    assert forall|k: Kind| selects(only, k) implies #[trigger] whole_before(g, k, n + 1) by {
        assert(whole_before(g, k, n));
        lemma_whole_step(g, k, n);
    }
}

/// The cell that the walk visits still shows a shape to list: it is the
/// anchor of a piece.
proof fn lemma_scan_anchor(g: Grid, only: Option<Kind>, rest: Grid, n: int)
    requires
        0 <= n < 20,
        tracks(g, only, rest, n),
        selects(only, rest[n / 4][n % 4]),
    ensures
        is_listed(g, only, n / 4, n % 4),
        rest[n / 4][n % 4] == g[n / 4][n % 4],
{
    let i = n / 4;
    let j = n % 4;
    assert(in_grid(i, j) && 4 * i + j == n);
}

/// A footprint that is cut off, mislabelled or already claimed shows that
/// the shape does not split into whole pieces.
proof fn lemma_scan_fail(g: Grid, only: Option<Kind>, rest: Grid, n: int)
    requires
        0 <= n < 20,
        tracks(g, only, rest, n),
        is_listed(g, only, n / 4, n % 4),
        !footprint_free(rest, g[n / 4][n % 4], n / 4, n % 4),
    ensures
        !whole(g, g[n / 4][n % 4]),
{
    let i = n / 4;
    let j = n % 4;
    let k = g[i][j];
    assert(in_grid(i, j) && 4 * i + j == n);
    if !fits(k, i, j) {
        assert(!cell_in_order(g, k, i, j, 20));
    } else {
        let (r, c) = choose|r: int, c: int| spans(k, i, j, r, c) && rest[r][c] != k;
        assert(in_grid(r, c) && 4 * r + c >= n);
        lemma_anchor_covers(g, k, i, j, r, c);
        assert(!cell_in_order(g, k, r, c, 20));
    }
}

/// Claiming the footprint of the piece anchored at the visited cell keeps
/// the walk's bookkeeping right.
proof fn lemma_scan_claim(g: Grid, only: Option<Kind>, rest: Grid, marked: Grid, n: int)
    requires
        0 <= n < 20,
        tracks(g, only, rest, n),
        listing_sound(g, only, n),
        is_listed(g, only, n / 4, n % 4),
        footprint_free(rest, g[n / 4][n % 4], n / 4, n % 4),
        claimed(rest, marked, g[n / 4][n % 4], n / 4, n % 4),
    ensures
        tracks(g, only, marked, n + 1),
        listing_sound(g, only, n + 1),
{
    let i = n / 4;
    let j = n % 4;
    let k = g[i][j];
    assert(in_grid(i, j) && 4 * i + j == n);
    lemma_covering_step(g, Kind::Empty, n);
    lemma_covering_step(g, Kind::Single, n);
    lemma_covering_step(g, Kind::VerticalPair, n);
    lemma_covering_step(g, Kind::HorizontalPair, n);
    lemma_covering_step(g, Kind::Square, n);
    assert forall|r: int, c: int| spans(k, i, j, r, c) implies g[r][c] == k && covering(
        g,
        k,
        r,
        c,
        n,
    ) == 0 by {
        assert(rest[r][c] == k);
    }
    assert forall|other: Kind| selects(only, other) implies #[trigger] whole_before(
        g,
        other,
        n + 1,
    ) by {
        assert(whole_before(g, other, n));
        lemma_whole_step(g, other, n);
    }
    assert forall|r: int, c: int| in_grid(r, c) && 4 * r + c >= n + 1 implies #[trigger] marked[r][c]
        == (if selects(only, g[r][c]) && covering(g, g[r][c], r, c, n + 1) > 0 {
        Kind::Empty
    } else {
        g[r][c]
    }) by {
        assert(rest[r][c] == (if selects(only, g[r][c]) && covering(g, g[r][c], r, c, n) > 0 {
            Kind::Empty
        } else {
            g[r][c]
        }));
    }
}

/// Singles and empty cells are whole pieces by themselves.
pub proof fn lemma_unit_shapes_whole(g: Grid, k: Kind)
    requires
        k == Kind::Empty || k == Kind::Single,
    ensures
        whole(g, k),
{
    assert forall|r: int, c: int| in_grid(r, c) implies #[trigger] cell_in_order(g, k, r, c, 20) by {
    }
}

/// Whether `rest` shows a complete footprint of shape `kind` at `(i, j)`.
fn footprint_is_free(rest: &Board, kind: Kind, i: usize, j: usize) -> (free: bool)
    requires
        in_grid(i as int, j as int),
        rest@[i as int][j as int] == kind,
    ensures
        free == footprint_free(rest@, kind, i as int, j as int),
{
    let (h, w) = kind.extent();
    if i + h > 5 || j + w > 4 {
        return false;
    }
    if w == 2 && rest.get(i, j + 1) != kind {
        return false;
    }
    if h == 2 && rest.get(i + 1, j) != kind {
        return false;
    }
    if h == 2 && w == 2 && rest.get(i + 1, j + 1) != kind {
        return false;
    }
    true
}

/// Blanks the footprint of shape `kind` at `(i, j)`, but for the anchor.
fn claim_footprint(rest: &mut Board, kind: Kind, i: usize, j: usize)
    requires
        fits(kind, i as int, j as int),
    ensures
        claimed(old(rest)@, final(rest)@, kind, i as int, j as int),
{
    let (h, w) = kind.extent();
    if w == 2 {
        rest.put(i, j + 1, Kind::Empty);
    }
    if h == 2 {
        rest.put(i + 1, j, Kind::Empty);
    }
    if h == 2 && w == 2 {
        rest.put(i + 1, j + 1, Kind::Empty);
    }
}

/// Whether a listing takes pieces of this shape.
fn is_selected(only: Option<Kind>, kind: Kind) -> (b: bool)
    ensures
        b == selects(only, kind),
{
    match only {
        Some(shape) => kind == shape,
        None => kind != Kind::Empty,
    }
}

/// Walks the cells in row-major order and lists the pieces found: all of
/// them, or those of one shape. On finding the first cell of a piece it
/// records the piece and blanks the rest of its footprint on a copy of the
/// board, so that no piece is counted twice.
pub fn scan_pieces(board: &Board, only: Option<Kind>) -> (res: Result<Vec<Piece>, CorruptBoard>)
    ensures
        res is Ok <==> (forall|k: Kind| selects(only, k) ==> whole(board@, k)),
        res is Ok ==> res->Ok_0@ == listed_before(board@, only, 20),
{
    let mut rest: Board = *board;
    let mut found: Vec<Piece> = Vec::new();
    let mut n: usize = 0;
    assert(tracks(board@, only, rest@, 0));
    assert forall|k: Kind| selects(only, k) implies #[trigger] whole_before(board@, k, 0) by {
        assert forall|r: int, c: int| in_grid(r, c) implies #[trigger] cell_in_order(
            board@,
            k,
            r,
            c,
            0,
        ) by {
        }
    }
    while n < 20
        invariant
            n <= 20,
            found@ == listed_before(board@, only, n as int),
            listing_sound(board@, only, n as int),
            tracks(board@, only, rest@, n as int),
        decreases 20 - n,
    {
        let i: usize = n / 4;
        let j: usize = n % 4;
        let kind = rest.get(i, j);
        if is_selected(only, kind) {
            proof {
                lemma_scan_anchor(board@, only, rest@, n as int);
            }
            if !footprint_is_free(&rest, kind, i, j) {
                proof {
                    lemma_scan_fail(board@, only, rest@, n as int);
                }
                return Err(CorruptBoard);
            }
            let ghost before = rest@;
            claim_footprint(&mut rest, kind, i, j);
            proof {
                lemma_scan_claim(board@, only, before, rest@, n as int);
            }
            found.push(Piece { kind, row: i, col: j });
        } else {
            proof {
                lemma_scan_skip(board@, only, rest@, n as int);
            }
        }
        n = n + 1;
    }
    Ok(found)
}

/// Lists the pieces of one shape, in row-major order of their anchors.
///
/// Fails if the cells of that shape do not split into whole pieces.
pub fn get_board_pieces_of_type(board: &Board, kind: Kind) -> (res: Result<
    Vec<Piece>,
    CorruptBoard,
>)
    ensures
        res is Ok <==> whole(board@, kind),
        res is Ok ==> res->Ok_0@ == pieces_of_kind(board@, kind),
{
    let res = scan_pieces(board, Some(kind));
    proof {
        if whole(board@, kind) {
            assert forall|k: Kind| selects(Some(kind), k) implies whole(board@, k) by {
            }
        } else {
            assert(selects(Some(kind), kind));
        }
    }
    res
}

/// Lists the pieces of a board, in row-major order of their anchors: every
/// occupied cell belongs to exactly one of them.
///
/// Fails if the occupied cells do not split into whole pieces.
pub fn get_board_tuple_repr(board: &Board) -> (res: Result<Vec<Piece>, CorruptBoard>)
    ensures
        res is Ok <==> intact(board@),
        res is Ok ==> res->Ok_0@ == pieces(board@),
{
    let res = scan_pieces(board, None);
    proof {
        if intact(board@) {
            lemma_unit_shapes_whole(board@, Kind::Single);
            assert forall|k: Kind| selects(None, k) implies whole(board@, k) by {
            }
        } else {
            assert(selects(None, Kind::VerticalPair));
            assert(selects(None, Kind::HorizontalPair));
            assert(selects(None, Kind::Square));
        }
    }
    res
}

/// The row-major position of a piece's anchor.
pub open spec fn position(p: Piece) -> int {
    4 * p.row + p.col
}

/// What a listing holds: the anchors it takes among the first `n` cells,
/// each once, in row-major order.
pub proof fn lemma_listing(g: Grid, only: Option<Kind>, n: int)
    requires
        0 <= n <= 20,
    ensures
        forall|t: int|
            0 <= t < listed_before(g, only, n).len() ==> {
                let p = #[trigger] listed_before(g, only, n)[t];
                is_listed(g, only, p.row as int, p.col as int) && p.kind == g[p.row as int][p.col as int]
                    && position(p) < n
            },
        forall|s: int, t: int|
            0 <= s < t < listed_before(g, only, n).len() ==> position(
                #[trigger] listed_before(g, only, n)[s],
            ) < position(#[trigger] listed_before(g, only, n)[t]),
        forall|r: int, c: int|
            #![trigger is_listed(g, only, r, c)]
            is_listed(g, only, r, c) && 4 * r + c < n ==> listed_before(g, only, n).contains(
                Piece { kind: g[r][c], row: r as usize, col: c as usize },
            ),
    decreases n,
{
    if n > 0 {
        lemma_listing(g, only, n - 1);
        let earlier = listed_before(g, only, n - 1);
        let list = listed_before(g, only, n);
        let i = (n - 1) / 4;
        let j = (n - 1) % 4;
        assert forall|r: int, c: int|
            #![trigger is_listed(g, only, r, c)]
            is_listed(g, only, r, c) && 4 * r + c < n implies list.contains(
            Piece { kind: g[r][c], row: r as usize, col: c as usize },
        ) by {
            let p = Piece { kind: g[r][c], row: r as usize, col: c as usize };
            if 4 * r + c < n - 1 {
                assert(earlier.contains(p));
                let t = choose|t: int| 0 <= t < earlier.len() && earlier[t] == p;
                assert(list[t] == p);
            } else {
                assert(r == i && c == j);
                assert(list[list.len() - 1] == p);
            }
        }
    }
}

/// The piece `p` is the one on the board that occupies the cell `(i, j)`.
pub open spec fn owns(g: Grid, p: Piece, i: int, j: int) -> bool {
    &&& p.kind == g[i][j]
    &&& is_anchor(g, p.kind, p.row as int, p.col as int)
    &&& p.covers(i, j)
}

/// The board splits into whole pieces, at most one of them a horizontal
/// pair and at most one a square: on such a board every cell resolves to
/// the piece that owns it.
pub open spec fn resolvable(g: Grid) -> bool {
    &&& intact(g)
    &&& pieces_of_kind(g, Kind::HorizontalPair).len() <= 1
    &&& pieces_of_kind(g, Kind::Square).len() <= 1
}

/// A candidate is a vertical pair in column `j` anchored within one row of
/// row `i`.
pub open spec fn near_in_column(p: Piece, i: int, j: int) -> bool {
    p.col == j && (p.row == i || p.row + 1 == i || p.row == i + 1)
}

/// The first piece of the list, from position `from` on, that stands in
/// column `j` with its anchor within one row of row `i`.
pub open spec fn first_near(list: Seq<Piece>, i: int, j: int, from: int) -> Option<Piece>
    decreases list.len() - from,
{
    if from < 0 || from >= list.len() {
        None
    } else if near_in_column(list[from], i, j) {
        Some(list[from])
    } else {
        first_near(list, i, j, from + 1)
    }
}

/// The piece that the cell `(i, j)` resolves to.
///
/// An empty cell or a single is its own anchor. A vertical pair in the top
/// or the bottom row is placed by that edge, one in between is the first
/// vertical pair of its column anchored within one row of the cell. A
/// horizontal pair in the leftmost or the rightmost column is placed by that
/// edge, one in between is the first horizontal pair of the board. A square
/// is the first square of the board.
pub open spec fn resolve(g: Grid, i: int, j: int) -> Result<Piece, CorruptBoard> {
    let k = g[i][j];
    let here = Piece { kind: k, row: i as usize, col: j as usize };
    match k {
        Kind::Empty | Kind::Single => Ok(here),
        Kind::VerticalPair => if i == 0 {
            Ok(here)
        } else if i == 4 {
            Ok(Piece { kind: k, row: 3, col: j as usize })
        } else if !whole(g, k) {
            Err(CorruptBoard)
        } else {
            match first_near(pieces_of_kind(g, k), i, j, 0) {
                Some(p) => Ok(p),
                None => Err(CorruptBoard),
            }
        },
        Kind::HorizontalPair => if j == 0 {
            Ok(here)
        } else if j == 3 {
            Ok(Piece { kind: k, row: i as usize, col: 2 })
        } else if !whole(g, k) || pieces_of_kind(g, k).len() == 0 {
            Err(CorruptBoard)
        } else {
            Ok(pieces_of_kind(g, k)[0])
        },
        Kind::Square => if !whole(g, k) || pieces_of_kind(g, k).len() == 0 {
            Err(CorruptBoard)
        } else {
            Ok(pieces_of_kind(g, k)[0])
        },
    }
}

/// In a sorted listing of the vertical pairs, the search for a pair near
/// `(i, j)` finds the piece at position `at` if none before it is near.
proof fn lemma_first_near(list: Seq<Piece>, i: int, j: int, from: int, at: int)
    requires
        0 <= from <= at < list.len(),
        near_in_column(list[at], i, j),
        forall|t: int| from <= t < at ==> !near_in_column(#[trigger] list[t], i, j),
    ensures
        first_near(list, i, j, from) == Some(list[at]),
    decreases at - from,
{
    if from < at {
        lemma_first_near(list, i, j, from + 1, at);
    }
}

/// On a board that splits into whole pieces, with at most one horizontal
/// pair and at most one square, every cell resolves to the piece that
/// occupies it.
pub proof fn lemma_resolve_owner(g: Grid, i: int, j: int)
    requires
        in_grid(i, j),
        resolvable(g),
    ensures
        resolve(g, i, j) is Ok,
        owns(g, resolve(g, i, j)->Ok_0, i, j),
{
    let k = g[i][j];
    lemma_unit_shapes_whole(g, Kind::Empty);
    lemma_unit_shapes_whole(g, Kind::Single);
    assert(whole(g, k));
    lemma_listing(g, Some(k), 20);
    let list = pieces_of_kind(g, k);
    // The anchor of the piece that occupies the cell.
    let (ar, ac) = if is_anchor(g, k, i, j) {
        (i, j)
    } else if k.width() == 2 && is_anchor(g, k, i, j - 1) {
        (i, j - 1)
    } else if k.height() == 2 && is_anchor(g, k, i - 1, j) {
        (i - 1, j)
    } else {
        (i - 1, j - 1)
    };
    assert(is_anchor(g, k, ar, ac) && spans(k, ar, ac, i, j));
    assert(cell_in_order(g, k, i, j, 20));
    assert(cell_in_order(g, k, ar, ac, 20));
    let owner = Piece { kind: k, row: ar as usize, col: ac as usize };
    assert(is_listed(g, Some(k), ar, ac));
    assert(list.contains(owner));
    let at = choose|t: int| 0 <= t < list.len() && list[t] == owner;
    match k {
        Kind::VerticalPair => {
            if 0 < i < 4 {
                assert forall|t: int| 0 <= t < at implies !near_in_column(
                    #[trigger] list[t],
                    i,
                    j,
                ) by {
                    let q = list[t];
                    assert(position(q) < position(list[at]));
                    assert(is_listed(g, Some(k), q.row as int, q.col as int));
                }
                lemma_first_near(list, i, j, 0, at);
            }
        },
        _ => {},
    }
}

/// What the search for a near pair finds is an item of the list.
proof fn lemma_first_near_listed(list: Seq<Piece>, i: int, j: int, from: int)
    requires
        0 <= from,
    ensures
        first_near(list, i, j, from) is Some ==> list.contains(first_near(list, i, j, from)->0),
    decreases list.len() - from,
{
    if from < list.len() {
        if near_in_column(list[from], i, j) {
            assert(list[from] == first_near(list, i, j, from)->0);
        } else {
            lemma_first_near_listed(list, i, j, from + 1);
        }
    }
}

/// Whatever a cell resolves to is a reference to a cell of the grid, of the
/// shape that the cell is labelled with.
pub proof fn lemma_resolve_shape(g: Grid, i: int, j: int)
    requires
        in_grid(i, j),
    ensures
        resolve(g, i, j) is Ok ==> {
            let p = resolve(g, i, j)->Ok_0;
            in_grid(p.row as int, p.col as int) && p.kind == g[i][j]
        },
{
    let k = g[i][j];
    lemma_listing(g, Some(k), 20);
    let list = pieces_of_kind(g, k);
    if resolve(g, i, j) is Ok {
        let p = resolve(g, i, j)->Ok_0;
        if k == Kind::VerticalPair && 0 < i < 4 {
            lemma_first_near_listed(list, i, j, 0);
            let t = choose|t: int| 0 <= t < list.len() && list[t] == p;
            assert(is_listed(g, Some(k), list[t].row as int, list[t].col as int));
        } else if (k == Kind::HorizontalPair && 0 < j < 3) || k == Kind::Square {
            assert(is_listed(g, Some(k), list[0].row as int, list[0].col as int));
        }
    }
}

/// Resolves a cell to the piece that occupies it: its shape and anchor.
///
/// An empty cell or a single is its own anchor. A vertical pair in the top
/// or the bottom row, and a horizontal pair in the leftmost or the rightmost
/// column, is placed by that edge. Any other cell is resolved by listing the
/// pieces of its shape: a vertical pair is the first one of the cell's
/// column anchored within one row of the cell, a horizontal pair or a square
/// is the first one listed. Fails if that listing fails or holds no such
/// piece.
#[verifier::loop_isolation(false)]
pub fn get_board_piece_at_ij(board: &Board, i: usize, j: usize) -> (res: Result<
    Piece,
    CorruptBoard,
>)
    requires
        in_grid(i as int, j as int),
    ensures
        res == resolve(board@, i as int, j as int),
        res is Ok ==> in_grid(res->Ok_0.row as int, res->Ok_0.col as int) && res->Ok_0.kind
            == board@[i as int][j as int],
        resolvable(board@) ==> res is Ok && owns(board@, res->Ok_0, i as int, j as int),
{
    proof {
        lemma_resolve_shape(board@, i as int, j as int);
        if resolvable(board@) {
            lemma_resolve_owner(board@, i as int, j as int);
        }
    }
    let kind = board.get(i, j);
    match kind {
        Kind::Empty | Kind::Single => Ok(Piece { kind, row: i, col: j }),
        Kind::VerticalPair => {
            if i == 0 {
                Ok(Piece { kind, row: i, col: j })
            } else if i == 4 {
                Ok(Piece { kind, row: 3, col: j })
            } else {
                match get_board_pieces_of_type(board, kind) {
                    Ok(list) => {
                        let mut at: usize = 0;
                        while at < list.len()
                            invariant
                                0 < i < 4,
                                at <= list.len(),
                                first_near(list@, i as int, j as int, 0) == first_near(
                                    list@,
                                    i as int,
                                    j as int,
                                    at as int,
                                ),
                            decreases list.len() - at,
                        {
                            let candidate = list[at];
                            if candidate.col == j && (candidate.row == i || candidate.row == i - 1
                                || candidate.row == i + 1) {
                                return Ok(candidate);
                            }
                            at = at + 1;
                        }
                        Err(CorruptBoard)
                    },
                    Err(e) => Err(e),
                }
            }
        },
        Kind::HorizontalPair => {
            if j == 0 {
                Ok(Piece { kind, row: i, col: j })
            } else if j == 3 {
                Ok(Piece { kind, row: i, col: 2 })
            } else {
                match get_board_pieces_of_type(board, kind) {
                    Ok(list) => {
                        if list.len() == 0 {
                            Err(CorruptBoard)
                        } else {
                            Ok(list[0])
                        }
                    },
                    Err(e) => Err(e),
                }
            }
        },
        Kind::Square => {
            match get_board_pieces_of_type(board, kind) {
                Ok(list) => {
                    if list.len() == 0 {
                        Err(CorruptBoard)
                    } else {
                        Ok(list[0])
                    }
                },
                Err(e) => Err(e),
            }
        },
    }
}

/// How many footprints of shape `k`, anchored at the cells of `t`, contain
/// the cell `(r, c)`.
pub open spec fn count_in(t: Set<(int, int)>, k: Kind, r: int, c: int) -> int {
    (if t.contains((r, c)) {
        1int
    } else {
        0int
    }) + (if k.width() == 2 && t.contains((r, c - 1)) {
        1int
    } else {
        0int
    }) + (if k.height() == 2 && t.contains((r - 1, c)) {
        1int
    } else {
        0int
    }) + (if k.height() == 2 && k.width() == 2 && t.contains((r - 1, c - 1)) {
        1int
    } else {
        0int
    })
}

/// The footprints of shape `k` anchored at the cells of `t` tile the cells
/// labelled `k`: each fits the grid, every cell labelled `k` lies in exactly
/// one of them, and no other cell in any.
pub open spec fn tiles(g: Grid, k: Kind, t: Set<(int, int)>) -> bool {
    &&& forall|r: int, c: int| #[trigger] t.contains((r, c)) ==> fits(k, r, c)
    &&& forall|r: int, c: int|
        in_grid(r, c) ==> #[trigger] count_in(t, k, r, c) == (if g[r][c] == k {
            1int
        } else {
            0int
        })
}

/// The cells at which a piece of shape `k` is anchored.
pub open spec fn anchor_set(g: Grid, k: Kind) -> Set<(int, int)> {
    Set::new(|a: (int, int)| is_anchor(g, k, a.0, a.1))
}

/// In a tiling, the cell `(r, c)` is an anchor if and only if the walk in
/// row-major order takes it for one.
proof fn lemma_tiling_unique_at(g: Grid, k: Kind, t: Set<(int, int)>, r: int, c: int)
    requires
        tiles(g, k, t),
    ensures
        is_anchor(g, k, r, c) == t.contains((r, c)),
    decreases
        (if in_grid(r, c) {
            r + c + 1
        } else {
            0
        }),
{
    if in_grid(r, c) {
        lemma_tiling_unique_at(g, k, t, r, c - 1);
        lemma_tiling_unique_at(g, k, t, r - 1, c);
        lemma_tiling_unique_at(g, k, t, r - 1, c - 1);
        assert(count_in(t, k, r, c) == (if g[r][c] == k {
            1int
        } else {
            0int
        }));
    }
}

/// A board has at most one tiling by pieces of a shape: the one that the
/// walk in row-major order finds.
pub proof fn lemma_tiling_unique(g: Grid, k: Kind, t: Set<(int, int)>)
    requires
        tiles(g, k, t),
    ensures
        t == anchor_set(g, k),
{
    assert forall|a: (int, int)| t.contains(a) == anchor_set(g, k).contains(a) by {
        lemma_tiling_unique_at(g, k, t, a.0, a.1);
    }
    assert(t =~= anchor_set(g, k));
}

/// A shape splits into whole pieces exactly if its anchors tile the cells
/// that carry its label.
pub proof fn lemma_whole_is_tiling(g: Grid, k: Kind)
    ensures
        whole(g, k) == tiles(g, k, anchor_set(g, k)),
{
    let t = anchor_set(g, k);
    assert forall|r: int, c: int| in_grid(r, c) implies count_in(t, k, r, c) == covering(
        g,
        k,
        r,
        c,
        20,
    ) by {
        assert(t.contains((r, c)) == anchored_before(g, k, r, c, 20));
        assert(t.contains((r, c - 1)) == anchored_before(g, k, r, c - 1, 20));
        assert(t.contains((r - 1, c)) == anchored_before(g, k, r - 1, c, 20));
        assert(t.contains((r - 1, c - 1)) == anchored_before(g, k, r - 1, c - 1, 20));
    }
    if whole(g, k) {
        assert forall|r: int, c: int| #[trigger] t.contains((r, c)) implies fits(k, r, c) by {
            assert(cell_in_order(g, k, r, c, 20));
        }
        assert forall|r: int, c: int| in_grid(r, c) implies #[trigger] count_in(t, k, r, c) == (
        if g[r][c] == k {
            1int
        } else {
            0int
        }) by {
            assert(cell_in_order(g, k, r, c, 20));
        }
    }
    if tiles(g, k, t) {
        assert forall|r: int, c: int| in_grid(r, c) implies #[trigger] cell_in_order(
            g,
            k,
            r,
            c,
            20,
        ) by {
            assert(count_in(t, k, r, c) == (if g[r][c] == k {
                1int
            } else {
                0int
            }));
            assert(t.contains((r, c)) ==> fits(k, r, c));
        }
    }
}

/// The canonical piece list holds a reference exactly if it names the
/// anchor of a piece and the piece's shape.
pub proof fn lemma_pieces_contains(g: Grid, q: Piece)
    ensures
        pieces(g).contains(q) <==> q.kind != Kind::Empty && is_anchor(
            g,
            q.kind,
            q.row as int,
            q.col as int,
        ),
{
    lemma_listing(g, None, 20);
    if q.kind != Kind::Empty && is_anchor(g, q.kind, q.row as int, q.col as int) {
        assert(is_listed(g, None, q.row as int, q.col as int));
    }
}

/// A shape has at most one piece on the board exactly if no two cells are
/// anchors of it.
pub proof fn lemma_at_most_one(g: Grid, k: Kind)
    ensures
        pieces_of_kind(g, k).len() <= 1 <==> (forall|a: (int, int), b: (int, int)|
            #![trigger anchor_set(g, k).contains(a), anchor_set(g, k).contains(b)]
            anchor_set(g, k).contains(a) && anchor_set(g, k).contains(b) ==> a == b),
{
    lemma_listing(g, Some(k), 20);
    let list = pieces_of_kind(g, k);
    let t = anchor_set(g, k);
    if list.len() <= 1 {
        assert forall|a: (int, int), b: (int, int)|
            #![trigger t.contains(a), t.contains(b)]
            t.contains(a) && t.contains(b) implies a == b by {
            let pa = Piece { kind: k, row: a.0 as usize, col: a.1 as usize };
            let pb = Piece { kind: k, row: b.0 as usize, col: b.1 as usize };
            assert(is_listed(g, Some(k), a.0, a.1));
            assert(is_listed(g, Some(k), b.0, b.1));
            assert(list.contains(pa));
            assert(list.contains(pb));
        }
    } else {
        let one = list[0];
        let other = list[1];
        assert(position(one) < position(other));
        assert(t.contains((one.row as int, one.col as int)));
        assert(t.contains((other.row as int, other.col as int)));
    }
}

/// On a board that splits into whole pieces, every piece lies on the grid
/// and is labelled with its shape throughout, no two pieces share a cell,
/// and every occupied cell belongs to a piece.
pub proof fn lemma_intact_layout(g: Grid)
    requires
        intact(g),
    ensures
        forall|q: Piece| #[trigger]
            pieces(g).contains(q) ==> q.on_grid() && (forall|r: int, c: int|
                #![trigger g[r][c]]
                q.covers(r, c) ==> g[r][c] == q.kind),
        forall|q1: Piece, q2: Piece, r: int, c: int|
            #![trigger q1.covers(r, c), q2.covers(r, c)]
            pieces(g).contains(q1) && pieces(g).contains(q2) && q1.covers(r, c) && q2.covers(r, c)
                ==> q1 == q2,
        forall|r: int, c: int|
            #![trigger g[r][c]]
            in_grid(r, c) && g[r][c] != Kind::Empty ==> exists|q: Piece|
                pieces(g).contains(q) && #[trigger] q.covers(r, c),
{
    lemma_unit_shapes_whole(g, Kind::Single);
    lemma_whole_is_tiling(g, Kind::Single);
    lemma_whole_is_tiling(g, Kind::VerticalPair);
    lemma_whole_is_tiling(g, Kind::HorizontalPair);
    lemma_whole_is_tiling(g, Kind::Square);
    assert forall|q: Piece| #[trigger] pieces(g).contains(q) implies q.on_grid() && (forall|
        r: int,
        c: int,
    |
        #![trigger g[r][c]]
        q.covers(r, c) ==> g[r][c] == q.kind) by {
        lemma_pieces_contains(g, q);
        let t = anchor_set(g, q.kind);
        assert(t.contains((q.row as int, q.col as int)));
        assert forall|r: int, c: int| #![trigger g[r][c]] q.covers(r, c) implies g[r][c]
            == q.kind by {
            assert(count_in(t, q.kind, r, c) == (if g[r][c] == q.kind {
                1int
            } else {
                0int
            }));
        }
    }
    assert forall|q1: Piece, q2: Piece, r: int, c: int|
        #![trigger q1.covers(r, c), q2.covers(r, c)]
        pieces(g).contains(q1) && pieces(g).contains(q2) && q1.covers(r, c) && q2.covers(
            r,
            c,
        ) implies q1 == q2 by {
        lemma_pieces_contains(g, q1);
        lemma_pieces_contains(g, q2);
        let t1 = anchor_set(g, q1.kind);
        let t2 = anchor_set(g, q2.kind);
        assert(t1.contains((q1.row as int, q1.col as int)));
        assert(t2.contains((q2.row as int, q2.col as int)));
        assert(fits(q1.kind, q1.row as int, q1.col as int));
        assert(count_in(t1, q1.kind, r, c) == (if g[r][c] == q1.kind {
            1int
        } else {
            0int
        }));
        assert(count_in(t2, q2.kind, r, c) == (if g[r][c] == q2.kind {
            1int
        } else {
            0int
        }));
    }
    assert forall|r: int, c: int|
        #![trigger g[r][c]]
        in_grid(r, c) && g[r][c] != Kind::Empty implies exists|q: Piece|
        pieces(g).contains(q) && #[trigger] q.covers(r, c) by {
        let k = g[r][c];
        let (ar, ac) = if is_anchor(g, k, r, c) {
            (r, c)
        } else if k.width() == 2 && is_anchor(g, k, r, c - 1) {
            (r, c - 1)
        } else if k.height() == 2 && is_anchor(g, k, r - 1, c) {
            (r - 1, c)
        } else {
            (r - 1, c - 1)
        };
        let q = Piece { kind: k, row: ar as usize, col: ac as usize };
        assert(is_anchor(g, k, ar, ac));
        lemma_pieces_contains(g, q);
        assert(q.covers(r, c));
    }
}

} // verus!
