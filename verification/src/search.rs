//! The search: a random walk over successors that stops at the first board
//! to meet the target, with the loops cut out of the path it reports.

use vstd::prelude::*;
use rand::rngs::StdRng;
use rand::Rng;
use crate::board::{well_shaped, Board, CorruptBoard, Grid, Piece};
use crate::cycles::{
    collision_free, hash_of, hashes, lemma_without_cycles, lemma_without_cycles_keeps_links,
    remove_cycles, without_cycles,
};
use crate::pieces::{get_board_tuple_repr, intact, pieces, resolvable};
use crate::successors::{get_next_states, lemma_successors, next_states};

verus! {

/// The generator of the `rand` crate that the walk draws its choices from.
/// Nothing is known of its state; it is handed on as it is.
#[verifier::external_type_specification]
#[verifier::external_body]
pub struct ExStdRng(rand::rngs::StdRng);

/// Why a search ended without a solution.
#[derive(Clone, Copy, Debug, PartialEq, Eq, Structural)]
pub enum SearchError {
    /// A board met on the way does not split into whole pieces.
    CorruptBoard,
    /// The walk reached a board on which nothing can move.
    DeadEnd,
    /// The walk used up its steps.
    Exhausted,
}

/// After this many boards visited, and after every further run of as many,
/// the search cuts the loops out of the path it holds.
pub const CLEANUP_PERIOD: usize = 10_000;

/// The board meets the target: one of its pieces is among the references
/// given.
pub open spec fn meets(g: Grid, target: Seq<Piece>) -> bool {
    exists|p: Piece| #[trigger] pieces(g).contains(p) && target.contains(p)
}

/// The board `b` is a successor of the board `a`.
pub open spec fn step(a: Grid, b: Grid) -> bool {
    next_states(a) is Ok && next_states(a)->Ok_0.contains(b)
}

/// Some successor of the board meets the target.
pub open spec fn goal_next(g: Grid, target: Seq<Piece>) -> bool {
    exists|b: Grid| #[trigger] step(g, b) && meets(b, target)
}

/// The boards form a walk from `start`: each is a successor of the one
/// before it.
pub open spec fn walk_from(start: Grid, w: Seq<Grid>) -> bool {
    &&& w.len() >= 1
    &&& w[0] == start
    &&& forall|t: int| 0 <= t < w.len() - 1 ==> step(#[trigger] w[t], w[t + 1])
}

/// A walk from `start` on which the search moved on at every board but the
/// last: none of those had a successor that meets the target.
#[verifier::opaque]
pub open spec fn explored(start: Grid, target: Seq<Piece>, w: Seq<Grid>) -> bool {
    &&& walk_from(start, w)
    &&& forall|t: int| 0 <= t < w.len() - 1 ==> !goal_next(#[trigger] w[t], target)
}

/// The board `b` is the first of the list that meets the target.
pub open spec fn first_to_meet(states: Seq<Grid>, target: Seq<Piece>, b: Grid) -> bool {
    exists|at: int|
        0 <= at < states.len() && #[trigger] states[at] == b && meets(b, target) && forall|t: int|
            0 <= t < at ==> !meets(#[trigger] states[t], target)
}

/// The path that the search holds after it has moved on to the board
/// `chosen`, the `visited`-th board it visits: the board is appended, and
/// where `visited` is a multiple of `CLEANUP_PERIOD` the cycles are removed.
pub open spec fn moved_on(path: Seq<Grid>, visited: int, chosen: Grid) -> Seq<Grid> {
    if visited % (CLEANUP_PERIOD as int) == 0 {
        without_cycles(path.push(chosen))
    } else {
        path.push(chosen)
    }
}

/// The search went the walk `w` and found its last board, which meets the
/// target, the first to do so among the successors of the board before it,
/// and reports `trajectory` for it: a path of boards of the walk that holds
/// no two boards of one hash, starts with a board of the hash of `start` and
/// ends with the board found. Unless two different boards of the walk have
/// the same hash, the trajectory is itself a walk from `start`.
#[verifier::opaque]
pub open spec fn solved_by(
    start: Grid,
    target: Seq<Piece>,
    trajectory: Seq<Grid>,
    visited: int,
    w: Seq<Grid>,
) -> bool {
    &&& w.len() == visited
    &&& visited >= 2
    &&& explored(start, target, w.drop_last())
    &&& step(w[w.len() - 2], w.last())
    &&& first_to_meet(next_states(w[w.len() - 2])->Ok_0, target, w.last())
    &&& 1 <= trajectory.len() <= visited
    &&& trajectory.last() == w.last()
    &&& hash_of(trajectory[0]) == hash_of(start)
    &&& hashes(trajectory).no_duplicates()
    &&& forall|t: int| 0 <= t < trajectory.len() ==> w.contains(#[trigger] trajectory[t])
    &&& collision_free(w) ==> walk_from(start, trajectory)
}

/// The search went the walk `w` and could not go on from its last board,
/// which has no successor.
#[verifier::opaque]
pub open spec fn stuck_after(start: Grid, target: Seq<Piece>, w: Seq<Grid>) -> bool {
    explored(start, target, w) && next_states(w.last()) == Ok::<Seq<Grid>, CorruptBoard>(
        Seq::empty(),
    )
}

/// The search went the walk `w` and met a board that does not split into
/// whole pieces: the last board's successors cannot be listed, or one of
/// them is such a board.
#[verifier::opaque]
pub open spec fn corrupt_after(start: Grid, target: Seq<Piece>, w: Seq<Grid>) -> bool {
    explored(start, target, w) && (next_states(w.last()) is Err || exists|b: Grid| #[trigger]
        step(w.last(), b) && !intact(b))
}

/// The search went the walk `w` and saw no board that meets the target,
/// not among the successors of its last board either.
#[verifier::opaque]
pub open spec fn spent_after(start: Grid, target: Seq<Piece>, w: Seq<Grid>) -> bool {
    explored(start, target, w) && !goal_next(w.last(), target)
}

/// Draws a number below `n`.
///
/// This is `Rng::gen_range` of the `rand` crate with the bounds 0 and `n`.
/// It panics on an empty range, which `n > 0` keeps out, and returns a value
/// of the range; which one is up to the generator, so nothing more is
/// claimed of it.
#[verifier::external_body]
fn pick_below(rng: &mut StdRng, n: usize) -> (k: usize)
    requires
        n > 0,
    ensures
        k < n,
{
    rng.gen_range(0, n)
}

/// Whether a list of references holds a given one.
fn holds(list: &Vec<Piece>, p: Piece) -> (found: bool)
    ensures
        found == list@.contains(p),
{
    let mut n: usize = 0;
    while n < list.len()
        invariant
            n <= list.len(),
            forall|t: int| 0 <= t < n ==> list@[t] != p,
        decreases list.len() - n,
    {
        if list[n] == p {
            return true;
        }
        n = n + 1;
    }
    false
}

/// Tells whether a board meets the target: whether one of its pieces is
/// among the references given.
///
/// Fails if the board does not split into whole pieces.
pub fn meets_target(board: &Board, solns: &Vec<Piece>) -> (res: Result<bool, CorruptBoard>)
    ensures
        res is Ok <==> intact(board@),
        res is Ok ==> res->Ok_0 == meets(board@, solns@),
{
    let placed = match get_board_tuple_repr(board) {
        Ok(placed) => placed,
        Err(e) => {
            return Err(e);
        },
    };
    let mut n: usize = 0;
    while n < placed.len()
        invariant
            n <= placed.len(),
            intact(board@),
            placed@ == pieces(board@),
            forall|t: int| 0 <= t < n ==> !solns@.contains(#[trigger] placed@[t]),
        decreases placed.len() - n,
    {
        if holds(solns, placed[n]) {
            assert(pieces(board@).contains(placed@[n as int]));
            return Ok(true);
        }
        n = n + 1;
    }
    Ok(false)
}

/// Finds the first board of a list that meets the target.
///
/// Fails if a board that does not split into whole pieces comes before any
/// that meets the target.
pub fn first_goal(states: &Vec<Board>, solns: &Vec<Piece>) -> (res: Result<
    Option<usize>,
    CorruptBoard,
>)
    ensures
        match res {
            Ok(Some(at)) => at < states@.len() && intact(states@[at as int]@) && meets(
                states@[at as int]@,
                solns@,
            ) && forall|t: int|
                0 <= t < at ==> intact(#[trigger] states@[t]@) && !meets(states@[t]@, solns@),
            Ok(None) => forall|t: int|
                0 <= t < states@.len() ==> intact(#[trigger] states@[t]@) && !meets(
                    states@[t]@,
                    solns@,
                ),
            Err(_) => exists|at: int|
                0 <= at < states@.len() && !intact(#[trigger] states@[at]@) && forall|t: int|
                    0 <= t < at ==> intact(#[trigger] states@[t]@) && !meets(states@[t]@, solns@),
        },
{
    let mut n: usize = 0;
    while n < states.len()
        invariant
            n <= states.len(),
            forall|t: int|
                0 <= t < n ==> intact(#[trigger] states@[t]@) && !meets(states@[t]@, solns@),
        decreases states.len() - n,
    {
        match meets_target(&states[n], solns) {
            Ok(true) => {
                return Ok(Some(n));
            },
            Ok(false) => {},
            Err(e) => {
                assert(!intact(states@[n as int]@));
                return Err(e);
            },
        }
        n = n + 1;
    }
    Ok(None)
}

/// A walk goes on by any successor of its last board.
proof fn lemma_walk_push(start: Grid, w: Seq<Grid>, b: Grid)
    requires
        walk_from(start, w),
        step(w.last(), b),
    ensures
        walk_from(start, w.push(b)),
        w.push(b).drop_last() == w,
{
    let longer = w.push(b);
    assert forall|t: int| 0 <= t < longer.len() - 1 implies step(
        #[trigger] longer[t],
        longer[t + 1],
    ) by {
        if t < w.len() - 1 {
            assert(step(w[t], w[t + 1]));
        }
    }
    assert(longer.drop_last() =~= w);
}

/// Every board of a walk from a board on which every cell resolves to its
/// piece is such a board: it splits into whole pieces, none of which reaches
/// past the grid or shares a cell with another.
pub proof fn lemma_walk_stays_resolvable(start: Grid, w: Seq<Grid>)
    requires
        well_shaped(start),
        resolvable(start),
        walk_from(start, w),
    ensures
        forall|t: int| 0 <= t < w.len() ==> well_shaped(#[trigger] w[t]) && resolvable(w[t]),
    decreases w.len(),
{
    if w.len() > 1 {
        let front = w.drop_last();
        assert forall|t: int| 0 <= t < front.len() - 1 implies step(
            #[trigger] front[t],
            front[t + 1],
        ) by {
            assert(step(w[t], w[t + 1]));
        }
        lemma_walk_stays_resolvable(start, front);
        let before = w[w.len() - 2];
        assert(before == front[front.len() - 1]);
        assert(step(before, w[w.len() - 2 + 1]));
        lemma_successors(before);
        assert forall|t: int| 0 <= t < w.len() implies well_shaped(#[trigger] w[t]) && resolvable(
            w[t],
        ) by {
            if t < front.len() {
                assert(w[t] == front[t]);
            } else {
                assert(next_states(before)->Ok_0.contains(w[t]));
            }
        }
    }
}

/// A path that holds boards of a walk holds boards of the longer walk when
/// both are extended by the same board.
proof fn lemma_path_push(w: Seq<Grid>, path: Seq<Grid>, b: Grid)
    requires
        forall|t: int| 0 <= t < path.len() ==> w.contains(#[trigger] path[t]),
    ensures
        forall|t: int|
            0 <= t < path.push(b).len() ==> w.push(b).contains(#[trigger] path.push(b)[t]),
        collision_free(w.push(b)) ==> collision_free(w),
{
    let longer = w.push(b);
    let held = path.push(b);
    if collision_free(longer) {
        assert forall|i: int, j: int|
            0 <= i < w.len() && 0 <= j < w.len() && hash_of(w[i]) == hash_of(w[j]) implies w[i]
            == w[j] by {
            assert(longer[i] == w[i] && longer[j] == w[j]);
        }
    }
    assert forall|t: int| 0 <= t < held.len() implies longer.contains(#[trigger] held[t]) by {
        if t < path.len() {
            assert(w.contains(path[t]));
            let u = choose|u: int| 0 <= u < w.len() && w[u] == path[t];
            assert(longer[u] == held[t]);
        } else {
            assert(longer[longer.len() - 1] == held[t]);
        }
    }
}

/// Removing the cycles from a path of boards of a walk gives a path of
/// boards of the walk, with the same last board and a first board of the
/// same hash.
proof fn lemma_path_cleaned(start: Grid, w: Seq<Grid>, path: Seq<Grid>)
    requires
        path.len() >= 1,
        forall|t: int| 0 <= t < path.len() ==> w.contains(#[trigger] path[t]),
        collision_free(w) ==> walk_from(start, path),
    ensures
        collision_free(w) ==> walk_from(start, without_cycles(path)),
        1 <= without_cycles(path).len() <= path.len(),
        without_cycles(path).last() == path.last(),
        hash_of(without_cycles(path)[0]) == hash_of(path[0]),
        hashes(without_cycles(path)).no_duplicates(),
        forall|t: int|
            0 <= t < without_cycles(path).len() ==> w.contains(#[trigger] without_cycles(path)[t]),
{
    let cleaned = without_cycles(path);
    lemma_without_cycles(path);
    assert forall|t: int| 0 <= t < cleaned.len() implies w.contains(#[trigger] cleaned[t]) by {
        assert(cleaned.contains(cleaned[t]));
        assert(path.contains(cleaned[t]));
        let u = choose|u: int| 0 <= u < path.len() && path[u] == cleaned[t];
        assert(w.contains(path[u]));
    }
    if collision_free(w) {
        assert forall|i: int, j: int|
            0 <= i < path.len() && 0 <= j < path.len() && hash_of(path[i]) == hash_of(
                path[j],
            ) implies path[i] == path[j] by {
            assert(w.contains(path[i]) && w.contains(path[j]));
            let a = choose|a: int| 0 <= a < w.len() && w[a] == path[i];
            let b = choose|b: int| 0 <= b < w.len() && w[b] == path[j];
            assert(w[a] == w[b]);
        }
        let link = |a: Grid, b: Grid| step(a, b);
        assert forall|t: int| 0 <= t < path.len() - 1 implies link(#[trigger] path[t], path[t + 1]) by {
            assert(step(path[t], path[t + 1]));
        }
        lemma_without_cycles_keeps_links(path, link);
        assert forall|t: int| 0 <= t < cleaned.len() - 1 implies step(
            #[trigger] cleaned[t],
            cleaned[t + 1],
        ) by {
            assert(link(cleaned[t], cleaned[t + 1]));
        }
    }
}

/// The walk moves on from a board none of whose successors meets the
/// target.
proof fn lemma_explored_push(start: Grid, target: Seq<Piece>, w: Seq<Grid>, b: Grid)
    requires
        explored(start, target, w),
        !goal_next(w.last(), target),
        step(w.last(), b),
    ensures
        explored(start, target, w.push(b)),
        next_states(start) is Ok,
        next_states(start)->Ok_0.len() > 0,
        !goal_next(start, target),
{
    reveal(explored);
    lemma_walk_push(start, w, b);
    let longer = w.push(b);
    assert forall|t: int| 0 <= t < longer.len() - 1 implies !goal_next(
        #[trigger] longer[t],
        target,
    ) by {
        if t < w.len() - 1 {
            assert(!goal_next(w[t], target));
        }
    }
    assert(step(longer[0], longer[1]));
    assert(!goal_next(longer[0], target));
}

/// The search ends at a successor, of the walk's last board, that meets the
/// target.
proof fn lemma_solved(start: Grid, target: Seq<Piece>, w: Seq<Grid>, path: Seq<Grid>, b: Grid)
    requires
        explored(start, target, w),
        step(w.last(), b),
        first_to_meet(next_states(w.last())->Ok_0, target, b),
        1 <= path.len() <= w.len(),
        path.last() == w.last(),
        hash_of(path[0]) == hash_of(start),
        forall|t: int| 0 <= t < path.len() ==> w.contains(#[trigger] path[t]),
        collision_free(w) ==> walk_from(start, path),
    ensures
        solved_by(start, target, without_cycles(path.push(b)), w.len() as int + 1, w.push(b)),
{
    reveal(explored);
    reveal(solved_by);
    let longer = w.push(b);
    let held = path.push(b);
    lemma_walk_push(start, w, b);
    lemma_path_push(w, path, b);
    if collision_free(longer) {
        lemma_walk_push(start, path, b);
    }
    lemma_path_cleaned(start, longer, held);
    assert(longer[longer.len() - 2] == w.last());
    assert(held[0] == path[0]);
}

/// The walk that has not left its first board.
proof fn lemma_explored_start(start: Grid, target: Seq<Piece>)
    ensures
        explored(start, target, seq![start]),
{
    reveal(explored);
}

/// The ways a search ends without a solution, read off the walk it went.
proof fn lemma_gave_up(start: Grid, target: Seq<Piece>, w: Seq<Grid>)
    requires
        explored(start, target, w),
    ensures
        next_states(w.last()) == Ok::<Seq<Grid>, CorruptBoard>(Seq::empty()) ==> stuck_after(
            start,
            target,
            w,
        ),
        !goal_next(w.last(), target) ==> spent_after(start, target, w),
        next_states(w.last()) is Err ==> corrupt_after(start, target, w),
        forall|b: Grid| #[trigger] step(w.last(), b) && !intact(b) ==> corrupt_after(start, target, w),
{
    reveal(stuck_after);
    reveal(spent_after);
    reveal(corrupt_after);
}

/// No successor of the board meets the target if none of those listed does.
proof fn lemma_no_goal_next(g: Grid, target: Seq<Piece>, successors: Seq<Grid>)
    requires
        next_states(g) == Ok::<Seq<Grid>, CorruptBoard>(successors),
        forall|t: int| 0 <= t < successors.len() ==> !meets(#[trigger] successors[t], target),
    ensures
        !goal_next(g, target),
{
    if goal_next(g, target) {
        let b = choose|b: Grid| #[trigger] step(g, b) && meets(b, target);
        let t = choose|t: int| 0 <= t < successors.len() && successors[t] == b;
        assert(!meets(successors[t], target));
    }
}

/// Takes one random step: a successor of the board, drawn by the generator.
///
/// A step is taken exactly if the board has a successor. Fails with
/// `DeadEnd` if it has none, and with `CorruptBoard` if its successors
/// cannot be listed.
pub fn take_step(board: &Board, rng: &mut StdRng) -> (res: Result<Board, SearchError>)
    ensures
        match res {
            Ok(next) => step(board@, next@),
            Err(SearchError::DeadEnd) => next_states(board@) == Ok::<Seq<Grid>, CorruptBoard>(
                Seq::empty(),
            ),
            Err(SearchError::CorruptBoard) => next_states(board@) is Err,
            Err(SearchError::Exhausted) => false,
        },
        resolvable(board@) ==> res != Err::<Board, SearchError>(SearchError::CorruptBoard),
{
    proof {
        if resolvable(board@) {
            lemma_successors(board@);
        }
    }
    let candidates = match get_next_states(board) {
        Ok(states) => states,
        Err(_) => {
            return Err(SearchError::CorruptBoard);
        },
    };
    if candidates.len() == 0 {
        assert(candidates.deep_view() =~= Seq::<Grid>::empty());
        return Err(SearchError::DeadEnd);
    }
    let pick = pick_below(rng, candidates.len());
    assert(candidates.deep_view()[pick as int] == candidates@[pick as int]@);
    Ok(candidates[pick])
}

/// Walks at random: from the board given, `n_steps` times on to a successor
/// drawn by the generator. The boards visited are returned, the first of
/// them the board given.
///
/// Fails with `DeadEnd` if the walk reaches a board without a successor
/// before it has taken all its steps, and with `CorruptBoard` if it reaches
/// one whose successors cannot be listed; the latter does not happen from a
/// board on which every cell resolves to its piece.
pub fn randomwalk(board: Board, n_steps: usize, rng: &mut StdRng) -> (res: Result<
    Vec<Board>,
    SearchError,
>)
    ensures
        match res {
            Ok(states_seq) => walk_from(board@, states_seq.deep_view()) && states_seq@.len()
                == n_steps + 1,
            Err(SearchError::DeadEnd) => exists|w: Seq<Grid>|
                #![trigger walk_from(board@, w)]
                walk_from(board@, w) && w.len() <= n_steps && next_states(w.last()) == Ok::<
                    Seq<Grid>,
                    CorruptBoard,
                >(Seq::empty()),
            Err(SearchError::CorruptBoard) => !resolvable(board@) && exists|w: Seq<Grid>|
                #![trigger walk_from(board@, w)]
                walk_from(board@, w) && w.len() <= n_steps && next_states(w.last()) is Err,
            Err(SearchError::Exhausted) => false,
        },
{
    let mut states_seq: Vec<Board> = Vec::new();
    states_seq.push(board);
    assert(states_seq.deep_view() =~= seq![board@]);
    let mut taken: usize = 0;
    proof {
        board.lemma_well_shaped();
    }
    while taken < n_steps
        invariant
            taken <= n_steps,
            states_seq@.len() == taken + 1,
            walk_from(board@, states_seq.deep_view()),
            resolvable(board@) ==> resolvable(states_seq.deep_view().last()),
        decreases n_steps - taken,
    {
        let current: Board = states_seq[states_seq.len() - 1];
        let ghost w = states_seq.deep_view();
        assert(w.last() == current@);
        proof {
            current.lemma_well_shaped();
            if resolvable(current@) {
                lemma_successors(current@);
            }
        }
        match take_step(&current, rng) {
            Ok(next) => {
                states_seq.push(next);
                proof {
                    lemma_walk_push(board@, w, next@);
                    assert(states_seq.deep_view() =~= w.push(next@));
                }
            },
            Err(e) => {
                assert(walk_from(board@, w));
                return Err(e);
            },
        }
        taken = taken + 1;
    }
    Ok(states_seq)
}

/// Moves the search on to the successor drawn: the board is appended to the
/// path and counted, and when the count reaches a multiple of
/// `CLEANUP_PERIOD` the cycles are removed from the path.
pub fn advance(states_seq: Vec<Board>, nvisited: usize, candidates: &Vec<Board>, pick: usize) -> (res:
    (Vec<Board>, usize))
    requires
        pick < candidates@.len(),
        nvisited < usize::MAX,
    ensures
        res.1 == nvisited + 1,
        res.0.deep_view() == moved_on(states_seq.deep_view(), nvisited + 1, candidates@[pick as int]@),
{
    let mut states_seq = states_seq;
    let ghost before = states_seq.deep_view();
    states_seq.push(candidates[pick]);
    assert(states_seq.deep_view() =~= before.push(candidates@[pick as int]@));
    let nvisited: usize = nvisited + 1;
    if nvisited % CLEANUP_PERIOD == 0 {
        states_seq = remove_cycles(states_seq);
    }
    (states_seq, nvisited)
}

/// Searches for a board that meets the target by a random walk from the
/// board given.
///
/// At every board of the walk the successors are listed. If one of them
/// meets the target, the first such is appended and the search is over: it
/// returns the path, with its cycles removed, and the number of boards
/// visited. Otherwise the walk goes on to a successor drawn by the
/// generator, for at most `max_steps` such steps. Whenever the number of
/// boards visited reaches a multiple of `CLEANUP_PERIOD`, the cycles are
/// removed from the path held so far.
///
/// Fails with `DeadEnd` if the walk reaches a board without a successor,
/// with `Exhausted` if it has taken `max_steps` steps and the last board
/// has no successor that meets the target either, and with `CorruptBoard`
/// if it meets a board that does not split into whole pieces, which does
/// not happen from a board on which every cell resolves to its piece.
pub fn find_solution_path(
    board: Board,
    solns: &Vec<Piece>,
    max_steps: usize,
    rng: &mut StdRng,
) -> (res: Result<(Vec<Board>, usize), SearchError>)
    requires
        max_steps <= usize::MAX - 2,
    ensures
        match res {
            Ok((states_seq, nvisited)) => nvisited <= max_steps + 2 && exists|w: Seq<Grid>|
                #[trigger] solved_by(board@, solns@, states_seq.deep_view(), nvisited as int, w),
            Err(SearchError::DeadEnd) => exists|w: Seq<Grid>|
                w.len() <= max_steps + 1 && #[trigger] stuck_after(board@, solns@, w),
            Err(SearchError::Exhausted) => exists|w: Seq<Grid>|
                w.len() == max_steps + 1 && #[trigger] spent_after(board@, solns@, w),
            Err(SearchError::CorruptBoard) => !resolvable(board@) && exists|w: Seq<Grid>|
                w.len() <= max_steps + 1 && #[trigger] corrupt_after(board@, solns@, w),
        },
        next_states(board@) is Err ==> res == Err::<(Vec<Board>, usize), SearchError>(
            SearchError::CorruptBoard,
        ),
        next_states(board@) == Ok::<Seq<Grid>, CorruptBoard>(Seq::empty()) ==> res == Err::<
            (Vec<Board>, usize),
            SearchError,
        >(SearchError::DeadEnd),
        resolvable(board@) && goal_next(board@, solns@) ==> res is Ok && res->Ok_0.1 == 2,
{
    let mut nvisited: usize = 1;
    let mut states_seq: Vec<Board> = Vec::new();
    states_seq.push(board);
    let mut steps: usize = 0;
    let ghost mut walk: Seq<Grid> = seq![board@];
    proof {
        board.lemma_well_shaped();
        assert(states_seq.deep_view() =~= seq![board@]);
        lemma_explored_start(board@, solns@);
    }
    loop
        invariant
            steps <= max_steps <= usize::MAX - 2,
            nvisited == steps + 1,
            walk.len() == nvisited,
            explored(board@, solns@, walk),
            1 <= states_seq@.len() <= nvisited,
            states_seq.deep_view().last() == walk.last(),
            hash_of(states_seq.deep_view()[0]) == hash_of(board@),
            forall|t: int|
                0 <= t < states_seq@.len() ==> walk.contains(#[trigger] states_seq.deep_view()[t]),
            resolvable(board@) ==> resolvable(walk.last()),
            collision_free(walk) ==> walk_from(board@, states_seq.deep_view()),
            steps == 0 ==> walk.last() == board@,
            steps > 0 ==> next_states(board@) is Ok && next_states(board@)->Ok_0.len() > 0
                && !goal_next(board@, solns@),
        decreases max_steps - steps,
    {
        let current: Board = states_seq[states_seq.len() - 1];
        assert(current@ == walk.last());
        proof {
            current.lemma_well_shaped();
            if resolvable(current@) {
                lemma_successors(current@);
            }
            lemma_gave_up(board@, solns@, walk);
        }
        let candidates = match get_next_states(&current) {
            Ok(states) => states,
            Err(_) => {
                return Err(SearchError::CorruptBoard);
            },
        };
        let ghost successors = candidates.deep_view();
        assert forall|t: int| 0 <= t < successors.len() implies #[trigger] successors[t]
            == candidates@[t]@ by {}
        if candidates.len() == 0 {
            proof {
                assert(successors =~= Seq::<Grid>::empty());
                lemma_no_goal_next(current@, solns@, successors);
            }
            return Err(SearchError::DeadEnd);
        }
        match first_goal(&candidates, solns) {
            Err(_) => {
                proof {
                    let at = choose|at: int|
                        0 <= at < candidates@.len() && !intact(#[trigger] candidates@[at]@)
                            && forall|t: int|
                            0 <= t < at ==> intact(#[trigger] candidates@[t]@) && !meets(
                                candidates@[t]@,
                                solns@,
                            );
                    assert(successors[at] == candidates@[at]@);
                    assert(successors.contains(successors[at]));
                    assert(step(walk.last(), successors[at]) && !intact(successors[at]));
                    if resolvable(board@) {
                        assert(next_states(current@)->Ok_0.contains(successors[at]));
                        assert(resolvable(successors[at]));
                    }
                }
                return Err(SearchError::CorruptBoard);
            },
            Ok(Some(at)) => {
                let found: Board = candidates[at];
                let ghost before = states_seq.deep_view();
                states_seq.push(found);
                nvisited = nvisited + 1;
                proof {
                    assert(successors[at as int] == found@);
                    assert(successors.contains(found@));
                    assert(first_to_meet(successors, solns@, found@));
                    assert(states_seq.deep_view() =~= before.push(found@));
                    lemma_solved(board@, solns@, walk, before, found@);
                }
                states_seq = remove_cycles(states_seq);
                let ghost trajectory = states_seq.deep_view();
                let res: Result<(Vec<Board>, usize), SearchError> = Ok((states_seq, nvisited));
                assert(solved_by(
                    board@,
                    solns@,
                    res->Ok_0.0.deep_view(),
                    res->Ok_0.1 as int,
                    walk.push(found@),
                )) by {
                    assert(res->Ok_0.0.deep_view() == trajectory);
                }
                return res;
            },
            Ok(None) => {},
        }
        proof {
            lemma_no_goal_next(current@, solns@, successors);
        }
        if steps == max_steps {
            return Err(SearchError::Exhausted);
        }
        let pick = pick_below(rng, candidates.len());
        let ghost chosen = candidates@[pick as int]@;
        let ghost before = states_seq.deep_view();
        proof {
            assert(successors[pick as int] == chosen);
            assert(successors.contains(chosen));
            lemma_explored_push(board@, solns@, walk, chosen);
            lemma_path_push(walk, before, chosen);
            if collision_free(walk.push(chosen)) {
                lemma_walk_push(board@, before, chosen);
            }
            assert(before.push(chosen)[0] == before[0]);
            walk = walk.push(chosen);
            lemma_path_cleaned(board@, walk, before.push(chosen));
        }
        let (longer, count) = advance(states_seq, nvisited, &candidates, pick);
        states_seq = longer;
        nvisited = count;
        steps = steps + 1;
    }
}

} // verus!
