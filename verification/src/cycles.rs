//! Hashing boards, and cutting the loops out of a trajectory.

use vstd::prelude::*;
use std::collections::hash_map::DefaultHasher;
use std::hash::Hasher;
use vstd::std_specs::hash::DefaultHasherAdditionalSpecFns;
use crate::board::{Board, Grid};
use crate::dedup::{first_occurrences, lemma_first_occurrences, unique_keys};

verus! {

/// The labels of a board as bytes, in row-major order.
pub open spec fn board_bytes(g: Grid) -> Seq<u8> {
    Seq::new(20, |n: int| g[n / 4][n % 4].tag_of() as u8)
}

/// The hash of a board: what the standard hasher makes of its twenty labels,
/// written as one run of bytes.
pub open spec fn hash_of(g: Grid) -> u64 {
    DefaultHasher::spec_finish(seq![board_bytes(g)])
}

/// The hashes of a list of boards.
pub open spec fn hashes(s: Seq<Grid>) -> Seq<u64> {
    s.map_values(|g: Grid| hash_of(g))
}

/// The list without the items from position `from` up to, not including,
/// position `to`.
pub open spec fn cut<T>(s: Seq<T>, from: int, to: int) -> Seq<T> {
    s.take(from) + s.skip(to)
}

/// The trajectory with the loop on the hash `h` cut out: if more than one
/// board has that hash, everything from the first of them up to the last is
/// dropped, and the last stays.
pub open spec fn collapse(s: Seq<Grid>, h: u64) -> Seq<Grid> {
    match (hashes(s).index_of_first(h), hashes(s).index_of_last(h)) {
        (Some(first), Some(last)) => if first < last {
            cut(s, first, last)
        } else {
            s
        },
        _ => s,
    }
}

/// The trajectory after the loops on the first `m` of the given hashes have
/// been cut out, one hash after the other.
pub open spec fn collapse_each(s: Seq<Grid>, hs: Seq<u64>, m: int) -> Seq<Grid>
    decreases m,
{
    if m <= 0 {
        s
    } else {
        collapse(collapse_each(s, hs, m - 1), hs[m - 1])
    }
}

/// The trajectory without its cycles: the hashes that occur in it are taken
/// in the order of their first occurrence, and for each one in turn the loop
/// on it, if the trajectory as it then stands has one, is cut out.
pub open spec fn without_cycles(s: Seq<Grid>) -> Seq<Grid> {
    collapse_each(s, first_occurrences(hashes(s)), first_occurrences(hashes(s)).len() as int)
}

/// Hashes a single board.
pub fn hash_board(board: &Board) -> (h: u64)
    ensures
        h == hash_of(board@),
{
    let mut bytes: Vec<u8> = Vec::new();
    let mut n: usize = 0;
    while n < 20
        invariant
            n <= 20,
            bytes@.len() == n,
            forall|t: int| 0 <= t < n ==> #[trigger] bytes@[t] == board_bytes(board@)[t],
        decreases 20 - n,
    {
        let tag: i32 = board.get(n / 4, n % 4).tag();
        bytes.push(tag as u8);
        n = n + 1;
    }
    assert(bytes@ =~= board_bytes(board@));
    let mut state = DefaultHasher::new();
    state.write(bytes.as_slice());
    assert(state@ =~= seq![board_bytes(board@)]);
    state.finish()
}

/// Hashes every board of a trajectory.
pub fn hash_states_seq(states_seq: &Vec<Board>) -> (hashed: Vec<u64>)
    ensures
        hashed@ == hashes(states_seq.deep_view()),
{
    let mut hashed: Vec<u64> = Vec::new();
    let mut n: usize = 0;
    while n < states_seq.len()
        invariant
            n <= states_seq.len(),
            hashed@.len() == n,
            forall|t: int|
                0 <= t < n ==> #[trigger] hashed@[t] == hash_of(states_seq@[t]@),
        decreases states_seq.len() - n,
    {
        hashed.push(hash_board(&states_seq[n]));
        n = n + 1;
    }
    assert(hashed@ =~= hashes(states_seq.deep_view()));
    hashed
}

/// Drops the items from position `from` up to, not including, position `to`.
fn cut_out<T>(items: &mut Vec<T>, from: usize, to: usize)
    requires
        from <= to <= old(items)@.len(),
    ensures
        final(items)@ == cut(old(items)@, from as int, to as int),
{
    let mut tail = items.split_off(to);
    items.truncate(from);
    items.append(&mut tail);
    assert(items@ =~= cut(old(items)@, from as int, to as int));
}

/// Removes the cycles from a trajectory.
///
/// Every board is hashed. The hashes are taken in the order in which they
/// first occur; where the trajectory, as it stands by then, holds more than
/// one board with that hash, the boards from the first of them up to the
/// last are dropped and the last one stays. What is left holds no hash
/// twice, ends with the board the trajectory ended with, and is empty only
/// if the trajectory was.
pub fn remove_cycles(states_seq: Vec<Board>) -> (cleaned: Vec<Board>)
    ensures
        cleaned.deep_view() == without_cycles(states_seq.deep_view()),
        hashes(cleaned.deep_view()).no_duplicates(),
        cleaned@.len() <= states_seq@.len(),
        states_seq@.len() > 0 ==> cleaned@.len() > 0 && cleaned.deep_view().last()
            == states_seq.deep_view().last() && hash_of(cleaned.deep_view()[0]) == hash_of(
            states_seq.deep_view()[0],
        ),
{
    let mut states_seq = states_seq;
    let ghost given = states_seq.deep_view();
    proof {
        lemma_without_cycles(given);
    }
    let mut hashed_states = hash_states_seq(&states_seq);
    let unique_states = unique_keys(&hashed_states);
    let mut i: usize = 0;
    while i < unique_states.len()
        invariant
            i <= unique_states.len(),
            unique_states@ == first_occurrences(hashes(given)),
            hashed_states@ == hashes(states_seq.deep_view()),
            states_seq.deep_view() == collapse_each(given, unique_states@, i as int),
        decreases unique_states.len() - i,
    {
        let wanted: u64 = unique_states[i];
        let ghost before = states_seq.deep_view();
        // The first and the last board with this hash, if there is any.
        let mut first: usize = 0;
        let mut last: usize = 0;
        let mut seen: bool = false;
        let mut j: usize = 0;
        while j < hashed_states.len()
            invariant
                j <= hashed_states.len(),
                seen ==> first <= last < j && hashed_states@[first as int] == wanted
                    && hashed_states@[last as int] == wanted,
                seen ==> forall|t: int| 0 <= t < first ==> hashed_states@[t] != wanted,
                seen ==> forall|t: int| last < t < j ==> hashed_states@[t] != wanted,
                !seen ==> forall|t: int| 0 <= t < j ==> hashed_states@[t] != wanted,
            decreases hashed_states.len() - j,
        {
            if hashed_states[j] == wanted {
                if !seen {
                    first = j;
                    seen = true;
                }
                last = j;
            }
            j = j + 1;
        }
        proof {
            hashed_states@.index_of_first_ensures(wanted);
            hashed_states@.index_of_last_ensures(wanted);
            if seen {
                assert(hashed_states@.contains(wanted));
                assert(hashed_states@.index_of_first(wanted) == Some(first as int));
                assert(hashed_states@.index_of_last(wanted) == Some(last as int));
            }
        }
        // If the board occurs more than once, drop the loop and keep one of
        // the two ends.
        if seen && first < last {
            cut_out(&mut hashed_states, first, last);
            cut_out(&mut states_seq, first, last);
            assert(states_seq.deep_view() =~= cut(before, first as int, last as int));
            assert(hashed_states@ =~= hashes(states_seq.deep_view()));
        }
        assert(states_seq.deep_view() == collapse(before, wanted));
        i = i + 1;
    }
    states_seq
}

/// The hash `h` belongs to at most one item of the list.
pub open spec fn at_most_once(keys: Seq<u64>, h: u64) -> bool {
    forall|i: int, j: int| 0 <= i < j < keys.len() ==> !(keys[i] == h && keys[j] == h)
}

/// What cutting out the loop on one hash does: that hash is then held by at
/// most one board, no other hash is held by more boards than before, no
/// board is new, and the trajectory still ends as it did and starts with a
/// board of the hash it started with.
pub proof fn lemma_collapse(s: Seq<Grid>, h: u64)
    ensures
        at_most_once(hashes(collapse(s, h)), h),
        forall|k: u64| at_most_once(hashes(s), k) ==> at_most_once(hashes(collapse(s, h)), k),
        forall|g: Grid| collapse(s, h).contains(g) ==> s.contains(g),
        collapse(s, h).len() <= s.len(),
        s.len() > 0 ==> collapse(s, h).len() > 0 && collapse(s, h).last() == s.last() && hash_of(
            collapse(s, h)[0],
        ) == hash_of(s[0]),
{
    let keys = hashes(s);
    let r = collapse(s, h);
    let rk = hashes(r);
    keys.index_of_first_ensures(h);
    keys.index_of_last_ensures(h);
    match (keys.index_of_first(h), keys.index_of_last(h)) {
        (Some(first), Some(last)) => {
            if first < last {
                assert(r == cut(s, first, last));
                assert forall|t: int| 0 <= t < r.len() implies #[trigger] r[t] == s[if t < first {
                    t
                } else {
                    t + (last - first)
                }] by {}
                assert forall|i: int, j: int| 0 <= i < j < rk.len() implies !(rk[i] == h && rk[j]
                    == h) by {
                    let i0 = if i < first {
                        i
                    } else {
                        i + (last - first)
                    };
                    let j0 = if j < first {
                        j
                    } else {
                        j + (last - first)
                    };
                    assert(rk[i] == keys[i0] && rk[j] == keys[j0]);
                }
                assert forall|k: u64| at_most_once(keys, k) implies at_most_once(rk, k) by {
                    assert forall|i: int, j: int| 0 <= i < j < rk.len() implies !(rk[i] == k
                        && rk[j] == k) by {
                        let i0 = if i < first {
                            i
                        } else {
                            i + (last - first)
                        };
                        let j0 = if j < first {
                            j
                        } else {
                            j + (last - first)
                        };
                        assert(rk[i] == keys[i0] && rk[j] == keys[j0]);
                    }
                }
                assert forall|g: Grid| r.contains(g) implies s.contains(g) by {
                    let t = choose|t: int| 0 <= t < r.len() && r[t] == g;
                    let t0 = if t < first {
                        t
                    } else {
                        t + (last - first)
                    };
                    assert(s[t0] == g);
                }
                assert(r.last() == s[s.len() - 1]);
                assert(rk[0] == keys[if 0 < first {
                    0
                } else {
                    last
                }]);
            } else {
                assert(first == last);
                assert forall|i: int, j: int| 0 <= i < j < keys.len() implies !(keys[i] == h
                    && keys[j] == h) by {}
            }
        },
        _ => {
            assert forall|i: int, j: int| 0 <= i < j < keys.len() implies !(keys[i] == h
                && keys[j] == h) by {
                if keys[i] == h {
                    assert(keys.contains(h));
                }
            }
        },
    }
}

/// What cutting out the loops on the first `m` hashes of a list does.
pub proof fn lemma_collapse_each(s: Seq<Grid>, hs: Seq<u64>, m: int)
    requires
        0 <= m <= hs.len(),
    ensures
        forall|t: int| 0 <= t < m ==> at_most_once(hashes(collapse_each(s, hs, m)), #[trigger] hs[t]),
        forall|k: u64| at_most_once(hashes(s), k) ==> at_most_once(hashes(collapse_each(s, hs, m)), k),
        forall|g: Grid| collapse_each(s, hs, m).contains(g) ==> s.contains(g),
        collapse_each(s, hs, m).len() <= s.len(),
        s.len() > 0 ==> collapse_each(s, hs, m).len() > 0 && collapse_each(s, hs, m).last()
            == s.last() && hash_of(collapse_each(s, hs, m)[0]) == hash_of(s[0]),
    decreases m,
{
    if m > 0 {
        lemma_collapse_each(s, hs, m - 1);
        lemma_collapse(collapse_each(s, hs, m - 1), hs[m - 1]);
    }
}

/// A trajectory without its cycles holds no two boards of the same hash, and
/// so no board twice in a row. It holds no board that the trajectory did
/// not, ends with the board the trajectory ended with, and starts with a
/// board of the hash the trajectory started with.
pub proof fn lemma_without_cycles(s: Seq<Grid>)
    ensures
        hashes(without_cycles(s)).no_duplicates(),
        forall|t: int|
            0 <= t < without_cycles(s).len() - 1 ==> hash_of(#[trigger] without_cycles(s)[t])
                != hash_of(without_cycles(s)[t + 1]),
        forall|g: Grid| without_cycles(s).contains(g) ==> s.contains(g),
        without_cycles(s).len() <= s.len(),
        s.len() > 0 ==> without_cycles(s).len() > 0 && without_cycles(s).last() == s.last()
            && hash_of(without_cycles(s)[0]) == hash_of(s[0]),
{
    let hs = first_occurrences(hashes(s));
    let r = without_cycles(s);
    let rk = hashes(r);
    lemma_collapse_each(s, hs, hs.len() as int);
    lemma_first_occurrences(hashes(s));
    assert forall|i: int, j: int| 0 <= i < j < rk.len() implies rk[i] != rk[j] by {
        if rk[i] == rk[j] {
            let h = rk[i];
            assert(r.contains(r[i]));
            assert(s.contains(r[i]));
            let u = choose|u: int| 0 <= u < s.len() && s[u] == r[i];
            assert(hashes(s)[u] == h);
            assert(hashes(s).contains(h));
            assert(hs.contains(h));
            let t = choose|t: int| 0 <= t < hs.len() && hs[t] == h;
            assert(at_most_once(rk, hs[t]));
        }
    }
    assert forall|t: int| 0 <= t < r.len() - 1 implies hash_of(#[trigger] r[t]) != hash_of(
        r[t + 1],
    ) by {
        assert(rk[t] != rk[t + 1]);
    }
}

/// A trajectory that holds no two boards of the same hash has no cycle to
/// remove.
pub proof fn lemma_without_cycles_of_distinct(s: Seq<Grid>)
    requires
        hashes(s).no_duplicates(),
    ensures
        without_cycles(s) == s,
{
    let hs = first_occurrences(hashes(s));
    assert forall|m: int| 0 <= m <= hs.len() implies #[trigger] collapse_each(s, hs, m) == s by {
        lemma_collapse_each_of_distinct(s, hs, m);
    }
}

/// On a trajectory that holds no two boards of the same hash, cutting out
/// loops changes nothing.
proof fn lemma_collapse_each_of_distinct(s: Seq<Grid>, hs: Seq<u64>, m: int)
    requires
        hashes(s).no_duplicates(),
        0 <= m <= hs.len(),
    ensures
        collapse_each(s, hs, m) == s,
    decreases m,
{
    if m > 0 {
        lemma_collapse_each_of_distinct(s, hs, m - 1);
        hashes(s).index_of_first_ensures(hs[m - 1]);
        hashes(s).index_of_last_ensures(hs[m - 1]);
    }
}

/// Removing the cycles a second time changes nothing: a second pass leaves
/// what the first pass gave.
pub proof fn lemma_remove_cycles_twice(s: Seq<Grid>)
    ensures
        without_cycles(without_cycles(s)) == without_cycles(s),
{
    lemma_without_cycles(s);
    lemma_without_cycles_of_distinct(without_cycles(s));
}

/// No two different boards of the list have the same hash.
pub open spec fn collision_free(s: Seq<Grid>) -> bool {
    forall|i: int, j: int|
        0 <= i < s.len() && 0 <= j < s.len() && hash_of(s[i]) == hash_of(s[j]) ==> s[i] == s[j]
}

/// Every board of the list is linked to the next one.
pub open spec fn linked(s: Seq<Grid>, link: spec_fn(Grid, Grid) -> bool) -> bool {
    forall|t: int| 0 <= t < s.len() - 1 ==> link(#[trigger] s[t], s[t + 1])
}

/// Where no two different boards have the same hash, cutting out the loop
/// on a hash joins two occurrences of one board: the links hold across the
/// cut, and the first board stays.
proof fn lemma_collapse_keeps_links(s: Seq<Grid>, h: u64, link: spec_fn(Grid, Grid) -> bool)
    requires
        collision_free(s),
        linked(s, link),
    ensures
        collision_free(collapse(s, h)),
        linked(collapse(s, h), link),
        s.len() > 0 ==> collapse(s, h)[0] == s[0],
{
    let keys = hashes(s);
    let r = collapse(s, h);
    keys.index_of_first_ensures(h);
    keys.index_of_last_ensures(h);
    match (keys.index_of_first(h), keys.index_of_last(h)) {
        (Some(first), Some(last)) => {
            if first < last {
                assert(r == cut(s, first, last));
                assert(hash_of(s[first]) == keys[first] && hash_of(s[last]) == keys[last]);
                assert(s[first] == s[last]);
                assert forall|t: int| 0 <= t < r.len() implies #[trigger] r[t] == s[if t < first {
                    t
                } else {
                    t + (last - first)
                }] by {}
                assert forall|t: int| 0 <= t < r.len() - 1 implies link(
                    #[trigger] r[t],
                    r[t + 1],
                ) by {
                    if t + 1 < first {
                        assert(link(s[t], s[t + 1]));
                    } else if t + 1 == first {
                        assert(link(s[t], s[t + 1]));
                        assert(r[t + 1] == s[last]);
                    } else {
                        assert(link(s[t + (last - first)], s[t + (last - first) + 1]));
                    }
                }
                assert forall|i: int, j: int|
                    0 <= i < r.len() && 0 <= j < r.len() && hash_of(r[i]) == hash_of(
                        r[j],
                    ) implies r[i] == r[j] by {
                    let i0 = if i < first {
                        i
                    } else {
                        i + (last - first)
                    };
                    let j0 = if j < first {
                        j
                    } else {
                        j + (last - first)
                    };
                    assert(r[i] == s[i0] && r[j] == s[j0]);
                }
                assert(r[0] == s[if 0 < first {
                    0
                } else {
                    last
                }]);
            }
        },
        _ => {},
    }
}

/// The same for the loops on the first `m` hashes of a list.
proof fn lemma_collapse_each_keeps_links(
    s: Seq<Grid>,
    hs: Seq<u64>,
    m: int,
    link: spec_fn(Grid, Grid) -> bool,
)
    requires
        collision_free(s),
        linked(s, link),
        0 <= m <= hs.len(),
    ensures
        collision_free(collapse_each(s, hs, m)),
        linked(collapse_each(s, hs, m), link),
        s.len() > 0 ==> collapse_each(s, hs, m)[0] == s[0],
    decreases m,
{
    if m > 0 {
        lemma_collapse_each_keeps_links(s, hs, m - 1, link);
        lemma_collapse(collapse_each(s, hs, m - 1), hs[m - 1]);
        lemma_collapse_each(s, hs, m - 1);
        lemma_collapse_keeps_links(collapse_each(s, hs, m - 1), hs[m - 1], link);
    }
}

/// Where no two different boards of a trajectory have the same hash,
/// removing the cycles keeps it a path: it starts with the same board, and
/// whatever links each board to the next still links them.
pub proof fn lemma_without_cycles_keeps_links(s: Seq<Grid>, link: spec_fn(Grid, Grid) -> bool)
    requires
        collision_free(s),
        linked(s, link),
    ensures
        linked(without_cycles(s), link),
        s.len() > 0 ==> without_cycles(s)[0] == s[0],
{
    let hs = first_occurrences(hashes(s));
    lemma_collapse_each_keeps_links(s, hs, hs.len() as int, link);
}

} // verus!
