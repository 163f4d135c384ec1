//! Dropping repeated items from a list, keeping the first of each.

use vstd::prelude::*;
use itertools::Itertools;

verus! {

/// The list without its repeats: an item stays where it occurs first, and
/// the items that stay keep their order.
pub open spec fn first_occurrences<T>(s: Seq<T>) -> Seq<T>
    decreases s.len(),
{
    if s.len() == 0 {
        Seq::empty()
    } else {
        let earlier = first_occurrences(s.drop_last());
        if earlier.contains(s.last()) {
            earlier
        } else {
            earlier.push(s.last())
        }
    }
}

/// Drops the repeated keys of a list.
///
/// This is `Itertools::unique` of the `itertools` crate, run over the keys
/// in order. Its adaptor hands a key on when it meets it for the first time
/// and skips it from then on, so what comes out are the keys in the order of
/// their first occurrence; the contract says so, and is not proved here.
#[verifier::external_body]
pub(crate) fn unique_keys(keys: &Vec<u64>) -> (kept: Vec<u64>)
    ensures
        kept@ == first_occurrences(keys@),
{
    keys.iter().copied().unique().collect()
}

/// The list without its repeats holds the same items as the list, none of
/// them twice.
pub proof fn lemma_first_occurrences<T>(s: Seq<T>)
    ensures
        first_occurrences(s).no_duplicates(),
        first_occurrences(s).len() <= s.len(),
        forall|x: T| first_occurrences(s).contains(x) <==> s.contains(x),
    decreases s.len(),
{
    if s.len() > 0 {
        let front = s.drop_last();
        let earlier = first_occurrences(front);
        let kept = first_occurrences(s);
        lemma_first_occurrences(front);
        assert forall|x: T| kept.contains(x) <==> s.contains(x) by {
            if kept.contains(x) {
                let t = choose|t: int| 0 <= t < kept.len() && kept[t] == x;
                if t < earlier.len() {
                    assert(earlier[t] == x);
                    assert(earlier.contains(x));
                    assert(front.contains(x));
                    let u = choose|u: int| 0 <= u < front.len() && front[u] == x;
                    assert(s[u] == x);
                } else {
                    assert(s[s.len() - 1] == x);
                }
            }
            if s.contains(x) {
                let u = choose|u: int| 0 <= u < s.len() && s[u] == x;
                if u < front.len() {
                    assert(front[u] == x);
                    assert(front.contains(x));
                    assert(earlier.contains(x));
                    let t = choose|t: int| 0 <= t < earlier.len() && earlier[t] == x;
                    assert(kept[t] == x);
                } else {
                    assert(x == s.last());
                    if !earlier.contains(x) {
                        assert(kept[kept.len() - 1] == x);
                    } else {
                        let t = choose|t: int| 0 <= t < earlier.len() && earlier[t] == x;
                        assert(kept[t] == x);
                    }
                }
            }
        }
    }
}

/// Dropping repeats and renaming the items one for one can be done in
/// either order.
pub proof fn lemma_first_occurrences_map<A, B>(s: Seq<A>, f: spec_fn(A) -> B)
    requires
        forall|i: int, j: int|
            0 <= i < s.len() && 0 <= j < s.len() && f(s[i]) == f(s[j]) ==> s[i] == s[j],
    ensures
        first_occurrences(s.map_values(f)) == first_occurrences(s).map_values(f),
    decreases s.len(),
{
    let mapped = s.map_values(f);
    if s.len() == 0 {
        assert(first_occurrences(s).map_values(f) =~= Seq::<B>::empty());
    } else {
        let front = s.drop_last();
        lemma_first_occurrences_map(front, f);
        lemma_first_occurrences(front);
        assert(mapped.drop_last() =~= front.map_values(f));
        let earlier = first_occurrences(front);
        let earlier_mapped = first_occurrences(mapped.drop_last());
        assert(earlier_mapped == earlier.map_values(f));
        if earlier.contains(s.last()) {
            let t = choose|t: int| 0 <= t < earlier.len() && earlier[t] == s.last();
            assert(earlier_mapped[t] == mapped.last());
        } else {
            if earlier_mapped.contains(mapped.last()) {
                let t = choose|t: int|
                    0 <= t < earlier_mapped.len() && earlier_mapped[t] == mapped.last();
                assert(earlier.contains(earlier[t]));
                assert(front.contains(earlier[t]));
                let u = choose|u: int| 0 <= u < front.len() && front[u] == earlier[t];
                assert(f(s[u]) == f(s[s.len() - 1]));
            }
            assert(earlier.push(s.last()).map_values(f) =~= earlier_mapped.push(mapped.last()));
        }
    }
}

} // verus!
