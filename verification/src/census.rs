//! How often each kind occurs among the nodes of a pre-order, which decides the
//! key that each value gets and whether the tables can take them all.
use vstd::prelude::*;
use crate::ref_table::{grown, room_for, MAX_INDEX};

verus! {

/// How many of the patterns mark the kind `k`.
pub open spec fn occurrences(patterns: Seq<Seq<bool>>, k: int) -> nat
    decreases patterns.len(),
{
    if patterns.len() == 0 {
        0
    } else {
        occurrences(patterns.drop_last(), k) + if patterns.last()[k] {
            1nat
        } else {
            0nat
        }
    }
}

/// The lengths of tables that had the lengths `lens` before they received one
/// value for each mark in `patterns`.
pub open spec fn tally(lens: Seq<nat>, patterns: Seq<Seq<bool>>) -> Seq<nat> {
    Seq::new(lens.len(), |k: int| lens[k] + occurrences(patterns, k))
}

/// Whether tables of the lengths `lens` can receive one value for each mark in
/// `patterns` with every new value still within reach of a key.
pub open spec fn fits(lens: Seq<nat>, patterns: Seq<Seq<bool>>) -> bool {
    forall|k: int|
        0 <= k < lens.len() && occurrences(patterns, k) > 0 ==> lens[k] + #[trigger] occurrences(
            patterns,
            k,
        ) <= MAX_INDEX
}

/// Patterns put behind others add their marks to the count.
pub proof fn lemma_occurrences_concat(first: Seq<Seq<bool>>, second: Seq<Seq<bool>>, k: int)
    ensures
        occurrences(first + second, k) == occurrences(first, k) + occurrences(second, k),
    decreases second.len(),
{
    if second.len() == 0 {
        assert(first + second =~= first);
    } else {
        assert((first + second).drop_last() =~= first + second.drop_last());
        assert((first + second).last() == second.last());
        lemma_occurrences_concat(first, second.drop_last(), k);
    }
}

/// One more pattern adds its own marks.
pub proof fn lemma_occurrences_push(patterns: Seq<Seq<bool>>, pattern: Seq<bool>, k: int)
    ensures
        occurrences(patterns.push(pattern), k) == occurrences(patterns, k) + if pattern[k] {
            1nat
        } else {
            0nat
        },
{
    assert(patterns.push(pattern).drop_last() =~= patterns);
    assert(patterns.push(pattern).last() == pattern);
}

/// Storing the values of one more node grows the tables as `grown` says.
pub proof fn lemma_tally_push(lens: Seq<nat>, patterns: Seq<Seq<bool>>, pattern: Seq<bool>)
    ensures
        tally(lens, patterns.push(pattern)) == grown(tally(lens, patterns), pattern),
{
    assert forall|k: int| 0 <= k < lens.len() implies tally(lens, patterns.push(pattern))[k]
        == grown(tally(lens, patterns), pattern)[k] by {
        lemma_occurrences_push(patterns, pattern, k);
    }
    assert(tally(lens, patterns.push(pattern)) =~= grown(tally(lens, patterns), pattern));
}

/// Counting on from a tally is counting the patterns together.
pub proof fn lemma_tally_concat(lens: Seq<nat>, first: Seq<Seq<bool>>, second: Seq<Seq<bool>>)
    ensures
        tally(tally(lens, first), second) == tally(lens, first + second),
{
    assert forall|k: int| 0 <= k < lens.len() implies tally(tally(lens, first), second)[k]
        == tally(lens, first + second)[k] by {
        lemma_occurrences_concat(first, second, k);
    }
    assert(tally(tally(lens, first), second) =~= tally(lens, first + second));
}

/// No patterns, no change.
pub proof fn lemma_tally_none(lens: Seq<nat>)
    ensures
        tally(lens, Seq::<Seq<bool>>::empty()) == lens,
        fits(lens, Seq::<Seq<bool>>::empty()),
{
    assert(tally(lens, Seq::<Seq<bool>>::empty()) =~= lens);
}

/// What fits as a whole fits in its first part, and one more node after the
/// first part finds room.
pub proof fn lemma_fits_prefix(lens: Seq<nat>, first: Seq<Seq<bool>>, second: Seq<Seq<bool>>)
    requires
        fits(lens, first + second),
    ensures
        fits(lens, first),
        second.len() > 0 ==> room_for(tally(lens, first), second[0]),
{
    assert forall|k: int| 0 <= k < lens.len() && occurrences(first, k) > 0 implies lens[k]
        + #[trigger] occurrences(first, k) <= MAX_INDEX by {
        lemma_occurrences_concat(first, second, k);
        assert(occurrences(first + second, k) > 0);
    }
    if second.len() > 0 {
        let head = second[0];
        assert forall|k: int|
            0 <= k < tally(lens, first).len() && k < head.len() && head[k] implies tally(
            lens,
            first,
        )[k] < MAX_INDEX by {
            lemma_occurrences_concat(first, second, k);
            lemma_occurrences_concat(seq![head], second.drop_first(), k);
            assert(seq![head] + second.drop_first() =~= second);
            lemma_occurrences_push(Seq::<Seq<bool>>::empty(), head, k);
            assert(Seq::<Seq<bool>>::empty().push(head) =~= seq![head]);
            assert(occurrences(second, k) >= 1);
            assert(occurrences(first + second, k) > 0);
        }
    }
}

/// Values fit as a whole where the first part fits and the rest fits into the
/// tables as the first part left them.
pub proof fn lemma_fits_concat(lens: Seq<nat>, first: Seq<Seq<bool>>, second: Seq<Seq<bool>>)
    ensures
        fits(lens, first + second) == (fits(lens, first) && fits(tally(lens, first), second)),
{
    let all = first + second;
    let mid = tally(lens, first);
    if fits(lens, all) {
        lemma_fits_prefix(lens, first, second);
        assert forall|k: int| 0 <= k < mid.len() && occurrences(second, k) > 0 implies mid[k]
            + #[trigger] occurrences(second, k) <= MAX_INDEX by {
            lemma_occurrences_concat(first, second, k);
            assert(occurrences(all, k) > 0);
        }
    }
    if fits(lens, first) && fits(mid, second) {
        assert forall|k: int| 0 <= k < lens.len() && occurrences(all, k) > 0 implies lens[k]
            + #[trigger] occurrences(all, k) <= MAX_INDEX by {
            lemma_occurrences_concat(first, second, k);
            if occurrences(second, k) > 0 {
                assert(mid[k] + occurrences(second, k) <= MAX_INDEX);
            } else {
                assert(occurrences(first, k) > 0);
            }
        }
    }
}

/// What does not fit in a first part does not fit as a whole.
pub proof fn lemma_misfit_grows(lens: Seq<nat>, first: Seq<Seq<bool>>, second: Seq<Seq<bool>>)
    requires
        !fits(lens, first),
    ensures
        !fits(lens, first + second),
{
    if fits(lens, first + second) {
        lemma_fits_prefix(lens, first, second);
    }
}

/// Where the first part fits and the next node finds room, the first part with
/// that node fits; and where the node finds no room, it does not.
pub proof fn lemma_fits_push(lens: Seq<nat>, patterns: Seq<Seq<bool>>, pattern: Seq<bool>)
    requires
        fits(lens, patterns),
        pattern.len() == lens.len(),
    ensures
        fits(lens, patterns.push(pattern)) == room_for(tally(lens, patterns), pattern),
{
    let more = patterns.push(pattern);
    if room_for(tally(lens, patterns), pattern) {
        assert forall|k: int| 0 <= k < lens.len() && occurrences(more, k) > 0 implies lens[k]
            + #[trigger] occurrences(more, k) <= MAX_INDEX by {
            lemma_occurrences_push(patterns, pattern, k);
            if pattern[k] {
                assert(tally(lens, patterns)[k] < MAX_INDEX);
            }
        }
    } else {
        let k = choose|k: int|
            0 <= k < tally(lens, patterns).len() && k < pattern.len() && pattern[k] && !(tally(
                lens,
                patterns,
            )[k] < MAX_INDEX);
        lemma_occurrences_push(patterns, pattern, k);
        assert(occurrences(more, k) > 0);
        assert(lens[k] + occurrences(more, k) > MAX_INDEX);
    }
}

} // verus!
