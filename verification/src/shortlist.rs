//! Keeping the best few of a run of candidates.

use vstd::prelude::*;

use crate::prediction::{
    beats, is_prediction, is_selection, picked, records_at, MAX_PREDICTIONS,
};
use crate::predictionentry::PredictionEntry;
use crate::ranking::holds;
use crate::records::{entry_records, Record};

verus! {

/// `best` holds at most `MAX_PREDICTIONS` positions below `bound`, each
/// beating all that follow it.
pub open spec fn is_shortlist(s: Seq<Record>, best: Seq<usize>, bound: int) -> bool {
    &&& best.len() <= MAX_PREDICTIONS
    &&& forall|k: int| 0 <= k < best.len() ==> #[trigger] best[k] < bound
    &&& forall|k: int, l: int|
        0 <= k < l < best.len() ==> beats(s, #[trigger] best[k] as int, #[trigger] best[l] as int)
}

/// Position `x` stands in the list `best`, or the list is full and its last
/// position beats `x`.
pub open spec fn kept_or_beaten(s: Seq<Record>, best: Seq<usize>, x: int) -> bool {
    holds(best, x) || (best.len() == MAX_PREDICTIONS && beats(
        s,
        best[best.len() - 1] as int,
        x,
    ))
}

/// The records at the positions of a list that has seen every record whose
/// word begins with `prefix` are the prediction for `prefix`.
pub proof fn lemma_shortlist_prediction(
    s: Seq<Record>,
    prefix: Seq<char>,
    best: Seq<usize>,
    r: Seq<Record>,
)
    requires
        is_shortlist(s, best, s.len() as int),
        forall|k: int| 0 <= k < best.len() ==> prefix.is_prefix_of(s[#[trigger] best[k] as int].0),
        forall|j: int|
            0 <= j < s.len() && prefix.is_prefix_of((#[trigger] s[j]).0) ==> kept_or_beaten(
                s,
                best,
                j,
            ),
        r.len() == best.len(),
        forall|k: int| 0 <= k < r.len() ==> #[trigger] r[k] == s[best[k] as int],
    ensures
        is_prediction(s, prefix, r),
{
    let picks = best.map_values(|p: usize| p as int);
    assert forall|k: int| 0 <= k < picks.len() implies 0 <= #[trigger] picks[k] < s.len()
        && prefix.is_prefix_of(s[picks[k]].0) by {
        assert(best[k] < s.len());
    }
    assert forall|k: int, l: int| 0 <= k < l < picks.len() implies beats(
        s,
        #[trigger] picks[k],
        #[trigger] picks[l],
    ) by {
        assert(beats(s, best[k] as int, best[l] as int));
    }
    assert forall|j: int|
        0 <= j < s.len() && prefix.is_prefix_of((#[trigger] s[j]).0) implies picked(picks, j) || (
    picks.len() == MAX_PREDICTIONS && beats(s, picks[picks.len() - 1], j)) by {
        assert(kept_or_beaten(s, best, j));
        if holds(best, j) {
            let k = choose|k: int| 0 <= k < best.len() && #[trigger] best[k] == j;
            assert(picks[k] == j);
        }
    }
    assert(is_selection(s, prefix, picks));
    assert(r =~= records_at(s, picks));
}

/// Offers position `i`, which lies behind all positions in `best`, to the
/// list: it enters behind the positions with a score at least as high, and
/// the last position leaves if the list grows too long.
pub(crate) fn insert_candidate(entries: &Vec<PredictionEntry>, best: &mut Vec<usize>, i: usize)
    requires
        i < entries@.len(),
        is_shortlist(entry_records(entries@), old(best)@, i as int),
    ensures
        is_shortlist(entry_records(entries@), final(best)@, i + 1),
        forall|x: int|
            0 <= x <= i && (x == i || kept_or_beaten(entry_records(entries@), old(best)@, x))
                ==> #[trigger] kept_or_beaten(entry_records(entries@), final(best)@, x),
        forall|k: int|
            0 <= k < final(best)@.len() ==> (#[trigger] final(best)@[k]) == i || old(
                best,
            )@.contains(final(best)@[k]),
{
    let ghost s = entry_records(entries@);
    let ghost before = best@;
    let score: u32 = entries[i].score;
    let mut p: usize = best.len();
    while p > 0 && entries[best[p - 1]].score < score
        invariant
            p <= best@.len(),
            best@ == before,
            i < entries@.len(),
            s == entry_records(entries@),
            score == s[i as int].1,
            is_shortlist(s, before, i as int),
            forall|k: int| p <= k < before.len() ==> s[#[trigger] before[k] as int].1 < score,
        decreases p,
    {
        p = p - 1;
    }
    proof {
        assert forall|k: int| 0 <= k < p implies s[#[trigger] before[k] as int].1 >= score by {
            if k < p - 1 {
                assert(beats(s, before[k] as int, before[p - 1] as int));
            }
        }
    }
    if p == MAX_PREDICTIONS {
        proof {
            assert(beats(s, before[p - 1] as int, i as int));
            assert forall|x: int|
                0 <= x <= i && (x == i || kept_or_beaten(s, before, x)) implies #[trigger] kept_or_beaten(
                s,
                best@,
                x,
            ) by {}
        }
        return ;
    }
    best.insert(p, i);
    let ghost grown = best@;
    proof {
        before.insert_ensures(p as int, i);
        assert(grown.len() == before.len() + 1);
        assert(grown[p as int] == i);
        assert forall|k: int| 0 <= k < p implies grown[k] == before[k] by {}
        assert forall|k: int| p < k < grown.len() implies grown[k] == before[k - 1] by {}
        assert forall|k: int, l: int| 0 <= k < l < grown.len() implies beats(
            s,
            #[trigger] grown[k] as int,
            #[trigger] grown[l] as int,
        ) by {
            if l < p {
                assert(beats(s, before[k] as int, before[l] as int));
            } else if l == p {
                assert(s[before[k] as int].1 >= score);
            } else if k < p {
                assert(beats(s, before[k] as int, before[l - 1] as int));
            } else if k == p {
                assert(s[before[l - 1] as int].1 < score);
            } else {
                assert(beats(s, before[k - 1] as int, before[l - 1] as int));
            }
        }
    }
    if best.len() > MAX_PREDICTIONS {
        best.pop();
        proof {
            assert(best@ =~= grown.take(MAX_PREDICTIONS as int));
            assert forall|k: int| 0 <= k < best@.len() implies best@[k] == grown[k] by {}
        }
    }
    proof {
        assert forall|k: int| 0 <= k < best@.len() implies (#[trigger] best@[k]) == i
            || before.contains(best@[k]) by {
            if k < p {
                assert(best@[k] == before[k]);
            } else if k > p {
                assert(best@[k] == before[k - 1]);
            }
        }
        assert forall|k: int, l: int| 0 <= k < l < best@.len() implies beats(
            s,
            #[trigger] best@[k] as int,
            #[trigger] best@[l] as int,
        ) by {
            assert(beats(s, grown[k] as int, grown[l] as int));
        }
        assert forall|k: int| 0 <= k < best@.len() implies #[trigger] best@[k] < i + 1 by {
            if k < p {
                assert(best@[k] == before[k]);
            } else if k > p {
                assert(best@[k] == before[k - 1]);
            }
        }
        assert forall|x: int|
            0 <= x <= i && (x == i || kept_or_beaten(s, before, x)) implies #[trigger] kept_or_beaten(
            s,
            best@,
            x,
        ) by {
            let last = best@.len() - 1;
            if x == i {
                assert(best@[p as int] == i);
            } else if holds(before, x) {
                let k = choose|k: int| 0 <= k < before.len() && #[trigger] before[k] == x;
                if k < p {
                    assert(best@[k] == x);
                } else if k + 1 < best@.len() {
                    assert(best@[k + 1] == x);
                } else {
                    assert(k == MAX_PREDICTIONS - 1);
                    assert(beats(s, grown[last] as int, grown[k + 1] as int));
                }
            } else {
                let tail = before[before.len() - 1] as int;
                assert(beats(s, tail, x));
                assert(grown[MAX_PREDICTIONS as int] == tail as usize);
                assert(beats(s, grown[last] as int, grown[MAX_PREDICTIONS as int] as int));
            }
        }
    }
}

} // verus!
