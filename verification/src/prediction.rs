//! What a prediction is: the best-scored records whose words begin with a
//! prefix.

use vstd::prelude::*;

use crate::records::{is_table_form, lemma_records_map_at, lemma_sorted_distinct, sorted_records, Record};
use crate::text::lex_lt;

verus! {

/// The greatest number of entries in a prediction.
pub const MAX_PREDICTIONS: usize = 10;

/// The record at position `p` beats the one at `q`: it has the higher score
/// or, at equal scores, the earlier position.
pub open spec fn beats(s: Seq<Record>, p: int, q: int) -> bool {
    s[p].1 > s[q].1 || (s[p].1 == s[q].1 && p < q)
}

/// Position `j` is one of the positions picked.
pub open spec fn picked(picks: Seq<int>, j: int) -> bool {
    exists|k: int| 0 <= k < picks.len() && #[trigger] picks[k] == j
}

/// `picks` lists the positions of the best records of `s` whose words begin
/// with `prefix`: at most `MAX_PREDICTIONS` of them, each beating all that
/// follow it, and each record for such a word that is left out is beaten by
/// the last one picked.
pub open spec fn is_selection(s: Seq<Record>, prefix: Seq<char>, picks: Seq<int>) -> bool {
    &&& picks.len() <= MAX_PREDICTIONS
    &&& forall|k: int|
        0 <= k < picks.len() ==> 0 <= #[trigger] picks[k] < s.len() && prefix.is_prefix_of(
            s[picks[k]].0,
        )
    &&& forall|k: int, l: int|
        0 <= k < l < picks.len() ==> beats(s, #[trigger] picks[k], #[trigger] picks[l])
    &&& forall|j: int|
        0 <= j < s.len() && prefix.is_prefix_of((#[trigger] s[j]).0) ==> picked(picks, j) || (
        picks.len() == MAX_PREDICTIONS && beats(s, picks[picks.len() - 1], j))
}

/// The records at the positions picked.
pub open spec fn records_at(s: Seq<Record>, picks: Seq<int>) -> Seq<Record> {
    picks.map_values(|p: int| s[p])
}

/// `r` is the prediction that the records `s` give for `prefix`: the records
/// whose words begin with `prefix`, the highest score first, records of equal
/// score in the order in which they stand in `s`, cut off after the first
/// `MAX_PREDICTIONS`.
pub open spec fn is_prediction(s: Seq<Record>, prefix: Seq<char>, r: Seq<Record>) -> bool {
    exists|picks: Seq<int>| #[trigger] is_selection(s, prefix, picks) && r == records_at(s, picks)
}

/// Two selections from the same records for the same prefix agree on their
/// first `n` positions.
proof fn lemma_selections_agree(
    s: Seq<Record>,
    prefix: Seq<char>,
    x: Seq<int>,
    y: Seq<int>,
    n: int,
)
    requires
        is_selection(s, prefix, x),
        is_selection(s, prefix, y),
        0 <= n <= x.len(),
        n <= y.len(),
    ensures
        forall|j: int| 0 <= j < n ==> x[j] == y[j],
    decreases n,
{
    if n > 0 {
        lemma_selections_agree(s, prefix, x, y, n - 1);
        let k = n - 1;
        if x[k] != y[k] {
            if beats(s, x[k], y[k]) {
                lemma_selection_gap(s, prefix, x, y, k);
            } else {
                lemma_selection_gap(s, prefix, y, x, k);
            }
        }
    }
}

/// Two selections that agree before position `k` do not hold there a pick
/// of the first that beats that of the second: it would be missing from the
/// second selection.
proof fn lemma_selection_gap(s: Seq<Record>, prefix: Seq<char>, x: Seq<int>, y: Seq<int>, k: int)
    requires
        is_selection(s, prefix, x),
        is_selection(s, prefix, y),
        0 <= k < x.len(),
        k < y.len(),
        forall|j: int| 0 <= j < k ==> x[j] == y[j],
    ensures
        !beats(s, x[k], y[k]),
{
    if beats(s, x[k], y[k]) {
        let p = x[k];
        assert(prefix.is_prefix_of(s[p].0));
        if picked(y, p) {
            let j = choose|j: int| 0 <= j < y.len() && #[trigger] y[j] == p;
            if j < k {
                assert(beats(s, x[j], x[k]));
            } else if j > k {
                assert(beats(s, y[k], y[j]));
            }
        } else {
            let last = y.len() - 1;
            assert(beats(s, y[last], p));
            if k < last {
                assert(beats(s, y[k], y[last]));
            }
        }
    }
}

/// Of two selections from the same records for the same prefix, the second
/// is not the longer one.
proof fn lemma_selection_cover(s: Seq<Record>, prefix: Seq<char>, x: Seq<int>, y: Seq<int>)
    requires
        is_selection(s, prefix, x),
        is_selection(s, prefix, y),
    ensures
        x.len() >= y.len(),
{
    if x.len() < y.len() {
        let n = x.len() as int;
        lemma_selections_agree(s, prefix, x, y, n);
        let p = y[n];
        assert(prefix.is_prefix_of(s[p].0));
        assert(picked(x, p));
        let j = choose|j: int| 0 <= j < x.len() && #[trigger] x[j] == p;
        assert(beats(s, y[j], y[n]));
    }
}

/// Records give one selection for a prefix, and no other.
pub proof fn lemma_selection_unique(s: Seq<Record>, prefix: Seq<char>, x: Seq<int>, y: Seq<int>)
    requires
        is_selection(s, prefix, x),
        is_selection(s, prefix, y),
    ensures
        x == y,
{
    lemma_selection_cover(s, prefix, x, y);
    lemma_selection_cover(s, prefix, y, x);
    lemma_selections_agree(s, prefix, x, y, x.len() as int);
    assert(x =~= y);
}

/// Records give one prediction for a prefix, and no other: whatever meets
/// `is_prediction` is that prediction.
pub proof fn lemma_prediction_unique(
    s: Seq<Record>,
    prefix: Seq<char>,
    x: Seq<Record>,
    y: Seq<Record>,
)
    requires
        is_prediction(s, prefix, x),
        is_prediction(s, prefix, y),
    ensures
        x == y,
{
    let p = choose|picks: Seq<int>| #[trigger]
        is_selection(s, prefix, picks) && x == records_at(s, picks);
    let q = choose|picks: Seq<int>| #[trigger]
        is_selection(s, prefix, picks) && y == records_at(s, picks);
    lemma_selection_unique(s, prefix, p, q);
}

/// A prediction holds at most `MAX_PREDICTIONS` records; each is a record of
/// `s` whose word begins with the prefix; the scores never rise; and where
/// the records are sorted, records of equal score stand in lexical order of
/// their words.
pub proof fn lemma_prediction_ranked(s: Seq<Record>, prefix: Seq<char>, r: Seq<Record>)
    requires
        is_prediction(s, prefix, r),
    ensures
        r.len() <= MAX_PREDICTIONS,
        forall|k: int|
            0 <= k < r.len() ==> s.contains(#[trigger] r[k]) && prefix.is_prefix_of(r[k].0),
        forall|k: int, l: int| 0 <= k < l < r.len() ==> (#[trigger] r[k]).1 >= (#[trigger] r[l]).1,
        sorted_records(s) ==> forall|k: int, l: int|
            0 <= k < l < r.len() && (#[trigger] r[k]).1 == (#[trigger] r[l]).1 ==> !lex_lt(
                r[l].0,
                r[k].0,
            ),
{
    let picks = choose|picks: Seq<int>| #[trigger]
        is_selection(s, prefix, picks) && r == records_at(s, picks);
    assert forall|k: int| 0 <= k < r.len() implies s.contains(#[trigger] r[k])
        && prefix.is_prefix_of(r[k].0) by {
        assert(s[picks[k]] == r[k]);
    }
    assert forall|k: int, l: int| 0 <= k < l < r.len() implies (#[trigger] r[k]).1 >= (
    #[trigger] r[l]).1 by {
        assert(beats(s, picks[k], picks[l]));
    }
    if sorted_records(s) {
        assert forall|k: int, l: int|
            0 <= k < l < r.len() && (#[trigger] r[k]).1 == (#[trigger] r[l]).1 implies !lex_lt(
            r[l].0,
            r[k].0,
        ) by {
            assert(beats(s, picks[k], picks[l]));
            assert(!lex_lt(s[picks[l]].0, s[picks[k]].0));
        }
    }
}

/// Where the records are the record form of a table, every record of a
/// prediction holds a word of the table with the score that the table gives
/// it, and no word twice.
pub proof fn lemma_prediction_of_table(
    s: Seq<Record>,
    m: Map<Seq<char>, u32>,
    prefix: Seq<char>,
    r: Seq<Record>,
)
    requires
        is_table_form(s, m),
        is_prediction(s, prefix, r),
    ensures
        forall|k: int| 0 <= k < r.len() ==> m.contains_key((#[trigger] r[k]).0) && m[r[k].0] == r[k].1,
        forall|k: int, l: int|
            0 <= k < l < r.len() ==> (#[trigger] r[k]).0 != (#[trigger] r[l]).0,
{
    let picks = choose|picks: Seq<int>| #[trigger]
        is_selection(s, prefix, picks) && r == records_at(s, picks);
    lemma_sorted_distinct(s);
    assert forall|k: int| 0 <= k < r.len() implies m.contains_key((#[trigger] r[k]).0) && m[r[k].0]
        == r[k].1 by {
        lemma_records_map_at(s, picks[k]);
    }
    assert forall|k: int, l: int| 0 <= k < l < r.len() implies (#[trigger] r[k]).0 != (
    #[trigger] r[l]).0 by {
        assert(beats(s, picks[k], picks[l]));
        assert(picks[k] != picks[l]);
        assert(s[picks[k]].0 != s[picks[l]].0);
    }
}

} // verus!
