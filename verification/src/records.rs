//! Records: words with their scores, as a predictor holds them and as they
//! are saved.

use vstd::prelude::*;

use crate::predictionentry::PredictionEntry;
use crate::ranking::{
    holds, is_sorted_order, lemma_ranked_distinct, lemma_sorted_order_unique, ranks_before,
};
use crate::tally::valid_counts;
use crate::text::{
    leading, lemma_lex_lt_asymmetric, lemma_lex_lt_irreflexive, lemma_lex_lt_leading,
    lemma_lex_lt_total, lex_lt,
};

verus! {

/// A record as contracts speak of it: a word and its score.
pub type Record = (Seq<char>, u32);

/// The records that a sequence of pairs spells.
pub open spec fn record_seq(v: Seq<(String, u32)>) -> Seq<Record> {
    v.map_values(|p: (String, u32)| (p.0@, p.1))
}

/// The records that a sequence of entries spells.
pub open spec fn entry_records(v: Seq<PredictionEntry>) -> Seq<Record> {
    v.map_values(|e: PredictionEntry| (e.word@, e.score))
}

/// The records that pair each word with the score at the same position.
pub open spec fn paired(words: Seq<Seq<char>>, scores: Seq<u32>) -> Seq<Record> {
    Seq::new(words.len(), |i: int| (words[i], scores[i]))
}

/// The table that a sequence of records describes.
pub open spec fn records_map(s: Seq<Record>) -> Map<Seq<char>, u32>
    decreases s.len(),
{
    if s.len() == 0 {
        Map::empty()
    } else {
        records_map(s.drop_last()).insert(s.last().0, s.last().1)
    }
}

/// Some record is a record for `w`.
pub open spec fn has_word(s: Seq<Record>, w: Seq<char>) -> bool {
    exists|i: int| 0 <= i < s.len() && (#[trigger] s[i]).0 == w
}

/// No two records are records for the same word.
pub open spec fn distinct_words(s: Seq<Record>) -> bool {
    forall|i: int, j: int|
        0 <= i < s.len() && 0 <= j < s.len() && i != j ==> (#[trigger] s[i]).0 != (#[trigger] s[j]).0
}

/// No record is a record for the empty word.
pub open spec fn nonempty_words(s: Seq<Record>) -> bool {
    forall|i: int| 0 <= i < s.len() ==> (#[trigger] s[i]).0.len() > 0
}

/// The records of a table of counts: every word is non-empty and has a score
/// of at least one, and no word has two records.
pub open spec fn valid_records(s: Seq<Record>) -> bool {
    &&& forall|i: int| 0 <= i < s.len() ==> (#[trigger] s[i]).0.len() > 0 && s[i].1 >= 1
    &&& distinct_words(s)
}

/// The records stand in ascending lexical order of their words: no record
/// stands behind a record for a later word.
pub open spec fn sorted_records(s: Seq<Record>) -> bool {
    forall|i: int, j: int| 0 <= i < j < s.len() ==> !lex_lt((#[trigger] s[j]).0, (#[trigger] s[i]).0)
}

/// The records stand in strictly ascending lexical order of their words.
pub open spec fn strictly_sorted(s: Seq<Record>) -> bool {
    forall|i: int, j: int| 0 <= i < j < s.len() ==> lex_lt((#[trigger] s[i]).0, (#[trigger] s[j]).0)
}

/// `s` is the record form of the table `m`: its records in strictly
/// ascending order.
pub open spec fn is_table_form(s: Seq<Record>, m: Map<Seq<char>, u32>) -> bool {
    strictly_sorted(s) && records_map(s) == m
}

/// The words of a sequence of records.
pub open spec fn record_words(s: Seq<Record>) -> Seq<Seq<char>> {
    s.map_values(|r: Record| r.0)
}

/// The records at the positions that `order` lists, in that order.
pub open spec fn gather(s: Seq<Record>, order: Seq<usize>) -> Seq<Record> {
    order.map_values(|i: usize| s[i as int])
}

/// `out` holds the records of `s` sorted by their words: every record once,
/// in ascending lexical order, records for the same word in the order in
/// which they stand in `s`.
pub open spec fn is_sorted_form(s: Seq<Record>, out: Seq<Record>) -> bool {
    exists|order: Seq<usize>| #[trigger]
        is_sorted_order(record_words(s), order) && out == gather(s, order)
}

/// Records in strictly ascending order are in ascending order.
pub proof fn lemma_strictly_sorted_is_sorted(s: Seq<Record>)
    requires
        strictly_sorted(s),
    ensures
        sorted_records(s),
{
    assert forall|i: int, j: int| 0 <= i < j < s.len() implies !lex_lt(
        (#[trigger] s[j]).0,
        (#[trigger] s[i]).0,
    ) by {
        lemma_lex_lt_asymmetric(s[i].0, s[j].0);
    }
}

/// Records have one sorted form, and no other.
pub proof fn lemma_sorted_form_unique(s: Seq<Record>, a: Seq<Record>, b: Seq<Record>)
    requires
        is_sorted_form(s, a),
        is_sorted_form(s, b),
    ensures
        a == b,
{
    let x = choose|order: Seq<usize>| #[trigger]
        is_sorted_order(record_words(s), order) && a == gather(s, order);
    let y = choose|order: Seq<usize>| #[trigger]
        is_sorted_order(record_words(s), order) && b == gather(s, order);
    lemma_sorted_order_unique(record_words(s), x, y);
}

/// The sorted form of records is sorted, and holds the words of the records
/// and no other.
pub proof fn lemma_sorted_form(s: Seq<Record>, out: Seq<Record>)
    requires
        is_sorted_form(s, out),
    ensures
        out.len() == s.len(),
        sorted_records(out),
        forall|i: int| 0 <= i < s.len() ==> out.contains(#[trigger] s[i]),
        forall|k: int| 0 <= k < out.len() ==> s.contains(#[trigger] out[k]),
        nonempty_words(s) ==> nonempty_words(out),
{
    let words = record_words(s);
    let order = choose|order: Seq<usize>| #[trigger]
        is_sorted_order(words, order) && out == gather(s, order);
    assert forall|i: int, j: int| 0 <= i < j < out.len() implies !lex_lt(
        (#[trigger] out[j]).0,
        (#[trigger] out[i]).0,
    ) by {
        assert(ranks_before(words, order[i] as int, order[j] as int));
        if lex_lt(words[order[i] as int], words[order[j] as int]) {
            lemma_lex_lt_asymmetric(words[order[i] as int], words[order[j] as int]);
        } else {
            lemma_lex_lt_irreflexive(words[order[i] as int]);
        }
    }
    assert forall|i: int| 0 <= i < s.len() implies out.contains(#[trigger] s[i]) by {
        assert(holds(order, i));
        let k = choose|k: int| 0 <= k < order.len() && #[trigger] order[k] == i;
        assert(out[k] == s[i]);
    }
    assert forall|k: int| 0 <= k < out.len() implies s.contains(#[trigger] out[k]) by {
        assert(s[order[k] as int] == out[k]);
    }
    if nonempty_words(s) {
        assert forall|k: int| 0 <= k < out.len() implies (#[trigger] out[k]).0.len() > 0 by {
            assert(s[order[k] as int].0.len() > 0);
        }
    }
}

/// Sorted records are their own sorted form.
pub proof fn lemma_sorted_is_own_form(s: Seq<Record>)
    requires
        sorted_records(s),
        s.len() <= usize::MAX,
    ensures
        is_sorted_form(s, s),
{
    let words = record_words(s);
    let order = Seq::new(s.len(), |i: int| i as usize);
    assert forall|i: int, j: int| 0 <= i < j < order.len() implies ranks_before(
        words,
        #[trigger] order[i] as int,
        #[trigger] order[j] as int,
    ) by {
        assert(!lex_lt(s[j].0, s[i].0));
        lemma_lex_lt_total(s[i].0, s[j].0);
    }
    assert forall|k: int| 0 <= k < words.len() implies #[trigger] holds(order, k) by {
        assert(order[k] == k);
    }
    assert(is_sorted_order(words, order));
    assert(gather(s, order) =~= s);
}

/// The sorted form of the records of a table is the record form of that
/// table.
pub proof fn lemma_sorted_form_of_table(s: Seq<Record>, out: Seq<Record>)
    requires
        distinct_words(s),
        is_sorted_form(s, out),
    ensures
        is_table_form(out, records_map(s)),
        valid_records(s) ==> valid_records(out),
{
    let words = record_words(s);
    let order = choose|order: Seq<usize>| #[trigger]
        is_sorted_order(words, order) && out == gather(s, order);
    lemma_ranked_distinct(words, order);
    assert forall|a: int, b: int| 0 <= a < b < out.len() implies lex_lt(
        (#[trigger] out[a]).0,
        (#[trigger] out[b]).0,
    ) by {
        assert(ranks_before(words, order[a] as int, order[b] as int));
        assert(order[a] != order[b]);
        assert(s[order[a] as int].0 != s[order[b] as int].0);
    }
    lemma_sorted_distinct(out);
    lemma_sorted_form(s, out);
    lemma_records_map_same(out, s);
    if valid_records(s) {
        assert forall|k: int| 0 <= k < out.len() implies (#[trigger] out[k]).0.len() > 0
            && out[k].1 >= 1 by {
            assert(s[order[k] as int].1 >= 1);
        }
    }
}

/// `ixs` is the bucket index of `s`: it maps the first character of every word
/// to the position of the first record whose word begins with it, and maps
/// nothing else.
pub open spec fn is_bucket_index(s: Seq<Record>, ixs: Map<u32, usize>) -> bool {
    &&& forall|i: int| 0 <= i < s.len() ==> ixs.contains_key(leading((#[trigger] s[i]).0))
    &&& forall|c: u32| #[trigger]
        ixs.contains_key(c) ==> ixs[c] < s.len() && leading(s[ixs[c] as int].0) == c
    &&& forall|c: u32, j: int|
        #![trigger ixs.contains_key(c), s[j]]
        ixs.contains_key(c) && 0 <= j < ixs[c] ==> leading(s[j].0) != c
}

/// Along sorted records of non-empty words the first characters never
/// decrease.
pub proof fn lemma_sorted_leading(s: Seq<Record>, i: int, j: int)
    requires
        sorted_records(s),
        nonempty_words(s),
        0 <= i <= j < s.len(),
    ensures
        leading(s[i].0) <= leading(s[j].0),
{
    if i < j {
        assert(!lex_lt(s[j].0, s[i].0));
        lemma_lex_lt_total(s[i].0, s[j].0);
        if lex_lt(s[i].0, s[j].0) {
            lemma_lex_lt_leading(s[i].0, s[j].0);
        }
    }
}

/// The records whose words begin with one character stand in one run, which
/// begins where the bucket index says: from there up to any record for such
/// a word, every word begins with that character.
pub proof fn lemma_bucket_is_run(s: Seq<Record>, ixs: Map<u32, usize>, c: u32, i: int, j: int)
    requires
        sorted_records(s),
        nonempty_words(s),
        is_bucket_index(s, ixs),
        0 <= j <= i < s.len(),
        leading(s[i].0) == c,
    ensures
        ixs.contains_key(c),
        ixs[c] <= i,
        ixs[c] <= j ==> leading(s[j].0) == c,
{
    let start = ixs[c] as int;
    assert(ixs.contains_key(leading(s[i].0)));
    if start <= j {
        lemma_sorted_leading(s, start, j);
        lemma_sorted_leading(s, j, i);
    }
}

/// Records in strictly ascending order hold no word twice.
pub proof fn lemma_sorted_distinct(s: Seq<Record>)
    requires
        strictly_sorted(s),
    ensures
        distinct_words(s),
{
    assert forall|i: int, j: int| 0 <= i < s.len() && 0 <= j < s.len() && i != j implies (
    #[trigger] s[i]).0 != (#[trigger] s[j]).0 by {
        lemma_lex_lt_irreflexive(s[i].0);
        if i < j {
            assert(lex_lt(s[i].0, s[j].0));
        } else {
            assert(lex_lt(s[j].0, s[i].0));
        }
    }
}

/// The table of a sequence of records holds exactly the words of the records,
/// and finitely many.
pub proof fn lemma_records_map_dom(s: Seq<Record>)
    ensures
        records_map(s).dom().finite(),
        forall|w: Seq<char>| records_map(s).contains_key(w) <==> has_word(s, w),
    decreases s.len(),
{
    if s.len() > 0 {
        let head = s.drop_last();
        lemma_records_map_dom(head);
        assert forall|w: Seq<char>| records_map(s).contains_key(w) <==> has_word(s, w) by {
            if has_word(s, w) {
                let i = choose|i: int| 0 <= i < s.len() && (#[trigger] s[i]).0 == w;
                if i < s.len() - 1 {
                    assert(head[i].0 == w);
                    assert(has_word(head, w));
                }
            }
            if records_map(s).contains_key(w) {
                if w == s.last().0 {
                    assert(s[s.len() - 1].0 == w);
                } else {
                    assert(has_word(head, w));
                    let i = choose|i: int| 0 <= i < head.len() && (#[trigger] head[i]).0 == w;
                    assert(s[i].0 == w);
                }
            }
        }
    } else {
        assert forall|w: Seq<char>| records_map(s).contains_key(w) <==> has_word(s, w) by {}
    }
}

/// Where no word has two records, the table gives each record's word that
/// record's score.
pub proof fn lemma_records_map_at(s: Seq<Record>, i: int)
    requires
        distinct_words(s),
        0 <= i < s.len(),
    ensures
        records_map(s).contains_key(s[i].0),
        records_map(s)[s[i].0] == s[i].1,
    decreases s.len(),
{
    let head = s.drop_last();
    if i < s.len() - 1 {
        assert forall|a: int, b: int|
            0 <= a < head.len() && 0 <= b < head.len() && a != b implies (#[trigger] head[a]).0 != (
        #[trigger] head[b]).0 by {
            assert(s[a].0 != s[b].0);
        }
        lemma_records_map_at(head, i);
        assert(head[i] == s[i]);
        assert(s[i].0 != s[s.len() - 1].0);
    }
}

/// Two sequences of records without repeated words that hold the same
/// records, in whatever order, describe the same table.
pub proof fn lemma_records_map_same(a: Seq<Record>, b: Seq<Record>)
    requires
        distinct_words(a),
        distinct_words(b),
        forall|i: int| 0 <= i < a.len() ==> b.contains(#[trigger] a[i]),
        forall|j: int| 0 <= j < b.len() ==> a.contains(#[trigger] b[j]),
    ensures
        records_map(a) == records_map(b),
{
    let ma = records_map(a);
    let mb = records_map(b);
    lemma_records_map_dom(a);
    lemma_records_map_dom(b);
    assert forall|w: Seq<char>| #[trigger] ma.dom().contains(w) implies mb.dom().contains(w)
        && ma[w] == mb[w] by {
        assert(ma.contains_key(w));
        assert(has_word(a, w));
        let i = choose|i: int| 0 <= i < a.len() && (#[trigger] a[i]).0 == w;
        assert(b.contains(a[i]));
        let j = choose|j: int| 0 <= j < b.len() && b[j] == a[i];
        lemma_records_map_at(a, i);
        lemma_records_map_at(b, j);
    }
    assert forall|w: Seq<char>| #[trigger] mb.dom().contains(w) implies ma.dom().contains(w) by {
        assert(mb.contains_key(w));
        assert(has_word(b, w));
        let j = choose|j: int| 0 <= j < b.len() && (#[trigger] b[j]).0 == w;
        assert(a.contains(b[j]));
        let i = choose|i: int| 0 <= i < a.len() && a[i] == b[j];
        lemma_records_map_at(a, i);
    }
    assert(ma.dom() =~= mb.dom());
    assert(records_map(a) =~= records_map(b));
}

/// Two sorted sequences of records that describe the same table agree on
/// their first `n` records.
proof fn lemma_strictly_sorted_agree(a: Seq<Record>, b: Seq<Record>, n: int)
    requires
        strictly_sorted(a),
        strictly_sorted(b),
        records_map(a) == records_map(b),
        0 <= n <= a.len(),
        n <= b.len(),
    ensures
        forall|j: int| 0 <= j < n ==> a[j] == b[j],
    decreases n,
{
    if n > 0 {
        lemma_strictly_sorted_agree(a, b, n - 1);
        let k = n - 1;
        lemma_sorted_distinct(a);
        lemma_sorted_distinct(b);
        lemma_records_map_at(a, k);
        lemma_records_map_at(b, k);
        if a[k].0 != b[k].0 {
            lemma_lex_lt_total(a[k].0, b[k].0);
            if lex_lt(a[k].0, b[k].0) {
                lemma_strictly_sorted_gap(a, b, k);
            } else {
                lemma_strictly_sorted_gap(b, a, k);
            }
        }
    }
}

/// Two sorted sequences of records that describe the same table and agree
/// before position `k` hold there records for words of which the first does
/// not come before the second: it would be missing from the second sequence.
proof fn lemma_strictly_sorted_gap(a: Seq<Record>, b: Seq<Record>, k: int)
    requires
        strictly_sorted(a),
        strictly_sorted(b),
        records_map(a) == records_map(b),
        0 <= k < a.len(),
        k < b.len(),
        forall|j: int| 0 <= j < k ==> a[j] == b[j],
    ensures
        !lex_lt(a[k].0, b[k].0),
{
    if lex_lt(a[k].0, b[k].0) {
        let w = a[k].0;
        lemma_records_map_dom(a);
        lemma_records_map_dom(b);
        assert(has_word(a, w));
        assert(records_map(a).contains_key(w));
        assert(has_word(b, w));
        let j = choose|j: int| 0 <= j < b.len() && (#[trigger] b[j]).0 == w;
        lemma_lex_lt_irreflexive(w);
        if j < k {
            assert(lex_lt(a[j].0, a[k].0));
        } else if j > k {
            assert(lex_lt(b[k].0, b[j].0));
            lemma_lex_lt_asymmetric(a[k].0, b[k].0);
        }
    }
}

/// A table has one sorted sequence of records, and no other: two sorted
/// sequences that describe the same table are the same.
pub proof fn lemma_strictly_sorted_unique(a: Seq<Record>, b: Seq<Record>)
    requires
        strictly_sorted(a),
        strictly_sorted(b),
        records_map(a) == records_map(b),
    ensures
        a == b,
{
    lemma_strictly_sorted_cover(a, b);
    lemma_strictly_sorted_cover(b, a);
    lemma_strictly_sorted_agree(a, b, a.len() as int);
    assert(a =~= b);
}

/// Of two sorted sequences of records that describe the same table, the
/// second is not the longer one.
proof fn lemma_strictly_sorted_cover(a: Seq<Record>, b: Seq<Record>)
    requires
        strictly_sorted(a),
        strictly_sorted(b),
        records_map(a) == records_map(b),
    ensures
        a.len() >= b.len(),
{
    if a.len() < b.len() {
        let n = a.len() as int;
        lemma_strictly_sorted_agree(a, b, n);
        let w = b[n].0;
        lemma_records_map_dom(a);
        lemma_records_map_dom(b);
        assert(has_word(b, w));
        assert(records_map(b).contains_key(w));
        assert(has_word(a, w));
        let j = choose|j: int| 0 <= j < a.len() && (#[trigger] a[j]).0 == w;
        assert(lex_lt(b[j].0, b[n].0));
        lemma_lex_lt_irreflexive(w);
    }
}

/// Valid records describe a valid table of counts.
pub proof fn lemma_valid_records_counts(s: Seq<Record>)
    requires
        valid_records(s),
    ensures
        valid_counts(records_map(s)),
{
    lemma_records_map_dom(s);
    assert forall|w: Seq<char>| #[trigger] records_map(s).contains_key(w) implies w.len() > 0
        && records_map(s)[w] >= 1 by {
        assert(has_word(s, w));
        let i = choose|i: int| 0 <= i < s.len() && (#[trigger] s[i]).0 == w;
        lemma_records_map_at(s, i);
    }
}

} // verus!
