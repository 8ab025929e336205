//! Counting pairs of neighbouring words in a token stream, and tables of such
//! counts.

use vstd::prelude::*;

use crate::records::{is_table_form, lemma_strictly_sorted_unique, Record};
use crate::tally::{count_in, lemma_counts_determine, valid_counts};

verus! {

/// A table of pair counts: for each first word the counts of the words that
/// followed it.
pub type PairTable = Map<Seq<char>, Map<Seq<char>, u32>>;

/// The words of a token sequence: its non-empty tokens, in order.
pub open spec fn words_only(tokens: Seq<Seq<char>>) -> Seq<Seq<char>>
    decreases tokens.len(),
{
    if tokens.len() == 0 {
        Seq::empty()
    } else if tokens.last().len() > 0 {
        words_only(tokens.drop_last()).push(tokens.last())
    } else {
        words_only(tokens.drop_last())
    }
}

/// The stream of words that a training call reads: the word carried over from
/// the call before, if there is one, and then the words of the tokens.
pub open spec fn stream(pending: Option<Seq<char>>, tokens: Seq<Seq<char>>) -> Seq<Seq<char>> {
    match pending {
        Some(p) => seq![p] + words_only(tokens),
        None => words_only(tokens),
    }
}

/// The last word of a stream, which is carried over to the next call.
pub open spec fn last_of(s: Seq<Seq<char>>) -> Option<Seq<char>> {
    if s.len() == 0 {
        None
    } else {
        Some(s.last())
    }
}

/// How often `b` stands directly behind `a` in the stream `s`.
pub open spec fn adjacent(s: Seq<Seq<char>>, a: Seq<char>, b: Seq<char>) -> nat
    decreases s.len(),
{
    if s.len() < 2 {
        0
    } else {
        adjacent(s.drop_last(), a, b) + if s[s.len() - 2] == a && s.last() == b {
            1nat
        } else {
            0nat
        }
    }
}

/// The count that a table gives for `b` behind `a`: zero where it holds none.
pub open spec fn pair_count(pairs: PairTable, a: Seq<char>, b: Seq<char>) -> nat {
    if pairs.contains_key(a) {
        count_in(pairs[a], b)
    } else {
        0
    }
}

/// A table of pair counts holds finitely many first words, none of them
/// empty, each with a valid table of counts that holds at least one word.
pub open spec fn valid_pairs(pairs: PairTable) -> bool {
    &&& pairs.dom().finite()
    &&& forall|a: Seq<char>| #[trigger]
        pairs.contains_key(a) ==> a.len() > 0 && valid_counts(pairs[a]) && exists|b: Seq<char>|
            pairs[a].contains_key(b)
}

/// What a bigram trainer has learnt, as its contracts speak of it.
pub struct BigramCounts {
    /// For each word the counts of the words that followed it.
    pub pairs: PairTable,
    /// The last word of the training so far, which the first word of the next
    /// call will be counted behind.
    pub pending: Option<Seq<char>>,
}

/// Reading `tokens` takes a trainer from `before` to `after`: every pair of
/// neighbours in the stream that the call reads is counted once, and the last
/// word of the stream is carried over.
pub open spec fn learns(before: BigramCounts, tokens: Seq<Seq<char>>, after: BigramCounts) -> bool {
    &&& forall|a: Seq<char>, b: Seq<char>| #[trigger]
        pair_count(after.pairs, a, b) == pair_count(before.pairs, a, b) + adjacent(
            stream(before.pending, tokens),
            a,
            b,
        )
    &&& after.pending == last_of(stream(before.pending, tokens))
}

/// `groups` is the record form of the table `pairs`: it holds the same first
/// words, each with the record form of the table behind it.
pub open spec fn is_pairs_form(groups: Map<Seq<char>, Seq<Record>>, pairs: PairTable) -> bool {
    &&& groups.dom() == pairs.dom()
    &&& forall|a: Seq<char>| #[trigger]
        groups.contains_key(a) ==> is_table_form(groups[a], pairs[a])
}

/// A table of pair counts has one record form, and no other: predictors
/// that are made from trainers with the same counts hold the same records,
/// and so give the same predictions.
pub proof fn lemma_pairs_form_unique(
    x: Map<Seq<char>, Seq<Record>>,
    y: Map<Seq<char>, Seq<Record>>,
    pairs: PairTable,
)
    requires
        is_pairs_form(x, pairs),
        is_pairs_form(y, pairs),
    ensures
        x == y,
{
    assert forall|a: Seq<char>| x.contains_key(a) implies x[a] == y[a] by {
        assert(y.contains_key(a));
        lemma_strictly_sorted_unique(x[a], y[a]);
    }
    assert(x =~= y);
}

/// The words of a concatenation are the words of its parts.
pub proof fn lemma_words_only_concat(a: Seq<Seq<char>>, b: Seq<Seq<char>>)
    ensures
        words_only(a + b) == words_only(a) + words_only(b),
    decreases b.len(),
{
    if b.len() == 0 {
        assert(a + b =~= a);
        assert(words_only(a) + words_only(b) =~= words_only(a));
    } else {
        assert((a + b).drop_last() =~= a + b.drop_last());
        assert((a + b).last() == b.last());
        lemma_words_only_concat(a, b.drop_last());
        if b.last().len() > 0 {
            assert(words_only(a + b) =~= words_only(a) + words_only(b));
        }
    }
}

/// The stream of a concatenation is the stream of its first part followed by
/// the words of the second.
pub proof fn lemma_stream_concat(pending: Option<Seq<char>>, a: Seq<Seq<char>>, b: Seq<Seq<char>>)
    ensures
        stream(pending, a + b) == stream(pending, a) + words_only(b),
{
    lemma_words_only_concat(a, b);
    assert(stream(pending, a + b) =~= stream(pending, a) + words_only(b));
}

/// None of the words of a token sequence is empty.
pub proof fn lemma_words_only_nonempty(tokens: Seq<Seq<char>>)
    ensures
        forall|i: int|
            0 <= i < words_only(tokens).len() ==> (#[trigger] words_only(tokens)[i]).len() > 0,
    decreases tokens.len(),
{
    if tokens.len() > 0 {
        let head = words_only(tokens.drop_last());
        lemma_words_only_nonempty(tokens.drop_last());
        assert forall|i: int| 0 <= i < words_only(tokens).len() implies (#[trigger] words_only(
            tokens,
        )[i]).len() > 0 by {
            if i < head.len() {
                assert(words_only(tokens)[i] == head[i]);
            }
        }
    }
}

/// Behind a non-empty stream `s`, the pairs of `s + t` are those of `s` and
/// those of `t` read with the last word of `s` carried over.
pub proof fn lemma_adjacent_concat(s: Seq<Seq<char>>, t: Seq<Seq<char>>, a: Seq<char>, b: Seq<char>)
    requires
        s.len() > 0,
    ensures
        adjacent(s + t, a, b) == adjacent(s, a, b) + adjacent(seq![s.last()] + t, a, b),
    decreases t.len(),
{
    let carried = seq![s.last()];
    if t.len() == 0 {
        assert(s + t =~= s);
        assert(carried + t =~= carried);
    } else {
        let whole = s + t;
        let tail = carried + t;
        assert(whole.drop_last() =~= s + t.drop_last());
        assert(tail.drop_last() =~= carried + t.drop_last());
        lemma_adjacent_concat(s, t.drop_last(), a, b);
        assert(whole.last() == tail.last());
        assert(whole[whole.len() - 2] == tail[tail.len() - 2]);
    }
}

/// A stream holds at least the pairs of each of its beginnings.
pub proof fn lemma_adjacent_prefix(s: Seq<Seq<char>>, t: Seq<Seq<char>>, a: Seq<char>, b: Seq<char>)
    ensures
        adjacent(s, a, b) <= adjacent(s + t, a, b),
    decreases t.len(),
{
    if t.len() == 0 {
        assert(s + t =~= s);
    } else {
        assert((s + t).drop_last() =~= s + t.drop_last());
        lemma_adjacent_prefix(s, t.drop_last(), a, b);
    }
}

/// Two valid tables that give every pair the same count are the same table.
pub proof fn lemma_pairs_determine(x: PairTable, y: PairTable)
    requires
        valid_pairs(x),
        valid_pairs(y),
        forall|a: Seq<char>, b: Seq<char>| pair_count(x, a, b) == pair_count(y, a, b),
    ensures
        x == y,
{
    assert forall|a: Seq<char>| x.contains_key(a) implies y.contains_key(a) by {
        let b = choose|b: Seq<char>| x[a].contains_key(b);
        assert(pair_count(x, a, b) == pair_count(y, a, b));
    }
    assert forall|a: Seq<char>| y.contains_key(a) implies x.contains_key(a) by {
        let b = choose|b: Seq<char>| y[a].contains_key(b);
        assert(pair_count(x, a, b) == pair_count(y, a, b));
    }
    assert forall|a: Seq<char>| x.contains_key(a) implies x[a] == y[a] by {
        assert forall|b: Seq<char>| count_in(x[a], b) == count_in(y[a], b) by {
            assert(pair_count(x, a, b) == pair_count(y, a, b));
        }
        lemma_counts_determine(x[a], y[a]);
    }
    assert(x =~= y);
}

/// Training goes on across calls: reading two token sequences in two calls
/// teaches exactly what reading their concatenation in one call teaches.
pub proof fn lemma_training_continues(
    start: BigramCounts,
    first: Seq<Seq<char>>,
    between: BigramCounts,
    second: Seq<Seq<char>>,
    split: BigramCounts,
    joined: BigramCounts,
)
    requires
        learns(start, first, between),
        learns(between, second, split),
        learns(start, first + second, joined),
        valid_pairs(split.pairs),
        valid_pairs(joined.pairs),
    ensures
        split == joined,
{
    let s = stream(start.pending, first);
    let t = words_only(second);
    lemma_stream_concat(start.pending, first, second);
    assert(stream(start.pending, first + second) == s + t);
    if s.len() == 0 {
        assert(s + t =~= t);
        assert forall|a: Seq<char>, b: Seq<char>| adjacent(s, a, b) == 0 by {}
    } else {
        assert(stream(between.pending, second) == seq![s.last()] + t);
        if t.len() > 0 {
            assert((s + t).last() == t.last());
            assert((seq![s.last()] + t).last() == t.last());
        } else {
            assert(s + t =~= s);
            assert(seq![s.last()] + t =~= seq![s.last()]);
        }
        assert forall|a: Seq<char>, b: Seq<char>|
            adjacent(s + t, a, b) == adjacent(s, a, b) + adjacent(seq![s.last()] + t, a, b) by {
            lemma_adjacent_concat(s, t, a, b);
        }
    }
    assert forall|a: Seq<char>, b: Seq<char>|
        pair_count(split.pairs, a, b) == pair_count(joined.pairs, a, b) by {
        assert(pair_count(between.pairs, a, b) == pair_count(start.pairs, a, b) + adjacent(
            s,
            a,
            b,
        ));
        assert(pair_count(split.pairs, a, b) == pair_count(between.pairs, a, b) + adjacent(
            stream(between.pending, second),
            a,
            b,
        ));
        assert(pair_count(joined.pairs, a, b) == pair_count(start.pairs, a, b) + adjacent(
            s + t,
            a,
            b,
        ));
    }
    lemma_pairs_determine(split.pairs, joined.pairs);
}

} // verus!
