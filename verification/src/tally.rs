//! Counting the words of a token stream, and tables of such counts.

use vstd::prelude::*;

verus! {

/// How often the non-empty word `w` stands in `tokens`. Empty tokens are not
/// words, so the empty word never occurs.
pub open spec fn occurrences(tokens: Seq<Seq<char>>, w: Seq<char>) -> nat
    decreases tokens.len(),
{
    if tokens.len() == 0 {
        0
    } else {
        occurrences(tokens.drop_last(), w) + if tokens.last() == w && w.len() > 0 {
            1nat
        } else {
            0nat
        }
    }
}

/// The count that a table gives for a word: zero for a word it does not hold.
pub open spec fn count_in(m: Map<Seq<char>, u32>, w: Seq<char>) -> nat {
    if m.contains_key(w) {
        m[w] as nat
    } else {
        0
    }
}

/// A table of counts holds finitely many words, none of them empty, each with
/// a count of at least one.
pub open spec fn valid_counts(m: Map<Seq<char>, u32>) -> bool {
    &&& m.dom().finite()
    &&& forall|w: Seq<char>| #[trigger] m.contains_key(w) ==> w.len() > 0 && m[w] >= 1
}

/// A word occurs at most as often as there are tokens.
pub proof fn lemma_occurrences_bound(tokens: Seq<Seq<char>>, w: Seq<char>)
    ensures
        occurrences(tokens, w) <= tokens.len(),
    decreases tokens.len(),
{
    if tokens.len() > 0 {
        lemma_occurrences_bound(tokens.drop_last(), w);
    }
}

/// The occurrences in two streams add up to those in their concatenation.
pub proof fn lemma_occurrences_concat(a: Seq<Seq<char>>, b: Seq<Seq<char>>, w: Seq<char>)
    ensures
        occurrences(a + b, w) == occurrences(a, w) + occurrences(b, w),
    decreases b.len(),
{
    if b.len() == 0 {
        assert(a + b =~= a);
    } else {
        assert((a + b).drop_last() =~= a + b.drop_last());
        assert((a + b).last() == b.last());
        lemma_occurrences_concat(a, b.drop_last(), w);
    }
}

/// The occurrences of a word depend on how often each token stands in the
/// stream, not on where: they are its multiplicity among the tokens.
pub proof fn lemma_occurrences_multiset(tokens: Seq<Seq<char>>, w: Seq<char>)
    ensures
        occurrences(tokens, w) == if w.len() > 0 {
            tokens.to_multiset().count(w)
        } else {
            0
        },
    decreases tokens.len(),
{
    if tokens.len() == 0 {
        tokens.to_multiset_ensures();
    } else {
        let head = tokens.drop_last();
        lemma_occurrences_multiset(head, w);
        head.to_multiset_ensures();
        assert(tokens =~= head.push(tokens.last()));
        assert(tokens.to_multiset() =~= head.to_multiset().insert(tokens.last()));
    }
}

/// Streams that hold the same tokens in another order hold every word
/// equally often.
pub proof fn lemma_occurrences_permuted(a: Seq<Seq<char>>, b: Seq<Seq<char>>, w: Seq<char>)
    requires
        a.to_multiset() == b.to_multiset(),
    ensures
        occurrences(a, w) == occurrences(b, w),
{
    lemma_occurrences_multiset(a, w);
    lemma_occurrences_multiset(b, w);
}

/// A beginning of a stream holds no more occurrences than the whole.
pub proof fn lemma_occurrences_take(tokens: Seq<Seq<char>>, k: int, w: Seq<char>)
    requires
        0 <= k <= tokens.len(),
    ensures
        occurrences(tokens.take(k), w) <= occurrences(tokens, w),
{
    assert(tokens =~= tokens.take(k) + tokens.skip(k));
    lemma_occurrences_concat(tokens.take(k), tokens.skip(k), w);
}

/// Two valid tables that give every word the same count are the same table.
pub proof fn lemma_counts_determine(a: Map<Seq<char>, u32>, b: Map<Seq<char>, u32>)
    requires
        valid_counts(a),
        valid_counts(b),
        forall|w: Seq<char>| count_in(a, w) == count_in(b, w),
    ensures
        a == b,
{
    assert forall|w: Seq<char>| a.contains_key(w) == b.contains_key(w) by {
        assert(count_in(a, w) == count_in(b, w));
    }
    assert forall|w: Seq<char>| a.contains_key(w) implies a[w] == b[w] by {
        assert(count_in(a, w) == count_in(b, w));
    }
    assert(a =~= b);
}

} // verus!
