//! Sorting positions of a word list into lexical order, stably.

use vstd::prelude::*;

use crate::text::{
    lemma_lex_lt_irreflexive, lemma_lex_lt_total,
    lemma_lex_lt_transitive, lex_lt, word_less, word_seq,
};

verus! {

/// Position `p` ranks before position `q` when its word comes first in lexical
/// order or, the words being equal, when `p` is the earlier position.
pub open spec fn ranks_before(words: Seq<Seq<char>>, p: int, q: int) -> bool {
    lex_lt(words[p], words[q]) || (words[p] == words[q] && p < q)
}

/// Every position in `order` ranks before all that follow it.
pub open spec fn is_ranked(words: Seq<Seq<char>>, order: Seq<usize>) -> bool {
    forall|i: int, j: int|
        0 <= i < j < order.len() ==> ranks_before(words, #[trigger] order[i] as int, #[trigger] order[j] as int)
}

/// Position `x` stands in the list.
pub open spec fn holds(list: Seq<usize>, x: int) -> bool {
    exists|k: int| 0 <= k < list.len() && #[trigger] list[k] == x
}

/// `order` lists each position from `lo` up to `hi` (exclusive), and no other.
pub open spec fn covers(order: Seq<usize>, lo: int, hi: int) -> bool {
    &&& order.len() == hi - lo
    &&& forall|i: int| 0 <= i < order.len() ==> lo <= #[trigger] order[i] < hi
    &&& forall|k: int| lo <= k < hi ==> #[trigger] holds(order, k)
}

/// `order` is the stable lexical sorting of the positions of `words`.
pub open spec fn is_sorted_order(words: Seq<Seq<char>>, order: Seq<usize>) -> bool {
    covers(order, 0, words.len() as int) && is_ranked(words, order)
}

/// Ranking is transitive.
pub proof fn lemma_ranks_before_transitive(words: Seq<Seq<char>>, p: int, q: int, r: int)
    requires
        ranks_before(words, p, q),
        ranks_before(words, q, r),
    ensures
        ranks_before(words, p, r),
{
    if lex_lt(words[p], words[q]) && lex_lt(words[q], words[r]) {
        lemma_lex_lt_transitive(words[p], words[q], words[r]);
    }
}

/// A position never ranks before itself, and so a ranked order repeats none.
pub proof fn lemma_ranked_distinct(words: Seq<Seq<char>>, order: Seq<usize>)
    requires
        is_ranked(words, order),
    ensures
        order.no_duplicates(),
{
    assert forall|i: int, j: int|
        0 <= i < order.len() && 0 <= j < order.len() && i != j implies order[i] != order[j] by {
        lemma_lex_lt_irreflexive(words[order[i] as int]);
        if i < j {
            assert(ranks_before(words, order[i] as int, order[j] as int));
        } else {
            assert(ranks_before(words, order[j] as int, order[i] as int));
        }
    }
}

/// Two sorted orders of the same words agree on their first `n` positions.
proof fn lemma_sorted_orders_agree(words: Seq<Seq<char>>, x: Seq<usize>, y: Seq<usize>, n: int)
    requires
        is_sorted_order(words, x),
        is_sorted_order(words, y),
        0 <= n <= words.len(),
    ensures
        forall|j: int| 0 <= j < n ==> x[j] == y[j],
    decreases n,
{
    if n > 0 {
        lemma_sorted_orders_agree(words, x, y, n - 1);
        let k = n - 1;
        if x[k] != y[k] {
            lemma_lex_lt_total(words[x[k] as int], words[y[k] as int]);
            if ranks_before(words, x[k] as int, y[k] as int) {
                lemma_sorted_orders_gap(words, x, y, k);
            } else {
                lemma_sorted_orders_gap(words, y, x, k);
            }
        }
    }
}

/// Two sorted orders of the same words that agree before position `k` do
/// not hold there a position of the first that ranks before that of the
/// second: it would be missing from the second order.
proof fn lemma_sorted_orders_gap(words: Seq<Seq<char>>, x: Seq<usize>, y: Seq<usize>, k: int)
    requires
        is_sorted_order(words, x),
        is_sorted_order(words, y),
        0 <= k < words.len(),
        forall|j: int| 0 <= j < k ==> x[j] == y[j],
    ensures
        !ranks_before(words, x[k] as int, y[k] as int),
{
    if ranks_before(words, x[k] as int, y[k] as int) {
        let p = x[k] as int;
        assert(holds(y, p));
        let j = choose|j: int| 0 <= j < y.len() && #[trigger] y[j] == p;
        lemma_lex_lt_irreflexive(words[p]);
        if j < k {
            assert(ranks_before(words, x[j] as int, x[k] as int));
        } else if j > k {
            assert(ranks_before(words, y[k] as int, y[j] as int));
            lemma_ranks_before_transitive(words, p, y[k] as int, p);
        }
    }
}

/// Words have one sorted order, and no other.
pub proof fn lemma_sorted_order_unique(words: Seq<Seq<char>>, x: Seq<usize>, y: Seq<usize>)
    requires
        is_sorted_order(words, x),
        is_sorted_order(words, y),
    ensures
        x == y,
{
    lemma_sorted_orders_agree(words, x, y, words.len() as int);
    assert(x =~= y);
}

/// Merges two ranked runs of positions, all of the first lying before all of
/// the second, into one ranked run.
fn merge(words: &Vec<String>, left: &Vec<usize>, right: &Vec<usize>) -> (out: Vec<usize>)
    requires
        forall|a: int| 0 <= a < left@.len() ==> #[trigger] left@[a] < words@.len(),
        forall|b: int| 0 <= b < right@.len() ==> #[trigger] right@[b] < words@.len(),
        forall|a: int, b: int|
            0 <= a < left@.len() && 0 <= b < right@.len() ==> #[trigger] left@[a] < #[trigger] right@[b],
        is_ranked(word_seq(words@), left@),
        is_ranked(word_seq(words@), right@),
    ensures
        out@.len() == left@.len() + right@.len(),
        is_ranked(word_seq(words@), out@),
        forall|a: int| 0 <= a < left@.len() ==> out@.contains(#[trigger] left@[a]),
        forall|b: int| 0 <= b < right@.len() ==> out@.contains(#[trigger] right@[b]),
        forall|x: int| 0 <= x < out@.len() ==> left@.contains(#[trigger] out@[x]) || right@.contains(out@[x]),
{
    let ghost ws = word_seq(words@);
    let mut out: Vec<usize> = Vec::new();
    let mut i: usize = 0;
    let mut j: usize = 0;
    while i < left.len() || j < right.len()
        invariant
            i <= left@.len(),
            j <= right@.len(),
            out@.len() == i + j,
            ws == word_seq(words@),
            forall|a: int| 0 <= a < left@.len() ==> #[trigger] left@[a] < words@.len(),
            forall|b: int| 0 <= b < right@.len() ==> #[trigger] right@[b] < words@.len(),
            forall|a: int, b: int|
                0 <= a < left@.len() && 0 <= b < right@.len() ==> #[trigger] left@[a] < #[trigger] right@[b],
            is_ranked(ws, left@),
            is_ranked(ws, right@),
            is_ranked(ws, out@),
            i < left@.len() ==> forall|x: int|
                0 <= x < out@.len() ==> ranks_before(ws, #[trigger] out@[x] as int, left@[i as int] as int),
            j < right@.len() ==> forall|x: int|
                0 <= x < out@.len() ==> ranks_before(ws, #[trigger] out@[x] as int, right@[j as int] as int),
            forall|a: int| 0 <= a < i ==> out@.contains(#[trigger] left@[a]),
            forall|b: int| 0 <= b < j ==> out@.contains(#[trigger] right@[b]),
            forall|x: int|
                0 <= x < out@.len() ==> left@.contains(#[trigger] out@[x]) || right@.contains(out@[x]),
        decreases left@.len() - i + right@.len() - j,
    {
        let ghost before = out@;
        let take_left: bool = if i >= left.len() {
            false
        } else if j >= right.len() {
            true
        } else {
            !word_less(words[right[j]].as_str(), words[left[i]].as_str())
        };
        if take_left {
            let p: usize = left[i];
            proof {
                if j < right@.len() {
                    let q = right@[j as int];
                    assert(left@[i as int] < right@[j as int]);
                    lemma_lex_lt_total(ws[p as int], ws[q as int]);
                    assert(ranks_before(ws, p as int, q as int));
                }
            }
            out.push(p);
            proof {
                assert forall|x: int, y: int| 0 <= x < y < out@.len() implies ranks_before(
                    ws,
                    #[trigger] out@[x] as int,
                    #[trigger] out@[y] as int,
                ) by {
                    if y < before.len() {
                        assert(out@[x] == before[x] && out@[y] == before[y]);
                    } else {
                        assert(out@[x] == before[x]);
                    }
                }
                if i + 1 < left@.len() {
                    let nxt = left@[i + 1] as int;
                    assert(ranks_before(ws, left@[i as int] as int, left@[i + 1] as int));
                    assert forall|x: int| 0 <= x < out@.len() implies ranks_before(
                        ws,
                        #[trigger] out@[x] as int,
                        nxt,
                    ) by {
                        if x < before.len() {
                            assert(out@[x] == before[x]);
                            lemma_ranks_before_transitive(ws, before[x] as int, p as int, nxt);
                        }
                    }
                }
                if j < right@.len() {
                    assert forall|x: int| 0 <= x < out@.len() implies ranks_before(
                        ws,
                        #[trigger] out@[x] as int,
                        right@[j as int] as int,
                    ) by {
                        if x < before.len() {
                            assert(out@[x] == before[x]);
                        }
                    }
                }
                assert forall|a: int| 0 <= a < i + 1 implies out@.contains(#[trigger] left@[a]) by {
                    if a < i {
                        let k = choose|k: int| 0 <= k < before.len() && before[k] == left@[a];
                        assert(out@[k] == left@[a]);
                    } else {
                        assert(out@[before.len() as int] == left@[a]);
                    }
                }
                assert forall|b: int| 0 <= b < j implies out@.contains(#[trigger] right@[b]) by {
                    let k = choose|k: int| 0 <= k < before.len() && before[k] == right@[b];
                    assert(out@[k] == right@[b]);
                }
                assert forall|x: int| 0 <= x < out@.len() implies left@.contains(#[trigger] out@[x])
                    || right@.contains(out@[x]) by {
                    if x < before.len() {
                        assert(out@[x] == before[x]);
                    } else {
                        assert(left@[i as int] == out@[x]);
                    }
                }
            }
            i = i + 1;
        } else {
            let q: usize = right[j];
            proof {
                if i < left@.len() {
                    let p = left@[i as int];
                    assert(ranks_before(ws, q as int, p as int));
                }
            }
            out.push(q);
            proof {
                assert forall|x: int, y: int| 0 <= x < y < out@.len() implies ranks_before(
                    ws,
                    #[trigger] out@[x] as int,
                    #[trigger] out@[y] as int,
                ) by {
                    if y < before.len() {
                        assert(out@[x] == before[x] && out@[y] == before[y]);
                    } else {
                        assert(out@[x] == before[x]);
                    }
                }
                if j + 1 < right@.len() {
                    let nxt = right@[j + 1] as int;
                    assert(ranks_before(ws, right@[j as int] as int, right@[j + 1] as int));
                    assert forall|x: int| 0 <= x < out@.len() implies ranks_before(
                        ws,
                        #[trigger] out@[x] as int,
                        nxt,
                    ) by {
                        if x < before.len() {
                            assert(out@[x] == before[x]);
                            lemma_ranks_before_transitive(ws, before[x] as int, q as int, nxt);
                        }
                    }
                }
                if i < left@.len() {
                    assert forall|x: int| 0 <= x < out@.len() implies ranks_before(
                        ws,
                        #[trigger] out@[x] as int,
                        left@[i as int] as int,
                    ) by {
                        if x < before.len() {
                            assert(out@[x] == before[x]);
                        }
                    }
                }
                assert forall|a: int| 0 <= a < i implies out@.contains(#[trigger] left@[a]) by {
                    let k = choose|k: int| 0 <= k < before.len() && before[k] == left@[a];
                    assert(out@[k] == left@[a]);
                }
                assert forall|b: int| 0 <= b < j + 1 implies out@.contains(#[trigger] right@[b]) by {
                    if b < j {
                        let k = choose|k: int| 0 <= k < before.len() && before[k] == right@[b];
                        assert(out@[k] == right@[b]);
                    } else {
                        assert(out@[before.len() as int] == right@[b]);
                    }
                }
                assert forall|x: int| 0 <= x < out@.len() implies left@.contains(#[trigger] out@[x])
                    || right@.contains(out@[x]) by {
                    if x < before.len() {
                        assert(out@[x] == before[x]);
                    } else {
                        assert(right@[j as int] == out@[x]);
                    }
                }
            }
            j = j + 1;
        }
    }
    out
}

/// Sorts the positions from `lo` up to `hi` (exclusive).
fn sort_range(words: &Vec<String>, lo: usize, hi: usize) -> (out: Vec<usize>)
    requires
        lo <= hi <= words@.len(),
    ensures
        covers(out@, lo as int, hi as int),
        is_ranked(word_seq(words@), out@),
    decreases hi - lo,
{
    let mut out: Vec<usize> = Vec::new();
    if hi - lo == 0 {
        return out;
    }
    if hi - lo == 1 {
        out.push(lo);
        assert(out@[0] == lo);
        assert(holds(out@, lo as int));
        return out;
    }
    let mid: usize = lo + (hi - lo) / 2;
    let left = sort_range(words, lo, mid);
    let right = sort_range(words, mid, hi);
    let merged = merge(words, &left, &right);
    proof {
        assert forall|x: int| 0 <= x < merged@.len() implies lo <= #[trigger] merged@[x] < hi by {
            if left@.contains(merged@[x]) {
                let a = choose|a: int| 0 <= a < left@.len() && left@[a] == merged@[x];
                assert(lo <= left@[a] < mid);
            } else {
                let b = choose|b: int| 0 <= b < right@.len() && right@[b] == merged@[x];
                assert(mid <= right@[b] < hi);
            }
        }
        assert forall|k: int| lo <= k < hi implies #[trigger] holds(merged@, k) by {
            if k < mid {
                assert(holds(left@, k));
                let a = choose|a: int| 0 <= a < left@.len() && #[trigger] left@[a] == k;
                assert(merged@.contains(left@[a]));
                let x = choose|x: int| 0 <= x < merged@.len() && merged@[x] == left@[a];
                assert(merged@[x] == k);
            } else {
                assert(holds(right@, k));
                let b = choose|b: int| 0 <= b < right@.len() && #[trigger] right@[b] == k;
                assert(merged@.contains(right@[b]));
                let x = choose|x: int| 0 <= x < merged@.len() && merged@[x] == right@[b];
                assert(merged@[x] == k);
            }
        }
    }
    merged
}

/// The positions of `words`, sorted into lexical order of their words. Equal
/// words keep the order of their positions.
pub fn sorted_order(words: &Vec<String>) -> (order: Vec<usize>)
    ensures
        is_sorted_order(word_seq(words@), order@),
{
    sort_range(words, 0, words.len())
}

} // verus!
