//! Words as sequences of characters: the lexical order, prefixes, and the
//! splitting of a line of text into words.

use vstd::prelude::*;
use vstd::std_specs::iter::IteratorSpec;
use vstd::string::StrSliceExecFns;

verus! {

/// The words that a sequence of strings spells.
pub open spec fn word_seq(v: Seq<String>) -> Seq<Seq<char>> {
    v.map_values(|w: String| w@)
}

/// The words that a sequence of string slices spells.
pub open spec fn token_seq(v: Seq<&str>) -> Seq<Seq<char>> {
    v.map_values(|w: &str| w@)
}

/// In a sequence without repetitions every element is found at its own position.
pub proof fn lemma_index_of_distinct(s: Seq<Seq<char>>, i: int)
    requires
        s.no_duplicates(),
        0 <= i < s.len(),
    ensures
        s.contains(s[i]),
        s.index_of(s[i]) == i,
{
    let j = s.index_of(s[i]);
    assert(0 <= j < s.len() && s[j] == s[i]);
}

/// The code point of a character, by which characters are ordered.
pub open spec fn code(c: char) -> int {
    c as u32 as int
}

/// The lexical order on words: `a` comes strictly before `b` when, at the first
/// position where they differ, `a` has the smaller code point, or when `a` is a
/// proper prefix of `b`.
pub open spec fn lex_lt(a: Seq<char>, b: Seq<char>) -> bool
    decreases a.len(),
{
    if b.len() == 0 {
        false
    } else if a.len() == 0 {
        true
    } else if a[0] != b[0] {
        code(a[0]) < code(b[0])
    } else {
        lex_lt(a.drop_first(), b.drop_first())
    }
}

/// Two characters with the same code point are the same character.
pub proof fn lemma_code_injective(x: char, y: char)
    requires
        code(x) == code(y),
    ensures
        x == y,
{
    assert(x as u32 as char == x);
    assert(y as u32 as char == y);
}

/// No word comes before itself.
pub proof fn lemma_lex_lt_irreflexive(a: Seq<char>)
    ensures
        !lex_lt(a, a),
    decreases a.len(),
{
    if a.len() > 0 {
        lemma_lex_lt_irreflexive(a.drop_first());
    }
}

/// The lexical order is transitive.
pub proof fn lemma_lex_lt_transitive(a: Seq<char>, b: Seq<char>, c: Seq<char>)
    requires
        lex_lt(a, b),
        lex_lt(b, c),
    ensures
        lex_lt(a, c),
    decreases a.len(),
{
    if a.len() > 0 && b.len() > 0 && c.len() > 0 {
        if a[0] == b[0] && b[0] == c[0] {
            lemma_lex_lt_transitive(a.drop_first(), b.drop_first(), c.drop_first());
        }
    }
}

/// Of two different words, one comes before the other.
pub proof fn lemma_lex_lt_total(a: Seq<char>, b: Seq<char>)
    ensures
        a == b || lex_lt(a, b) || lex_lt(b, a),
    decreases a.len(),
{
    if a.len() == 0 || b.len() == 0 {
        if a.len() == 0 && b.len() == 0 {
            assert(a =~= b);
        }
    } else if a[0] != b[0] {
        if code(a[0]) == code(b[0]) {
            lemma_code_injective(a[0], b[0]);
        }
    } else {
        lemma_lex_lt_total(a.drop_first(), b.drop_first());
        if a.drop_first() == b.drop_first() {
            assert(a =~= seq![a[0]] + a.drop_first());
            assert(b =~= seq![b[0]] + b.drop_first());
        }
    }
}

/// A word never comes both before and after another.
pub proof fn lemma_lex_lt_asymmetric(a: Seq<char>, b: Seq<char>)
    requires
        lex_lt(a, b),
    ensures
        !lex_lt(b, a),
{
    if lex_lt(b, a) {
        lemma_lex_lt_transitive(a, b, a);
        lemma_lex_lt_irreflexive(a);
    }
}

/// Words that agree on their first `k` characters compare as their remainders do.
pub proof fn lemma_lex_lt_skip(a: Seq<char>, b: Seq<char>, k: int)
    requires
        0 <= k <= a.len(),
        k <= b.len(),
        a.take(k) == b.take(k),
    ensures
        lex_lt(a, b) == lex_lt(a.skip(k), b.skip(k)),
    decreases k,
{
    if k == 0 {
        assert(a.skip(0) =~= a);
        assert(b.skip(0) =~= b);
    } else {
        assert(a[0] == a.take(k)[0]);
        assert(b[0] == b.take(k)[0]);
        assert(a.drop_first().take(k - 1) =~= a.take(k).drop_first());
        assert(b.drop_first().take(k - 1) =~= b.take(k).drop_first());
        lemma_lex_lt_skip(a.drop_first(), b.drop_first(), k - 1);
        assert(a.drop_first().skip(k - 1) =~= a.skip(k));
        assert(b.drop_first().skip(k - 1) =~= b.skip(k));
    }
}

/// The words `a` and `b` agree before position `k`, and there the order is
/// decided for `a`: either `a` ends and `b` goes on, or `a` has the character
/// with the smaller code point.
pub open spec fn decided_at(a: Seq<char>, b: Seq<char>, k: int) -> bool {
    &&& 0 <= k <= a.len()
    &&& k < b.len()
    &&& a.take(k) == b.take(k)
    &&& k < a.len() ==> code(a[k]) < code(b[k])
}

/// Where `a` comes before `b`, there is a position at which that is decided.
pub proof fn lemma_lex_lt_witness(a: Seq<char>, b: Seq<char>) -> (k: int)
    requires
        lex_lt(a, b),
    ensures
        decided_at(a, b, k),
    decreases a.len(),
{
    if a.len() == 0 || a[0] != b[0] {
        assert(a.take(0) =~= b.take(0));
        0
    } else {
        let k = lemma_lex_lt_witness(a.drop_first(), b.drop_first());
        assert(a.take(k + 1) =~= seq![a[0]] + a.drop_first().take(k));
        assert(b.take(k + 1) =~= seq![b[0]] + b.drop_first().take(k));
        k + 1
    }
}

/// The lexical order is the order of dictionaries: `a` comes before `b`
/// exactly if the order is decided for `a` at some position.
pub proof fn lemma_lex_lt_decided(a: Seq<char>, b: Seq<char>)
    ensures
        lex_lt(a, b) <==> exists|k: int| decided_at(a, b, k),
{
    if lex_lt(a, b) {
        let k = lemma_lex_lt_witness(a, b);
        assert(decided_at(a, b, k));
    }
    if exists|k: int| decided_at(a, b, k) {
        let k = choose|k: int| decided_at(a, b, k);
        lemma_lex_lt_skip(a, b, k);
        if k < a.len() {
            assert(a.skip(k)[0] == a[k]);
            assert(b.skip(k)[0] == b[k]);
        }
    }
}

/// The code point of the first character of a non-empty word.
pub open spec fn leading(w: Seq<char>) -> u32 {
    w[0] as u32
}

/// In lexical order the first characters of non-empty words never decrease.
pub proof fn lemma_lex_lt_leading(a: Seq<char>, b: Seq<char>)
    requires
        lex_lt(a, b),
        a.len() > 0,
    ensures
        b.len() > 0,
        code(a[0]) <= code(b[0]),
        leading(a) <= leading(b),
{
}

/// Tells whether `a` comes strictly before `b` in lexical order.
pub fn word_less(a: &str, b: &str) -> (r: bool)
    ensures
        r == lex_lt(a@, b@),
{
    let mut rest = b.chars();
    for x in it: a.chars()
        invariant
            it.seq() == a@,
            it.index() <= b@.len(),
            rest.remaining() == b@.skip(it.index() as int),
            rest.obeys_prophetic_iter_laws(),
            a@.take(it.index() as int) == b@.take(it.index() as int),
    {
        let ghost k = it.index() as int;
        proof {
            lemma_lex_lt_skip(a@, b@, k);
        }
        match rest.next() {
            None => {
                return false;
            },
            Some(y) => {
                assert(y == b@[k]);
                assert(x == a@[k]);
                if x != y {
                    assert(a@.skip(k)[0] == x && b@.skip(k)[0] == y);
                    return (x as u32) < (y as u32);
                }
                assert(a@.take(k + 1) =~= a@.take(k).push(x));
                assert(b@.take(k + 1) =~= b@.take(k).push(y));
                assert(b@.skip(k).drop_first() =~= b@.skip(k + 1));
            },
        }
    }
    proof {
        lemma_lex_lt_skip(a@, b@, a@.len() as int);
    }
    rest.next().is_some()
}

/// Tells whether `word` begins with `prefix`.
pub fn starts_with(word: &str, prefix: &str) -> (r: bool)
    ensures
        r == prefix@.is_prefix_of(word@),
{
    let mut rest = word.chars();
    for x in it: prefix.chars()
        invariant
            it.seq() == prefix@,
            it.index() <= word@.len(),
            rest.remaining() == word@.skip(it.index() as int),
            rest.obeys_prophetic_iter_laws(),
            prefix@.take(it.index() as int) == word@.take(it.index() as int),
    {
        let ghost k = it.index() as int;
        match rest.next() {
            None => {
                return false;
            },
            Some(y) => {
                if x != y {
                    assert(prefix@[k] != word@[k]);
                    return false;
                }
                assert(prefix@.take(k + 1) =~= prefix@.take(k).push(x));
                assert(word@.take(k + 1) =~= word@.take(k).push(y));
                assert(word@.skip(k).drop_first() =~= word@.skip(k + 1));
            },
        }
    }
    assert(prefix@.take(prefix@.len() as int) =~= prefix@);
    true
}

/// The pieces of a text between its separators, in order. A text with `n`
/// separators has `n + 1` pieces, some of which may be empty.
pub open spec fn split_on(s: Seq<char>, sep: char) -> Seq<Seq<char>>
    decreases s.len(),
{
    if s.len() == 0 {
        seq![Seq::<char>::empty()]
    } else {
        let head = split_on(s.drop_last(), sep);
        if s.last() == sep {
            head.push(Seq::<char>::empty())
        } else {
            head.drop_last().push(head.last().push(s.last()))
        }
    }
}

/// The pieces of a line between its spaces.
pub open spec fn split_spaces(s: Seq<char>) -> Seq<Seq<char>> {
    split_on(s, ' ')
}

/// A text has at least one piece and at most one more than it has characters.
pub proof fn lemma_split_on_len(s: Seq<char>, sep: char)
    ensures
        1 <= split_on(s, sep).len() <= s.len() + 1,
    decreases s.len(),
{
    if s.len() > 0 {
        lemma_split_on_len(s.drop_last(), sep);
    }
}

/// The text that pieces make when a separator is set between each two
/// neighbours.
pub open spec fn join(pieces: Seq<Seq<char>>, sep: char) -> Seq<char>
    decreases pieces.len(),
{
    if pieces.len() == 0 {
        Seq::empty()
    } else if pieces.len() == 1 {
        pieces[0]
    } else {
        join(pieces.drop_last(), sep) + seq![sep] + pieces.last()
    }
}

/// There is at least one piece, and no piece holds the separator.
pub open spec fn are_pieces(pieces: Seq<Seq<char>>, sep: char) -> bool {
    &&& pieces.len() >= 1
    &&& forall|i: int| 0 <= i < pieces.len() ==> !(#[trigger] pieces[i]).contains(sep)
}

/// The pieces of a text hold no separator, and joined they give the text.
pub proof fn lemma_split_on_joins(s: Seq<char>, sep: char)
    ensures
        are_pieces(split_on(s, sep), sep),
        join(split_on(s, sep), sep) == s,
    decreases s.len(),
{
    let pieces = split_on(s, sep);
    if s.len() == 0 {
        assert(join(pieces, sep) =~= s);
    } else {
        let t = s.drop_last();
        let c = s.last();
        let head = split_on(t, sep);
        lemma_split_on_joins(t, sep);
        assert(s =~= t.push(c));
        if c == sep {
            assert(pieces.drop_last() =~= head);
            assert(join(pieces, sep) =~= s);
            assert forall|i: int| 0 <= i < pieces.len() implies !(#[trigger] pieces[i]).contains(
                sep,
            ) by {
                if i < head.len() {
                    assert(pieces[i] == head[i]);
                }
            }
        } else {
            let grown = head.last().push(c);
            assert(pieces.last() == grown);
            assert(pieces.drop_last() =~= head.drop_last());
            if head.len() == 1 {
                assert(join(pieces, sep) =~= s);
            } else {
                assert(join(pieces, sep) =~= join(head.drop_last(), sep) + seq![sep] + grown);
                assert(join(head, sep) =~= join(head.drop_last(), sep) + seq![sep] + head.last());
                assert(join(pieces, sep) =~= s);
            }
            assert forall|i: int| 0 <= i < pieces.len() implies !(#[trigger] pieces[i]).contains(
                sep,
            ) by {
                if i < head.len() - 1 {
                    assert(pieces[i] == head[i]);
                } else {
                    assert(!head[head.len() - 1].contains(sep));
                    if grown.contains(sep) {
                        let j = choose|j: int| 0 <= j < grown.len() && grown[j] == sep;
                        assert(head.last()[j] == sep);
                    }
                }
            }
        }
    }
}

/// Pieces without a separator that join to a text are the pieces of that
/// text: a text is split in one way only.
pub proof fn lemma_split_on_unique(pieces: Seq<Seq<char>>, sep: char)
    requires
        are_pieces(pieces, sep),
    ensures
        split_on(join(pieces, sep), sep) == pieces,
    decreases join(pieces, sep).len(),
{
    let s = join(pieces, sep);
    let n = pieces.len() as int;
    let last = pieces[n - 1];
    if n >= 2 {
        assert(s =~= join(pieces.drop_last(), sep) + seq![sep] + last);
    }
    if s.len() == 0 {
        assert(n == 1);
        assert(pieces[0] =~= Seq::<char>::empty());
        assert(pieces =~= seq![Seq::<char>::empty()]);
    } else if last.len() == 0 {
        assert(n >= 2);
        let rest = pieces.drop_last();
        assert(s.drop_last() =~= join(rest, sep));
        assert(s.last() == sep);
        assert forall|i: int| 0 <= i < rest.len() implies !(#[trigger] rest[i]).contains(sep) by {
            assert(rest[i] == pieces[i]);
        }
        lemma_split_on_unique(rest, sep);
        assert(last =~= Seq::<char>::empty());
        assert(pieces =~= rest.push(Seq::<char>::empty()));
    } else {
        let c = last.last();
        let shorter = pieces.update(n - 1, last.drop_last());
        assert(last.contains(c));
        assert(s.last() == c);
        assert(c != sep);
        assert(shorter.drop_last() =~= pieces.drop_last());
        assert(s.drop_last() =~= join(shorter, sep)) by {
            if n >= 2 {
                assert(join(shorter, sep) =~= join(pieces.drop_last(), sep) + seq![sep]
                    + last.drop_last());
            }
        }
        assert forall|i: int| 0 <= i < shorter.len() implies !(#[trigger] shorter[i]).contains(
            sep,
        ) by {
            if i < n - 1 {
                assert(shorter[i] == pieces[i]);
            } else if shorter[i].contains(sep) {
                let j = choose|j: int| 0 <= j < shorter[i].len() && shorter[i][j] == sep;
                assert(last[j] == sep);
            }
        }
        lemma_split_on_unique(shorter, sep);
        assert(last =~= last.drop_last().push(c));
        assert(pieces =~= shorter.drop_last().push(shorter.last().push(c)));
    }
}

/// Appends a character to a string: this is `String::push` of the standard
/// library, which is taken to add exactly the given character at the end.
pub assume_specification[ String::push ](s: &mut String, c: char)
    ensures
        final(s)@ == old(s)@.push(c),
;

/// Splits a line at its spaces.
pub fn split_words(input: &str) -> (out: Vec<String>)
    ensures
        word_seq(out@) == split_spaces(input@),
{
    split_text(input, ' ')
}

/// Splits a text at every separator.
pub fn split_text(input: &str, sep: char) -> (out: Vec<String>)
    ensures
        word_seq(out@) == split_on(input@, sep),
{
    let mut out: Vec<String> = Vec::new();
    let mut cur = String::new();
    assert(word_seq(out@).push(cur@) =~= split_on(input@.take(0), sep));
    for c in it: input.chars()
        invariant
            it.seq() == input@,
            word_seq(out@).push(cur@) == split_on(input@.take(it.index() as int), sep),
    {
        let ghost k = it.index() as int;
        let ghost head = split_on(input@.take(k), sep);
        let ghost done = word_seq(out@);
        proof {
            assert(input@.take(k + 1).drop_last() =~= input@.take(k));
            assert(input@.take(k + 1).last() == c);
        }
        if c == sep {
            let ghost piece = cur@;
            out.push(cur);
            cur = String::new();
            assert(word_seq(out@) =~= done.push(piece));
        } else {
            let ghost piece = cur@;
            cur.push(c);
            assert(head.drop_last() =~= done);
            assert(head.last() == piece);
        }
    }
    let ghost done = word_seq(out@);
    let ghost piece = cur@;
    out.push(cur);
    assert(word_seq(out@) =~= done.push(piece));
    assert(input@.take(input@.len() as int) =~= input@);
    out
}

/// The character is blank: it is one of the characters that count as white
/// space, among them the space, the tabulator and the ends of lines.
pub open spec fn is_blank(c: char) -> bool {
    let u = code(c);
    ||| 0x09 <= u <= 0x0d
    ||| u == 0x20
    ||| u == 0x85
    ||| u == 0xa0
    ||| u == 0x1680
    ||| 0x2000 <= u <= 0x200a
    ||| u == 0x2028
    ||| u == 0x2029
    ||| u == 0x202f
    ||| u == 0x205f
    ||| u == 0x3000
}

/// The text without the blanks at its beginning.
pub open spec fn trim_start(s: Seq<char>) -> Seq<char>
    decreases s.len(),
{
    if s.len() > 0 && is_blank(s.first()) {
        trim_start(s.drop_first())
    } else {
        s
    }
}

/// The text without the blanks at its end.
pub open spec fn trim_end(s: Seq<char>) -> Seq<char>
    decreases s.len(),
{
    if s.len() > 0 && is_blank(s.last()) {
        trim_end(s.drop_last())
    } else {
        s
    }
}

/// The text without the blanks at its beginning and at its end.
pub open spec fn trimmed(s: Seq<char>) -> Seq<char> {
    trim_end(trim_start(s))
}

/// The text from `from` up to `to` is left of `s` when the blanks at both
/// ends are dropped: before and behind it all is blank, and it neither
/// begins nor ends with a blank.
pub open spec fn is_core(s: Seq<char>, from: int, to: int) -> bool {
    &&& 0 <= from <= to <= s.len()
    &&& forall|j: int| 0 <= j < from ==> is_blank(#[trigger] s[j])
    &&& forall|j: int| to <= j < s.len() ==> is_blank(#[trigger] s[j])
    &&& from < to ==> !is_blank(s[from]) && !is_blank(s[to - 1])
}

/// Dropping the blanks at the beginning leaves the text from the first
/// character that is not blank.
proof fn lemma_trim_start_is(s: Seq<char>, from: int)
    requires
        0 <= from <= s.len(),
        forall|j: int| 0 <= j < from ==> is_blank(#[trigger] s[j]),
        from < s.len() ==> !is_blank(s[from]),
    ensures
        trim_start(s) == s.skip(from),
    decreases from,
{
    if from == 0 {
        assert(s.skip(0) =~= s);
    } else {
        assert(is_blank(s[0]));
        let rest = s.drop_first();
        assert forall|j: int| 0 <= j < from - 1 implies is_blank(#[trigger] rest[j]) by {
            assert(rest[j] == s[j + 1]);
        }
        lemma_trim_start_is(rest, from - 1);
        assert(rest.skip(from - 1) =~= s.skip(from));
    }
}

/// Dropping the blanks at the end leaves the text up to the last character
/// that is not blank.
proof fn lemma_trim_end_is(s: Seq<char>, to: int)
    requires
        0 <= to <= s.len(),
        forall|j: int| to <= j < s.len() ==> is_blank(#[trigger] s[j]),
        0 < to ==> !is_blank(s[to - 1]),
    ensures
        trim_end(s) == s.take(to),
    decreases s.len() - to,
{
    if to == s.len() {
        assert(s.take(to) =~= s);
    } else {
        assert(is_blank(s[s.len() - 1]));
        let rest = s.drop_last();
        assert forall|j: int| to <= j < rest.len() implies is_blank(#[trigger] rest[j]) by {
            assert(rest[j] == s[j]);
        }
        lemma_trim_end_is(rest, to);
        assert(rest.take(to) =~= s.take(to));
    }
}

/// What is left of a text when the blanks at both ends are dropped is the
/// trimmed text.
pub proof fn lemma_trimmed_is_core(s: Seq<char>, from: int, to: int)
    requires
        is_core(s, from, to),
    ensures
        trimmed(s) == s.subrange(from, to),
{
    if from == to {
        lemma_trim_start_is(s, s.len() as int);
        assert(s.skip(s.len() as int) =~= Seq::<char>::empty());
        assert(s.subrange(from, to) =~= Seq::<char>::empty());
    } else {
        lemma_trim_start_is(s, from);
        let rest = s.skip(from);
        assert forall|j: int| to - from <= j < rest.len() implies is_blank(#[trigger] rest[j]) by {
            assert(rest[j] == s[j + from]);
        }
        assert(rest[to - from - 1] == s[to - 1]);
        lemma_trim_end_is(rest, to - from);
        assert(rest.take(to - from) =~= s.subrange(from, to));
    }
}

/// A text that neither begins nor ends with a blank is left as it is.
pub proof fn lemma_trimmed_keeps(s: Seq<char>)
    requires
        s.len() > 0 ==> !is_blank(s.first()) && !is_blank(s.last()),
    ensures
        trimmed(s) == s,
{
    lemma_trimmed_is_core(s, 0, s.len() as int);
    assert(s.subrange(0, s.len() as int) =~= s);
}

/// Tells whether the character is blank.
pub fn is_blank_char(c: char) -> (r: bool)
    ensures
        r == is_blank(c),
{
    let u: u32 = c as u32;
    (0x09 <= u && u <= 0x0d) || u == 0x20 || u == 0x85 || u == 0xa0 || u == 0x1680 || (0x2000 <= u
        && u <= 0x200a) || u == 0x2028 || u == 0x2029 || u == 0x202f || u == 0x205f || u == 0x3000
}

/// The text without the blanks at its beginning and at its end.
pub fn trim_blanks(input: &str) -> (r: &str)
    ensures
        r@ == trimmed(input@),
{
    let length: usize = input.unicode_len();
    let mut from: usize = 0;
    let mut to: usize = 0;
    let mut seen: usize = 0;
    for c in it: input.chars()
        invariant
            it.seq() == input@,
            length == input@.len(),
            seen == it.index(),
            from <= to <= seen,
            forall|j: int| 0 <= j < from ==> is_blank(#[trigger] input@[j]),
            forall|j: int| to <= j < seen ==> is_blank(#[trigger] input@[j]),
            from < to ==> !is_blank(input@[from as int]) && !is_blank(input@[to - 1]),
            from == to ==> from == 0 || from == seen,
            seen <= length,
    {
        if is_blank_char(c) {
            if from == to {
                from = seen + 1;
                to = seen + 1;
            }
        } else {
            if from == to {
                from = seen;
            }
            to = seen + 1;
        }
        seen = seen + 1;
    }
    proof {
        if from == to {
            assert forall|j: int| 0 <= j < input@.len() implies is_blank(#[trigger] input@[j]) by {}
            lemma_trimmed_is_core(input@, input@.len() as int, input@.len() as int);
            assert(input@.subrange(from as int, to as int) =~= Seq::<char>::empty());
            assert(input@.subrange(input@.len() as int, input@.len() as int)
                =~= Seq::<char>::empty());
        } else {
            lemma_trimmed_is_core(input@, from as int, to as int);
        }
    }
    input.substring_char(from, to)
}

/// The string slices of a vector of strings.
pub fn as_tokens(pieces: &Vec<String>) -> (tokens: Vec<&str>)
    ensures
        token_seq(tokens@) == word_seq(pieces@),
{
    let mut tokens: Vec<&str> = Vec::with_capacity(pieces.len());
    for i in 0..pieces.len()
        invariant
            token_seq(tokens@) == word_seq(pieces@).take(i as int),
    {
        let ghost before = token_seq(tokens@);
        tokens.push(pieces[i].as_str());
        assert(token_seq(tokens@) =~= before.push(pieces@[i as int]@));
        assert(word_seq(pieces@).take(i + 1) =~= word_seq(pieces@).take(i as int).push(
            pieces@[i as int]@,
        ));
    }
    assert(word_seq(pieces@).take(pieces@.len() as int) =~= word_seq(pieces@));
    tokens
}

/// The first character of a word, if it has one.
pub fn first_char(word: &str) -> (r: Option<char>)
    ensures
        word@.len() == 0 ==> r is None,
        word@.len() > 0 ==> r == Some(word@[0]),
{
    if word.is_empty() {
        None
    } else {
        Some(word.get_char(0))
    }
}

} // verus!
