//! The text form of a record: a line that holds a word, a comma and the score
//! in decimal digits.

use vstd::prelude::*;
use vstd::string::StringExecFns;

use crate::error::ModelError;
use crate::records::Record;
use crate::text::{
    code, is_blank, join, lemma_split_on_unique, lemma_trimmed_keeps, split_on, trimmed,
};

verus! {

/// The character that separates the word of a record from its score.
pub const FIELD_SEPARATOR: char = ',';

/// The character that ends a record.
pub const RECORD_END: char = '\n';

/// The character that separates the two words of a pair.
pub const WORD_SEPARATOR: char = ' ';

/// The character for a digit below ten.
pub open spec fn digit_char(d: nat) -> char {
    (48 + d) as u8 as char
}

/// The digits of a number in base ten, without leading zeros.
pub open spec fn decimal(n: nat) -> Seq<char>
    decreases n,
{
    if n < 10 {
        seq![digit_char(n)]
    } else {
        decimal(n / 10).push(digit_char(n % 10))
    }
}

/// The character is one of the ten digits.
pub open spec fn is_digit(c: char) -> bool {
    48 <= code(c) <= 57
}

/// The number for which a digit stands; zero for any other character.
pub open spec fn digit_value(c: char) -> nat {
    if is_digit(c) {
        (code(c) - 48) as nat
    } else {
        0
    }
}

/// A non-empty run of digits.
pub open spec fn is_number(s: Seq<char>) -> bool {
    s.len() > 0 && forall|i: int| 0 <= i < s.len() ==> is_digit(#[trigger] s[i])
}

/// The number that a run of digits spells in base ten.
pub open spec fn value_of(s: Seq<char>) -> nat
    decreases s.len(),
{
    if s.len() == 0 {
        0
    } else {
        value_of(s.drop_last()) * 10 + digit_value(s.last())
    }
}

/// The first position at which `c` stands in `s`, or the length of `s` if it
/// stands nowhere.
pub open spec fn find_char(s: Seq<char>, c: char) -> int
    decreases s.len(),
{
    if s.len() == 0 {
        0
    } else if s[0] == c {
        0
    } else {
        1 + find_char(s.drop_first(), c)
    }
}

/// The line of a record: the word, a comma, and the score in digits.
pub open spec fn record_line(word: Seq<char>, score: nat) -> Seq<char> {
    word + seq![FIELD_SEPARATOR] + decimal(score)
}

/// The line holds a record: before its first comma stands a non-empty word,
/// and behind it a number that a score can hold, and nothing else.
pub open spec fn is_record_line(line: Seq<char>) -> bool {
    let i = find_char(line, FIELD_SEPARATOR);
    &&& 0 < i < line.len()
    &&& is_number(line.skip(i + 1))
    &&& value_of(line.skip(i + 1)) <= u32::MAX
}

/// The word of a line that holds a record.
pub open spec fn line_word(line: Seq<char>) -> Seq<char> {
    line.take(find_char(line, FIELD_SEPARATOR))
}

/// The score of a line that holds a record.
pub open spec fn line_score(line: Seq<char>) -> nat {
    value_of(line.skip(find_char(line, FIELD_SEPARATOR) + 1))
}

/// The text of a sequence of records: the line of each record in turn, each
/// with a line end behind it.
pub open spec fn records_text(recs: Seq<Record>) -> Seq<char>
    decreases recs.len(),
{
    if recs.len() == 0 {
        Seq::empty()
    } else {
        records_text(recs.drop_last()) + record_line(recs.last().0, recs.last().1 as nat)
            + seq![RECORD_END]
    }
}

/// The lines of a text: its pieces between line ends, but for an empty piece
/// behind the last line end.
pub open spec fn text_lines(s: Seq<char>) -> Seq<Seq<char>> {
    let pieces = split_on(s, RECORD_END);
    if pieces.last().len() == 0 {
        pieces.drop_last()
    } else {
        pieces
    }
}

/// The lines of a text, each without the blanks around it.
pub open spec fn trimmed_lines(s: Seq<char>) -> Seq<Seq<char>> {
    text_lines(s).map_values(|l: Seq<char>| trimmed(l))
}

/// Every line holds a record.
pub open spec fn are_record_lines(lines: Seq<Seq<char>>) -> bool {
    forall|i: int| 0 <= i < lines.len() ==> is_record_line(#[trigger] lines[i])
}

/// The records that lines hold.
pub open spec fn lines_records(lines: Seq<Seq<char>>) -> Seq<Record> {
    lines.map_values(|l: Seq<char>| (line_word(l), line_score(l) as u32))
}

/// The line of a pair of words: the first word, a space, and the record of
/// the second word.
pub open spec fn pair_line(first: Seq<char>, rec: Record) -> Seq<char> {
    first + seq![WORD_SEPARATOR] + record_line(rec.0, rec.1 as nat)
}

/// The text of the records behind one first word: the line of each pair in
/// turn, each with a line end behind it.
pub open spec fn pair_lines(first: Seq<char>, recs: Seq<Record>) -> Seq<char>
    decreases recs.len(),
{
    if recs.len() == 0 {
        Seq::empty()
    } else {
        pair_lines(first, recs.drop_last()) + pair_line(first, recs.last()) + seq![RECORD_END]
    }
}

/// The text of a sequence of first words, each with the records behind it.
pub open spec fn pairs_text(groups: Seq<(Seq<char>, Seq<Record>)>) -> Seq<char>
    decreases groups.len(),
{
    if groups.len() == 0 {
        Seq::empty()
    } else {
        pairs_text(groups.drop_last()) + pair_lines(groups.last().0, groups.last().1)
    }
}

/// `find_char` gives a position at which the character stands and before
/// which it does not, or the length.
pub proof fn lemma_find_char(s: Seq<char>, c: char)
    ensures
        0 <= find_char(s, c) <= s.len(),
        find_char(s, c) < s.len() ==> s[find_char(s, c)] == c,
        forall|j: int| 0 <= j < find_char(s, c) ==> s[j] != c,
    decreases s.len(),
{
    if s.len() > 0 && s[0] != c {
        let rest = s.drop_first();
        lemma_find_char(rest, c);
        assert forall|j: int| 0 <= j < find_char(s, c) implies s[j] != c by {
            if j > 0 {
                assert(s[j] == rest[j - 1]);
            }
        }
    }
}

/// A position at which the character stands and before which it does not is
/// the one that `find_char` gives.
pub proof fn lemma_find_char_is(s: Seq<char>, c: char, i: int)
    requires
        0 <= i <= s.len(),
        i < s.len() ==> s[i] == c,
        forall|j: int| 0 <= j < i ==> s[j] != c,
    ensures
        find_char(s, c) == i,
{
    lemma_find_char(s, c);
    let f = find_char(s, c);
    if f < i {
        assert(s[f] != c);
    }
}

/// Appending a character to a run of digits never makes its value smaller.
pub proof fn lemma_value_of_prefix(s: Seq<char>, k: int)
    requires
        0 <= k <= s.len(),
    ensures
        value_of(s.take(k)) <= value_of(s),
    decreases s.len() - k,
{
    if k < s.len() {
        lemma_value_of_prefix(s, k + 1);
        assert(s.take(k + 1).drop_last() =~= s.take(k));
    } else {
        assert(s.take(k) =~= s);
    }
}

/// The digits of a number are a number, and spell it.
pub proof fn lemma_decimal_value(n: nat)
    ensures
        is_number(decimal(n)),
        value_of(decimal(n)) == n,
        forall|i: int| 0 <= i < decimal(n).len() ==> is_digit(#[trigger] decimal(n)[i]),
    decreases n,
{
    if n < 10 {
        let s = decimal(n);
        assert(s.drop_last() =~= Seq::<char>::empty());
        assert(value_of(s.drop_last()) == 0);
        assert(code(digit_char(n)) == 48 + n);
    } else {
        let head = decimal(n / 10);
        let s = decimal(n);
        lemma_decimal_value(n / 10);
        assert(s.drop_last() =~= head);
        assert(code(digit_char(n % 10)) == 48 + n % 10);
        assert forall|i: int| 0 <= i < s.len() implies is_digit(#[trigger] s[i]) by {
            if i < head.len() {
                assert(s[i] == head[i]);
            }
        }
    }
}

/// The line of a record holds that record: reading a line that was written
/// for a non-empty word without a comma gives back the word and its score.
pub proof fn lemma_record_line_round_trip(word: Seq<char>, score: u32)
    requires
        word.len() > 0,
        !word.contains(FIELD_SEPARATOR),
    ensures
        is_record_line(record_line(word, score as nat)),
        line_word(record_line(word, score as nat)) == word,
        line_score(record_line(word, score as nat)) == score,
{
    let line = record_line(word, score as nat);
    let i = word.len() as int;
    lemma_decimal_value(score as nat);
    assert(line[i] == FIELD_SEPARATOR);
    assert forall|j: int| 0 <= j < i implies line[j] != FIELD_SEPARATOR by {
        assert(line[j] == word[j]);
        assert(word.contains(word[j]));
    }
    lemma_find_char_is(line, FIELD_SEPARATOR, i);
    assert(line.take(i) =~= word);
    assert(line.skip(i + 1) =~= decimal(score as nat));
}

/// A word that can stand in a saved file: it is not empty, holds neither a
/// comma nor a line end, and does not begin with a blank.
pub open spec fn is_plain_word(w: Seq<char>) -> bool {
    w.len() > 0 && !w.contains(FIELD_SEPARATOR) && !w.contains(RECORD_END) && !is_blank(w[0])
}

/// Every record is a record for a plain word.
pub open spec fn are_plain_records(recs: Seq<Record>) -> bool {
    forall|i: int| 0 <= i < recs.len() ==> is_plain_word((#[trigger] recs[i]).0)
}

/// The lines of a sequence of records.
pub open spec fn record_lines(recs: Seq<Record>) -> Seq<Seq<char>> {
    recs.map_values(|r: Record| record_line(r.0, r.1 as nat))
}

/// The line of a record for a plain word holds no line end.
pub proof fn lemma_record_line_plain(word: Seq<char>, score: nat)
    requires
        is_plain_word(word),
    ensures
        !record_line(word, score).contains(RECORD_END),
{
    let line = record_line(word, score);
    lemma_decimal_value(score);
    if line.contains(RECORD_END) {
        let j = choose|j: int| 0 <= j < line.len() && line[j] == RECORD_END;
        if j < word.len() {
            assert(word[j] == RECORD_END);
        } else if j > word.len() {
            assert(is_digit(decimal(score)[j - word.len() - 1]));
        }
    }
}

/// The text of records is their lines, each with a line end behind it.
proof fn lemma_records_text_joins(recs: Seq<Record>)
    requires
        recs.len() > 0,
    ensures
        records_text(recs) == join(record_lines(recs), RECORD_END) + seq![RECORD_END],
    decreases recs.len(),
{
    let lines = record_lines(recs);
    let head = recs.drop_last();
    assert(lines.drop_last() =~= record_lines(head));
    if recs.len() == 1 {
        assert(records_text(head) =~= Seq::<char>::empty());
        assert(records_text(recs) =~= join(lines, RECORD_END) + seq![RECORD_END]);
    } else {
        lemma_records_text_joins(head);
        assert(records_text(recs) =~= join(lines, RECORD_END) + seq![RECORD_END]);
    }
}

/// The lines of the text of plain records are the lines of the records.
pub proof fn lemma_records_text_lines(recs: Seq<Record>)
    requires
        are_plain_records(recs),
    ensures
        text_lines(records_text(recs)) == record_lines(recs),
{
    let lines = record_lines(recs);
    if recs.len() == 0 {
        assert(text_lines(records_text(recs)) =~= lines);
    } else {
        let pieces = lines.push(Seq::<char>::empty());
        lemma_records_text_joins(recs);
        assert(pieces.drop_last() =~= lines);
        assert(join(pieces, RECORD_END) =~= records_text(recs));
        assert forall|i: int| 0 <= i < pieces.len() implies !(#[trigger] pieces[i]).contains(
            RECORD_END,
        ) by {
            if i < lines.len() {
                lemma_record_line_plain(recs[i].0, recs[i].1 as nat);
            }
        }
        lemma_split_on_unique(pieces, RECORD_END);
    }
}

/// The line of a record for a plain word has no blanks around it.
pub proof fn lemma_record_line_trimmed(word: Seq<char>, score: nat)
    requires
        is_plain_word(word),
    ensures
        trimmed(record_line(word, score)) == record_line(word, score),
{
    let line = record_line(word, score);
    let digits = decimal(score);
    lemma_decimal_value(score);
    assert(line.first() == word[0]);
    assert(line.last() == digits[digits.len() - 1]);
    assert(is_digit(digits[digits.len() - 1]));
    lemma_trimmed_keeps(line);
}

/// A saved file holds what was saved: the lines of the text of plain records
/// all hold records, and these are the records in their order.
pub proof fn lemma_records_text_round_trip(recs: Seq<Record>)
    requires
        are_plain_records(recs),
    ensures
        are_record_lines(trimmed_lines(records_text(recs))),
        lines_records(trimmed_lines(records_text(recs))) == recs,
{
    let lines = trimmed_lines(records_text(recs));
    lemma_records_text_lines(recs);
    assert forall|i: int| 0 <= i < lines.len() implies is_record_line(#[trigger] lines[i])
        && lines_records(lines)[i] == recs[i] by {
        lemma_record_line_trimmed(recs[i].0, recs[i].1 as nat);
        lemma_record_line_round_trip(recs[i].0, recs[i].1);
    }
    assert(lines_records(lines) =~= recs);
}

/// Appends the decimal digits of `n`.
pub fn push_decimal(out: &mut String, n: u32)
    ensures
        final(out)@ == old(out)@ + decimal(n as nat),
    decreases n,
{
    if n >= 10 {
        push_decimal(out, n / 10);
    }
    let d: u8 = (n % 10) as u8;
    out.push((48 + d) as char);
    assert(out@ =~= old(out)@ + decimal(n as nat));
}

/// Writes the line of a record.
pub fn format_record(word: &str, score: u32) -> (line: String)
    ensures
        line@ == record_line(word@, score as nat),
{
    let mut line = String::new();
    line.append(word);
    line.push(FIELD_SEPARATOR);
    push_decimal(&mut line, score);
    assert(line@ =~= record_line(word@, score as nat));
    line
}

/// Appends the line of a record and a line end.
pub fn push_record(out: &mut String, word: &str, score: u32)
    ensures
        final(out)@ == old(out)@ + record_line(word@, score as nat) + seq![RECORD_END],
{
    out.append(word);
    out.push(FIELD_SEPARATOR);
    push_decimal(out, score);
    out.push(RECORD_END);
    assert(out@ =~= old(out)@ + record_line(word@, score as nat) + seq![RECORD_END]);
}

/// Appends the line of a pair of words and a line end.
pub fn push_pair(out: &mut String, first: &str, word: &str, score: u32)
    ensures
        final(out)@ == old(out)@ + pair_line(first@, (word@, score)) + seq![RECORD_END],
{
    out.append(first);
    out.push(WORD_SEPARATOR);
    out.append(word);
    out.push(FIELD_SEPARATOR);
    push_decimal(out, score);
    out.push(RECORD_END);
    assert(out@ =~= old(out)@ + pair_line(first@, (word@, score)) + seq![RECORD_END]);
}

/// Reads the line of a record. A line without a comma, with nothing before
/// its first comma, or with anything but a number that a score can hold
/// behind it is refused as malformed.
pub fn parse_record(line: &str) -> (r: Result<(String, u32), ModelError>)
    ensures
        is_record_line(line@) ==> r is Ok && r->Ok_0.0@ == line_word(line@) && r->Ok_0.1
            == line_score(line@),
        !is_record_line(line@) ==> r is Err && r->Err_0 == ModelError::FormatError,
{
    let mut word = String::new();
    let mut seen_comma: bool = false;
    let mut digits: usize = 0;
    let mut value: u64 = 0;
    let mut sound: bool = true;
    let ghost mut comma: int = 0;
    for c in it: line.chars()
        invariant
            it.seq() == line@,
            !seen_comma ==> word@ == line@.take(it.index() as int) && forall|j: int|
                0 <= j < it.index() ==> line@[j] != FIELD_SEPARATOR,
            seen_comma ==> 0 <= comma < it.index() && line@[comma] == FIELD_SEPARATOR && word@
                == line@.take(comma) && forall|j: int| 0 <= j < comma ==> line@[j] != FIELD_SEPARATOR,
            seen_comma && sound ==> value <= u32::MAX && value == value_of(
                line@.subrange(comma + 1, it.index() as int),
            ) && forall|j: int| comma < j < it.index() ==> is_digit(line@[j]),
            seen_comma && !sound ==> (exists|j: int|
                comma < j < it.index() && !is_digit(line@[j])) || value_of(
                line@.subrange(comma + 1, it.index() as int),
            ) > u32::MAX,
            !seen_comma ==> sound && digits == 0 && value == 0,
            seen_comma ==> (digits == 0) == (comma + 1 == it.index()),
    {
        let ghost k = it.index() as int;
        assert(c == line@[k]);
        if !seen_comma {
            if c == FIELD_SEPARATOR {
                seen_comma = true;
                proof {
                    comma = k;
                    assert(line@.subrange(k + 1, k + 1) =~= Seq::<char>::empty());
                }
            } else {
                word.push(c);
                assert(line@.take(k + 1) =~= line@.take(k).push(c));
            }
        } else {
            let ghost before = line@.subrange(comma + 1, k);
            let ghost after = line@.subrange(comma + 1, k + 1);
            proof {
                assert(after.drop_last() =~= before);
                assert(after.last() == c);
            }
            if digits < usize::MAX {
                digits = digits + 1;
            }
            let u: u32 = c as u32;
            if sound {
                if 48 <= u && u <= 57 {
                    let next: u64 = value * 10 + (u - 48) as u64;
                    if next > u32::MAX as u64 {
                        sound = false;
                    } else {
                        value = next;
                    }
                } else {
                    sound = false;
                }
            } else {
                proof {
                    if value_of(before) > u32::MAX {
                        assert(value_of(after) >= value_of(before)) by (nonlinear_arith)
                            requires
                                value_of(after) == value_of(before) * 10 + digit_value(c),
                        ;
                    }
                }
            }
        }
    }
    proof {
        let n = line@.len() as int;
        if seen_comma {
            lemma_find_char_is(line@, FIELD_SEPARATOR, comma);
            assert(line@.subrange(comma + 1, n) =~= line@.skip(comma + 1));
            if !sound {
                if exists|j: int| comma < j < n && !is_digit(line@[j]) {
                    let j = choose|j: int| comma < j < n && !is_digit(line@[j]);
                    assert(line@.skip(comma + 1)[j - comma - 1] == line@[j]);
                }
            } else {
                assert forall|i: int| 0 <= i < line@.skip(comma + 1).len() implies is_digit(
                    #[trigger] line@.skip(comma + 1)[i],
                ) by {
                    assert(line@.skip(comma + 1)[i] == line@[comma + 1 + i]);
                }
            }
        } else {
            lemma_find_char_is(line@, FIELD_SEPARATOR, n);
        }
    }
    if !seen_comma || !sound || digits == 0 || word.as_str().is_empty() {
        return Err(ModelError::FormatError);
    }
    Ok((word, value as u32))
}

} // verus!
