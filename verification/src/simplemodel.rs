//! Single-word prediction: a trainer that counts words, and the predictor that
//! is made from it once the training is over.

use std::collections::HashMap;
use vstd::prelude::*;

use crate::codec::{
    are_plain_records, are_record_lines, is_record_line, lemma_find_char,
    lemma_records_text_round_trip, lines_records, parse_record, push_record, records_text,
    text_lines, trimmed_lines, FIELD_SEPARATOR, RECORD_END,
};
use crate::error::ModelError;
use crate::lexicon::Lexicon;
use crate::prediction::{
    is_prediction, is_selection, lemma_prediction_ranked, records_at, MAX_PREDICTIONS,
};
use crate::predictionentry::PredictionEntry;
use crate::ranking::{is_sorted_order, sorted_order};
use crate::records::{
    entry_records, gather, has_word, is_bucket_index, is_sorted_form, is_table_form,
    lemma_records_map_at, lemma_records_map_dom, lemma_sorted_form, lemma_sorted_form_of_table,
    lemma_sorted_form_unique, lemma_sorted_is_own_form, lemma_sorted_leading, nonempty_words,
    paired, record_seq, record_words, records_map, sorted_records, valid_records, Record,
};
use crate::shortlist::{insert_candidate, is_shortlist, kept_or_beaten, lemma_shortlist_prediction};
use crate::tally::{count_in, lemma_occurrences_take, occurrences, valid_counts};
use crate::text::{
    as_tokens, first_char, leading, lemma_index_of_distinct, lemma_split_on_len, split_spaces,
    split_text, split_words, starts_with, token_seq, trim_blanks, trimmed, word_seq,
};

verus! {

broadcast use vstd::std_specs::hash::group_hash_axioms;

/// Single-word entry trainer.
///
/// The trainer counts how often it has seen each word. Looking a word up and
/// raising its count is fast, but the words are kept in no useful order: when
/// the training is over the trainer is turned into a `SimpleWordPredictor`.
pub struct SimpleWordTrainer {
    /// The words seen so far.
    lexicon: Lexicon,
    /// The count of each word, by its number in the lexicon.
    counts: Vec<u32>,
}

impl View for SimpleWordTrainer {
    type V = Map<Seq<char>, u32>;

    /// The count of every word seen so far.
    closed spec fn view(&self) -> Map<Seq<char>, u32> {
        Map::new(
            |w: Seq<char>| self.lexicon@.contains(w),
            |w: Seq<char>| self.counts@[self.lexicon@.index_of(w)],
        )
    }
}

impl SimpleWordTrainer {
    /// Every word held is non-empty and has a count of at least one.
    pub closed spec fn wf(&self) -> bool {
        &&& self.lexicon.wf()
        &&& self.counts@.len() == self.lexicon@.len()
        &&& forall|i: int|
            #![trigger self.counts@[i]]
            #![trigger self.lexicon@[i]]
            0 <= i < self.counts@.len() ==> self.lexicon@[i].len() > 0 && self.counts@[i] >= 1
    }

    /// How often the trainer has seen `w`.
    pub open spec fn count(&self, w: Seq<char>) -> nat {
        count_in(self@, w)
    }

    /// The counts of a trainer form a valid table.
    pub proof fn lemma_valid(&self)
        requires
            self.wf(),
        ensures
            valid_counts(self@),
    {
        self.lexicon.lemma_distinct();
        assert(self@.dom() =~= self.lexicon@.to_set());
        vstd::seq_lib::seq_to_set_is_finite(self.lexicon@);
        assert forall|w: Seq<char>| #[trigger] self@.contains_key(w) implies w.len() > 0 && self@[w]
            >= 1 by {
            let i = self.lexicon@.index_of(w);
            assert(self.counts@[i] >= 1);
        }
    }

    /// The counts of a trainer are the table of its words paired with their
    /// counts.
    proof fn lemma_view_as_records(&self)
        requires
            self.wf(),
        ensures
            valid_records(paired(self.lexicon@, self.counts@)),
            records_map(paired(self.lexicon@, self.counts@)) == self@,
    {
        let recs = paired(self.lexicon@, self.counts@);
        let words = self.lexicon@;
        self.lexicon.lemma_distinct();
        assert forall|i: int| 0 <= i < recs.len() implies (#[trigger] recs[i]).0.len() > 0
            && recs[i].1 >= 1 by {
            assert(self.counts@[i] >= 1);
        }
        lemma_records_map_dom(recs);
        assert forall|w: Seq<char>| #[trigger]
            records_map(recs).dom().contains(w) == self@.dom().contains(w) by {
            if has_word(recs, w) {
                let a = choose|a: int| 0 <= a < recs.len() && (#[trigger] recs[a]).0 == w;
                assert(words[a] == w);
            }
            if words.contains(w) {
                let id = words.index_of(w);
                assert(recs[id].0 == w);
            }
            assert(records_map(recs).contains_key(w) == has_word(recs, w));
        }
        assert forall|w: Seq<char>| #[trigger] records_map(recs).dom().contains(w) implies records_map(
            recs,
        )[w] == self@[w] by {
            assert(records_map(recs).contains_key(w));
            assert(has_word(recs, w));
            let a = choose|a: int| 0 <= a < recs.len() && (#[trigger] recs[a]).0 == w;
            lemma_records_map_at(recs, a);
            lemma_index_of_distinct(words, a);
        }
        assert(records_map(recs) =~= self@);
    }

    /// Create a new untrained trainer.
    pub fn new() -> (r: SimpleWordTrainer)
        ensures
            r.wf(),
            r@ == Map::<Seq<char>, u32>::empty(),
            valid_counts(r@),
    {
        let r = SimpleWordTrainer { lexicon: Lexicon::new(), counts: Vec::new() };
        assert(r@ =~= Map::<Seq<char>, u32>::empty());
        proof {
            r.lemma_valid();
        }
        r
    }

    /// Create a trainer trained on an initial string, split at its spaces.
    pub fn from_str(input: &str) -> (r: SimpleWordTrainer)
        requires
            forall|w: Seq<char>| occurrences(split_spaces(input@), w) <= u32::MAX,
        ensures
            r.wf(),
            valid_counts(r@),
            forall|w: Seq<char>| #[trigger] r.count(w) == occurrences(split_spaces(input@), w),
    {
        let mut model = SimpleWordTrainer::new();
        model.train_str(input);
        model
    }

    /// Create a trainer trained on an initial vector of words.
    pub fn from_vec(input: &Vec<&str>) -> (r: SimpleWordTrainer)
        requires
            forall|w: Seq<char>| occurrences(token_seq(input@), w) <= u32::MAX,
        ensures
            r.wf(),
            valid_counts(r@),
            forall|w: Seq<char>| #[trigger] r.count(w) == occurrences(token_seq(input@), w),
    {
        let mut model = SimpleWordTrainer::new();
        count_words(&mut model, input);
        model
    }

    /// Train the model on a string that is split at its spaces. Empty pieces
    /// are not words and are passed over.
    pub fn train_str(&mut self, input: &str)
        requires
            old(self).wf(),
            forall|w: Seq<char>|
                old(self).count(w) + occurrences(split_spaces(input@), w) <= u32::MAX,
        ensures
            final(self).wf(),
            valid_counts(final(self)@),
            forall|w: Seq<char>| #[trigger]
                final(self).count(w) == old(self).count(w) + occurrences(split_spaces(input@), w),
    {
        let pieces = split_words(input);
        let tokens = as_tokens(&pieces);
        count_words(self, &tokens);
    }

    /// Train the model on a vector of words. Empty strings are not words and
    /// are passed over.
    pub fn train_vec(&mut self, input: Vec<&str>)
        requires
            old(self).wf(),
            forall|w: Seq<char>| old(self).count(w) + occurrences(token_seq(input@), w) <= u32::MAX,
        ensures
            final(self).wf(),
            valid_counts(final(self)@),
            forall|w: Seq<char>| #[trigger]
                final(self).count(w) == old(self).count(w) + occurrences(token_seq(input@), w),
    {
        count_words(self, &input);
    }

    /// Train the model on a single word. The empty string is not a word and
    /// leaves the model as it is.
    pub fn train_word(&mut self, input: &str)
        requires
            old(self).wf(),
            old(self).count(input@) < u32::MAX,
        ensures
            final(self).wf(),
            valid_counts(final(self)@),
            input@.len() == 0 ==> final(self)@ == old(self)@,
            input@.len() > 0 ==> final(self)@ == old(self)@.insert(
                input@,
                (old(self).count(input@) + 1) as u32,
            ),
    {
        train_single_word(self, input);
        proof {
            self.lemma_valid();
        }
    }

    /// Perform the calculations needed to predict words: the predictor holds
    /// the words in strictly ascending lexical order, each once and with the
    /// count it had here.
    pub fn finalize(self) -> (r: SimpleWordPredictor)
        requires
            self.wf(),
        ensures
            r.wf(),
            is_table_form(r@, self@),
            valid_records(r@),
    {
        proof {
            self.lemma_view_as_records();
        }
        let order = sorted_order(self.lexicon.words());
        let r = assemble(self.lexicon.words(), &self.counts, &order);
        proof {
            let given = paired(self.lexicon@, self.counts@);
            assert(record_words(given) =~= self.lexicon@);
            assert(is_sorted_order(record_words(given), order@) && r@ == gather(given, order@));
            lemma_sorted_form_of_table(given, r@);
        }
        r
    }

    /// The count of `word`, if the trainer has seen it.
    pub fn debug_get_word_score(&self, word: &str) -> (r: Option<&u32>)
        requires
            self.wf(),
        ensures
            match r {
                Some(c) => self@.contains_key(word@) && *c == self@[word@],
                None => !self@.contains_key(word@),
            },
    {
        match self.lexicon.find(word) {
            Some(i) => {
                proof {
                    self.lexicon.lemma_distinct();
                    lemma_index_of_distinct(self.lexicon@, i as int);
                }
                Some(&self.counts[i])
            },
            None => None,
        }
    }
}

/// Single-word prediction engine.
///
/// The predictor holds its entries in lexical order of their words, with an
/// index from each first letter to the first entry that begins with it. A
/// prediction starts from that entry and goes on until the first letter
/// changes.
pub struct SimpleWordPredictor {
    /// The entries in ascending lexical order of their words; entries for
    /// the same word stand together.
    entries: Vec<PredictionEntry>,
    /// For each first letter, by its code point, the position of the first
    /// entry that begins with it.
    ixs: HashMap<u32, usize>,
}

impl View for SimpleWordPredictor {
    type V = Seq<Record>;

    /// The entries as records, in the order in which they are held.
    closed spec fn view(&self) -> Seq<Record> {
        entry_records(self.entries@)
    }
}

impl SimpleWordPredictor {
    /// The entries are sorted, none of them is an entry for the empty word,
    /// and the index of first letters belongs to them.
    pub closed spec fn wf(&self) -> bool {
        &&& nonempty_words(self@)
        &&& sorted_records(self@)
        &&& is_bucket_index(self@, self.ixs@)
    }

    /// The records of a predictor are sorted, and none of them is a record
    /// for the empty word.
    pub proof fn lemma_sorted(&self)
        requires
            self.wf(),
        ensures
            nonempty_words(self@),
            sorted_records(self@),
            self@.len() <= usize::MAX,
    {
        assert(self.entries.len() == self.entries@.len());
    }

    /// A predictor that is made from the record form of this one holds the
    /// same records, and so gives the same prediction for every prefix.
    pub proof fn lemma_record_form_round_trip(&self, rebuilt: SimpleWordPredictor)
        requires
            self.wf(),
            is_sorted_form(self@, rebuilt@),
        ensures
            rebuilt@ == self@,
            forall|prefix: Seq<char>, r: Seq<Record>|
                is_prediction(rebuilt@, prefix, r) == is_prediction(self@, prefix, r),
    {
        self.lemma_sorted();
        lemma_sorted_is_own_form(self@);
        lemma_sorted_form_unique(self@, self@, rebuilt@);
    }

    /// A predictor that is made from the saved file of this one holds the
    /// same records, provided that every word is plain enough to be saved.
    pub proof fn lemma_file_round_trip(&self, rebuilt: SimpleWordPredictor)
        requires
            self.wf(),
            are_plain_records(self@),
            is_sorted_form(lines_records(trimmed_lines(records_text(self@))), rebuilt@),
        ensures
            are_record_lines(trimmed_lines(records_text(self@))),
            rebuilt@ == self@,
    {
        lemma_records_text_round_trip(self@);
        self.lemma_sorted();
        lemma_sorted_is_own_form(self@);
        lemma_sorted_form_unique(self@, self@, rebuilt@);
    }

    /// Given the first letters of a word, return the best-scored entries
    /// whose words begin with them: at most ten, the highest score first,
    /// entries of equal score in lexical order. An empty input is refused.
    pub fn predict(&self, input: &str) -> (r: Result<Vec<PredictionEntry>, ModelError>)
        requires
            self.wf(),
        ensures
            input@.len() == 0 ==> r is Err && r->Err_0 == ModelError::InvalidInput,
            input@.len() > 0 ==> r is Ok && is_prediction(self@, input@, entry_records(r->Ok_0@)),
            r is Ok ==> r->Ok_0@.len() <= MAX_PREDICTIONS,
            r is Ok ==> forall|k: int|
                0 <= k < r->Ok_0@.len() ==> input@.is_prefix_of((#[trigger] r->Ok_0@[k]).word@),
            r is Ok ==> forall|k: int, l: int|
                0 <= k < l < r->Ok_0@.len() ==> (#[trigger] r->Ok_0@[k]).score >= (
                #[trigger] r->Ok_0@[l]).score,
    {
        let first_letter: char = match first_char(input) {
            Some(c) => c,
            None => {
                return Err(ModelError::InvalidInput);
            },
        };
        let key: u32 = first_letter as u32;
        let ghost s = self@;
        let start: usize = match self.ixs.get(&key) {
            Some(n) => *n,
            None => {
                let none: Vec<PredictionEntry> = Vec::new();
                proof {
                    let picks = Seq::<int>::empty();
                    assert forall|j: int| 0 <= j < s.len() implies !input@.is_prefix_of(
                        (#[trigger] s[j]).0,
                    ) by {
                        assert(self.ixs@.contains_key(leading(s[j].0)));
                    }
                    assert(is_selection(s, input@, picks));
                    assert(entry_records(none@) =~= records_at(s, picks));
                }
                return Ok(none);
            },
        };
        let best = self.scan(input, key, start);
        let mut predictions: Vec<PredictionEntry> = Vec::new();
        for k in 0..best.len()
            invariant
                s == entry_records(self.entries@),
                is_shortlist(s, best@, s.len() as int),
                predictions@.len() == k,
                forall|a: int|
                    0 <= a < k ==> (#[trigger] entry_records(predictions@)[a]) == s[best@[a] as int],
        {
            let ghost before = entry_records(predictions@);
            predictions.push(self.entries[best[k]].clone());
            proof {
                assert forall|a: int| 0 <= a < k + 1 implies (#[trigger] entry_records(
                    predictions@,
                )[a]) == s[best@[a] as int] by {
                    if a < k {
                        assert(before[a] == s[best@[a] as int]);
                    }
                }
            }
        }
        proof {
            let recs = entry_records(predictions@);
            lemma_shortlist_prediction(s, input@, best@, recs);
            lemma_prediction_ranked(s, input@, recs);
            assert forall|k: int| 0 <= k < predictions@.len() implies input@.is_prefix_of(
                (#[trigger] predictions@[k]).word@,
            ) by {
                assert(input@.is_prefix_of(recs[k].0));
            }
            assert forall|k: int, l: int| 0 <= k < l < predictions@.len() implies (
            #[trigger] predictions@[k]).score >= (#[trigger] predictions@[l]).score by {
                assert(recs[k].1 >= recs[l].1);
            }
        }
        Ok(predictions)
    }

    /// The entries as pairs of word and score, in ascending lexical order of
    /// the words.
    pub fn to_record_form(&self) -> (r: Vec<(String, u32)>)
        requires
            self.wf(),
        ensures
            record_seq(r@) == self@,
            sorted_records(record_seq(r@)),
            nonempty_words(record_seq(r@)),
    {
        let mut out: Vec<(String, u32)> = Vec::with_capacity(self.entries.len());
        for i in 0..self.entries.len()
            invariant
                record_seq(out@) == self@.take(i as int),
        {
            let ghost before = record_seq(out@);
            let entry = &self.entries[i];
            out.push((entry.word.clone(), entry.score));
            assert(record_seq(out@) =~= before.push(self@[i as int]));
            assert(self@.take(i + 1) =~= self@.take(i as int).push(
                self@[i as int],
            ));
        }
        assert(self@.take(self.entries@.len() as int) =~= self@);
        out
    }

    /// Makes a predictor from pairs of word and score, in whatever order they
    /// come: the predictor holds them sorted by their words, pairs for the
    /// same word in the order in which they came. The pairs are refused as
    /// malformed if a word is empty.
    pub fn from_record_form(records: Vec<(String, u32)>) -> (r: Result<
        SimpleWordPredictor,
        ModelError,
    >)
        ensures
            nonempty_words(record_seq(records@)) ==> r is Ok && r->Ok_0.wf() && is_sorted_form(
                record_seq(records@),
                r->Ok_0@,
            ),
            !nonempty_words(record_seq(records@)) ==> r is Err && r->Err_0
                == ModelError::FormatError,
    {
        let ghost recs = record_seq(records@);
        let mut words: Vec<String> = Vec::with_capacity(records.len());
        let mut scores: Vec<u32> = Vec::with_capacity(records.len());
        for i in 0..records.len()
            invariant
                recs == record_seq(records@),
                words@.len() == i,
                scores@.len() == i,
                paired(word_seq(words@), scores@) == recs.take(i as int),
                forall|a: int| 0 <= a < i ==> (#[trigger] recs[a]).0.len() > 0,
        {
            let ghost before = paired(word_seq(words@), scores@);
            let word: &String = &records[i].0;
            let score: u32 = records[i].1;
            assert(recs[i as int] == (word@, score));
            if word.as_str().is_empty() {
                return Err(ModelError::FormatError);
            }
            words.push(word.clone());
            scores.push(score);
            assert(paired(word_seq(words@), scores@) =~= before.push((word@, score)));
            assert(recs.take(i + 1) =~= recs.take(i as int).push(recs[i as int]));
        }
        assert(recs.take(records@.len() as int) =~= recs);
        let order = sorted_order(&words);
        let r = assemble(&words, &scores, &order);
        proof {
            assert(record_words(recs) =~= word_seq(words@));
            assert(is_sorted_order(record_words(recs), order@) && r@ == gather(recs, order@));
        }
        Ok(r)
    }

    /// The contents of the file that saves this predictor: one line for each
    /// entry, in ascending lexical order of the words.
    pub fn to_file(&self) -> (text: String)
        ensures
            text@ == records_text(self@),
    {
        let ghost recs = self@;
        let mut text = String::new();
        for i in 0..self.entries.len()
            invariant
                recs == self@,
                text@ == records_text(recs.take(i as int)),
        {
            let entry = &self.entries[i];
            push_record(&mut text, entry.word.as_str(), entry.score);
            proof {
                assert(recs.take(i + 1).drop_last() =~= recs.take(i as int));
                assert(recs.take(i + 1).last() == recs[i as int]);
            }
        }
        assert(recs.take(self.entries@.len() as int) =~= recs);
        text
    }

    /// Makes a predictor from the contents of a saved file: each line, with
    /// the blanks around it dropped, is read as a record, and the predictor
    /// holds the records sorted by their words, records for the same word in
    /// the order of their lines. The contents are refused as malformed if a
    /// line does not hold a record.
    pub fn from_file(contents: &str) -> (r: Result<SimpleWordPredictor, ModelError>)
        ensures
            are_record_lines(trimmed_lines(contents@)) ==> r is Ok && r->Ok_0.wf()
                && is_sorted_form(lines_records(trimmed_lines(contents@)), r->Ok_0@),
            !are_record_lines(trimmed_lines(contents@)) ==> r is Err && r->Err_0
                == ModelError::FormatError,
    {
        let ghost lines = trimmed_lines(contents@);
        let pieces = split_text(contents, RECORD_END);
        proof {
            lemma_split_on_len(contents@, RECORD_END);
        }
        let mut n: usize = pieces.len();
        if pieces[n - 1].as_str().is_empty() {
            n = n - 1;
        }
        assert(text_lines(contents@) =~= word_seq(pieces@).take(n as int));
        let mut records: Vec<(String, u32)> = Vec::with_capacity(n);
        for i in 0..n
            invariant
                n <= pieces@.len(),
                lines == trimmed_lines(contents@),
                lines.len() == n,
                forall|a: int| 0 <= a < n ==> #[trigger] lines[a] == trimmed(pieces@[a]@),
                record_seq(records@) == lines_records(lines.take(i as int)),
                forall|a: int| 0 <= a < i ==> is_record_line(#[trigger] lines[a]),
                forall|a: int| 0 <= a < i ==> (#[trigger] record_seq(records@)[a]).0.len() > 0,
        {
            let ghost before = record_seq(records@);
            match parse_record(trim_blanks(pieces[i].as_str())) {
                Ok(record) => {
                    records.push(record);
                    proof {
                        lemma_find_char(lines[i as int], FIELD_SEPARATOR);
                        assert(record_seq(records@) =~= before.push((record.0@, record.1)));
                        assert(lines_records(lines.take(i + 1)) =~= lines_records(
                            lines.take(i as int),
                        ).push(lines_records(lines)[i as int]));
                        assert forall|a: int| 0 <= a < i + 1 implies (#[trigger] record_seq(
                            records@,
                        )[a]).0.len() > 0 by {
                            if a < i {
                                assert(before[a].0.len() > 0);
                            }
                        }
                    }
                },
                Err(e) => {
                    assert(!is_record_line(lines[i as int]));
                    return Err(e);
                },
            }
        }
        assert(lines.take(n as int) =~= lines);
        SimpleWordPredictor::from_record_form(records)
    }

    /// Goes through the entries that begin with the first letter of `input`,
    /// from the place the index gives to the place where the first letter
    /// changes, and keeps the best of those that begin with `input`.
    fn scan(&self, input: &str, key: u32, start: usize) -> (best: Vec<usize>)
        requires
            self.wf(),
            input@.len() > 0,
            key == leading(input@),
            self.ixs@.contains_key(key),
            start == self.ixs@[key],
        ensures
            is_shortlist(self@, best@, self@.len() as int),
            forall|k: int|
                0 <= k < best@.len() ==> input@.is_prefix_of(
                    self@[#[trigger] best@[k] as int].0,
                ),
            forall|j: int|
                0 <= j < self@.len() && input@.is_prefix_of(
                    (#[trigger] self@[j]).0,
                ) ==> kept_or_beaten(self@, best@, j),
    {
        let ghost s = self@;
        let n: usize = self.entries.len();
        let mut best: Vec<usize> = Vec::new();
        let mut i: usize = start;
        let mut scanning: bool = true;
        while scanning && i < n
            invariant
                self.wf(),
                s == self@,
                n == s.len(),
                start <= i <= n,
                input@.len() > 0,
                key == leading(input@),
                self.ixs@.contains_key(key),
                start == self.ixs@[key],
                is_shortlist(s, best@, i as int),
                forall|k: int|
                    0 <= k < best@.len() ==> input@.is_prefix_of(s[#[trigger] best@[k] as int].0),
                forall|j: int|
                    start <= j < i && input@.is_prefix_of((#[trigger] s[j]).0) ==> kept_or_beaten(
                        s,
                        best@,
                        j,
                    ),
                !scanning ==> i < n && leading(s[i as int].0) != key,
            decreases (n - i) + (if scanning { 1int } else { 0int }),
        {
            let entry = &self.entries[i];
            assert(s[i as int].0.len() > 0);
            let c: u32 = match first_char(entry.word.as_str()) {
                Some(ch) => ch as u32,
                None => key,
            };
            if c != key {
                scanning = false;
            } else {
                let ghost before = best@;
                if starts_with(entry.word.as_str(), input) {
                    insert_candidate(&self.entries, &mut best, i);
                    proof {
                        assert forall|k: int| 0 <= k < best@.len() implies input@.is_prefix_of(
                            s[#[trigger] best@[k] as int].0,
                        ) by {
                            if best@[k] != i {
                                let a = choose|a: int|
                                    0 <= a < before.len() && before[a] == best@[k];
                                assert(input@.is_prefix_of(s[before[a] as int].0));
                            }
                        }
                    }
                }
                i = i + 1;
            }
        }
        proof {
            assert forall|j: int|
                0 <= j < s.len() && input@.is_prefix_of((#[trigger] s[j]).0) implies kept_or_beaten(
                s,
                best@,
                j,
            ) by {
                assert(leading(s[j].0) == key);
                if j >= i {
                    lemma_sorted_leading(s, start as int, i as int);
                    lemma_sorted_leading(s, i as int, j);
                }
            }
        }
        best
    }
}

/// Makes the predictor for words and their scores, given the sorted order of
/// the words.
fn assemble(words: &Vec<String>, scores: &Vec<u32>, order: &Vec<usize>) -> (r: SimpleWordPredictor)
    requires
        words@.len() == scores@.len(),
        nonempty_words(paired(word_seq(words@), scores@)),
        is_sorted_order(word_seq(words@), order@),
    ensures
        r.wf(),
        r@ == gather(paired(word_seq(words@), scores@), order@),
{
    let ghost ws = word_seq(words@);
    let ghost given = paired(ws, scores@);
    let mut entries: Vec<PredictionEntry> = Vec::with_capacity(order.len());
    for k in 0..order.len()
        invariant
            ws == word_seq(words@),
            words@.len() == scores@.len(),
            is_sorted_order(ws, order@),
            entries@.len() == k,
            forall|a: int|
                0 <= a < k ==> (#[trigger] entries@[a]).word@ == ws[order@[a] as int]
                    && entries@[a].score == scores@[order@[a] as int],
    {
        let id: usize = order[k];
        entries.push(PredictionEntry { word: words[id].clone(), score: scores[id] });
    }
    let ghost recs = entry_records(entries@);
    proof {
        assert(recs =~= gather(given, order@));
        assert(record_words(given) =~= ws);
        assert(is_sorted_form(given, recs));
        lemma_sorted_form(given, recs);
    }
    let ixs = generate_ixs(&entries);
    SimpleWordPredictor { entries, ixs }
}

/// Builds the index of first letters for entries in lexical order: in one
/// pass, whenever the first letter changes, the position is recorded as the
/// place where that letter begins.
fn generate_ixs(entries: &Vec<PredictionEntry>) -> (ixs: HashMap<u32, usize>)
    requires
        nonempty_words(entry_records(entries@)),
        sorted_records(entry_records(entries@)),
    ensures
        is_bucket_index(entry_records(entries@), ixs@),
{
    let ghost s = entry_records(entries@);
    let mut ixs: HashMap<u32, usize> = HashMap::new();
    let mut last_c: Option<u32> = None;
    for ix in 0..entries.len()
        invariant
            s == entry_records(entries@),
            nonempty_words(s),
            sorted_records(s),
            is_bucket_index(s.take(ix as int), ixs@),
            ix == 0 ==> last_c is None,
            ix > 0 ==> last_c == Some(leading(s[ix - 1].0)),
    {
        let ghost before = ixs@;
        let ghost seen = s.take(ix as int);
        let ghost next = s.take(ix + 1);
        assert(s[ix as int].0.len() > 0);
        let c: u32 = match first_char(entries[ix].word.as_str()) {
            Some(ch) => ch as u32,
            None => 0,
        };
        assert(c == leading(s[ix as int].0));
        let fresh: bool = match last_c {
            None => true,
            Some(l) => l != c,
        };
        if fresh {
            ixs.insert(c, ix);
            last_c = Some(c);
            proof {
                assert forall|j: int| 0 <= j < ix implies leading(s[j].0) != c by {
                    lemma_sorted_leading(s, j, ix - 1);
                    lemma_sorted_leading(s, ix - 1, ix as int);
                }
                assert(!before.contains_key(c)) by {
                    if before.contains_key(c) {
                        assert(leading(seen[before[c] as int].0) == c);
                    }
                }
                assert forall|i: int| 0 <= i < next.len() implies ixs@.contains_key(
                    leading((#[trigger] next[i]).0),
                ) by {
                    if i < ix {
                        assert(before.contains_key(leading(seen[i].0)));
                    }
                }
                assert forall|d: u32| #[trigger] ixs@.contains_key(d) implies ixs@[d] < next.len()
                    && leading(next[ixs@[d] as int].0) == d by {
                    if d != c {
                        assert(before.contains_key(d));
                        assert(seen[before[d] as int] == next[before[d] as int]);
                    }
                }
                assert forall|d: u32, j: int|
                    #![trigger ixs@.contains_key(d), next[j]]
                    ixs@.contains_key(d) && 0 <= j < ixs@[d] implies leading(next[j].0) != d by {
                    if d != c {
                        assert(before.contains_key(d));
                        assert(seen[j] == next[j]);
                    }
                }
            }
        } else {
            proof {
                assert forall|i: int| 0 <= i < next.len() implies ixs@.contains_key(
                    leading((#[trigger] next[i]).0),
                ) by {
                    if i < ix {
                        assert(before.contains_key(leading(seen[i].0)));
                    } else {
                        assert(before.contains_key(leading(seen[ix - 1].0)));
                    }
                }
                assert forall|d: u32| #[trigger] ixs@.contains_key(d) implies ixs@[d] < next.len()
                    && leading(next[ixs@[d] as int].0) == d by {
                    assert(seen[before[d] as int] == next[before[d] as int]);
                }
                assert forall|d: u32, j: int|
                    #![trigger ixs@.contains_key(d), next[j]]
                    ixs@.contains_key(d) && 0 <= j < ixs@[d] implies leading(next[j].0) != d by {
                    assert(seen[j] == next[j]);
                }
            }
        }
    }
    assert(s.take(entries@.len() as int) =~= s);
    ixs
}

/// Counts one word: a new word enters with a count of one, a known word has
/// its count raised by one, and the empty string changes nothing.
fn train_single_word(model: &mut SimpleWordTrainer, word: &str)
    requires
        old(model).wf(),
        old(model).count(word@) < u32::MAX,
    ensures
        final(model).wf(),
        word@.len() == 0 ==> final(model)@ == old(model)@,
        word@.len() > 0 ==> final(model)@ == old(model)@.insert(
            word@,
            (old(model).count(word@) + 1) as u32,
        ),
{
    if word.is_empty() {
        return ;
    }
    proof {
        model.lexicon.lemma_distinct();
    }
    match model.lexicon.find(word) {
        Some(i) => {
            proof {
                lemma_index_of_distinct(model.lexicon@, i as int);
            }
            let c: u32 = model.counts[i];
            model.counts.set(i, c + 1);
            proof {
                assert forall|w: Seq<char>| model.lexicon@.contains(w) implies #[trigger] model@[w]
                    == old(model)@.insert(word@, (c + 1) as u32)[w] by {
                    let k = model.lexicon@.index_of(w);
                    if w != word@ {
                        assert(k != i);
                    }
                }
                assert(model@ =~= old(model)@.insert(word@, (c + 1) as u32));
                assert forall|k: int|
                    #![trigger model.counts@[k]]
                    #![trigger model.lexicon@[k]]
                    0 <= k < model.counts@.len() implies model.lexicon@[k].len() > 0
                    && model.counts@[k] >= 1 by {
                    assert(old(model).counts@[k] >= 1);
                }
            }
        },
        None => {
            let ghost before = model.lexicon@;
            let id = model.lexicon.push(word.to_owned());
            model.counts.push(1);
            proof {
                model.lexicon.lemma_distinct();
                assert(model.lexicon@[id as int] == word@);
                lemma_index_of_distinct(model.lexicon@, id as int);
                assert forall|w: Seq<char>| #[trigger]
                    model.lexicon@.contains(w) == (before.contains(w) || w == word@) by {
                    if before.contains(w) {
                        let k = before.index_of(w);
                        assert(model.lexicon@[k] == w);
                    }
                    if model.lexicon@.contains(w) && w != word@ {
                        let k = model.lexicon@.index_of(w);
                        assert(before[k] == w);
                    }
                }
                assert forall|w: Seq<char>| before.contains(w) implies #[trigger] model@[w] == old(
                    model,
                )@[w] by {
                    let k = before.index_of(w);
                    assert(model.lexicon@[k] == w);
                    lemma_index_of_distinct(model.lexicon@, k);
                }
                assert(model@ =~= old(model)@.insert(word@, 1u32));
                assert forall|k: int|
                    #![trigger model.counts@[k]]
                    #![trigger model.lexicon@[k]]
                    0 <= k < model.counts@.len() implies model.lexicon@[k].len() > 0
                    && model.counts@[k] >= 1 by {
                    if k < id {
                        assert(old(model).counts@[k] >= 1);
                        assert(model.lexicon@[k] == before[k]);
                    }
                }
            }
        },
    }
}

/// Counts every word of `input` in turn.
fn count_words(model: &mut SimpleWordTrainer, input: &Vec<&str>)
    requires
        old(model).wf(),
        forall|w: Seq<char>| old(model).count(w) + occurrences(token_seq(input@), w) <= u32::MAX,
    ensures
        final(model).wf(),
        valid_counts(final(model)@),
        forall|w: Seq<char>| #[trigger]
            final(model).count(w) == old(model).count(w) + occurrences(token_seq(input@), w),
{
    let ghost tokens = token_seq(input@);
    assert(tokens.take(0) =~= Seq::<Seq<char>>::empty());
    for i in 0..input.len()
        invariant
            model.wf(),
            tokens == token_seq(input@),
            forall|w: Seq<char>| old(model).count(w) + occurrences(tokens, w) <= u32::MAX,
            forall|w: Seq<char>| #[trigger]
                model.count(w) == old(model).count(w) + occurrences(tokens.take(i as int), w),
    {
        let word: &str = input[i];
        let ghost seen = tokens.take(i as int);
        proof {
            assert(tokens.take(i + 1).drop_last() =~= seen);
            assert(tokens.take(i + 1).last() == word@);
            lemma_occurrences_take(tokens, i + 1, word@);
            assert(model.count(word@) == old(model).count(word@) + occurrences(seen, word@));
        }
        let ghost prev = *model;
        train_single_word(model, word);
        proof {
            assert forall|w: Seq<char>| #[trigger]
                model.count(w) == old(model).count(w) + occurrences(tokens.take(i + 1), w) by {
                assert(prev.count(w) == old(model).count(w) + occurrences(seen, w));
            }
        }
    }
    assert(tokens.take(input@.len() as int) =~= tokens);
    proof {
        model.lemma_valid();
    }
}

} // verus!
