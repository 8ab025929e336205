//! Prediction of a word from the word before it: a trainer that counts pairs
//! of neighbouring words, and the predictor that is made from it.

use vstd::prelude::*;

use crate::codec::{pair_lines, pairs_text, push_pair};
use crate::error::ModelError;
use crate::lexicon::Lexicon;
use crate::pairs::{
    adjacent, is_pairs_form, last_of, learns, lemma_adjacent_prefix, lemma_stream_concat,
    pair_count, stream, valid_pairs, words_only, BigramCounts,
};
use crate::prediction::is_prediction;
use crate::predictionentry::PredictionEntry;
use crate::ranking::{holds, is_sorted_order, lemma_ranked_distinct, ranks_before, sorted_order};
use crate::records::{
    entry_records, is_table_form, record_seq, strictly_sorted, valid_records, Record,
};
use crate::simplemodel::{SimpleWordPredictor, SimpleWordTrainer};
use crate::text::{
    as_tokens, lemma_index_of_distinct, lex_lt, split_spaces, split_words, token_seq,
};

verus! {

/// Bigram prediction trainer.
pub struct BigramTrainer {
    /// The words that have been followed by another word.
    lexicon: Lexicon,
    /// For each of them, by its number, the trainer of the words that
    /// followed it.
    trainers: Vec<SimpleWordTrainer>,
    /// The last word seen, behind which the next word is counted.
    prev_word: Option<String>,
}

impl View for BigramTrainer {
    type V = BigramCounts;

    /// The count of every pair seen so far, and the word carried over.
    closed spec fn view(&self) -> BigramCounts {
        BigramCounts {
            pairs: Map::new(
                |w: Seq<char>| self.lexicon@.contains(w),
                |w: Seq<char>| self.trainers@[self.lexicon@.index_of(w)]@,
            ),
            pending: match self.prev_word {
                Some(w) => Some(w@),
                None => None,
            },
        }
    }
}

impl BigramTrainer {
    /// Every first word is non-empty and has a trainer that has seen a word,
    /// and the word carried over is non-empty.
    pub closed spec fn wf(&self) -> bool {
        &&& self.lexicon.wf()
        &&& self.trainers@.len() == self.lexicon@.len()
        &&& forall|i: int|
            #![trigger self.trainers@[i]]
            #![trigger self.lexicon@[i]]
            0 <= i < self.trainers@.len() ==> self.lexicon@[i].len() > 0 && self.trainers@[i].wf()
                && exists|b: Seq<char>| self.trainers@[i]@.contains_key(b)
        &&& match self.prev_word {
            Some(w) => w@.len() > 0,
            None => true,
        }
    }

    /// How often the trainer has seen `b` directly behind `a`.
    pub open spec fn count(&self, a: Seq<char>, b: Seq<char>) -> nat {
        pair_count(self@.pairs, a, b)
    }

    /// The counts of a trainer form a valid table, and the word carried over
    /// is not empty.
    pub proof fn lemma_valid(&self)
        requires
            self.wf(),
        ensures
            valid_pairs(self@.pairs),
            self@.pending is Some ==> self@.pending->0.len() > 0,
    {
        self.lexicon.lemma_distinct();
        assert(self@.pairs.dom() =~= self.lexicon@.to_set());
        vstd::seq_lib::seq_to_set_is_finite(self.lexicon@);
        assert forall|a: Seq<char>| #[trigger] self@.pairs.contains_key(a) implies a.len() > 0
            && crate::tally::valid_counts(self@.pairs[a]) && exists|b: Seq<char>|
            self@.pairs[a].contains_key(b) by {
            let i = self.lexicon@.index_of(a);
            assert(self.trainers@[i].wf());
            self.trainers@[i].lemma_valid();
        }
    }

    /// Creates a new, empty BigramTrainer.
    pub fn new() -> (r: BigramTrainer)
        ensures
            r.wf(),
            r@.pairs == Map::<Seq<char>, Map<Seq<char>, u32>>::empty(),
            r@.pending is None,
    {
        let r = BigramTrainer { lexicon: Lexicon::new(), trainers: Vec::new(), prev_word: None };
        assert(r@.pairs =~= Map::<Seq<char>, Map<Seq<char>, u32>>::empty());
        r
    }

    /// Train the model on a vector of individual words. Each word is counted
    /// behind the word before it; the first word is counted behind the last
    /// word of the call before, and the very first word of a training behind
    /// none. Empty strings are not words and are passed over.
    pub fn train_vec(&mut self, input: Vec<&str>)
        requires
            old(self).wf(),
            forall|a: Seq<char>, b: Seq<char>|
                old(self).count(a, b) + adjacent(
                    stream(old(self)@.pending, token_seq(input@)),
                    a,
                    b,
                ) <= u32::MAX,
        ensures
            final(self).wf(),
            valid_pairs(final(self)@.pairs),
            learns(old(self)@, token_seq(input@), final(self)@),
    {
        count_words(self, &input);
    }

    /// Train the model on a string that is split at its spaces into words.
    pub fn train_str(&mut self, input: &str)
        requires
            old(self).wf(),
            forall|a: Seq<char>, b: Seq<char>|
                old(self).count(a, b) + adjacent(
                    stream(old(self)@.pending, split_spaces(input@)),
                    a,
                    b,
                ) <= u32::MAX,
        ensures
            final(self).wf(),
            valid_pairs(final(self)@.pairs),
            learns(old(self)@, split_spaces(input@), final(self)@),
    {
        let pieces = split_words(input);
        let tokens = as_tokens(&pieces);
        count_words(self, &tokens);
    }

    /// Perform the calculations needed to predict words: every inner trainer
    /// is turned into its predictor. The word carried over is forgotten.
    pub fn finalize(self) -> (r: BigramPredictor)
        requires
            self.wf(),
        ensures
            r.wf(),
            is_pairs_form(r@, self@.pairs),
    {
        let ghost given = self.trainers@;
        let BigramTrainer { lexicon, trainers, prev_word: _ } = self;
        let mut predictors: Vec<SimpleWordPredictor> = Vec::with_capacity(trainers.len());
        for trainer in it: trainers
            invariant
                it.seq() == given,
                forall|i: int| 0 <= i < given.len() ==> (#[trigger] given[i]).wf(),
                predictors@.len() == it.index(),
                forall|i: int|
                    0 <= i < predictors@.len() ==> (#[trigger] predictors@[i]).wf()
                        && is_table_form(predictors@[i]@, given[i]@) && valid_records(
                        predictors@[i]@,
                    ),
        {
            assert(trainer == given[it.index() as int]);
            predictors.push(trainer.finalize());
        }
        let order = sorted_order(lexicon.words());
        let r = BigramPredictor { lexicon, predictors, order };
        proof {
            assert(r@.dom() =~= self@.pairs.dom());
            assert forall|a: Seq<char>| #[trigger] r@.contains_key(a) implies is_table_form(
                r@[a],
                self@.pairs[a],
            ) by {
                let i = r.lexicon@.index_of(a);
                assert(is_table_form(r.predictors@[i]@, given[i]@));
            }
        }
        r
    }

    /// The last word of the training so far, if there has been one.
    pub fn prev_word(&self) -> (r: Option<&String>)
        ensures
            match r {
                Some(w) => self@.pending == Some(w@),
                None => self@.pending is None,
            },
    {
        self.prev_word.as_ref()
    }

    /// The trainer of the words that followed `word1`, if any did.
    pub fn get_trainer(&self, word1: &str) -> (r: Option<&SimpleWordTrainer>)
        requires
            self.wf(),
        ensures
            match r {
                Some(t) => t.wf() && self@.pairs.contains_key(word1@) && t@ == self@.pairs[word1@],
                None => !self@.pairs.contains_key(word1@),
            },
    {
        match self.lexicon.find(word1) {
            Some(i) => {
                proof {
                    self.lexicon.lemma_distinct();
                    lemma_index_of_distinct(self.lexicon@, i as int);
                }
                Some(&self.trainers[i])
            },
            None => None,
        }
    }
}

/// Bigram prediction engine.
pub struct BigramPredictor {
    /// The words that stand first in a pair.
    lexicon: Lexicon,
    /// For each of them, by its number, the predictor of the words that
    /// followed it.
    predictors: Vec<SimpleWordPredictor>,
    /// The numbers of the first words in lexical order of the words.
    order: Vec<usize>,
}

impl View for BigramPredictor {
    type V = Map<Seq<char>, Seq<Record>>;

    /// For each first word the records of the words that followed it.
    closed spec fn view(&self) -> Map<Seq<char>, Seq<Record>> {
        Map::new(
            |w: Seq<char>| self.lexicon@.contains(w),
            |w: Seq<char>| self.predictors@[self.lexicon@.index_of(w)]@,
        )
    }
}

impl BigramPredictor {
    /// Every first word has a well-formed predictor that holds the records
    /// of a table of counts, and the order of the first words is their
    /// lexical order.
    pub closed spec fn wf(&self) -> bool {
        &&& self.lexicon.wf()
        &&& self.predictors@.len() == self.lexicon@.len()
        &&& forall|i: int|
            0 <= i < self.predictors@.len() ==> (#[trigger] self.predictors@[i]).wf()
                && strictly_sorted(self.predictors@[i]@) && valid_records(self.predictors@[i]@)
        &&& is_sorted_order(self.lexicon@, self.order@)
    }

    /// The first words in ascending lexical order, each with the records of
    /// its predictor.
    pub closed spec fn record_form(&self) -> Seq<(Seq<char>, Seq<Record>)> {
        Seq::new(
            self.order@.len(),
            |k: int|
                (self.lexicon@[self.order@[k] as int], self.predictors@[self.order@[k] as int]@),
        )
    }

    /// The record form of a predictor lists its first words in strictly
    /// ascending order, each of them once and with the records that the
    /// predictor holds for it, which are the sorted, valid records of a table.
    pub proof fn lemma_record_form(&self)
        requires
            self.wf(),
        ensures
            forall|k: int, l: int|
                0 <= k < l < self.record_form().len() ==> lex_lt(
                    (#[trigger] self.record_form()[k]).0,
                    (#[trigger] self.record_form()[l]).0,
                ),
            forall|k: int|
                0 <= k < self.record_form().len() ==> {
                    let group = #[trigger] self.record_form()[k];
                    &&& self@.contains_key(group.0)
                    &&& group.1 == self@[group.0]
                    &&& strictly_sorted(group.1)
                    &&& valid_records(group.1)
                },
            forall|w: Seq<char>|
                self@.contains_key(w) ==> exists|k: int|
                    0 <= k < self.record_form().len() && (#[trigger] self.record_form()[k]).0 == w,
    {
        let groups = self.record_form();
        let words = self.lexicon@;
        self.lexicon.lemma_distinct();
        lemma_ranked_distinct(words, self.order@);
        assert forall|k: int, l: int| 0 <= k < l < groups.len() implies lex_lt(
            (#[trigger] groups[k]).0,
            (#[trigger] groups[l]).0,
        ) by {
            assert(ranks_before(words, self.order@[k] as int, self.order@[l] as int));
            assert(self.order@[k] != self.order@[l]);
        }
        assert forall|k: int| 0 <= k < groups.len() implies {
            let group = #[trigger] groups[k];
            &&& self@.contains_key(group.0)
            &&& group.1 == self@[group.0]
            &&& strictly_sorted(group.1)
            &&& valid_records(group.1)
        } by {
            let id = self.order@[k] as int;
            lemma_index_of_distinct(words, id);
            assert(self.predictors@[id].wf());
        }
        assert forall|w: Seq<char>| self@.contains_key(w) implies exists|k: int|
            0 <= k < groups.len() && (#[trigger] groups[k]).0 == w by {
            let id = words.index_of(w);
            assert(holds(self.order@, id));
            let k = choose|k: int| 0 <= k < self.order@.len() && #[trigger] self.order@[k] == id;
            assert(groups[k].0 == w);
        }
    }

    /// The contents of the file that saves this predictor: one line for each
    /// pair of words, in ascending lexical order of the first word and then of
    /// the second.
    pub fn to_file(&self) -> (text: String)
        requires
            self.wf(),
        ensures
            text@ == pairs_text(self.record_form()),
    {
        let ghost groups = self.record_form();
        let mut text = String::new();
        for k in 0..self.order.len()
            invariant
                self.wf(),
                groups == self.record_form(),
                text@ == pairs_text(groups.take(k as int)),
        {
            let id: usize = self.order[k];
            let first: &String = self.lexicon.word(id);
            let inner = self.predictors[id].to_record_form();
            let ghost recs = record_seq(inner@);
            let ghost before = text@;
            for i in 0..inner.len()
                invariant
                    recs == record_seq(inner@),
                    text@ == before + pair_lines(first@, recs.take(i as int)),
            {
                push_pair(&mut text, first.as_str(), inner[i].0.as_str(), inner[i].1);
                proof {
                    assert(recs.take(i + 1).drop_last() =~= recs.take(i as int));
                    assert(recs.take(i + 1).last() == recs[i as int]);
                    assert(text@ =~= before + pair_lines(first@, recs.take(i + 1)));
                }
            }
            proof {
                assert(recs.take(inner@.len() as int) =~= recs);
                assert(groups.take(k + 1).drop_last() =~= groups.take(k as int));
                assert(groups.take(k + 1).last() == groups[k as int]);
            }
        }
        assert(groups.take(self.order@.len() as int) =~= groups);
        text
    }

    /// Given a word and the first letters of the word behind it, return the
    /// best-scored words that followed the first word in training and begin
    /// with those letters. A first word that was never followed by another
    /// gives an empty prediction.
    pub fn predict(&self, word1: &str, letters: &str) -> (r: Result<
        Vec<PredictionEntry>,
        ModelError,
    >)
        requires
            self.wf(),
        ensures
            !self@.contains_key(word1@) ==> r is Ok && r->Ok_0@.len() == 0,
            self@.contains_key(word1@) && letters@.len() == 0 ==> r is Err && r->Err_0
                == ModelError::InvalidInput,
            self@.contains_key(word1@) && letters@.len() > 0 ==> r is Ok && is_prediction(
                self@[word1@],
                letters@,
                entry_records(r->Ok_0@),
            ),
    {
        let simplemodel = self.get_simplemodel(word1);
        match simplemodel {
            Some(predictor) => predictor.predict(letters),
            None => Ok(Vec::new()),
        }
    }

    /// The predictor of the words that followed `word1`, if any did.
    pub fn get_simplemodel(&self, word1: &str) -> (r: Option<&SimpleWordPredictor>)
        requires
            self.wf(),
        ensures
            match r {
                Some(p) => p.wf() && self@.contains_key(word1@) && p@ == self@[word1@],
                None => !self@.contains_key(word1@),
            },
    {
        match self.lexicon.find(word1) {
            Some(i) => {
                proof {
                    self.lexicon.lemma_distinct();
                    lemma_index_of_distinct(self.lexicon@, i as int);
                }
                Some(&self.predictors[i])
            },
            None => None,
        }
    }
}

/// Takes in one token. The empty string changes nothing. A word is counted
/// behind the word carried over, if there is one, and is then itself carried
/// over.
fn observe(trainer: &mut BigramTrainer, word: &str)
    requires
        old(trainer).wf(),
        word@.len() > 0 && old(trainer)@.pending is Some ==> old(trainer).count(
            old(trainer)@.pending->0,
            word@,
        ) < u32::MAX,
    ensures
        final(trainer).wf(),
        word@.len() == 0 ==> final(trainer)@ == old(trainer)@,
        word@.len() > 0 ==> final(trainer)@.pending == Some(word@),
        word@.len() > 0 && old(trainer)@.pending is None ==> final(trainer)@.pairs == old(
            trainer,
        )@.pairs,
        word@.len() > 0 && old(trainer)@.pending is Some ==> forall|a: Seq<char>, b: Seq<char>| #[trigger]
            final(trainer).count(a, b) == old(trainer).count(a, b) + if a == old(
                trainer,
            )@.pending->0 && b == word@ {
                1nat
            } else {
                0nat
            },
{
    if word.is_empty() {
        return ;
    }
    let ghost before = trainer.lexicon@;
    let ghost inner_before = trainer.trainers@;
    let prev = trainer.prev_word.take();
    proof {
        trainer.lexicon.lemma_distinct();
    }
    match prev {
        None => {
            assert(trainer@.pairs =~= old(trainer)@.pairs);
        },
        Some(last_word) => {
            let ghost p = last_word@;
            match trainer.lexicon.find(last_word.as_str()) {
                Some(i) => {
                    proof {
                        lemma_index_of_distinct(before, i as int);
                        assert(inner_before[i as int].wf());
                    }
                    trainer.trainers[i].train_word(word);
                    proof {
                        let now = trainer.trainers@[i as int]@;
                        assert(now.contains_key(word@));
                        assert forall|k: int|
                            #![trigger trainer.trainers@[k]]
                            #![trigger trainer.lexicon@[k]]
                            0 <= k < trainer.trainers@.len() implies trainer.lexicon@[k].len() > 0
                            && trainer.trainers@[k].wf() && exists|b: Seq<char>|
                            trainer.trainers@[k]@.contains_key(b) by {
                            if k != i {
                                assert(trainer.trainers@[k] == inner_before[k]);
                                assert(inner_before[k].wf());
                            }
                        }
                        assert forall|a: Seq<char>, b: Seq<char>| #[trigger]
                            trainer.count(a, b) == old(trainer).count(a, b) + if a == p && b
                                == word@ {
                                1nat
                            } else {
                                0nat
                            } by {
                            if before.contains(a) {
                                let k = before.index_of(a);
                                if a != p {
                                    assert(k != i);
                                    assert(trainer.trainers@[k] == inner_before[k]);
                                }
                            }
                        }
                    }
                },
                None => {
                    let mut inner = SimpleWordTrainer::new();
                    inner.train_word(word);
                    let id = trainer.lexicon.push(last_word);
                    trainer.trainers.push(inner);
                    proof {
                        trainer.lexicon.lemma_distinct();
                        assert(trainer.lexicon@[id as int] == p);
                        lemma_index_of_distinct(trainer.lexicon@, id as int);
                        assert(inner@.contains_key(word@));
                        assert forall|k: int|
                            #![trigger trainer.trainers@[k]]
                            #![trigger trainer.lexicon@[k]]
                            0 <= k < trainer.trainers@.len() implies trainer.lexicon@[k].len() > 0
                            && trainer.trainers@[k].wf() && exists|b: Seq<char>|
                            trainer.trainers@[k]@.contains_key(b) by {
                            if k < id {
                                assert(trainer.trainers@[k] == inner_before[k]);
                                assert(inner_before[k].wf());
                                assert(trainer.lexicon@[k] == before[k]);
                            }
                        }
                        assert forall|a: Seq<char>, b: Seq<char>| #[trigger]
                            trainer.count(a, b) == old(trainer).count(a, b) + if a == p && b
                                == word@ {
                                1nat
                            } else {
                                0nat
                            } by {
                            if before.contains(a) {
                                let k = before.index_of(a);
                                assert(trainer.lexicon@[k] == a);
                                lemma_index_of_distinct(trainer.lexicon@, k);
                                assert(trainer.trainers@[k] == inner_before[k]);
                            }
                            if trainer.lexicon@.contains(a) && a != p {
                                let k = trainer.lexicon@.index_of(a);
                                assert(before[k] == a);
                            }
                        }
                    }
                },
            }
        },
    }
    trainer.prev_word = Some(word.to_owned());
}

/// Takes in every token of `input` in turn.
fn count_words(trainer: &mut BigramTrainer, input: &Vec<&str>)
    requires
        old(trainer).wf(),
        forall|a: Seq<char>, b: Seq<char>|
            old(trainer).count(a, b) + adjacent(
                stream(old(trainer)@.pending, token_seq(input@)),
                a,
                b,
            ) <= u32::MAX,
    ensures
        final(trainer).wf(),
        valid_pairs(final(trainer)@.pairs),
        learns(old(trainer)@, token_seq(input@), final(trainer)@),
{
    let ghost tokens = token_seq(input@);
    let ghost carried = trainer@.pending;
    proof {
        assert(tokens.take(0) =~= Seq::<Seq<char>>::empty());
        assert(stream(carried, tokens.take(0)) =~= match carried {
            Some(p) => seq![p],
            None => Seq::<Seq<char>>::empty(),
        });
    }
    for i in 0..input.len()
        invariant
            trainer.wf(),
            tokens == token_seq(input@),
            carried == old(trainer)@.pending,
            forall|a: Seq<char>, b: Seq<char>|
                old(trainer).count(a, b) + adjacent(stream(carried, tokens), a, b) <= u32::MAX,
            forall|a: Seq<char>, b: Seq<char>| #[trigger]
                trainer.count(a, b) == old(trainer).count(a, b) + adjacent(
                    stream(carried, tokens.take(i as int)),
                    a,
                    b,
                ),
            trainer@.pending == last_of(stream(carried, tokens.take(i as int))),
    {
        let word: &str = input[i];
        let ghost seen = stream(carried, tokens.take(i as int));
        let ghost next = stream(carried, tokens.take(i + 1));
        let ghost prev = *trainer;
        proof {
            assert(tokens.take(i + 1).drop_last() =~= tokens.take(i as int));
            assert(tokens.take(i + 1).last() == word@);
            if word@.len() > 0 {
                assert(next =~= seen.push(word@));
                assert(next.drop_last() =~= seen);
                if prev@.pending is Some {
                    let p = prev@.pending->0;
                    assert(seen.len() > 0 && seen.last() == p);
                    assert(adjacent(next, p, word@) == adjacent(seen, p, word@) + 1);
                    assert(tokens =~= tokens.take(i + 1) + tokens.skip(i + 1));
                    lemma_stream_concat(carried, tokens.take(i + 1), tokens.skip(i + 1));
                    lemma_adjacent_prefix(next, words_only(tokens.skip(i + 1)), p, word@);
                    assert(old(trainer).count(p, word@) + adjacent(
                        stream(carried, tokens),
                        p,
                        word@,
                    ) <= u32::MAX);
                    assert(prev.count(p, word@) == old(trainer).count(p, word@) + adjacent(
                        seen,
                        p,
                        word@,
                    ));
                }
            } else {
                assert(next =~= seen);
            }
        }
        observe(trainer, word);
        proof {
            assert forall|a: Seq<char>, b: Seq<char>| #[trigger]
                trainer.count(a, b) == old(trainer).count(a, b) + adjacent(next, a, b) by {
                assert(prev.count(a, b) == old(trainer).count(a, b) + adjacent(seen, a, b));
            }
        }
    }
    assert(tokens.take(input@.len() as int) =~= tokens);
    assert forall|a: Seq<char>, b: Seq<char>| #[trigger]
        pair_count(trainer@.pairs, a, b) == pair_count(old(trainer)@.pairs, a, b) + adjacent(
            stream(carried, tokens),
            a,
            b,
        ) by {
        assert(trainer.count(a, b) == old(trainer).count(a, b) + adjacent(
            stream(carried, tokens),
            a,
            b,
        ));
    }
    proof {
        trainer.lemma_valid();
    }
}

} // verus!
