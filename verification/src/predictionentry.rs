//! The entries that the prediction engines return.

use std::cmp::Ordering;
use vstd::prelude::*;
use vstd::std_specs::cmp::{PartialEqSpecImpl, PartialOrdSpecImpl};

use crate::text::{lex_lt, word_less};

verus! {

/// A word with its score, as the prediction engines return it.
///
/// Entries are compared by their words alone: two entries for the same word
/// are equal whatever their scores, and an entry comes before another if its
/// word comes first in lexical order.
#[derive(Debug)]
pub struct PredictionEntry {
    pub word: String,
    pub score: u32,
}

impl Clone for PredictionEntry {
    fn clone(&self) -> (r: Self)
        ensures
            r == *self,
    {
        PredictionEntry { word: self.word.clone(), score: self.score }
    }
}

impl PartialEqSpecImpl for PredictionEntry {
    open spec fn obeys_eq_spec() -> bool {
        true
    }

    open spec fn eq_spec(&self, other: &Self) -> bool {
        self.word@ == other.word@
    }
}

impl PartialEq for PredictionEntry {
    fn eq(&self, other: &Self) -> (r: bool) {
        self.word == other.word
    }
}

impl Eq for PredictionEntry {

}

impl PartialOrdSpecImpl for PredictionEntry {
    open spec fn obeys_partial_cmp_spec() -> bool {
        true
    }

    open spec fn partial_cmp_spec(&self, other: &Self) -> Option<Ordering> {
        if lex_lt(self.word@, other.word@) {
            Some(Ordering::Less)
        } else if lex_lt(other.word@, self.word@) {
            Some(Ordering::Greater)
        } else {
            Some(Ordering::Equal)
        }
    }
}

impl PartialOrd for PredictionEntry {
    fn partial_cmp(&self, other: &Self) -> (r: Option<Ordering>) {
        if word_less(self.word.as_str(), other.word.as_str()) {
            Some(Ordering::Less)
        } else if word_less(other.word.as_str(), self.word.as_str()) {
            Some(Ordering::Greater)
        } else {
            Some(Ordering::Equal)
        }
    }
}

} // verus!
