//! An insertion-ordered set of words. Every word gets the next free number
//! when it is first seen, so that data about words can be kept in vectors.

use vstd::hash_map::StringHashMap;
use vstd::prelude::*;

use crate::text::word_seq;

verus! {

/// A set of distinct words, numbered from zero in the order of their arrival.
pub struct Lexicon {
    /// The number of each word.
    slots: StringHashMap<usize>,
    /// The words by number.
    words: Vec<String>,
}

impl View for Lexicon {
    type V = Seq<Seq<char>>;

    /// The words in the order of their numbers.
    closed spec fn view(&self) -> Seq<Seq<char>> {
        word_seq(self.words@)
    }
}

impl Lexicon {
    /// The table of numbers and the list of words describe the same numbering.
    pub closed spec fn wf(&self) -> bool {
        &&& forall|i: int|
            0 <= i < self.words@.len() ==> self.slots@.contains_key(#[trigger] self.words@[i]@)
                && self.slots@[self.words@[i]@] == i
        &&& forall|w: Seq<char>| #[trigger]
            self.slots@.contains_key(w) ==> self.slots@[w] < self.words@.len()
                && self.words@[self.slots@[w] as int]@ == w
    }

    /// No word is held twice.
    pub proof fn lemma_distinct(&self)
        requires
            self.wf(),
        ensures
            self@.no_duplicates(),
    {
        assert forall|i: int, j: int|
            0 <= i < self@.len() && 0 <= j < self@.len() && i != j implies self@[i] != self@[j] by {
            assert(self.slots@[self.words@[i]@] == i);
            assert(self.slots@[self.words@[j]@] == j);
        }
    }

    /// A lexicon without words.
    pub fn new() -> (r: Self)
        ensures
            r.wf(),
            r@ == Seq::<Seq<char>>::empty(),
    {
        let r = Lexicon { slots: StringHashMap::new(), words: Vec::new() };
        assert(r@ =~= Seq::<Seq<char>>::empty());
        r
    }

    /// The number of words held.
    pub fn len(&self) -> (n: usize)
        ensures
            n == self@.len(),
    {
        self.words.len()
    }

    /// The number of `word`, if it is held.
    pub fn find(&self, word: &str) -> (r: Option<usize>)
        requires
            self.wf(),
        ensures
            match r {
                Some(i) => i < self@.len() && self@[i as int] == word@,
                None => !self@.contains(word@),
            },
    {
        match self.slots.get(word) {
            Some(i) => Some(*i),
            None => {
                assert forall|i: int| 0 <= i < self@.len() implies self@[i] != word@ by {
                    assert(self.slots@.contains_key(self.words@[i]@));
                }
                None
            },
        }
    }

    /// Adds a word that is not yet held and returns its number.
    pub fn push(&mut self, word: String) -> (id: usize)
        requires
            old(self).wf(),
            !old(self)@.contains(word@),
        ensures
            final(self).wf(),
            final(self)@ == old(self)@.push(word@),
            id == old(self)@.len(),
    {
        let id: usize = self.words.len();
        let ghost w = word@;
        proof {
            if self.slots@.contains_key(w) {
                let k = self.slots@[w] as int;
                assert(self@[k] == w);
            }
        }
        let key = word.clone();
        self.slots.insert(key, id);
        self.words.push(word);
        proof {
            assert(self@ =~= old(self)@.push(w));
            assert forall|i: int| 0 <= i < self.words@.len() implies self.slots@.contains_key(
                #[trigger] self.words@[i]@,
            ) && self.slots@[self.words@[i]@] == i by {
                if i < id {
                    assert(old(self).slots@.contains_key(old(self).words@[i]@));
                    assert(old(self)@[i] == old(self).words@[i]@);
                }
            }
            assert forall|v: Seq<char>| #[trigger] self.slots@.contains_key(v) implies self.slots@[v]
                < self.words@.len() && self.words@[self.slots@[v] as int]@ == v by {
                if v != w {
                    assert(old(self).slots@.contains_key(v));
                }
            }
        }
        id
    }

    /// The word with number `i`.
    pub fn word(&self, i: usize) -> (r: &String)
        requires
            i < self@.len(),
        ensures
            r@ == self@[i as int],
    {
        &self.words[i]
    }

    /// All words, by number.
    pub fn words(&self) -> (r: &Vec<String>)
        ensures
            word_seq(r@) == self@,
    {
        &self.words
    }
}

} // verus!
