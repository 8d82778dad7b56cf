//! The words of a table's slots, and who may do what to them.
//!
//! A word can be loaded by whoever has the slots. It can be changed in one way only, by a claim,
//! and only through slots of the kind [`Claiming`]. What is written for slots of any kind at all
//! therefore cannot claim, whatever it does: there is nothing it could call. And a claim has to
//! be what a search for the key has come to, by the answers that it really got.

use core::sync::atomic::AtomicUsize;

use vstd::arithmetic::power2::pow2;
use vstd::prelude::*;

use crate::slots::{self, Answer, Probe, Step};
use crate::word::{Claiming, Word};

verus! {

/// Which kinds of slots tables are built with. There is the one kind, and whoever builds a table
/// has that one; but what builds it is written for any kind, and so leaves the slots as they were
/// made.
pub trait Builds<A> {

}

impl Builds<Claiming> for Claiming {

}

/// The words of slots, with access of the kind `A`.
#[derive(Debug)]
pub struct Cells<A> {
    words: Vec<Word<A>>,
}

impl<A> Cells<A> {
    /// How many slots there are.
    pub closed spec fn count(self) -> nat {
        self.words@.len()
    }

    /// The word of the slot with this number.
    pub closed spec fn word(self, at: usize) -> Word<A> {
        self.words@[at as int]
    }

    /// The slot with this number.
    pub open spec fn slot(self, at: usize) -> AtomicUsize {
        self.word(at).shared()
    }

    /// Whether a load of this slot may give this word.
    pub open spec fn loads(self, at: usize, word: usize) -> bool {
        self.word(at).loads(word)
    }

    /// Whether a claim of this slot for this key may come to this.
    pub open spec fn claims(self, at: usize, key: usize, outcome: Result<usize, usize>) -> bool {
        self.word(at).claims(key, outcome)
    }

    /// Whether this slot was made with nothing in it.
    pub open spec fn made_empty(self, at: usize) -> bool {
        self.word(at).made_empty()
    }

    /// Whether each of these answers came from the slot that the search was at: a word from a
    /// load of it, an outcome from a claim of it.
    pub open spec fn answered(self, begin: Probe, answers: Seq<Answer>) -> bool
        decreases answers.len(),
    {
        answers.len() == 0 || {
            &&& self.answered(begin, answers.drop_last())
            &&& match (slots::upsert_run(begin, answers.drop_last()).1, answers.last()) {
                (Step::Look(at), Answer::Word(word)) => self.loads(at, word),
                (Step::Claim(at), Answer::Claim(outcome)) => self.claims(at, begin.key, outcome),
                _ => false,
            }
        }
    }

    /// Whether a search for this key has come, by answers that it got, to where it claims this
    /// slot: it saw the slots before it on the key's path taken by other keys, and this one empty.
    pub open spec fn may_claim(self, at: usize, key: usize) -> bool {
        exists|bits: nat, answers: Seq<Answer>|
            pow2(bits) == self.count() && (#[trigger] slots::upsert_run(
                Probe::begin(key, bits),
                answers,
            )).1 == Step::Claim(at) && self.answered(Probe::begin(key, bits), answers)
    }

    /// So many slots, with nothing in them.
    pub(crate) fn empty(count: usize) -> (cells: Self)
        ensures
            cells.count() == count,
            forall|at: usize| at < count ==> #[trigger] cells.made_empty(at),
    {
        let mut words: Vec<Word<A>> = Vec::with_capacity(count);
        let mut built: usize = 0;
        while built < count
            invariant
                built <= count,
                words@.len() == built,
                forall|i: int| 0 <= i < built ==> (#[trigger] words@[i]).made_empty(),
            decreases count - built,
        {
            words.push(Word::empty());
            built = built + 1;
        }
        Cells { words }
    }

    /// How many slots there are.
    pub(crate) fn len(&self) -> (count: usize)
        ensures
            count == self.count(),
    {
        self.words.len()
    }

    /// The slot with this number.
    pub(crate) fn word_at(&self, at: usize) -> (word: &Word<A>)
        requires
            at < self.count(),
        ensures
            *word == self.word(at),
    {
        &self.words[at]
    }
}

} // verus!
