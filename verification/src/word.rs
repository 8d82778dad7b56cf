//! One word that many threads share.

use core::marker::PhantomData;
use core::sync::atomic::AtomicUsize;
use core::sync::atomic::Ordering;

use vstd::prelude::*;

use crate::cells::Cells;

verus! {

/// The kind of access that lets a word be claimed.
#[derive(Clone, Copy, Debug)]
pub struct Claiming;

/// A word, with access of the kind `A`. Any kind lets it be loaded; [`Claiming`] alone lets it be
/// claimed, and nothing else ever changes it.
#[derive(Debug)]
pub struct Word<A> {
    shared: AtomicUsize,
    access: PhantomData<A>,
}

impl<A> Word<A> {
    /// What is shared.
    pub closed spec fn shared(self) -> AtomicUsize {
        self.shared
    }

    /// Whether a load may give this word.
    pub open spec fn loads(self, word: usize) -> bool {
        call_ensures(AtomicUsize::load, (&self.shared(), Ordering::Acquire), word)
    }

    /// Whether a claim for this key may come to this.
    pub open spec fn claims(self, key: usize, outcome: Result<usize, usize>) -> bool {
        call_ensures(
            AtomicUsize::compare_exchange,
            (&self.shared(), 0usize, key, Ordering::AcqRel, Ordering::Acquire),
            outcome,
        )
    }

    /// Whether it was made with nothing in it.
    pub open spec fn made_empty(self) -> bool {
        call_ensures(AtomicUsize::new, (0usize,), self.shared())
    }

    /// A word with nothing in it.
    pub(crate) fn empty() -> (word: Self)
        ensures
            word.made_empty(),
    {
        Word { shared: AtomicUsize::new(0), access: PhantomData }
    }

    /// The word as it is now.
    pub(crate) fn load(&self) -> (word: usize)
        ensures
            self.loads(word),
    {
        self.shared.load(Ordering::Acquire)
    }
}

impl Word<Claiming> {
    /// Put a key there if nothing is, and say what was. The word is that of slot number `at` of
    /// these slots, and a search for the key in them has come to where it claims that slot.
    pub(crate) fn claim(
        &self,
        key: usize,
        Ghost(cells): Ghost<Cells<Claiming>>,
        Ghost(at): Ghost<usize>,
    ) -> (outcome: Result<usize, usize>)
        requires
            cells.word(at) == *self,
            cells.may_claim(at, key),
        ensures
            self.claims(key, outcome),
    {
        self.shared.compare_exchange(0, key, Ordering::AcqRel, Ordering::Acquire)
    }
}

} // verus!
