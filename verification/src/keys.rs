//! Keys that a fixed-width index can hold.

use vstd::prelude::*;

verus! {

/// A key that is one 64-bit word: an index holds the word in its place.
pub trait WordKey: Sized {
    /// The word that stands for this key.
    spec fn word(self) -> u64;

    /// Two keys with the same word are the same key.
    proof fn words_tell_keys_apart(a: Self, b: Self)
        requires
            a.word() == b.word(),
        ensures
            a == b,
    ;

    /// The word that stands for this key.
    fn to_word(&self) -> (word: u64)
        ensures
            word == self.word(),
    ;
}

impl WordKey for u64 {
    open spec fn word(self) -> u64 {
        self
    }

    proof fn words_tell_keys_apart(a: Self, b: Self) {
    }

    fn to_word(&self) -> (word: u64) {
        *self
    }
}

impl WordKey for usize {
    open spec fn word(self) -> u64 {
        self as u64
    }

    proof fn words_tell_keys_apart(a: Self, b: Self) {
    }

    fn to_word(&self) -> (word: u64) {
        *self as u64
    }
}

impl WordKey for u32 {
    open spec fn word(self) -> u64 {
        self as u64
    }

    proof fn words_tell_keys_apart(a: Self, b: Self) {
    }

    fn to_word(&self) -> (word: u64) {
        *self as u64
    }
}

impl WordKey for u16 {
    open spec fn word(self) -> u64 {
        self as u64
    }

    proof fn words_tell_keys_apart(a: Self, b: Self) {
    }

    fn to_word(&self) -> (word: u64) {
        *self as u64
    }
}

impl WordKey for u8 {
    open spec fn word(self) -> u64 {
        self as u64
    }

    proof fn words_tell_keys_apart(a: Self, b: Self) {
    }

    fn to_word(&self) -> (word: u64) {
        *self as u64
    }
}

/// A copyable key that is one `usize`.
pub trait UsizeKey: Copy {
    /// The `usize` that stands for this key.
    spec fn number(self) -> usize;

    /// Two keys with the same number are the same key.
    proof fn numbers_tell_keys_apart(a: Self, b: Self)
        requires
            a.number() == b.number(),
        ensures
            a == b,
    ;

    /// The `usize` that stands for this key.
    fn to_number(self) -> (number: usize)
        ensures
            number == self.number(),
    ;
}

impl UsizeKey for usize {
    open spec fn number(self) -> usize {
        self
    }

    proof fn numbers_tell_keys_apart(a: Self, b: Self) {
    }

    fn to_number(self) -> (number: usize) {
        self
    }
}

} // verus!
