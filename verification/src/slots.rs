//! How a key finds its slot, and what claims of slots keep.

use vstd::arithmetic::power2::pow2;
use vstd::prelude::*;

verus! {

/// 2^64 over the golden ratio, odd so that the multiplication is invertible and
/// no key is lost.
pub const GOLDEN: u64 = 0x9E37_79B9_7F4A_7C15;

/// Where the search for a key starts in a table of `2^bits` slots: the top
/// `bits` bits of the low 64 bits of the key times [`GOLDEN`].
pub open spec fn home(key: usize, bits: nat) -> int {
    ((key * GOLDEN) % 0x1_0000_0000_0000_0000) / (pow2((64 - bits) as nat) as int)
}

/// The slot after `i` steps of the search for a key. The slot after the last
/// one is the first one.
pub open spec fn path(key: usize, bits: nat, i: int) -> int {
    if home(key, bits) + i < pow2(bits) {
        home(key, bits) + i
    } else {
        home(key, bits) + i - pow2(bits)
    }
}

/// How many steps the search for a key takes to get to a slot.
pub open spec fn steps_to(key: usize, bits: nat, slot: int) -> int {
    if slot >= home(key, bits) {
        slot - home(key, bits)
    } else {
        slot - home(key, bits) + pow2(bits)
    }
}

/// A search starts at a slot there is.
pub proof fn lemma_home_is_a_slot(key: usize, bits: nat)
    requires
        bits < 64,
    ensures
        0 <= home(key, bits) < pow2(bits),
{
    let product = (key * GOLDEN) % 0x1_0000_0000_0000_0000;
    let part = pow2((64 - bits) as nat) as int;
    vstd::arithmetic::power2::lemma_pow2_pos((64 - bits) as nat);
    vstd::arithmetic::power2::lemma_pow2_pos(bits);
    vstd::arithmetic::power2::lemma_pow2_adds(bits, (64 - bits) as nat);
    vstd::arithmetic::power2::lemma2_to64();
    vstd::arithmetic::div_mod::lemma_div_pos_is_pos(product, part);
    assert(pow2(bits) * part == part * pow2(bits)) by (nonlinear_arith);
    vstd::arithmetic::div_mod::lemma_multiply_divide_lt(product, part, pow2(bits) as int);
}

/// In a table of twice as many slots a key starts in one of the two slots that
/// its slot became: what decides is always the high bits.
pub proof fn law_twice_the_slots_split_each_in_two(key: usize, bits: nat)
    requires
        bits < 64,
    ensures
        home(key, bits) == home(key, bits + 1) / 2,
        home(key, 64) == (key * GOLDEN) % 0x1_0000_0000_0000_0000,
{
    let product = (key * GOLDEN) % 0x1_0000_0000_0000_0000;
    let half = pow2((63 - bits) as nat) as int;
    vstd::arithmetic::power2::lemma_pow2_pos((63 - bits) as nat);
    vstd::arithmetic::power2::lemma_pow2_unfold((64 - bits) as nat);
    vstd::arithmetic::power2::lemma2_to64();
    vstd::arithmetic::div_mod::lemma_div_denominator(product, half, 2);
    assert(half * 2 == 2 * half);
    assert(product / 1 == product);
}

/// Scatter a key across the table.
///
/// Multiplying by the golden ratio spreads any key across the whole word, and
/// taking the **high** bits of the product is what reads that spread: keys that
/// differ only in their low bits, or only in their high bits, get different
/// slots. The number of slots is a power of two, so there is no division.
pub fn scatter(key: usize, shift: u32, mask: usize) -> (slot: usize)
    requires
        0 < shift <= 64,
        mask + 1 == pow2((64 - shift) as nat),
    ensures
        slot == home(key, (64 - shift) as nat),
        slot <= mask,
{
    let ghost bits = (64 - shift) as nat;
    proof {
        lemma_home_is_a_slot(key, bits);
    }
    if shift == 64 {
        // One slot, so there is only one place to start.
        assert(pow2(0) == 1) by {
            vstd::arithmetic::power2::lemma2_to64();
        }
        return 0;
    }
    let product: u64 = (key as u64).wrapping_mul(GOLDEN);
    let high: u64 = product >> (shift as u64);
    proof {
        vstd::bits::lemma_u64_shr_is_div(product, shift as u64);
        assert(high == home(key, bits));
    }
    high as usize
}

/// A step of a search.
#[derive(Clone, Copy, Debug, PartialEq, Eq, Structural)]
pub enum Step {
    /// Load the word of this slot.
    Look(usize),
    /// Try to put the key into this slot, which was seen empty.
    Claim(usize),
    /// The key's row is the one of this slot.
    Row(usize),
    /// There is no row for the key.
    Missing,
}

/// The search for a key's slot: where it is, and how many slots are left.
#[derive(Clone, Copy, Debug, PartialEq, Eq, Structural)]
pub struct Probe {
    /// The key that is searched for.
    pub key: usize,
    /// The slot the search is at.
    pub at: usize,
    /// How many slots are left, this one included.
    pub left: usize,
    /// One less than the number of slots.
    pub mask: usize,
    /// What is left of 64 bits once a slot number has its own.
    pub shift: u32,
}

impl Probe {
    /// How many slots the search has put behind it.
    pub open spec fn passed(self) -> int {
        self.mask + 1 - self.left
    }

    /// How many bits a slot number has.
    pub open spec fn bits(self) -> nat {
        (64 - self.shift) as nat
    }

    /// The number of slots is a power of two that fits, and the search is where
    /// its path leads.
    pub open spec fn wf(self) -> bool {
        &&& 0 < self.shift <= 64
        &&& self.bits() < usize::BITS
        &&& self.mask + 1 == pow2(self.bits())
        &&& self.left <= self.mask + 1
        &&& self.at <= self.mask
        &&& self.left > 0 ==> self.at == path(self.key, self.bits(), self.passed())
    }

    /// The search for a key in a table of `2^bits` slots, at its start.
    pub open spec fn begin(key: usize, bits: nat) -> Self {
        Probe {
            key,
            at: home(key, bits) as usize,
            left: pow2(bits) as usize,
            mask: (pow2(bits) - 1) as usize,
            shift: (64 - bits) as u32,
        }
    }

    /// The search one slot further on.
    pub open spec fn moved(self) -> Self {
        Probe {
            at: if self.at == self.mask {
                0
            } else {
                (self.at + 1) as usize
            },
            left: (self.left - 1) as usize,
            ..self
        }
    }

    /// What a search that just came to a slot does: look at it, unless every
    /// slot is behind it.
    pub open spec fn look(self) -> Step {
        if self.left == 0 {
            Step::Missing
        } else {
            Step::Look(self.at)
        }
    }

    /// What a search that may claim a slot does about the word it saw: a slot
    /// with the key is its row, an empty slot is to be claimed, any other slot
    /// is passed.
    pub open spec fn on_upsert_word(self, word: usize) -> (Self, Step) {
        if word == self.key {
            (self, Step::Row(self.at))
        } else if word == 0 {
            (self, Step::Claim(self.at))
        } else {
            (self.moved(), self.moved().look())
        }
    }

    /// What the search does about the outcome of its claim: the slot is its row
    /// where the claim was good, and where another writer put the same key
    /// there first; any other slot is passed.
    pub open spec fn on_upsert_claim(self, outcome: Result<usize, usize>) -> (Self, Step) {
        if outcome is Ok || outcome == Err::<usize, usize>(self.key) {
            (self, Step::Row(self.at))
        } else {
            (self.moved(), self.moved().look())
        }
    }

    /// What a search that never claims a slot does about the word it saw: a
    /// slot with the key is its row, an empty slot says that there is none, any
    /// other slot is passed.
    pub open spec fn on_select_word(self, word: usize) -> (Self, Step) {
        if word == self.key {
            (self, Step::Row(self.at))
        } else if word == 0 {
            (self, Step::Missing)
        } else {
            (self.moved(), self.moved().look())
        }
    }

    /// The search for a key, at its start.
    pub fn start(key: usize, shift: u32, mask: usize) -> (probe: Self)
        requires
            0 < shift <= 64,
            64 - shift < usize::BITS,
            mask + 1 == pow2((64 - shift) as nat),
            mask < usize::MAX,
        ensures
            probe.wf(),
            probe == Probe::begin(key, (64 - shift) as nat),
    {
        Probe { key, at: scatter(key, shift, mask), left: mask + 1, mask, shift }
    }

    /// What to do first.
    pub fn first(&self) -> (step: Step)
        ensures
            step == self.look(),
    {
        if self.left == 0 {
            Step::Missing
        } else {
            Step::Look(self.at)
        }
    }

    /// Move on by one slot.
    fn advance(&mut self) -> (step: Step)
        requires
            old(self).wf(),
            old(self).left > 0,
        ensures
            final(self).wf(),
            *final(self) == old(self).moved(),
            step == final(self).look(),
    {
        proof {
            let next = (self.at + 1) as usize;
            lemma_home_is_a_slot(self.key, self.bits());
            vstd::bits::lemma_usize_pow2_no_overflow(self.bits());
            vstd::bits::lemma_usize_low_bits_mask_is_mod(next, self.bits());
            assert(vstd::bits::low_bits_mask(self.bits()) == self.mask);
            if self.at == self.mask {
                vstd::arithmetic::div_mod::lemma_mod_self_0(pow2(self.bits()) as int);
            } else {
                vstd::arithmetic::div_mod::lemma_small_mod(next as nat, pow2(self.bits()));
            }
        }
        self.left = self.left - 1;
        self.at = (self.at + 1) & self.mask;
        self.first()
    }

    /// Go on from a word that a search that may claim a slot saw.
    pub fn upsert_saw(&mut self, word: usize) -> (step: Step)
        requires
            old(self).wf(),
            old(self).left > 0,
        ensures
            final(self).wf(),
            (*final(self), step) == old(self).on_upsert_word(word),
    {
        if word == self.key {
            Step::Row(self.at)
        } else if word == 0 {
            Step::Claim(self.at)
        } else {
            self.advance()
        }
    }

    /// Go on from the outcome of a claim.
    pub fn upsert_claimed(&mut self, outcome: Result<usize, usize>) -> (step: Step)
        requires
            old(self).wf(),
            old(self).left > 0,
        ensures
            final(self).wf(),
            (*final(self), step) == old(self).on_upsert_claim(outcome),
    {
        match outcome {
            Ok(_) => Step::Row(self.at),
            Err(taken) => {
                if taken == self.key {
                    Step::Row(self.at)
                } else {
                    self.advance()
                }
            },
        }
    }

    /// Go on from a word that a search that never claims a slot saw.
    pub fn select_saw(&mut self, word: usize) -> (step: Step)
        requires
            old(self).wf(),
            old(self).left > 0,
        ensures
            final(self).wf(),
            (*final(self), step) == old(self).on_select_word(word),
    {
        if word == self.key {
            Step::Row(self.at)
        } else if word == 0 {
            Step::Missing
        } else {
            self.advance()
        }
    }
}

/// What a search brings in from the slots.
pub enum Answer {
    /// The word that a load found.
    Word(usize),
    /// What became of a claim.
    Claim(Result<usize, usize>),
}

/// Where a search that may claim a slot is once it got these answers, one after
/// the other, and what it does next. A load answers a look and an outcome
/// answers a claim; a search that has ended asks nothing more.
pub open spec fn upsert_run(probe: Probe, answers: Seq<Answer>) -> (Probe, Step)
    decreases answers.len(),
{
    if answers.len() == 0 {
        (probe, probe.look())
    } else {
        let (now, step) = upsert_run(probe, answers.drop_last());
        match (step, answers.last()) {
            (Step::Look(_), Answer::Word(word)) => now.on_upsert_word(word),
            (Step::Claim(_), Answer::Claim(outcome)) => now.on_upsert_claim(outcome),
            _ => (now, step),
        }
    }
}

/// Where a search that never claims a slot is once it saw these words, one after
/// the other, and what it does next.
pub open spec fn select_run(probe: Probe, words: Seq<usize>) -> (Probe, Step)
    decreases words.len(),
{
    if words.len() == 0 {
        (probe, probe.look())
    } else {
        let (now, step) = select_run(probe, words.drop_last());
        match step {
            Step::Look(_) => now.on_select_word(words.last()),
            _ => (now, step),
        }
    }
}

/// Whether the first `count` slots of a key's path are all taken, and by other
/// keys.
pub open spec fn all_passed(words: Seq<usize>, bits: nat, key: usize, count: int) -> bool {
    forall|i: int|
        0 <= i < count ==> words[#[trigger] path(key, bits, i)] != 0 && words[path(key, bits, i)]
            != key
}

/// Whether every claimed slot can be found: a search for its key gets to it past
/// slots that are taken by other keys.
pub open spec fn reachable(words: Seq<usize>, bits: nat) -> bool {
    &&& bits < 64
    &&& words.len() == pow2(bits)
    &&& forall|slot: int|
        0 <= slot < words.len() && words[slot] != 0 ==> all_passed(
            words,
            bits,
            #[trigger] words[slot],
            steps_to(words[slot], bits, slot),
        )
}

/// Where a search that finds `words` in the slots finds a key, from its `i`-th
/// step on.
pub open spec fn found_from(words: Seq<usize>, bits: nat, key: usize, i: int) -> Option<int>
    decreases pow2(bits) - i,
{
    if i >= pow2(bits) {
        None
    } else if words[path(key, bits, i)] == key {
        Some(path(key, bits, i))
    } else if words[path(key, bits, i)] == 0 {
        None
    } else {
        found_from(words, bits, key, i + 1)
    }
}

/// Where a key is found.
pub open spec fn found(words: Seq<usize>, bits: nat, key: usize) -> Option<int> {
    found_from(words, bits, key, 0)
}

proof fn lemma_path_and_steps(key: usize, bits: nat, i: int, slot: int)
    requires
        bits < 64,
        0 <= i < pow2(bits),
        0 <= slot < pow2(bits),
    ensures
        0 <= path(key, bits, i) < pow2(bits),
        steps_to(key, bits, path(key, bits, i)) == i,
        0 <= steps_to(key, bits, slot) < pow2(bits),
        path(key, bits, steps_to(key, bits, slot)) == slot,
{
    lemma_home_is_a_slot(key, bits);
}

proof fn lemma_found_after_passed(words: Seq<usize>, bits: nat, key: usize, i: int, to: int)
    requires
        0 <= i <= to < pow2(bits),
        all_passed(words, bits, key, to),
        words[path(key, bits, to)] == key,
    ensures
        found_from(words, bits, key, i) == Some(path(key, bits, to)),
    decreases to - i,
{
    if i < to {
        assert(words[path(key, bits, i)] != key);
        lemma_found_after_passed(words, bits, key, i + 1, to);
    }
}

/// An empty table has nothing to find, and is as good a start as any.
pub proof fn law_an_empty_table_is_reachable(words: Seq<usize>, bits: nat, key: usize)
    requires
        bits < 64,
        words.len() == pow2(bits),
        forall|i: int| 0 <= i < words.len() ==> words[i] == 0,
        key != 0,
    ensures
        reachable(words, bits),
        found(words, bits, key) is None,
{
    lemma_home_is_a_slot(key, bits);
    assert(words[path(key, bits, 0)] == 0);
}

/// A claimed key is found, and at the slot that it claimed.
pub proof fn law_a_claimed_key_is_found(words: Seq<usize>, bits: nat, slot: int)
    requires
        reachable(words, bits),
        0 <= slot < words.len(),
        words[slot] != 0,
    ensures
        found(words, bits, words[slot]) == Some(slot),
{
    let key = words[slot];
    lemma_path_and_steps(key, bits, 0, slot);
    lemma_found_after_passed(words, bits, key, 0, steps_to(key, bits, slot));
}

/// One key claims one slot.
pub proof fn law_one_slot_per_key(words: Seq<usize>, bits: nat, a: int, b: int)
    requires
        reachable(words, bits),
        0 <= a < words.len(),
        0 <= b < words.len(),
        words[a] != 0,
        words[a] == words[b],
    ensures
        a == b,
{
    law_a_claimed_key_is_found(words, bits, a);
    law_a_claimed_key_is_found(words, bits, b);
}

/// What a search finds is a slot with the key; and what it does not find is in
/// no slot.
pub proof fn law_a_search_is_right(words: Seq<usize>, bits: nat, key: usize)
    requires
        reachable(words, bits),
        key != 0,
    ensures
        match found(words, bits, key) {
            Some(slot) => 0 <= slot < words.len() && words[slot] == key,
            None => !words.contains(key),
        },
{
    lemma_found_is_key(words, bits, key, 0);
    if words.contains(key) {
        let slot = choose|slot: int| 0 <= slot < words.len() && words[slot] == key;
        law_a_claimed_key_is_found(words, bits, slot);
    }
}

proof fn lemma_found_is_key(words: Seq<usize>, bits: nat, key: usize, i: int)
    requires
        bits < 64,
        words.len() == pow2(bits),
        0 <= i,
    ensures
        found_from(words, bits, key, i) matches Some(slot) ==> 0 <= slot < words.len()
            && words[slot] == key,
    decreases pow2(bits) - i,
{
    if i < pow2(bits) {
        lemma_path_and_steps(key, bits, i, 0);
        lemma_found_is_key(words, bits, key, i + 1);
    }
}

/// What a search has passed stays passed, whatever other writers claim
/// meanwhile: a claimed slot never changes.
pub proof fn law_passed_slots_stay_passed(
    words: Seq<usize>,
    bits: nat,
    key: usize,
    count: int,
    slot: int,
    claimed: usize,
)
    requires
        bits < 64,
        words.len() == pow2(bits),
        0 <= count <= pow2(bits),
        all_passed(words, bits, key, count),
        0 <= slot < words.len(),
        words[slot] == 0,
    ensures
        all_passed(words.update(slot, claimed), bits, key, count),
{
    let after = words.update(slot, claimed);
    assert forall|i: int| 0 <= i < count implies after[#[trigger] path(key, bits, i)] != 0
        && after[path(key, bits, i)] != key by {
        lemma_path_and_steps(key, bits, i, 0);
    }
}

/// A search claims the first empty slot after the ones that it passed. That
/// keeps every claimed key reachable, whichever writers' claims came in between.
pub proof fn law_a_claim_keeps_keys_reachable(
    words: Seq<usize>,
    bits: nat,
    key: usize,
    count: int,
)
    requires
        reachable(words, bits),
        key != 0,
        0 <= count < pow2(bits),
        all_passed(words, bits, key, count),
        words[path(key, bits, count)] == 0,
    ensures
        reachable(words.update(path(key, bits, count), key), bits),
        found(words.update(path(key, bits, count), key), bits, key) == Some(path(key, bits, count)),
{
    let at = path(key, bits, count);
    let after = words.update(at, key);
    lemma_path_and_steps(key, bits, count, 0);
    law_passed_slots_stay_passed(words, bits, key, count, at, key);
    assert forall|slot: int| 0 <= slot < after.len() && after[slot] != 0 implies all_passed(
        after,
        bits,
        #[trigger] after[slot],
        steps_to(after[slot], bits, slot),
    ) by {
        if slot != at {
            let other = words[slot];
            lemma_path_and_steps(other, bits, 0, slot);
            law_passed_slots_stay_passed(
                words,
                bits,
                other,
                steps_to(other, bits, slot),
                at,
                key,
            );
        }
    }
    law_a_claimed_key_is_found(after, bits, at);
}

/// A claim moves no row: what was found is found where it was.
pub proof fn law_a_claim_moves_no_row(
    words: Seq<usize>,
    bits: nat,
    key: usize,
    count: int,
    other: usize,
)
    requires
        reachable(words, bits),
        key != 0,
        other != 0,
        0 <= count < pow2(bits),
        all_passed(words, bits, key, count),
        words[path(key, bits, count)] == 0,
        found(words, bits, other) is Some,
    ensures
        found(words.update(path(key, bits, count), key), bits, other) == found(words, bits, other),
{
    law_a_search_is_right(words, bits, other);
    law_a_claim_keeps_keys_reachable(words, bits, key, count);
    lemma_path_and_steps(key, bits, count, 0);
    let slot = found(words, bits, other)->Some_0;
    law_a_claimed_key_is_found(words.update(path(key, bits, count), key), bits, slot);
}

/// A search that passes every slot is in a full table that does not have its
/// key: a table refuses a key only when it is full.
pub proof fn law_only_a_full_table_refuses(words: Seq<usize>, bits: nat, key: usize)
    requires
        bits < 64,
        words.len() == pow2(bits),
        all_passed(words, bits, key, pow2(bits) as int),
    ensures
        forall|slot: int| 0 <= slot < words.len() ==> words[slot] != 0 && words[slot] != key,
{
    assert forall|slot: int| 0 <= slot < words.len() implies words[slot] != 0 && words[slot]
        != key by {
        lemma_path_and_steps(key, bits, 0, slot);
        assert(path(key, bits, steps_to(key, bits, slot)) == slot);
    }
}

/// And a full table that does not have a key does refuse it: there is no slot
/// for a search to end at.
pub proof fn law_a_full_table_refuses(words: Seq<usize>, bits: nat, key: usize)
    requires
        bits < 64,
        words.len() == pow2(bits),
        forall|slot: int| 0 <= slot < words.len() ==> words[slot] != 0 && words[slot] != key,
    ensures
        all_passed(words, bits, key, pow2(bits) as int),
        found(words, bits, key) is None,
{
    assert forall|i: int| 0 <= i < pow2(bits) implies words[#[trigger] path(key, bits, i)] != 0
        && words[path(key, bits, i)] != key by {
        lemma_path_and_steps(key, bits, i, 0);
    }
    lemma_found_is_key(words, bits, key, 0);
}

/// Whether these are the words that a search that never claims a slot sees, one
/// after the other, in slots that hold `words` all the while.
pub open spec fn seen_in(words: Seq<usize>, begin: Probe, seen: Seq<usize>) -> bool
    decreases seen.len(),
{
    seen.len() == 0 || {
        &&& seen_in(words, begin, seen.drop_last())
        &&& match select_run(begin, seen.drop_last()).1 {
            Step::Look(at) => seen.last() == words[at as int],
            _ => false,
        }
    }
}

/// What a claim of a slot with this word in it comes to.
pub open spec fn claim_of(word: usize) -> Result<usize, usize> {
    if word == 0 {
        Ok(0)
    } else {
        Err(word)
    }
}

/// Whether these are the answers that a search that may claim a slot gets, one
/// after the other, from slots that hold `words` until it claims one.
pub open spec fn answered_by(words: Seq<usize>, begin: Probe, answers: Seq<Answer>) -> bool
    decreases answers.len(),
{
    answers.len() == 0 || {
        &&& answered_by(words, begin, answers.drop_last())
        &&& match (upsert_run(begin, answers.drop_last()).1, answers.last()) {
            (Step::Look(at), Answer::Word(word)) => word == words[at as int],
            (Step::Claim(at), Answer::Claim(outcome)) => outcome == claim_of(words[at as int]),
            _ => false,
        }
    }
}

/// The slot that a search for a key ends at, from its `i`-th step on: the first
/// that is empty or has the key.
pub open spec fn stop_from(words: Seq<usize>, bits: nat, key: usize, i: int) -> Option<int>
    decreases pow2(bits) - i,
{
    if i >= pow2(bits) {
        None
    } else if words[path(key, bits, i)] == key || words[path(key, bits, i)] == 0 {
        Some(path(key, bits, i))
    } else {
        stop_from(words, bits, key, i + 1)
    }
}

/// The slot that a key gets: the one it has, or else the first empty one on its
/// path.
pub open spec fn slot_for(words: Seq<usize>, bits: nat, key: usize) -> Option<int> {
    stop_from(words, bits, key, 0)
}

/// The slots once a key has been given its slot, if there is one for it.
pub open spec fn upserted(words: Seq<usize>, bits: nat, key: usize) -> Seq<usize> {
    match slot_for(words, bits, key) {
        Some(slot) => words.update(slot, key),
        None => words,
    }
}

/// Whether nothing but claims of empty slots lies between the two.
pub open spec fn grown(before: Seq<usize>, after: Seq<usize>) -> bool {
    &&& before.len() == after.len()
    &&& forall|slot: int|
        0 <= slot < before.len() && before[slot] != 0 ==> #[trigger] after[slot] == before[slot]
}

proof fn lemma_begin(key: usize, bits: nat)
    requires
        bits < usize::BITS,
        pow2(bits) <= usize::MAX,
    ensures
        Probe::begin(key, bits).wf(),
        Probe::begin(key, bits).bits() == bits,
        Probe::begin(key, bits).passed() == 0,
{
    lemma_home_is_a_slot(key, bits);
    vstd::arithmetic::power2::lemma_pow2_pos(bits);
}

/// Where a search is on its path after the slots it has passed.
proof fn lemma_select_passes(words: Seq<usize>, bits: nat, key: usize, seen: Seq<usize>)
    requires
        bits < usize::BITS,
        pow2(bits) <= usize::MAX,
        words.len() == pow2(bits),
        seen_in(words, Probe::begin(key, bits), seen),
    ensures
        ({
            let (now, step) = select_run(Probe::begin(key, bits), seen);
            &&& now.wf()
            &&& now.key == key
            &&& now.bits() == bits
            &&& 0 <= now.passed()
            &&& all_passed(words, bits, key, now.passed())
            &&& match step {
                Step::Look(at) => now.left > 0 && at == now.at,
                Step::Claim(_) => false,
                Step::Row(at) => now.left > 0 && at == now.at && words[at as int] == key,
                Step::Missing => now.left == 0 || words[now.at as int] == 0 && words[now.at as int]
                    != key,
            }
        }),
    decreases seen.len(),
{
    lemma_begin(key, bits);
    lemma_home_is_a_slot(key, bits);
    if seen.len() > 0 {
        let fewer = seen.drop_last();
        lemma_select_passes(words, bits, key, fewer);
        let (before, step) = select_run(Probe::begin(key, bits), fewer);
        if words[before.at as int] != 0 && words[before.at as int] != key {
            law_a_probe_passes_its_path(before, words);
        }
    }
}

/// The same of a search that may claim a slot.
proof fn lemma_upsert_passes(words: Seq<usize>, bits: nat, key: usize, answers: Seq<Answer>)
    requires
        bits < usize::BITS,
        pow2(bits) <= usize::MAX,
        words.len() == pow2(bits),
        answered_by(words, Probe::begin(key, bits), answers),
    ensures
        ({
            let (now, step) = upsert_run(Probe::begin(key, bits), answers);
            &&& now.wf()
            &&& now.key == key
            &&& now.bits() == bits
            &&& 0 <= now.passed()
            &&& all_passed(words, bits, key, now.passed())
            &&& match step {
                Step::Look(at) => now.left > 0 && at == now.at,
                Step::Claim(at) => now.left > 0 && at == now.at && words[at as int] == 0,
                Step::Row(at) => now.left > 0 && at == now.at && (words[at as int] == key
                    || words[at as int] == 0),
                Step::Missing => now.left == 0,
            }
        }),
    decreases answers.len(),
{
    lemma_begin(key, bits);
    lemma_home_is_a_slot(key, bits);
    if answers.len() > 0 {
        let fewer = answers.drop_last();
        lemma_upsert_passes(words, bits, key, fewer);
        let (before, step) = upsert_run(Probe::begin(key, bits), fewer);
        if words[before.at as int] != 0 && words[before.at as int] != key {
            law_a_probe_passes_its_path(before, words);
        }
    }
}

proof fn lemma_stop_after_passed(words: Seq<usize>, bits: nat, key: usize, i: int, to: int)
    requires
        0 <= i <= to <= pow2(bits),
        all_passed(words, bits, key, to),
    ensures
        stop_from(words, bits, key, i) == stop_from(words, bits, key, to),
        found_from(words, bits, key, i) == found_from(words, bits, key, to),
    decreases to - i,
{
    if i < to {
        assert(words[path(key, bits, i)] != key);
        lemma_stop_after_passed(words, bits, key, i + 1, to);
    }
}

/// A search that never claims a slot, in slots that hold `words` all the while,
/// ends at the slot where the key is found, and with nothing where it is not:
/// whatever it saw on the way.
pub proof fn law_a_select_finds_the_key(
    words: Seq<usize>,
    bits: nat,
    key: usize,
    seen: Seq<usize>,
)
    requires
        bits < usize::BITS,
        pow2(bits) <= usize::MAX,
        words.len() == pow2(bits),
        key != 0,
        seen_in(words, Probe::begin(key, bits), seen),
        select_run(Probe::begin(key, bits), seen).1 !is Look,
    ensures
        select_run(Probe::begin(key, bits), seen).1 == match found(words, bits, key) {
            Some(slot) => Step::Row(slot as usize),
            None => Step::Missing,
        },
{
    lemma_select_passes(words, bits, key, seen);
    let (now, step) = select_run(Probe::begin(key, bits), seen);
    lemma_stop_after_passed(words, bits, key, 0, now.passed());
}

/// A search that may claim a slot, in slots that hold `words` until it does, ends
/// at the slot that the key gets, and with nothing where there is none for it:
/// whatever answers it got on the way.
pub proof fn law_an_upsert_gets_the_slot(
    words: Seq<usize>,
    bits: nat,
    key: usize,
    answers: Seq<Answer>,
)
    requires
        bits < usize::BITS,
        pow2(bits) <= usize::MAX,
        words.len() == pow2(bits),
        key != 0,
        answered_by(words, Probe::begin(key, bits), answers),
        upsert_run(Probe::begin(key, bits), answers).1 !is Look,
        upsert_run(Probe::begin(key, bits), answers).1 !is Claim,
    ensures
        upsert_run(Probe::begin(key, bits), answers).1 == match slot_for(words, bits, key) {
            Some(slot) => Step::Row(slot as usize),
            None => Step::Missing,
        },
{
    lemma_upsert_passes(words, bits, key, answers);
    let (now, step) = upsert_run(Probe::begin(key, bits), answers);
    lemma_stop_after_passed(words, bits, key, 0, now.passed());
}

proof fn lemma_stop(words: Seq<usize>, bits: nat, key: usize, i: int)
    requires
        bits < 64,
        words.len() == pow2(bits),
        0 <= i <= pow2(bits),
        all_passed(words, bits, key, i),
    ensures
        match stop_from(words, bits, key, i) {
            Some(slot) => exists|count: int|
                0 <= count < pow2(bits) && slot == #[trigger] path(key, bits, count) && all_passed(
                    words,
                    bits,
                    key,
                    count,
                ) && (words[slot] == key || words[slot] == 0) && 0 <= slot < words.len(),
            None => all_passed(words, bits, key, pow2(bits) as int),
        },
    decreases pow2(bits) - i,
{
    if i < pow2(bits) {
        let at = path(key, bits, i);
        lemma_path_and_steps(key, bits, i, 0);
        if words[at] == key || words[at] == 0 {
            assert(stop_from(words, bits, key, i) == Some(at));
        } else {
            lemma_stop(words, bits, key, i + 1);
        }
    }
}

/// A key gets a slot exactly where it has one or one is empty. What it gets is
/// the slot it is found at afterwards; every other key stays where it is; the
/// keys in the slots are those from before and this one; and every key stays
/// reachable. Where it gets none, every slot is taken by another key.
pub proof fn law_an_upsert_adds_one_key(words: Seq<usize>, bits: nat, key: usize)
    requires
        reachable(words, bits),
        key != 0,
    ensures
        slot_for(words, bits, key) is Some <==> words.contains(key) || words.contains(0),
        words.contains(key) ==> slot_for(words, bits, key) == found(words, bits, key) && upserted(
            words,
            bits,
            key,
        ) == words,
        reachable(upserted(words, bits, key), bits),
        grown(words, upserted(words, bits, key)),
        slot_for(words, bits, key) matches Some(slot) ==> {
            &&& 0 <= slot < words.len()
            &&& words[slot] == key || words[slot] == 0
            &&& found(upserted(words, bits, key), bits, key) == Some(slot)
            &&& slot_for(upserted(words, bits, key), bits, key) == Some(slot)
        },
        forall|other: usize|
            other != 0 ==> (#[trigger] upserted(words, bits, key).contains(other)
                <==> words.contains(other) || (other == key && slot_for(words, bits, key) is Some)),
{
    assert(all_passed(words, bits, key, 0));
    lemma_stop(words, bits, key, 0);
    let after = upserted(words, bits, key);
    law_a_search_is_right(words, bits, key);
    match slot_for(words, bits, key) {
        None => {
            law_only_a_full_table_refuses(words, bits, key);
        },
        Some(slot) => {
            let count = choose|count: int|
                0 <= count < pow2(bits) && slot == #[trigger] path(key, bits, count) && all_passed(
                    words,
                    bits,
                    key,
                    count,
                ) && (words[slot] == key || words[slot] == 0) && 0 <= slot < words.len();
            lemma_stop_after_passed(words, bits, key, 0, count);
            if words[slot] == key {
                assert(after =~= words);
                assert(found(words, bits, key) == Some(slot));
            } else {
                law_a_claim_keeps_keys_reachable(words, bits, key, count);
                assert(words[slot] == 0);
                assert(found(words, bits, key) is None);
            }
            assert(after[slot] == key);
            lemma_passed_after_own_claim(words, bits, key, count, slot);
            lemma_stop_after_passed(after, bits, key, 0, count);
            assert forall|other: usize| other != 0 implies (#[trigger] after.contains(other)
                <==> words.contains(other) || other == key) by {
                if words.contains(other) {
                    let at = choose|at: int| 0 <= at < words.len() && words[at] == other;
                    assert(after[at] == other);
                }
                if after.contains(other) {
                    let at = choose|at: int| 0 <= at < after.len() && after[at] == other;
                    assert(at == slot || words[at] == other);
                }
            }
        },
    }
}

proof fn lemma_passed_after_own_claim(
    words: Seq<usize>,
    bits: nat,
    key: usize,
    count: int,
    slot: int,
)
    requires
        bits < 64,
        words.len() == pow2(bits),
        0 <= count < pow2(bits),
        all_passed(words, bits, key, count),
        0 <= slot < words.len(),
        words[slot] == 0 || words[slot] == key,
    ensures
        all_passed(words.update(slot, key), bits, key, count),
{
    if words[slot] == 0 {
        law_passed_slots_stay_passed(words, bits, key, count, slot, key);
    } else {
        assert(words.update(slot, key) =~= words);
    }
}

/// A key keeps its slot, whatever keys are claimed meanwhile and by whom: once
/// it is found, it is found there ever after, and an upsert gets it that slot
/// and adds nothing.
pub proof fn law_a_key_keeps_its_slot(
    before: Seq<usize>,
    after: Seq<usize>,
    bits: nat,
    key: usize,
)
    requires
        reachable(before, bits),
        reachable(after, bits),
        grown(before, after),
        key != 0,
        found(before, bits, key) is Some,
    ensures
        found(after, bits, key) == found(before, bits, key),
        slot_for(after, bits, key) == found(before, bits, key),
        upserted(after, bits, key) == after,
{
    law_a_search_is_right(before, bits, key);
    let slot = found(before, bits, key)->Some_0;
    assert(after[slot] == key);
    law_a_claimed_key_is_found(after, bits, slot);
    law_an_upsert_adds_one_key(after, bits, key);
}

/// Two keys never have one slot.
pub proof fn law_two_keys_have_two_slots(words: Seq<usize>, bits: nat, a: usize, b: usize)
    requires
        reachable(words, bits),
        a != 0,
        b != 0,
        a != b,
        found(words, bits, a) is Some,
    ensures
        found(words, bits, a) != found(words, bits, b),
        slot_for(words, bits, b) != found(words, bits, a),
{
    law_a_search_is_right(words, bits, a);
    law_a_search_is_right(words, bits, b);
    law_an_upsert_adds_one_key(words, bits, b);
}

/// A search passes the slots that its key's path leads through, one by one:
/// when it moves on, what it has passed is one slot more.
pub proof fn law_a_probe_passes_its_path(before: Probe, words: Seq<usize>)
    requires
        before.wf(),
        before.left > 0,
        words[before.at as int] != 0,
        words[before.at as int] != before.key,
        all_passed(words, before.bits(), before.key, before.passed()),
    ensures
        all_passed(words, before.bits(), before.key, before.moved().passed()),
        before.moved().passed() == before.passed() + 1,
{
    assert forall|i: int| 0 <= i < before.moved().passed() implies words[#[trigger] path(
        before.key,
        before.bits(),
        i,
    )] != 0 && words[path(before.key, before.bits(), i)] != before.key by {
        if i == before.passed() {
            assert(path(before.key, before.bits(), i) == before.at);
        }
    }
}

/// The words in the slots after a step of a search for a key, where nobody else writes: a claim of
/// an empty slot puts the key there, and no other step changes any slot.
pub open spec fn after_step(words: Seq<usize>, step: Step, key: usize) -> Seq<usize> {
    match step {
        Step::Claim(at) => if words[at as int] == 0 {
            words.update(at as int, key)
        } else {
            words
        },
        _ => words,
    }
}

/// The words in the slots after every step that a search that may claim a slot made to get these
/// answers.
pub open spec fn after_upsert(words: Seq<usize>, begin: Probe, answers: Seq<Answer>) -> Seq<usize>
    decreases answers.len(),
{
    if answers.len() == 0 {
        words
    } else {
        after_step(
            after_upsert(words, begin, answers.drop_last()),
            upsert_run(begin, answers.drop_last()).1,
            begin.key,
        )
    }
}

/// The words in the slots after every step that a search that never claims a slot made to see
/// these words.
pub open spec fn after_select(words: Seq<usize>, begin: Probe, seen: Seq<usize>) -> Seq<usize>
    decreases seen.len(),
{
    if seen.len() == 0 {
        words
    } else {
        after_step(
            after_select(words, begin, seen.drop_last()),
            select_run(begin, seen.drop_last()).1,
            begin.key,
        )
    }
}

/// The words in the slots after these steps.
pub open spec fn after_steps(words: Seq<usize>, steps: Seq<Step>, key: usize) -> Seq<usize>
    decreases steps.len(),
{
    if steps.len() == 0 {
        words
    } else {
        after_step(after_steps(words, steps.drop_last(), key), steps.last(), key)
    }
}

/// Steps that are no claims leave every slot as it was. So do loads of all the slots, which is how
/// rows are listed and counted.
pub proof fn law_looking_leaves_every_slot(words: Seq<usize>, steps: Seq<Step>, key: usize)
    requires
        forall|i: int| 0 <= i < steps.len() ==> (#[trigger] steps[i]) !is Claim,
    ensures
        after_steps(words, steps, key) == words,
    decreases steps.len(),
{
    if steps.len() > 0 {
        let fewer = steps.drop_last();
        assert forall|i: int| 0 <= i < fewer.len() implies (#[trigger] fewer[i]) !is Claim by {
            assert(fewer[i] == steps[i]);
        }
        law_looking_leaves_every_slot(words, fewer, key);
        assert(steps[steps.len() - 1] !is Claim);
    }
}

proof fn lemma_a_select_never_claims(begin: Probe, seen: Seq<usize>)
    ensures
        select_run(begin, seen).1 !is Claim,
    decreases seen.len(),
{
    if seen.len() > 0 {
        lemma_a_select_never_claims(begin, seen.drop_last());
    }
}

/// A select leaves every slot as it was, whatever it sees.
pub proof fn law_a_select_leaves_every_slot(words: Seq<usize>, begin: Probe, seen: Seq<usize>)
    ensures
        after_select(words, begin, seen) == words,
    decreases seen.len(),
{
    if seen.len() > 0 {
        law_a_select_leaves_every_slot(words, begin, seen.drop_last());
        lemma_a_select_never_claims(begin, seen.drop_last());
    }
}

proof fn lemma_after_upsert(words: Seq<usize>, bits: nat, key: usize, answers: Seq<Answer>)
    requires
        bits < usize::BITS,
        pow2(bits) <= usize::MAX,
        words.len() == pow2(bits),
        answered_by(words, Probe::begin(key, bits), answers),
    ensures
        after_upsert(words, Probe::begin(key, bits), answers) == match upsert_run(
            Probe::begin(key, bits),
            answers,
        ).1 {
            Step::Row(at) => words.update(at as int, key),
            _ => words,
        },
    decreases answers.len(),
{
    if answers.len() > 0 {
        let begin = Probe::begin(key, bits);
        let fewer = answers.drop_last();
        lemma_after_upsert(words, bits, key, fewer);
        lemma_upsert_passes(words, bits, key, fewer);
        let (before, step) = upsert_run(begin, fewer);
        let (now, next) = upsert_run(begin, answers);
        if let Step::Row(at) = next {
            assert(at == before.at);
            if words[at as int] == key {
                assert(words.update(at as int, key) =~= words);
            }
        }
    }
}

/// An upsert that nobody's write comes between changes no slot but the one whose row it gives: that
/// slot was empty or had the key, and has the key afterwards. One that gives no row changes none.
/// Afterwards, as before, no key is in two slots.
pub proof fn law_an_upsert_changes_no_slot_but_its_own(
    words: Seq<usize>,
    bits: nat,
    key: usize,
    answers: Seq<Answer>,
)
    requires
        bits < usize::BITS,
        pow2(bits) <= usize::MAX,
        reachable(words, bits),
        key != 0,
        answered_by(words, Probe::begin(key, bits), answers),
        upsert_run(Probe::begin(key, bits), answers).1 is Row || upsert_run(
            Probe::begin(key, bits),
            answers,
        ).1 is Missing,
    ensures
        ({
            let after = after_upsert(words, Probe::begin(key, bits), answers);
            &&& after == upserted(words, bits, key)
            &&& after.len() == words.len()
            &&& reachable(after, bits)
            &&& match upsert_run(Probe::begin(key, bits), answers).1 {
                Step::Row(at) => {
                    &&& at < words.len()
                    &&& after[at as int] == key
                    &&& words[at as int] == key || words[at as int] == 0 && !words.contains(key)
                    &&& forall|slot: int|
                        0 <= slot < words.len() && slot != at ==> #[trigger] after[slot]
                            == words[slot]
                },
                _ => after == words && !words.contains(key) && !words.contains(0),
            }
            &&& forall|a: int, b: int|
                0 <= a < after.len() && 0 <= b < after.len() && a != b && after[a] != 0
                    ==> #[trigger] after[a] != #[trigger] after[b]
        }),
{
    let begin = Probe::begin(key, bits);
    let after = after_upsert(words, begin, answers);
    lemma_after_upsert(words, bits, key, answers);
    law_an_upsert_gets_the_slot(words, bits, key, answers);
    law_an_upsert_adds_one_key(words, bits, key);
    lemma_upsert_passes(words, bits, key, answers);
    if let Step::Row(at) = upsert_run(begin, answers).1 {
        assert(slot_for(words, bits, key) is Some);
        assert(slot_for(words, bits, key)->Some_0 == at);
        if words[at as int] == 0 && words.contains(key) {
            law_a_search_is_right(words, bits, key);
        }
    }
    assert forall|a: int, b: int|
        0 <= a < after.len() && 0 <= b < after.len() && a != b && after[a] != 0 implies (
    #[trigger] after[a]) != #[trigger] after[b] by {
        if after[a] == after[b] {
            law_one_slot_per_key(after, bits, a, b);
        }
    }
}

/// Whether these answers, got at any time before, still hold of slots that have `words` now: a key
/// that was seen in a slot is there for good.
pub open spec fn heard(words: Seq<usize>, begin: Probe, answers: Seq<Answer>) -> bool
    decreases answers.len(),
{
    answers.len() == 0 || {
        &&& heard(words, begin, answers.drop_last())
        &&& match (upsert_run(begin, answers.drop_last()).1, answers.last()) {
            (Step::Look(at), Answer::Word(word)) => word == 0 || words[at as int] == word,
            (Step::Claim(at), Answer::Claim(Ok(_))) => words[at as int] == begin.key,
            (Step::Claim(at), Answer::Claim(Err(word))) => word != 0 && words[at as int] == word,
            _ => false,
        }
    }
}

proof fn lemma_heard_passes(words: Seq<usize>, bits: nat, key: usize, answers: Seq<Answer>)
    requires
        bits < usize::BITS,
        pow2(bits) <= usize::MAX,
        words.len() == pow2(bits),
        heard(words, Probe::begin(key, bits), answers),
    ensures
        ({
            let (now, step) = upsert_run(Probe::begin(key, bits), answers);
            &&& now.wf()
            &&& now.key == key
            &&& now.bits() == bits
            &&& 0 <= now.passed()
            &&& all_passed(words, bits, key, now.passed())
            &&& match step {
                Step::Look(at) => now.left > 0 && at == now.at,
                Step::Claim(at) => now.left > 0 && at == now.at,
                _ => true,
            }
        }),
    decreases answers.len(),
{
    lemma_begin(key, bits);
    lemma_home_is_a_slot(key, bits);
    if answers.len() > 0 {
        let fewer = answers.drop_last();
        lemma_heard_passes(words, bits, key, fewer);
        let (before, step) = upsert_run(Probe::begin(key, bits), fewer);
        if words[before.at as int] != 0 && words[before.at as int] != key {
            law_a_probe_passes_its_path(before, words);
        }
    }
}

/// A claim that a search has come to, whenever it got its answers and whoever claimed what in the
/// meantime, never puts a key into a second slot: where the slot is still empty, the key is in
/// none, and is in this one afterwards; where it is not, nothing changes.
pub proof fn law_a_claim_never_gives_a_key_a_second_slot(
    words: Seq<usize>,
    bits: nat,
    key: usize,
    answers: Seq<Answer>,
    at: usize,
)
    requires
        bits < usize::BITS,
        pow2(bits) <= usize::MAX,
        reachable(words, bits),
        key != 0,
        heard(words, Probe::begin(key, bits), answers),
        upsert_run(Probe::begin(key, bits), answers).1 == Step::Claim(at),
    ensures
        at < words.len(),
        words[at as int] == 0 ==> !words.contains(key),
        reachable(after_step(words, Step::Claim(at), key), bits),
        grown(words, after_step(words, Step::Claim(at), key)),
        forall|slot: int|
            0 <= slot < words.len() && slot != at ==> #[trigger] after_step(
                words,
                Step::Claim(at),
                key,
            )[slot] == words[slot],
{
    lemma_heard_passes(words, bits, key, answers);
    let (now, step) = upsert_run(Probe::begin(key, bits), answers);
    if words[at as int] == 0 {
        lemma_stop_after_passed(words, bits, key, 0, now.passed());
        law_an_upsert_adds_one_key(words, bits, key);
        law_a_search_is_right(words, bits, key);
        assert(path(key, bits, now.passed()) == at);
        assert(slot_for(words, bits, key) == Some(at as int));
        assert(after_step(words, Step::Claim(at), key) == upserted(words, bits, key));
    }
}

} // verus!
