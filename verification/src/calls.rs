//! Calls on a table of slots that come one after the other.
//!
//! What one search makes of the words that it finds is in [`slots`](crate::slots). Here is what
//! a table says over many calls, where each is at its end before the next begins.

use vstd::arithmetic::power2::pow2;
use vstd::prelude::*;

use crate::slots::{self, Answer, Probe, Step};

verus! {

/// A call: its key, and what the slots answered.
pub enum Call {
    /// An upsert, with the answers to its looks and claims.
    Upsert { key: usize, answers: Seq<Answer> },
    /// A select, with the words that it saw.
    Select { key: usize, seen: Seq<usize> },
}

impl Call {
    /// The key that the call is about.
    pub open spec fn of(self) -> usize {
        match self {
            Call::Upsert { key, .. } => key,
            Call::Select { key, .. } => key,
        }
    }

    /// How the call ended, in a table with this many bits to a slot number.
    pub open spec fn ended(self, bits: nat) -> Step {
        if self.of() == 0 {
            Step::Missing
        } else {
            match self {
                Call::Upsert { key, answers } => slots::upsert_run(
                    Probe::begin(key, bits),
                    answers,
                ).1,
                Call::Select { key, seen } => slots::select_run(Probe::begin(key, bits), seen).1,
            }
        }
    }

    /// Whether the call got its answers from slots with these words, and came to its end.
    pub open spec fn made_in(self, words: Seq<usize>, bits: nat) -> bool {
        self.of() == 0 || {
            &&& self.ended(bits) is Row || self.ended(bits) is Missing
            &&& match self {
                Call::Upsert { key, answers } => slots::answered_by(
                    words,
                    Probe::begin(key, bits),
                    answers,
                ),
                Call::Select { key, seen } => slots::seen_in(words, Probe::begin(key, bits), seen),
            }
        }
    }

    /// The words in the slots after the call, which is to say after every step that it made to get
    /// its answers. A key of zero makes none.
    pub open spec fn leaves(self, words: Seq<usize>, bits: nat) -> Seq<usize> {
        if self.of() == 0 {
            words
        } else {
            match self {
                Call::Upsert { key, answers } => slots::after_upsert(
                    words,
                    Probe::begin(key, bits),
                    answers,
                ),
                Call::Select { key, seen } => slots::after_select(
                    words,
                    Probe::begin(key, bits),
                    seen,
                ),
            }
        }
    }
}

/// The words in the slots after these calls.
pub open spec fn left_by(words: Seq<usize>, bits: nat, calls: Seq<Call>) -> Seq<usize>
    decreases calls.len(),
{
    if calls.len() == 0 {
        words
    } else {
        calls.last().leaves(left_by(words, bits, calls.drop_last()), bits)
    }
}

/// Whether these calls came one after the other: each got its answers from the words that the
/// calls before it left.
pub open spec fn one_by_one(words: Seq<usize>, bits: nat, calls: Seq<Call>) -> bool
    decreases calls.len(),
{
    calls.len() == 0 || {
        &&& one_by_one(words, bits, calls.drop_last())
        &&& calls.last().made_in(left_by(words, bits, calls.drop_last()), bits)
    }
}

/// Whether the call is an upsert that gave this key a row.
pub open spec fn upserts_row(call: Call, bits: nat, key: usize) -> bool {
    call is Upsert && call.of() == key && call.ended(bits) is Row
}

/// A call ends at the slot where its key is afterwards, and with nothing where the key is in no
/// slot afterwards. What it leaves has every key that there was, in the slot where it was, and no
/// new one but its own.
proof fn lemma_one_call(words: Seq<usize>, bits: nat, call: Call)
    requires
        bits < usize::BITS,
        pow2(bits) <= usize::MAX,
        slots::reachable(words, bits),
        call.made_in(words, bits),
    ensures
        slots::reachable(call.leaves(words, bits), bits),
        slots::grown(words, call.leaves(words, bits)),
        call.leaves(words, bits) == if call is Upsert && call.of() != 0 {
            slots::upserted(words, bits, call.of())
        } else {
            words
        },
        call.of() != 0 ==> call.ended(bits) == match slots::found(
            call.leaves(words, bits),
            bits,
            call.of(),
        ) {
            Some(slot) => Step::Row(slot as usize),
            None => Step::Missing,
        },
        forall|key: usize|
            key != 0 ==> (#[trigger] call.leaves(words, bits).contains(key) <==> words.contains(key)
                || upserts_row(call, bits, key)),
{
    let key = call.of();
    if key != 0 {
        slots::law_an_upsert_adds_one_key(words, bits, key);
        match call {
            Call::Upsert { key, answers } => {
                slots::law_an_upsert_changes_no_slot_but_its_own(words, bits, key, answers);
                slots::law_an_upsert_gets_the_slot(words, bits, key, answers);
                slots::law_a_search_is_right(words, bits, key);
            },
            Call::Select { key, seen } => {
                slots::law_a_select_leaves_every_slot(words, Probe::begin(key, bits), seen);
                slots::law_a_select_finds_the_key(words, bits, key, seen);
            },
        }
    }
}

/// Calls only ever add: after more calls every key that there was is there, in the slot where it
/// was.
pub proof fn law_calls_only_add(words: Seq<usize>, bits: nat, calls: Seq<Call>, before: int)
    requires
        bits < usize::BITS,
        pow2(bits) <= usize::MAX,
        slots::reachable(words, bits),
        one_by_one(words, bits, calls),
        0 <= before <= calls.len(),
    ensures
        one_by_one(words, bits, calls.take(before)),
        slots::reachable(left_by(words, bits, calls.take(before)), bits),
        slots::reachable(left_by(words, bits, calls), bits),
        slots::grown(left_by(words, bits, calls.take(before)), left_by(words, bits, calls)),
    decreases calls.len(),
{
    if before == calls.len() {
        assert(calls.take(before) =~= calls);
    }
    if calls.len() > 0 {
        let fewer = calls.drop_last();
        if before < calls.len() {
            law_calls_only_add(words, bits, fewer, before);
            assert(fewer.take(before) =~= calls.take(before));
        } else {
            law_calls_only_add(words, bits, fewer, fewer.len() as int);
        }
        let was = left_by(words, bits, fewer);
        lemma_one_call(was, bits, calls.last());
        let now = left_by(words, bits, calls);
        let early = left_by(words, bits, calls.take(before));
        if before < calls.len() {
            assert forall|slot: int| 0 <= slot < early.len() && early[slot] != 0 implies (
            #[trigger] now[slot]) == early[slot] by {
                assert(was[slot] == early[slot]);
            }
        }
    }
}

/// A key is in a slot exactly where it was in one before all these calls, or where one of them
/// was an upsert that gave it a row.
pub proof fn law_a_key_is_there_once_it_was_upserted(
    words: Seq<usize>,
    bits: nat,
    calls: Seq<Call>,
    key: usize,
)
    requires
        bits < usize::BITS,
        pow2(bits) <= usize::MAX,
        slots::reachable(words, bits),
        one_by_one(words, bits, calls),
        key != 0,
    ensures
        left_by(words, bits, calls).contains(key) <==> words.contains(key) || exists|i: int|
            0 <= i < calls.len() && upserts_row(#[trigger] calls[i], bits, key),
    decreases calls.len(),
{
    if calls.len() > 0 {
        let fewer = calls.drop_last();
        law_calls_only_add(words, bits, fewer, fewer.len() as int);
        law_a_key_is_there_once_it_was_upserted(words, bits, fewer, key);
        lemma_one_call(left_by(words, bits, fewer), bits, calls.last());
        if left_by(words, bits, fewer).contains(key) && !words.contains(key) {
            let i = choose|i: int|
                0 <= i < fewer.len() && upserts_row(#[trigger] fewer[i], bits, key);
            assert(upserts_row(calls[i], bits, key));
        }
        if upserts_row(calls.last(), bits, key) {
            assert(upserts_row(calls[calls.len() - 1], bits, key));
        }
        if exists|i: int| 0 <= i < calls.len() && upserts_row(#[trigger] calls[i], bits, key) {
            let i = choose|i: int|
                0 <= i < calls.len() && upserts_row(#[trigger] calls[i], bits, key);
            if i < fewer.len() {
                assert(upserts_row(fewer[i], bits, key));
            }
        }
    }
}

/// A call that ended at a row ended at the slot where its key still is, whatever calls came
/// after it.
pub proof fn law_a_row_stays_where_it_was_given(
    words: Seq<usize>,
    bits: nat,
    calls: Seq<Call>,
    i: int,
)
    requires
        bits < usize::BITS,
        pow2(bits) <= usize::MAX,
        slots::reachable(words, bits),
        one_by_one(words, bits, calls),
        0 <= i < calls.len(),
        calls[i].ended(bits) is Row,
    ensures
        slots::found(left_by(words, bits, calls), bits, calls[i].of()) matches Some(slot)
            && calls[i].ended(bits) == Step::Row(slot as usize) && 0 <= slot < words.len(),
{
    let until = calls.take(i + 1);
    let key = calls[i].of();
    law_calls_only_add(words, bits, calls, i);
    law_calls_only_add(words, bits, calls, i + 1);
    law_calls_only_add(words, bits, calls, 0);
    assert(calls.take(0) =~= Seq::empty());
    assert(until.drop_last() =~= calls.take(i));
    assert(until.last() == calls[i]);
    lemma_one_call(left_by(words, bits, calls.take(i)), bits, calls[i]);
    slots::law_a_search_is_right(left_by(words, bits, until), bits, key);
    slots::law_a_key_keeps_its_slot(
        left_by(words, bits, until),
        left_by(words, bits, calls),
        bits,
        key,
    );
}

/// Of two calls that ended at rows, those about one key ended at one row, and those about two
/// keys at two.
pub proof fn law_one_row_for_each_key(
    words: Seq<usize>,
    bits: nat,
    calls: Seq<Call>,
    i: int,
    j: int,
)
    requires
        bits < usize::BITS,
        pow2(bits) <= usize::MAX,
        slots::reachable(words, bits),
        one_by_one(words, bits, calls),
        0 <= i < calls.len(),
        0 <= j < calls.len(),
        calls[i].ended(bits) is Row,
        calls[j].ended(bits) is Row,
    ensures
        calls[i].of() == calls[j].of() <==> calls[i].ended(bits) == calls[j].ended(bits),
{
    law_a_row_stays_where_it_was_given(words, bits, calls, i);
    law_a_row_stays_where_it_was_given(words, bits, calls, j);
    if calls[i].of() != calls[j].of() {
        law_calls_only_add(words, bits, calls, 0);
        slots::law_two_keys_have_two_slots(
            left_by(words, bits, calls),
            bits,
            calls[i].of(),
            calls[j].of(),
        );
    }
}

/// A call about a key that was given a row ends at that row again, whether it is an upsert or a
/// select and however many calls lie between, and leaves the slots as they are.
pub proof fn law_a_given_row_is_given_again(
    words: Seq<usize>,
    bits: nat,
    calls: Seq<Call>,
    i: int,
    j: int,
)
    requires
        bits < usize::BITS,
        pow2(bits) <= usize::MAX,
        slots::reachable(words, bits),
        one_by_one(words, bits, calls),
        0 <= i < j < calls.len(),
        calls[i].of() == calls[j].of(),
        calls[i].ended(bits) is Row,
    ensures
        calls[j].ended(bits) == calls[i].ended(bits),
        left_by(words, bits, calls.take(j + 1)) == left_by(words, bits, calls.take(j)),
{
    let until = calls.take(j);
    let key = calls[i].of();
    law_calls_only_add(words, bits, calls, j);
    law_calls_only_add(words, bits, calls, j + 1);
    assert(until[i] == calls[i]);
    law_a_row_stays_where_it_was_given(words, bits, until, i);
    assert(calls.take(j + 1).drop_last() =~= until);
    assert(calls.take(j + 1).last() == calls[j]);
    let now = left_by(words, bits, until);
    lemma_one_call(now, bits, calls[j]);
    slots::law_a_key_keeps_its_slot(now, now, bits, key);
}

/// A select ends at a row exactly where its key was in a slot before all the calls, or where an
/// earlier call was an upsert that gave it a row. It leaves the slots as they are.
pub proof fn law_a_select_finds_what_was_upserted(
    words: Seq<usize>,
    bits: nat,
    calls: Seq<Call>,
    j: int,
)
    requires
        bits < usize::BITS,
        pow2(bits) <= usize::MAX,
        slots::reachable(words, bits),
        one_by_one(words, bits, calls),
        0 <= j < calls.len(),
        calls[j] is Select,
        calls[j].of() != 0,
    ensures
        calls[j].ended(bits) is Row <==> words.contains(calls[j].of()) || exists|i: int|
            0 <= i < j && upserts_row(#[trigger] calls[i], bits, calls[j].of()),
        left_by(words, bits, calls.take(j + 1)) == left_by(words, bits, calls.take(j)),
{
    let until = calls.take(j);
    let key = calls[j].of();
    law_calls_only_add(words, bits, calls, j);
    law_calls_only_add(words, bits, calls, j + 1);
    assert(calls.take(j + 1).drop_last() =~= until);
    assert(calls.take(j + 1).last() == calls[j]);
    let now = left_by(words, bits, until);
    lemma_one_call(now, bits, calls[j]);
    slots::law_a_search_is_right(now, bits, key);
    law_a_key_is_there_once_it_was_upserted(words, bits, until, key);
    if now.contains(key) && !words.contains(key) {
        let i = choose|i: int| 0 <= i < until.len() && upserts_row(#[trigger] until[i], bits, key);
        assert(upserts_row(calls[i], bits, key));
    }
    if exists|i: int| 0 <= i < j && upserts_row(#[trigger] calls[i], bits, key) {
        let i = choose|i: int| 0 <= i < j && upserts_row(#[trigger] calls[i], bits, key);
        assert(upserts_row(until[i], bits, key));
    }
    if let Some(slot) = slots::found(now, bits, key) {
        assert(now[slot] == key);
    }
}

} // verus!
