//! A fixed-capacity table whose rows are claimed without blocking.

use core::sync::atomic::AtomicUsize;

use vstd::arithmetic::power2::pow2;
use vstd::prelude::*;

use crate::calls::{self, Call};
use crate::cells::{Builds, Cells};
use crate::slots::{self, Answer, Probe, Step};
use crate::word::Claiming;

verus! {

/// A fixed-capacity table whose rows are claimed without blocking and updated in place.
///
/// # What this is for, and why the other tables here cannot do it
///
/// [`LinearTable`](crate::linear::LinearTable) and its indexed variants take `&mut self` to
/// insert, because they push onto a `Vec` and a push can reallocate - which moves every row. That
/// is the right shape for the baselines this crate exists to name, and it is unusable from several
/// threads at once.
///
/// The case that needs something else is a **counter table**: many writers, a small set of keys
/// that stabilises almost immediately, and an update that is a read-modify-write on the row
/// rather than a replacement of it.
///
/// # How it avoids both a lock and a reallocation
///
/// Capacity is fixed at construction and every value is built then, so **no row ever moves** and
/// `&V` handed out stays valid for the life of the table. A key is claimed with one
/// `compare_exchange`; after that, finding it is a plain load. The value is updated through `&V`,
/// so `V` supplies its own interior mutability - atomics, typically - and this crate takes no
/// position on what the row contains.
///
/// The load-before-claim order is the point. Claiming with a `compare_exchange` on every lookup
/// takes the cache line exclusively even when nothing changes, so writers contending for a key
/// they all already own serialise on it. A load is a shared read.
///
/// # What it does not do
///
/// No removal, no resize, and no iteration order beyond slot order. A full table refuses rather
/// than growing, and [`AtomicKeyTable::len`] says how many slots are taken so a caller can
/// see it coming. Keys are `usize`, the same width as the slot arithmetic that indexes them,
/// and zero is the empty sentinel, so a caller whose key is a pointer, a hash or a `u64` maps
/// it in.
///
/// # What is proved
///
/// What a slot holds is up to every thread that has the table, so a contract of a method here
/// speaks of what the loads and claims that it made came to: each word is one that a load of
/// that slot gave, each outcome one that a `compare_exchange` of that slot gave, and the result is
/// what [`Probe`] makes of them. That claims made so, in any interleaving, give each key one slot
/// and lose none is what the laws in [`slots`](crate::slots) state. Where nobody else writes while
/// a call runs, its answers all come from the same words, and the laws here say which row comes
/// out, exactly; for calls that come one after the other they rest on the laws in
/// [`calls`](crate::calls).
///
/// # What only reads cannot write
///
/// `A` is the kind of access that there is to the slots, and for [`Claiming`] alone a slot can be
/// claimed at all ([`cells`](crate::cells)). To select, to list and to count are written for any
/// `A`, as is building a table: so none of them can claim a slot, whatever it calls. An upsert can,
/// but a claim has to be what a search has come to
/// ([`may_claim`](crate::cells::Cells::may_claim)), and such a claim, whenever it is made, never
/// gives a key a second slot.
#[derive(Debug)]
pub struct AtomicKeyTable<V, A = Claiming> {
    keys: Cells<A>,
    values: Vec<V>,
    /// Capacity is a power of two, so the index is a mask rather than a division.
    mask: usize,
    shift: u32,
}

/// The word of this slot.
pub open spec fn word_of(words: Seq<usize>, at: usize) -> usize {
    words[at as int]
}

/// The claimed rows among these slots, in slot order.
pub open spec fn claimed<V>(words: Seq<usize>, values: Seq<V>) -> Seq<(usize, V)>
    decreases words.len(),
{
    if words.len() == 0 {
        Seq::empty()
    } else {
        let before = claimed(words.drop_last(), values);
        if words.last() == 0 {
            before
        } else {
            before.push((words.last(), values[words.len() - 1]))
        }
    }
}

/// Whether these references show these rows, one for one.
pub open spec fn shows<V>(shown: Seq<(usize, &V)>, rows: Seq<(usize, V)>) -> bool {
    &&& shown.len() == rows.len()
    &&& forall|i: int|
        0 <= i < rows.len() ==> (#[trigger] shown[i]).0 == rows[i].0 && *shown[i].1 == rows[i].1
}

/// The claimed rows among these slots, in slot order.
pub fn claimed_rows<'a, V>(words: &[usize], values: &'a [V]) -> (rows: Vec<(usize, &'a V)>)
    requires
        words@.len() <= values@.len(),
    ensures
        shows(rows@, claimed(words@, values@)),
{
    let mut rows: Vec<(usize, &'a V)> = Vec::new();
    let mut at: usize = 0;
    while at < words.len()
        invariant
            at <= words@.len() <= values@.len(),
            shows(rows@, claimed(words@.take(at as int), values@)),
        decreases words@.len() - at,
    {
        assert(words@.take(at + 1).drop_last() =~= words@.take(at as int));
        if words[at] != 0 {
            rows.push((words[at], &values[at]));
        }
        at = at + 1;
    }
    assert(words@.take(words@.len() as int) =~= words@);
    rows
}

/// No row of zero is ever among the claimed ones, and no more rows are claimed
/// than there are slots.
pub proof fn law_claimed_rows_have_keys<V>(words: Seq<usize>, values: Seq<V>)
    ensures
        claimed(words, values).len() <= words.len(),
        forall|i: int|
            0 <= i < claimed(words, values).len() ==> (#[trigger] claimed(words, values)[i]).0 != 0,
    decreases words.len(),
{
    if words.len() > 0 {
        law_claimed_rows_have_keys(words.drop_last(), values);
    }
}

/// Every claimed slot has its row among the claimed ones.
pub proof fn law_every_claimed_row_is_there<V>(words: Seq<usize>, values: Seq<V>, slot: int)
    requires
        0 <= slot < words.len(),
        words[slot] != 0,
    ensures
        claimed(words, values).contains((words[slot], values[slot])),
    decreases words.len(),
{
    let before = claimed(words.drop_last(), values);
    let row = (words[slot], values[slot]);
    if slot < words.len() - 1 {
        law_every_claimed_row_is_there(words.drop_last(), values, slot);
        let i = choose|i: int| 0 <= i < before.len() && before[i] == row;
        assert(claimed(words, values)[i] == row);
    } else {
        assert(claimed(words, values).last() == row);
    }
}

/// The claimed rows are in slot order, each slot's row once: the row of a claimed slot comes behind
/// as many rows as there are claimed slots before it, and an empty slot adds none.
pub proof fn law_claimed_rows_are_in_slot_order<V>(words: Seq<usize>, values: Seq<V>, slot: int)
    requires
        0 <= slot < words.len(),
    ensures
        ({
            let before = claimed(words.take(slot), values);
            let upto = claimed(words.take(slot + 1), values);
            let all = claimed(words, values);
            &&& upto.len() == before.len() + if words[slot] == 0 {
                0int
            } else {
                1
            }
            &&& upto.len() <= all.len()
            &&& words[slot] != 0 ==> all[before.len() as int] == (words[slot], values[slot])
            &&& slot + 1 == words.len() ==> upto == all
        }),
    decreases words.len(),
{
    let fewer = words.drop_last();
    assert(words.take(slot + 1).drop_last() =~= words.take(slot));
    if slot + 1 == words.len() {
        assert(words.take(slot + 1) =~= words);
    } else {
        law_claimed_rows_are_in_slot_order(fewer, values, slot);
        assert(fewer.take(slot) =~= words.take(slot));
        assert(fewer.take(slot + 1) =~= words.take(slot + 1));
    }
}

impl<V, A> AtomicKeyTable<V, A> {
    #[verifier::type_invariant]
    pub closed spec fn wf(self) -> bool {
        &&& 0 < self.shift <= 64
        &&& 64 - self.shift < usize::BITS
        &&& self.mask + 1 == pow2((64 - self.shift) as nat)
        &&& self.mask < usize::MAX
        &&& self.keys.count() == self.mask + 1
        &&& self.values@.len() == self.mask + 1
    }

    /// The values of the slots, claimed or not.
    pub closed spec fn values(self) -> Seq<V> {
        self.values@
    }

    /// How many bits a slot number has.
    pub closed spec fn bits(self) -> nat {
        (64 - self.shift) as nat
    }

    /// The slots.
    pub closed spec fn cells(self) -> Cells<A> {
        self.keys
    }

    /// The slot with this number.
    pub open spec fn slot(self, at: usize) -> AtomicUsize {
        self.cells().slot(at)
    }

    /// Whether a load of this slot may give this word.
    pub open spec fn loads(self, at: usize, word: usize) -> bool {
        self.cells().loads(at, word)
    }

    /// Whether a claim of this slot for this key may come to this.
    pub open spec fn claims(self, at: usize, key: usize, outcome: Result<usize, usize>) -> bool {
        self.cells().claims(at, key, outcome)
    }

    /// Whether this slot was made with nothing in it.
    pub open spec fn made_empty(self, at: usize) -> bool {
        self.cells().made_empty(at)
    }

    /// Whether each of these answers came from the slot that the search was at: a word from a
    /// load of it, an outcome from a claim of it.
    pub open spec fn answered(self, begin: Probe, answers: Seq<Answer>) -> bool {
        self.cells().answered(begin, answers)
    }

    /// Whether each of these words came from a load of the slot that the search was at.
    pub open spec fn seen(self, begin: Probe, words: Seq<usize>) -> bool
        decreases words.len(),
    {
        words.len() == 0 || {
            &&& self.seen(begin, words.drop_last())
            &&& match slots::select_run(begin, words.drop_last()).1 {
                Step::Look(at) => self.loads(at, words.last()),
                _ => false,
            }
        }
    }

    /// Whether these words came from loads of all the slots, in slot order.
    pub open spec fn read_out(self, words: Seq<usize>) -> bool {
        &&& words.len() == self.values().len()
        &&& forall|at: usize| at < words.len() ==> #[trigger] self.loads(at, word_of(words, at))
    }

    /// What an upsert gives: what a search for the key makes of the answers that it got.
    pub open spec fn upserts(self, key: usize, row: Option<&V>) -> bool {
        if key == 0 {
            row is None
        } else {
            exists|answers: Seq<Answer>|
                self.gives(
                    (#[trigger] slots::upsert_run(Probe::begin(key, self.bits()), answers)).1,
                    row,
                ) && self.answered(Probe::begin(key, self.bits()), answers)
        }
    }

    /// What a select gives: what a search for the key makes of the words that it saw.
    pub open spec fn selects(self, key: usize, row: Option<&V>) -> bool {
        if key == 0 {
            row is None
        } else {
            exists|words: Seq<usize>|
                self.gives(
                    (#[trigger] slots::select_run(Probe::begin(key, self.bits()), words)).1,
                    row,
                ) && self.seen(Probe::begin(key, self.bits()), words)
        }
    }

    /// What a search that ended this way gives.
    pub open spec fn gives(self, end: Step, row: Option<&V>) -> bool {
        match end {
            Step::Row(slot) => slot < self.values().len() && row == Some(
                &self.values()[slot as int],
            ),
            Step::Missing => row is None,
            _ => false,
        }
    }
}

impl<V: Default, A> AtomicKeyTable<V, A> where Claiming: Builds<A> {
    /// A table with at least `capacity` slots, every value built now.
    ///
    /// Rounded up to a power of two so the slot index is a mask rather than a division. Size it
    /// generously: this is open addressed with linear probing, so a table much past half full
    /// costs a long probe on every miss.
    pub fn with_capacity(capacity: usize) -> (table: Self)
        requires
            capacity <= usize::MAX / 2 + 1,
        ensures
            table.wf(),
            table.values().len() == pow2(table.bits()),
            capacity <= pow2(table.bits()),
            table.bits() == 0 || pow2((table.bits() - 1) as nat) < capacity,
            forall|i: int|
                0 <= i < table.values().len() ==> call_ensures(
                    V::default,
                    (),
                    #[trigger] table.values()[i],
                ),
            forall|at: usize| at < table.values().len() ==> #[trigger] table.made_empty(at),
    {
        let mut slots: usize = 1;
        let mut bits: u32 = 0;
        proof {
            vstd::arithmetic::power2::lemma2_to64();
        }
        while slots < capacity
            invariant
                capacity <= usize::MAX / 2 + 1,
                slots == pow2(bits as nat),
                bits < usize::BITS,
                1 <= slots <= usize::MAX / 2 + 1,
                bits == 0 || pow2((bits - 1) as nat) < capacity,
            decreases usize::MAX - slots,
        {
            proof {
                vstd::arithmetic::power2::lemma_pow2_unfold((bits + 1) as nat);
                if bits + 1 == usize::BITS {
                    lemma_top_power();
                } else {
                    vstd::bits::lemma_usize_pow2_no_overflow((bits + 1) as nat);
                    lemma_under_top_power((bits + 1) as nat);
                }
            }
            slots = slots * 2;
            bits = bits + 1;
        }
        let keys = Cells::empty(slots);
        let mut values: Vec<V> = Vec::with_capacity(slots);
        let mut built: usize = 0;
        while built < slots
            invariant
                built <= slots,
                values@.len() == built,
                forall|i: int|
                    0 <= i < built ==> call_ensures(V::default, (), #[trigger] values@[i]),
            decreases slots - built,
        {
            values.push(V::default());
            built = built + 1;
        }
        AtomicKeyTable { keys, values, mask: slots - 1, shift: 64 - bits }
    }
}

/// The largest power of two that a `usize` holds is one more than half of the
/// largest `usize`.
proof fn lemma_top_power()
    ensures
        pow2((usize::BITS - 1) as nat) == usize::MAX / 2 + 1,
        pow2(usize::BITS as nat) == usize::MAX + 1,
{
    vstd::arithmetic::power2::lemma2_to64();
    vstd::arithmetic::power2::lemma2_to64_rest();
}

proof fn lemma_under_top_power(bits: nat)
    requires
        bits < usize::BITS,
    ensures
        pow2(bits) <= usize::MAX / 2 + 1,
{
    lemma_top_power();
    if bits < usize::BITS - 1 {
        vstd::arithmetic::power2::lemma_pow2_strictly_increases(bits, (usize::BITS - 1) as nat);
    }
}

impl<V> AtomicKeyTable<V, Claiming> {
    /// Put a key into this slot if it is empty, and say what was there.
    fn claim(&self, at: usize, key: usize) -> (outcome: Result<usize, usize>)
        requires
            self.wf(),
            at <= self.mask,
            self.cells().may_claim(at, key),
        ensures
            self.claims(at, key, outcome),
    {
        self.keys.word_at(at).claim(key, Ghost(self.keys), Ghost(at))
    }

    /// The row for this key, claiming a slot if it has none yet.
    ///
    /// Named for `WorkTable`'s `upsert`: it returns the existing row or creates one, and never
    /// replaces what is there. The row is then updated through `&V`, which is where the
    /// difference from a `WorkTable` upsert lies - the value carries its own interior mutability
    /// rather than being written back whole.
    ///
    /// `None` means the table is full. Zero is the empty sentinel and is rejected rather than
    /// silently colliding with an unclaimed slot.
    pub fn upsert(&self, key: usize) -> (row: Option<&V>)
        ensures
            key == 0 ==> row is None,
            self.upserts(key, row),
    {
        proof {
            use_type_invariant(self);
        }
        if key == 0 {
            return None;
        }
        let mut probe = Probe::start(key, self.shift, self.mask);
        let mut step = probe.first();
        let ghost begin = probe;
        let ghost mut answers: Seq<Answer> = Seq::empty();
        loop
            invariant
                key != 0,
                self.wf(),
                probe.wf(),
                probe.mask == self.mask,
                begin == Probe::begin(key, self.bits()),
                slots::upsert_run(begin, answers) == (probe, step),
                self.answered(begin, answers),
                match step {
                    Step::Look(at) => probe.left > 0 && at == probe.at,
                    Step::Claim(at) => probe.left > 0 && at == probe.at,
                    Step::Row(at) => at <= self.mask,
                    Step::Missing => true,
                },
            decreases
                    probe.left,
                    if step is Look {
                        2int
                    } else if step is Claim {
                        1
                    } else {
                        0
                    },
        {
            match step {
                Step::Look(at) => {
                    let word: usize = self.load(at);
                    proof {
                        assert(answers.push(Answer::Word(word)).drop_last() =~= answers);
                        answers = answers.push(Answer::Word(word));
                    }
                    step = probe.upsert_saw(word);
                },
                Step::Claim(at) => {
                    proof {
                        assert(slots::upsert_run(Probe::begin(key, self.bits()), answers).1
                            == Step::Claim(at));
                        assert(self.cells().may_claim(at, key));
                    }
                    let outcome = self.claim(at, key);
                    proof {
                        assert(answers.push(Answer::Claim(outcome)).drop_last() =~= answers);
                        answers = answers.push(Answer::Claim(outcome));
                    }
                    step = probe.upsert_claimed(outcome);
                },
                Step::Row(at) => {
                    return Some(self.value_at(at));
                },
                Step::Missing => {
                    return None;
                },
            }
        }
    }
}

impl<V, A> AtomicKeyTable<V, A> {
    /// The word of this slot, as it is now.
    fn load(&self, at: usize) -> (word: usize)
        requires
            self.wf(),
            at <= self.mask,
        ensures
            self.loads(at, word),
    {
        self.keys.word_at(at).load()
    }

    /// The value of this slot.
    fn value_at(&self, at: usize) -> (value: &V)
        requires
            self.wf(),
            at <= self.mask,
        ensures
            at < self.values().len(),
            *value == self.values()[at as int],
    {
        &self.values[at]
    }

    /// The row for this key, or `None` if no row has been created for it. Never creates one.
    ///
    /// The same name and shape as [`LinearTable::select`](crate::linear::LinearTable::select), so
    /// a caller moving between the two tables in this crate reads one vocabulary.
    pub fn select(&self, key: usize) -> (row: Option<&V>)
        ensures
            key == 0 ==> row is None,
            self.selects(key, row),
    {
        proof {
            use_type_invariant(self);
        }
        if key == 0 {
            return None;
        }
        let mut probe = Probe::start(key, self.shift, self.mask);
        let mut step = probe.first();
        let ghost begin = probe;
        let ghost mut words: Seq<usize> = Seq::empty();
        loop
            invariant
                key != 0,
                self.wf(),
                probe.wf(),
                probe.mask == self.mask,
                begin == Probe::begin(key, self.bits()),
                slots::select_run(begin, words) == (probe, step),
                self.seen(begin, words),
                match step {
                    Step::Look(at) => probe.left > 0 && at == probe.at,
                    Step::Claim(_) => false,
                    Step::Row(at) => at <= self.mask,
                    Step::Missing => true,
                },
            decreases
                    probe.left,
                    if step is Look {
                        1int
                    } else {
                        0
                    },
        {
            match step {
                Step::Look(at) => {
                    let word: usize = self.load(at);
                    proof {
                        assert(words.push(word).drop_last() =~= words);
                        words = words.push(word);
                    }
                    step = probe.select_saw(word);
                },
                Step::Row(at) => {
                    return Some(self.value_at(at));
                },
                Step::Claim(_) | Step::Missing => {
                    return None;
                },
            }
        }
    }

    /// The words of the slots, in slot order, each as it is when it is read.
    fn words(&self) -> (words: Vec<usize>)
        ensures
            self.read_out(words@),
    {
        proof {
            use_type_invariant(self);
        }
        let mut words: Vec<usize> = Vec::with_capacity(self.keys.len());
        let mut at: usize = 0;
        while at < self.keys.len()
            invariant
                self.wf(),
                at <= self.keys.count(),
                words@.len() == at,
                forall|i: usize| i < at ==> #[trigger] self.loads(i, word_of(words@, i)),
            decreases self.keys.count() - at,
        {
            let word: usize = self.load(at);
            let ghost before = words@;
            words.push(word);
            assert forall|i: usize| i <= at implies #[trigger] self.loads(
                i,
                word_of(words@, i),
            ) by {
                if i < at {
                    assert(word_of(words@, i) == word_of(before, i));
                }
            }
            at = at + 1;
        }
        words
    }

    /// Every claimed row, in slot order.
    pub fn iter(&self) -> (rows: Vec<(usize, &V)>)
        ensures
            exists|words: Seq<usize>| #[trigger]
                self.read_out(words) && shows(rows@, claimed(words, self.values())),
    {
        let words = self.words();
        let rows = claimed_rows(words.as_slice(), self.values.as_slice());
        assert(self.read_out(words@) && shows(rows@, claimed(words@, self.values())));
        rows
    }

    /// How many rows the table holds.
    pub fn len(&self) -> (len: usize)
        ensures
            len <= self.values().len(),
            exists|words: Seq<usize>| #[trigger]
                self.read_out(words) && len == claimed(words, self.values()).len(),
    {
        let rows = self.iter();
        proof {
            let words = choose|words: Seq<usize>| #[trigger]
                self.read_out(words) && shows(rows@, claimed(words, self.values()));
            law_claimed_rows_have_keys(words, self.values());
            assert(self.read_out(words) && rows@.len() == claimed(words, self.values()).len());
        }
        rows.len()
    }

    /// Whether no row has been created. Matches
    /// [`LinearTable::is_empty`](crate::linear::LinearTable::is_empty).
    pub fn is_empty(&self) -> (empty: bool)
        ensures
            exists|words: Seq<usize>| #[trigger]
                self.read_out(words) && empty == (claimed(words, self.values()).len() == 0),
    {
        let len: usize = self.len();
        proof {
            let words = choose|words: Seq<usize>| #[trigger]
                self.read_out(words) && len == claimed(words, self.values()).len();
            assert(self.read_out(words) && (len == 0) == (claimed(words, self.values()).len()
                == 0));
        }
        len == 0
    }

    /// How many rows the table can hold. Fixed at construction.
    pub fn capacity(&self) -> (capacity: usize)
        ensures
            capacity == self.values().len(),
            capacity == pow2(self.bits()),
    {
        proof {
            use_type_invariant(self);
        }
        self.keys.len()
    }
}

impl<V, A> AtomicKeyTable<V, A> {
    /// An upsert that got its answers from these words, because nobody's write came between, gives
    /// the row of the slot that the key gets: the one it has, or else the first empty one on its
    /// path. It gives none exactly where the key has no slot and none is empty.
    pub proof fn law_upsert(
        self,
        words: Seq<usize>,
        key: usize,
        answers: Seq<Answer>,
        row: Option<&V>,
    )
        requires
            self.wf(),
            slots::reachable(words, self.bits()),
            key != 0,
            slots::answered_by(words, Probe::begin(key, self.bits()), answers),
            self.gives(slots::upsert_run(Probe::begin(key, self.bits()), answers).1, row),
        ensures
            self.gives(
                match slots::slot_for(words, self.bits(), key) {
                    Some(slot) => Step::Row(slot as usize),
                    None => Step::Missing,
                },
                row,
            ),
            row is Some <==> words.contains(key) || words.contains(0),
            words.contains(0) <==> claimed(words, self.values()).len() < self.values().len(),
    {
        law_a_free_slot_is_an_unclaimed_row(words, self.values());
        slots::law_an_upsert_gets_the_slot(words, self.bits(), key, answers);
        slots::law_an_upsert_adds_one_key(words, self.bits(), key);
    }

    /// A select that saw these words, because nobody's write came between, gives the row of the
    /// key's slot, exactly where it has one.
    pub proof fn law_select(
        self,
        words: Seq<usize>,
        key: usize,
        seen: Seq<usize>,
        row: Option<&V>,
    )
        requires
            self.wf(),
            slots::reachable(words, self.bits()),
            key != 0,
            slots::seen_in(words, Probe::begin(key, self.bits()), seen),
            self.gives(slots::select_run(Probe::begin(key, self.bits()), seen).1, row),
        ensures
            self.gives(
                match slots::found(words, self.bits(), key) {
                    Some(slot) => Step::Row(slot as usize),
                    None => Step::Missing,
                },
                row,
            ),
            row is Some <==> words.contains(key),
    {
        slots::law_a_select_finds_the_key(words, self.bits(), key, seen);
        slots::law_a_search_is_right(words, self.bits(), key);
        if let Some(slot) = slots::found(words, self.bits(), key) {
            assert(words[slot] == key);
        }
    }

    /// A key that was given a row is given that row again, by an upsert and by a select, however
    /// many keys were claimed in between and by whom.
    pub proof fn law_the_same_row_again(
        self,
        words: Seq<usize>,
        later: Seq<usize>,
        key: usize,
        answers: Seq<Answer>,
        row: Option<&V>,
        answers_again: Seq<Answer>,
        again: Option<&V>,
        seen: Seq<usize>,
        found: Option<&V>,
    )
        requires
            self.wf(),
            key != 0,
            slots::reachable(words, self.bits()),
            slots::answered_by(words, Probe::begin(key, self.bits()), answers),
            self.gives(slots::upsert_run(Probe::begin(key, self.bits()), answers).1, row),
            row is Some,
            slots::reachable(later, self.bits()),
            slots::grown(slots::upserted(words, self.bits(), key), later),
            slots::answered_by(later, Probe::begin(key, self.bits()), answers_again),
            self.gives(slots::upsert_run(Probe::begin(key, self.bits()), answers_again).1, again),
            slots::seen_in(later, Probe::begin(key, self.bits()), seen),
            self.gives(slots::select_run(Probe::begin(key, self.bits()), seen).1, found),
        ensures
            again == row,
            found == row,
            slots::upserted(later, self.bits(), key) == later,
    {
        self.law_upsert(words, key, answers, row);
        slots::law_an_upsert_adds_one_key(words, self.bits(), key);
        slots::law_a_key_keeps_its_slot(
            slots::upserted(words, self.bits(), key),
            later,
            self.bits(),
            key,
        );
        self.law_upsert(later, key, answers_again, again);
        self.law_select(later, key, seen, found);
    }

    /// A table whose slots are as they were built has no rows: a select finds nothing, and none is
    /// claimed.
    pub proof fn law_a_new_table_is_empty(
        self,
        words: Seq<usize>,
        key: usize,
        seen: Seq<usize>,
        row: Option<&V>,
    )
        requires
            self.wf(),
            words.len() == self.values().len(),
            forall|i: int| 0 <= i < words.len() ==> words[i] == 0,
            key != 0,
            slots::seen_in(words, Probe::begin(key, self.bits()), seen),
            self.gives(slots::select_run(Probe::begin(key, self.bits()), seen).1, row),
        ensures
            slots::reachable(words, self.bits()),
            row is None,
            claimed(words, self.values()).len() == 0,
    {
        slots::law_an_empty_table_is_reachable(words, self.bits(), key);
        self.law_select(words, key, seen, row);
        lemma_nothing_claimed(words, self.values());
    }

    /// Of calls that come one after the other, each that is about a key that was given a row gives
    /// that row again, and the number of rows does not change with it.
    pub proof fn law_a_claimed_row_is_never_reclaimed(
        self,
        words: Seq<usize>,
        calls: Seq<Call>,
        i: int,
        j: int,
        row: Option<&V>,
        again: Option<&V>,
    )
        requires
            self.wf(),
            slots::reachable(words, self.bits()),
            calls::one_by_one(words, self.bits(), calls),
            0 <= i < j < calls.len(),
            calls[i].of() == calls[j].of(),
            self.gives(calls[i].ended(self.bits()), row),
            row is Some,
            self.gives(calls[j].ended(self.bits()), again),
        ensures
            again == row,
            claimed(
                calls::left_by(words, self.bits(), calls.take(j + 1)),
                self.values(),
            ).len() == claimed(
                calls::left_by(words, self.bits(), calls.take(j)),
                self.values(),
            ).len(),
    {
        calls::law_a_given_row_is_given_again(words, self.bits(), calls, i, j);
    }

    /// Of calls that come one after the other on a table as it was built, a select gives a row
    /// exactly where an earlier upsert of its key gave one, and it is the same row. A select never
    /// creates one: the slots are after it what they were before.
    pub proof fn law_a_select_gives_what_was_upserted(
        self,
        words: Seq<usize>,
        calls: Seq<Call>,
        j: int,
        row: Option<&V>,
    )
        requires
            self.wf(),
            words.len() == self.values().len(),
            forall|i: int| 0 <= i < words.len() ==> words[i] == 0,
            calls::one_by_one(words, self.bits(), calls),
            0 <= j < calls.len(),
            calls[j] is Select,
            calls[j].of() != 0,
            self.gives(calls[j].ended(self.bits()), row),
        ensures
            row is Some <==> exists|i: int|
                0 <= i < j && calls::upserts_row(
                    #[trigger] calls[i],
                    self.bits(),
                    calls[j].of(),
                ),
            forall|i: int|
                0 <= i < j && calls::upserts_row(#[trigger] calls[i], self.bits(), calls[j].of())
                    ==> self.gives(calls[i].ended(self.bits()), row),
            calls::left_by(words, self.bits(), calls.take(j + 1)) == calls::left_by(
                words,
                self.bits(),
                calls.take(j),
            ),
    {
        let bits = self.bits();
        slots::law_an_empty_table_is_reachable(words, bits, calls[j].of());
        calls::law_a_select_finds_what_was_upserted(words, bits, calls, j);
        assert forall|i: int|
            0 <= i < j && calls::upserts_row(
                #[trigger] calls[i],
                bits,
                calls[j].of(),
            ) implies self.gives(calls[i].ended(bits), row) by {
            calls::law_a_given_row_is_given_again(words, bits, calls, i, j);
        }
    }

    /// An upsert that nobody's write comes between changes no slot but the one whose row it gives,
    /// and leaves the claimed rows as they were but for one more where the key was new. No key is
    /// in two slots afterwards, so no key is listed twice.
    pub proof fn law_an_upsert_claims_one_slot(
        self,
        words: Seq<usize>,
        key: usize,
        answers: Seq<Answer>,
        row: Option<&V>,
    )
        requires
            self.wf(),
            slots::reachable(words, self.bits()),
            key != 0,
            slots::answered_by(words, Probe::begin(key, self.bits()), answers),
            self.gives(slots::upsert_run(Probe::begin(key, self.bits()), answers).1, row),
        ensures
            ({
                let after = slots::after_upsert(words, Probe::begin(key, self.bits()), answers);
                &&& slots::reachable(after, self.bits())
                &&& row is None ==> after == words
                &&& row is Some ==> exists|slot: int|
                    0 <= slot < words.len() && row == Some(&self.values()[slot]) && after
                        == #[trigger] words.update(slot, key) && (words[slot] == key || words[slot]
                        == 0 && !words.contains(key))
                &&& claimed(after, self.values()).len() == claimed(words, self.values()).len()
                    + if row is Some && !words.contains(key) {
                    1int
                } else {
                    0
                }
                &&& forall|a: int, b: int|
                    0 <= a < after.len() && 0 <= b < after.len() && a != b && after[a] != 0
                        ==> #[trigger] after[a] != #[trigger] after[b]
            }),
    {
        let begin = Probe::begin(key, self.bits());
        let after = slots::after_upsert(words, begin, answers);
        slots::law_an_upsert_changes_no_slot_but_its_own(words, self.bits(), key, answers);
        slots::law_an_upsert_gets_the_slot(words, self.bits(), key, answers);
        law_an_upsert_adds_at_most_one_row(words, self.bits(), key, self.values());
        if let Step::Row(at) = slots::upsert_run(begin, answers).1 {
            assert(after =~= words.update(at as int, key));
        }
    }

    /// Of calls that come one after the other on a table as it was built, as long as none was an
    /// upsert that gave a row, there are no rows.
    pub proof fn law_no_rows_without_an_upsert(self, words: Seq<usize>, calls: Seq<Call>)
        requires
            self.wf(),
            words.len() == self.values().len(),
            forall|i: int| 0 <= i < words.len() ==> words[i] == 0,
            calls::one_by_one(words, self.bits(), calls),
            forall|i: int|
                0 <= i < calls.len() ==> !calls::upserts_row(
                    #[trigger] calls[i],
                    self.bits(),
                    calls[i].of(),
                ),
        ensures
            calls::left_by(words, self.bits(), calls) == words,
            claimed(calls::left_by(words, self.bits(), calls), self.values()).len() == 0,
    {
        let bits = self.bits();
        let left = calls::left_by(words, bits, calls);
        slots::law_an_empty_table_is_reachable(words, bits, 1);
        calls::law_calls_only_add(words, bits, calls, 0);
        assert(calls.take(0) =~= Seq::empty());
        assert forall|slot: int| 0 <= slot < left.len() implies left[slot] == 0 by {
            let key = left[slot];
            if key != 0 {
                assert(left.contains(key));
                calls::law_a_key_is_there_once_it_was_upserted(words, bits, calls, key);
                let i = choose|i: int|
                    0 <= i < calls.len() && calls::upserts_row(#[trigger] calls[i], bits, key);
                assert(calls[i].of() == key);
            }
        }
        assert(left =~= words);
        lemma_nothing_claimed(words, self.values());
    }

    /// Of calls that come one after the other, none makes the number of rows smaller, and it is
    /// never above the number of slots.
    pub proof fn law_the_length_never_falls(
        self,
        words: Seq<usize>,
        calls: Seq<Call>,
        before: int,
    )
        requires
            self.wf(),
            slots::reachable(words, self.bits()),
            calls::one_by_one(words, self.bits(), calls),
            0 <= before <= calls.len(),
        ensures
            claimed(
                calls::left_by(words, self.bits(), calls.take(before)),
                self.values(),
            ).len() <= claimed(
                calls::left_by(words, self.bits(), calls),
                self.values(),
            ).len() <= self.values().len(),
    {
        calls::law_calls_only_add(words, self.bits(), calls, before);
        law_rows_are_never_lost(
            calls::left_by(words, self.bits(), calls.take(before)),
            calls::left_by(words, self.bits(), calls),
            self.values(),
        );
    }
}

proof fn lemma_nothing_claimed<V>(words: Seq<usize>, values: Seq<V>)
    requires
        forall|i: int| 0 <= i < words.len() ==> words[i] == 0,
    ensures
        claimed(words, values).len() == 0,
    decreases words.len(),
{
    if words.len() > 0 {
        lemma_nothing_claimed(words.drop_last(), values);
    }
}

/// There is an empty slot exactly where fewer rows are claimed than there are slots.
pub proof fn law_a_free_slot_is_an_unclaimed_row<V>(words: Seq<usize>, values: Seq<V>)
    ensures
        words.contains(0) <==> claimed(words, values).len() < words.len(),
    decreases words.len(),
{
    law_claimed_rows_have_keys(words, values);
    if words.len() > 0 {
        let fewer = words.drop_last();
        law_a_free_slot_is_an_unclaimed_row(fewer, values);
        law_claimed_rows_have_keys(fewer, values);
        if fewer.contains(0) {
            let i = choose|i: int| 0 <= i < fewer.len() && fewer[i] == 0;
            assert(words[i] == 0);
        }
        if words.last() == 0 {
            assert(words[words.len() - 1] == 0);
        }
        if words.contains(0) && words.last() != 0 {
            let i = choose|i: int| 0 <= i < words.len() && words[i] == 0;
            assert(fewer[i] == 0);
        }
    }
}

/// The number of rows never falls: claims are all that ever happens to a slot. A claim of an empty
/// slot adds one row.
pub proof fn law_rows_are_never_lost<V>(before: Seq<usize>, after: Seq<usize>, values: Seq<V>)
    requires
        slots::grown(before, after),
    ensures
        claimed(before, values).len() <= claimed(after, values).len() <= after.len(),
        forall|i: int|
            0 <= i < claimed(before, values).len() ==> claimed(after, values).contains(
                #[trigger] claimed(before, values)[i],
            ),
    decreases before.len(),
{
    law_claimed_rows_have_keys(after, values);
    if before.len() > 0 {
        let was = before.drop_last();
        let now = after.drop_last();
        assert(slots::grown(was, now)) by {
            assert forall|slot: int| 0 <= slot < was.len() && was[slot] != 0 implies (
            #[trigger] now[slot]) == was[slot] by {
                assert(after[slot] == before[slot]);
            }
        }
        law_rows_are_never_lost(was, now, values);
        assert(before.last() != 0 ==> after[after.len() - 1] == before.last());
        assert forall|i: int| 0 <= i < claimed(before, values).len() implies claimed(
            after,
            values,
        ).contains(#[trigger] claimed(before, values)[i]) by {
            let row = claimed(before, values)[i];
            if i < claimed(was, values).len() {
                assert(row == claimed(was, values)[i]);
                let j = choose|j: int| 0 <= j < claimed(now, values).len() && claimed(
                    now,
                    values,
                )[j] == row;
                assert(claimed(after, values)[j] == row);
            } else {
                assert(claimed(after, values).last() == row);
            }
        }
    }
}

/// An upsert adds one row where its key had none and there was a slot for it, and adds none
/// otherwise.
pub proof fn law_an_upsert_adds_at_most_one_row<V>(
    words: Seq<usize>,
    bits: nat,
    key: usize,
    values: Seq<V>,
)
    requires
        slots::reachable(words, bits),
        key != 0,
    ensures
        claimed(slots::upserted(words, bits, key), values).len() == claimed(words, values).len()
            + if slots::slot_for(words, bits, key) is Some && !words.contains(key) {
            1int
        } else {
            0
        },
{
    slots::law_an_upsert_adds_one_key(words, bits, key);
    if let Some(slot) = slots::slot_for(words, bits, key) {
        if words.contains(key) {
        } else {
            if words[slot] == key {
                assert(words.contains(key));
            }
            lemma_one_more_claimed(words, slot, key, values);
        }
    }
}

proof fn lemma_one_more_claimed<V>(words: Seq<usize>, slot: int, key: usize, values: Seq<V>)
    requires
        0 <= slot < words.len(),
        words[slot] == 0,
        key != 0,
    ensures
        claimed(words.update(slot, key), values).len() == claimed(words, values).len() + 1,
    decreases words.len(),
{
    let after = words.update(slot, key);
    if slot == words.len() - 1 {
        assert(after.drop_last() =~= words.drop_last());
    } else {
        assert(after.drop_last() =~= words.drop_last().update(slot, key));
        lemma_one_more_claimed(words.drop_last(), slot, key, values);
    }
}

} // verus!
