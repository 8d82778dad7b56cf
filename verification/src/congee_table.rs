//! Ordered rows with a Congee index of row positions.

use vstd::prelude::*;

use crate::keys::UsizeKey;
use crate::rows::{self, InsertError};
use crate::text;

verus! {

/// `congee::CongeeArc`: the index, taken as it is.
#[verifier::external_type_specification]
#[verifier::external_body]
#[verifier::reject_recursive_types(K)]
#[verifier::reject_recursive_types(V)]
pub struct ExCongeeArc<K: From<usize> + Copy, V: Sync + Send + 'static>(
    congee::CongeeArc<K, V>,
) where usize: From<K>;

/// What a Congee index holds.
pub uninterp spec fn congee_rows(index: congee::CongeeArc<usize, usize>) -> Map<usize, usize>;

/// What became of an insert into the index.
#[derive(Clone, Copy, Debug, PartialEq, Eq, Structural)]
pub enum Stored {
    /// The key is new to the index.
    New,
    /// The key was there, and its row offset was replaced.
    Replaced,
    /// There was no memory for the key, and the index is as it was.
    OutOfMemory,
}

/// `congee::CongeeArc::new`: an index that holds nothing.
#[verifier::external_body]
fn congee_new() -> (index: congee::CongeeArc<usize, usize>)
    ensures
        (congee_rows(index) == Map::<usize, usize>::empty()),
{
    congee::CongeeArc::new()
}

/// `congee::CongeeArc::insert`: the key gets the value, and what it had before
/// is handed back; or memory ran out and nothing changed. When memory runs out
/// is not stated: it is up to the machine.
#[verifier::external_body]
fn congee_insert(
    index: &mut congee::CongeeArc<usize, usize>,
    key: usize,
    row: usize,
) -> (stored: Stored)
    ensures
        stored is New ==> !congee_rows(*old(index)).contains_key(key),
        stored is Replaced ==> congee_rows(*old(index)).contains_key(key),
        stored is New || stored is Replaced ==> congee_rows(*final(index)) == congee_rows(
            *old(index),
        ).insert(key, row),
        stored is OutOfMemory ==> congee_rows(*final(index)) == congee_rows(*old(index)),
{
    let guard = index.pin();
    match index.insert(key, std::sync::Arc::new(row), &guard) {
        Ok(None) => Stored::New,
        Ok(Some(_)) => Stored::Replaced,
        Err(_) => Stored::OutOfMemory,
    }
}

/// `congee::CongeeArc::get`: the value of the key, if it has one.
#[verifier::external_body]
fn congee_get(index: &congee::CongeeArc<usize, usize>, key: usize) -> (row: Option<usize>)
    ensures
        row == (if congee_rows(*index).contains_key(key) {
            Some(congee_rows(*index)[key])
        } else {
            None
        }),
{
    let guard = index.pin();
    index.get(key, &guard).map(|row| *row)
}

/// What an insert does to the rows, once it is known what became of the key in
/// the index.
pub fn settle<K, V>(rows: &mut Vec<(K, V)>, key: K, value: V, stored: Stored) -> (outcome: Result<
    usize,
    InsertError<K>,
>)
    ensures
        match stored {
            Stored::New => rows::inserted(old(rows)@, final(rows)@, None, key, value, outcome),
            Stored::Replaced => final(rows)@ == old(rows)@ && outcome == Err::<
                usize,
                InsertError<K>,
            >(InsertError::DuplicateKey(key)),
            Stored::OutOfMemory => final(rows)@ == old(rows)@ && outcome == Err::<
                usize,
                InsertError<K>,
            >(InsertError::OutOfMemory(key)),
        },
{
    match stored {
        Stored::New => {
            let row: usize = rows.len();
            rows.push((key, value));
            Ok(row)
        },
        Stored::Replaced => Err(InsertError::DuplicateKey(key)),
        Stored::OutOfMemory => Err(InsertError::OutOfMemory(key)),
    }
}

/// Ordered `Vec` storage indexed by Congee row offsets.
///
/// Congee's public key API is fixed-width: `K` must be copyable and stand for
/// one `usize`. The row payload remains in the Vec; Congee stores only the row
/// offset.
pub struct CongeeTable<K: UsizeKey, V> {
    rows: Vec<(K, V)>,
    primary: congee::CongeeArc<usize, usize>,
}

impl<K: UsizeKey, V> View for CongeeTable<K, V> {
    type V = Seq<(K, V)>;

    closed spec fn view(&self) -> Seq<(K, V)> {
        self.rows@
    }
}

impl<K: UsizeKey, V> CongeeTable<K, V> {
    /// The index has every row, at its position, and nothing else.
    pub closed spec fn wf(self) -> bool {
        let index = congee_rows(self.primary);
        &&& forall|i: int|
            0 <= i < self.rows@.len() ==> index.contains_key((#[trigger] self.rows@[i]).0.number())
                && index[self.rows@[i].0.number()] == i
        &&& forall|word: usize| #[trigger]
            index.contains_key(word) ==> index[word] < self.rows@.len()
                && self.rows@[index[word] as int].0.number() == word
    }

    /// An index without disagreement is an index of distinct keys.
    pub proof fn law_keys_are_distinct(self)
        requires
            self.wf(),
        ensures
            rows::distinct_keys(self@),
    {
    }

    proof fn lemma_index_finds_first_row(self, key: K)
        requires
            self.wf(),
        ensures
            rows::row_of(self@, key) == (if congee_rows(self.primary).contains_key(key.number()) {
                Some(congee_rows(self.primary)[key.number()] as int)
            } else {
                None
            }),
    {
        rows::lemma_first_match(self@, |present: K| present == key);
        let index = congee_rows(self.primary);
        if index.contains_key(key.number()) {
            K::numbers_tell_keys_apart(self@[index[key.number()] as int].0, key);
        }
    }

    /// A table without rows.
    pub fn new() -> (table: Self)
        ensures
            table.wf(),
            table@ == Seq::<(K, V)>::empty(),
    {
        CongeeTable { rows: Vec::new(), primary: congee_new() }
    }

    /// A table without rows, with room for `capacity` of them.
    pub fn with_capacity(capacity: usize) -> (table: Self)
        ensures
            table.wf(),
            table@ == Seq::<(K, V)>::empty(),
    {
        CongeeTable { rows: Vec::with_capacity(capacity), primary: congee_new() }
    }

    /// Append a row, unless its key is there already.
    ///
    /// # Errors
    ///
    /// The key of a row that is there already is handed back, and so is a key
    /// that the index has no memory for.
    pub fn insert(&mut self, key: K, value: V) -> (outcome: Result<usize, InsertError<K>>)
        requires
            old(self).wf(),
        ensures
            final(self).wf(),
            rows::row_of(old(self)@, key) is Some ==> rows::inserted(
                old(self)@,
                final(self)@,
                rows::row_of(old(self)@, key),
                key,
                value,
                outcome,
            ),
            rows::row_of(old(self)@, key) is None ==> {
                ||| rows::inserted(old(self)@, final(self)@, None, key, value, outcome)
                ||| final(self)@ == old(self)@ && outcome == Err::<usize, InsertError<K>>(
                    InsertError::OutOfMemory(key),
                )
            },
    {
        proof {
            self.lemma_index_finds_first_row(key);
        }
        let number: usize = key.to_number();
        if congee_get(&self.primary, number).is_some() {
            return Err(InsertError::DuplicateKey(key));
        }
        let row: usize = self.rows.len();
        let stored = congee_insert(&mut self.primary, number, row);
        settle(&mut self.rows, key, value, stored)
    }

    /// The value of the row with this key.
    pub fn select(&self, key: K) -> (value: Option<&V>)
        requires
            self.wf(),
        ensures
            rows::selected(self@, rows::row_of(self@, key), value),
    {
        proof {
            self.lemma_index_finds_first_row(key);
        }
        match congee_get(&self.primary, key.to_number()) {
            Some(row) => Some(&self.rows[row].1),
            None => None,
        }
    }

    /// The rows.
    pub fn rows(&self) -> (rows: &[(K, V)])
        ensures
            rows@ == self@,
    {
        self.rows.as_slice()
    }

    /// How many rows there are.
    pub fn len(&self) -> (len: usize)
        ensures
            len == self@.len(),
    {
        self.rows.len()
    }

    /// Whether there are no rows.
    pub fn is_empty(&self) -> (empty: bool)
        ensures
            empty == (self@.len() == 0),
    {
        self.rows.len() == 0
    }

    /// The table as a developer sees it: how many rows, and none of them.
    pub fn debug_text(&self) -> (text: String)
        ensures
            text@ == text::table_text("CongeeTable"@, self@.len()),
    {
        text::show_table("CongeeTable", self.rows.len())
    }
}

impl<K: UsizeKey, V> Default for CongeeTable<K, V> {
    fn default() -> (table: Self)
        ensures
            table.wf(),
            table@ == Seq::<(K, V)>::empty(),
    {
        CongeeTable::new()
    }
}

} // verus!
