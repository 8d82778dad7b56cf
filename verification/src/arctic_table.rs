//! Ordered rows with an Arctic index of row positions.

use vstd::prelude::*;

use crate::keys::WordKey;
use crate::rows::{self, InsertError};
use crate::text;

verus! {

/// An Arctic map from words to row positions.
#[verifier::external_body]
pub struct ArcticIndex {
    map: arctic::ConcurrentMap<u64, u64>,
}

/// What an Arctic map holds.
pub uninterp spec fn arctic_rows(index: ArcticIndex) -> Map<u64, u64>;

/// `arctic::ConcurrentMap::default`: a map that holds nothing.
#[verifier::external_body]
fn arctic_new() -> (index: ArcticIndex)
    ensures
        (arctic_rows(index) == Map::<u64, u64>::empty()),
{
    ArcticIndex { map: arctic::ConcurrentMap::default() }
}

/// `arctic::ConcurrentMap::insert`: associates the key where it has no value
/// yet and succeeds; fails and changes nothing where it has one.
#[verifier::external_body]
fn arctic_insert(index: &mut ArcticIndex, key: u64, row: u64) -> (fresh: bool)
    ensures
        fresh == !arctic_rows(*old(index)).contains_key(key),
        fresh ==> arctic_rows(*final(index)) == arctic_rows(*old(index)).insert(key, row),
        !fresh ==> arctic_rows(*final(index)) == arctic_rows(*old(index)),
{
    index.map.insert(key, row).is_ok()
}

/// `arctic::ConcurrentMap::get`: the value associated with the key, if any.
#[verifier::external_body]
fn arctic_get(index: &ArcticIndex, key: u64) -> (row: Option<u64>)
    ensures
        row == (if arctic_rows(*index).contains_key(key) {
            Some(arctic_rows(*index)[key])
        } else {
            None
        }),
{
    index.map.get(&key).map(|row| *row)
}

/// Ordered `Vec` storage indexed by Arctic row offsets.
///
/// The row payload stays byte-for-byte the same as
/// [`IndexedTable`](crate::indexed::IndexedTable)'s. Arctic holds only the
/// key's word and a `u64` row offset, so an A/B attributes the difference to
/// the index rather than to a different row representation.
pub struct ArcticTable<K: WordKey, V> {
    rows: Vec<(K, V)>,
    primary: ArcticIndex,
}

impl<K: WordKey, V> View for ArcticTable<K, V> {
    type V = Seq<(K, V)>;

    closed spec fn view(&self) -> Seq<(K, V)> {
        self.rows@
    }
}

impl<K: WordKey, V> ArcticTable<K, V> {
    /// The index has every row, at its position, and nothing else.
    pub closed spec fn wf(self) -> bool {
        let index = arctic_rows(self.primary);
        &&& forall|i: int|
            0 <= i < self.rows@.len() ==> index.contains_key((#[trigger] self.rows@[i]).0.word())
                && index[self.rows@[i].0.word()] == i
        &&& forall|word: u64| #[trigger]
            index.contains_key(word) ==> index[word] < self.rows@.len()
                && self.rows@[index[word] as int].0.word() == word
    }

    /// An index without disagreement is an index of distinct keys.
    pub proof fn law_keys_are_distinct(self)
        requires
            self.wf(),
        ensures
            rows::distinct_keys(self@),
    {
    }

    proof fn lemma_index_finds_first_row(self, key: K)
        requires
            self.wf(),
        ensures
            rows::row_of(self@, key) == (if arctic_rows(self.primary).contains_key(key.word()) {
                Some(arctic_rows(self.primary)[key.word()] as int)
            } else {
                None
            }),
    {
        rows::lemma_first_match(self@, |present: K| present == key);
        let index = arctic_rows(self.primary);
        if index.contains_key(key.word()) {
            K::words_tell_keys_apart(self@[index[key.word()] as int].0, key);
        }
    }

    /// A table without rows.
    pub fn new() -> (table: Self)
        ensures
            table.wf(),
            table@ == Seq::<(K, V)>::empty(),
    {
        ArcticTable { rows: Vec::new(), primary: arctic_new() }
    }

    /// A table without rows, with room for `capacity` of them.
    pub fn with_capacity(capacity: usize) -> (table: Self)
        ensures
            table.wf(),
            table@ == Seq::<(K, V)>::empty(),
    {
        ArcticTable { rows: Vec::with_capacity(capacity), primary: arctic_new() }
    }

    /// Append a row, unless its key is there already.
    ///
    /// # Errors
    ///
    /// The key of a row that is there already is handed back.
    pub fn insert(&mut self, key: K, value: V) -> (outcome: Result<usize, InsertError<K>>)
        requires
            old(self).wf(),
        ensures
            final(self).wf(),
            rows::inserted(
                old(self)@,
                final(self)@,
                rows::row_of(old(self)@, key),
                key,
                value,
                outcome,
            ),
    {
        proof {
            self.lemma_index_finds_first_row(key);
        }
        let row: usize = self.rows.len();
        if !arctic_insert(&mut self.primary, key.to_word(), row as u64) {
            return Err(InsertError::DuplicateKey(key));
        }
        self.rows.push((key, value));
        Ok(row)
    }

    /// The value of the row with this key.
    pub fn select(&self, key: &K) -> (value: Option<&V>)
        requires
            self.wf(),
        ensures
            rows::selected(self@, rows::row_of(self@, *key), value),
    {
        proof {
            self.lemma_index_finds_first_row(*key);
        }
        match arctic_get(&self.primary, key.to_word()) {
            Some(row) => {
                if (row as usize) < self.rows.len() {
                    Some(&self.rows[row as usize].1)
                } else {
                    None
                }
            },
            None => None,
        }
    }

    /// The rows.
    pub fn rows(&self) -> (rows: &[(K, V)])
        ensures
            rows@ == self@,
    {
        self.rows.as_slice()
    }

    /// How many rows there are.
    pub fn len(&self) -> (len: usize)
        ensures
            len == self@.len(),
    {
        self.rows.len()
    }

    /// Whether there are no rows.
    pub fn is_empty(&self) -> (empty: bool)
        ensures
            empty == (self@.len() == 0),
    {
        self.rows.len() == 0
    }

    /// The table as a developer sees it: how many rows, and none of them.
    pub fn debug_text(&self) -> (text: String)
        ensures
            text@ == text::table_text("ArcticTable"@, self@.len()),
    {
        text::show_table("ArcticTable", self.rows.len())
    }
}

impl<K: WordKey, V> Default for ArcticTable<K, V> {
    fn default() -> (table: Self)
        ensures
            table.wf(),
            table@ == Seq::<(K, V)>::empty(),
    {
        ArcticTable::new()
    }
}

} // verus!
