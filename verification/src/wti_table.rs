//! Ordered rows with a WorkTablesIndex index of row positions.

use vstd::prelude::*;

use crate::keys::WordKey;
use crate::rows::{self, InsertError};
use crate::text;

verus! {

/// A WorkTablesIndex map from words to row positions.
#[verifier::external_body]
pub struct WtiIndex {
    map: indexset::concurrent::map::BTreeMap<u64, usize>,
}

/// What a WorkTablesIndex map holds.
pub uninterp spec fn wti_rows(index: WtiIndex) -> Map<u64, usize>;

/// `indexset::concurrent::map::BTreeMap::new`: a map that holds nothing.
#[verifier::external_body]
fn wti_new() -> (index: WtiIndex)
    ensures
        (wti_rows(index) == Map::<u64, usize>::empty()),
{
    WtiIndex { map: indexset::concurrent::map::BTreeMap::new() }
}

/// `indexset::concurrent::map::BTreeMap::checked_insert`: a key that is not
/// there is inserted, and that succeeds. A key that is there is refused and
/// nothing changes, unless its node is full: the insert then splits the node,
/// puts the new value in the place of the old one and reports success.
#[verifier::external_body]
fn wti_checked_insert(index: &mut WtiIndex, key: u64, row: usize) -> (done: Option<()>)
    ensures
        !wti_rows(*old(index)).contains_key(key) ==> done is Some,
        done is Some ==> wti_rows(*final(index)) == wti_rows(*old(index)).insert(key, row),
        done is None ==> wti_rows(*final(index)) == wti_rows(*old(index)),
{
    index.map.checked_insert(key, row)
}

/// `indexset::concurrent::map::BTreeMap::lookup_for_select`: the value of the
/// key, if it is there.
#[verifier::external_body]
fn wti_lookup(index: &WtiIndex, key: u64) -> (row: Option<usize>)
    ensures
        row == (if wti_rows(*index).contains_key(key) {
            Some(wti_rows(*index)[key])
        } else {
            None
        }),
{
    index.map.lookup_for_select(&key)
}

/// Ordered `Vec` storage indexed by WorkTablesIndex row offsets.
///
/// The row payload remains in the Vec. The index stores only the key's word
/// and the row offset.
pub struct WtiTable<K: WordKey, V> {
    rows: Vec<(K, V)>,
    primary: WtiIndex,
}

impl<K: WordKey, V> View for WtiTable<K, V> {
    type V = Seq<(K, V)>;

    closed spec fn view(&self) -> Seq<(K, V)> {
        self.rows@
    }
}

impl<K: WordKey, V> WtiTable<K, V> {
    /// The index has every row, at its position, and nothing else.
    pub closed spec fn wf(self) -> bool {
        let index = wti_rows(self.primary);
        &&& forall|i: int|
            0 <= i < self.rows@.len() ==> index.contains_key((#[trigger] self.rows@[i]).0.word())
                && index[self.rows@[i].0.word()] == i
        &&& forall|word: u64| #[trigger]
            index.contains_key(word) ==> index[word] < self.rows@.len()
                && self.rows@[index[word] as int].0.word() == word
    }

    /// An index without disagreement is an index of distinct keys.
    pub proof fn law_keys_are_distinct(self)
        requires
            self.wf(),
        ensures
            rows::distinct_keys(self@),
    {
    }

    proof fn lemma_index_finds_first_row(self, key: K)
        requires
            self.wf(),
        ensures
            rows::row_of(self@, key) == (if wti_rows(self.primary).contains_key(key.word()) {
                Some(wti_rows(self.primary)[key.word()] as int)
            } else {
                None
            }),
    {
        rows::lemma_first_match(self@, |present: K| present == key);
        let index = wti_rows(self.primary);
        if index.contains_key(key.word()) {
            K::words_tell_keys_apart(self@[index[key.word()] as int].0, key);
        }
    }

    /// A table without rows.
    pub fn new() -> (table: Self)
        ensures
            table.wf(),
            table@ == Seq::<(K, V)>::empty(),
    {
        WtiTable { rows: Vec::new(), primary: wti_new() }
    }

    /// A table without rows, with room for `capacity` of them.
    pub fn with_capacity(capacity: usize) -> (table: Self)
        ensures
            table.wf(),
            table@ == Seq::<(K, V)>::empty(),
    {
        WtiTable { rows: Vec::with_capacity(capacity), primary: wti_new() }
    }

    /// Append a row, unless its key is there already.
    ///
    /// # Errors
    ///
    /// The key of a row that is there already is handed back.
    pub fn insert(&mut self, key: K, value: V) -> (outcome: Result<usize, InsertError<K>>)
        requires
            old(self).wf(),
        ensures
            final(self).wf(),
            rows::inserted(
                old(self)@,
                final(self)@,
                rows::row_of(old(self)@, key),
                key,
                value,
                outcome,
            ),
    {
        proof {
            self.lemma_index_finds_first_row(key);
        }
        let word: u64 = key.to_word();
        // An insert of a key that is there may replace its row offset, so the
        // key is looked up first.
        if wti_lookup(&self.primary, word).is_some() {
            return Err(InsertError::DuplicateKey(key));
        }
        let row: usize = self.rows.len();
        if wti_checked_insert(&mut self.primary, word, row).is_none() {
            return Err(InsertError::DuplicateKey(key));
        }
        self.rows.push((key, value));
        Ok(row)
    }

    /// The value of the row with this key.
    pub fn select(&self, key: &K) -> (value: Option<&V>)
        requires
            self.wf(),
        ensures
            rows::selected(self@, rows::row_of(self@, *key), value),
    {
        proof {
            self.lemma_index_finds_first_row(*key);
        }
        match wti_lookup(&self.primary, key.to_word()) {
            Some(row) => Some(&self.rows[row].1),
            None => None,
        }
    }

    /// The rows.
    pub fn rows(&self) -> (rows: &[(K, V)])
        ensures
            rows@ == self@,
    {
        self.rows.as_slice()
    }

    /// How many rows there are.
    pub fn len(&self) -> (len: usize)
        ensures
            len == self@.len(),
    {
        self.rows.len()
    }

    /// Whether there are no rows.
    pub fn is_empty(&self) -> (empty: bool)
        ensures
            empty == (self@.len() == 0),
    {
        self.rows.len() == 0
    }

    /// The table as a developer sees it: how many rows, and none of them.
    pub fn debug_text(&self) -> (text: String)
        ensures
            text@ == text::table_text("WtiTable"@, self@.len()),
    {
        text::show_table("WtiTable", self.rows.len())
    }
}

impl<K: WordKey, V> Default for WtiTable<K, V> {
    fn default() -> (table: Self)
        ensures
            table.wf(),
            table@ == Seq::<(K, V)>::empty(),
    {
        WtiTable::new()
    }
}

} // verus!
