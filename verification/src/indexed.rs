//! Ordered rows with a `BTreeMap` of row positions.

use std::collections::BTreeMap;

use vstd::prelude::*;

use crate::rows::{self, InsertError};

verus! {

/// Ordered `Vec` storage with a separately maintained ordered primary index.
///
/// Values remain in insertion order; the map contains only key-to-row
/// positions. This is the common application-level `Vec + BTreeMap` pattern,
/// made explicit so its build/query/memory cost can be measured honestly.
#[derive(Debug, PartialEq, Eq)]
pub struct IndexedTable<K, V> {
    rows: Vec<(K, V)>,
    primary: BTreeMap<K, usize>,
}

/// Whether a key type orders lawfully and clones to itself, which is what an
/// ordered index takes for granted. Nothing is promised of keys that do not.
pub open spec fn lawful_key<K: Clone + Ord>() -> bool {
    &&& vstd::laws_cmp::obeys_cmp::<K>()
    &&& forall|a: K, b: K| #[trigger] cloned(a, b) ==> a == b
}

impl<K, V> View for IndexedTable<K, V> {
    type V = Seq<(K, V)>;

    closed spec fn view(&self) -> Seq<(K, V)> {
        self.rows@
    }
}

impl<K, V> IndexedTable<K, V> where K: Clone + Ord {
    /// The index has every row, at its position, and nothing else.
    pub closed spec fn wf(self) -> bool {
        lawful_key::<K>() ==> {
            &&& forall|i: int|
                0 <= i < self.rows@.len() ==> self.primary@.contains_key(
                    (#[trigger] self.rows@[i]).0,
                ) && self.primary@[self.rows@[i].0] == i
            &&& forall|key: K| #[trigger]
                self.primary@.contains_key(key) ==> self.primary@[key] < self.rows@.len()
                    && self.rows@[self.primary@[key] as int].0 == key
        }
    }

    /// An index without disagreement is an index of distinct keys.
    pub proof fn law_keys_are_distinct(self)
        requires
            self.wf(),
            lawful_key::<K>(),
        ensures
            rows::distinct_keys(self@),
    {
    }

    proof fn lemma_index_finds_first_row(self, key: K)
        requires
            self.wf(),
            lawful_key::<K>(),
        ensures
            rows::row_of(self@, key) == (if self.primary@.contains_key(key) {
                Some(self.primary@[key] as int)
            } else {
                None
            }),
    {
        rows::lemma_first_match(self@, |present: K| present == key);
    }

    /// A table without rows.
    pub fn new() -> (table: Self)
        ensures
            table.wf(),
            table@ == Seq::<(K, V)>::empty(),
    {
        IndexedTable { rows: Vec::new(), primary: BTreeMap::new() }
    }

    /// A table without rows, with room for `capacity` of them.
    pub fn with_capacity(capacity: usize) -> (table: Self)
        ensures
            table.wf(),
            table@ == Seq::<(K, V)>::empty(),
    {
        IndexedTable { rows: Vec::with_capacity(capacity), primary: BTreeMap::new() }
    }

    /// Append a row, unless its key is there already.
    ///
    /// # Errors
    ///
    /// The key of a row that is there already is handed back.
    pub fn insert(&mut self, key: K, value: V) -> (outcome: Result<usize, InsertError<K>>)
        requires
            old(self).wf(),
        ensures
            final(self).wf(),
            lawful_key::<K>() ==> rows::inserted(
                old(self)@,
                final(self)@,
                rows::row_of(old(self)@, key),
                key,
                value,
                outcome,
            ),
            outcome matches Ok(row) ==> row == old(self)@.len() && final(self)@.len()
                == old(self)@.len() + 1 && old(self)@.is_prefix_of(final(self)@)
                && final(self)@[row as int].1 == value,
            outcome matches Err(error) ==> error == InsertError::DuplicateKey(key)
                && final(self)@ == old(self)@,
    {
        proof {
            if lawful_key::<K>() {
                self.lemma_index_finds_first_row(key);
            }
        }
        if self.primary.contains_key(&key) {
            return Err(InsertError::DuplicateKey(key));
        }
        let row: usize = self.rows.len();
        let kept = key.clone();
        assert(cloned(key, kept));
        self.rows.push((kept, value));
        self.primary.insert(key, row);
        Ok(row)
    }

    /// The value of the row with this key.
    pub fn select(&self, key: &K) -> (value: Option<&V>)
        requires
            self.wf(),
        ensures
            lawful_key::<K>() ==> rows::selected(self@, rows::row_of(self@, *key), value),
            value matches Some(found) ==> exists|i: int|
                0 <= i < self@.len() && *found == (#[trigger] self@[i]).1,
    {
        proof {
            if lawful_key::<K>() {
                self.lemma_index_finds_first_row(*key);
            }
        }
        match self.primary.get(key) {
            Some(row) => {
                if *row < self.rows.len() {
                    Some(&self.rows[*row].1)
                } else {
                    None
                }
            },
            None => None,
        }
    }

    /// A table of these rows. Of rows with the same key the first one stays.
    pub fn from_rows(rows: Vec<(K, V)>) -> (table: Self)
        ensures
            table.wf(),
            lawful_key::<K>() ==> table@ == rows::first_of_each_key(rows@),
    {
        let mut table: Self = IndexedTable::with_capacity(rows.len());
        let ghost all = rows@;
        for row in iter: rows
            invariant
                table.wf(),
                iter.seq() == all,
                lawful_key::<K>() ==> table@ == rows::first_of_each_key(all.take(iter.index())),
        {
            let (key, value) = row;
            let ghost next = all.take(iter.index() + 1);
            assert(next.drop_last() =~= all.take(iter.index()));
            let _ = table.insert(key, value);
        }
        assert(all.take(all.len() as int) =~= all);
        table
    }

    /// The rows.
    pub fn rows(&self) -> (rows: &[(K, V)])
        ensures
            rows@ == self@,
    {
        self.rows.as_slice()
    }

    /// How many rows there are.
    pub fn len(&self) -> (len: usize)
        ensures
            len == self@.len(),
    {
        self.rows.len()
    }

    /// Whether there are no rows.
    pub fn is_empty(&self) -> (empty: bool)
        ensures
            empty == (self@.len() == 0),
    {
        self.rows.len() == 0
    }
}

impl<K: Clone + Ord, V: Clone> Clone for IndexedTable<K, V> {
    fn clone(&self) -> (table: Self)
        ensures
            self.wf() ==> table.wf(),
            rows::rows_cloned(self@, table@),
    {
        let table = IndexedTable {
            rows: rows::clone_rows(&self.rows),
            primary: self.primary.clone(),
        };
        proof {
            assert forall|i: int| lawful_key::<K>() && 0 <= i < self@.len() implies (
            #[trigger] table.rows@[i]).0 == self.rows@[i].0 by {
                assert(cloned(self@[i].0, table@[i].0));
            }
        }
        table
    }
}

impl<K, V> Default for IndexedTable<K, V> where K: Clone + Ord {
    fn default() -> (table: Self)
        ensures
            table.wf(),
            table@ == Seq::<(K, V)>::empty(),
    {
        IndexedTable::new()
    }
}

} // verus!
