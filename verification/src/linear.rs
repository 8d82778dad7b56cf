//! Ordered rows with linear point lookup.

use vstd::prelude::*;
use vstd::std_specs::cmp::PartialEqSpec;
use vstd::std_specs::convert::FromSpecImpl;
use vstd::std_specs::iter::IteratorSpec;

use crate::rows::{self, InsertError};

verus! {

/// Ordered rows with the same linear point lookup used by an unindexed
/// application `Vec`.
#[derive(Debug, PartialEq, Eq)]
pub struct LinearTable<K, V> {
    rows: Vec<(K, V)>,
}

/// A name for [`LinearTable`] that emphasizes its exact Vec-backed shape.
pub type VecTable<K, V> = LinearTable<K, V>;

/// `core::slice::IterMut`: the iterator that [`LinearTable::iter_mut`] hands
/// out, taken as it is.
#[verifier::external_type_specification]
#[verifier::external_body]
#[verifier::reject_recursive_types(T)]
pub struct ExIterMut<'a, T: 'a>(core::slice::IterMut<'a, T>);

/// `<[T]>::iter_mut` of core: an iterator over references to all the elements,
/// from the first to the last, and then none. What an element ends up as is what
/// its reference ends up pointing to, and the number of elements does not change.
#[verifier::external_body]
fn slice_iter_mut<T>(rows: &mut [T]) -> (iter: core::slice::IterMut<'_, T>)
    ensures
        IteratorSpec::obeys_prophetic_iter_laws(&iter),
        IteratorSpec::will_return_none(&iter),
        IteratorSpec::decrease(&iter) is Some,
        IteratorSpec::remaining(&iter).len() == old(rows)@.len(),
        forall|i: int|
            0 <= i < old(rows)@.len() ==> *(#[trigger] IteratorSpec::remaining(&iter)[i])
                == old(rows)@[i],
        final(rows)@.len() == old(rows)@.len(),
        forall|i: int|
            0 <= i < old(rows)@.len() ==> #[trigger] final(rows)@[i]
                == *final(IteratorSpec::remaining(&iter)[i]),
{
    rows.iter_mut()
}

/// `Vec::capacity` of std: never less than the length.
#[verifier::external_body]
fn vec_capacity<T>(rows: &Vec<T>) -> (capacity: usize)
    ensures
        capacity >= rows@.len(),
{
    rows.capacity()
}

impl<K, V> View for LinearTable<K, V> {
    type V = Seq<(K, V)>;

    closed spec fn view(&self) -> Seq<(K, V)> {
        self.rows@
    }
}

impl<K, V> LinearTable<K, V> {
    /// A table without rows.
    pub fn new() -> (table: Self)
        ensures
            table@ == Seq::<(K, V)>::empty(),
    {
        LinearTable { rows: Vec::new() }
    }

    /// A table without rows, with room for `capacity` of them.
    pub fn with_capacity(capacity: usize) -> (table: Self)
        ensures
            table@ == Seq::<(K, V)>::empty(),
    {
        LinearTable { rows: Vec::with_capacity(capacity) }
    }

    /// Append without checking key uniqueness, with the same amortized O(1)
    /// behavior as [`Vec::push`].
    pub fn push(&mut self, key: K, value: V) -> (row: usize)
        ensures
            row == old(self)@.len(),
            final(self)@ == old(self)@.push((key, value)),
    {
        let row: usize = self.rows.len();
        self.rows.push((key, value));
        row
    }

    /// The row at this position.
    pub fn get_row(&self, row: usize) -> (found: Option<&(K, V)>)
        ensures
            found == (if row < self@.len() {
                Some(&self@[row as int])
            } else {
                None
            }),
    {
        if row < self.rows.len() {
            Some(&self.rows[row])
        } else {
            None
        }
    }

    /// The row at this position, to change in place.
    pub fn get_row_mut(&mut self, row: usize) -> (found: Option<&mut (K, V)>)
        ensures
            row < old(self)@.len() ==> {
                &&& found matches Some(place)
                &&& *place == old(self)@[row as int]
                &&& final(self)@ == old(self)@.update(row as int, *final(place))
            },
            row >= old(self)@.len() ==> found is None && final(self)@ == old(self)@,
    {
        if row < self.rows.len() {
            Some(&mut self.rows[row])
        } else {
            None
        }
    }

    /// The rows.
    pub fn as_slice(&self) -> (rows: &[(K, V)])
        ensures
            rows@ == self@,
    {
        self.rows.as_slice()
    }

    /// The rows, to change in place.
    pub fn as_mut_slice(&mut self) -> (rows: &mut [(K, V)])
        ensures
            rows@ == old(self)@,
            final(self)@ == final(rows)@,
    {
        self.rows.as_mut_slice()
    }

    /// The rows, one after the other.
    pub fn iter(&self) -> (iter: core::slice::Iter<'_, (K, V)>)
        ensures
            iter.remaining() == self@.as_ref(),
            vstd::std_specs::slice::into_iter_elts(iter) == self@,
            IteratorSpec::decrease(&iter) is Some,
            IteratorSpec::initial_value_relation(&iter, &iter),
    {
        self.rows.as_slice().iter()
    }

    /// The rows, one after the other, to change in place.
    ///
    /// The iterator hands out every row once, from the first to the last. A row
    /// ends up as what was left behind its reference, and no row can be added or
    /// taken away.
    pub fn iter_mut(&mut self) -> (iter: core::slice::IterMut<'_, (K, V)>)
        ensures
            IteratorSpec::obeys_prophetic_iter_laws(&iter),
            IteratorSpec::will_return_none(&iter),
            IteratorSpec::decrease(&iter) is Some,
            IteratorSpec::remaining(&iter).len() == old(self)@.len(),
            forall|i: int|
                0 <= i < old(self)@.len() ==> *(#[trigger] IteratorSpec::remaining(&iter)[i])
                    == old(self)@[i],
            final(self)@.len() == old(self)@.len(),
            forall|i: int|
                0 <= i < old(self)@.len() ==> #[trigger] final(self)@[i]
                    == *final(IteratorSpec::remaining(&iter)[i]),
    {
        slice_iter_mut(self.rows.as_mut_slice())
    }

    /// How many rows there is room for without reallocating.
    pub fn capacity(&self) -> (capacity: usize)
        ensures
            capacity >= self@.len(),
    {
        vec_capacity(&self.rows)
    }

    /// Room for `additional` more rows.
    pub fn reserve(&mut self, additional: usize)
        ensures
            final(self)@ == old(self)@,
    {
        self.rows.reserve(additional);
    }

    /// The rows, without the table.
    pub fn into_rows(self) -> (rows: Vec<(K, V)>)
        ensures
            rows@ == self@,
    {
        self.rows
    }

    /// The rows.
    pub fn rows(&self) -> (rows: &[(K, V)])
        ensures
            rows@ == self@,
    {
        self.rows.as_slice()
    }

    /// How many rows there are.
    pub fn len(&self) -> (len: usize)
        ensures
            len == self@.len(),
    {
        self.rows.len()
    }

    /// Whether there are no rows.
    pub fn is_empty(&self) -> (empty: bool)
        ensures
            empty == (self@.len() == 0),
    {
        self.rows.len() == 0
    }
}

/// Where `==` on keys means that they are the same key, a linear table keeps the
/// row contract of the indexed ones: the row that it finds is the first with the
/// key.
pub proof fn law_a_scan_finds_the_key<K: Eq, V>(rows: Seq<(K, V)>, key: K)
    requires
        vstd::laws_eq::obeys_concrete_eq::<K>(),
    ensures
        K::obeys_eq_spec(),
        rows::first_match(rows, |present: K| present.eq_spec(&key)) == rows::row_of(rows, key),
    decreases rows.len(),
{
    reveal(vstd::laws_eq::obeys_concrete_eq);
    if rows.len() > 0 {
        law_a_scan_finds_the_key(rows.drop_last(), key);
    }
}

/// What an insert into a linear table does, by its contract.
pub open spec fn scan_inserted<K: Eq, V>(
    before: Seq<(K, V)>,
    after: Seq<(K, V)>,
    item: (K, V),
    outcome: Result<usize, InsertError<K>>,
) -> bool {
    rows::inserted(
        before,
        after,
        rows::first_match(before, |present: K| present.eq_spec(&item.0)),
        item.0,
        item.1,
        outcome,
    )
}

/// What an insert into an indexed table does, by its contract.
pub open spec fn index_inserted<K, V>(
    before: Seq<(K, V)>,
    after: Seq<(K, V)>,
    item: (K, V),
    outcome: Result<usize, InsertError<K>>,
) -> bool {
    rows::inserted(before, after, rows::row_of(before, item.0), item.0, item.1, outcome)
}

/// A linear and an indexed table that start with the same rows and take the same
/// inserts have the same rows after each of them, and gave the same answers.
///
/// `linear` and `indexed` are the rows before the first insert, after it, and so
/// on; `said` are the answers.
pub proof fn law_the_same_inserts_make_the_same_rows<K: Eq, V>(
    items: Seq<(K, V)>,
    linear: Seq<Seq<(K, V)>>,
    indexed: Seq<Seq<(K, V)>>,
    said_linear: Seq<Result<usize, InsertError<K>>>,
    said_indexed: Seq<Result<usize, InsertError<K>>>,
)
    requires
        vstd::laws_eq::obeys_concrete_eq::<K>(),
        linear.len() == items.len() + 1,
        indexed.len() == items.len() + 1,
        said_linear.len() == items.len(),
        said_indexed.len() == items.len(),
        linear[0] == indexed[0],
        forall|i: int|
            0 <= i < items.len() ==> scan_inserted(
                linear[i],
                linear[i + 1],
                items[i],
                #[trigger] said_linear[i],
            ),
        forall|i: int|
            0 <= i < items.len() ==> index_inserted(
                indexed[i],
                indexed[i + 1],
                items[i],
                #[trigger] said_indexed[i],
            ),
    ensures
        linear == indexed,
        said_linear == said_indexed,
    decreases items.len(),
{
    if items.len() > 0 {
        let last = items.len() - 1;
        let fewer = items.drop_last();
        assert forall|i: int| 0 <= i < fewer.len() implies scan_inserted(
            linear.drop_last()[i],
            linear.drop_last()[i + 1],
            fewer[i],
            #[trigger] said_linear.drop_last()[i],
        ) by {
            assert(said_linear.drop_last()[i] == said_linear[i]);
        }
        assert forall|i: int| 0 <= i < fewer.len() implies index_inserted(
            indexed.drop_last()[i],
            indexed.drop_last()[i + 1],
            fewer[i],
            #[trigger] said_indexed.drop_last()[i],
        ) by {
            assert(said_indexed.drop_last()[i] == said_indexed[i]);
        }
        law_the_same_inserts_make_the_same_rows(
            fewer,
            linear.drop_last(),
            indexed.drop_last(),
            said_linear.drop_last(),
            said_indexed.drop_last(),
        );
        assert(linear.drop_last()[last] == indexed.drop_last()[last]);
        law_a_scan_finds_the_key(linear[last], items[last].0);
        assert(scan_inserted(linear[last], linear[last + 1], items[last], said_linear[last]));
        assert(index_inserted(indexed[last], indexed[last + 1], items[last], said_indexed[last]));
        assert(linear =~= linear.drop_last().push(linear[last + 1]));
        assert(indexed =~= indexed.drop_last().push(indexed[last + 1]));
        assert(said_linear =~= said_linear.drop_last().push(said_linear[last]));
        assert(said_indexed =~= said_indexed.drop_last().push(said_indexed[last]));
    } else {
        assert(linear =~= indexed);
        assert(said_linear =~= said_indexed);
    }
}

/// And a select gives the same on both.
pub proof fn law_the_same_select_gives_the_same<K: Eq, V>(
    rows: Seq<(K, V)>,
    key: K,
    scanned: Option<&V>,
    looked_up: Option<&V>,
)
    requires
        vstd::laws_eq::obeys_concrete_eq::<K>(),
        rows::selected(
            rows,
            rows::first_match(rows, |present: K| present.eq_spec(&key)),
            scanned,
        ),
        rows::selected(rows, rows::row_of(rows, key), looked_up),
    ensures
        scanned == looked_up,
{
    law_a_scan_finds_the_key(rows, key);
}

/// Whether comparing the key of this row with `key` may give `same`. For a key
/// type whose `==` is specified, that is whether it does.
pub open spec fn compares<K: Eq, V>(rows: Seq<(K, V)>, row: int, key: K, same: bool) -> bool {
    call_ensures(K::eq, (&rows[row].0, &key), same)
}

impl<K, V> LinearTable<K, V> where K: Eq {
    /// Append a row, unless its key is there already.
    ///
    /// # Errors
    ///
    /// The key of a row that is there already is handed back.
    pub fn insert(&mut self, key: K, value: V) -> (outcome: Result<usize, InsertError<K>>)
        ensures
            K::obeys_eq_spec() ==> rows::inserted(
                old(self)@,
                final(self)@,
                rows::first_match(old(self)@, |present: K| present.eq_spec(&key)),
                key,
                value,
                outcome,
            ),
            outcome is Ok ==> {
                &&& rows::inserted(old(self)@, final(self)@, None, key, value, outcome)
                &&& forall|i: int|
                    0 <= i < old(self)@.len() ==> #[trigger] compares(old(self)@, i, key, false)
            },
            outcome is Err ==> {
                &&& outcome == Err::<usize, InsertError<K>>(InsertError::DuplicateKey(key))
                &&& final(self)@ == old(self)@
                &&& exists|i: int|
                    0 <= i < old(self)@.len() && #[trigger] compares(old(self)@, i, key, true)
            },
    {
        let ghost same = |present: K| present.eq_spec(&key);
        let mut row: usize = 0;
        while row < self.rows.len()
            invariant
                row <= self@.len(),
                self@ == self.rows@,
                self@ == old(self)@,
                same == (|present: K| present.eq_spec(&key)),
                forall|i: int| 0 <= i < row ==> #[trigger] compares(self@, i, key, false),
                K::obeys_eq_spec() ==> forall|i: int|
                    0 <= i < row ==> !same((#[trigger] self@[i]).0),
            decreases self@.len() - row,
        {
            if self.rows[row].0.eq(&key) {
                proof {
                    assert(compares(self@, row as int, key, true));
                    if K::obeys_eq_spec() {
                        rows::lemma_is_first_match(self@, same, row as int);
                    }
                }
                return Err(InsertError::DuplicateKey(key));
            }
            assert(compares(self@, row as int, key, false));
            row = row + 1;
        }
        proof {
            rows::lemma_first_match(self@, same);
        }
        let row: usize = self.rows.len();
        self.rows.push((key, value));
        Ok(row)
    }

    /// The value of the first row with this key.
    pub fn select(&self, key: &K) -> (value: Option<&V>)
        ensures
            K::obeys_eq_spec() ==> rows::selected(
                self@,
                rows::first_match(self@, |present: K| present.eq_spec(key)),
                value,
            ),
            value matches Some(found) ==> exists|i: int|
                {
                    &&& 0 <= i < self@.len()
                    &&& #[trigger] compares(self@, i, *key, true)
                    &&& *found == self@[i].1
                    &&& forall|j: int| 0 <= j < i ==> #[trigger] compares(self@, j, *key, false)
                },
            value is None ==> forall|i: int|
                0 <= i < self@.len() ==> #[trigger] compares(self@, i, *key, false),
    {
        let ghost same = |present: K| present.eq_spec(key);
        let mut row: usize = 0;
        while row < self.rows.len()
            invariant
                row <= self@.len(),
                self@ == self.rows@,
                same == (|present: K| present.eq_spec(key)),
                forall|i: int| 0 <= i < row ==> #[trigger] compares(self@, i, *key, false),
                K::obeys_eq_spec() ==> forall|i: int|
                    0 <= i < row ==> !same((#[trigger] self@[i]).0),
            decreases self@.len() - row,
        {
            if self.rows[row].0.eq(key) {
                proof {
                    assert(compares(self@, row as int, *key, true));
                    if K::obeys_eq_spec() {
                        rows::lemma_is_first_match(self@, same, row as int);
                    }
                }
                return Some(&self.rows[row].1);
            }
            assert(compares(self@, row as int, *key, false));
            row = row + 1;
        }
        proof {
            rows::lemma_first_match(self@, same);
        }
        None
    }
}

impl<K: Clone, V: Clone> Clone for LinearTable<K, V> {
    fn clone(&self) -> (table: Self)
        ensures
            rows::rows_cloned(self@, table@),
    {
        LinearTable { rows: rows::clone_rows(&self.rows) }
    }
}

impl<K, V> Default for LinearTable<K, V> {
    fn default() -> (table: Self)
        ensures
            table@ == Seq::<(K, V)>::empty(),
    {
        LinearTable::new()
    }
}

impl<K, V> From<Vec<(K, V)>> for LinearTable<K, V> {
    fn from(rows: Vec<(K, V)>) -> (table: Self)
        ensures
            table@ == rows@,
    {
        LinearTable { rows }
    }
}

impl<K, V> FromSpecImpl<Vec<(K, V)>> for LinearTable<K, V> {
    open spec fn obeys_from_spec() -> bool {
        true
    }

    closed spec fn from_spec(rows: Vec<(K, V)>) -> Self {
        LinearTable { rows }
    }
}

impl<K, V> AsRef<[(K, V)]> for LinearTable<K, V> {
    fn as_ref(&self) -> (rows: &[(K, V)])
        ensures
            rows@ == self@,
    {
        self.as_slice()
    }
}

} // verus!
