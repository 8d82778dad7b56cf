//! The row contract that every table of ordered rows keeps.

use vstd::prelude::*;

verus! {

/// Why a row was not inserted.
#[derive(Debug, PartialEq, Eq)]
pub enum InsertError<K> {
    /// A row with this key is already there.
    DuplicateKey(K),
    /// The index had no memory for this key.
    OutOfMemory(K),
}

impl<K: Clone> Clone for InsertError<K> {
    fn clone(&self) -> (error: Self)
        ensures
            match *self {
                InsertError::DuplicateKey(key) => error matches InsertError::DuplicateKey(copy)
                    && cloned(key, copy),
                InsertError::OutOfMemory(key) => error matches InsertError::OutOfMemory(copy)
                    && cloned(key, copy),
            },
    {
        match self {
            InsertError::DuplicateKey(key) => InsertError::DuplicateKey(key.clone()),
            InsertError::OutOfMemory(key) => InsertError::OutOfMemory(key.clone()),
        }
    }
}

/// Where the first row is whose key `same` holds of.
pub open spec fn first_match<K, V>(rows: Seq<(K, V)>, same: spec_fn(K) -> bool) -> Option<int>
    decreases rows.len(),
{
    if rows.len() == 0 {
        None
    } else {
        match first_match(rows.drop_last(), same) {
            Some(row) => Some(row),
            None => if same(rows.last().0) {
                Some(rows.len() - 1)
            } else {
                None
            },
        }
    }
}

/// Where the first row with this key is.
pub open spec fn row_of<K, V>(rows: Seq<(K, V)>, key: K) -> Option<int> {
    first_match(rows, |present: K| present == key)
}

/// What an insert does to the rows, once it is known where the key is: a row
/// is appended, or the key is refused and no row changes.
pub open spec fn inserted<K, V>(
    before: Seq<(K, V)>,
    after: Seq<(K, V)>,
    found: Option<int>,
    key: K,
    value: V,
    outcome: Result<usize, InsertError<K>>,
) -> bool {
    match found {
        None => {
            &&& outcome == Ok::<usize, InsertError<K>>(before.len() as usize)
            &&& after == before.push((key, value))
        },
        Some(_) => {
            &&& outcome == Err::<usize, InsertError<K>>(InsertError::DuplicateKey(key))
            &&& after == before
        },
    }
}

/// What a select gives, once it is known where the key is.
pub open spec fn selected<K, V>(rows: Seq<(K, V)>, found: Option<int>, value: Option<&V>) -> bool {
    match found {
        Some(row) => value == Some(&rows[row].1),
        None => value is None,
    }
}

/// Whether `copy` is these rows, each key and each value cloned.
pub open spec fn rows_cloned<K: Clone, V: Clone>(rows: Seq<(K, V)>, copy: Seq<(K, V)>) -> bool {
    &&& copy.len() == rows.len()
    &&& forall|i: int|
        0 <= i < rows.len() ==> cloned(rows[i].0, (#[trigger] copy[i]).0) && cloned(
            rows[i].1,
            copy[i].1,
        )
}

/// Clone every key and every value.
pub fn clone_rows<K: Clone, V: Clone>(rows: &Vec<(K, V)>) -> (copy: Vec<(K, V)>)
    ensures
        rows_cloned(rows@, copy@),
{
    let mut copy: Vec<(K, V)> = Vec::with_capacity(rows.len());
    let mut row: usize = 0;
    while row < rows.len()
        invariant
            row <= rows@.len(),
            rows_cloned(rows@.take(row as int), copy@),
        decreases rows@.len() - row,
    {
        copy.push((rows[row].0.clone(), rows[row].1.clone()));
        row = row + 1;
    }
    assert(rows@.take(rows@.len() as int) =~= rows@);
    copy
}

/// No two rows have the same key.
pub open spec fn distinct_keys<K, V>(rows: Seq<(K, V)>) -> bool {
    forall|i: int, j: int|
        0 <= i < j < rows.len() ==> (#[trigger] rows[i]).0 != (#[trigger] rows[j]).0
}

/// These rows without those whose key an earlier row has.
pub open spec fn first_of_each_key<K, V>(rows: Seq<(K, V)>) -> Seq<(K, V)>
    decreases rows.len(),
{
    if rows.len() == 0 {
        Seq::empty()
    } else {
        let kept = first_of_each_key(rows.drop_last());
        if row_of(kept, rows.last().0) is None {
            kept.push(rows.last())
        } else {
            kept
        }
    }
}

/// A match is a row that `same` holds of, with none before it; and there is
/// none only where `same` holds of no row.
pub proof fn lemma_first_match<K, V>(rows: Seq<(K, V)>, same: spec_fn(K) -> bool)
    ensures
        match first_match(rows, same) {
            Some(row) => {
                &&& 0 <= row < rows.len()
                &&& same(rows[row].0)
                &&& forall|i: int| 0 <= i < row ==> !same((#[trigger] rows[i]).0)
            },
            None => forall|i: int| 0 <= i < rows.len() ==> !same((#[trigger] rows[i]).0),
        },
    decreases rows.len(),
{
    if rows.len() > 0 {
        lemma_first_match(rows.drop_last(), same);
        assert forall|i: int| 0 <= i < rows.len() - 1 implies rows.drop_last()[i]
            == #[trigger] rows[i] by {}
    }
}

/// The converse of [`lemma_first_match`].
pub proof fn lemma_is_first_match<K, V>(rows: Seq<(K, V)>, same: spec_fn(K) -> bool, row: int)
    requires
        0 <= row < rows.len(),
        same(rows[row].0),
        forall|i: int| 0 <= i < row ==> !same((#[trigger] rows[i]).0),
    ensures
        first_match(rows, same) == Some(row),
{
    lemma_first_match(rows, same);
}

/// A key that was inserted is selected as the value it was inserted with.
pub proof fn law_insert_then_select<K, V>(
    before: Seq<(K, V)>,
    after: Seq<(K, V)>,
    key: K,
    value: V,
    outcome: Result<usize, InsertError<K>>,
    seen: Option<&V>,
)
    requires
        inserted(before, after, row_of(before, key), key, value, outcome),
        outcome is Ok,
        selected(after, row_of(after, key), seen),
    ensures
        seen == Some(&value),
        row_of(after, key) == Some(before.len() as int),
{
    assert(after.drop_last() =~= before);
}

/// An insert, taken or refused, changes what is selected for no other key.
pub proof fn law_insert_leaves_other_keys<K, V>(
    before: Seq<(K, V)>,
    after: Seq<(K, V)>,
    key: K,
    value: V,
    outcome: Result<usize, InsertError<K>>,
    other: K,
    was: Option<&V>,
    is: Option<&V>,
)
    requires
        inserted(before, after, row_of(before, key), key, value, outcome),
        key != other,
        selected(before, row_of(before, other), was),
        selected(after, row_of(after, other), is),
    ensures
        was == is,
        row_of(after, other) == row_of(before, other),
{
    if outcome is Ok {
        assert(after.drop_last() =~= before);
        lemma_first_match(before, |present: K| present == other);
    }
}

/// A duplicate is refused, and the row that was there before it stays the one
/// that is selected.
pub proof fn law_duplicates_are_refused<K, V>(
    before: Seq<(K, V)>,
    after: Seq<(K, V)>,
    row: int,
    value: V,
    outcome: Result<usize, InsertError<K>>,
)
    requires
        0 <= row < before.len(),
        inserted(
            before,
            after,
            row_of(before, before[row].0),
            before[row].0,
            value,
            outcome,
        ),
    ensures
        outcome == Err::<usize, InsertError<K>>(InsertError::DuplicateKey(before[row].0)),
        after == before,
{
    lemma_first_match(before, |present: K| present == before[row].0);
}

/// Inserts keep keys distinct and rows where they are: in insertion order.
pub proof fn law_inserts_keep_keys_distinct<K, V>(
    before: Seq<(K, V)>,
    after: Seq<(K, V)>,
    key: K,
    value: V,
    outcome: Result<usize, InsertError<K>>,
)
    requires
        distinct_keys(before),
        inserted(before, after, row_of(before, key), key, value, outcome),
    ensures
        distinct_keys(after),
        before.is_prefix_of(after),
{
    lemma_first_match(before, |present: K| present == key);
}

/// Two tables that keep the row contract agree: the same insert on the same
/// rows gives the same rows and the same answer, and so does the same select.
pub proof fn law_tables_have_the_same_row_contract<K, V>(
    before: Seq<(K, V)>,
    one: Seq<(K, V)>,
    other: Seq<(K, V)>,
    key: K,
    value: V,
    outcome_one: Result<usize, InsertError<K>>,
    outcome_other: Result<usize, InsertError<K>>,
    wanted: K,
    seen_one: Option<&V>,
    seen_other: Option<&V>,
)
    requires
        inserted(before, one, row_of(before, key), key, value, outcome_one),
        inserted(before, other, row_of(before, key), key, value, outcome_other),
        selected(one, row_of(one, wanted), seen_one),
        selected(other, row_of(other, wanted), seen_other),
    ensures
        one == other,
        outcome_one == outcome_other,
        seen_one == seen_other,
{
}

/// Rows with distinct keys all stay.
pub proof fn law_distinct_rows_all_stay<K, V>(rows: Seq<(K, V)>)
    requires
        distinct_keys(rows),
    ensures
        first_of_each_key(rows) == rows,
    decreases rows.len(),
{
    if rows.len() > 0 {
        let fewer = rows.drop_last();
        assert forall|i: int, j: int| 0 <= i < j < fewer.len() implies (#[trigger] fewer[i]).0 != (
        #[trigger] fewer[j]).0 by {
            assert(fewer[i] == rows[i] && fewer[j] == rows[j]);
        }
        law_distinct_rows_all_stay(fewer);
        lemma_first_match(fewer, |present: K| present == rows.last().0);
        assert(fewer.push(rows.last()) =~= rows);
    }
}

} // verus!
