//! Tables that load and unload.

use vstd::prelude::*;

use crate::hydrate::codec::{self, fingerprint, Codec, RowView};
use crate::hydrate::error::{LoadError, RowTooLarge};
use crate::hydrate::full;
use crate::hydrate::laws;
use crate::hydrate::pack::{self, can_be_written, to_pages};
use crate::hydrate::page::{BODY_SIZE, PAGE_SIZE};
use crate::hydrate::rkyv_rows;
use crate::hydrate::unpack::{self, from_pages};
use crate::indexed::{self, IndexedTable};
use crate::linear::LinearTable;
use crate::rows;

verus! {

/// What the rows of a table hold.
pub open spec fn deep_rows<K: DeepView, V: DeepView>(rows: Seq<(K, V)>) -> Seq<RowView<K, V>> {
    Seq::new(rows.len(), |i: int| rows[i].deep_view())
}

/// What an unload of these rows gives.
pub open spec fn unloaded<K: Codec<V>, V: DeepView>(
    rows: Seq<RowView<K, V>>,
    pages: Result<Vec<u8>, RowTooLarge>,
) -> bool {
    match pack::pages_of::<K, V>(rows, codec::row_schema::<K, V>(), 0, 0, 0) {
        Ok(bytes) => pages matches Ok(held) && held@ == bytes,
        Err(refusal) => pages == Err::<Vec<u8>, RowTooLarge>(refusal),
    }
}

/// Whether an unload of these rows is refused exactly where a row alone is longer
/// than a page body, and then names the first such row.
pub open spec fn refuses_too_large<K: Codec<V>, V: DeepView>(
    rows: Seq<RowView<K, V>>,
    pages: Result<Vec<u8>, RowTooLarge>,
) -> bool {
    match pages {
        Ok(_) => pack::every_row_fits::<K, V>(rows),
        Err(refusal) => !pack::every_row_fits::<K, V>(rows) && pack::names_first_too_large::<K, V>(
            rows,
            refusal,
        ),
    }
}

/// Whether the pages are each as full as it gets, where the rows that are sampled speak
/// for all: what is on a page fits it, and where rows are left, one more would not have.
pub open spec fn as_full_as_it_gets<K: Codec<V>, V: DeepView>(
    rows: Seq<RowView<K, V>>,
    pages: Result<Vec<u8>, RowTooLarge>,
) -> bool {
    pages matches Ok(held) ==> full::speaks_throughout::<K, V>(rows) ==> full::packed::<K, V>(
        held@,
        rows,
    )
}

/// What these bytes load as.
pub open spec fn loads_as<K: Codec<V>, V: DeepView>(bytes: Seq<u8>) -> Result<
    Seq<RowView<K, V>>,
    LoadError,
> {
    unpack::load_outcome::<K, V>(bytes, codec::row_schema::<K, V>())
}

/// What a load of these bytes gives.
pub open spec fn loaded<K: Codec<V>, V: DeepView>(
    bytes: Seq<u8>,
    table: Result<LinearTable<K, V>, LoadError>,
) -> bool {
    match loads_as::<K, V>(bytes) {
        Ok(found) => table matches Ok(held) && deep_rows(held@) == found,
        Err(error) => table == Err::<LinearTable<K, V>, LoadError>(error),
    }
}

/// Whether two unloads gave the same bytes, or the same refusal.
pub open spec fn same_pages(
    one: Result<Vec<u8>, RowTooLarge>,
    other: Result<Vec<u8>, RowTooLarge>,
) -> bool {
    match one {
        Ok(held) => other matches Ok(also) && also@ == held@,
        Err(refusal) => other == Err::<Vec<u8>, RowTooLarge>(refusal),
    }
}

/// The rows from `first` on, or none where there are fewer.
pub open spec fn rows_from<T>(rows: Seq<T>, first: int) -> Seq<T> {
    if first < rows.len() {
        rows.skip(first)
    } else {
        Seq::empty()
    }
}

/// Pages of the rows from `first` on.
fn pages_from<K: Codec<V>, V: DeepView>(rows: &[(K, V)], first: usize) -> (pages: Result<
    Vec<u8>,
    RowTooLarge,
>)
    requires
        pack::writable::<K, V>(rows_from(deep_rows(rows@), first as int)),
    ensures
        unloaded::<K, V>(rows_from(deep_rows(rows@), first as int), pages),
        refuses_too_large::<K, V>(rows_from(deep_rows(rows@), first as int), pages),
        as_full_as_it_gets::<K, V>(rows_from(deep_rows(rows@), first as int), pages),
        pages matches Ok(held) ==> loads_as::<K, V>(held@) == Ok::<Seq<RowView<K, V>>, LoadError>(
            rows_from(deep_rows(rows@), first as int),
        ),
{
    let from: usize = if first < rows.len() {
        first
    } else {
        rows.len()
    };
    let part = vstd::slice::slice_subrange(rows, from, rows.len());
    assert(part.deep_view() =~= rows_from(deep_rows(rows@), first as int));
    to_pages(part, fingerprint::<K, V>())
}

impl<K: Codec<V>, V: DeepView> LinearTable<K, V> {
    /// Every row, as pages.
    ///
    /// # Errors
    ///
    /// A row too large for a page.
    pub fn unload(&self) -> (pages: Result<Vec<u8>, RowTooLarge>)
        requires
            pack::writable::<K, V>(deep_rows(self@)),
        ensures
            unloaded::<K, V>(deep_rows(self@), pages),
            refuses_too_large::<K, V>(deep_rows(self@), pages),
            as_full_as_it_gets::<K, V>(deep_rows(self@), pages),
            pages matches Ok(held) ==> loads_as::<K, V>(held@) == Ok::<
                Seq<RowView<K, V>>,
                LoadError,
            >(deep_rows(self@)),
    {
        assert(rows_from(deep_rows(self@), 0) =~= deep_rows(self@));
        pages_from(self.rows(), 0)
    }

    /// Every row, as pages; `None` where a row has no archive at all, or where
    /// there are more pages than a page number can count.
    pub fn unload_checked(&self) -> (pages: Option<Result<Vec<u8>, RowTooLarge>>)
        ensures
            pages is Some <==> pack::writable::<K, V>(deep_rows(self@)),
            pages matches Some(outcome) ==> unloaded::<K, V>(deep_rows(self@), outcome)
                && refuses_too_large::<K, V>(deep_rows(self@), outcome)
                && as_full_as_it_gets::<K, V>(deep_rows(self@), outcome),
            pages matches Some(Ok(held)) ==> loads_as::<K, V>(held@) == Ok::<
                Seq<RowView<K, V>>,
                LoadError,
            >(deep_rows(self@)),
    {
        let rows = self.rows();
        assert(rows.deep_view() =~= deep_rows(self@));
        if can_be_written(rows) {
            Some(self.unload())
        } else {
            None
        }
    }

    /// The rows from `first` on, as pages, ready to append to a file that
    /// already holds the ones before it.
    ///
    /// Appending is possible at all because pages stand alone: the existing
    /// file is untouched and these pages are simply more of them.
    ///
    /// # Errors
    ///
    /// A row too large for a page.
    pub fn unload_appending(&self, first: usize) -> (pages: Result<Vec<u8>, RowTooLarge>)
        requires
            pack::writable::<K, V>(rows_from(deep_rows(self@), first as int)),
        ensures
            unloaded::<K, V>(rows_from(deep_rows(self@), first as int), pages),
            refuses_too_large::<K, V>(rows_from(deep_rows(self@), first as int), pages),
            as_full_as_it_gets::<K, V>(rows_from(deep_rows(self@), first as int), pages),
            pages matches Ok(held) ==> loads_as::<K, V>(held@) == Ok::<
                Seq<RowView<K, V>>,
                LoadError,
            >(rows_from(deep_rows(self@), first as int)),
    {
        pages_from(self.rows(), first)
    }

    /// What there is to write behind the rows before `first`: nothing at all
    /// where there are no more rows, and otherwise pages.
    ///
    /// # Errors
    ///
    /// A row too large for a page.
    pub fn append_pages(&self, first: usize) -> (pages: Result<Option<Vec<u8>>, RowTooLarge>)
        requires
            pack::writable::<K, V>(rows_from(deep_rows(self@), first as int)),
        ensures
            first >= self@.len() ==> pages == Ok::<Option<Vec<u8>>, RowTooLarge>(None),
            first < self@.len() ==> {
                ||| pages matches Ok(Some(held)) && unloaded::<K, V>(
                    deep_rows(self@).skip(first as int),
                    Ok(held),
                ) && refuses_too_large::<K, V>(deep_rows(self@).skip(first as int), Ok(held))
                ||| pages matches Err(refusal) && unloaded::<K, V>(
                    deep_rows(self@).skip(first as int),
                    Err(refusal),
                ) && refuses_too_large::<K, V>(deep_rows(self@).skip(first as int), Err(refusal))
            },
            pages matches Ok(Some(held)) ==> loads_as::<K, V>(held@) == Ok::<
                Seq<RowView<K, V>>,
                LoadError,
            >(deep_rows(self@).skip(first as int)),
            pages matches Ok(Some(held)) ==> as_full_as_it_gets::<K, V>(
                deep_rows(self@).skip(first as int),
                Ok(held),
            ),
    {
        if first >= self.len() {
            return Ok(None);
        }
        match self.unload_appending(first) {
            Ok(pages) => Ok(Some(pages)),
            Err(refusal) => Err(refusal),
        }
    }

    /// Rows back from pages.
    ///
    /// # Errors
    ///
    /// Refuses bytes that are not whole pages, a page from another version, a
    /// header claiming more body than a page holds, a body that fails its
    /// checksum, pages that disagree about the row type, another row type, or
    /// rows that do not deserialize.
    pub fn load(bytes: &[u8]) -> (table: Result<Self, LoadError>)
        ensures
            loaded::<K, V>(bytes@, table),
    {
        match from_pages(bytes) {
            Ok(rows) => {
                assert(deep_rows(rows@) =~= rows.deep_view());
                Ok(LinearTable::from(rows))
            },
            Err(error) => Err(error),
        }
    }
}

/// The rows of a table that went out as pages come back as they were: the same
/// rows in the same order, repeated keys and all.
pub proof fn law_rows_come_back_as_they_were<K: Codec<V>, V: DeepView>(
    rows: Seq<(K, V)>,
    pages: Seq<u8>,
    back: Result<LinearTable<K, V>, LoadError>,
)
    requires
        loads_as::<K, V>(pages) == Ok::<Seq<RowView<K, V>>, LoadError>(deep_rows(rows)),
        loaded::<K, V>(pages, back),
    ensures
        back matches Ok(table) && deep_rows(table@) == deep_rows(rows),
        holds_itself::<K>() && holds_itself::<V>() ==> (back matches Ok(table) && table@ == rows),
{
    if holds_itself::<K>() && holds_itself::<V>() {
        lemma_deep_rows_tell_rows_apart(back->Ok_0@, rows);
    }
}

/// Rows that hold the same are the same, where keys and values that hold the same
/// are.
pub proof fn lemma_deep_rows_tell_rows_apart<K: DeepView, V: DeepView>(
    a: Seq<(K, V)>,
    b: Seq<(K, V)>,
)
    requires
        holds_itself::<K>(),
        holds_itself::<V>(),
        deep_rows(a) == deep_rows(b),
    ensures
        a == b,
{
    assert(deep_rows(a).len() == a.len());
    assert(deep_rows(b).len() == b.len());
    assert forall|i: int| 0 <= i < a.len() implies a[i] == b[i] by {
        assert(deep_rows(a)[i] == a[i].deep_view());
        assert(deep_rows(b)[i] == b[i].deep_view());
        assert(a[i].0.deep_view() == b[i].0.deep_view());
        assert(a[i].1.deep_view() == b[i].1.deep_view());
    }
    assert(a =~= b);
}

/// What an unload gives depends on the rows alone, in their order: an indexed
/// table unloads the very bytes that a linear table of the same rows unloads, and
/// nothing of its index.
pub proof fn law_the_same_rows_unload_the_same<K: Codec<V>, V: DeepView>(
    rows: Seq<(K, V)>,
    one: Result<Vec<u8>, RowTooLarge>,
    other: Result<Vec<u8>, RowTooLarge>,
)
    requires
        unloaded::<K, V>(deep_rows(rows), one),
        unloaded::<K, V>(deep_rows(rows), other),
    ensures
        same_pages(one, other),
{
}

/// To append from `first` on is to unload a table of the rows from there on: the
/// whole table where `first` is zero, and one page without rows where it is past
/// the end.
pub proof fn law_an_append_is_an_unload_of_the_tail<K: Codec<V>, V: DeepView>(
    rows: Seq<(K, V)>,
    first: int,
    appended: Result<Vec<u8>, RowTooLarge>,
    tail: Result<Vec<u8>, RowTooLarge>,
)
    requires
        0 <= first,
        K::archive_len(Seq::empty()) <= BODY_SIZE,
        unloaded::<K, V>(rows_from(deep_rows(rows), first), appended),
        refuses_too_large::<K, V>(rows_from(deep_rows(rows), first), appended),
        unloaded::<K, V>(deep_rows(rows_from(rows, first)), tail),
    ensures
        same_pages(appended, tail),
        first == 0 ==> unloaded::<K, V>(deep_rows(rows), appended),
        first >= rows.len() ==> (appended matches Ok(held) && held@.len() == PAGE_SIZE),
{
    assert(rows_from(deep_rows(rows), first) =~= deep_rows(rows_from(rows, first)));
    if first == 0 {
        assert(rows_from(rows, 0) =~= rows);
    }
    law_no_rows_are_one_page::<K, V>(rows_from(deep_rows(rows), first), appended);
}

/// No rows unload as one page, and any rows that unload do so as whole pages.
pub proof fn law_no_rows_are_one_page<K: Codec<V>, V: DeepView>(
    rows: Seq<RowView<K, V>>,
    pages: Result<Vec<u8>, RowTooLarge>,
)
    requires
        K::archive_len(Seq::empty()) <= BODY_SIZE,
        unloaded::<K, V>(rows, pages),
        refuses_too_large::<K, V>(rows, pages),
    ensures
        pages matches Ok(held) ==> held@.len() >= PAGE_SIZE && unpack::whole_pages(
            held@.len() as int,
        ),
        rows.len() == 0 ==> (pages matches Ok(held) && held@.len() == PAGE_SIZE),
{
    if pages is Ok {
        laws::law_an_unload_is_whole_pages::<K, V>(rows, codec::row_schema::<K, V>(), 0, 0, 0);
    }
}

/// Rows of words are never refused.
pub proof fn law_rows_of_words_are_never_refused(
    rows: Seq<(u64, u64)>,
    pages: Result<Vec<u8>, RowTooLarge>,
)
    requires
        refuses_too_large::<u64, u64>(rows, pages),
    ensures
        pages is Ok,
{
    assert forall|i: int| 0 <= i < rows.len() implies #[trigger] pack::row_fits::<u64, u64>(
        rows,
        i,
    ) by {
        rkyv_rows::law_a_row_of_words_fits_a_page(rows[i]);
    }
}

/// Rows of words and texts are refused exactly where a text is longer than a page
/// body without a row, a root and padding.
pub proof fn law_which_rows_of_texts_are_refused(
    rows: Seq<(u64, Seq<char>)>,
    pages: Result<Vec<u8>, RowTooLarge>,
)
    requires
        refuses_too_large::<u64, String>(rows, pages),
    ensures
        pages is Ok <==> forall|i: int|
            0 <= i < rows.len() ==> rkyv_rows::text_bytes((#[trigger] rows[i]).1) <= BODY_SIZE - 28,
{
    assert forall|i: int| 0 <= i < rows.len() implies (#[trigger] pack::row_fits::<u64, String>(
        rows,
        i,
    ) <==> rkyv_rows::text_bytes(rows[i].1) <= BODY_SIZE - 28) by {
        rkyv_rows::law_which_texts_fit_a_page(rows[i]);
    }
    if pages is Ok {
        assert forall|i: int| 0 <= i < rows.len() implies rkyv_rows::text_bytes(
            (#[trigger] rows[i]).1,
        ) <= BODY_SIZE - 28 by {
            assert(pack::row_fits::<u64, String>(rows, i));
        }
    }
}

/// Whether different values hold different things.
pub open spec fn holds_itself<T: DeepView>() -> bool {
    forall|a: T, b: T| #[trigger] a.deep_view() == #[trigger] b.deep_view() ==> a == b
}

/// Looking a key up by what it holds is looking the key up.
proof fn lemma_deep_row_of<K: DeepView, V: DeepView>(rows: Seq<(K, V)>, key: K)
    requires
        holds_itself::<K>(),
    ensures
        rows::row_of(deep_rows(rows), key.deep_view()) == rows::row_of(rows, key),
    decreases rows.len(),
{
    if rows.len() > 0 {
        lemma_deep_row_of(rows.drop_last(), key);
        assert(deep_rows(rows).drop_last() =~= deep_rows(rows.drop_last()));
    }
}

/// What stays of rows with repeated keys holds what stays of what they hold.
pub proof fn lemma_deep_first_of_each_key<K: DeepView, V: DeepView>(rows: Seq<(K, V)>)
    requires
        holds_itself::<K>(),
    ensures
        deep_rows(rows::first_of_each_key(rows)) == rows::first_of_each_key(deep_rows(rows)),
    decreases rows.len(),
{
    if rows.len() > 0 {
        let kept = rows::first_of_each_key(rows.drop_last());
        lemma_deep_first_of_each_key(rows.drop_last());
        assert(deep_rows(rows).drop_last() =~= deep_rows(rows.drop_last()));
        lemma_deep_row_of(kept, rows.last().0);
        assert(deep_rows(kept.push(rows.last())) =~= deep_rows(kept).push(deep_rows(rows).last()));
    } else {
        assert(deep_rows(rows::first_of_each_key(rows)) =~= Seq::empty());
    }
}

/// Rows of distinct keys that went out as pages come back as they were, index
/// and all: of rows with distinct keys every one stays.
pub proof fn law_distinct_rows_survive_the_round_trip<K: DeepView, V: DeepView>(rows: Seq<(K, V)>)
    requires
        holds_itself::<K>(),
        rows::distinct_keys(rows),
    ensures
        rows::first_of_each_key(deep_rows(rows)) == deep_rows(rows),
{
    rows::law_distinct_rows_all_stay(rows);
    lemma_deep_first_of_each_key(rows);
}

impl<K: Codec<V> + Clone + Ord, V: DeepView> IndexedTable<K, V> {
    /// Every row, as pages.
    ///
    /// The index is not written. It is derived from the rows, so rebuilding it
    /// on load costs one pass, where storing it would cost bytes at rest and a
    /// second thing that can disagree with the rows.
    ///
    /// # Errors
    ///
    /// A row too large for a page.
    pub fn unload(&self) -> (pages: Result<Vec<u8>, RowTooLarge>)
        requires
            pack::writable::<K, V>(deep_rows(self@)),
        ensures
            unloaded::<K, V>(deep_rows(self@), pages),
            refuses_too_large::<K, V>(deep_rows(self@), pages),
            as_full_as_it_gets::<K, V>(deep_rows(self@), pages),
            pages matches Ok(held) ==> loads_as::<K, V>(held@) == Ok::<
                Seq<RowView<K, V>>,
                LoadError,
            >(deep_rows(self@)),
    {
        assert(rows_from(deep_rows(self@), 0) =~= deep_rows(self@));
        pages_from(self.rows(), 0)
    }

    /// Every row, as pages; `None` where a row has no archive at all, or where
    /// there are more pages than a page number can count.
    pub fn unload_checked(&self) -> (pages: Option<Result<Vec<u8>, RowTooLarge>>)
        ensures
            pages is Some <==> pack::writable::<K, V>(deep_rows(self@)),
            pages matches Some(outcome) ==> unloaded::<K, V>(deep_rows(self@), outcome)
                && refuses_too_large::<K, V>(deep_rows(self@), outcome)
                && as_full_as_it_gets::<K, V>(deep_rows(self@), outcome),
            pages matches Some(Ok(held)) ==> loads_as::<K, V>(held@) == Ok::<
                Seq<RowView<K, V>>,
                LoadError,
            >(deep_rows(self@)),
    {
        let rows = self.rows();
        assert(rows.deep_view() =~= deep_rows(self@));
        if can_be_written(rows) {
            Some(self.unload())
        } else {
            None
        }
    }

    /// The rows from `first` on, as pages.
    ///
    /// # Errors
    ///
    /// A row too large for a page.
    pub fn unload_appending(&self, first: usize) -> (pages: Result<Vec<u8>, RowTooLarge>)
        requires
            pack::writable::<K, V>(rows_from(deep_rows(self@), first as int)),
        ensures
            unloaded::<K, V>(rows_from(deep_rows(self@), first as int), pages),
            refuses_too_large::<K, V>(rows_from(deep_rows(self@), first as int), pages),
            as_full_as_it_gets::<K, V>(rows_from(deep_rows(self@), first as int), pages),
            pages matches Ok(held) ==> loads_as::<K, V>(held@) == Ok::<
                Seq<RowView<K, V>>,
                LoadError,
            >(rows_from(deep_rows(self@), first as int)),
    {
        pages_from(self.rows(), first)
    }

    /// Rows back from pages, with the index rebuilt. Of rows with the same key
    /// the first one stays.
    ///
    /// # Errors
    ///
    /// As [`LinearTable::load`].
    pub fn load(bytes: &[u8]) -> (table: Result<Self, LoadError>)
        ensures
            match loads_as::<K, V>(bytes@) {
                Ok(found) => {
                    &&& table matches Ok(held)
                    &&& held.wf()
                    &&& indexed::lawful_key::<K>() ==> exists|rows: Seq<(K, V)>|
                        #![auto]
                        deep_rows(rows) == found && held@ == rows::first_of_each_key(rows)
                    &&& indexed::lawful_key::<K>() && holds_itself::<K>() ==> deep_rows(
                        held@,
                    ) == rows::first_of_each_key(found)
                },
                Err(error) => table == Err::<Self, LoadError>(error),
            },
    {
        match from_pages(bytes) {
            Ok(rows) => {
                proof {
                    assert(deep_rows(rows@) =~= rows.deep_view());
                    if holds_itself::<K>() {
                        lemma_deep_first_of_each_key(rows@);
                    }
                }
                Ok(IndexedTable::from_rows(rows))
            },
            Err(error) => Err(error),
        }
    }
}

} // verus!
