//! What holds of pages whatever rows they carry.

use vstd::prelude::*;

use crate::hydrate::checksum;
use crate::hydrate::codec::{Codec, RowView};
use crate::hydrate::error::{LoadError, RowTooLarge};
use crate::hydrate::page::{self, BODY_SIZE, HEADER_SIZE, PAGE_SIZE, PAGE_VERSION};
use crate::hydrate::pack;
use crate::hydrate::unpack;

verus! {

/// Pages that hold rows hold them at any place of a run of the same row type.
pub proof fn law_pages_read_the_same_anywhere<K: Codec<V>, V: DeepView>(
    bytes: Seq<u8>,
    index: int,
    schema: Option<u32>,
    elsewhere: int,
    before: Option<u32>,
)
    requires
        unpack::run_outcome::<K, V>(bytes, index, schema) is Ok,
        before is None || before == Some(page::header_at(bytes).schema),
    ensures
        unpack::run_outcome::<K, V>(bytes, elsewhere, before) == unpack::run_outcome::<K, V>(
            bytes,
            index,
            schema,
        ),
    decreases bytes.len(),
{
    if bytes.len() >= PAGE_SIZE {
        reveal(unpack::page_outcome);
        unpack::lemma_header_in_page(bytes);
        let rest = bytes.skip(PAGE_SIZE as int);
        let named = Some(page::header_at(bytes).schema);
        if rest.len() >= PAGE_SIZE {
            unpack::lemma_header_in_page(rest);
            law_pages_read_the_same_anywhere::<K, V>(rest, index + 1, named, elsewhere + 1, named);
        }
    }
}

/// Pages appended to pages load as one table: the rows of the first, then the
/// rows of the second.
pub proof fn law_appended_pages_load_as_one_table<K: Codec<V>, V: DeepView>(
    a: Seq<u8>,
    b: Seq<u8>,
    expected: u32,
)
    requires
        unpack::load_outcome::<K, V>(a, expected) is Ok,
        unpack::load_outcome::<K, V>(b, expected) is Ok,
    ensures
        unpack::load_outcome::<K, V>(a + b, expected) == Ok::<Seq<RowView<K, V>>, LoadError>(
            unpack::load_outcome::<K, V>(a, expected)->Ok_0 + unpack::load_outcome::<K, V>(
                b,
                expected,
            )->Ok_0,
        ),
{
    let first = unpack::load_outcome::<K, V>(a, expected)->Ok_0;
    unpack::lemma_run_append::<K, V>(a, b, 0, None, first);
    law_pages_read_the_same_anywhere::<K, V>(
        b,
        0,
        None,
        unpack::page_count(a.len() as int),
        Some(expected),
    );
    unpack::lemma_one_page_less(a.len() as int);
    unpack::lemma_header_of_run(a, b);
    unpack::lemma_whole_pages_add(a.len() as int, b.len() as int);
}

/// Every page stands alone: cut a file that loads between two pages, and both
/// parts load, the first as the rows before the cut and the second as the rows
/// after it.
pub proof fn law_pages_stand_alone<K: Codec<V>, V: DeepView>(
    a: Seq<u8>,
    b: Seq<u8>,
    expected: u32,
)
    requires
        0 < a.len(),
        0 < b.len(),
        unpack::whole_pages(a.len() as int),
        unpack::load_outcome::<K, V>(a + b, expected) is Ok,
    ensures
        unpack::load_outcome::<K, V>(a, expected) is Ok,
        unpack::load_outcome::<K, V>(b, expected) is Ok,
        unpack::load_outcome::<K, V>(a + b, expected)->Ok_0 == unpack::load_outcome::<K, V>(
            a,
            expected,
        )->Ok_0 + unpack::load_outcome::<K, V>(b, expected)->Ok_0,
{
    lemma_prefix_reads::<K, V>(a, b, 0, None);
    let first = unpack::run_outcome::<K, V>(a, 0, None)->Ok_0;
    unpack::lemma_run_append::<K, V>(a, b, 0, None, first);
    unpack::lemma_one_page_less(a.len() as int);
    unpack::lemma_header_of_run(a, b);
    unpack::lemma_whole_pages_add(a.len() as int, b.len() as int);
    unpack::lemma_one_page_less(b.len() as int);
    let at = unpack::page_count(a.len() as int);
    unpack::lemma_resume_after_page::<K, V>(
        unpack::run_outcome::<K, V>(b, at, Some(expected)),
        Seq::empty(),
        b,
        at,
        Some(expected),
    );
    law_pages_read_the_same_anywhere::<K, V>(b, at, Some(expected), 0, None);
}

/// What stands before a cut reads, where the whole does.
proof fn lemma_prefix_reads<K: Codec<V>, V: DeepView>(
    a: Seq<u8>,
    b: Seq<u8>,
    index: int,
    schema: Option<u32>,
)
    requires
        unpack::whole_pages(a.len() as int),
        unpack::run_outcome::<K, V>(a + b, index, schema) is Ok,
    ensures
        unpack::run_outcome::<K, V>(a, index, schema) is Ok,
    decreases a.len(),
{
    if a.len() > 0 {
        unpack::lemma_one_page_less(a.len() as int);
        unpack::lemma_header_of_run(a, b);
        let tail = a.skip(PAGE_SIZE as int);
        assert((a + b).take(PAGE_SIZE as int) =~= a.take(PAGE_SIZE as int));
        assert((a + b).skip(PAGE_SIZE as int) =~= tail + b);
        lemma_prefix_reads::<K, V>(tail, b, index + 1, Some(page::header_at(a).schema));
    }
}

/// A load stops at the first page that is wrong, and says what is wrong with
/// that page: what stands after it makes no difference.
pub proof fn law_a_load_stops_at_the_first_bad_page<K: Codec<V>, V: DeepView>(
    a: Seq<u8>,
    raw: Seq<u8>,
    b: Seq<u8>,
    expected: u32,
)
    requires
        unpack::load_outcome::<K, V>(a, expected) is Ok,
        raw.len() == PAGE_SIZE,
        unpack::whole_pages(b.len() as int),
        unpack::page_outcome::<K, V>(
            raw,
            unpack::page_count(a.len() as int),
            Some(expected),
        ) is Err,
    ensures
        unpack::load_outcome::<K, V>(a + raw + b, expected) == Err::<
            Seq<RowView<K, V>>,
            LoadError,
        >(
            unpack::page_outcome::<K, V>(
                raw,
                unpack::page_count(a.len() as int),
                Some(expected),
            )->Err_0,
        ),
{
    assert(a + raw + b =~= a + (raw + b));
    assert((raw + b).take(PAGE_SIZE as int) =~= raw);
    unpack::lemma_run_append::<K, V>(
        a,
        raw + b,
        0,
        None,
        unpack::load_outcome::<K, V>(a, expected)->Ok_0,
    );
    unpack::lemma_one_page_less(a.len() as int);
    unpack::lemma_one_page_more(b.len() as int);
    unpack::lemma_whole_pages_add(a.len() as int, PAGE_SIZE + b.len());
}

/// The same of a file whose very first page is wrong.
pub proof fn law_a_load_stops_at_a_bad_first_page<K: Codec<V>, V: DeepView>(
    raw: Seq<u8>,
    b: Seq<u8>,
    expected: u32,
)
    requires
        raw.len() == PAGE_SIZE,
        unpack::whole_pages(b.len() as int),
        unpack::page_outcome::<K, V>(raw, 0, None) is Err,
    ensures
        unpack::load_outcome::<K, V>(raw + b, expected) == Err::<Seq<RowView<K, V>>, LoadError>(
            unpack::page_outcome::<K, V>(raw, 0, None)->Err_0,
        ),
{
    assert((raw + b).take(PAGE_SIZE as int) =~= raw);
    unpack::lemma_one_page_more(b.len() as int);
}

/// A page of zeroes, the shape that a torn write leaves behind, is a page of a
/// version that nobody writes, and not an empty table.
pub proof fn law_a_zeroed_page_is_refused<K: Codec<V>, V: DeepView>(
    raw: Seq<u8>,
    index: int,
    before: Option<u32>,
)
    requires
        raw.len() == PAGE_SIZE,
        forall|i: int| 0 <= i < PAGE_SIZE ==> raw[i] == 0,
    ensures
        unpack::page_outcome::<K, V>(raw, index, before) == Err::<Seq<RowView<K, V>>, LoadError>(
            LoadError::ForeignPages { page: index as usize, version: 0 },
        ),
{
    reveal(unpack::page_outcome);
    assert(page::word_at(raw, 0) == 0);
}

/// One changed byte in a page's body is caught by the checksum, whatever the
/// body then decodes as.
pub proof fn law_one_changed_body_byte_is_corrupt<K: Codec<V>, V: DeepView>(
    raw: Seq<u8>,
    at: int,
    byte: u8,
    index: int,
    before: Option<u32>,
)
    requires
        raw.len() == PAGE_SIZE,
        unpack::page_outcome::<K, V>(raw, index, before) is Ok,
        HEADER_SIZE <= at < HEADER_SIZE + page::header_at(raw).body,
        byte != raw[at],
    ensures
        ({
            let body = raw.update(at, byte).subrange(
                HEADER_SIZE as int,
                HEADER_SIZE + page::header_at(raw).body,
            );
            unpack::page_outcome::<K, V>(raw.update(at, byte), index, before) == Err::<
                Seq<RowView<K, V>>,
                LoadError,
            >(
                LoadError::Corrupt {
                    page: index as usize,
                    expected: page::directory_at(raw).crc,
                    found: checksum::crc32_of(body),
                },
            )
        }),
{
    reveal(unpack::page_outcome);
    let damaged = raw.update(at, byte);
    let end = HEADER_SIZE + page::header_at(raw).body;
    assert forall|i: int| 0 <= i < raw.len() && i != at implies damaged[i] == raw[i] by {}
    assert(page::header_at(damaged) == page::header_at(raw));
    assert(page::directory_at(damaged) == page::directory_at(raw));
    let body = raw.subrange(HEADER_SIZE as int, end);
    let torn = damaged.subrange(HEADER_SIZE as int, end);
    checksum::law_one_changed_byte_changes_the_checksum(body, torn, at - HEADER_SIZE);
}

/// Any page of a file that loads reads, where it stands.
proof fn lemma_page_of_a_file_reads<K: Codec<V>, V: DeepView>(
    a: Seq<u8>,
    raw: Seq<u8>,
    b: Seq<u8>,
    expected: u32,
)
    requires
        unpack::whole_pages(a.len() as int),
        raw.len() == PAGE_SIZE,
        unpack::load_outcome::<K, V>(a + raw + b, expected) is Ok,
    ensures
        unpack::whole_pages(b.len() as int),
        a.len() > 0 ==> unpack::load_outcome::<K, V>(a, expected) is Ok,
        unpack::page_outcome::<K, V>(
            raw,
            unpack::page_count(a.len() as int),
            if a.len() == 0 {
                None
            } else {
                Some(expected)
            },
        ) is Ok,
{
    assert(a + raw + b =~= a + (raw + b));
    assert((raw + b).take(PAGE_SIZE as int) =~= raw);
    unpack::lemma_no_pages();
    unpack::lemma_whole_pages_add(a.len() as int, PAGE_SIZE + b.len());
    unpack::lemma_one_page_less(PAGE_SIZE + b.len());
    if a.len() == 0 {
        assert(a + (raw + b) =~= raw + b);
    } else {
        law_pages_stand_alone::<K, V>(a, raw + b, expected);
        unpack::lemma_run_append::<K, V>(
            a,
            raw + b,
            0,
            None,
            unpack::load_outcome::<K, V>(a, expected)->Ok_0,
        );
    }
}

/// One changed byte in the body of any page of a file that loads is caught, and
/// the page that it happened to is named.
pub proof fn law_one_changed_byte_in_a_file_is_corrupt<K: Codec<V>, V: DeepView>(
    a: Seq<u8>,
    raw: Seq<u8>,
    b: Seq<u8>,
    at: int,
    byte: u8,
    expected: u32,
)
    requires
        unpack::whole_pages(a.len() as int),
        raw.len() == PAGE_SIZE,
        unpack::load_outcome::<K, V>(a + raw + b, expected) is Ok,
        HEADER_SIZE <= at < HEADER_SIZE + page::header_at(raw).body,
        byte != raw[at],
    ensures
        unpack::load_outcome::<K, V>(a + raw.update(at, byte) + b, expected) matches Err(
            LoadError::Corrupt { page, expected: promised, .. },
        ) && page == unpack::page_count(a.len() as int) as usize && promised == page::directory_at(
            raw,
        ).crc,
{
    let index = unpack::page_count(a.len() as int);
    let before = if a.len() == 0 {
        None
    } else {
        Some(expected)
    };
    lemma_page_of_a_file_reads::<K, V>(a, raw, b, expected);
    unpack::lemma_page_names_its_type::<K, V>(raw, index, before);
    let damaged = raw.update(at, byte);
    assert(damaged.len() == PAGE_SIZE);
    law_one_changed_body_byte_is_corrupt::<K, V>(raw, at, byte, index, before);
    if a.len() == 0 {
        unpack::lemma_no_pages();
        assert(a + damaged + b =~= damaged + b);
        law_a_load_stops_at_a_bad_first_page::<K, V>(damaged, b, expected);
    } else {
        law_a_load_stops_at_the_first_bad_page::<K, V>(a, damaged, b, expected);
    }
}

/// A page that names another row type than the pages before it is refused as
/// such: two files spliced together are not one longer file.
pub proof fn law_a_spliced_page_is_inconsistent<K: Codec<V>, V: DeepView>(
    raw: Seq<u8>,
    index: int,
    schema: u32,
)
    requires
        page::header_at(raw).version == PAGE_VERSION,
        page::header_at(raw).schema != schema,
    ensures
        unpack::page_outcome::<K, V>(raw, index, Some(schema)) == Err::<
            Seq<RowView<K, V>>,
            LoadError,
        >(LoadError::Inconsistent { page: index as usize }),
{
    reveal(unpack::page_outcome);
}

/// A page whose header is not that of a page of rows of this build never reads:
/// every field of a header is checked. Where nothing else is wrong with the page,
/// the type is named, and after it the neighbours.
pub proof fn law_an_unsound_header_is_refused<K: Codec<V>, V: DeepView>(
    raw: Seq<u8>,
    index: int,
    before: Option<u32>,
)
    requires
        !page::header_at(raw).is_sound(),
    ensures
        unpack::page_outcome::<K, V>(raw, index, before) is Err,
        page::header_at(raw).version != PAGE_VERSION ==> unpack::page_outcome::<K, V>(
            raw,
            index,
            before,
        ) == Err::<Seq<RowView<K, V>>, LoadError>(
            LoadError::ForeignPages {
                page: index as usize,
                version: page::header_at(raw).version,
            },
        ),
{
    reveal(unpack::page_outcome);
}

/// A page that reads, with nothing changed but what its header says of the page's
/// number, its neighbours and its type, is refused for its type, or else for its
/// neighbours; and where it has nothing wrong in these either, it reads as it did.
pub proof fn law_another_place_or_type_is_refused<K: Codec<V>, V: DeepView>(
    raw: Seq<u8>,
    changed: Seq<u8>,
    index: int,
    before: Option<u32>,
)
    requires
        raw.len() == PAGE_SIZE,
        changed.len() == PAGE_SIZE,
        unpack::page_outcome::<K, V>(raw, index, before) is Ok,
        forall|i: int| 0 <= i < PAGE_SIZE && !(8 <= i < 24) ==> changed[i] == raw[i],
    ensures
        unpack::page_outcome::<K, V>(changed, index, before) == {
            let header = page::header_at(changed);
            if header.page_type != page::PAGE_TYPE_DATA {
                Err(LoadError::ForeignType { page: index as usize, page_type: header.page_type })
            } else if !header.is_linked() {
                Err(LoadError::Unlinked { page: index as usize })
            } else {
                unpack::page_outcome::<K, V>(raw, index, before)
            }
        },
{
    reveal(unpack::page_outcome);
    let end = HEADER_SIZE + page::header_at(raw).body;
    assert(page::header_at(changed).body == page::header_at(raw).body);
    assert(page::directory_at(changed) == page::directory_at(raw));
    assert(changed.subrange(HEADER_SIZE as int, end) =~= raw.subrange(HEADER_SIZE as int, end));
}

/// Bytes whose first page names another row type never load.
pub proof fn law_foreign_rows_never_load<K: Codec<V>, V: DeepView>(bytes: Seq<u8>, expected: u32)
    requires
        page::header_at(bytes).schema != expected,
    ensures
        unpack::load_outcome::<K, V>(bytes, expected) is Err,
        unpack::run_outcome::<K, V>(bytes, 0, None) is Ok && 0 < bytes.len() && unpack::whole_pages(
            bytes.len() as int,
        ) ==> unpack::load_outcome::<K, V>(bytes, expected) == Err::<
            Seq<RowView<K, V>>,
            LoadError,
        >(LoadError::ForeignRows { found: page::header_at(bytes).schema, expected }),
{
}

/// How many rows the directories of these pages promise.
pub open spec fn rows_declared(bytes: Seq<u8>) -> int
    decreases bytes.len(),
{
    if bytes.len() < PAGE_SIZE {
        0
    } else {
        page::directory_at(bytes.take(PAGE_SIZE as int)).rows + rows_declared(
            bytes.skip(PAGE_SIZE as int),
        )
    }
}

/// Pages account for every row they hold, without an index.
pub proof fn law_pages_declare_their_rows<K: Codec<V>, V: DeepView>(
    bytes: Seq<u8>,
    index: int,
    schema: Option<u32>,
)
    requires
        unpack::run_outcome::<K, V>(bytes, index, schema) is Ok,
    ensures
        rows_declared(bytes) == unpack::run_outcome::<K, V>(bytes, index, schema)->Ok_0.len(),
    decreases bytes.len(),
{
    if bytes.len() >= PAGE_SIZE {
        reveal(unpack::page_outcome);
        law_pages_declare_their_rows::<K, V>(
            bytes.skip(PAGE_SIZE as int),
            index + 1,
            Some(page::header_at(bytes).schema),
        );
    }
}

/// A refusal names a row whose archive alone is longer than a page body, and
/// says how long it is.
pub proof fn law_a_refusal_names_a_row_too_large<K: Codec<V>, V: DeepView>(
    rows: Seq<RowView<K, V>>,
    schema: u32,
    page: int,
    first: int,
    hint: int,
    refusal: RowTooLarge,
)
    requires
        rows.len() > 0,
        pack::pages_of::<K, V>(rows, schema, page, first, hint) == Err::<Seq<u8>, RowTooLarge>(
            refusal,
        ),
    ensures
        exists|k: int|
            0 <= k < rows.len() && refusal.row == (first + k) as usize && K::archive(
                seq![#[trigger] rows[k]],
            ).len() > BODY_SIZE && refusal.bytes == K::archive(seq![rows[k]]).len() as usize
                && refusal.limit == BODY_SIZE,
    decreases rows.len(),
{
    reveal(pack::pages_of);
    let take = pack::page_take::<K, V>(rows, hint);
    pack::law_a_page_is_as_full_as_the_search_allows::<K, V>(rows, hint);
    if K::archive(rows.take(take)).len() > BODY_SIZE {
        assert(rows.take(take) =~= seq![rows[0]]);
    } else {
        let rest = rows.skip(take);
        law_a_refusal_names_a_row_too_large::<K, V>(
            rest,
            schema,
            page + 1,
            first + take,
            take,
            refusal,
        );
        let k = choose|k: int|
            0 <= k < rest.len() && refusal.row == (first + take + k) as usize && K::archive(
                seq![#[trigger] rest[k]],
            ).len() > BODY_SIZE && refusal.bytes == K::archive(seq![rest[k]]).len() as usize
                && refusal.limit == BODY_SIZE;
        assert(rest[k] == rows[take + k]);
    }
}

/// The page with this number, counting from the front.
pub open spec fn nth_page(bytes: Seq<u8>, n: int) -> Seq<u8>
    decreases n,
{
    if n <= 0 {
        bytes.take(PAGE_SIZE as int)
    } else {
        nth_page(bytes.skip(PAGE_SIZE as int), n - 1)
    }
}

/// Rows always become at least one page and only whole pages; no rows become
/// exactly one page.
pub proof fn law_an_unload_is_whole_pages<K: Codec<V>, V: DeepView>(
    rows: Seq<RowView<K, V>>,
    schema: u32,
    page: int,
    first: int,
    hint: int,
)
    requires
        pack::pages_of::<K, V>(rows, schema, page, first, hint) is Ok,
    ensures
        ({
            let bytes = pack::pages_of::<K, V>(rows, schema, page, first, hint)->Ok_0;
            &&& bytes.len() >= PAGE_SIZE
            &&& unpack::whole_pages(bytes.len() as int)
            &&& rows.len() == 0 ==> bytes.len() == PAGE_SIZE
            &&& unpack::page_count(bytes.len() as int) >= 1
            &&& unpack::page_count(bytes.len() as int) <= 1 || unpack::page_count(
                bytes.len() as int,
            ) <= rows.len()
        }),
    decreases rows.len(),
{
    reveal(pack::pages_of);
    let take = pack::page_take::<K, V>(rows, hint);
    let body = K::archive(rows.take(take));
    let header = pack::page_header(schema, page, rows.len() == take, body.len() as int);
    pack::law_a_page_is_as_full_as_the_search_allows::<K, V>(rows, hint);
    pack::lemma_page_image_opens_with_header(header, take, body);
    unpack::lemma_no_pages();
    unpack::lemma_one_page_more(0);
    if rows.len() != take {
        law_an_unload_is_whole_pages::<K, V>(
            rows.skip(take),
            schema,
            page + 1,
            first + take,
            take,
        );
        let left = rows.skip(take);
        let rest = pack::pages_of::<K, V>(left, schema, page + 1, first + take, take)->Ok_0;
        unpack::lemma_one_page_more(rest.len() as int);
    }
}

/// The pages of an unload are a chain: each names its own number, the page
/// before it and the page after it; the first has itself before it and the last
/// has itself after it. Every one of them names the row type.
pub proof fn law_pages_are_a_chain<K: Codec<V>, V: DeepView>(
    rows: Seq<RowView<K, V>>,
    schema: u32,
    page: int,
    first: int,
    hint: int,
    n: int,
)
    requires
        0 <= page,
        pack::numbers_fit::<K, V>(rows, page, hint),
        pack::pages_of::<K, V>(rows, schema, page, first, hint) is Ok,
        0 <= n < unpack::page_count(
            pack::pages_of::<K, V>(rows, schema, page, first, hint)->Ok_0.len() as int,
        ),
    ensures
        ({
            let bytes = pack::pages_of::<K, V>(rows, schema, page, first, hint)->Ok_0;
            let header = page::header_at(nth_page(bytes, n));
            &&& header.version == PAGE_VERSION
            &&& header.schema == schema
            &&& header.page_type == page::PAGE_TYPE_DATA
            &&& header.page == page + n
            &&& header.previous == if page + n == 0 {
                0
            } else {
                page + n - 1
            }
            &&& header.next == if n + 1 == unpack::page_count(bytes.len() as int) {
                page + n
            } else {
                page + n + 1
            }
            &&& header.body <= BODY_SIZE
        }),
    decreases rows.len(),
{
    reveal(pack::pages_of);
    reveal(pack::numbers_fit);
    let bytes = pack::pages_of::<K, V>(rows, schema, page, first, hint)->Ok_0;
    let take = pack::page_take::<K, V>(rows, hint);
    let last = rows.len() == take;
    let body = K::archive(rows.take(take));
    let header = pack::page_header(schema, page, last, body.len() as int);
    let image = pack::page_image(header, take, body);
    pack::law_a_page_is_as_full_as_the_search_allows::<K, V>(rows, hint);
    pack::lemma_page_image_opens_with_header(header, take, body);
    law_an_unload_is_whole_pages::<K, V>(rows, schema, page, first, hint);
    unpack::lemma_no_pages();
    unpack::lemma_one_page_less(bytes.len() as int);
    assert(bytes.take(PAGE_SIZE as int) =~= image);
    if !last {
        let left = rows.skip(take);
        let rest = pack::pages_of::<K, V>(left, schema, page + 1, first + take, take)->Ok_0;
        assert(bytes.skip(PAGE_SIZE as int) =~= rest);
        law_an_unload_is_whole_pages::<K, V>(left, schema, page + 1, first + take, take);
        if n > 0 {
            law_pages_are_a_chain::<K, V>(left, schema, page + 1, first + take, take, n - 1);
        }
    }
}

/// Behind the body of a page there is nothing but zeroes, up to the directory.
pub proof fn law_the_rest_of_a_page_is_zeroes(
    header: page::Header,
    rows: int,
    body: Seq<u8>,
    i: int,
)
    requires
        HEADER_SIZE + body.len() <= i < PAGE_SIZE - page::DIRECTORY_SIZE,
    ensures
        pack::page_image(header, rows, body)[i] == 0,
{
    reveal(pack::page_image);
    page::law_header_round_trip(header, Seq::empty());
}

} // verus!
