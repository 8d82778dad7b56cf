//! A table as one archive, spread over the bodies of a run of pages.
//!
//! The pages are deliberately modest: a fixed 24 byte header of little-endian
//! integers, then a body. The archive is cut wherever a page ends, so a run of
//! pages is read whole or not at all: it does not grow by appending, and one bad
//! page spoils it. The pages of [`pack`](crate::hydrate::pack) are the ones that
//! stand alone. The two kinds carry different versions, and neither reads the
//! other.

use vstd::prelude::*;
use vstd::slice::slice_subrange;
use vstd::string::StringExecFns;

use crate::hydrate::codec::{self, fingerprint, Codec, RowView};
use crate::hydrate::page::{self, push_word, read_word, PAGE_SIZE};
use crate::hydrate::tables;
use crate::hydrate::unpack;
use crate::indexed::{self, IndexedTable};
use crate::linear::LinearTable;
use crate::rows;
use crate::text::{self, push_decimal, push_hex_word};

verus! {

/// The fixed header every page opens with.
pub const HEADER_SIZE: usize = 24;

/// How much of a page is body.
pub const BODY_SIZE: usize = PAGE_SIZE - HEADER_SIZE;

/// Bumped when the page layout changes, so an older file is refused instead of
/// being read through the new shape.
pub const PAGE_VERSION: u32 = 1;

/// What a load can refuse on.
///
/// Every variant is a statement about the bytes rather than about the caller,
/// because a load either recognises what it was handed or does not.
#[derive(Clone, Copy, Debug, PartialEq, Eq, Structural)]
#[allow(inconsistent_fields)]
pub enum LoadError {
    /// The byte length is not a whole number of pages.
    NotWholePages {
        /// How many bytes arrived.
        found: usize,
    },
    /// A page carries a version this build does not write.
    ///
    /// Also what a page of zeroes looks like, which is the shape a torn write
    /// leaves behind.
    ForeignPages {
        /// Which page, counting from zero.
        page: usize,
        /// The version that page claims.
        version: u32,
    },
    /// A header claimed a body longer than a page holds.
    Overlong {
        /// Which page, counting from zero.
        page: usize,
        /// What its header claimed.
        claimed: usize,
    },
    /// The pages disagree with each other about the row type.
    Inconsistent {
        /// Which page disagreed.
        page: usize,
    },
    /// A page is from another run: it is not the page of its number, or names
    /// another number of pages than the pages before it.
    OtherRun {
        /// Which page, counting from zero.
        page: usize,
    },
    /// The run has another number of pages than arrived: it was cut short, or
    /// something was put behind it.
    PageCount {
        /// How many pages the run has.
        expected: usize,
        /// How many pages arrived.
        found: usize,
    },
    /// These are a different row type's bytes.
    ///
    /// Caught by a fingerprint rather than by deserialization, because
    /// deserialization does not catch it: a `(u64, String)` archive validates
    /// as a perfectly good `(u64, u64)` and hands back a `String`'s relative
    /// pointer as an integer. Keys look right, values are debris, and nothing
    /// errors.
    ForeignRows {
        /// The fingerprint these bytes were written with.
        found: u32,
        /// The fingerprint this row type expects.
        expected: u32,
    },
    /// The row bytes did not deserialize.
    Rows,
}

impl LoadError {
    /// What went wrong, in words.
    pub open spec fn message(self) -> Seq<char> {
        match self {
            LoadError::NotWholePages { found } => text::decimal(found as nat)
                + " bytes is not a whole number of "@ + text::decimal(PAGE_SIZE as nat)
                + " byte pages"@,
            LoadError::ForeignPages { page, version } => "page "@ + text::decimal(page as nat)
                + " is version "@ + text::decimal(version as nat) + ", and this build writes "@
                + text::decimal(PAGE_VERSION as nat),
            LoadError::Overlong { page, claimed } => "page "@ + text::decimal(page as nat)
                + " claims a "@ + text::decimal(claimed as nat)
                + " byte body, more than a page holds"@,
            LoadError::Inconsistent { page } => "page "@ + text::decimal(page as nat)
                + " names a different row type"@,
            LoadError::OtherRun { page } => "page "@ + text::decimal(page as nat)
                + " is from another run"@,
            LoadError::PageCount { expected, found } => "the run has "@ + text::decimal(
                expected as nat,
            ) + " pages, and "@ + text::decimal(found as nat) + " arrived"@,
            LoadError::ForeignRows { found, expected } => "these are row type "@ + text::hex_word(
                found,
            ) + ", and this is row type "@ + text::hex_word(expected),
            LoadError::Rows => "the row bytes did not deserialize"@,
        }
    }

    /// What went wrong, in words.
    pub fn to_string(&self) -> (text: String)
        ensures
            text@ == self.message(),
    {
        let mut out = String::new();
        match *self {
            LoadError::NotWholePages { found } => {
                push_decimal(&mut out, found as u64);
                out.append(" bytes is not a whole number of ");
                push_decimal(&mut out, PAGE_SIZE as u64);
                out.append(" byte pages");
            },
            LoadError::ForeignPages { page, version } => {
                out.append("page ");
                push_decimal(&mut out, page as u64);
                out.append(" is version ");
                push_decimal(&mut out, version as u64);
                out.append(", and this build writes ");
                push_decimal(&mut out, PAGE_VERSION as u64);
            },
            LoadError::Overlong { page, claimed } => {
                out.append("page ");
                push_decimal(&mut out, page as u64);
                out.append(" claims a ");
                push_decimal(&mut out, claimed as u64);
                out.append(" byte body, more than a page holds");
            },
            LoadError::Inconsistent { page } => {
                out.append("page ");
                push_decimal(&mut out, page as u64);
                out.append(" names a different row type");
            },
            LoadError::OtherRun { page } => {
                out.append("page ");
                push_decimal(&mut out, page as u64);
                out.append(" is from another run");
            },
            LoadError::PageCount { expected, found } => {
                out.append("the run has ");
                push_decimal(&mut out, expected as u64);
                out.append(" pages, and ");
                push_decimal(&mut out, found as u64);
                out.append(" arrived");
            },
            LoadError::ForeignRows { found, expected } => {
                out.append("these are row type ");
                push_hex_word(&mut out, found);
                out.append(", and this is row type ");
                push_hex_word(&mut out, expected);
            },
            LoadError::Rows => {
                out.append("the row bytes did not deserialize");
            },
        }
        assert(out@ =~= self.message());
        out
    }
}

/// A page header: six little-endian `u32`s, in this order.
#[derive(Clone, Copy, Debug, PartialEq, Eq, Structural)]
pub struct Header {
    /// See [`PAGE_VERSION`].
    pub version: u32,
    /// The row type every page in this run carries.
    pub schema: u32,
    pub page: u32,
    /// How many pages the run has, so a truncated one is visible from page zero.
    pub pages: u32,
    /// Bytes of archive in this page.
    pub body: u32,
    /// Zero for now. A layout change that needs a flag has somewhere to put it
    /// without moving anything else.
    pub reserved: u32,
}

/// The header that opens `raw`.
pub open spec fn header_at(raw: Seq<u8>) -> Header {
    Header {
        version: page::word_at(raw, 0),
        schema: page::word_at(raw, 4),
        page: page::word_at(raw, 8),
        pages: page::word_at(raw, 12),
        body: page::word_at(raw, 16),
        reserved: page::word_at(raw, 20),
    }
}

impl Header {
    /// The header as it stands in a page.
    pub open spec fn bytes(self) -> Seq<u8> {
        page::le_word(self.version) + page::le_word(self.schema) + page::le_word(self.page)
            + page::le_word(self.pages) + page::le_word(self.body) + page::le_word(self.reserved)
    }

    /// Append the header to `out`.
    pub fn write(self, out: &mut Vec<u8>)
        ensures
            final(out)@ == old(out)@ + self.bytes(),
    {
        push_word(out, self.version);
        push_word(out, self.schema);
        push_word(out, self.page);
        push_word(out, self.pages);
        push_word(out, self.body);
        push_word(out, self.reserved);
        assert(out@ =~= old(out)@ + self.bytes());
    }

    /// The header that opens `raw`.
    pub fn read(raw: &[u8]) -> (header: Self)
        requires
            raw@.len() >= HEADER_SIZE,
        ensures
            header == header_at(raw@),
    {
        Header {
            version: read_word(raw, 0),
            schema: read_word(raw, 4),
            page: read_word(raw, 8),
            pages: read_word(raw, 12),
            body: read_word(raw, 16),
            reserved: read_word(raw, 20),
        }
    }
}

/// Reading a header gives back the header that was written, whatever follows
/// it in the page.
pub proof fn law_header_round_trip(header: Header, rest: Seq<u8>)
    ensures
        header.bytes().len() == HEADER_SIZE,
        header_at(header.bytes() + rest) == header,
{
    let raw = header.bytes() + rest;
    assert(raw.subrange(0, 4) =~= page::le_word(header.version));
    assert(raw.subrange(4, 8) =~= page::le_word(header.schema));
    assert(raw.subrange(8, 12) =~= page::le_word(header.page));
    assert(raw.subrange(12, 16) =~= page::le_word(header.pages));
    assert(raw.subrange(16, 20) =~= page::le_word(header.body));
    assert(raw.subrange(20, 24) =~= page::le_word(header.reserved));
    page::law_word_round_trip(raw, 0, header.version);
    page::law_word_round_trip(raw, 4, header.schema);
    page::law_word_round_trip(raw, 8, header.page);
    page::law_word_round_trip(raw, 12, header.pages);
    page::law_word_round_trip(raw, 16, header.body);
    page::law_word_round_trip(raw, 20, header.reserved);
}

/// How many pages a body of this length is spread over. No body at all still
/// takes one: a zero byte file would be indistinguishable from a missing one,
/// and a load has to be able to tell "no rows" from "nothing landed".
pub open spec fn pages_for(len: int) -> int {
    if len <= BODY_SIZE {
        1
    } else {
        (len + BODY_SIZE - 1) / (BODY_SIZE as int)
    }
}

/// The header of page number `page` of `pages`.
pub open spec fn page_header(schema: u32, page: int, pages: int, body: int) -> Header {
    Header {
        version: PAGE_VERSION,
        schema,
        page: page as u32,
        pages: pages as u32,
        body: body as u32,
        reserved: 0,
    }
}

/// A page: its header, its part of the archive, and zeroes.
#[verifier::opaque]
pub open spec fn page_image(header: Header, part: Seq<u8>) -> Seq<u8> {
    header.bytes() + part + Seq::new((BODY_SIZE - part.len()) as nat, |i: int| 0u8)
}

/// The pages of an archive, from page number `page` on.
pub open spec fn spread_from(body: Seq<u8>, schema: u32, page: int, pages: int) -> Seq<u8>
    decreases body.len(),
{
    if body.len() <= BODY_SIZE {
        page_image(page_header(schema, page, pages, body.len() as int), body)
    } else {
        page_image(
            page_header(schema, page, pages, BODY_SIZE as int),
            body.take(BODY_SIZE as int),
        ) + spread_from(body.skip(BODY_SIZE as int), schema, page + 1, pages)
    }
}

/// The pages of an archive.
pub open spec fn spread(body: Seq<u8>, schema: u32) -> Seq<u8> {
    spread_from(body, schema, 0, pages_for(body.len() as int))
}

/// What a page brings to the archive, or the first thing wrong with it.
///
/// `schema` is the row type that the pages before it named, if there were any.
#[verifier::opaque]
pub open spec fn part_of(raw: Seq<u8>, index: int, schema: Option<u32>) -> Result<
    Seq<u8>,
    LoadError,
> {
    let header = header_at(raw);
    if header.version != PAGE_VERSION {
        Err(LoadError::ForeignPages { page: index as usize, version: header.version })
    } else if schema is Some && schema != Some(header.schema) {
        Err(LoadError::Inconsistent { page: index as usize })
    } else if header.body > BODY_SIZE {
        Err(LoadError::Overlong { page: index as usize, claimed: header.body as usize })
    } else {
        Ok(raw.subrange(HEADER_SIZE as int, HEADER_SIZE + header.body))
    }
}

/// What a run of pages brings to the archive, or the first thing wrong with it.
pub open spec fn parts_of(bytes: Seq<u8>, index: int, schema: Option<u32>) -> Result<
    Seq<u8>,
    LoadError,
>
    decreases bytes.len(),
{
    if bytes.len() < PAGE_SIZE {
        Ok(Seq::empty())
    } else {
        match part_of(bytes.take(PAGE_SIZE as int), index, schema) {
            Err(error) => Err(error),
            Ok(part) => match parts_of(
                bytes.skip(PAGE_SIZE as int),
                index + 1,
                Some(header_at(bytes).schema),
            ) {
                Err(error) => Err(error),
                Ok(rest) => Ok(part + rest),
            },
        }
    }
}

/// The row type and the archive that these bytes carry, or the first thing
/// wrong with them.
pub open spec fn gathered(bytes: Seq<u8>) -> Result<(u32, Seq<u8>), LoadError> {
    if bytes.len() == 0 || !unpack::whole_pages(bytes.len() as int) {
        Err(LoadError::NotWholePages { found: bytes.len() as usize })
    } else {
        match parts_of(bytes, 0, None) {
            Err(error) => Err(error),
            Ok(body) => Ok((header_at(bytes).schema, body)),
        }
    }
}

/// The first page, from page number `index` on, that is not the page of its
/// number in a run of `pages`.
pub open spec fn misplaced(bytes: Seq<u8>, index: int, pages: u32) -> Option<usize>
    decreases bytes.len(),
{
    if bytes.len() < PAGE_SIZE {
        None
    } else if header_at(bytes).page != index || header_at(bytes).pages != pages {
        Some(index as usize)
    } else {
        misplaced(bytes.skip(PAGE_SIZE as int), index + 1, pages)
    }
}

/// What keeps these pages from being one whole run, if anything does.
pub open spec fn run_fault(bytes: Seq<u8>) -> Option<LoadError> {
    let pages = header_at(bytes).pages;
    match misplaced(bytes, 0, pages) {
        Some(page) => Some(LoadError::OtherRun { page }),
        None => if pages != unpack::page_count(bytes.len() as int) {
            Some(
                LoadError::PageCount {
                    expected: pages as usize,
                    found: unpack::page_count(bytes.len() as int) as usize,
                },
            )
        } else {
            None
        },
    }
}

/// What a load of these bytes gives, for a row type with this fingerprint.
pub open spec fn load_outcome<K: Codec<V>, V: DeepView>(bytes: Seq<u8>, expected: u32) -> Result<
    Seq<RowView<K, V>>,
    LoadError,
> {
    match gathered(bytes) {
        Err(error) => Err(error),
        Ok((found, body)) => if found != expected {
            Err(LoadError::ForeignRows { found, expected })
        } else {
            match run_fault(bytes) {
                Some(error) => Err(error),
                None => match K::unarchive(body) {
                    Some(rows) => Ok(rows),
                    None => Err(LoadError::Rows),
                },
            }
        },
    }
}

/// What an unload of these rows gives: the pages of their archive, which load as
/// the rows again.
pub open spec fn unloaded<K: Codec<V>, V: DeepView>(
    rows: Seq<RowView<K, V>>,
    pages: Seq<u8>,
) -> bool {
    &&& pages_for(K::archive(rows).len() as int) <= u32::MAX
    &&& pages == spread(K::archive(rows), codec::row_schema::<K, V>())
    &&& load_outcome::<K, V>(pages, codec::row_schema::<K, V>()) == Ok::<
        Seq<RowView<K, V>>,
        LoadError,
    >(rows)
}

/// What a load of these bytes gives.
pub open spec fn loaded<K: Codec<V>, V: DeepView>(
    bytes: Seq<u8>,
    table: Result<LinearTable<K, V>, LoadError>,
) -> bool {
    match load_outcome::<K, V>(bytes, codec::row_schema::<K, V>()) {
        Ok(found) => table matches Ok(held) && tables::deep_rows(held@) == found,
        Err(error) => table == Err::<LinearTable<K, V>, LoadError>(error),
    }
}

proof fn lemma_page_image_opens_with_header(header: Header, part: Seq<u8>)
    requires
        part.len() <= BODY_SIZE,
    ensures
        page_image(header, part).len() == PAGE_SIZE,
        header_at(page_image(header, part)) == header,
        page_image(header, part).subrange(HEADER_SIZE as int, HEADER_SIZE + part.len()) == part,
{
    reveal(page_image);
    let zeroes = Seq::new((BODY_SIZE - part.len()) as nat, |i: int| 0u8);
    law_header_round_trip(header, part + zeroes);
    assert(header.bytes() + (part + zeroes) =~= page_image(header, part));
    assert(page_image(header, part).subrange(HEADER_SIZE as int, HEADER_SIZE + part.len())
        =~= part);
}

/// A run's first header is its first page's, whatever follows.
proof fn lemma_header_of_run(a: Seq<u8>, b: Seq<u8>)
    requires
        a.len() >= PAGE_SIZE,
    ensures
        header_at(a + b) == header_at(a),
        header_at(a.take(PAGE_SIZE as int)) == header_at(a),
{
    assert forall|i: int| 0 <= i < HEADER_SIZE implies (a + b)[i] == a[i] by {}
    assert forall|i: int| 0 <= i < HEADER_SIZE implies a.take(PAGE_SIZE as int)[i] == a[i] by {}
}

/// A page brings to the archive what was put into it.
proof fn lemma_page_image_holds_part(
    schema: u32,
    page: int,
    pages: int,
    part: Seq<u8>,
    before: Option<u32>,
)
    requires
        part.len() <= BODY_SIZE,
        0 <= page < pages <= u32::MAX,
        before is None || before == Some(schema),
    ensures
        ({
            let image = page_image(page_header(schema, page, pages, part.len() as int), part);
            &&& image.len() == PAGE_SIZE
            &&& header_at(image).schema == schema
            &&& header_at(image).page == page
            &&& header_at(image).pages == pages
            &&& part_of(image, page, before) == Ok::<Seq<u8>, LoadError>(part)
        }),
{
    reveal(part_of);
    lemma_page_image_opens_with_header(
        page_header(schema, page, pages, part.len() as int),
        part,
    );
}

/// One full page less of a body is one page less.
proof fn lemma_pages_for_rest(len: int)
    requires
        len > BODY_SIZE,
    ensures
        pages_for(len) == pages_for(len - BODY_SIZE) + 1,
        pages_for(len - BODY_SIZE) >= 1,
{
    let less = len - 16360;
    assert((len + 16360 - 1) / 16360 == (less + 16360 - 1) / 16360 + 1);
    assert(0 < less <= 16360 ==> (less + 16360 - 1) / 16360 == 1);
    assert(less > 16360 ==> (less + 16360 - 1) / 16360 >= 1);
}

/// What is spread over pages, from page number `page` of `pages` on, is gathered
/// again, whatever row type the pages name; it takes as many pages as it should,
/// and each of them is the page of its number.
proof fn lemma_what_is_spread_is_gathered(
    body: Seq<u8>,
    schema: u32,
    page: int,
    pages: int,
    before: Option<u32>,
)
    requires
        0 <= page,
        page + pages_for(body.len() as int) <= pages <= u32::MAX,
        before is None || before == Some(schema),
    ensures
        parts_of(spread_from(body, schema, page, pages), page, before) == Ok::<
            Seq<u8>,
            LoadError,
        >(body),
        header_at(spread_from(body, schema, page, pages)).schema == schema,
        header_at(spread_from(body, schema, page, pages)).page == page,
        header_at(spread_from(body, schema, page, pages)).pages == pages,
        misplaced(spread_from(body, schema, page, pages), page, pages as u32) is None,
        spread_from(body, schema, page, pages).len() >= PAGE_SIZE,
        unpack::whole_pages(spread_from(body, schema, page, pages).len() as int),
        unpack::page_count(spread_from(body, schema, page, pages).len() as int) == pages_for(
            body.len() as int,
        ),
    decreases body.len(),
{
    let last = body.len() <= BODY_SIZE;
    let part = if last {
        body
    } else {
        body.take(BODY_SIZE as int)
    };
    let image = page_image(page_header(schema, page, pages, part.len() as int), part);
    if !last {
        lemma_pages_for_rest(body.len() as int);
    }
    lemma_page_image_holds_part(schema, page, pages, part, before);
    let rest = if last {
        Seq::empty()
    } else {
        spread_from(body.skip(BODY_SIZE as int), schema, page + 1, pages)
    };
    let bytes = image + rest;
    assert(spread_from(body, schema, page, pages) =~= bytes);
    assert(bytes.take(PAGE_SIZE as int) =~= image);
    assert(bytes.skip(PAGE_SIZE as int) =~= rest);
    lemma_header_of_run(image, rest);
    unpack::lemma_no_pages();
    assert(part_of(bytes.take(PAGE_SIZE as int), page, before) == Ok::<Seq<u8>, LoadError>(part));
    if last {
        unpack::lemma_one_page_more(0);
        assert(parts_of(rest, page + 1, Some(schema)) == Ok::<Seq<u8>, LoadError>(Seq::empty()));
        assert(misplaced(rest, page + 1, pages as u32) is None);
        assert(part + Seq::empty() =~= body);
    } else {
        lemma_what_is_spread_is_gathered(
            body.skip(BODY_SIZE as int),
            schema,
            page + 1,
            pages,
            Some(schema),
        );
        unpack::lemma_one_page_more(rest.len() as int);
        assert(part + body.skip(BODY_SIZE as int) =~= body);
    }
}

/// What is spread over pages is gathered again: the row type and the archive come
/// back as they went in, and nothing is wrong with the run.
pub proof fn law_what_is_spread_is_gathered(body: Seq<u8>, schema: u32)
    requires
        pages_for(body.len() as int) <= u32::MAX,
    ensures
        gathered(spread(body, schema)) == Ok::<(u32, Seq<u8>), LoadError>((schema, body)),
        run_fault(spread(body, schema)) is None,
        header_at(spread(body, schema)).pages == pages_for(body.len() as int),
        spread(body, schema).len() >= PAGE_SIZE,
        unpack::whole_pages(spread(body, schema).len() as int),
        unpack::page_count(spread(body, schema).len() as int) == pages_for(body.len() as int),
{
    lemma_what_is_spread_is_gathered(body, schema, 0, pages_for(body.len() as int), None);
}

/// Rows are read only where the run has as many pages as arrived, and each page
/// is the page of its number.
pub proof fn law_a_run_is_read_whole_or_not_at_all<K: Codec<V>, V: DeepView>(
    bytes: Seq<u8>,
    expected: u32,
)
    requires
        load_outcome::<K, V>(bytes, expected) is Ok,
    ensures
        unpack::page_count(bytes.len() as int) == header_at(bytes).pages,
        misplaced(bytes, 0, header_at(bytes).pages) is None,
{
}

/// Two runs put together are refused, whether of one row type or of two: neither
/// comes back in the place of both.
pub proof fn law_two_runs_are_not_one<K: Codec<V>, V: DeepView>(
    a: Seq<u8>,
    b: Seq<u8>,
    schema_a: u32,
    schema_b: u32,
    expected: u32,
)
    requires
        pages_for(a.len() as int) <= u32::MAX,
        pages_for(b.len() as int) <= u32::MAX,
    ensures
        run_fault(spread(a, schema_a) + spread(b, schema_b)) is Some,
        load_outcome::<K, V>(spread(a, schema_a) + spread(b, schema_b), expected) is Err,
{
    let one = spread(a, schema_a);
    let two = spread(b, schema_b);
    law_what_is_spread_is_gathered(a, schema_a);
    law_what_is_spread_is_gathered(b, schema_b);
    lemma_page_numbers(b.len() as int);
    lemma_header_of_run(one, two);
    unpack::lemma_page_counts_add(one.len() as int, two.len() as int);
}

/// A run that was cut short is refused: its first page says how many there
/// should be.
pub proof fn law_a_truncated_run_is_refused<K: Codec<V>, V: DeepView>(
    body: Seq<u8>,
    schema: u32,
    cut: int,
    expected: u32,
)
    requires
        pages_for(body.len() as int) <= u32::MAX,
        0 <= cut < spread(body, schema).len(),
    ensures
        load_outcome::<K, V>(spread(body, schema).take(cut), expected) is Err,
{
    let whole = spread(body, schema);
    let kept = whole.take(cut);
    law_what_is_spread_is_gathered(body, schema);
    if cut > 0 && unpack::whole_pages(cut) {
        unpack::lemma_one_page_less(cut);
        assert(kept + whole.skip(cut) =~= whole);
        lemma_header_of_run(kept, whole.skip(cut));
        unpack::lemma_whole_pages_add(cut, whole.len() - cut);
        unpack::lemma_page_counts_add(cut, whole.len() - cut);
        unpack::lemma_one_page_less(whole.len() - cut);
        unpack::lemma_pages_times_size(whole.len() - cut - PAGE_SIZE);
    }
}

/// Split one run of row bytes across pages.
pub fn to_pages(body: &[u8], schema: u32) -> (pages: Vec<u8>)
    requires
        pages_for(body@.len() as int) <= u32::MAX,
    ensures
        pages@ == spread(body@, schema),
        gathered(pages@) == Ok::<(u32, Seq<u8>), LoadError>((schema, body@)),
{
    let ghost all = body@;
    let pages: usize = if body.len() <= BODY_SIZE {
        1
    } else {
        (body.len() - 1) / BODY_SIZE + 1
    };
    proof {
        lemma_page_numbers(all.len() as int);
        law_what_is_spread_is_gathered(all, schema);
    }
    let mut out: Vec<u8> = Vec::new();
    let mut at: usize = 0;
    let mut page: u32 = 0;
    assert(all.skip(0) =~= all);
    assert(out@ + spread(all, schema) =~= spread(all, schema));
    loop
        invariant
            all == body@,
            gathered(spread(all, schema)) == Ok::<(u32, Seq<u8>), LoadError>((schema, all)),
            at <= all.len(),
            pages == pages_for(all.len() as int),
            pages_for(all.len() as int) <= u32::MAX,
            at == page * BODY_SIZE,
            page < pages,
            at + BODY_SIZE < all.len() ==> page + 1 < pages,
            spread(all, schema) == out@ + spread_from(
                all.skip(at as int),
                schema,
                page as int,
                pages as int,
            ),
        decreases all.len() - at,
    {
        let left: usize = body.len() - at;
        let take: usize = if left <= BODY_SIZE {
            left
        } else {
            BODY_SIZE
        };
        let header = Header {
            version: PAGE_VERSION,
            schema,
            page,
            pages: pages as u32,
            body: take as u32,
            reserved: 0,
        };
        let part = slice_subrange(body, at, at + take);
        let ghost before = out@;
        let mut image = seal_page(header, part);
        let ghost sealed = image@;
        out.append(&mut image);
        proof {
            let rest = all.skip(at as int);
            if left <= BODY_SIZE {
                assert(part@ =~= rest);
            } else {
                assert(part@ =~= rest.take(BODY_SIZE as int));
                assert(rest.skip(BODY_SIZE as int) =~= all.skip(at + BODY_SIZE));
                let more = spread_from(
                    all.skip(at + BODY_SIZE),
                    schema,
                    page + 1,
                    pages as int,
                );
                assert(before + (sealed + more) =~= before + sealed + more);
            }
        }
        if left <= BODY_SIZE {
            return out;
        }
        proof {
            lemma_page_numbers_go_on(all.len() as int, page as int);
        }
        at = at + BODY_SIZE;
        page = page + 1;
    }
}

proof fn lemma_page_numbers(len: int)
    requires
        0 <= len,
    ensures
        len > BODY_SIZE ==> pages_for(len) == (len - 1) / (BODY_SIZE as int) + 1,
        len > BODY_SIZE ==> pages_for(len) > 1,
        pages_for(len) >= 1,
{
    if len > BODY_SIZE {
        assert((len + 16360 - 1) / 16360 == (len - 1) / 16360 + 1);
        assert((len - 1) / 16360 >= 1);
    }
}

proof fn lemma_page_numbers_go_on(len: int, page: int)
    requires
        0 <= page,
        page * BODY_SIZE + BODY_SIZE < len,
    ensures
        page + 1 < pages_for(len),
        (page + 1) * BODY_SIZE == page * BODY_SIZE + BODY_SIZE,
        (page + 1) * BODY_SIZE + BODY_SIZE < len ==> page + 2 < pages_for(len),
{
    assert(page * BODY_SIZE == page * 16360) by (nonlinear_arith)
        requires
            BODY_SIZE == 16360,
    ;
    assert((page + 1) * BODY_SIZE == (page + 1) * 16360) by (nonlinear_arith)
        requires
            BODY_SIZE == 16360,
    ;
    assert((len + 16360 - 1) / 16360 > page + 1);
    assert((page + 1) * 16360 + 16360 < len ==> (len + 16360 - 1) / 16360 > page + 2);
}

/// One page made up: header, part, zeroes.
fn seal_page(header: Header, part: &[u8]) -> (page: Vec<u8>)
    requires
        part@.len() <= BODY_SIZE,
    ensures
        page@ == page_image(header, part@),
{
    reveal(page_image);
    let mut page: Vec<u8> = Vec::with_capacity(PAGE_SIZE);
    header.write(&mut page);
    proof {
        law_header_round_trip(header, Seq::empty());
    }
    page.extend_from_slice(part);
    assert(page@ =~= header.bytes() + part@);
    let ghost kept = page@;
    page.resize(PAGE_SIZE, 0);
    proof {
        let image = page_image(header, part@);
        assert forall|i: int| 0 <= i < image.len() implies image[i] == page@[i] by {
            if i < kept.len() {
                assert(page@.subrange(0, kept.len() as int)[i] == page@[i]);
            }
        }
        assert(page@ =~= image);
    }
    page
}

/// Walk the pages back into the row type and one run of row bytes.
pub fn from_pages(bytes: &[u8]) -> (found: Result<(u32, Vec<u8>), LoadError>)
    ensures
        match gathered(bytes@) {
            Ok((schema, body)) => found matches Ok(held) && held.0 == schema && held.1@ == body,
            Err(error) => found == Err::<(u32, Vec<u8>), LoadError>(error),
        },
{
    reveal(unpack::whole_pages);
    if bytes.len() == 0 || bytes.len() % PAGE_SIZE != 0 {
        return Err(LoadError::NotWholePages { found: bytes.len() });
    }
    let ghost whole = parts_of(bytes@, 0, None);
    let mut schema: Option<u32> = None;
    let mut body: Vec<u8> = Vec::new();
    let mut index: usize = 0;
    let mut at: usize = 0;
    proof {
        unpack::lemma_no_pages();
        assert(bytes@.skip(0) =~= bytes@);
        if let Ok(all) = whole {
            assert(body@ + all =~= all);
        }
    }
    while at < bytes.len()
        invariant
            0 < bytes@.len(),
            unpack::whole_pages(bytes@.len() as int),
            at <= bytes@.len(),
            index <= at,
            unpack::whole_pages(bytes@.len() - at),
            unpack::whole_pages(at as int),
            unpack::page_count(at as int) == index,
            schema == (if at == 0 {
                None
            } else {
                Some(header_at(bytes@).schema)
            }),
            whole == parts_of(bytes@, 0, None),
            unpack::resumes(
                whole,
                body@,
                parts_of(bytes@.skip(at as int), index as int, schema),
            ),
        decreases bytes@.len() - at,
    {
        let ghost rest = bytes@.skip(at as int);
        proof {
            unpack::lemma_one_page_less(bytes@.len() - at);
            unpack::lemma_one_page_more(at as int);
        }
        let raw = slice_subrange(bytes, at, at + PAGE_SIZE);
        proof {
            assert(raw@ =~= rest.take(PAGE_SIZE as int));
            assert(rest.skip(PAGE_SIZE as int) =~= bytes@.skip(at + PAGE_SIZE));
            lemma_header_of_run(rest, Seq::empty());
            assert(at == 0 ==> rest == bytes@);
            lemma_resume_after_part(whole, body@, rest, index as int, schema);
            reveal(part_of);
        }
        let header = Header::read(raw);
        if header.version != PAGE_VERSION {
            return Err(LoadError::ForeignPages { page: index, version: header.version });
        }
        // Every page names the row type, so a run spliced together from two
        // files is caught rather than concatenated.
        match schema {
            None => {
                schema = Some(header.schema);
            },
            Some(first) => {
                if first != header.schema {
                    return Err(LoadError::Inconsistent { page: index });
                }
            },
        }
        let take: usize = header.body as usize;
        if take > BODY_SIZE {
            return Err(LoadError::Overlong { page: index, claimed: take });
        }
        let part = slice_subrange(raw, HEADER_SIZE, HEADER_SIZE + take);
        let ghost before = body@;
        body.extend_from_slice(part);
        assert(body@ =~= before + part@);
        index = index + 1;
        at = at + PAGE_SIZE;
    }
    assert(body@ + Seq::empty() =~= body@);
    match schema {
        Some(found) => Ok((found, body)),
        None => Ok((0, body)),
    }
}

proof fn lemma_resume_after_part(
    whole: Result<Seq<u8>, LoadError>,
    done: Seq<u8>,
    rest: Seq<u8>,
    index: int,
    schema: Option<u32>,
)
    requires
        rest.len() >= PAGE_SIZE,
        unpack::resumes(whole, done, parts_of(rest, index, schema)),
    ensures
        match part_of(rest.take(PAGE_SIZE as int), index, schema) {
            Err(error) => whole == Err::<Seq<u8>, LoadError>(error),
            Ok(part) => unpack::resumes(
                whole,
                done + part,
                parts_of(
                    rest.skip(PAGE_SIZE as int),
                    index + 1,
                    Some(header_at(rest).schema),
                ),
            ),
        },
{
    match part_of(rest.take(PAGE_SIZE as int), index, schema) {
        Err(_) => {},
        Ok(part) => {
            match parts_of(
                rest.skip(PAGE_SIZE as int),
                index + 1,
                Some(header_at(rest).schema),
            ) {
                Err(_) => {},
                Ok(more) => {
                    assert(done + (part + more) =~= done + part + more);
                },
            }
        },
    }
}

/// Whether these pages are one whole run: each numbers itself and counts the run,
/// so two runs of one row type are not one longer run, and a run that was cut
/// short does not pass for a shorter one.
fn check_run(bytes: &[u8]) -> (checked: Result<(), LoadError>)
    requires
        0 < bytes@.len(),
        unpack::whole_pages(bytes@.len() as int),
    ensures
        match run_fault(bytes@) {
            Some(error) => checked == Err::<(), LoadError>(error),
            None => checked is Ok,
        },
{
    proof {
        unpack::lemma_one_page_less(bytes@.len() as int);
        unpack::lemma_no_pages();
        assert(bytes@.skip(0) =~= bytes@);
    }
    let pages = Header::read(bytes).pages;
    let mut index: usize = 0;
    let mut at: usize = 0;
    while at < bytes.len()
        invariant
            at <= bytes@.len(),
            index <= at,
            unpack::whole_pages(bytes@.len() as int),
            unpack::whole_pages(bytes@.len() - at),
            unpack::whole_pages(at as int),
            unpack::page_count(at as int) == index,
            pages == header_at(bytes@).pages,
            misplaced(bytes@, 0, pages) == misplaced(
                bytes@.skip(at as int),
                index as int,
                pages,
            ),
        decreases bytes@.len() - at,
    {
        let ghost rest = bytes@.skip(at as int);
        proof {
            unpack::lemma_one_page_less(bytes@.len() - at);
            unpack::lemma_one_page_more(at as int);
        }
        let raw = slice_subrange(bytes, at, at + PAGE_SIZE);
        proof {
            assert(raw@ =~= rest.take(PAGE_SIZE as int));
            assert(rest.skip(PAGE_SIZE as int) =~= bytes@.skip(at + PAGE_SIZE));
            lemma_header_of_run(rest, Seq::empty());
        }
        let header = Header::read(raw);
        if header.page as usize != index || header.pages != pages {
            return Err(LoadError::OtherRun { page: index });
        }
        index = index + 1;
        at = at + PAGE_SIZE;
    }
    if pages as usize != index {
        return Err(LoadError::PageCount { expected: pages as usize, found: index });
    }
    Ok(())
}

/// Check the row type, then the run, then the rows.
pub fn rows_from<K: Codec<V>, V: DeepView>(bytes: &[u8]) -> (rows: Result<Vec<(K, V)>, LoadError>)
    ensures
        match load_outcome::<K, V>(bytes@, codec::row_schema::<K, V>()) {
            Ok(found) => rows matches Ok(held) && held.deep_view() == found,
            Err(error) => rows == Err::<Vec<(K, V)>, LoadError>(error),
        },
{
    let (found, body) = match from_pages(bytes) {
        Ok(gathered) => gathered,
        Err(error) => {
            return Err(error);
        },
    };
    let expected = fingerprint::<K, V>();
    if found != expected {
        return Err(LoadError::ForeignRows { found, expected });
    }
    if let Err(error) = check_run(bytes) {
        return Err(error);
    }
    match K::decode(body.as_slice()) {
        Ok(rows) => Ok(rows),
        Err(_) => Err(LoadError::Rows),
    }
}

/// Pages of the archive of these rows.
fn pages_of_rows<K: Codec<V>, V: DeepView>(rows: &[(K, V)]) -> (pages: Vec<u8>)
    requires
        K::archivable(rows.deep_view()),
    ensures
        unloaded::<K, V>(rows.deep_view(), pages@),
{
    let body = match K::encode(rows) {
        Some(archive) => archive,
        None => Vec::new(),
    };
    let schema = fingerprint::<K, V>();
    proof {
        law_what_is_spread_is_gathered(body@, schema);
    }
    to_pages(body.as_slice(), schema)
}

impl<K: Codec<V>, V: DeepView> LinearTable<K, V> {
    /// Every row, as pages of one archive.
    pub fn unload_spread(&self) -> (pages: Vec<u8>)
        requires
            K::archivable(tables::deep_rows(self@)),
        ensures
            unloaded::<K, V>(tables::deep_rows(self@), pages@),
    {
        let rows = self.rows();
        assert(rows.deep_view() =~= tables::deep_rows(self@));
        pages_of_rows(rows)
    }

    /// Rows back from pages of one archive.
    ///
    /// # Errors
    ///
    /// Refuses bytes that are not whole pages, a page from another version or
    /// another run, a header claiming more body than a page holds, another row
    /// type, or rows that do not deserialize.
    pub fn load_spread(bytes: &[u8]) -> (table: Result<Self, LoadError>)
        ensures
            loaded::<K, V>(bytes@, table),
    {
        match rows_from(bytes) {
            Ok(rows) => {
                assert(tables::deep_rows(rows@) =~= rows.deep_view());
                Ok(LinearTable::from(rows))
            },
            Err(error) => Err(error),
        }
    }
}

impl<K: Codec<V> + Clone + Ord, V: DeepView> IndexedTable<K, V> {
    /// Every row, as pages of one archive.
    ///
    /// The index is not written. It is derived from the rows, so rebuilding it
    /// on load costs one pass, where storing it would cost bytes at rest and a
    /// second thing that can disagree with the rows.
    pub fn unload_spread(&self) -> (pages: Vec<u8>)
        requires
            K::archivable(tables::deep_rows(self@)),
        ensures
            unloaded::<K, V>(tables::deep_rows(self@), pages@),
    {
        let rows = self.rows();
        assert(rows.deep_view() =~= tables::deep_rows(self@));
        pages_of_rows(rows)
    }

    /// Rows back from pages of one archive, with the index rebuilt. Of rows with
    /// the same key the first one stays.
    ///
    /// # Errors
    ///
    /// As [`LinearTable::load_spread`].
    pub fn load_spread(bytes: &[u8]) -> (table: Result<Self, LoadError>)
        ensures
            match load_outcome::<K, V>(bytes@, codec::row_schema::<K, V>()) {
                Ok(found) => {
                    &&& table matches Ok(held)
                    &&& held.wf()
                    &&& indexed::lawful_key::<K>() ==> exists|rows: Seq<(K, V)>|
                        #![auto]
                        tables::deep_rows(rows) == found && held@ == rows::first_of_each_key(rows)
                    &&& indexed::lawful_key::<K>() && tables::holds_itself::<K>()
                        ==> tables::deep_rows(held@) == rows::first_of_each_key(found)
                },
                Err(error) => table == Err::<Self, LoadError>(error),
            },
    {
        match rows_from(bytes) {
            Ok(rows) => {
                proof {
                    assert(tables::deep_rows(rows@) =~= rows.deep_view());
                    if tables::holds_itself::<K>() {
                        tables::lemma_deep_first_of_each_key(rows@);
                    }
                }
                Ok(IndexedTable::from_rows(rows))
            },
            Err(error) => Err(error),
        }
    }
}

/// The rows of a table that went out as pages come back as they were: the same
/// rows in the same order, repeated keys and all.
pub proof fn law_rows_come_back_as_they_were<K: Codec<V>, V: DeepView>(
    rows: Seq<(K, V)>,
    pages: Seq<u8>,
    back: Result<LinearTable<K, V>, LoadError>,
)
    requires
        unloaded::<K, V>(tables::deep_rows(rows), pages),
        loaded::<K, V>(pages, back),
    ensures
        back matches Ok(table) && tables::deep_rows(table@) == tables::deep_rows(rows),
        tables::holds_itself::<K>() && tables::holds_itself::<V>() ==> (back matches Ok(table)
            && table@ == rows),
{
    if tables::holds_itself::<K>() && tables::holds_itself::<V>() {
        tables::lemma_deep_rows_tell_rows_apart(back->Ok_0@, rows);
    }
}

/// Two tables put behind each other are refused: a page from another run does
/// not pass for more of this one.
pub proof fn law_two_tables_are_not_one<K: Codec<V>, V: DeepView>(
    a: Seq<RowView<K, V>>,
    pages_a: Seq<u8>,
    b: Seq<RowView<K, V>>,
    pages_b: Seq<u8>,
    table: Result<LinearTable<K, V>, LoadError>,
)
    requires
        unloaded::<K, V>(a, pages_a),
        unloaded::<K, V>(b, pages_b),
        loaded::<K, V>(pages_a + pages_b, table),
    ensures
        table is Err,
{
    let schema = codec::row_schema::<K, V>();
    law_two_runs_are_not_one::<K, V>(K::archive(a), K::archive(b), schema, schema, schema);
}

/// A page of zeroes, the shape that a torn write leaves behind, is a page of a
/// version that nobody writes, and not an empty table.
pub proof fn law_a_zeroed_page_is_refused(raw: Seq<u8>, index: int, before: Option<u32>)
    requires
        raw.len() == PAGE_SIZE,
        forall|i: int| 0 <= i < PAGE_SIZE ==> raw[i] == 0,
    ensures
        part_of(raw, index, before) == Err::<Seq<u8>, LoadError>(
            LoadError::ForeignPages { page: index as usize, version: 0 },
        ),
{
    reveal(part_of);
    assert(page::word_at(raw, 0) == 0);
}

/// A page that names another row type than the pages before it is refused as
/// such: two runs spliced together are not one longer run.
pub proof fn law_a_spliced_page_is_inconsistent(raw: Seq<u8>, index: int, schema: u32)
    requires
        header_at(raw).version == PAGE_VERSION,
        header_at(raw).schema != schema,
    ensures
        part_of(raw, index, Some(schema)) == Err::<Seq<u8>, LoadError>(
            LoadError::Inconsistent { page: index as usize },
        ),
{
    reveal(part_of);
}

/// Behind its part of the archive a page has nothing but zeroes.
pub proof fn law_the_rest_of_a_page_is_zeroes(header: Header, part: Seq<u8>, i: int)
    requires
        HEADER_SIZE + part.len() <= i < PAGE_SIZE,
    ensures
        page_image(header, part)[i] == 0,
{
    reveal(page_image);
    law_header_round_trip(header, Seq::empty());
}

/// An archive takes as few pages as it can: every page but the last is full, and the last one has
/// the rest.
pub proof fn law_an_archive_takes_the_fewest_pages(body: Seq<u8>, schema: u32)
    requires
        pages_for(body.len() as int) <= u32::MAX,
    ensures
        ({
            let pages = unpack::page_count(spread(body, schema).len() as int);
            &&& 1 <= pages
            &&& body.len() <= pages * BODY_SIZE
            &&& pages == 1 || (pages - 1) * BODY_SIZE < body.len()
        }),
{
    law_what_is_spread_is_gathered(body, schema);
    let len = body.len() as int;
    let pages = pages_for(len);
    assert(pages * BODY_SIZE == pages * 16360 && (pages - 1) * BODY_SIZE == (pages - 1) * 16360)
        by (nonlinear_arith)
        requires
            BODY_SIZE == 16360,
    ;
    if len > BODY_SIZE {
        assert(pages == (len + 16360 - 1) / 16360);
    }
}

/// Each byte of an archive is where its place says: so many full bodies before it, so many pages
/// before its page.
pub proof fn law_each_byte_has_its_place(
    body: Seq<u8>,
    schema: u32,
    page: int,
    pages: int,
    k: int,
)
    requires
        0 <= k < body.len(),
    ensures
        k / (BODY_SIZE as int) * PAGE_SIZE + HEADER_SIZE + k % (BODY_SIZE as int) < spread_from(
            body,
            schema,
            page,
            pages,
        ).len(),
        spread_from(body, schema, page, pages)[k / (BODY_SIZE as int) * PAGE_SIZE + HEADER_SIZE + k
            % (BODY_SIZE as int)] == body[k],
    decreases body.len(),
{
    let last = body.len() <= BODY_SIZE;
    let part = if last {
        body
    } else {
        body.take(BODY_SIZE as int)
    };
    let header = page_header(schema, page, pages, part.len() as int);
    let image = page_image(header, part);
    lemma_page_image_opens_with_header(header, part);
    if k < BODY_SIZE {
        assert(k / 16360 == 0 && k % 16360 == k);
        assert(k / (BODY_SIZE as int) * PAGE_SIZE == 0);
        let held = image.subrange(HEADER_SIZE as int, HEADER_SIZE + part.len());
        assert(held[k] == part[k]);
    } else {
        let rest = body.skip(BODY_SIZE as int);
        law_each_byte_has_its_place(rest, schema, page + 1, pages, k - BODY_SIZE);
        assert((k - 16360) / 16360 == k / 16360 - 1);
        assert((k - 16360) % 16360 == k % 16360);
        let full = k / (BODY_SIZE as int);
        assert(full * PAGE_SIZE == (full - 1) * PAGE_SIZE + PAGE_SIZE) by (nonlinear_arith);
        assert(rest[k - BODY_SIZE] == body[k]);
        let at = (full - 1) * PAGE_SIZE + HEADER_SIZE + k % (BODY_SIZE as int);
        assert(0 <= at) by (nonlinear_arith)
            requires
                full >= 1,
                at == (full - 1) * PAGE_SIZE + HEADER_SIZE + k % (BODY_SIZE as int),
                k % (BODY_SIZE as int) >= 0,
        ;
        let more = spread_from(rest, schema, page + 1, pages);
        assert((image + more)[PAGE_SIZE + at] == more[at]);
    }
}

} // verus!
