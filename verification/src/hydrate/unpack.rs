//! Pages to rows.

use vstd::prelude::*;
use vstd::slice::slice_subrange;

use crate::hydrate::checksum::{self, crc32};
use crate::hydrate::codec::{self, fingerprint, Codec, RowView};
use crate::hydrate::error::LoadError;
use crate::hydrate::page::{
    self, Directory, Header, BODY_SIZE, HEADER_SIZE, PAGE_SIZE, PAGE_TYPE_DATA,
    PAGE_VERSION,
};

verus! {

/// What one page holds, or the first thing wrong with it.
///
/// `schema` is the row type that the pages before it named, if there were any.
#[verifier::opaque]
pub open spec fn page_outcome<K: Codec<V>, V: DeepView>(
    raw: Seq<u8>,
    index: int,
    schema: Option<u32>,
) -> Result<Seq<RowView<K, V>>, LoadError> {
    let header = page::header_at(raw);
    let directory = page::directory_at(raw);
    let body = raw.subrange(HEADER_SIZE as int, HEADER_SIZE + header.body);
    if header.version != PAGE_VERSION {
        Err(LoadError::ForeignPages { page: index as usize, version: header.version })
    } else if schema is Some && schema != Some(header.schema) {
        Err(LoadError::Inconsistent { page: index as usize })
    } else if header.body > BODY_SIZE {
        Err(LoadError::Overlong { page: index as usize, claimed: header.body as usize })
    } else if checksum::crc32_of(body) != directory.crc {
        Err(
            LoadError::Corrupt {
                page: index as usize,
                expected: directory.crc,
                found: checksum::crc32_of(body),
            },
        )
    } else {
        match K::unarchive(body) {
            None => Err(LoadError::Rows { page: index as usize }),
            Some(rows) => if rows.len() != directory.rows {
                Err(
                    LoadError::RowCount {
                        page: index as usize,
                        expected: directory.rows as usize,
                        found: rows.len() as usize,
                    },
                )
            } else if header.page_type != PAGE_TYPE_DATA {
                Err(LoadError::ForeignType { page: index as usize, page_type: header.page_type })
            } else if !header.is_linked() {
                Err(LoadError::Unlinked { page: index as usize })
            } else {
                Ok(rows)
            },
        }
    }
}

/// What a run of pages holds, or the first thing wrong with it.
pub open spec fn run_outcome<K: Codec<V>, V: DeepView>(
    bytes: Seq<u8>,
    index: int,
    schema: Option<u32>,
) -> Result<Seq<RowView<K, V>>, LoadError>
    decreases bytes.len(),
{
    if bytes.len() < PAGE_SIZE {
        Ok(Seq::empty())
    } else {
        match page_outcome::<K, V>(bytes.take(PAGE_SIZE as int), index, schema) {
            Err(error) => Err(error),
            Ok(rows) => match run_outcome::<K, V>(
                bytes.skip(PAGE_SIZE as int),
                index + 1,
                Some(page::header_at(bytes).schema),
            ) {
                Err(error) => Err(error),
                Ok(rest) => Ok(rows + rest),
            },
        }
    }
}

/// Whether this many bytes are pages and nothing left over.
#[verifier::opaque]
pub open spec fn whole_pages(len: int) -> bool {
    len % (PAGE_SIZE as int) == 0
}

/// What a load of these bytes gives, for a row type with this fingerprint.
pub open spec fn load_outcome<K: Codec<V>, V: DeepView>(bytes: Seq<u8>, expected: u32) -> Result<
    Seq<RowView<K, V>>,
    LoadError,
> {
    if bytes.len() == 0 || !whole_pages(bytes.len() as int) {
        Err(LoadError::NotWholePages { found: bytes.len() as usize })
    } else {
        match run_outcome::<K, V>(bytes, 0, None) {
            Err(error) => Err(error),
            Ok(rows) => if page::header_at(bytes).schema != expected {
                Err(LoadError::ForeignRows { found: page::header_at(bytes).schema, expected })
            } else {
                Ok(rows)
            },
        }
    }
}

/// The deep view of a vector grown by another is the two deep views in a row.
pub proof fn lemma_deep_append<T: DeepView>(before: Vec<T>, more: Vec<T>, after: Vec<T>)
    requires
        after@ == before@ + more@,
    ensures
        after.deep_view() == before.deep_view() + more.deep_view(),
{
    assert(after.deep_view() =~= before.deep_view() + more.deep_view());
}

/// One page back into rows, with every header field checked. A page's own number
/// is checked against its neighbours' and not against its place: pages stand
/// alone, and appended ones count from zero again.
///
/// `schema` is the row type that the pages before it named; the first page
/// that this build reads sets it.
pub fn page_rows<K: Codec<V>, V: DeepView>(
    raw: &[u8],
    index: usize,
    schema: &mut Option<u32>,
) -> (rows: Result<Vec<(K, V)>, LoadError>)
    requires
        raw@.len() == PAGE_SIZE,
    ensures
        match page_outcome::<K, V>(raw@, index as int, *old(schema)) {
            Ok(found) => rows matches Ok(held) && held.deep_view() == found,
            Err(error) => rows == Err::<Vec<(K, V)>, LoadError>(error),
        },
        *final(schema) == (if page::header_at(raw@).version == PAGE_VERSION && *old(
            schema,
        ) is None {
            Some(page::header_at(raw@).schema)
        } else {
            *old(schema)
        }),
{
    reveal(page_outcome);
    let header = Header::read(raw);
    if header.version != PAGE_VERSION {
        return Err(LoadError::ForeignPages { page: index, version: header.version });
    }
    match *schema {
        None => {
            *schema = Some(header.schema);
        },
        // Every page names the row type, so a file spliced onto another is
        // caught where they stop agreeing rather than concatenated.
        Some(first) => {
            if first != header.schema {
                return Err(LoadError::Inconsistent { page: index });
            }
        },
    }
    let take: usize = header.body as usize;
    if take > BODY_SIZE {
        return Err(LoadError::Overlong { page: index, claimed: take });
    }
    let directory = Directory::read(raw);
    let body = slice_subrange(raw, HEADER_SIZE, HEADER_SIZE + take);
    let found = crc32(body);
    if found != directory.crc {
        return Err(LoadError::Corrupt { page: index, expected: directory.crc, found });
    }
    match K::decode(body) {
        Err(_) => Err(LoadError::Rows { page: index }),
        Ok(rows) => {
            assert(rows.deep_view().len() == rows@.len());
            if rows.len() != directory.rows as usize {
                Err(
                    LoadError::RowCount {
                        page: index,
                        expected: directory.rows as usize,
                        found: rows.len(),
                    },
                )
            } else if header.page_type != PAGE_TYPE_DATA {
                Err(LoadError::ForeignType { page: index, page_type: header.page_type })
            } else if !header.linked() {
                Err(LoadError::Unlinked { page: index })
            } else {
                Ok(rows)
            }
        },
    }
}

/// A page's header is in the page.
pub proof fn lemma_header_in_page(bytes: Seq<u8>)
    requires
        bytes.len() >= PAGE_SIZE,
    ensures
        page::header_at(bytes.take(PAGE_SIZE as int)) == page::header_at(bytes),
{
    let raw = bytes.take(PAGE_SIZE as int);
    assert forall|i: int| 0 <= i < HEADER_SIZE implies raw[i] == bytes[i] by {}
}

/// A run's first header is its first page's, whatever follows.
pub proof fn lemma_header_of_run(a: Seq<u8>, b: Seq<u8>)
    requires
        a.len() >= PAGE_SIZE,
    ensures
        page::header_at(a + b) == page::header_at(a),
{
    lemma_header_in_page(a);
    lemma_header_in_page(a + b);
    assert((a + b).take(PAGE_SIZE as int) =~= a.take(PAGE_SIZE as int));
}

/// What `whole` is once `done` rows are behind and `rest` is still to come.
pub open spec fn resumes<T, E>(
    whole: Result<Seq<T>, E>,
    done: Seq<T>,
    rest: Result<Seq<T>, E>,
) -> bool {
    match rest {
        Ok(more) => whole == Ok::<Seq<T>, E>(done + more),
        Err(error) => whole == Err::<Seq<T>, E>(error),
    }
}

/// Reading one page of a run moves its rows from what is to come to what is
/// done.
pub proof fn lemma_resume_after_page<K: Codec<V>, V: DeepView>(
    whole: Result<Seq<RowView<K, V>>, LoadError>,
    done: Seq<RowView<K, V>>,
    rest: Seq<u8>,
    index: int,
    schema: Option<u32>,
)
    requires
        rest.len() >= PAGE_SIZE,
        resumes(whole, done, run_outcome::<K, V>(rest, index, schema)),
    ensures
        match page_outcome::<K, V>(rest.take(PAGE_SIZE as int), index, schema) {
            Err(error) => whole == Err::<
                Seq<RowView<K, V>>,
                LoadError,
            >(error),
            Ok(rows) => {
                &&& page::header_at(rest).is_sound()
                &&& schema is Some ==> schema == Some(page::header_at(rest).schema)
                &&& resumes(
                    whole,
                    done + rows,
                    run_outcome::<K, V>(
                        rest.skip(PAGE_SIZE as int),
                        index + 1,
                        Some(page::header_at(rest).schema),
                    ),
                )
            },
        },
{
    reveal(page_outcome);
    lemma_header_in_page(rest);
    match page_outcome::<K, V>(rest.take(PAGE_SIZE as int), index, schema) {
        Err(_) => {},
        Ok(rows) => {
            match run_outcome::<K, V>(
                rest.skip(PAGE_SIZE as int),
                index + 1,
                Some(page::header_at(rest).schema),
            ) {
                Err(_) => {},
                Ok(more) => {
                    assert(done + (rows + more) =~= done + rows + more);
                },
            }
        },
    }
}

/// How many pages this many bytes are.
#[verifier::opaque]
pub open spec fn page_count(len: int) -> int {
    len / (PAGE_SIZE as int)
}

pub proof fn lemma_one_page_less(len: int)
    requires
        0 < len,
        whole_pages(len),
    ensures
        PAGE_SIZE <= len,
        whole_pages(len - PAGE_SIZE),
        page_count(len) == page_count(len - PAGE_SIZE) + 1,
{
    reveal(whole_pages);
    reveal(page_count);
    assert(len % 16384 == 0 && 0 < len ==> 16384 <= len && (len - 16384) % 16384 == 0);
    assert(len / 16384 == (len - 16384) / 16384 + 1);
}

pub proof fn lemma_one_page_more(len: int)
    requires
        0 <= len,
        whole_pages(len),
    ensures
        whole_pages(len + PAGE_SIZE),
        page_count(len + PAGE_SIZE) == page_count(len) + 1,
{
    reveal(whole_pages);
    reveal(page_count);
    assert(len % 16384 == 0 ==> (len + 16384) % 16384 == 0);
    assert((len + 16384) / 16384 == len / 16384 + 1);
}

pub proof fn lemma_no_pages()
    ensures
        whole_pages(0),
        page_count(0) == 0,
{
    reveal(whole_pages);
    reveal(page_count);
    assert(0int % 16384 == 0);
    assert(0int / 16384 == 0);
}

pub proof fn lemma_whole_pages_add(a: int, b: int)
    requires
        0 <= a,
        0 <= b,
        whole_pages(a),
    ensures
        whole_pages(a + b) == whole_pages(b),
{
    reveal(whole_pages);
    assert(a % 16384 == 0 ==> (a + b) % 16384 == b % 16384);
}

pub proof fn lemma_page_counts_add(a: int, b: int)
    requires
        0 <= a,
        0 <= b,
        whole_pages(a),
    ensures
        page_count(a + b) == page_count(a) + page_count(b),
{
    reveal(whole_pages);
    reveal(page_count);
    assert(a % 16384 == 0 ==> (a + b) / 16384 == a / 16384 + b / 16384);
}

/// Less than a page behind whole pages is no further page, and the bytes are
/// not whole pages any more.
pub proof fn lemma_part_of_a_page(pages: int, part: int)
    requires
        0 <= pages,
        whole_pages(pages),
        0 < part < PAGE_SIZE,
    ensures
        !whole_pages(pages + part),
        page_count(pages + part) == page_count(pages),
        PAGE_SIZE * page_count(pages) == pages,
{
    reveal(whole_pages);
    reveal(page_count);
    assert(pages % 16384 == 0 && 0 < part < 16384 ==> (pages + part) % 16384 != 0);
    assert(pages % 16384 == 0 && 0 < part < 16384 ==> (pages + part) / 16384 == pages / 16384);
}

/// Whole pages are their number times their size.
pub proof fn lemma_pages_times_size(len: int)
    requires
        0 <= len,
        whole_pages(len),
    ensures
        PAGE_SIZE * page_count(len) == len,
{
    reveal(whole_pages);
    reveal(page_count);
    assert(len % 16384 == 0 ==> 16384 * (len / 16384) == len);
}

/// A page that is read is of this build's version, and of the row type that the
/// pages before it named.
pub proof fn lemma_page_names_its_type<K: Codec<V>, V: DeepView>(
    raw: Seq<u8>,
    index: int,
    schema: Option<u32>,
)
    requires
        page_outcome::<K, V>(raw, index, schema) is Ok,
    ensures
        page::header_at(raw).is_sound(),
        schema is Some ==> schema == Some(page::header_at(raw).schema),
        page::header_at(raw).body <= BODY_SIZE,
{
    reveal(page_outcome);
}

/// A run of one page holds what the page holds.
pub proof fn lemma_run_of_one_page<K: Codec<V>, V: DeepView>(
    raw: Seq<u8>,
    index: int,
    schema: Option<u32>,
)
    requires
        raw.len() == PAGE_SIZE,
    ensures
        run_outcome::<K, V>(raw, index, schema) == page_outcome::<K, V>(raw, index, schema),
{
    assert(raw.take(PAGE_SIZE as int) =~= raw);
    let after = raw.skip(PAGE_SIZE as int);
    assert(run_outcome::<K, V>(after, index + 1, Some(page::header_at(raw).schema)) == Ok::<
        Seq<RowView<K, V>>,
        LoadError,
    >(Seq::empty()));
    if let Ok(rows) = page_outcome::<K, V>(raw, index, schema) {
        assert(rows + Seq::empty() =~= rows);
    }
}

/// Where pages are refused, they are refused the same way with anything behind
/// them.
pub proof fn lemma_refused_so_far<K: Codec<V>, V: DeepView>(
    a: Seq<u8>,
    b: Seq<u8>,
    index: int,
    schema: Option<u32>,
)
    requires
        run_outcome::<K, V>(a, index, schema) is Err,
    ensures
        run_outcome::<K, V>(a + b, index, schema) == run_outcome::<K, V>(a, index, schema),
    decreases a.len(),
{
    let tail = a.skip(PAGE_SIZE as int);
    lemma_header_of_run(a, b);
    assert((a + b).take(PAGE_SIZE as int) =~= a.take(PAGE_SIZE as int));
    assert((a + b).skip(PAGE_SIZE as int) =~= tail + b);
    if page_outcome::<K, V>(a.take(PAGE_SIZE as int), index, schema) is Ok {
        lemma_refused_so_far::<K, V>(tail, b, index + 1, Some(page::header_at(a).schema));
    }
}

/// Where pages that hold `done` are followed by more, the rows of the two
/// follow each other too.
pub proof fn lemma_run_append<K: Codec<V>, V: DeepView>(
    a: Seq<u8>,
    b: Seq<u8>,
    index: int,
    schema: Option<u32>,
    done: Seq<RowView<K, V>>,
)
    requires
        whole_pages(a.len() as int),
        run_outcome::<K, V>(a, index, schema) == Ok::<
            Seq<RowView<K, V>>,
            LoadError,
        >(done),
    ensures
        resumes(
            run_outcome::<K, V>(a + b, index, schema),
            done,
            run_outcome::<K, V>(
                b,
                index + page_count(a.len() as int),
                if a.len() == 0 {
                    schema
                } else {
                    Some(page::header_at(a).schema)
                },
            ),
        ),
    decreases a.len(),
{
    lemma_no_pages();
    if a.len() == 0 {
        assert(a + b =~= b);
        assert(done =~= Seq::empty());
        if let Ok(more) = run_outcome::<K, V>(b, index, schema) {
            assert(done + more =~= more);
        }
    } else {
        let whole = run_outcome::<K, V>(a + b, index, schema);
        let page = a.take(PAGE_SIZE as int);
        let tail = a.skip(PAGE_SIZE as int);
        let first = Some(page::header_at(a).schema);
        lemma_one_page_less(a.len() as int);
        lemma_header_of_run(a, b);
        assert((a + b).take(PAGE_SIZE as int) =~= page);
        assert((a + b).skip(PAGE_SIZE as int) =~= tail + b);
        let rows = page_outcome::<K, V>(page, index, schema)->Ok_0;
        let more = run_outcome::<K, V>(tail, index + 1, first)->Ok_0;
        lemma_run_append::<K, V>(tail, b, index + 1, first, more);
        if tail.len() > 0 {
            lemma_one_page_less(tail.len() as int);
            lemma_resume_after_page::<K, V>(
                run_outcome::<K, V>(tail, index + 1, first),
                Seq::empty(),
                tail,
                index + 1,
                first,
            );
        }
        let rest = run_outcome::<K, V>(b, index + page_count(a.len() as int), first);
        if let Ok(last) = rest {
            assert(rows + (more + last) =~= done + last);
        }
    }
}

/// Every page back into one row vector.
pub fn from_pages<K: Codec<V>, V: DeepView>(bytes: &[u8]) -> (rows: Result<
    Vec<(K, V)>,
    LoadError,
>)
    ensures
        match load_outcome::<K, V>(bytes@, codec::row_schema::<K, V>()) {
            Ok(found) => rows matches Ok(held) && held.deep_view() == found,
            Err(error) => rows == Err::<Vec<(K, V)>, LoadError>(error),
        },
{
    reveal(whole_pages);
    if bytes.len() == 0 || bytes.len() % PAGE_SIZE != 0 {
        return Err(LoadError::NotWholePages { found: bytes.len() });
    }
    let ghost whole = run_outcome::<K, V>(bytes@, 0, None);
    let mut schema: Option<u32> = None;
    let mut rows: Vec<(K, V)> = Vec::new();
    let mut index: usize = 0;
    let mut at: usize = 0;
    proof {
        assert(bytes@.skip(0) =~= bytes@);
        assert(rows.deep_view() =~= Seq::empty());
        if let Ok(all) = whole {
            assert(rows.deep_view() + all =~= all);
        }
    }
    while at < bytes.len()
        invariant
            0 < bytes@.len(),
            whole_pages(bytes@.len() as int),
            at <= bytes@.len(),
            index <= at,
            whole_pages(bytes@.len() - at),
            schema == (if at == 0 {
                None
            } else {
                Some(page::header_at(bytes@).schema)
            }),
            whole == run_outcome::<K, V>(bytes@, 0, None),
            resumes(
                whole,
                rows.deep_view(),
                run_outcome::<K, V>(bytes@.skip(at as int), index as int, schema),
            ),
        decreases bytes@.len() - at,
    {
        let ghost rest = bytes@.skip(at as int);
        proof {
            lemma_one_page_less(bytes@.len() - at);
        }
        let raw = slice_subrange(bytes, at, at + PAGE_SIZE);
        proof {
            assert(raw@ =~= rest.take(PAGE_SIZE as int));
            assert(rest.skip(PAGE_SIZE as int) =~= bytes@.skip(at + PAGE_SIZE));
            lemma_resume_after_page::<K, V>(whole, rows.deep_view(), rest, index as int, schema);
            lemma_header_in_page(rest);
        }
        match page_rows(raw, index, &mut schema) {
            Err(error) => {
                return Err(error);
            },
            Ok(mut found) => {
                let ghost before = rows;
                let ghost more = found;
                rows.append(&mut found);
                proof {
                    lemma_deep_append(before, more, rows);
                }
            },
        }
        index = index + 1;
        at = at + PAGE_SIZE;
    }
    proof {
        assert(rows.deep_view() + Seq::empty() =~= rows.deep_view());
    }
    let expected = fingerprint::<K, V>();
    match schema {
        Some(found) => {
            if found != expected {
                Err(LoadError::ForeignRows { found, expected })
            } else {
                Ok(rows)
            }
        },
        None => Ok(rows),
    }
}

} // verus!
