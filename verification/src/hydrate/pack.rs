//! Rows to pages.

use vstd::prelude::*;
use vstd::slice::slice_subrange;

use crate::hydrate::checksum::{self, crc32};
use crate::hydrate::codec::{Codec, RowView};
use crate::hydrate::error::{LoadError, RowTooLarge};
use crate::hydrate::full;
use crate::hydrate::page::{
    self, Directory, Header, BODY_SIZE, DIRECTORY_SIZE, HEADER_SIZE, PAGE_SIZE, PAGE_TYPE_DATA,
    PAGE_VERSION,
};
use crate::hydrate::unpack;

verus! {

/// Whether the first `take` rows archive into one page body.
pub open spec fn fits<K: Codec<V>, V: DeepView>(
    rows: Seq<RowView<K, V>>,
    take: int,
) -> bool {
    &&& K::archivable(rows.take(take))
    &&& K::archive(rows.take(take)).len() <= BODY_SIZE
}

/// The first count from `take` up after which one more row no longer fits.
pub open spec fn walk_up<K: Codec<V>, V: DeepView>(
    rows: Seq<RowView<K, V>>,
    take: int,
) -> int
    decreases rows.len() - take,
{
    if take < rows.len() && fits::<K, V>(rows, take + 1) {
        walk_up::<K, V>(rows, take + 1)
    } else {
        take
    }
}

/// Where a binary search for the largest fitting count in `low..=high` ends.
pub open spec fn bisect<K: Codec<V>, V: DeepView>(
    rows: Seq<RowView<K, V>>,
    low: int,
    high: int,
) -> int
    decreases high - low,
{
    if low < high {
        let mid = low + (high - low + 1) / 2;
        if fits::<K, V>(rows, mid) {
            bisect::<K, V>(rows, mid, high)
        } else {
            bisect::<K, V>(rows, low, mid - 1)
        }
    } else {
        low
    }
}

/// The most rows a search looks at: twice what a page would hold if every row
/// took as many bytes as the first few do on average.
pub open spec fn ceiling<K: Codec<V>, V: DeepView>(
    rows: Seq<RowView<K, V>>,
) -> int {
    let sample: int = if rows.len() < 64 {
        rows.len() as int
    } else {
        64
    };
    let head = rows.take(sample);
    let sampled = K::archive(head).len();
    let estimate: int = if !K::archivable(head) {
        1
    } else if sampled == 0 {
        rows.len() as int
    } else if BODY_SIZE * sample / sampled as int >= 1 {
        BODY_SIZE * sample / sampled as int
    } else {
        1
    };
    if 2 * estimate < rows.len() {
        2 * estimate
    } else {
        rows.len() as int
    }
}

/// How many of `rows` the next page takes, when the page before it took `hint`.
#[verifier::opaque]
pub open spec fn page_take<K: Codec<V>, V: DeepView>(
    rows: Seq<RowView<K, V>>,
    hint: int,
) -> int {
    if rows.len() == 0 {
        0
    } else if 0 < hint <= rows.len() && fits::<K, V>(rows, hint) {
        walk_up::<K, V>(rows, hint)
    } else {
        bisect::<K, V>(rows, 1, ceiling::<K, V>(rows))
    }
}

pub proof fn lemma_walk_up_bounds<K: Codec<V>, V: DeepView>(
    rows: Seq<RowView<K, V>>,
    take: int,
)
    requires
        take <= rows.len(),
    ensures
        take <= walk_up::<K, V>(rows, take) <= rows.len(),
        walk_up::<K, V>(rows, take) > take ==> fits::<K, V>(rows, walk_up::<K, V>(rows, take)),
        walk_up::<K, V>(rows, take) < rows.len() ==> !fits::<K, V>(
            rows,
            walk_up::<K, V>(rows, take) + 1,
        ),
    decreases rows.len() - take,
{
    if take < rows.len() && fits::<K, V>(rows, take + 1) {
        lemma_walk_up_bounds::<K, V>(rows, take + 1);
    }
}

proof fn lemma_bisect_bounds<K: Codec<V>, V: DeepView>(
    rows: Seq<RowView<K, V>>,
    low: int,
    high: int,
)
    requires
        low <= high,
    ensures
        low <= bisect::<K, V>(rows, low, high) <= high,
        bisect::<K, V>(rows, low, high) > low ==> fits::<K, V>(
            rows,
            bisect::<K, V>(rows, low, high),
        ),
        bisect::<K, V>(rows, low, high) < high ==> !fits::<K, V>(
            rows,
            bisect::<K, V>(rows, low, high) + 1,
        ),
    decreases high - low,
{
    if low < high {
        let mid = low + (high - low + 1) / 2;
        if fits::<K, V>(rows, mid) {
            lemma_bisect_bounds::<K, V>(rows, mid, high);
        } else {
            lemma_bisect_bounds::<K, V>(rows, low, mid - 1);
        }
    }
}

/// A page takes at least one of the rows there are and never more than there
/// are. More than one row only ever share a page that they fit; and one more
/// row would not have fitted, or the page took as many as a search looks at.
pub proof fn law_a_page_is_as_full_as_the_search_allows<K: Codec<V>, V: DeepView>(
    rows: Seq<RowView<K, V>>,
    hint: int,
)
    ensures
        rows.len() == 0 ==> page_take::<K, V>(rows, hint) == 0,
        rows.len() > 0 ==> 1 <= page_take::<K, V>(rows, hint) <= rows.len(),
        page_take::<K, V>(rows, hint) > 1 ==> fits::<K, V>(rows, page_take::<K, V>(rows, hint)),
        page_take::<K, V>(rows, hint) < rows.len() ==> {
            ||| !fits::<K, V>(rows, page_take::<K, V>(rows, hint) + 1)
            ||| page_take::<K, V>(rows, hint) == ceiling::<K, V>(rows)
        },
{
    reveal(page_take);
    if rows.len() > 0 {
        if 0 < hint <= rows.len() && fits::<K, V>(rows, hint) {
            lemma_walk_up_bounds::<K, V>(rows, hint);
        } else {
            lemma_bisect_bounds::<K, V>(rows, 1, ceiling::<K, V>(rows));
        }
    }
}

/// The rows in `from..to` of a slice.
fn window<K: DeepView, V: DeepView>(rows: &[(K, V)], from: usize, to: usize) -> (part: &[(K, V)])
    requires
        from <= to <= rows@.len(),
    ensures
        part@ == rows@.subrange(from as int, to as int),
        part.deep_view() == rows.deep_view().subrange(from as int, to as int),
{
    let part = slice_subrange(rows, from, to);
    assert(part.deep_view() =~= rows.deep_view().subrange(from as int, to as int));
    part
}

/// Whether the first `take` rows archive into one page body.
fn rows_fit<K: Codec<V>, V: DeepView>(rows: &[(K, V)], take: usize) -> (yes: bool)
    requires
        take <= rows@.len(),
    ensures
        yes == fits::<K, V>(rows.deep_view(), take as int),
        yes == full::share_a_page::<K, V>(rows.deep_view(), take as int),
{
    match K::encode(window(rows, 0, take)) {
        Some(archive) => archive.len() <= BODY_SIZE,
        None => false,
    }
}

/// How many of `rows` the next page takes, when the page before it took `hint`.
///
/// **Bounded probes.** A binary search over the whole remaining slice would
/// re-serialize every row still to be written on every probe, for every page,
/// which is work quadratic in the row count. So the search is bounded to
/// roughly two pages of rows: one sample encode gives bytes per row, the
/// estimate from that sets the ceiling, and the binary search runs under it.
/// Every probe serializes about a page, never a file. Uniform rows land in a
/// probe or two and wildly variable rows still terminate, because the ceiling
/// is only a ceiling.
///
/// Always returns at least one for a non-empty slice, so the caller always
/// makes progress.
pub fn rows_per_page<K: Codec<V>, V: DeepView>(rows: &[(K, V)], hint: usize) -> (take: usize)
    ensures
        take == page_take::<K, V>(rows.deep_view(), hint as int),
        rows@.len() == 0 ==> take == 0,
        rows@.len() > 0 ==> 1 <= take <= rows@.len(),
        take > 1 ==> fits::<K, V>(rows.deep_view(), take as int),
        take < rows@.len() ==> {
            ||| !fits::<K, V>(rows.deep_view(), take + 1)
            ||| take == ceiling::<K, V>(rows.deep_view())
        },
        take > 1 ==> full::share_a_page::<K, V>(rows.deep_view(), take as int),
        take < rows@.len() && full::front_speaks::<K, V>(rows.deep_view())
            ==> !full::share_a_page::<K, V>(rows.deep_view(), take + 1),
        0 < hint <= rows@.len() && full::share_a_page::<K, V>(rows.deep_view(), hint as int) ==> {
            &&& hint <= take
            &&& take < rows@.len() ==> !full::share_a_page::<K, V>(rows.deep_view(), take + 1)
        },
{
    reveal(page_take);
    proof {
        law_a_page_is_as_full_as_the_search_allows::<K, V>(rows.deep_view(), hint as int);
    }
    if rows.len() == 0 {
        return 0;
    }
    let ghost all = rows.deep_view();
    // A page holds about what the last one held, so start there and walk.
    // Uniform rows settle in a probe or two; only the first page, or a run
    // whose rows change size, pays for a search.
    if hint > 0 && hint <= rows.len() && rows_fit(rows, hint) {
        let mut take: usize = hint;
        while take < rows.len() && rows_fit(rows, take + 1)
            invariant
                0 < hint <= take <= rows@.len(),
                all == rows.deep_view(),
                full::share_a_page::<K, V>(all, take as int),
                walk_up::<K, V>(all, hint as int) == walk_up::<K, V>(all, take as int),
            decreases rows@.len() - take,
        {
            take = take + 1;
        }
        return take;
    }
    // No usable hint, or the rows grew. One sample gives bytes per row, and
    // the estimate from it bounds the search to about two pages of rows.
    let sample: usize = if rows.len() < 64 {
        rows.len()
    } else {
        64
    };
    let estimate: usize = match K::encode(window(rows, 0, sample)) {
        // A sample too large to archive is far over a page: one row at a time.
        None => 1,
        Some(archive) => {
            if archive.len() == 0 {
                rows.len()
            } else {
                assert(BODY_SIZE * sample <= BODY_SIZE * 64) by (nonlinear_arith)
                    requires
                        sample <= 64,
                        0 <= BODY_SIZE,
                ;
                let estimate: usize = BODY_SIZE * sample / archive.len();
                if estimate >= 1 {
                    estimate
                } else {
                    1
                }
            }
        },
    };
    let mut low: usize = 1;
    let mut high: usize = if estimate < rows.len() / 2 + rows.len() % 2 {
        2 * estimate
    } else {
        rows.len()
    };
    assert(high == ceiling::<K, V>(all));
    proof {
        let s = full::sample_size(all.len() as int);
        if high < all.len() && full::front_speaks::<K, V>(all) {
            let len = full::front_len::<K, V>(all);
            assert(len(s) == K::archive_len(all.take(s)));
            full::lemma_past_the_bound(len, all.len() as int, estimate as int);
            assert(len(high + 1) == K::archive_len(all.take(high + 1)));
        }
    }
    while low < high
        invariant
            1 <= low <= high <= rows@.len(),
            all == rows.deep_view(),
            low > 1 ==> full::share_a_page::<K, V>(all, low as int),
            high < rows@.len() && full::front_speaks::<K, V>(all) ==> !full::share_a_page::<K, V>(
                all,
                high + 1,
            ),
            bisect::<K, V>(all, 1, ceiling::<K, V>(all)) == bisect::<K, V>(
                all,
                low as int,
                high as int,
            ),
        decreases high - low,
    {
        let mid: usize = low + (high - low + 1) / 2;
        if rows_fit(rows, mid) {
            low = mid;
        } else {
            high = mid - 1;
        }
    }
    low
}

/// The header of page number `page` of a run.
///
/// A last page points at itself, so a chain walker stops rather than running
/// off the end.
pub open spec fn page_header(schema: u32, page: int, last: bool, body: int) -> Header {
    Header {
        version: PAGE_VERSION,
        schema,
        page: page as u32,
        previous: (if page == 0 {
            0
        } else {
            page - 1
        }) as u32,
        next: (if last {
            page
        } else {
            page + 1
        }) as u32,
        page_type: PAGE_TYPE_DATA,
        body: body as u32,
    }
}

/// A page: its header, its body, zeroes up to the directory, the directory.
#[verifier::opaque]
pub open spec fn page_image(header: Header, rows: int, body: Seq<u8>) -> Seq<u8> {
    header.bytes() + body + Seq::new((BODY_SIZE - body.len()) as nat, |i: int| 0u8) + Directory {
        rows: rows as u32,
        crc: checksum::crc32_of(body),
    }.bytes()
}

/// The pages of `rows`, or the row that cannot be written.
///
/// `page` numbers the first of these pages, `first` the first of these rows,
/// and `hint` is what the page before them took.
#[verifier::opaque]
pub open spec fn pages_of<K: Codec<V>, V: DeepView>(
    rows: Seq<RowView<K, V>>,
    schema: u32,
    page: int,
    first: int,
    hint: int,
) -> Result<Seq<u8>, RowTooLarge>
    decreases rows.len(),
{
    let take = page_take::<K, V>(rows, hint);
    let body = K::archive(rows.take(take));
    let last = rows.len() == take;
    let image = page_image(page_header(schema, page, last, body.len() as int), take, body);
    if body.len() > BODY_SIZE {
        Err(
            RowTooLarge {
                row: first as usize,
                bytes: body.len() as usize,
                limit: BODY_SIZE,
            },
        )
    } else if last {
        Ok(image)
    } else {
        proof {
            law_a_page_is_as_full_as_the_search_allows::<K, V>(rows, hint);
        }
        match pages_of::<K, V>(rows.skip(take), schema, page + 1, first + take, take) {
            Ok(rest) => Ok(image + rest),
            Err(refusal) => Err(refusal),
        }
    }
}

/// Whether every page number and every row count of these pages is a `u32`,
/// which is what a page has room for.
#[verifier::opaque]
pub open spec fn numbers_fit<K: Codec<V>, V: DeepView>(
    rows: Seq<RowView<K, V>>,
    page: int,
    hint: int,
) -> bool
    decreases rows.len(),
{
    let take = page_take::<K, V>(rows, hint);
    let body = K::archive(rows.take(take));
    ||| body.len() > BODY_SIZE
    ||| {
        &&& page <= u32::MAX
        &&& take <= u32::MAX
        &&& rows.len() == take || page < u32::MAX && {
            proof {
                law_a_page_is_as_full_as_the_search_allows::<K, V>(rows, hint);
            }
            numbers_fit::<K, V>(rows.skip(take), page + 1, take)
        }
    }
}

/// One page made up: header, body, zeroes, directory.
fn seal_page(header: Header, rows: u32, body: &[u8]) -> (page: Vec<u8>)
    requires
        body@.len() <= BODY_SIZE,
    ensures
        page@ == page_image(header, rows as int, body@),
        page@.len() == PAGE_SIZE,
{
    reveal(page_image);
    let directory = Directory { rows, crc: crc32(body) };
    let mut page: Vec<u8> = Vec::with_capacity(PAGE_SIZE);
    header.write(&mut page);
    proof {
        page::law_header_round_trip(header, Seq::empty());
        page::law_directory_round_trip(Seq::empty(), directory);
    }
    page.extend_from_slice(body);
    assert(page@ =~= header.bytes() + body@);
    page.resize(PAGE_SIZE, 0);
    let ghost padded = page@;
    directory.write(page.as_mut_slice());
    proof {
        let zeroes = Seq::new((BODY_SIZE - body@.len()) as nat, |i: int| 0u8);
        let kept = header.bytes() + body@ + zeroes;
        assert forall|i: int| 0 <= i < kept.len() implies kept[i] == padded[i] by {
            if i < HEADER_SIZE + body@.len() {
                assert(padded.subrange(0, HEADER_SIZE + body@.len())[i] == padded[i]);
            }
        }
        assert(padded.take(PAGE_SIZE - DIRECTORY_SIZE) =~= kept);
    }
    page
}

pub proof fn lemma_page_image_opens_with_header(header: Header, rows: int, body: Seq<u8>)
    requires
        body.len() <= BODY_SIZE,
    ensures
        page_image(header, rows, body).len() == PAGE_SIZE,
        page::header_at(page_image(header, rows, body)) == header,
{
    reveal(page_image);
    let zeroes = Seq::new((BODY_SIZE - body.len()) as nat, |i: int| 0u8);
    let directory = Directory { rows: rows as u32, crc: checksum::crc32_of(body) };
    page::law_header_round_trip(header, body + zeroes + directory.bytes());
    page::law_directory_round_trip(Seq::empty(), directory);
    assert(header.bytes() + (body + zeroes + directory.bytes()) =~= page_image(header, rows, body));
}

/// A page reads back as the rows that were put into it.
pub proof fn law_a_page_reads_back<K: Codec<V>, V: DeepView>(
    rows: Seq<RowView<K, V>>,
    schema: u32,
    page: int,
    last: bool,
    index: int,
    before: Option<u32>,
)
    requires
        0 <= page <= u32::MAX,
        last || page < u32::MAX,
        rows.len() <= u32::MAX,
        K::archive(rows).len() <= BODY_SIZE,
        K::unarchive(K::archive(rows)) == Some(rows),
        before is None || before == Some(schema),
    ensures
        ({
            let body = K::archive(rows);
            let header = page_header(schema, page, last, body.len() as int);
            let image = page_image(header, rows.len() as int, body);
            &&& image.len() == PAGE_SIZE
            &&& page::header_at(image) == header
            &&& page::directory_at(image).rows == rows.len()
            &&& unpack::page_outcome::<K, V>(image, index, before) == Ok::<
                Seq<RowView<K, V>>,
                LoadError,
            >(rows)
        }),
{
    reveal(unpack::page_outcome);
    reveal(page_image);
    let body = K::archive(rows);
    let header = page_header(schema, page, last, body.len() as int);
    let image = page_image(header, rows.len() as int, body);
    let zeroes = Seq::new((BODY_SIZE - body.len()) as nat, |i: int| 0u8);
    let directory = Directory { rows: rows.len() as u32, crc: checksum::crc32_of(body) };
    lemma_page_image_opens_with_header(header, rows.len() as int, body);
    page::law_directory_round_trip(header.bytes() + body + zeroes, directory);
    assert(image.subrange(HEADER_SIZE as int, HEADER_SIZE + header.body) =~= body);
}

/// Page numbers fit where there are at least as many of them left as rows.
proof fn lemma_numbers_fit<K: Codec<V>, V: DeepView>(
    rows: Seq<RowView<K, V>>,
    page: int,
    hint: int,
)
    requires
        0 <= page,
        page + rows.len() <= u32::MAX,
    ensures
        numbers_fit::<K, V>(rows, page, hint),
    decreases rows.len(),
{
    reveal(numbers_fit);
    let take = page_take::<K, V>(rows, hint);
    law_a_page_is_as_full_as_the_search_allows::<K, V>(rows, hint);
    if rows.len() != take {
        lemma_numbers_fit::<K, V>(rows.skip(take), page + 1, take);
    }
}

/// Whether rows can be handed to [`to_pages`]: no page number outgrows a page's
/// header, and each row on its own has an archive.
pub open spec fn writable<K: Codec<V>, V: DeepView>(rows: Seq<RowView<K, V>>) -> bool {
    &&& rows.len() <= u32::MAX || numbers_fit::<K, V>(rows, 0, 0)
    &&& K::archivable(Seq::empty())
    &&& forall|i: int| 0 <= i < rows.len() ==> K::archivable(seq![#[trigger] rows[i]])
}

/// Whether every page number and every row count is a `u32`, found out by going
/// through the pages.
fn can_be_numbered<K: Codec<V>, V: DeepView>(rows: &[(K, V)]) -> (yes: bool)
    requires
        K::archivable(Seq::empty()),
        forall|i: int|
            0 <= i < rows@.len() ==> K::archivable(seq![#[trigger] rows.deep_view()[i]]),
    ensures
        yes == numbers_fit::<K, V>(rows.deep_view(), 0, 0),
{
    let ghost all = rows.deep_view();
    let mut first: usize = 0;
    let mut page: u32 = 0;
    let mut hint: usize = 0;
    assert(all.skip(0) =~= all);
    loop
        invariant
            all == rows.deep_view(),
            all.len() == rows@.len(),
            first <= rows@.len(),
            K::archivable(Seq::empty()),
            forall|i: int| 0 <= i < all.len() ==> K::archivable(seq![#[trigger] all[i]]),
            numbers_fit::<K, V>(all, 0, 0) == numbers_fit::<K, V>(
                all.skip(first as int),
                page as int,
                hint as int,
            ),
        decreases rows@.len() - first,
    {
        let rest = window(rows, first, rows.len());
        let ghost left = all.skip(first as int);
        assert(rest.deep_view() =~= left);
        let take = rows_per_page(rest, hint);
        let head = window(rest, 0, take);
        proof {
            reveal(numbers_fit);
            assert(head.deep_view() =~= left.take(take as int));
            if take == 1 {
                assert(left.take(1) =~= seq![all[first as int]]);
            } else if take == 0 {
                assert(left.take(0) =~= Seq::empty());
            }
            assert(left.skip(take as int) =~= all.skip(first + take));
        }
        let body = match K::encode(head) {
            Some(archive) => archive,
            None => Vec::new(),
        };
        if body.len() > BODY_SIZE {
            return true;
        }
        if take > u32::MAX as usize {
            return false;
        }
        if rest.len() == take {
            return true;
        }
        if page == u32::MAX {
            return false;
        }
        hint = take;
        first = first + take;
        page = page + 1;
    }
}

/// Whether rows can be handed to [`to_pages`].
pub fn can_be_written<K: Codec<V>, V: DeepView>(rows: &[(K, V)]) -> (yes: bool)
    ensures
        yes == writable::<K, V>(rows.deep_view()),
{
    let ghost all = rows.deep_view();
    let none = window(rows, 0, 0);
    assert(none.deep_view() =~= Seq::empty());
    if K::encode(none).is_none() {
        return false;
    }
    let mut row: usize = 0;
    while row < rows.len()
        invariant
            row <= rows@.len(),
            all == rows.deep_view(),
            all.len() == rows@.len(),
            K::archivable(Seq::empty()),
            forall|i: int| 0 <= i < row ==> K::archivable(seq![#[trigger] all[i]]),
        decreases rows@.len() - row,
    {
        let one = window(rows, row, row + 1);
        assert(one.deep_view() =~= seq![all[row as int]]);
        if K::encode(one).is_none() {
            return false;
        }
        row = row + 1;
    }
    rows.len() <= u32::MAX as usize || can_be_numbered(rows)
}

/// What writing one more page does to the pages so far.
proof fn lemma_resume_after_page<K: Codec<V>, V: DeepView>(
    whole: Result<Seq<u8>, RowTooLarge>,
    out: Seq<u8>,
    left: Seq<RowView<K, V>>,
    schema: u32,
    page: int,
    first: int,
    hint: int,
)
    requires
        unpack::resumes(whole, out, pages_of::<K, V>(left, schema, page, first, hint)),
        numbers_fit::<K, V>(left, page, hint),
        K::archivable(Seq::empty()),
        left.len() > 0 ==> K::archivable(seq![left[0]]),
    ensures
        ({
            let take = page_take::<K, V>(left, hint);
            let body = K::archive(left.take(take));
            let last = left.len() == take;
            let image = page_image(page_header(schema, page, last, body.len() as int), take, body);
            &&& 0 <= take <= left.len()
            &&& left.len() > 0 ==> take > 0
            &&& K::archivable(left.take(take))
            &&& body.len() > BODY_SIZE ==> whole == Err::<Seq<u8>, RowTooLarge>(
                RowTooLarge {
                    row: first as usize,
                    bytes: body.len() as usize,
                    limit: BODY_SIZE,
                },
            )
            &&& body.len() <= BODY_SIZE ==> take <= u32::MAX
            &&& body.len() <= BODY_SIZE && last ==> whole == Ok::<Seq<u8>, RowTooLarge>(out + image)
            &&& body.len() <= BODY_SIZE && !last ==> {
                &&& page < u32::MAX
                &&& numbers_fit::<K, V>(left.skip(take), page + 1, take)
                &&& unpack::resumes(
                    whole,
                    out + image,
                    pages_of::<K, V>(left.skip(take), schema, page + 1, first + take, take),
                )
            }
        }),
{
    reveal(pages_of);
    reveal(numbers_fit);
    let take = page_take::<K, V>(left, hint);
    let body = K::archive(left.take(take));
    let last = left.len() == take;
    let image = page_image(page_header(schema, page, last, body.len() as int), take, body);
    law_a_page_is_as_full_as_the_search_allows::<K, V>(left, hint);
    if take == 1 {
        assert(left.take(1) =~= seq![left[0]]);
    } else if take == 0 {
        assert(left.take(0) =~= Seq::empty());
    }
    if body.len() <= BODY_SIZE && !last {
        match pages_of::<K, V>(left.skip(take), schema, page + 1, first + take, take) {
            Ok(rest) => {
                assert(out + (image + rest) =~= out + image + rest);
            },
            Err(_) => {},
        }
    }
}

/// Pages that hold `done`, followed by a page of `rows`, hold both.
proof fn lemma_one_more_page_reads_back<K: Codec<V>, V: DeepView>(
    out: Seq<u8>,
    done: Seq<RowView<K, V>>,
    rows: Seq<RowView<K, V>>,
    schema: u32,
    page: int,
    last: bool,
)
    requires
        0 <= page <= u32::MAX,
        last || page < u32::MAX,
        rows.len() <= u32::MAX,
        K::archive(rows).len() <= BODY_SIZE,
        K::unarchive(K::archive(rows)) == Some(rows),
        unpack::whole_pages(out.len() as int),
        unpack::page_count(out.len() as int) == page,
        unpack::run_outcome::<K, V>(out, 0, None) == Ok::<Seq<RowView<K, V>>, LoadError>(done),
        out.len() > 0 ==> page::header_at(out).schema == schema,
    ensures
        ({
            let body = K::archive(rows);
            let header = page_header(schema, page, last, body.len() as int);
            let more = out + page_image(header, rows.len() as int, body);
            &&& more.len() > 0
            &&& unpack::whole_pages(more.len() as int)
            &&& unpack::page_count(more.len() as int) == page + 1
            &&& unpack::run_outcome::<K, V>(more, 0, None) == Ok::<Seq<RowView<K, V>>, LoadError>(
                done + rows,
            )
            &&& page::header_at(more).schema == schema
        }),
{
    let body = K::archive(rows);
    let header = page_header(schema, page, last, body.len() as int);
    let image = page_image(header, rows.len() as int, body);
    let named = if out.len() == 0 {
        None
    } else {
        Some(schema)
    };
    law_a_page_reads_back::<K, V>(rows, schema, page, last, page, named);
    unpack::lemma_run_of_one_page::<K, V>(image, page, named);
    unpack::lemma_run_append::<K, V>(out, image, 0, None, done);
    unpack::lemma_one_page_more(out.len() as int);
    if out.len() == 0 {
        assert(out + image =~= image);
    } else {
        unpack::lemma_one_page_less(out.len() as int);
        unpack::lemma_header_of_run(out, image);
    }
}

/// Whether this row alone is not longer than a page body.
pub open spec fn row_fits<K: Codec<V>, V: DeepView>(rows: Seq<RowView<K, V>>, row: int) -> bool {
    K::archive_len(seq![rows[row]]) <= BODY_SIZE
}

/// Whether no row alone is longer than a page body, nor are no rows at all.
pub open spec fn every_row_fits<K: Codec<V>, V: DeepView>(rows: Seq<RowView<K, V>>) -> bool {
    &&& rows.len() == 0 ==> K::archive_len(Seq::empty()) <= BODY_SIZE
    &&& forall|i: int| 0 <= i < rows.len() ==> #[trigger] row_fits::<K, V>(rows, i)
}

/// Whether a refusal names the first row that alone is longer than a page body,
/// and says how long it is.
pub open spec fn names_first_too_large<K: Codec<V>, V: DeepView>(
    rows: Seq<RowView<K, V>>,
    refusal: RowTooLarge,
) -> bool {
    &&& refusal.limit == BODY_SIZE
    &&& forall|i: int| 0 <= i < refusal.row ==> #[trigger] row_fits::<K, V>(rows, i)
    &&& rows.len() > 0 ==> {
        &&& refusal.row < rows.len()
        &&& !row_fits::<K, V>(rows, refusal.row as int)
        &&& refusal.bytes == K::archive_len(seq![rows[refusal.row as int]])
    }
}

/// Rows that share a page that is not too long each fit one.
proof fn lemma_rows_of_a_page_fit<K: Codec<V>, V: DeepView>(
    rows: Seq<RowView<K, V>>,
    first: int,
    take: int,
)
    requires
        0 <= first,
        0 <= take,
        first + take <= rows.len(),
        K::archive_len(rows.skip(first).take(take)) <= BODY_SIZE,
    ensures
        forall|i: int| first <= i < first + take ==> #[trigger] row_fits::<K, V>(rows, i),
{
    let page = rows.skip(first).take(take);
    assert forall|i: int| first <= i < first + take implies #[trigger] row_fits::<K, V>(
        rows,
        i,
    ) by {
        K::more_rows_archive_no_shorter(page, i - first, i - first + 1);
        assert(page.subrange(i - first, i - first + 1) =~= seq![rows[i]]);
    }
}

/// Rows to pages, each page standing alone.
///
/// # Errors
///
/// A row whose archive alone is longer than a page body is refused, and then
/// no page is handed out at all.
#[verifier::rlimit(40)]
pub fn to_pages<K: Codec<V>, V: DeepView>(rows: &[(K, V)], schema: u32) -> (pages: Result<
    Vec<u8>,
    RowTooLarge,
>)
    requires
        writable::<K, V>(rows.deep_view()),
    ensures
        match pages_of::<K, V>(rows.deep_view(), schema, 0, 0, 0) {
            Ok(bytes) => pages matches Ok(held) && held@ == bytes,
            Err(refusal) => pages == Err::<Vec<u8>, RowTooLarge>(refusal),
        },
        pages matches Ok(held) ==> unpack::load_outcome::<K, V>(held@, schema) == Ok::<
            Seq<RowView<K, V>>,
            LoadError,
        >(rows.deep_view()),
        pages is Ok <==> every_row_fits::<K, V>(rows.deep_view()),
        pages matches Err(refusal) ==> names_first_too_large::<K, V>(rows.deep_view(), refusal),
        pages matches Ok(held) ==> full::speaks_throughout::<K, V>(rows.deep_view())
            ==> full::packed::<K, V>(held@, rows.deep_view()),
{
    let ghost all = rows.deep_view();
    let ghost whole = pages_of::<K, V>(all, schema, 0, 0, 0);
    let mut out: Vec<u8> = Vec::new();
    let mut first: usize = 0;
    let mut page: u32 = 0;
    let mut hint: usize = 0;
    proof {
        unpack::lemma_no_pages();
        if rows@.len() <= u32::MAX {
            lemma_numbers_fit::<K, V>(all, 0, 0);
        }
        assert(all.skip(0) =~= all);
        assert(all.take(0) =~= Seq::empty());
        if let Ok(bytes) = whole {
            assert(out@ + bytes =~= bytes);
        }
        assert forall|tail: Seq<u8>| full::packed::<K, V>(tail, all) implies full::packed::<K, V>(
            #[trigger] (out@ + tail),
            all,
        ) by {
            assert(out@ + tail =~= tail);
        }
    }
    // An empty table still writes one page. A zero byte file is
    // indistinguishable from a missing one, and a load has to tell "no rows"
    // from "nothing landed".
    loop
        invariant
            writable::<K, V>(all),
            all == rows.deep_view(),
            all.len() == rows@.len(),
            first <= rows@.len(),
            whole == pages_of::<K, V>(all, schema, 0, 0, 0),
            numbers_fit::<K, V>(all.skip(first as int), page as int, hint as int),
            unpack::resumes(
                whole,
                out@,
                pages_of::<K, V>(
                    all.skip(first as int),
                    schema,
                    page as int,
                    first as int,
                    hint as int,
                ),
            ),
            unpack::whole_pages(out@.len() as int),
            unpack::page_count(out@.len() as int) == page,
            unpack::run_outcome::<K, V>(out@, 0, None) == Ok::<Seq<RowView<K, V>>, LoadError>(
                all.take(first as int),
            ),
            out@.len() > 0 ==> page::header_at(out@).schema == schema,
            forall|i: int| 0 <= i < first ==> #[trigger] row_fits::<K, V>(all, i),
            first < rows@.len() || rows@.len() == 0,
            full::speaks_throughout::<K, V>(all) ==> full::packed_up_to::<K, V>(
                out@,
                all,
                all.skip(first as int),
            ),
        decreases rows@.len() - first,
    {
        let rest = window(rows, first, rows.len());
        let ghost left = all.skip(first as int);
        assert(rest.deep_view() =~= left);
        // Zero for an empty table, which still writes its one page and stops.
        // At least one for anything else, so this always makes progress.
        let take = rows_per_page(rest, hint);
        proof {
            if left.len() > 0 {
                assert(left[0] == all[first as int]);
            }
            lemma_resume_after_page::<K, V>(
                whole,
                out@,
                left,
                schema,
                page as int,
                first as int,
                hint as int,
            );
        }
        let head = window(rest, 0, take);
        assert(head.deep_view() =~= left.take(take as int));
        let body = match K::encode(head) {
            Some(archive) => archive,
            None => Vec::new(),
        };
        if body.len() > BODY_SIZE {
            proof {
                if take == 1 {
                    assert(left.take(1) =~= seq![all[first as int]]);
                    assert(!row_fits::<K, V>(all, first as int));
                } else {
                    assert(left.take(0) =~= Seq::empty());
                }
            }
            return Err(RowTooLarge { row: first, bytes: body.len(), limit: BODY_SIZE });
        }
        let last = rest.len() == take;
        let header = Header {
            version: PAGE_VERSION,
            schema,
            page,
            previous: if page == 0 {
                0
            } else {
                page - 1
            },
            // A last page points at itself, so a chain walker stops rather than
            // running off the end.
            next: if last {
                page
            } else {
                page + 1
            },
            page_type: PAGE_TYPE_DATA,
            body: body.len() as u32,
        };
        let mut image = seal_page(header, take as u32, body.as_slice());
        proof {
            lemma_rows_of_a_page_fit::<K, V>(all, first as int, take as int);
            if take == 0 {
                assert(left.take(0) =~= Seq::empty());
            }
            lemma_one_more_page_reads_back::<K, V>(
                out@,
                all.take(first as int),
                left.take(take as int),
                schema,
                page as int,
                last,
            );
            assert(all.take(first as int) + left.take(take as int) =~= all.take(first + take));
            assert(left.skip(take as int) =~= all.skip(first + take));
            assert(all.take(all.len() as int) =~= all);
            law_a_page_reads_back::<K, V>(
                left.take(take as int),
                schema,
                page as int,
                last,
                page as int,
                None,
            );
            if full::speaks_throughout::<K, V>(all) {
                full::lemma_one_more_packed::<K, V>(out@, image@, all, left, take as int);
            }
        }
        out.append(&mut image);
        if last {
            return Ok(out);
        }
        hint = take;
        first = first + take;
        page = page + 1;
    }
}

} // verus!
