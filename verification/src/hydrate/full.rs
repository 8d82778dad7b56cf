//! How full pages are.
//!
//! A search for the rows that share a page looks at no more rows than twice those
//! that a page would hold if all were as long as the first few on average. Here is
//! what that bound leaves of "as many rows as fit", and how many pages rows take.

use vstd::prelude::*;

use crate::hydrate::codec::{Codec, RowView};
use crate::hydrate::pack;
use crate::hydrate::page::{self, BODY_SIZE, PAGE_SIZE};
use crate::hydrate::rkyv_rows;
use crate::hydrate::unpack;

verus! {

/// How many of `count` rows are sampled.
pub open spec fn sample_size(count: int) -> int {
    if count < 64 {
        count
    } else {
        64
    }
}

/// Whether the sampled rows speak for all: however many rows are taken from the
/// front, three or more, they are on average not much shorter than half of what
/// the sampled ones are. `len` says how long the first so many rows are.
pub open spec fn sample_speaks(len: spec_fn(int) -> int, count: int) -> bool {
    forall|n: int|
        3 <= n <= count ==> (n + 1) * len(sample_size(count)) <= 2 * sample_size(count)
            * #[trigger] len(n)
}

/// How long the archive of the first so many rows is.
pub open spec fn front_len<K: Codec<V>, V: DeepView>(rows: Seq<RowView<K, V>>) -> spec_fn(
    int,
) -> int {
    |n: int| K::archive_len(rows.take(n)) as int
}

/// Whether the first `n` rows are not longer than a page body.
pub open spec fn share_a_page<K: Codec<V>, V: DeepView>(
    rows: Seq<RowView<K, V>>,
    n: int,
) -> bool {
    K::archivable(rows.take(n)) && K::archive_len(rows.take(n)) <= BODY_SIZE
}

/// Whether the sampled ones of these rows speak for all of them.
pub open spec fn front_speaks<K: Codec<V>, V: DeepView>(rows: Seq<RowView<K, V>>) -> bool {
    &&& K::archivable(rows.take(sample_size(rows.len() as int)))
    &&& sample_speaks(front_len::<K, V>(rows), rows.len() as int)
}

/// Where the sampled rows speak for all, one row more than twice the estimate that
/// they give is too long for a page.
pub proof fn lemma_past_the_bound(
    len: spec_fn(int) -> int,
    count: int,
    estimate: int,
)
    requires
        1 <= count,
        sample_speaks(len, count),
        0 < len(sample_size(count)),
        estimate >= BODY_SIZE * sample_size(count) / len(sample_size(count)),
        1 <= estimate,
        2 * estimate < count,
    ensures
        len(2 * estimate + 1) > BODY_SIZE,
{
    let s = sample_size(count);
    let sampled = len(s);
    let longer = len(2 * estimate + 1);
    let most = BODY_SIZE * s;
    assert((2 * estimate + 2) * sampled <= 2 * s * longer);
    vstd::arithmetic::div_mod::lemma_fundamental_div_mod(most, sampled);
    vstd::arithmetic::div_mod::lemma_mod_bound(most, sampled);
    let e = most / sampled;
    assert(sampled * (e + 1) == sampled * e + sampled) by (nonlinear_arith);
    assert(sampled * (e + 1) > most);
    assert((2 * estimate + 2) * sampled >= 2 * (sampled * (e + 1))) by (nonlinear_arith)
        requires
            estimate >= e,
            sampled > 0,
    ;
    assert(2 * s * longer > 2 * (BODY_SIZE * s));
    assert(longer > BODY_SIZE) by (nonlinear_arith)
        requires
            2 * s * longer > 2 * (BODY_SIZE * s),
            s >= 1,
    ;
}

/// The bound of a search is never below twice the number of rows that fit a page
/// when every row is as long as the sampled ones are on average, unless there are
/// fewer rows than that; and beyond two rows it is no higher either.
pub proof fn law_the_bound_is_two_pages_of_sampled_rows<K: Codec<V>, V: DeepView>(
    rows: Seq<RowView<K, V>>,
    n: int,
)
    requires
        rows.len() > 0,
        0 <= n,
        K::archivable(rows.take(sample_size(rows.len() as int))),
    ensures
        ({
            let s = sample_size(rows.len() as int);
            let sampled = K::archive(rows.take(s)).len();
            let bound = pack::ceiling::<K, V>(rows);
            &&& n * sampled <= BODY_SIZE * s ==> 2 * n <= bound || bound == rows.len()
            &&& 2 * n < bound && n > 1 ==> n * sampled <= BODY_SIZE * s
            &&& 1 <= bound <= rows.len()
            &&& rows.len() >= 2 ==> bound >= 2
        }),
{
    let s = sample_size(rows.len() as int);
    let sampled = K::archive(rows.take(s)).len() as int;
    let most = BODY_SIZE * s;
    if sampled > 0 {
        let e = most / sampled;
        vstd::arithmetic::div_mod::lemma_fundamental_div_mod(most, sampled);
        vstd::arithmetic::div_mod::lemma_mod_bound(most, sampled);
        vstd::arithmetic::div_mod::lemma_div_pos_is_pos(most, sampled);
        if n * sampled <= most {
            assert(n <= e) by (nonlinear_arith)
                requires
                    n * sampled <= most,
                    most < sampled * e + sampled,
                    sampled > 0,
            ;
        }
        if n <= e {
            assert(n * sampled <= sampled * e) by (nonlinear_arith)
                requires
                    n <= e,
                    sampled > 0,
            ;
        }
    } else {
        assert(n * sampled == 0) by (nonlinear_arith)
            requires
                sampled == 0,
        ;
    }
}

/// A page is as full as it gets: where it does not take all the rows that are left,
/// one more would not have fitted. The bound of the search is no way out, where
/// the sampled rows speak for all; and where the page before took as many rows as
/// fit this one too, no bound comes in at all.
pub proof fn law_a_page_is_as_full_as_it_gets<K: Codec<V>, V: DeepView>(
    rows: Seq<RowView<K, V>>,
    hint: int,
)
    requires
        pack::page_take::<K, V>(rows, hint) < rows.len(),
        ({
            ||| 0 < hint <= rows.len() && K::archivable(rows.take(hint)) && K::archive(
                rows.take(hint),
            ).len() <= BODY_SIZE
            ||| K::archivable(rows.take(sample_size(rows.len() as int))) && sample_speaks(
                |n: int| K::archive(rows.take(n)).len() as int,
                rows.len() as int,
            )
        }),
    ensures
        ({
            let more = rows.take(pack::page_take::<K, V>(rows, hint) + 1);
            !K::archivable(more) || K::archive(more).len() > BODY_SIZE
        }),
{
    reveal(pack::page_take);
    pack::law_a_page_is_as_full_as_the_search_allows::<K, V>(rows, hint);
    let take = pack::page_take::<K, V>(rows, hint);
    if 0 < hint <= rows.len() && pack::fits::<K, V>(rows, hint) {
        pack::lemma_walk_up_bounds::<K, V>(rows, hint);
    } else if pack::fits::<K, V>(rows, take + 1) {
        let len = |n: int| K::archive(rows.take(n)).len() as int;
        let s = sample_size(rows.len() as int);
        let sampled = K::archive(rows.take(s)).len() as int;
        assert(take == pack::ceiling::<K, V>(rows));
        assert(len(s) == sampled);
        if sampled > 0 {
            lemma_past_the_bound(len, rows.len() as int, take / 2);
            assert(len(take + 1) == K::archive(rows.take(take + 1)).len());
        }
    }
}

/// Whether rows grow evenly: `n` rows, wherever they are taken from, are `base` and
/// `n` times `step` bytes long.
pub open spec fn evenly(len: spec_fn(int) -> int, count: int, base: int, step: int) -> bool {
    forall|n: int| 0 <= n <= count ==> #[trigger] len(n) == base + n * step
}

/// Where rows grow evenly, and what comes once is not longer than the sampled rows,
/// the sampled rows speak for all.
pub proof fn law_even_rows_speak_for_all(
    len: spec_fn(int) -> int,
    count: int,
    base: int,
    step: int,
)
    requires
        evenly(len, count, base, step),
        0 <= base <= 64 * step,
        1 <= count,
    ensures
        sample_speaks(len, count),
{
    let s = sample_size(count);
    assert forall|n: int| 3 <= n <= count implies (n + 1) * len(s) <= 2 * s * #[trigger] len(
        n,
    ) by {
        assert(len(s) == base + s * step);
        if n + 1 <= 2 * s {
            assert((n + 1) * (base + s * step) <= 2 * s * (base + n * step)) by (nonlinear_arith)
                requires
                    n + 1 <= 2 * s,
                    3 <= n,
                    1 <= s,
                    0 <= base,
                    0 <= step,
            ;
        } else {
            assert(s == 64);
            assert((n + 1) * (base + 64 * step) <= 128 * (base + n * step)) by (nonlinear_arith)
                requires
                    n + 1 > 128,
                    0 <= base <= 64 * step,
            ;
        }
    }
}

/// Whether these bytes are pages of these rows, each as full as it gets: what is on
/// a page fits it, and where rows are left, one more would not have fitted. How many
/// rows a page has is what the page itself says.
pub open spec fn packed<K: Codec<V>, V: DeepView>(
    bytes: Seq<u8>,
    rows: Seq<RowView<K, V>>,
) -> bool
    decreases rows.len(),
{
    let on_page: int = page::directory_at(bytes.take(PAGE_SIZE as int)).rows as int;
    &&& bytes.len() >= PAGE_SIZE
    &&& on_page <= rows.len()
    &&& share_a_page::<K, V>(rows, on_page)
    &&& if on_page == rows.len() {
        bytes.len() == PAGE_SIZE
    } else {
        &&& 0 < on_page
        &&& !share_a_page::<K, V>(rows, on_page + 1)
        &&& packed::<K, V>(bytes.skip(PAGE_SIZE as int), rows.skip(on_page))
    }
}

/// Whether, wherever a page begins, the sampled rows speak for all that are left.
pub open spec fn speaks_throughout<K: Codec<V>, V: DeepView>(rows: Seq<RowView<K, V>>) -> bool {
    forall|k: int| 0 <= k <= rows.len() ==> front_speaks::<K, V>(#[trigger] rows.skip(k))
}

/// Whether pages of the rows that are left make, behind `out`, pages of all the rows.
pub open spec fn packed_up_to<K: Codec<V>, V: DeepView>(
    out: Seq<u8>,
    rows: Seq<RowView<K, V>>,
    left: Seq<RowView<K, V>>,
) -> bool {
    forall|tail: Seq<u8>|
        packed::<K, V>(tail, left) ==> packed::<K, V>(#[trigger] (out + tail), rows)
}

/// One more page, as full as it gets, behind pages that are.
pub proof fn lemma_one_more_packed<K: Codec<V>, V: DeepView>(
    out: Seq<u8>,
    image: Seq<u8>,
    rows: Seq<RowView<K, V>>,
    left: Seq<RowView<K, V>>,
    take: int,
)
    requires
        packed_up_to::<K, V>(out, rows, left),
        image.len() == PAGE_SIZE,
        page::directory_at(image).rows == take,
        0 <= take <= left.len(),
        share_a_page::<K, V>(left, take),
        take < left.len() ==> 0 < take && !share_a_page::<K, V>(left, take + 1),
    ensures
        take == left.len() ==> packed::<K, V>(out + image, rows),
        take < left.len() ==> packed_up_to::<K, V>(out + image, rows, left.skip(take)),
{
    assert(image.take(PAGE_SIZE as int) =~= image);
    if take < left.len() {
        assert forall|tail: Seq<u8>| packed::<K, V>(tail, left.skip(take)) implies packed::<K, V>(
            #[trigger] (out + image + tail),
            rows,
        ) by {
            assert((image + tail).take(PAGE_SIZE as int) =~= image);
            assert((image + tail).skip(PAGE_SIZE as int) =~= tail);
            assert(packed::<K, V>(image + tail, left));
            assert(out + (image + tail) =~= out + image + tail);
        }
    } else {
        assert(packed::<K, V>(image, left));
    }
}

/// Rows that grow evenly take no more pages than they have to: every page but the
/// last has as many rows as ever fit one, and the last one has the rest.
pub proof fn law_even_rows_take_the_fewest_pages<K: Codec<V>, V: DeepView>(
    bytes: Seq<u8>,
    rows: Seq<RowView<K, V>>,
    base: int,
    step: int,
    most: int,
)
    requires
        packed::<K, V>(bytes, rows),
        forall|i: int, j: int|
            0 <= i <= j <= rows.len() ==> K::archive_len(#[trigger] rows.subrange(i, j)) == base
                + (j - i) * step,
        forall|i: int, j: int|
            0 <= i <= j <= rows.len() && j - i <= most + 1 ==> K::archivable(
                #[trigger] rows.subrange(i, j),
            ),
        0 <= step,
        1 <= most,
        base + most * step <= BODY_SIZE < base + (most + 1) * step,
        rows.len() > 0,
    ensures
        unpack::whole_pages(bytes.len() as int),
        (unpack::page_count(bytes.len() as int) - 1) * most < rows.len(),
        rows.len() <= unpack::page_count(bytes.len() as int) * most,
        page::directory_at(bytes.take(PAGE_SIZE as int)).rows == if most < rows.len() {
            most
        } else {
            rows.len() as int
        },
    decreases rows.len(),
{
    let on_page: int = page::directory_at(bytes.take(PAGE_SIZE as int)).rows as int;
    assert(rows.take(on_page) =~= rows.subrange(0, on_page));
    assert(on_page <= most) by (nonlinear_arith)
        requires
            base + on_page * step <= BODY_SIZE,
            BODY_SIZE < base + (most + 1) * step,
            0 <= step,
    ;
    unpack::lemma_no_pages();
    unpack::lemma_one_page_more(0);
    if on_page < rows.len() {
        assert(rows.take(on_page + 1) =~= rows.subrange(0, on_page + 1));
        assert(on_page >= most) by (nonlinear_arith)
            requires
                base + (on_page + 1) * step > BODY_SIZE,
                base + most * step <= BODY_SIZE,
                0 <= step,
        ;
        let left = rows.skip(on_page);
        let rest = bytes.skip(PAGE_SIZE as int);
        assert forall|i: int, j: int| 0 <= i <= j <= left.len() implies K::archive_len(
            #[trigger] left.subrange(i, j),
        ) == base + (j - i) * step by {
            assert(left.subrange(i, j) =~= rows.subrange(on_page + i, on_page + j));
            assert((on_page + j) - (on_page + i) == j - i);
        }
        assert forall|i: int, j: int|
            0 <= i <= j <= left.len() && j - i <= most + 1 implies K::archivable(
            #[trigger] left.subrange(i, j),
        ) by {
            assert(left.subrange(i, j) =~= rows.subrange(on_page + i, on_page + j));
        }
        law_even_rows_take_the_fewest_pages::<K, V>(rest, left, base, step, most);
        unpack::lemma_one_page_more(rest.len() as int);
        let pages = unpack::page_count(rest.len() as int);
        assert(pages * most == (pages - 1) * most + most) by (nonlinear_arith);
        assert((pages + 1) * most == pages * most + most) by (nonlinear_arith);
    } else {
        assert(0 * most == 0 && 1 * most == most) by (nonlinear_arith);
    }
}

/// Rows of words speak for all of them, wherever a page begins.
pub proof fn law_rows_of_words_speak(rows: Seq<(u64, u64)>)
    ensures
        speaks_throughout::<u64, u64>(rows),
{
    assert forall|k: int| 0 <= k <= rows.len() implies front_speaks::<u64, u64>(
        #[trigger] rows.skip(k),
    ) by {
        let left = rows.skip(k);
        if left.len() > 0 {
            law_even_rows_speak_for_all(
                front_len::<u64, u64>(left),
                left.len() as int,
                8,
                16,
            );
        }
    }
}

/// How many bytes a row of a word and a text takes.
pub open spec fn row_bytes(row: (u64, Seq<char>)) -> int {
    if rkyv_rows::text_bytes(row.1) <= 8 {
        16
    } else {
        16 + rkyv_rows::text_bytes(row.1) as int
    }
}

proof fn lemma_text_outside_bounds(rows: Seq<(u64, Seq<char>)>, least: int, most: int)
    requires
        forall|i: int| 0 <= i < rows.len() ==> least <= row_bytes(#[trigger] rows[i]) <= most,
    ensures
        least * rows.len() <= rkyv_rows::text_outside(rows) + 16 * rows.len() <= most * rows.len(),
    decreases rows.len(),
{
    if rows.len() > 0 {
        let fewer = rows.drop_last();
        assert forall|i: int| 0 <= i < fewer.len() implies least <= row_bytes(
            #[trigger] fewer[i],
        ) <= most by {
            assert(fewer[i] == rows[i]);
        }
        lemma_text_outside_bounds(fewer, least, most);
        assert(least <= row_bytes(rows[rows.len() - 1]) <= most);
        let n = fewer.len() as int;
        assert(least * (n + 1) == least * n + least) by (nonlinear_arith);
        assert(most * (n + 1) == most * n + most) by (nonlinear_arith);
    } else {
        assert(least * 0 == 0 && most * 0 == 0) by (nonlinear_arith);
    }
}

/// Rows of words and texts that are of about one length, none more than a quarter
/// longer than another, speak for all of them, wherever a page begins.
pub proof fn law_rows_of_like_texts_speak(rows: Seq<(u64, Seq<char>)>, least: int, most: int)
    requires
        forall|i: int| 0 <= i < rows.len() ==> least <= row_bytes(#[trigger] rows[i]) <= most,
        16 <= least <= most <= BODY_SIZE,
        4 * most <= 5 * least,
    ensures
        speaks_throughout::<u64, String>(rows),
{
    assert forall|k: int| 0 <= k <= rows.len() implies front_speaks::<u64, String>(
        #[trigger] rows.skip(k),
    ) by {
        let left = rows.skip(k);
        assert forall|i: int| 0 <= i < left.len() implies least <= row_bytes(
            #[trigger] left[i],
        ) <= most by {
            assert(left[i] == rows[k + i]);
        }
        lemma_front_of_like_texts_speaks(left, least, most);
    }
}

proof fn lemma_front_of_like_texts_speaks(rows: Seq<(u64, Seq<char>)>, least: int, most: int)
    requires
        forall|i: int| 0 <= i < rows.len() ==> least <= row_bytes(#[trigger] rows[i]) <= most,
        16 <= least <= most <= BODY_SIZE,
        4 * most <= 5 * least,
    ensures
        front_speaks::<u64, String>(rows),
{
    let count = rows.len() as int;
    let s = sample_size(count);
    let sample = rows.take(s);
    let len = front_len::<u64, String>(rows);
    assert forall|i: int| 0 <= i < sample.len() implies least <= row_bytes(
        #[trigger] sample[i],
    ) <= most by {
        assert(sample[i] == rows[i]);
    }
    lemma_text_outside_bounds(sample, least, most);
    assert(most * s <= 16348 * 64) by (nonlinear_arith)
        requires
            0 <= s <= 64,
            0 <= most <= 16348,
    ;
    assert forall|i: int| 0 <= i < sample.len() implies rkyv_rows::text_bytes(
        (#[trigger] sample[i]).1,
    ) <= 0x3fff_ffff by {
        assert(row_bytes(sample[i]) <= most);
    }
    assert forall|n: int| 3 <= n <= count implies (n + 1) * len(s) <= 2 * s * #[trigger] len(
        n,
    ) by {
        let front = rows.take(n);
        assert forall|i: int| 0 <= i < front.len() implies least <= row_bytes(
            #[trigger] front[i],
        ) <= most by {
            assert(front[i] == rows[i]);
        }
        lemma_text_outside_bounds(front, least, most);
        let sampled = len(s);
        let longer = len(n);
        assert(sampled <= most * s + 15);
        assert(longer >= least * n + 8);
        lemma_like_lengths(n, s, sampled, longer, least, most);
    }
}

proof fn lemma_like_lengths(n: int, s: int, sampled: int, longer: int, least: int, most: int)
    requires
        3 <= n,
        3 <= s,
        0 <= sampled <= most * s + 15,
        longer >= least * n + 8,
        16 <= least <= most,
        4 * most <= 5 * least,
    ensures
        (n + 1) * sampled <= 2 * s * longer,
{
    let a = n * s * least;
    assert(n * s * least >= 16 * n * s) by (nonlinear_arith)
        requires
            least >= 16,
            n >= 3,
            s >= 3,
    ;
    assert(n * s >= 3 * n) by (nonlinear_arith)
        requires
            n >= 3,
            s >= 3,
    ;
    assert((n + 1) * sampled <= (n + 1) * (most * s + 15)) by (nonlinear_arith)
        requires
            sampled <= most * s + 15,
            n >= 3,
    ;
    assert((n + 1) * (most * s + 15) == (n + 1) * most * s + 15 * n + 15) by (nonlinear_arith);
    assert(3 * ((n + 1) * most * s) <= 4 * (n * s * most)) by (nonlinear_arith)
        requires
            n >= 3,
            s >= 3,
            most >= 16,
    ;
    assert(4 * (n * s * most) <= 5 * (n * s * least)) by (nonlinear_arith)
        requires
            4 * most <= 5 * least,
            n >= 3,
            s >= 3,
    ;
    assert(2 * s * longer >= 2 * s * (least * n + 8)) by (nonlinear_arith)
        requires
            longer >= least * n + 8,
            s >= 3,
    ;
    assert(2 * s * (least * n + 8) == 2 * (n * s * least) + 16 * s) by (nonlinear_arith);
    assert(16 * n * s == 16 * (n * s)) by (nonlinear_arith);
}

} // verus!
