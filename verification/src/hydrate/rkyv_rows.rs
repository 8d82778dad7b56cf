//! Row types that rkyv archives.

use vstd::prelude::*;

use crate::hydrate::codec::{Codec, NotAnArchive};
use crate::hydrate::page::BODY_SIZE;

verus! {

/// `rkyv::rancor::Error`: why bytes are not an archive, taken as it is.
#[verifier::external_type_specification]
#[verifier::external_body]
pub struct ExRancorError(rkyv::rancor::Error);

/// The longest run of bytes that can be copied into an aligned buffer: sixteen
/// byte alignment leaves that much of the address space.
pub open spec fn can_be_aligned(len: int) -> bool {
    len <= isize::MAX - 15
}

/// Whether bytes of this length can be copied into an aligned buffer.
fn fits_aligned(bytes: &[u8]) -> (fits: bool)
    ensures
        fits == can_be_aligned(bytes@.len() as int),
{
    bytes.len() <= (isize::MAX - 15) as usize
}

/// The archive of rows of words and texts.
pub uninterp spec fn archive_of_texts(rows: Seq<(u64, Seq<char>)>) -> Seq<u8>;

/// The rows of words and texts that bytes are an archive of, if they are one.
pub uninterp spec fn texts_in_archive(bytes: Seq<u8>) -> Option<Seq<(u64, Seq<char>)>>;

/// How many bytes a text has.
pub open spec fn text_bytes(text: Seq<char>) -> nat {
    vstd::utf8::encode_utf8(text).len()
}

/// How many bytes of text an archive holds outside its rows: eight bytes have
/// room in the row itself.
pub open spec fn text_outside(rows: Seq<(u64, Seq<char>)>) -> nat
    decreases rows.len(),
{
    if rows.len() == 0 {
        0
    } else {
        text_outside(rows.drop_last()) + if text_bytes(rows.last().1) <= 8 {
            0
        } else {
            text_bytes(rows.last().1)
        }
    }
}

/// Bytes up to the next multiple of eight.
pub open spec fn padded(bytes: nat) -> nat {
    (bytes + 7) / 8 * 8
}

/// How long the archive of rows of words and texts is: the longer texts, padding,
/// sixteen bytes for a row, and eight for the root.
pub open spec fn texts_len(rows: Seq<(u64, Seq<char>)>) -> nat {
    padded(text_outside(rows)) + 16 * rows.len() + 8
}

/// Whether rows of words and texts have an archive: a text's length has thirty
/// bits, and an offset has 32 bits with a sign, so that an archive stays short
/// of two gibibytes.
pub open spec fn texts_archivable(rows: Seq<(u64, Seq<char>)>) -> bool {
    &&& forall|i: int| 0 <= i < rows.len() ==> text_bytes((#[trigger] rows[i]).1) <= 0x3fff_ffff
    &&& text_outside(rows) + 16 * rows.len() <= 0x7fff_ff00
}

/// `rkyv::to_bytes` of a `Vec<(u64, String)>`. What the bytes are is for rkyv to
/// say; that they depend on the rows alone, that `rkyv::from_bytes` gives the
/// rows back, and that sixteen bytes for a row, the longer texts, padding and
/// the root are all there is, is what is claimed.
#[verifier::external_body]
fn rkyv_texts_to_bytes(rows: &[(u64, String)]) -> (archive: Vec<u8>)
    requires
        texts_archivable(rows.deep_view()),
    ensures
        archive@ == archive_of_texts(rows.deep_view()),
        texts_in_archive(archive@) == Some(rows.deep_view()),
        archive@.len() == texts_len(rows.deep_view()),
{
    rkyv::to_bytes::<rkyv::rancor::Error>(&rows.to_vec()).expect("rows serialize").to_vec()
}

/// `rkyv::from_bytes` into a `Vec<(u64, String)>`, of bytes copied to where they
/// are aligned. Which bytes are an archive, and of what, is for rkyv to say;
/// that it depends on the bytes alone is what is claimed.
#[verifier::external_body]
fn rkyv_texts_from_bytes(bytes: &[u8]) -> (rows: Result<Vec<(u64, String)>, rkyv::rancor::Error>)
    requires
        can_be_aligned(bytes@.len() as int),
    ensures
        rows is Ok <==> texts_in_archive(bytes@) is Some,
        rows matches Ok(found) ==> texts_in_archive(bytes@) == Some(found.deep_view()),
{
    let mut aligned = rkyv::util::AlignedVec::<16>::with_capacity(bytes.len());
    aligned.extend_from_slice(bytes);
    rkyv::from_bytes::<Vec<(u64, String)>, rkyv::rancor::Error>(&aligned)
}

proof fn lemma_text_outside_adds(a: Seq<(u64, Seq<char>)>, b: Seq<(u64, Seq<char>)>)
    ensures
        text_outside(a + b) == text_outside(a) + text_outside(b),
    decreases b.len(),
{
    if b.len() > 0 {
        lemma_text_outside_adds(a, b.drop_last());
        assert((a + b).drop_last() =~= a + b.drop_last());
    } else {
        assert(a + b =~= a);
    }
}

proof fn lemma_text_outside_grows(rows: Seq<(u64, Seq<char>)>, i: int)
    requires
        0 <= i <= rows.len(),
    ensures
        text_outside(rows.take(i)) <= text_outside(rows),
    decreases rows.len() - i,
{
    if i < rows.len() {
        lemma_text_outside_grows(rows, i + 1);
        assert(rows.take(i + 1).drop_last() =~= rows.take(i));
    } else {
        assert(rows.take(i) =~= rows);
    }
}

/// Whether rows of words and texts have an archive.
fn have_archive(rows: &[(u64, String)]) -> (yes: bool)
    ensures
        yes == texts_archivable(rows.deep_view()),
{
    let ghost all = rows.deep_view();
    if rows.len() > 0x07ff_fff0 {
        return false;
    }
    let mut outside: u64 = 0;
    let mut row: usize = 0;
    while row < rows.len()
        invariant
            row <= rows@.len() <= 0x07ff_fff0,
            all == rows.deep_view(),
            all.len() == rows@.len(),
            outside == text_outside(all.take(row as int)),
            outside <= 0x7fff_ff00,
            forall|i: int| 0 <= i < row ==> text_bytes((#[trigger] all[i]).1) <= 0x3fff_ffff,
        decreases rows@.len() - row,
    {
        let bytes: usize = rows[row].1.as_str().as_bytes().len();
        assert(all[row as int].1 == rows@[row as int].1@);
        assert(bytes == text_bytes(all[row as int].1));
        if bytes > 0x3fff_ffff {
            return false;
        }
        proof {
            assert(all.take(row + 1).drop_last() =~= all.take(row as int));
            lemma_text_outside_grows(all, row + 1);
        }
        if bytes > 8 {
            outside = outside + bytes as u64;
        }
        if outside > 0x7fff_ff00 {
            return false;
        }
        row = row + 1;
    }
    assert(all.take(all.len() as int) =~= all);
    outside + 16 * (rows.len() as u64) <= 0x7fff_ff00
}

impl Codec<String> for u64 {
    open spec fn row_type() -> Seq<char> {
        "alloc::vec::Vec<(u64, alloc::string::String)>"@
    }

    open spec fn archivable(rows: Seq<(u64, Seq<char>)>) -> bool {
        texts_archivable(rows)
    }

    open spec fn archive(rows: Seq<(u64, Seq<char>)>) -> Seq<u8> {
        archive_of_texts(rows)
    }

    open spec fn archive_len(rows: Seq<(u64, Seq<char>)>) -> nat {
        texts_len(rows)
    }

    proof fn more_rows_archive_no_shorter(rows: Seq<(u64, Seq<char>)>, from: int, to: int) {
        let head = rows.take(from);
        let mid = rows.subrange(from, to);
        let tail = rows.skip(to);
        assert(rows =~= head + (mid + tail));
        lemma_text_outside_adds(head, mid + tail);
        lemma_text_outside_adds(mid, tail);
    }

    open spec fn unarchive(bytes: Seq<u8>) -> Option<Seq<(u64, Seq<char>)>> {
        if can_be_aligned(bytes.len() as int) {
            texts_in_archive(bytes)
        } else {
            None
        }
    }

    fn row_type_name() -> (name: &'static str) {
        "alloc::vec::Vec<(u64, alloc::string::String)>"
    }

    fn encode(rows: &[(u64, String)]) -> (archive: Option<Vec<u8>>) {
        if have_archive(rows) {
            Some(rkyv_texts_to_bytes(rows))
        } else {
            None
        }
    }

    fn decode(bytes: &[u8]) -> (rows: Result<Vec<(u64, String)>, NotAnArchive>) {
        if !fits_aligned(bytes) {
            return Err(NotAnArchive);
        }
        match rkyv_texts_from_bytes(bytes) {
            Ok(rows) => Ok(rows),
            Err(_) => Err(NotAnArchive),
        }
    }
}

/// The archive of rows of words.
pub uninterp spec fn archive_of_words(rows: Seq<(u64, u64)>) -> Seq<u8>;

/// The rows of words that bytes are an archive of, if they are one.
pub uninterp spec fn words_in_archive(bytes: Seq<u8>) -> Option<Seq<(u64, u64)>>;

/// Whether rows of words have an archive: an offset has 32 bits with a sign, so
/// that an archive stays short of two gibibytes.
pub open spec fn words_archivable(rows: Seq<(u64, u64)>) -> bool {
    16 * rows.len() <= 0x7fff_ff00
}

/// How long the archive of rows of words is: sixteen bytes for a row, and eight
/// for the root.
pub open spec fn words_len(rows: Seq<(u64, u64)>) -> nat {
    16 * rows.len() + 8
}

/// `rkyv::to_bytes` of a `Vec<(u64, u64)>`. What the bytes are is for rkyv to
/// say; that they depend on the rows alone, that `rkyv::from_bytes` gives the
/// rows back, and that sixteen bytes for a row and the root are all there is, is
/// what is claimed.
#[verifier::external_body]
fn rkyv_words_to_bytes(rows: &[(u64, u64)]) -> (archive: Vec<u8>)
    requires
        words_archivable(rows.deep_view()),
    ensures
        archive@ == archive_of_words(rows.deep_view()),
        words_in_archive(archive@) == Some(rows.deep_view()),
        archive@.len() == words_len(rows.deep_view()),
{
    rkyv::to_bytes::<rkyv::rancor::Error>(&rows.to_vec()).expect("rows serialize").to_vec()
}

/// `rkyv::from_bytes` into a `Vec<(u64, u64)>`, of bytes copied to where they
/// are aligned. Which bytes are an archive, and of what, is for rkyv to say;
/// that it depends on the bytes alone is what is claimed.
#[verifier::external_body]
fn rkyv_words_from_bytes(bytes: &[u8]) -> (rows: Result<Vec<(u64, u64)>, rkyv::rancor::Error>)
    requires
        can_be_aligned(bytes@.len() as int),
    ensures
        rows is Ok <==> words_in_archive(bytes@) is Some,
        rows matches Ok(found) ==> words_in_archive(bytes@) == Some(found.deep_view()),
{
    let mut aligned = rkyv::util::AlignedVec::<16>::with_capacity(bytes.len());
    aligned.extend_from_slice(bytes);
    rkyv::from_bytes::<Vec<(u64, u64)>, rkyv::rancor::Error>(&aligned)
}

impl Codec<u64> for u64 {
    open spec fn row_type() -> Seq<char> {
        "alloc::vec::Vec<(u64, u64)>"@
    }

    open spec fn archivable(rows: Seq<(u64, u64)>) -> bool {
        words_archivable(rows)
    }

    open spec fn archive(rows: Seq<(u64, u64)>) -> Seq<u8> {
        archive_of_words(rows)
    }

    open spec fn archive_len(rows: Seq<(u64, u64)>) -> nat {
        words_len(rows)
    }

    proof fn more_rows_archive_no_shorter(rows: Seq<(u64, u64)>, from: int, to: int) {
    }

    open spec fn unarchive(bytes: Seq<u8>) -> Option<Seq<(u64, u64)>> {
        if can_be_aligned(bytes.len() as int) {
            words_in_archive(bytes)
        } else {
            None
        }
    }

    fn row_type_name() -> (name: &'static str) {
        "alloc::vec::Vec<(u64, u64)>"
    }

    fn encode(rows: &[(u64, u64)]) -> (archive: Option<Vec<u8>>) {
        assert(rows.deep_view().len() == rows@.len());
        if rows.len() <= 0x07ff_fff0 {
            Some(rkyv_words_to_bytes(rows))
        } else {
            None
        }
    }

    fn decode(bytes: &[u8]) -> (rows: Result<Vec<(u64, u64)>, NotAnArchive>) {
        if !fits_aligned(bytes) {
            return Err(NotAnArchive);
        }
        match rkyv_words_from_bytes(bytes) {
            Ok(rows) => Ok(rows),
            Err(_) => Err(NotAnArchive),
        }
    }
}

/// A row of words always fits a page body, and so do no rows at all.
pub proof fn law_a_row_of_words_fits_a_page(row: (u64, u64))
    ensures
        <u64 as Codec<u64>>::archivable(seq![row]),
        <u64 as Codec<u64>>::archive_len(seq![row]) <= BODY_SIZE,
        <u64 as Codec<u64>>::archivable(Seq::empty()),
        <u64 as Codec<u64>>::archive_len(Seq::empty()) <= BODY_SIZE,
{
}

/// A row of a word and a text fits a page body exactly where the text, padded,
/// leaves sixteen bytes for the row and eight for the root. No rows at all fit
/// too.
pub proof fn law_which_texts_fit_a_page(row: (u64, Seq<char>))
    ensures
        <u64 as Codec<String>>::archive_len(seq![row]) <= BODY_SIZE <==> text_bytes(row.1)
            <= BODY_SIZE - 28,
        <u64 as Codec<String>>::archivable(Seq::empty()),
        <u64 as Codec<String>>::archive_len(Seq::empty()) <= BODY_SIZE,
{
    let rows = seq![row];
    assert(rows.drop_last() =~= Seq::empty());
    reveal_with_fuel(text_outside, 2);
    assert(text_outside(rows) == if text_bytes(row.1) <= 8 {
        0
    } else {
        text_bytes(row.1)
    });
}

} // verus!
