//! What a page looks like: a header, a body, zero padding and a row directory.

use vstd::prelude::*;

verus! {

/// One page, header included.
pub const PAGE_SIZE: usize = 4096 * 4;

/// DataBucket's `GENERAL_HEADER_SIZE`, which this page opens with.
pub const HEADER_SIZE: usize = 28;

/// The row directory at the page tail: a row count and a CRC-32.
pub const DIRECTORY_SIZE: usize = 8;

/// How much of a page is body, between the header and the directory.
pub const BODY_SIZE: usize = PAGE_SIZE - HEADER_SIZE - DIRECTORY_SIZE;

/// `DATA_VERSION` 3: DataBucket's page framing, plus a row directory.
///
/// 2 is what WorkTable writes today, and a 2 page has no directory, so a reader
/// cannot find its rows without the index. 3 says the directory is there.
pub const PAGE_VERSION: u32 = 3;

/// `PageType::Data` in DataBucket's enum.
pub const PAGE_TYPE_DATA: u32 = 2;

/// A word as four bytes, least significant first.
pub open spec fn le_word(word: u32) -> Seq<u8> {
    seq![
        (word % 256) as u8,
        (word / 256 % 256) as u8,
        (word / 65536 % 256) as u8,
        (word / 16777216) as u8,
    ]
}

/// The word whose least significant byte stands at `at`.
pub open spec fn word_at(bytes: Seq<u8>, at: int) -> u32 {
    (bytes[at] + 256 * bytes[at + 1] + 65536 * bytes[at + 2] + 16777216 * bytes[at + 3]) as u32
}

/// Reading a word gives back the word that was written there.
pub proof fn law_word_round_trip(bytes: Seq<u8>, at: int, word: u32)
    requires
        0 <= at,
        at + 4 <= bytes.len(),
        bytes.subrange(at, at + 4) == le_word(word),
    ensures
        word_at(bytes, at) == word,
{
    assert forall|i: int| 0 <= i < 4 implies bytes[at + i] == le_word(word)[i] by {
        assert(bytes[at + i] == bytes.subrange(at, at + 4)[i]);
    }
    assert(bytes[at] == bytes[at + 0]);
    assert(word == word % 256 + 256 * (word / 256 % 256) + 65536 * (word / 65536 % 256) + 16777216
        * (word / 16777216));
}

/// Append a word, least significant byte first.
pub fn push_word(out: &mut Vec<u8>, word: u32)
    ensures
        final(out)@ == old(out)@ + le_word(word),
{
    out.push((word % 256) as u8);
    out.push((word / 256 % 256) as u8);
    out.push((word / 65536 % 256) as u8);
    out.push((word / 16777216) as u8);
    assert(out@ =~= old(out)@ + le_word(word));
}

/// The word at `at`, least significant byte first.
pub fn read_word(bytes: &[u8], at: usize) -> (word: u32)
    requires
        at + 4 <= bytes@.len(),
    ensures
        word == word_at(bytes@, at as int),
{
    bytes[at] as u32 + 256 * (bytes[at + 1] as u32) + 65536 * (bytes[at + 2] as u32) + 16777216 * (
    bytes[at + 3] as u32)
}

/// DataBucket's `GeneralHeader`, byte for byte.
///
/// Seven little-endian `u32`s in declaration order. A `Data` page of space 3,
/// id 7, previous 6, next 8, length `0x11223344` opens with:
///
/// ```text
/// 02000000 03000000 07000000 06000000 08000000 02000000 44332211
/// version  space    page     previous next     type     length
/// ```
#[derive(Clone, Copy, Debug, PartialEq, Eq, Structural)]
pub struct Header {
    /// `DATA_VERSION`. See [`PAGE_VERSION`].
    pub version: u32,
    /// Carries the row type fingerprint rather than a space id.
    ///
    /// A `Vec<(K, V)>` belongs to no space, and the field is a `u32` sitting in
    /// the right place, so it holds the one identity these pages do have. A
    /// WorkTable reader will see a space id it does not recognise, which is the
    /// honest outcome: these are not its rows.
    pub schema: u32,
    pub page: u32,
    pub previous: u32,
    pub next: u32,
    /// `PageType::Data`, which is 2.
    pub page_type: u32,
    /// Bytes of row archive in this page, before the directory.
    pub body: u32,
}

/// The header that opens `raw`.
pub open spec fn header_at(raw: Seq<u8>) -> Header {
    Header {
        version: word_at(raw, 0),
        schema: word_at(raw, 4),
        page: word_at(raw, 8),
        previous: word_at(raw, 12),
        next: word_at(raw, 16),
        page_type: word_at(raw, 20),
        body: word_at(raw, 24),
    }
}

impl Header {
    /// The header as it stands in a page.
    pub open spec fn bytes(self) -> Seq<u8> {
        le_word(self.version) + le_word(self.schema) + le_word(self.page) + le_word(self.previous)
            + le_word(self.next) + le_word(self.page_type) + le_word(self.body)
    }

    /// Whether a page with this header names its neighbours: before it the page
    /// one number down, and itself at the start of a run; after it the page one
    /// number up, and itself at the end of a run.
    pub open spec fn is_linked(self) -> bool {
        &&& self.previous == if self.page == 0 {
            0
        } else {
            self.page - 1
        }
        &&& self.next == self.page || self.next == self.page + 1
    }

    /// Whether this is the header of a page of rows of this build.
    pub open spec fn is_sound(self) -> bool {
        self.version == PAGE_VERSION && self.page_type == PAGE_TYPE_DATA && self.is_linked()
    }

    /// Whether a page with this header names its neighbours.
    pub fn linked(&self) -> (yes: bool)
        ensures
            yes == self.is_linked(),
    {
        let before: u32 = if self.page == 0 {
            0
        } else {
            self.page - 1
        };
        self.previous == before && (self.next == self.page || (self.next > self.page
            && self.next - 1 == self.page))
    }

    /// Append the header to `out`.
    pub fn write(self, out: &mut Vec<u8>)
        ensures
            final(out)@ == old(out)@ + self.bytes(),
    {
        push_word(out, self.version);
        push_word(out, self.schema);
        push_word(out, self.page);
        push_word(out, self.previous);
        push_word(out, self.next);
        push_word(out, self.page_type);
        push_word(out, self.body);
        assert(out@ =~= old(out)@ + self.bytes());
    }

    /// The header that opens `raw`.
    pub fn read(raw: &[u8]) -> (header: Self)
        requires
            raw@.len() >= HEADER_SIZE,
        ensures
            header == header_at(raw@),
    {
        Header {
            version: read_word(raw, 0),
            schema: read_word(raw, 4),
            page: read_word(raw, 8),
            previous: read_word(raw, 12),
            next: read_word(raw, 16),
            page_type: read_word(raw, 20),
            body: read_word(raw, 24),
        }
    }
}

/// Reading a header gives back the header that was written, whatever follows
/// it in the page.
pub proof fn law_header_round_trip(header: Header, rest: Seq<u8>)
    ensures
        header.bytes().len() == HEADER_SIZE,
        header_at(header.bytes() + rest) == header,
{
    let raw = header.bytes() + rest;
    assert(raw.subrange(0, 4) =~= le_word(header.version));
    assert(raw.subrange(4, 8) =~= le_word(header.schema));
    assert(raw.subrange(8, 12) =~= le_word(header.page));
    assert(raw.subrange(12, 16) =~= le_word(header.previous));
    assert(raw.subrange(16, 20) =~= le_word(header.next));
    assert(raw.subrange(20, 24) =~= le_word(header.page_type));
    assert(raw.subrange(24, 28) =~= le_word(header.body));
    law_word_round_trip(raw, 0, header.version);
    law_word_round_trip(raw, 4, header.schema);
    law_word_round_trip(raw, 8, header.page);
    law_word_round_trip(raw, 12, header.previous);
    law_word_round_trip(raw, 16, header.next);
    law_word_round_trip(raw, 20, header.page_type);
    law_word_round_trip(raw, 24, header.body);
}

/// The row directory, at the tail of every page.
///
/// **This is the slotted part.** The header is DataBucket's and has nowhere to
/// say how many rows a page holds, which is exactly the gap that makes a
/// WorkTable data page unreadable without its index. Putting the count in the
/// page means the page describes itself.
///
/// Eight bytes at the very end: the row count, then a CRC-32 of the body. The
/// checksum lives here rather than in the header for the same reason the count
/// does, and because a header this crate did not design has no spare field for
/// it.
#[derive(Clone, Copy, Debug, PartialEq, Eq, Structural)]
pub struct Directory {
    pub rows: u32,
    pub crc: u32,
}

/// The directory that closes `page`.
pub open spec fn directory_at(page: Seq<u8>) -> Directory {
    Directory {
        rows: word_at(page, page.len() - DIRECTORY_SIZE),
        crc: word_at(page, page.len() - DIRECTORY_SIZE + 4),
    }
}

impl Directory {
    /// The directory as it stands in a page.
    pub open spec fn bytes(self) -> Seq<u8> {
        le_word(self.rows) + le_word(self.crc)
    }

    /// Put the directory into the tail of `page`.
    pub fn write(self, page: &mut [u8])
        requires
            old(page)@.len() >= DIRECTORY_SIZE,
        ensures
            final(page)@ == old(page)@.take(old(page)@.len() - DIRECTORY_SIZE) + self.bytes(),
    {
        let at: usize = page.len() - DIRECTORY_SIZE;
        page[at] = (self.rows % 256) as u8;
        page[at + 1] = (self.rows / 256 % 256) as u8;
        page[at + 2] = (self.rows / 65536 % 256) as u8;
        page[at + 3] = (self.rows / 16777216) as u8;
        page[at + 4] = (self.crc % 256) as u8;
        page[at + 5] = (self.crc / 256 % 256) as u8;
        page[at + 6] = (self.crc / 65536 % 256) as u8;
        page[at + 7] = (self.crc / 16777216) as u8;
        assert(page@ =~= old(page)@.take(at as int) + self.bytes());
    }

    /// The directory that closes `page`.
    pub fn read(page: &[u8]) -> (directory: Self)
        requires
            page@.len() >= DIRECTORY_SIZE,
        ensures
            directory == directory_at(page@),
    {
        let at: usize = page.len() - DIRECTORY_SIZE;
        Directory { rows: read_word(page, at), crc: read_word(page, at + 4) }
    }
}

/// Reading a directory gives back the directory that was written, whatever
/// stands before it in the page.
pub proof fn law_directory_round_trip(before: Seq<u8>, directory: Directory)
    ensures
        directory.bytes().len() == DIRECTORY_SIZE,
        directory_at(before + directory.bytes()) == directory,
{
    let page = before + directory.bytes();
    let at = page.len() - DIRECTORY_SIZE;
    assert(page.subrange(at, at + 4) =~= le_word(directory.rows));
    assert(page.subrange(at + 4, at + 8) =~= le_word(directory.crc));
    law_word_round_trip(page, at, directory.rows);
    law_word_round_trip(page, at + 4, directory.crc);
}

/// What a header says of its neighbours is settled by its own number, but for whether the run ends
/// with it: the page before and the page after are one number down and one up, and nothing else.
pub proof fn law_a_number_settles_its_neighbours(header: Header, other: Header)
    requires
        header.is_linked(),
        other.is_linked(),
        header.page == other.page,
    ensures
        header.previous == other.previous,
        header.next == other.next || header.next - other.next == 1 || other.next - header.next == 1,
        header.previous <= header.page <= header.next,
        header.next - header.previous <= 2,
        header.previous == header.page <==> header.page == 0,
{
}

} // verus!
