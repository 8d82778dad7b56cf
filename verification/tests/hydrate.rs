//! Pages that stand alone.

use worktable_vec::hydrate::checksum::{crc32, fnv};
use worktable_vec::hydrate::codec::fingerprint;
use worktable_vec::hydrate::page::{
    Directory, Header, BODY_SIZE, DIRECTORY_SIZE, HEADER_SIZE, PAGE_TYPE_DATA,
};
use worktable_vec::hydrate::pack::rows_per_page;
use worktable_vec::hydrate::stream::PageStream;
use worktable_vec::hydrate::unpack::page_rows;
use worktable_vec::text::{push_decimal, push_hex_word};
use worktable_vec::{
    Codec, HydrateError, IndexedTable, LinearTable, LoadError, NotAnArchive, RowTooLarge,
    UnloadError, PAGE_SIZE,
};

fn table(rows: usize) -> LinearTable<u64, String> {
    let mut table = LinearTable::new();
    for n in 0..rows {
        table.push(n as u64, format!("row {n}"));
    }
    table
}

#[test]
fn tests_rows_survive_the_round_trip() {
    let before = table(1_000);
    let back = LinearTable::<u64, String>::load(&before.unload().expect("rows that fit a page"))
        .expect("a load");
    assert_eq!(back.rows(), before.rows());
}

/// More rows than one page holds, so the page run is doing real work.
#[test]
fn tests_rows_survive_spanning_many_pages() {
    let before = table(20_000);
    let bytes = before.unload().expect("rows that fit a page");
    assert!(
        bytes.len() / PAGE_SIZE > 1,
        "the fixture has to span pages: {} pages",
        bytes.len() / PAGE_SIZE
    );
    let back = LinearTable::<u64, String>::load(&bytes).expect("a load");
    assert_eq!(back.rows(), before.rows());
}

#[test]
fn tests_an_empty_table_is_one_page_and_comes_back_empty() {
    let bytes = table(0).unload().expect("rows that fit a page");
    assert_eq!(bytes.len(), PAGE_SIZE);
    assert!(LinearTable::<u64, String>::load(&bytes)
        .expect("a load")
        .is_empty());
}

#[test]
fn tests_the_index_is_rebuilt_rather_than_stored() {
    let mut before = IndexedTable::new();
    for n in 0..500u64 {
        before.insert(n, n.to_string()).expect("a row");
    }
    let back = IndexedTable::<u64, String>::load(&before.unload().expect("rows that fit a page"))
        .expect("a load");
    assert_eq!(back.len(), 500);
    assert_eq!(back.select(&37), Some(&"37".to_string()));
}

#[test]
fn tests_bytes_that_are_not_whole_pages_are_refused() {
    assert_eq!(
        LinearTable::<u64, String>::load(&[0u8; 17]),
        Err(LoadError::NotWholePages { found: 17 })
    );
}

/// A page of zeroes is the shape a torn write leaves behind, and it has to be a
/// named error rather than a plausible empty table.
#[test]
fn tests_a_zeroed_page_is_not_an_empty_table() {
    let bytes = vec![0u8; PAGE_SIZE];
    assert_eq!(
        LinearTable::<u64, String>::load(&bytes),
        Err(LoadError::ForeignPages {
            page: 0,
            version: 0
        })
    );
}

/// Somebody else's rows in well formed pages. Without the fingerprint this load
/// succeeds and hands back debris.
#[test]
fn tests_a_different_row_type_is_refused_rather_than_reinterpreted() {
    let bytes = table(10).unload().expect("rows that fit a page");
    assert_eq!(
        LinearTable::<u64, u64>::load(&bytes),
        Err(LoadError::ForeignRows {
            found: fingerprint::<u64, String>(),
            expected: fingerprint::<u64, u64>(),
        })
    );
}

/// Two files spliced together are not one longer file.
#[test]
fn tests_pages_from_two_runs_are_refused() {
    let mut spliced = table(1).unload().expect("rows that fit a page");
    let mut other: LinearTable<u64, u64> = LinearTable::new();
    other.push(1, 1);
    spliced.extend_from_slice(&other.unload().expect("rows that fit a page"));
    assert_eq!(
        LinearTable::<u64, String>::load(&spliced),
        Err(LoadError::Inconsistent { page: 1 })
    );
}

/// **The one an archive's validation cannot find.** A flipped bit inside an
/// integer is a structurally perfect archive of a different number, so
/// validation passes and only the checksum notices.
#[test]
fn a_flipped_bit_in_a_body_is_caught_by_the_checksum() {
    let mut bytes = table(64).unload().expect("rows that fit a page");
    bytes[HEADER_SIZE + 40] ^= 0b0000_0100;
    match LinearTable::<u64, String>::load(&bytes) {
        Err(LoadError::Corrupt { page: 0, .. }) => {}
        other => panic!("a flipped bit has to be caught: {other:?}"),
    }
}

/// Damage is one page's problem, not the file's. With an archive spanning
/// pages, breaking the last one would take every row with it.
#[test]
fn damage_stays_inside_the_page_it_happened_to() {
    let before = table(20_000);
    let bytes = before.unload().expect("rows that fit a page");
    let pages = bytes.len() / PAGE_SIZE;
    assert!(pages > 2, "need a middle page to damage: {pages}");

    // Everything before the damaged page still decodes on its own.
    let head = &bytes[..PAGE_SIZE];
    let intact = LinearTable::<u64, String>::load(head).expect("the first page alone loads");
    assert!(
        !intact.is_empty() && intact.len() < before.len(),
        "one page holds some rows but not all of them"
    );
}

#[test]
fn a_row_count_that_disagrees_with_the_body_is_refused() {
    let mut bytes = table(64).unload().expect("rows that fit a page");
    // Claim one more row than the body holds, and fix nothing else. The count
    // is in the directory at the page tail, not in the header, because the
    // header is DataBucket's and has no field for it.
    let at = PAGE_SIZE - DIRECTORY_SIZE;
    let rows = u32::from_le_bytes([bytes[at], bytes[at + 1], bytes[at + 2], bytes[at + 3]]);
    bytes[at..at + 4].copy_from_slice(&(rows + 1).to_le_bytes());
    match LinearTable::<u64, String>::load(&bytes) {
        Err(LoadError::RowCount { page: 0, .. }) => {}
        other => panic!("a lying row count has to be caught: {other:?}"),
    }
}

#[test]
fn appended_pages_read_back_as_one_table() {
    let whole = table(5_000);
    let mut bytes = Vec::new();
    // First half, then the rest appended, exactly as two writes would land.
    let mut first = LinearTable::new();
    for (key, value) in whole.rows().iter().take(2_000).cloned() {
        first.push(key, value);
    }
    bytes.extend_from_slice(&first.unload().expect("rows that fit a page"));
    bytes.extend_from_slice(&whole.unload_appending(2_000).expect("rows that fit a page"));

    let back = LinearTable::<u64, String>::load(&bytes).expect("a load");
    assert_eq!(back.rows(), whole.rows());
}

/// Write every row, as pages.
fn unload_to<W: embedded_io::Write>(
    table: &LinearTable<u64, String>,
    sink: &mut W,
) -> Result<(), UnloadError<W::Error>> {
    let pages = table.unload().map_err(UnloadError::from)?;
    sink.write_all(&pages).map_err(UnloadError::Io)?;
    sink.flush().map_err(UnloadError::Io)
}

/// Read a table back from a reader, at most `limit` bytes at a time.
fn load_from<R: embedded_io::Read>(
    source: &mut R,
    limit: usize,
) -> Result<LinearTable<u64, String>, HydrateError<R::Error>> {
    let mut stream = PageStream::new();
    let mut piece = vec![0u8; PAGE_SIZE];
    loop {
        let room = stream.room().min(limit);
        let read = source
            .read(&mut piece[..room])
            .map_err(HydrateError::Io)?;
        if read == 0 {
            break;
        }
        stream.take(&piece[..read]).map_err(HydrateError::Page)?;
    }
    Ok(LinearTable::from(stream.finish()?))
}

/// `Vec<u8>` and `&[u8]` already implement the traits, so memory needs no
/// adapter at all.
#[test]
fn memory_needs_no_adapter() {
    let before = table(3_000);
    let mut sink = Vec::new();
    unload_to(&before, &mut sink).expect("a write");
    let back = load_from(&mut sink.as_slice(), PAGE_SIZE).expect("a read");
    assert_eq!(back.rows(), before.rows());
}

/// A write that died half way through a page is a torn page, and says so
/// rather than quietly dropping the rows it did not finish.
#[test]
fn a_half_written_page_is_torn_rather_than_ignored() {
    let bytes = table(5_000).unload().expect("rows that fit a page");
    let cut = bytes.len() - (PAGE_SIZE / 2);
    match load_from(&mut &bytes[..cut], PAGE_SIZE) {
        Err(HydrateError::Torn { .. }) => {}
        other => panic!("a half written page has to be caught: {other:?}"),
    }
}

/// The header is DataBucket's `GeneralHeader`, byte for byte.
#[test]
fn the_header_is_databuckets_layout() {
    let mut out = Vec::new();
    Header {
        version: 2,
        schema: 3,
        page: 7,
        previous: 6,
        next: 8,
        page_type: PAGE_TYPE_DATA,
        body: 0x1122_3344,
    }
    .write(&mut out);

    assert_eq!(out.len(), HEADER_SIZE, "GENERAL_HEADER_SIZE is 28");
    assert_eq!(
        out,
        vec![
            0x02, 0x00, 0x00, 0x00, // data_version
            0x03, 0x00, 0x00, 0x00, // space_id, here the row fingerprint
            0x07, 0x00, 0x00, 0x00, // page_id
            0x06, 0x00, 0x00, 0x00, // previous_id
            0x08, 0x00, 0x00, 0x00, // next_id
            0x02, 0x00, 0x00, 0x00, // page_type: Data
            0x44, 0x33, 0x22, 0x11, // data_length
        ],
        "the layout drifted from data_bucket 0.5.7"
    );
}

/// A page says how many rows it holds, which is what a WorkTable data page
/// cannot do and why one cannot be read without its index.
#[test]
fn every_page_declares_its_own_rows() {
    let before = table(20_000);
    let bytes = before.unload().expect("rows that fit a page");
    let pages = bytes.len() / PAGE_SIZE;
    assert!(pages > 2, "need several pages: {pages}");

    let mut counted = 0usize;
    for page in bytes.chunks_exact(PAGE_SIZE) {
        let at = PAGE_SIZE - DIRECTORY_SIZE;
        let mut word = [0u8; 4];
        word.copy_from_slice(&page[at..at + 4]);
        counted += u32::from_le_bytes(word) as usize;
    }
    assert_eq!(
        counted,
        before.len(),
        "the pages account for every row without an index"
    );
}

/// Version 3 is the version that has a directory. A page claiming 2 is a
/// WorkTable page, and its rows are not where this reader would look.
#[test]
fn a_version_two_page_is_refused() {
    let mut bytes = table(4).unload().expect("rows that fit a page");
    bytes[0..4].copy_from_slice(&2u32.to_le_bytes());
    assert_eq!(
        LinearTable::<u64, String>::load(&bytes),
        Err(LoadError::ForeignPages {
            page: 0,
            version: 2
        })
    );
}

/// A row that does not fit a page is refused, rather than written into a file
/// that cannot be read back.
#[test]
fn a_row_too_large_for_a_page_is_refused() {
    let mut table = LinearTable::<u64, String>::new();
    table.push(0, "x".repeat(20_000));
    let refusal = table
        .unload()
        .expect_err("a row that big cannot be written");
    assert_eq!(refusal.row, 0);
    assert_eq!(refusal.limit, BODY_SIZE);
    assert!(
        refusal.bytes > BODY_SIZE,
        "the refusal reports the archive size it could not place: {}",
        refusal.to_string()
    );
}

/// The refusal names the row, not just the fact of one.
#[test]
fn the_refusal_names_which_row_is_too_large() {
    let mut table = table(50);
    table.push(999, "y".repeat(30_000));
    for n in 1_000..1_050u64 {
        table.push(n, "z".repeat(100));
    }
    let refusal = table
        .unload()
        .expect_err("a row that big cannot be written");
    assert_eq!(refusal.row, 50, "{}", refusal.to_string());
}

/// The limit is a page body, and a row just under it still writes.
///
/// Both sides are asserted so the boundary is pinned from both directions: a
/// check that only ever refuses would pass with the limit set to zero.
#[test]
fn the_limit_is_a_page_body_and_not_less() {
    let mut fits = LinearTable::<u64, String>::new();
    fits.push(0, "x".repeat(BODY_SIZE - 64));
    let bytes = fits.unload().expect("a row just under the limit fits");
    let back = LinearTable::<u64, String>::load(&bytes).expect("a load");
    assert_eq!(back.rows(), fits.rows());

    let mut over = LinearTable::<u64, String>::new();
    over.push(0, "x".repeat(BODY_SIZE + 1));
    assert!(over.unload().is_err(), "a row over the limit is refused");
}

/// A refused unload writes nothing at all.
///
/// The refusal happens while the pages are being built, before the sink is
/// touched, so a caller who ignores the error still does not end up with a
/// half-written file.
#[test]
fn a_refused_unload_leaves_the_sink_untouched() {
    let mut table = LinearTable::<u64, String>::new();
    table.push(0, "x".repeat(20_000));
    let mut sink = Vec::new();
    let refusal = unload_to(&table, &mut sink).expect_err("nothing to write");
    assert!(
        matches!(refusal, UnloadError::Row(_)),
        "{}",
        refusal.to_string()
    );
    assert!(sink.is_empty(), "{} bytes reached the sink", sink.len());
}

#[test]
fn the_checksum_and_the_fingerprint_are_the_usual_ones() {
    assert_eq!(crc32(b"123456789"), 0xcbf4_3926);
    assert_eq!(crc32(b""), 0);
    assert_eq!(fnv(b""), 0x811c_9dc5);
    assert_eq!(fnv(b"a"), 0xe40c_292c);
    assert_eq!(fnv(b"foobar"), 0xbf9c_f968);
    assert_ne!(fingerprint::<u64, String>(), fingerprint::<u64, u64>());
    assert_eq!(
        fingerprint::<u64, u64>(),
        fnv(b"alloc::vec::Vec<(u64, u64)>")
    );
}

#[test]
fn an_archive_is_not_the_rows_as_they_lie_in_memory() {
    let rows = [(1u64, 2u64), (3, 4)];
    let archive = <u64 as Codec<u64>>::encode(&rows).expect("an archive");
    assert_eq!(archive.len(), 40);
    assert_eq!(&archive[0..8], &[1, 0, 0, 0, 0, 0, 0, 0]);
    assert_eq!(<u64 as Codec<u64>>::decode(&archive), Ok(rows.to_vec()));
    assert_eq!(
        <u64 as Codec<u64>>::decode(&archive[1..]),
        Err(NotAnArchive)
    );
    assert_eq!(<u64 as Codec<u64>>::decode(&[]), Err(NotAnArchive));

    let texts = [(7u64, "inline".to_string()), (8, "not so short".to_string())];
    let archive = <u64 as Codec<String>>::encode(&texts).expect("an archive");
    assert_eq!(archive.len(), 16 + 32 + 8);
    assert_eq!(&archive[0..12], b"not so short");
    assert_eq!(
        <u64 as Codec<String>>::decode(&archive),
        Ok(texts.to_vec())
    );
    assert_eq!(
        <u64 as Codec<String>>::decode(&[0xff; 24]),
        Err(NotAnArchive)
    );
}

#[test]
fn a_page_names_its_number_and_its_neighbours() {
    let bytes = table(3_000).unload().expect("rows that fit a page");
    let pages = bytes.len() / PAGE_SIZE;
    for (number, raw) in bytes.chunks_exact(PAGE_SIZE).enumerate() {
        let header = Header::read(raw);
        assert_eq!(header.version, 3);
        assert_eq!(header.schema, fingerprint::<u64, String>());
        assert_eq!(header.page as usize, number);
        assert_eq!(header.previous as usize, number.saturating_sub(1));
        assert_eq!(header.next as usize, (number + 1).min(pages - 1));
        assert_eq!(header.page_type, PAGE_TYPE_DATA);
        let body = &raw[HEADER_SIZE..HEADER_SIZE + header.body as usize];
        assert_eq!(Directory::read(raw).crc, crc32(body));
        assert!(raw[HEADER_SIZE + header.body as usize..PAGE_SIZE - DIRECTORY_SIZE]
            .iter()
            .all(|byte| *byte == 0));
    }
}

#[test]
fn the_tail_of_a_page_reads_back() {
    let mut page = vec![9u8; 12];
    let directory = Directory {
        rows: 0x0102_0304,
        crc: 0xa0b0_c0d0,
    };
    directory.write(&mut page);
    assert_eq!(page, [9, 9, 9, 9, 4, 3, 2, 1, 0xd0, 0xc0, 0xb0, 0xa0]);
    assert_eq!(Directory::read(&page), directory);
}

#[test]
fn any_page_of_a_file_loads_alone() {
    let before = table(5_000);
    let bytes = before.unload().expect("rows that fit a page");
    let mut rows = Vec::new();
    for raw in bytes.chunks_exact(PAGE_SIZE) {
        let part = LinearTable::<u64, String>::load(raw).expect("a page alone loads");
        rows.extend(part.into_rows());
    }
    assert_eq!(rows.as_slice(), before.rows());
}

#[test]
fn a_bad_middle_page_is_named() {
    let mut bytes = table(5_000).unload().expect("rows that fit a page");
    bytes[PAGE_SIZE + HEADER_SIZE] ^= 1;
    match LinearTable::<u64, String>::load(&bytes) {
        Err(LoadError::Corrupt { page: 1, .. }) => {}
        other => panic!("the second page is the bad one: {other:?}"),
    }
}

#[test]
fn a_body_longer_than_a_page_is_refused() {
    let mut bytes = table(4).unload().expect("rows that fit a page");
    bytes[24..28].copy_from_slice(&(BODY_SIZE as u32 + 1).to_le_bytes());
    assert_eq!(
        LinearTable::<u64, String>::load(&bytes),
        Err(LoadError::Overlong {
            page: 0,
            claimed: BODY_SIZE + 1
        })
    );
}

#[test]
fn a_body_that_is_no_archive_is_refused() {
    let mut page = Vec::new();
    Header {
        version: 3,
        schema: fingerprint::<u64, u64>(),
        page: 0,
        previous: 0,
        next: 0,
        page_type: PAGE_TYPE_DATA,
        body: 3,
    }
    .write(&mut page);
    page.extend_from_slice(&[1, 2, 3]);
    page.resize(PAGE_SIZE, 0);
    Directory {
        rows: 0,
        crc: crc32(&[1, 2, 3]),
    }
    .write(&mut page);
    assert_eq!(
        LinearTable::<u64, u64>::load(&page),
        Err(LoadError::Rows { page: 0 })
    );
}

#[test]
fn appending_nothing_writes_nothing() {
    let rows = table(10);
    assert_eq!(rows.append_pages(10), Ok(None));
    assert_eq!(rows.append_pages(11), Ok(None));
    let pages = rows
        .append_pages(9)
        .expect("a row that fits")
        .expect("one row");
    assert_eq!(
        LinearTable::<u64, String>::load(&pages)
            .expect("a load")
            .rows(),
        &[(9, "row 9".to_string())]
    );
    assert_eq!(rows.unload_appending(99).expect("no rows").len(), PAGE_SIZE);
    let mut large = LinearTable::<u64, String>::new();
    large.push(0, "x".repeat(20_000));
    assert!(large.append_pages(0).is_err());
}

#[test]
fn an_indexed_table_appends_too() {
    let mut rows: IndexedTable<u64, u64> = IndexedTable::new();
    for n in 0..4u64 {
        rows.insert(n, n * n).expect("a row");
    }
    let mut bytes = rows.unload().expect("rows that fit a page");
    bytes.extend_from_slice(&rows.unload_appending(3).expect("rows that fit a page"));
    let back = IndexedTable::<u64, u64>::load(&bytes).expect("a load");
    assert_eq!(back.rows(), rows.rows());
    assert_eq!(
        IndexedTable::<u64, String>::load(&bytes).map(|_| ()),
        Err(LoadError::ForeignRows {
            found: fingerprint::<u64, u64>(),
            expected: fingerprint::<u64, String>(),
        })
    );
    assert_eq!(rows.unload_checked(), Some(rows.unload()));
}

#[test]
fn a_checked_unload_is_an_unload() {
    let rows = table(100);
    assert_eq!(rows.unload_checked(), Some(rows.unload()));
}

#[test]
fn a_stream_takes_pages_in_any_pieces() {
    let before = table(2_000);
    let bytes = before.unload().expect("rows that fit a page");
    for limit in [1_000, 4_096, PAGE_SIZE - 1] {
        let back = load_from(&mut bytes.as_slice(), limit).expect("a read");
        assert_eq!(back.rows(), before.rows());
    }
    assert_eq!(
        load_from(&mut [].as_slice(), PAGE_SIZE).map(|_| ()),
        Err(HydrateError::Page(LoadError::NotWholePages { found: 0 }))
    );
    assert_eq!(
        load_from(&mut &bytes[..100], 7).map(|_| ()),
        Err(HydrateError::Torn {
            page: 0,
            found: 100
        })
    );
    assert_eq!(
        load_from(&mut &bytes[..PAGE_SIZE + 5], PAGE_SIZE).map(|_| ()),
        Err(HydrateError::Torn { page: 1, found: 5 })
    );
}

#[test]
fn a_stream_refuses_what_a_load_refuses() {
    let mut other: LinearTable<u64, u64> = LinearTable::new();
    other.push(1, 1);
    let foreign = other.unload().expect("rows that fit a page");
    assert_eq!(
        load_from(&mut foreign.as_slice(), PAGE_SIZE).map(|_| ()),
        Err(HydrateError::Page(LoadError::ForeignRows {
            found: fingerprint::<u64, u64>(),
            expected: fingerprint::<u64, String>(),
        }))
    );
    let zeroes = vec![0u8; PAGE_SIZE];
    assert_eq!(
        load_from(&mut zeroes.as_slice(), PAGE_SIZE).map(|_| ()),
        Err(HydrateError::Page(LoadError::ForeignPages {
            page: 0,
            version: 0
        }))
    );
    let mut spliced = table(1).unload().expect("rows that fit a page");
    spliced.extend_from_slice(&foreign);
    let mut stream: PageStream<u64, String> = PageStream::new();
    assert_eq!(stream.room(), PAGE_SIZE);
    assert_eq!(stream.take(&spliced[..PAGE_SIZE]), Ok(()));
    assert_eq!(stream.pages(), 1);
    assert_eq!(
        stream.take(&spliced[PAGE_SIZE..]),
        Err(LoadError::Inconsistent { page: 1 })
    );
}

#[test]
fn refusals_say_what_is_wrong() {
    let said = [
        (
            LoadError::NotWholePages { found: 17 },
            "17 bytes is not a whole number of 16384 byte pages",
        ),
        (
            LoadError::ForeignPages {
                page: 2,
                version: 9,
            },
            "page 2 is version 9, and this build writes 3",
        ),
        (
            LoadError::ForeignType {
                page: 5,
                page_type: 7,
            },
            "page 5 is of type 7, and rows are in type 2",
        ),
        (
            LoadError::Unlinked { page: 6 },
            "page 6 names pages that are not its neighbours",
        ),
        (
            LoadError::Overlong {
                page: 0,
                claimed: 99_999,
            },
            "page 0 claims a 99999 byte body, more than a page holds",
        ),
        (
            LoadError::Corrupt {
                page: 1,
                expected: 0xab,
                found: 0xdead_beef,
            },
            "page 1 checksums 0xdeadbeef and its header says 0x000000ab",
        ),
        (
            LoadError::Inconsistent { page: 10 },
            "page 10 names a different row type",
        ),
        (
            LoadError::ForeignRows {
                found: 1,
                expected: 0x1000_0000,
            },
            "these are row type 0x00000001, and this is row type 0x10000000",
        ),
        (LoadError::Rows { page: 3 }, "page 3 did not deserialize"),
        (
            LoadError::RowCount {
                page: 4,
                expected: 65,
                found: 64,
            },
            "page 4 promised 65 rows and held 64",
        ),
    ];
    for (error, text) in said {
        assert_eq!(error.to_string(), text);
        assert_eq!(HydrateError::<String>::Page(error).to_string(), text);
    }
    let row = RowTooLarge {
        row: 50,
        bytes: 30_024,
        limit: 16_348,
    };
    assert_eq!(
        row.to_string(),
        "row 50 archives to 30024 bytes, and a page holds 16348"
    );
    assert_eq!(UnloadError::<String>::from(row).to_string(), row.to_string());
    assert_eq!(
        UnloadError::Io("full".to_string()).to_string(),
        "the writer failed: full"
    );
    assert_eq!(
        HydrateError::Io("gone".to_string()).to_string(),
        "the reader failed: gone"
    );
    assert_eq!(
        HydrateError::<String>::Torn { page: 1, found: 5 }.to_string(),
        "page 1 stops after 5 of 16384 bytes"
    );
    assert_eq!(
        HydrateError::<String>::from(LoadError::Rows { page: 0 }),
        HydrateError::Page(LoadError::Rows { page: 0 })
    );
}

/// Sixteen bytes for a row of words and eight for the root: 1,021 rows are the
/// most that fit, wherever the search for them starts.
#[test]
fn a_page_takes_as_many_rows_as_fit() {
    let rows: Vec<(u64, u64)> = (0..3_000u64).map(|n| (n, n)).collect();
    assert_eq!(rows_per_page(&rows, 0), 1_021);
    assert_eq!(rows_per_page(&rows, 1_000), 1_021);
    assert_eq!(rows_per_page(&rows, 1_500), 1_021);
    assert_eq!(rows_per_page(&rows, 9_999), 1_021);
    assert_eq!(rows_per_page(&rows[..7], 0), 7);
    assert_eq!(rows_per_page::<u64, u64>(&[], 5), 0);

    let pages = LinearTable::from(rows).unload().expect("rows that fit");
    let counts: Vec<u32> = pages
        .chunks_exact(PAGE_SIZE)
        .map(|raw| Directory::read(raw).rows)
        .collect();
    assert_eq!(counts, vec![1_021, 1_021, 958]);
}

/// A row that alone is too large still is a page's row, so that the writer gets
/// to it and can refuse it by name.
#[test]
fn a_page_takes_at_least_one_row() {
    let rows = vec![(1u64, "x".repeat(40_000)), (2, "y".to_string())];
    assert_eq!(rows_per_page(&rows, 0), 1);
    let refusal = LinearTable::from(rows).unload().expect_err("too large");
    assert_eq!(
        refusal,
        RowTooLarge {
            row: 0,
            bytes: 40_000 + 16 + 8,
            limit: BODY_SIZE
        }
    );
}

#[test]
fn numbers_are_written_out() {
    let mut out = String::from("<");
    push_decimal(&mut out, 0);
    out.push(' ');
    push_decimal(&mut out, 907);
    out.push(' ');
    push_decimal(&mut out, u64::MAX);
    out.push(' ');
    push_hex_word(&mut out, 0x0089_abcd);
    out.push(' ');
    push_hex_word(&mut out, 0xef76_5432);
    assert_eq!(out, "<0 907 18446744073709551615 0x0089abcd 0xef765432");
}

/// Every field of a header is checked: a page that is not a page of rows, and a
/// page with a wrong number, a wrong neighbour before it or a wrong one after it.
#[test]
fn every_header_field_is_checked() {
    let bytes = table(3_000).unload().expect("rows that fit a page");
    let with = |page: usize, word: usize, value: u32| {
        let mut damaged = bytes.clone();
        let at = page * PAGE_SIZE + word * 4;
        damaged[at..at + 4].copy_from_slice(&value.to_le_bytes());
        LinearTable::<u64, String>::load(&damaged).map(|_| ())
    };
    assert_eq!(with(0, 5, 2), Ok(()));
    assert_eq!(
        with(0, 5, 1),
        Err(LoadError::ForeignType {
            page: 0,
            page_type: 1
        })
    );
    assert_eq!(
        with(1, 5, 0),
        Err(LoadError::ForeignType {
            page: 1,
            page_type: 0
        })
    );
    assert_eq!(with(0, 2, 7), Err(LoadError::Unlinked { page: 0 }));
    assert_eq!(with(1, 3, 1), Err(LoadError::Unlinked { page: 1 }));
    assert_eq!(with(0, 3, u32::MAX), Err(LoadError::Unlinked { page: 0 }));
    assert_eq!(with(0, 4, 2), Err(LoadError::Unlinked { page: 0 }));
    assert_eq!(with(0, 4, u32::MAX), Err(LoadError::Unlinked { page: 0 }));
    assert_eq!(with(0, 4, 0), Ok(()), "a first page may be the last one");
}

/// Rows of words never are too large, and a text is from 16,321 bytes on.
#[test]
fn the_longest_text_that_fits_is_known() {
    let mut rows = LinearTable::<u64, String>::new();
    rows.push(1, "x".repeat(BODY_SIZE - 28));
    assert!(rows.unload().is_ok());
    rows.push(2, "x".repeat(BODY_SIZE - 27));
    let refusal = rows.unload().expect_err("one byte too many");
    assert_eq!(
        refusal,
        RowTooLarge {
            row: 1,
            bytes: BODY_SIZE - 28 + 8 + 16 + 8,
            limit: BODY_SIZE
        }
    );
    let mut words: LinearTable<u64, u64> = LinearTable::new();
    words.push(u64::MAX, u64::MAX);
    assert!(words.unload().is_ok());
}

/// What a header says of the page's type and neighbours is looked at last: what
/// is wrong with the version, the row type, the body or the rows is named first.
#[test]
fn the_first_thing_wrong_is_named() {
    let mut overlong = [0u8; PAGE_SIZE];
    overlong[0] = 3;
    overlong[24] = 0xdd;
    overlong[25] = 0x3f;
    let mut schema = None;
    assert_eq!(
        page_rows::<u64, String>(&overlong, 5, &mut schema),
        Err(LoadError::Overlong {
            page: 5,
            claimed: 16_349
        })
    );
    assert_eq!(schema, Some(0), "the page named its row type");
    assert_eq!(
        page_rows::<u64, String>(&overlong, 6, &mut Some(9)),
        Err(LoadError::Inconsistent { page: 6 })
    );

    let mut corrupt = table(3).unload().expect("rows that fit a page");
    let found = corrupt[HEADER_SIZE];
    corrupt[HEADER_SIZE] = !found;
    corrupt[12..16].copy_from_slice(&7u32.to_le_bytes());
    corrupt[20..24].copy_from_slice(&1u32.to_le_bytes());
    let mut schema = None;
    assert!(matches!(
        page_rows::<u64, String>(&corrupt, 0, &mut schema),
        Err(LoadError::Corrupt { page: 0, .. })
    ));
    assert_eq!(schema, Some(fingerprint::<u64, String>()));
    corrupt[HEADER_SIZE] = found;
    assert_eq!(
        page_rows::<u64, String>(&corrupt, 0, &mut None),
        Err(LoadError::ForeignType {
            page: 0,
            page_type: 1
        })
    );
    corrupt[20..24].copy_from_slice(&2u32.to_le_bytes());
    assert_eq!(
        page_rows::<u64, String>(&corrupt, 0, &mut None),
        Err(LoadError::Unlinked { page: 0 })
    );

    let mut newer = table(3).unload().expect("rows that fit a page");
    newer[0] = 4;
    let mut schema = None;
    assert_eq!(
        page_rows::<u64, String>(&newer, 2, &mut schema),
        Err(LoadError::ForeignPages {
            page: 2,
            version: 4
        })
    );
    assert_eq!(schema, None, "another version says nothing of the row type");
}

#[test]
fn two_tables_of_the_same_rows_unload_the_same() {
    let linear = table(3_000);
    let indexed = IndexedTable::from_rows(linear.rows().to_vec());
    let whole = linear.unload().expect("rows that fit a page");
    assert_eq!(indexed.unload(), Ok(whole.clone()));
    assert_eq!(indexed.unload_appending(0), Ok(whole.clone()));
    assert_eq!(linear.unload_appending(0), Ok(whole));
    let tail = LinearTable::from(linear.rows()[1_234..].to_vec());
    assert_eq!(indexed.unload_appending(1_234), tail.unload());
    let none = table(0).unload().expect("no rows");
    assert_eq!(none.len(), PAGE_SIZE);
    for first in [3_000, 3_001, usize::MAX] {
        assert_eq!(indexed.unload_appending(first), Ok(none.clone()));
        assert_eq!(linear.unload_appending(first), Ok(none.clone()));
    }
}
