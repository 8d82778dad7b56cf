//! One archive over a run of pages.

use worktable_vec::hydrate::codec::fingerprint;
use worktable_vec::hydrate::spread::{
    from_pages, to_pages, Header, LoadError, BODY_SIZE, HEADER_SIZE,
};
use worktable_vec::{IndexedTable, LinearTable, PAGE_SIZE};

fn table(rows: usize) -> LinearTable<u64, String> {
    let mut table = LinearTable::new();
    for n in 0..rows {
        table.push(n as u64, format!("row {n}"));
    }
    table
}

#[test]
fn hydrate_rows_survive_the_round_trip() {
    let before = table(1_000);
    let back = LinearTable::<u64, String>::load_spread(&before.unload_spread()).expect("a load");
    assert_eq!(back.rows(), before.rows());
}

/// The interesting case: more rows than one page body holds, so the page
/// run is doing real work rather than describing a single page.
#[test]
fn hydrate_rows_survive_spanning_many_pages() {
    let before = table(20_000);
    let bytes = before.unload_spread();
    assert!(
        bytes.len() / PAGE_SIZE > 1,
        "the fixture has to span pages: {} pages",
        bytes.len() / PAGE_SIZE
    );
    let back = LinearTable::<u64, String>::load_spread(&bytes).expect("a load");
    assert_eq!(back.rows(), before.rows());
}

#[test]
fn hydrate_an_empty_table_is_one_page_and_comes_back_empty() {
    let bytes = table(0).unload_spread();
    assert_eq!(bytes.len(), PAGE_SIZE);
    assert!(LinearTable::<u64, String>::load_spread(&bytes)
        .expect("a load")
        .is_empty());
}

#[test]
fn hydrate_the_index_is_rebuilt_rather_than_stored() {
    let mut before = IndexedTable::new();
    for n in 0..500u64 {
        before.insert(n, n.to_string()).expect("a row");
    }
    let back = IndexedTable::<u64, String>::load_spread(&before.unload_spread()).expect("a load");
    assert_eq!(back.len(), 500);
    assert_eq!(back.select(&37), Some(&"37".to_string()));
}

#[test]
fn hydrate_bytes_that_are_not_whole_pages_are_refused() {
    assert_eq!(
        LinearTable::<u64, String>::load_spread(&[0u8; 17]),
        Err(LoadError::NotWholePages { found: 17 })
    );
}

/// A whole page of zeroes is the shape a torn write leaves behind, and it
/// has to be a named error rather than a plausible empty table.
#[test]
fn hydrate_a_zeroed_page_is_not_an_empty_table() {
    let bytes = vec![0u8; PAGE_SIZE];
    assert_eq!(
        LinearTable::<u64, String>::load_spread(&bytes),
        Err(LoadError::ForeignPages {
            page: 0,
            version: 0
        })
    );
}

/// Somebody else's rows in well formed pages. Without the fingerprint this
/// load succeeds and hands back debris.
#[test]
fn hydrate_a_different_row_type_is_refused_rather_than_reinterpreted() {
    let bytes = table(10).unload_spread();
    assert_eq!(
        LinearTable::<u64, u64>::load_spread(&bytes),
        Err(LoadError::ForeignRows {
            found: fingerprint::<u64, String>(),
            expected: fingerprint::<u64, u64>(),
        })
    );
}

/// Two files spliced together are not one longer file.
#[test]
fn hydrate_pages_from_two_runs_are_refused() {
    let mut spliced = table(1).unload_spread();
    let mut other: LinearTable<u64, u64> = LinearTable::new();
    other.push(1, 1);
    spliced.extend_from_slice(&other.unload_spread());
    assert_eq!(
        LinearTable::<u64, String>::load_spread(&spliced),
        Err(LoadError::Inconsistent { page: 1 })
    );
}

#[test]
fn a_spread_page_is_a_header_and_a_part() {
    let body: Vec<u8> = (0..BODY_SIZE + 10).map(|n| n as u8).collect();
    let pages = to_pages(&body, 0x0a0b_0c0d);
    assert_eq!(pages.len(), 2 * PAGE_SIZE);
    assert_eq!(
        &pages[..HEADER_SIZE],
        &[
            1, 0, 0, 0, 0x0d, 0x0c, 0x0b, 0x0a, 0, 0, 0, 0, 2, 0, 0, 0, 0xe8, 0x3f, 0, 0, 0, 0, 0,
            0
        ]
    );
    assert_eq!(
        Header::read(&pages[PAGE_SIZE..]),
        Header {
            version: 1,
            schema: 0x0a0b_0c0d,
            page: 1,
            pages: 2,
            body: 10,
            reserved: 0
        }
    );
    assert_eq!(from_pages(&pages), Ok((0x0a0b_0c0d, body)));
    assert_eq!(from_pages(&to_pages(&[], 5)), Ok((5, vec![])));
}

#[test]
fn exactly_full_pages_are_no_more_than_needed() {
    for pages in 1..4usize {
        let body = vec![7u8; pages * BODY_SIZE];
        let bytes = to_pages(&body, 1);
        assert_eq!(bytes.len(), pages * PAGE_SIZE);
        assert_eq!(from_pages(&bytes), Ok((1, body)));
    }
}

#[test]
fn a_spread_body_longer_than_a_page_is_refused() {
    let mut bytes = table(4).unload_spread();
    bytes[16..20].copy_from_slice(&(BODY_SIZE as u32 + 1).to_le_bytes());
    assert_eq!(
        LinearTable::<u64, String>::load_spread(&bytes),
        Err(LoadError::Overlong {
            page: 0,
            claimed: BODY_SIZE + 1
        })
    );
}

#[test]
fn spread_bytes_that_are_no_archive_are_refused() {
    let bytes = to_pages(&[1, 2, 3], fingerprint::<u64, u64>());
    assert_eq!(
        LinearTable::<u64, u64>::load_spread(&bytes),
        Err(LoadError::Rows)
    );
    assert_eq!(
        IndexedTable::<u64, u64>::load_spread(&bytes),
        Err(LoadError::Rows)
    );
}

#[test]
fn neither_kind_of_page_reads_the_other() {
    let rows = table(3);
    let alone = rows.unload().expect("rows that fit a page");
    assert_eq!(
        LinearTable::<u64, String>::load_spread(&alone),
        Err(LoadError::ForeignPages {
            page: 0,
            version: 3
        })
    );
    assert_eq!(
        LinearTable::<u64, String>::load(&rows.unload_spread()),
        Err(worktable_vec::LoadError::ForeignPages {
            page: 0,
            version: 1
        })
    );
}

#[test]
fn spread_refusals_say_what_is_wrong() {
    let said = [
        (
            LoadError::NotWholePages { found: 0 },
            "0 bytes is not a whole number of 16384 byte pages",
        ),
        (
            LoadError::ForeignPages {
                page: 2,
                version: 3,
            },
            "page 2 is version 3, and this build writes 1",
        ),
        (
            LoadError::Overlong {
                page: 7,
                claimed: 16_361,
            },
            "page 7 claims a 16361 byte body, more than a page holds",
        ),
        (
            LoadError::Inconsistent { page: 1 },
            "page 1 names a different row type",
        ),
        (
            LoadError::ForeignRows {
                found: 0x89ab_cdef,
                expected: 0x0123_4567,
            },
            "these are row type 0x89abcdef, and this is row type 0x01234567",
        ),
        (
            LoadError::OtherRun { page: 1 },
            "page 1 is from another run",
        ),
        (
            LoadError::PageCount {
                expected: 3,
                found: 2,
            },
            "the run has 3 pages, and 2 arrived",
        ),
        (LoadError::Rows, "the row bytes did not deserialize"),
    ];
    for (error, text) in said {
        assert_eq!(error.to_string(), text);
    }
}

/// Two runs of one row type are not one longer run: without their page numbers
/// the second would come back in the place of both.
#[test]
fn two_runs_of_one_row_type_are_refused() {
    let mut twice = table(1).unload_spread();
    twice.extend_from_slice(&table(2).unload_spread());
    assert_eq!(
        LinearTable::<u64, String>::load_spread(&twice),
        Err(LoadError::OtherRun { page: 1 })
    );
    let long = table(3_000).unload_spread();
    let mut swapped = long[PAGE_SIZE..2 * PAGE_SIZE].to_vec();
    swapped.extend_from_slice(&long[..PAGE_SIZE]);
    assert_eq!(
        LinearTable::<u64, String>::load_spread(&swapped),
        Err(LoadError::OtherRun { page: 0 })
    );
    let mut grafted = long[..PAGE_SIZE].to_vec();
    grafted.extend_from_slice(&table(20_000).unload_spread()[PAGE_SIZE..2 * PAGE_SIZE]);
    assert_eq!(
        LinearTable::<u64, String>::load_spread(&grafted),
        Err(LoadError::OtherRun { page: 1 })
    );
}

#[test]
fn a_truncated_run_is_refused() {
    let whole = table(20_000).unload_spread();
    let pages = whole.len() / PAGE_SIZE;
    for kept in 1..pages {
        assert_eq!(
            LinearTable::<u64, String>::load_spread(&whole[..kept * PAGE_SIZE]),
            Err(LoadError::PageCount {
                expected: pages,
                found: kept
            })
        );
    }
    assert_eq!(
        LinearTable::<u64, String>::load_spread(&whole[..PAGE_SIZE + 1]),
        Err(LoadError::NotWholePages {
            found: PAGE_SIZE + 1
        })
    );
}

/// Another row type is named before anything that is wrong with the run, and that
/// before what is wrong with the rows.
#[test]
fn another_row_type_is_named_before_another_run() {
    let mut bytes = to_pages(&[1, 2, 3], 9);
    bytes[12..16].copy_from_slice(&2u32.to_le_bytes());
    assert_eq!(from_pages(&bytes), Ok((9, vec![1, 2, 3])));
    assert_eq!(
        LinearTable::<u64, u64>::load_spread(&bytes),
        Err(LoadError::ForeignRows {
            found: 9,
            expected: fingerprint::<u64, u64>()
        })
    );
    bytes[4..8].copy_from_slice(&fingerprint::<u64, u64>().to_le_bytes());
    assert_eq!(
        LinearTable::<u64, u64>::load_spread(&bytes),
        Err(LoadError::PageCount {
            expected: 2,
            found: 1
        })
    );
    bytes[8..12].copy_from_slice(&1u32.to_le_bytes());
    assert_eq!(
        LinearTable::<u64, u64>::load_spread(&bytes),
        Err(LoadError::OtherRun { page: 0 })
    );
}
