//! Tables of ordered rows.

use worktable_vec::congee_table::{settle, Stored};
use worktable_vec::{
    ArcticTable, CongeeTable, IndexedTable, InsertError, LinearTable, VecTable, WtiTable,
};

#[test]
fn linear_and_indexed_tables_have_the_same_row_contract() {
    let mut linear = LinearTable::new();
    let mut indexed = IndexedTable::new();
    for (key, value) in [(7_u64, "a"), (2, "b"), (11, "c")] {
        linear.insert(key, value).unwrap();
        indexed.insert(key, value).unwrap();
    }

    assert_eq!(linear.rows(), indexed.rows());
    for key in [2_u64, 7, 11, 99] {
        assert_eq!(linear.select(&key), indexed.select(&key));
    }
    assert_eq!(
        linear.insert(7, "duplicate"),
        Err(InsertError::DuplicateKey(7_u64))
    );
    assert_eq!(
        indexed.insert(7, "duplicate"),
        Err(InsertError::DuplicateKey(7_u64))
    );
}

#[test]
fn vec_table_exposes_the_vec_fast_path_without_extra_storage() {
    assert_eq!(
        core::mem::size_of::<VecTable<u64, u64>>(),
        core::mem::size_of::<Vec<(u64, u64)>>()
    );

    let mut table = VecTable::with_capacity(3);
    assert_eq!(table.push(7, "a"), 0);
    assert_eq!(table.push(7, "duplicate allowed"), 1);
    assert_eq!(table.get_row(1), Some(&(7, "duplicate allowed")));
    assert_eq!(table.as_slice().len(), 2);
    assert!(table.capacity() >= 3);
}

#[test]
fn arctic_table_has_the_same_row_contract() {
    let mut linear = LinearTable::new();
    let mut arctic = ArcticTable::new();
    for (key, value) in [(7_u64, "a"), (2, "b"), (11, "c")] {
        linear.insert(key, value).unwrap();
        arctic.insert(key, value).unwrap();
    }

    assert_eq!(linear.rows(), arctic.rows());
    for key in [2_u64, 7, 11, 99] {
        assert_eq!(linear.select(&key), arctic.select(&key));
    }
    assert_eq!(
        arctic.insert(7, "duplicate"),
        Err(InsertError::DuplicateKey(7_u64))
    );
}

#[test]
fn congee_table_has_the_same_row_contract() {
    let mut linear = LinearTable::new();
    let mut congee = CongeeTable::new();
    for (key, value) in [(7_usize, "a"), (2, "b"), (11, "c")] {
        linear.insert(key, value).unwrap();
        congee.insert(key, value).unwrap();
    }

    assert_eq!(linear.rows(), congee.rows());
    for key in [2_usize, 7, 11, 99] {
        assert_eq!(linear.select(&key), congee.select(key));
    }
    assert_eq!(
        congee.insert(7, "duplicate"),
        Err(InsertError::DuplicateKey(7_usize))
    );
}

#[test]
fn wti_table_has_the_same_row_contract() {
    let mut linear = LinearTable::new();
    let mut wti = WtiTable::new();
    for (key, value) in [(7_usize, "a"), (2, "b"), (11, "c")] {
        linear.insert(key, value).unwrap();
        wti.insert(key, value).unwrap();
    }

    assert_eq!(linear.rows(), wti.rows());
    for key in [2_usize, 7, 11, 99] {
        assert_eq!(linear.select(&key), wti.select(&key));
    }
    assert_eq!(
        wti.insert(7, "duplicate"),
        Err(InsertError::DuplicateKey(7_usize))
    );
}

/// Far more keys than one node of any of the indexes holds, in an order that is
/// not theirs, and every one of them refused the second time.
#[test]
fn every_index_agrees_with_a_scan_over_many_rows() {
    let mut linear: LinearTable<usize, usize> = LinearTable::new();
    let mut indexed: IndexedTable<usize, usize> = IndexedTable::new();
    let mut arctic: ArcticTable<usize, usize> = ArcticTable::new();
    let mut congee: CongeeTable<usize, usize> = CongeeTable::new();
    let mut wti: WtiTable<usize, usize> = WtiTable::new();
    for n in 0..3_000usize {
        let key = (n * 7_919) % 3_001;
        assert_eq!(linear.push(key, n), n);
        assert_eq!(indexed.insert(key, n), Ok(n));
        assert_eq!(arctic.insert(key, n), Ok(n));
        assert_eq!(congee.insert(key, n), Ok(n));
        assert_eq!(wti.insert(key, n), Ok(n));
    }
    assert_eq!(indexed.rows(), linear.rows());
    assert_eq!(arctic.rows(), linear.rows());
    assert_eq!(congee.rows(), linear.rows());
    assert_eq!(wti.rows(), linear.rows());
    for (key, value) in linear.iter() {
        assert_eq!(indexed.select(key), Some(value));
        assert_eq!(arctic.select(key), Some(value));
        assert_eq!(congee.select(*key), Some(value));
        assert_eq!(wti.select(key), Some(value));
        assert_eq!(
            indexed.insert(*key, 9),
            Err(InsertError::DuplicateKey(*key))
        );
        assert_eq!(arctic.insert(*key, 9), Err(InsertError::DuplicateKey(*key)));
        assert_eq!(congee.insert(*key, 9), Err(InsertError::DuplicateKey(*key)));
        assert_eq!(wti.insert(*key, 9), Err(InsertError::DuplicateKey(*key)));
    }
    assert_eq!(wti.len(), 3_000);
    assert_eq!(wti.select(&5_000), None);
    assert_eq!(arctic.select(&5_000), None);
    assert_eq!(congee.select(5_000), None);
}

/// A node of the index that is exactly full when a duplicate comes is the case
/// in which the index itself would take the duplicate.
#[test]
fn a_duplicate_is_refused_when_the_index_node_is_full() {
    for rows in 1_000..1_030usize {
        let mut wti: WtiTable<u64, usize> = WtiTable::new();
        for n in 0..rows {
            assert_eq!(wti.insert(n as u64, n), Ok(n));
        }
        assert_eq!(wti.insert(0, 7), Err(InsertError::DuplicateKey(0)));
        assert_eq!(
            wti.insert(rows as u64 - 1, 7),
            Err(InsertError::DuplicateKey(rows as u64 - 1))
        );
        assert_eq!(wti.len(), rows);
        assert_eq!(wti.select(&0), Some(&0));
    }
}

#[test]
fn narrow_keys_are_words_too() {
    let mut bytes: ArcticTable<u8, char> = ArcticTable::with_capacity(2);
    bytes.insert(255, 'z').unwrap();
    assert_eq!(bytes.select(&255), Some(&'z'));
    let mut shorts: WtiTable<u16, char> = WtiTable::with_capacity(2);
    shorts.insert(65_535, 'y').unwrap();
    assert_eq!(shorts.select(&65_535), Some(&'y'));
    let mut longs: ArcticTable<u32, char> = ArcticTable::default();
    longs.insert(u32::MAX, 'x').unwrap();
    assert_eq!(longs.select(&u32::MAX), Some(&'x'));
    assert_eq!(longs.select(&0), None);
}

#[test]
fn an_index_without_memory_hands_the_key_back() {
    let mut rows = vec![(1_usize, "a")];
    assert_eq!(settle(&mut rows, 2, "b", Stored::New), Ok(1));
    assert_eq!(
        settle(&mut rows, 3, "c", Stored::OutOfMemory),
        Err(InsertError::OutOfMemory(3))
    );
    assert_eq!(
        settle(&mut rows, 2, "d", Stored::Replaced),
        Err(InsertError::DuplicateKey(2))
    );
    assert_eq!(rows, vec![(1, "a"), (2, "b")]);
}

#[test]
fn tables_show_how_many_rows_they_have() {
    let mut arctic: ArcticTable<u64, char> = ArcticTable::new();
    assert!(arctic.is_empty());
    for n in 0..12u64 {
        arctic.insert(n, 'r').unwrap();
    }
    assert_eq!(arctic.debug_text(), "ArcticTable { rows: 12, .. }");
    let congee: CongeeTable<usize, char> = CongeeTable::default();
    assert_eq!(congee.debug_text(), "CongeeTable { rows: 0, .. }");
    let wti: WtiTable<u64, char> = WtiTable::default();
    assert_eq!(wti.debug_text(), "WtiTable { rows: 0, .. }");
    assert!(wti.is_empty());
    assert!(congee.is_empty());
    assert_eq!(congee.len(), 0);
    assert_eq!(arctic.len(), 12);
}

#[test]
fn rows_change_in_place_and_come_out_whole() {
    let mut table: LinearTable<u64, u64> = LinearTable::from(vec![(1, 10), (2, 20), (3, 30)]);
    *table.get_row_mut(1).unwrap() = (2, 21);
    assert!(table.get_row_mut(3).is_none());
    assert_eq!(table.get_row(3), None);
    table.as_mut_slice()[0].1 = 11;
    for row in table.iter_mut() {
        row.1 += 1;
    }
    table.reserve(100);
    assert!(table.capacity() >= 103);
    assert_eq!(table.as_ref(), &[(1, 12), (2, 22), (3, 31)]);
    assert_eq!(table.iter().count(), 3);
    let copy = table.clone();
    assert_eq!(copy, table);
    assert_eq!(table.into_rows(), vec![(1, 12), (2, 22), (3, 31)]);
    assert!(LinearTable::<u64, u64>::default().is_empty());
}

#[test]
fn a_cloned_index_still_finds_its_rows() {
    let mut table: IndexedTable<u64, &str> = IndexedTable::with_capacity(2);
    table.insert(5, "five").unwrap();
    let mut copy = table.clone();
    assert_eq!(copy.select(&5), Some(&"five"));
    copy.insert(6, "six").unwrap();
    assert_eq!(table.len(), 1);
    assert_eq!(copy.len(), 2);
    assert!(!copy.is_empty());
    assert_eq!(IndexedTable::<u64, u64>::default().len(), 0);
}

#[test]
fn of_rows_with_the_same_key_the_first_stays() {
    let table = IndexedTable::from_rows(vec![(1_u64, 'a'), (2, 'b'), (1, 'c')]);
    assert_eq!(table.rows(), &[(1, 'a'), (2, 'b')]);
    assert_eq!(table.select(&1), Some(&'a'));
}

#[test]
fn a_linear_select_finds_the_first_of_two() {
    let mut table = LinearTable::new();
    table.push(4_u64, 'a');
    table.push(4, 'b');
    assert_eq!(table.select(&4), Some(&'a'));
    assert_eq!(table.insert(4, 'c'), Err(InsertError::DuplicateKey(4)));
    assert_eq!(table.insert(5, 'c'), Ok(2));
    let error: InsertError<u64> = InsertError::OutOfMemory(3);
    assert_eq!(error.clone(), error);
}

#[test]
fn rows_are_handed_out_once_and_in_order_to_change() {
    let mut table: LinearTable<u64, u64> = LinearTable::from(vec![(5, 0), (3, 0), (4, 0)]);
    let mut steps = table.iter_mut();
    assert_eq!(steps.len(), 3);
    for (n, row) in (1u64..).zip(steps.by_ref()) {
        row.1 = 10 * n + row.0;
    }
    assert!(steps.next().is_none());
    assert_eq!(table.rows(), &[(5, 15), (3, 23), (4, 34)]);
    table.iter_mut().next().unwrap().0 = 6;
    assert_eq!(table.rows(), &[(6, 15), (3, 23), (4, 34)]);
}
