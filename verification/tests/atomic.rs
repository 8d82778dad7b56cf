//! The table of claimed rows.

use core::sync::atomic::{AtomicU64, Ordering};

use worktable_vec::atomic_table::claimed_rows;
use worktable_vec::slots::{scatter, Probe, Step};
use worktable_vec::{AtomicKeyTable, LinearTable};

#[derive(Default)]
struct Counter(AtomicU64);

#[test]
fn a_claimed_row_is_found_by_a_plain_load_and_never_reclaimed() {
    let table: AtomicKeyTable<Counter> = AtomicKeyTable::with_capacity(64);
    let first = table.upsert(7).expect("capacity");
    first.0.fetch_add(1, Ordering::Relaxed);
    let again = table.upsert(7).expect("already claimed");
    again.0.fetch_add(1, Ordering::Relaxed);
    assert_eq!(
        again.0.load(Ordering::Relaxed),
        2,
        "the second call found the same row"
    );
    assert_eq!(table.len(), 1, "one key claimed one slot");
}

#[test]
fn zero_is_the_empty_sentinel_and_is_refused_rather_than_colliding() {
    let table: AtomicKeyTable<Counter> = AtomicKeyTable::with_capacity(8);
    assert!(
        table.upsert(0).is_none(),
        "zero would be indistinguishable from empty"
    );
    assert_eq!(table.len(), 0);
}

#[test]
fn a_full_table_refuses_rather_than_growing() {
    let table: AtomicKeyTable<Counter> = AtomicKeyTable::with_capacity(4);
    for key in 1..=4 {
        assert!(table.upsert(key).is_some(), "slot {key} fits");
    }
    assert_eq!(table.len(), 4);
    assert!(table.upsert(5).is_none(), "the fifth has nowhere to go");
    assert!(
        table.upsert(3).is_some(),
        "a claimed key is still reachable when full"
    );
}

#[test]
fn select_never_creates_a_row() {
    let table: AtomicKeyTable<Counter> = AtomicKeyTable::with_capacity(8);
    assert!(table.select(9).is_none());
    assert_eq!(table.len(), 0, "find must not take a slot");
    table.upsert(9).expect("capacity");
    assert!(table.select(9).is_some());
}

#[test]
fn every_claimed_row_is_iterated_and_no_empty_one_is() {
    let table: AtomicKeyTable<Counter> = AtomicKeyTable::with_capacity(32);
    for key in [11usize, 22, 33] {
        table
            .upsert(key)
            .expect("capacity")
            .0
            .store(key as u64, Ordering::Relaxed);
    }
    let mut seen: Vec<(usize, u64)> = table
        .iter()
        .into_iter()
        .map(|(k, v)| (k, v.0.load(Ordering::Relaxed)))
        .collect();
    seen.sort_unstable();
    assert_eq!(seen, vec![(11usize, 11u64), (22, 22), (33, 33)]);
}

/// A claimed lookup must cost what a `Vec` index costs, because that is the
/// whole claim. The comparison is against this crate's own [`LinearTable`],
/// whose `select` is a linear scan. Reported as a ratio, so the assertion is
/// about shape rather than about this machine.
#[test]
fn a_claimed_lookup_costs_about_what_a_vec_index_costs() {
    const KEYS: usize = 64;
    const ROUNDS: usize = 200_000;

    let atomic: AtomicKeyTable<Counter> = AtomicKeyTable::with_capacity(KEYS * 4);
    let mut linear: LinearTable<usize, u64> = LinearTable::new();
    for key in 1..=KEYS {
        atomic.upsert(key).expect("capacity");
        linear.push(key, key as u64);
    }

    let start = std::time::Instant::now();
    let mut sink = 0u64;
    for round in 0..ROUNDS {
        let key = (round % KEYS) + 1;
        sink += atomic
            .select(key)
            .expect("claimed")
            .0
            .load(Ordering::Relaxed);
    }
    let atomic_ns = start.elapsed().as_nanos().max(1);

    let start = std::time::Instant::now();
    for round in 0..ROUNDS {
        let key = (round % KEYS) + 1;
        sink += *linear.select(&key).expect("present");
    }
    let linear_ns = start.elapsed().as_nanos().max(1);
    std::hint::black_box(sink);

    let ratio = atomic_ns as f64 / linear_ns as f64;
    println!(
        "lookup over {KEYS} keys: atomic {atomic_ns} ns, linear {linear_ns} ns, ratio {ratio:.3}"
    );
    assert!(
        ratio < 1.0,
        "a hashed lookup should not be slower than a linear scan over {KEYS} keys, \
         but the atomic table took {atomic_ns} ns against {linear_ns} ns"
    );
}

#[test]
fn capacity_is_the_next_power_of_two() {
    for (asked, got) in [(0, 1), (1, 1), (2, 2), (3, 4), (64, 64), (65, 128)] {
        let table: AtomicKeyTable<Counter> = AtomicKeyTable::with_capacity(asked);
        assert_eq!(table.capacity(), got);
        assert!(table.is_empty());
    }
}

#[test]
fn a_table_of_one_slot_holds_one_key() {
    let table: AtomicKeyTable<Counter> = AtomicKeyTable::with_capacity(1);
    assert!(table.upsert(12).is_some());
    assert!(table.upsert(12).is_some());
    assert!(table.upsert(13).is_none());
    assert!(table.select(13).is_none());
    assert!(!table.is_empty());
}

/// The first multiple of the golden constant is the constant itself, and its
/// top bits are the slot.
#[test]
fn scatter_takes_the_high_bits_of_the_product() {
    assert_eq!(scatter(1, 60, 15), 0x9);
    assert_eq!(scatter(1, 56, 255), 0x9E);
    assert_eq!(scatter(2, 60, 15), 0x3);
    assert_eq!(scatter(0, 60, 15), 0);
    assert_eq!(scatter(77, 64, 0), 0);
}

#[test]
fn a_probe_does_what_each_word_asks() {
    let mut probe = Probe::start(1, 62, 3);
    assert_eq!(probe.first(), Step::Look(2));
    assert_eq!(probe.upsert_saw(9), Step::Look(3));
    assert_eq!(probe.upsert_saw(0), Step::Claim(3));
    assert_eq!(probe.upsert_claimed(Err(8)), Step::Look(0));
    assert_eq!(probe.upsert_claimed(Err(1)), Step::Row(0));
    assert_eq!(probe.upsert_claimed(Ok(0)), Step::Row(0));
    assert_eq!(probe.select_saw(1), Step::Row(0));
    assert_eq!(probe.select_saw(0), Step::Missing);
    assert_eq!(probe.select_saw(5), Step::Look(1));
    assert_eq!(probe.upsert_saw(6), Step::Missing);
}

#[test]
fn claimed_rows_are_in_slot_order_without_the_empty_ones() {
    let rows = claimed_rows(&[0, 5, 0, 3], &['a', 'b', 'c', 'd']);
    assert_eq!(rows, vec![(5, &'b'), (3, &'d')]);
}

/// Keys that start at the same slot push each other on, round the end of the
/// table, and every one of them stays reachable.
#[test]
fn keys_that_collide_stay_reachable() {
    let table: AtomicKeyTable<Counter> = AtomicKeyTable::with_capacity(256);
    let last: Vec<usize> = (1..100_000usize)
        .filter(|key| scatter(*key, 56, 255) == 255)
        .take(5)
        .collect();
    for key in &last {
        table
            .upsert(*key)
            .expect("capacity")
            .0
            .store(*key as u64, Ordering::Relaxed);
    }
    for key in &last {
        let row = table.select(*key).expect("claimed");
        assert_eq!(row.0.load(Ordering::Relaxed), *key as u64);
    }
    let first: Vec<usize> = table.iter().into_iter().map(|(key, _)| key).collect();
    assert_eq!(first, vec![last[1], last[2], last[3], last[4], last[0]]);
}

#[test]
fn calls_that_come_one_after_the_other_agree() {
    let table: AtomicKeyTable<Counter> = AtomicKeyTable::with_capacity(8);
    let mut len = 0;
    for key in [5usize, 900, 5, 13, 77, 900, 21, 5] {
        let missing = table.select(key).is_none();
        assert_eq!(table.len(), len, "a select takes no slot");
        let row = table.upsert(key).expect("capacity");
        len += usize::from(missing);
        assert_eq!(table.len(), len);
        assert!(std::ptr::eq(row, table.upsert(key).expect("claimed")));
        assert!(std::ptr::eq(row, table.select(key).expect("claimed")));
        for (other, theirs) in table.iter() {
            assert_eq!(other == key, std::ptr::eq(row, theirs));
        }
    }
    assert_eq!(len, 5);
    assert_eq!(table.capacity(), 8);
}
