# WorkTable-vec

Tiny, explicit `Vec`-backed tables for WorkTable-shaped workloads, verified with
Verus.

Applications often grow an implicit table out of a `Vec` plus bespoke scans or
side indexes. That is difficult to audit and easy to compare unfairly with a
database. This crate isolates those choices behind one row contract:

- `LinearTable`: ordered `Vec<(K, V)>` with linear point lookup;
- `IndexedTable`: the same ordered rows plus `BTreeMap<K, row_offset>`;
- `ArcticTable`, `CongeeTable`, `WtiTable`: the same ordered rows plus an index
  of another crate;
- `AtomicKeyTable`: a fixed number of rows that many threads claim by key.

It is deliberately not a persistence engine. `LinearTable` and `IndexedTable`
can be unloaded as pages and loaded from them: rows live in a `Vec` while the
table is in use and are pages only at rest.

```rust
use worktable_vec::ArcticTable;

let mut rows = ArcticTable::new();
rows.insert(7_u64, "seven")?;
assert_eq!(rows.select(&7), Some(&"seven"));
# Ok::<(), worktable_vec::InsertError<u64>>(())
```

## Layout

- `src/rows.rs` states the row contract and its laws; `linear.rs`, `indexed.rs`,
  `arctic_table.rs`, `congee_table.rs` and `wti_table.rs` keep it.
- `src/slots.rs` says how a key finds its slot and what claims keep, and
  `calls.rs` what holds over calls that come one after the other;
  `atomic_table.rs` is the table over them.
- `src/hydrate/` turns rows into pages (`pack.rs`) and pages into rows
  (`unpack.rs`, `stream.rs`); `laws.rs` says what holds of pages whatever rows
  they carry; `spread.rs` is the format whose archive runs across pages.
- `app/` puts pages into and takes them from `embedded_io` sinks and sources.

What is believed of the outside crates stands at the functions marked
`external_body`, each with what it claims in words.
