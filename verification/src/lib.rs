//! Explicit, non-concurrent `Vec`-backed table baselines, verified.
//!
//! This crate isolates the storage pattern applications otherwise tend to
//! grow ad hoc: ordered rows, linear point lookup, and an optional side index.
//! It is intentionally not presented as a durable or concurrent backend. Its
//! purpose is to make the baseline a named component with a stable contract so
//! database comparisons use identical rows.
//!
//! [`rows`] states the one row contract that [`LinearTable`], [`IndexedTable`],
//! [`ArcticTable`], [`CongeeTable`] and [`WtiTable`] keep. [`AtomicKeyTable`] is
//! the table for many writers. [`hydrate`] turns rows into pages and pages into
//! rows.

pub mod arctic_table;
pub mod atomic_table;
pub mod calls;
pub mod cells;
pub mod congee_table;
pub mod hydrate;
pub mod indexed;
pub mod keys;
pub mod linear;
pub mod rows;
pub mod slots;
pub mod text;
pub mod word;
pub mod wti_table;

pub use crate::arctic_table::ArcticTable;
pub use crate::atomic_table::AtomicKeyTable;
pub use crate::congee_table::CongeeTable;
pub use crate::hydrate::codec::{Codec, NotAnArchive};
pub use crate::hydrate::error::{HydrateError, LoadError, RowTooLarge, UnloadError};
pub use crate::hydrate::page::PAGE_SIZE;
pub use crate::indexed::IndexedTable;
pub use crate::linear::{LinearTable, VecTable};
pub use crate::rows::InsertError;
pub use crate::wti_table::WtiTable;
pub use vstd::view::DeepView;
