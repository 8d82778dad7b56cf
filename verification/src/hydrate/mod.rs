//! Load and unload a table as pages.
//!
//! Rows live in a `Vec` while the table is in use and are pages only at rest.
//! Everything between a load and an unload runs at `Vec` speed because it *is*
//! a `Vec`. This is a codec at the two ends, not a storage engine underneath.
//!
//! # Page based, and each page stands alone
//!
//! A page is 16 KiB: a 28 byte header, then an rkyv archive of **the rows that
//! fit in that page**, nothing spanning the boundary, and at its tail how many
//! rows there are and a CRC-32 of the archive.
//!
//! An archive split across pages means one damaged page destroys every row in
//! the file, and it means appending a row rewrites everything. Self contained
//! pages make damage local and appends O(new rows), and cost only the few bytes
//! of archive overhead repeated per page. [`laws`] states both, and [`full`] how
//! full the pages are.
//!
//! # What is checked
//!
//! Every page carries a CRC-32 of its body, and every field in the header is
//! validated rather than merely written. An archive's own validation checks that
//! it is structurally sound, which is not the same as checking that these are
//! the bytes that were written: a flipped bit inside a `u64` passes structural
//! validation and reads back as a different number. The checksum is what catches
//! that.
//!
//! **These are not WorkTable space files.** A WorkTable space opens with a page
//! carrying a name, a schema and a primary key list, and a `Vec<(K, V)>`
//! declares no schema to put there.

pub mod checksum;
pub mod codec;
pub mod error;
pub mod full;
pub mod laws;
pub mod pack;
pub mod page;
pub mod rkyv_rows;
pub mod spread;
pub mod stream;
pub mod tables;
pub mod unpack;
