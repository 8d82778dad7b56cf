//! How rows become bytes and bytes become rows.

use vstd::prelude::*;

use crate::hydrate::checksum::{self, fnv};

verus! {

/// The one thing [`Codec::decode`] can say. Which page it happened on is the
/// caller's to add, because a codec does not know it is reading a page.
#[derive(Clone, Copy, Debug, PartialEq, Eq, Structural)]
pub struct NotAnArchive;

/// The longest archive there is. An archive holds its offsets in 32 bits, one
/// of them the sign.
pub const ARCHIVE_LIMIT: usize = 0x7fff_fff0;

/// What a row holds: the deep views of its key and its value.
pub type RowView<K, V> = (<K as DeepView>::V, <V as DeepView>::V);

/// What a key type has to be able to do for rows of it and a value type to
/// make the trip.
///
/// Stated over row contents: the deep views of the keys and values.
pub trait Codec<V: DeepView>: DeepView + Sized {
    /// The name of the row set's type, which the fingerprint is taken of.
    spec fn row_type() -> Seq<char>;

    /// Whether the archive of these rows can be built at all. An archive holds
    /// its lengths and offsets in 32 bits, so very large ones cannot.
    spec fn archivable(rows: Seq<RowView<Self, V>>) -> bool;

    /// The archive of these rows.
    spec fn archive(rows: Seq<RowView<Self, V>>) -> Seq<u8>;

    /// How long the archive of these rows is.
    spec fn archive_len(rows: Seq<RowView<Self, V>>) -> nat;

    /// More rows never archive shorter.
    proof fn more_rows_archive_no_shorter(rows: Seq<RowView<Self, V>>, from: int, to: int)
        requires
            0 <= from <= to <= rows.len(),
        ensures
            Self::archive_len(rows.subrange(from, to)) <= Self::archive_len(rows),
    ;

    /// The rows that these bytes are an archive of, if they are one.
    spec fn unarchive(bytes: Seq<u8>) -> Option<
        Seq<RowView<Self, V>>,
    >;

    /// The name of the row set's type.
    fn row_type_name() -> (name: &'static str)
        ensures
            name@ == Self::row_type(),
    ;

    /// Rows to bytes; `None` where the archive cannot be built.
    fn encode(rows: &[(Self, V)]) -> (archive: Option<Vec<u8>>)
        ensures
            archive is Some <==> Self::archivable(rows.deep_view()),
            archive matches Some(bytes) ==> bytes@ == Self::archive(rows.deep_view()),
            archive matches Some(bytes) ==> Self::unarchive(bytes@) == Some(rows.deep_view()),
            archive matches Some(bytes) ==> bytes@.len() == Self::archive_len(rows.deep_view()),
            archive matches Some(bytes) ==> bytes@.len() <= ARCHIVE_LIMIT,
    ;

    /// Bytes back to rows.
    ///
    /// # Errors
    ///
    /// Fails when the bytes are not this type's archive.
    fn decode(bytes: &[u8]) -> (rows: Result<Vec<(Self, V)>, NotAnArchive>)
        ensures
            rows is Ok <==> Self::unarchive(bytes@) is Some,
            rows matches Ok(found) ==> Some(found.deep_view()) == Self::unarchive(bytes@),
    ;
}

/// The fingerprint of a row type: FNV-1a over its name.
pub open spec fn row_schema<K: Codec<V>, V: DeepView>() -> u32 {
    checksum::fnv1a(vstd::utf8::encode_utf8(K::row_type()))
}

/// What row type wrote these bytes.
///
/// FNV-1a over the row type's name, which is not guaranteed unique. That is
/// fine for what it is for: refusing an obvious mismatch, not authenticating a
/// schema. A false match is possible and a false mismatch is a rebuild, so it
/// fails toward refusing to load rather than toward reinterpreting.
pub fn fingerprint<K: Codec<V>, V: DeepView>() -> (hash: u32)
    ensures
        hash == row_schema::<K, V>(),
{
    fnv(K::row_type_name().as_bytes())
}

} // verus!
