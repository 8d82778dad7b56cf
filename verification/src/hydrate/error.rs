//! What a load or an unload can refuse on.

use vstd::prelude::*;
use vstd::std_specs::convert::FromSpecImpl;
use vstd::string::StringExecFns;

use crate::hydrate::page::{PAGE_SIZE, PAGE_TYPE_DATA, PAGE_VERSION};
use crate::text::{self, push_decimal, push_hex_word};

verus! {

/// What a load can refuse on.
///
/// Every variant is a statement about the bytes rather than about the caller,
/// and every one of them names the page, because a file that will not load is
/// a question about which page went wrong.
#[derive(Clone, Copy, Debug, PartialEq, Eq, Structural)]
#[allow(inconsistent_fields)]
pub enum LoadError {
    /// The byte length is not a whole number of pages.
    NotWholePages {
        /// How many bytes arrived.
        found: usize,
    },
    /// A page carries a version this build does not write.
    ///
    /// Also what a page of zeroes looks like, which is the shape a torn write
    /// leaves behind.
    ForeignPages {
        /// Which page, counting from zero.
        page: usize,
        /// The version that page claims.
        version: u32,
    },
    /// A page is not a page of rows.
    ForeignType {
        /// Which page, counting from zero.
        page: usize,
        /// The type that page claims.
        page_type: u32,
    },
    /// A page's header names other neighbours than the pages on both sides of
    /// its own number, or itself at an end.
    Unlinked {
        /// Which page, counting from zero.
        page: usize,
    },
    /// A header claimed a body longer than a page holds.
    Overlong {
        /// Which page, counting from zero.
        page: usize,
        /// What its header claimed.
        claimed: usize,
    },
    /// The body does not match the checksum written with it.
    ///
    /// This is the one an archive's own validation cannot find. A flipped bit
    /// inside an integer is a structurally perfect archive of the wrong number.
    Corrupt {
        /// Which page, counting from zero.
        page: usize,
        /// The checksum in the directory.
        expected: u32,
        /// The checksum of the bytes actually there.
        found: u32,
    },
    /// The pages disagree with each other about the row type.
    Inconsistent {
        /// Which page disagreed.
        page: usize,
    },
    /// These are a different row type's bytes.
    ///
    /// Caught by a fingerprint rather than by deserialization, because
    /// deserialization does not catch it: a `(u64, String)` archive validates
    /// as a perfectly good `(u64, u64)` and hands back a `String`'s relative
    /// pointer as an integer. Keys look right, values are debris, and nothing
    /// errors.
    ForeignRows {
        /// The fingerprint these bytes were written with.
        found: u32,
        /// The fingerprint this row type expects.
        expected: u32,
    },
    /// A page's rows did not deserialize.
    Rows {
        /// Which page, counting from zero.
        page: usize,
    },
    /// A page's directory promised a row count its body did not contain.
    RowCount {
        /// Which page, counting from zero.
        page: usize,
        /// What the directory promised.
        expected: usize,
        /// What the body held.
        found: usize,
    },
}

/// A row whose archive alone is longer than a page body.
///
/// Such a row is refused, rather than written into a file that cannot be read
/// back.
#[derive(Clone, Copy, Debug, PartialEq, Eq, Structural)]
pub struct RowTooLarge {
    /// Which row, counting from the first row that was to be written.
    pub row: usize,
    /// How long the row's archive is.
    pub bytes: usize,
    /// How much a page body holds.
    pub limit: usize,
}

impl LoadError {
    /// What went wrong, in words.
    pub open spec fn message(self) -> Seq<char> {
        match self {
            LoadError::NotWholePages { found } => text::decimal(found as nat)
                + " bytes is not a whole number of "@ + text::decimal(PAGE_SIZE as nat)
                + " byte pages"@,
            LoadError::ForeignPages { page, version } => "page "@ + text::decimal(page as nat)
                + " is version "@ + text::decimal(version as nat) + ", and this build writes "@
                + text::decimal(PAGE_VERSION as nat),
            LoadError::ForeignType { page, page_type } => "page "@ + text::decimal(page as nat)
                + " is of type "@ + text::decimal(page_type as nat) + ", and rows are in type "@
                + text::decimal(PAGE_TYPE_DATA as nat),
            LoadError::Unlinked { page } => "page "@ + text::decimal(page as nat)
                + " names pages that are not its neighbours"@,
            LoadError::Overlong { page, claimed } => "page "@ + text::decimal(page as nat)
                + " claims a "@ + text::decimal(claimed as nat)
                + " byte body, more than a page holds"@,
            LoadError::Corrupt { page, expected, found } => "page "@ + text::decimal(page as nat)
                + " checksums "@ + text::hex_word(found) + " and its header says "@
                + text::hex_word(expected),
            LoadError::Inconsistent { page } => "page "@ + text::decimal(page as nat)
                + " names a different row type"@,
            LoadError::ForeignRows { found, expected } => "these are row type "@ + text::hex_word(
                found,
            ) + ", and this is row type "@ + text::hex_word(expected),
            LoadError::Rows { page } => "page "@ + text::decimal(page as nat)
                + " did not deserialize"@,
            LoadError::RowCount { page, expected, found } => "page "@ + text::decimal(page as nat)
                + " promised "@ + text::decimal(expected as nat) + " rows and held "@
                + text::decimal(found as nat),
        }
    }

    /// What went wrong, in words.
    pub fn to_string(&self) -> (text: String)
        ensures
            text@ == self.message(),
    {
        let mut out = String::new();
        match *self {
            LoadError::NotWholePages { found } => {
                push_decimal(&mut out, found as u64);
                out.append(" bytes is not a whole number of ");
                push_decimal(&mut out, PAGE_SIZE as u64);
                out.append(" byte pages");
            },
            LoadError::ForeignPages { page, version } => {
                out.append("page ");
                push_decimal(&mut out, page as u64);
                out.append(" is version ");
                push_decimal(&mut out, version as u64);
                out.append(", and this build writes ");
                push_decimal(&mut out, PAGE_VERSION as u64);
            },
            LoadError::ForeignType { page, page_type } => {
                out.append("page ");
                push_decimal(&mut out, page as u64);
                out.append(" is of type ");
                push_decimal(&mut out, page_type as u64);
                out.append(", and rows are in type ");
                push_decimal(&mut out, PAGE_TYPE_DATA as u64);
            },
            LoadError::Unlinked { page } => {
                out.append("page ");
                push_decimal(&mut out, page as u64);
                out.append(" names pages that are not its neighbours");
            },
            LoadError::Overlong { page, claimed } => {
                out.append("page ");
                push_decimal(&mut out, page as u64);
                out.append(" claims a ");
                push_decimal(&mut out, claimed as u64);
                out.append(" byte body, more than a page holds");
            },
            LoadError::Corrupt { page, expected, found } => {
                out.append("page ");
                push_decimal(&mut out, page as u64);
                out.append(" checksums ");
                push_hex_word(&mut out, found);
                out.append(" and its header says ");
                push_hex_word(&mut out, expected);
            },
            LoadError::Inconsistent { page } => {
                out.append("page ");
                push_decimal(&mut out, page as u64);
                out.append(" names a different row type");
            },
            LoadError::ForeignRows { found, expected } => {
                out.append("these are row type ");
                push_hex_word(&mut out, found);
                out.append(", and this is row type ");
                push_hex_word(&mut out, expected);
            },
            LoadError::Rows { page } => {
                out.append("page ");
                push_decimal(&mut out, page as u64);
                out.append(" did not deserialize");
            },
            LoadError::RowCount { page, expected, found } => {
                out.append("page ");
                push_decimal(&mut out, page as u64);
                out.append(" promised ");
                push_decimal(&mut out, expected as u64);
                out.append(" rows and held ");
                push_decimal(&mut out, found as u64);
            },
        }
        assert(out@ =~= self.message());
        out
    }
}

impl RowTooLarge {
    /// What went wrong, in words.
    pub open spec fn message(self) -> Seq<char> {
        "row "@ + text::decimal(self.row as nat) + " archives to "@ + text::decimal(
            self.bytes as nat,
        ) + " bytes, and a page holds "@ + text::decimal(self.limit as nat)
    }

    /// What went wrong, in words.
    pub fn to_string(&self) -> (text: String)
        ensures
            text@ == self.message(),
    {
        let mut out = String::new();
        out.append("row ");
        push_decimal(&mut out, self.row as u64);
        out.append(" archives to ");
        push_decimal(&mut out, self.bytes as u64);
        out.append(" bytes, and a page holds ");
        push_decimal(&mut out, self.limit as u64);
        assert(out@ =~= self.message());
        out
    }
}

/// A read that failed, either at the transport or at the page.
///
/// The two are kept apart on purpose. A disk that would not answer and a page
/// that was not what it claimed are different problems with different fixes,
/// and collapsing them into one string loses which one happened.
#[derive(Clone, Copy, Debug, PartialEq, Eq)]
pub enum HydrateError<E> {
    /// The reader failed.
    Io(E),
    /// The reader worked and the bytes were wrong.
    Page(LoadError),
    /// The last page stopped part way through.
    ///
    /// Distinct from a bad page: this is a write that did not finish, not a
    /// page that was damaged after it did.
    Torn {
        /// Which page, counting from zero.
        page: usize,
        /// How many bytes of it arrived.
        found: usize,
    },
}

impl<E> From<LoadError> for HydrateError<E> {
    fn from(error: LoadError) -> (wrapped: Self) {
        HydrateError::Page(error)
    }
}

impl<E> FromSpecImpl<LoadError> for HydrateError<E> {
    open spec fn obeys_from_spec() -> bool {
        true
    }

    open spec fn from_spec(error: LoadError) -> Self {
        HydrateError::Page(error)
    }
}

impl<E: core::fmt::Display> HydrateError<E> {
    /// What went wrong, in words. What a reader says of its own failure is for
    /// its error to say.
    pub fn to_string(&self) -> (text: String)
        ensures
            match *self {
                HydrateError::Io(error) => exists|said: String|
                    #![auto]
                    vstd::string::to_string_from_display_ensures(&error, said) && text@
                        == "the reader failed: "@ + said@,
                HydrateError::Page(error) => text@ == error.message(),
                HydrateError::Torn { page, found } => text@ == "page "@ + text::decimal(
                    page as nat,
                ) + " stops after "@ + text::decimal(found as nat) + " of "@ + text::decimal(
                    PAGE_SIZE as nat,
                ) + " bytes"@,
            },
    {
        match self {
            HydrateError::Io(error) => {
                let said = error.to_string();
                let mut out = String::from_str("the reader failed: ");
                out.append(said.as_str());
                out
            },
            HydrateError::Page(error) => error.to_string(),
            HydrateError::Torn { page, found } => {
                let mut out = String::from_str("page ");
                push_decimal(&mut out, *page as u64);
                out.append(" stops after ");
                push_decimal(&mut out, *found as u64);
                out.append(" of ");
                push_decimal(&mut out, PAGE_SIZE as u64);
                out.append(" bytes");
                out
            },
        }
    }
}

/// A write that failed, either at the transport or at the rows.
///
/// The mirror of [`HydrateError`], and split for the same reason: a sink that
/// would not take the bytes and a row that cannot be written at all are
/// different problems.
#[derive(Clone, Copy, Debug, PartialEq, Eq)]
pub enum UnloadError<E> {
    /// The writer failed.
    Io(E),
    /// The rows could not be made into pages.
    Row(RowTooLarge),
}

impl<E> From<RowTooLarge> for UnloadError<E> {
    fn from(error: RowTooLarge) -> (wrapped: Self) {
        UnloadError::Row(error)
    }
}

impl<E> FromSpecImpl<RowTooLarge> for UnloadError<E> {
    open spec fn obeys_from_spec() -> bool {
        true
    }

    open spec fn from_spec(error: RowTooLarge) -> Self {
        UnloadError::Row(error)
    }
}

impl<E: core::fmt::Display> UnloadError<E> {
    /// What went wrong, in words. What a writer says of its own failure is for
    /// its error to say.
    pub fn to_string(&self) -> (text: String)
        ensures
            match *self {
                UnloadError::Io(error) => exists|said: String|
                    #![auto]
                    vstd::string::to_string_from_display_ensures(&error, said) && text@
                        == "the writer failed: "@ + said@,
                UnloadError::Row(error) => text@ == error.message(),
            },
    {
        match self {
            UnloadError::Io(error) => {
                let said = error.to_string();
                let mut out = String::from_str("the writer failed: ");
                out.append(said.as_str());
                out
            },
            UnloadError::Row(error) => error.to_string(),
        }
    }
}

} // verus!
