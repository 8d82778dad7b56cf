//! Pages that arrive in pieces.
//!
//! What reads the pieces is not here: a caller reads as many bytes as
//! [`PageStream::room`] says at most, hands over what came with
//! [`PageStream::take`], and calls [`PageStream::finish`] at the end of input.
//! Only one page is held at a time, which is the other half of why pages stand
//! alone: a reader that had to see the last page before trusting the first
//! could not stream at all.

use vstd::prelude::*;

use crate::hydrate::codec::{self, fingerprint, Codec, RowView};
use crate::hydrate::error::{HydrateError, LoadError};
use crate::hydrate::page::{self, PAGE_SIZE};
use crate::hydrate::unpack::{self, page_rows};

verus! {

/// What a stream of these bytes gives, for a row type with this fingerprint:
/// the first thing wrong with a page; else a page that stops part way; else
/// what a load gives.
pub open spec fn stream_outcome<K: Codec<V>, V: DeepView, E>(
    bytes: Seq<u8>,
    expected: u32,
) -> Result<Seq<RowView<K, V>>, HydrateError<E>> {
    let pages = unpack::page_count(bytes.len() as int);
    match unpack::run_outcome::<K, V>(bytes, 0, None) {
        Err(error) => Err(HydrateError::Page(error)),
        Ok(rows) => if !unpack::whole_pages(bytes.len() as int) {
            Err(
                HydrateError::Torn {
                    page: pages as usize,
                    found: (bytes.len() - PAGE_SIZE * pages) as usize,
                },
            )
        } else {
            match unpack::load_outcome::<K, V>(bytes, expected) {
                Ok(found) => Ok(found),
                Err(error) => Err(HydrateError::Page(error)),
            }
        },
    }
}

/// Whole pages give the same rows, or the same refusal, whether they are
/// streamed or loaded; and no bytes at all are refused the same way too.
pub proof fn law_a_stream_reads_what_a_load_reads<K: Codec<V>, V: DeepView, E>(
    bytes: Seq<u8>,
    expected: u32,
)
    requires
        unpack::whole_pages(bytes.len() as int),
    ensures
        stream_outcome::<K, V, E>(bytes, expected) == match unpack::load_outcome::<K, V>(
            bytes,
            expected,
        ) {
            Ok(rows) => Ok::<Seq<RowView<K, V>>, HydrateError<E>>(rows),
            Err(error) => Err(HydrateError::Page(error)),
        },
{
}

/// A last page that stops part way is torn, whatever it holds: it is neither
/// read as a page nor left out.
pub proof fn law_a_half_written_page_is_torn<K: Codec<V>, V: DeepView, E>(
    pages: Seq<u8>,
    part: Seq<u8>,
    expected: u32,
)
    requires
        unpack::load_outcome::<K, V>(pages, expected) is Ok,
        0 < part.len() < PAGE_SIZE,
    ensures
        stream_outcome::<K, V, E>(pages + part, expected) == Err::<
            Seq<RowView<K, V>>,
            HydrateError<E>,
        >(
            HydrateError::Torn {
                page: unpack::page_count(pages.len() as int) as usize,
                found: part.len() as usize,
            },
        ),
{
    let rows = unpack::load_outcome::<K, V>(pages, expected)->Ok_0;
    unpack::lemma_run_append::<K, V>(pages, part, 0, None, rows);
    unpack::lemma_part_of_a_page(pages.len() as int, part.len() as int);
}

/// What a stream gives whose bytes arrive in these pieces, behind what has
/// arrived: each piece is taken, up to the first that completes a page that is
/// refused, and the end of input comes behind the last.
pub open spec fn pieces_outcome<K: Codec<V>, V: DeepView, E>(
    taken: Seq<u8>,
    pieces: Seq<Seq<u8>>,
    expected: u32,
) -> Result<Seq<RowView<K, V>>, HydrateError<E>>
    decreases pieces.len(),
{
    if pieces.len() == 0 {
        stream_outcome::<K, V, E>(taken, expected)
    } else {
        match unpack::run_outcome::<K, V>(taken + pieces.first(), 0, None) {
            Err(error) => Err(HydrateError::Page(error)),
            Ok(_) => pieces_outcome::<K, V, E>(
                taken + pieces.first(),
                pieces.drop_first(),
                expected,
            ),
        }
    }
}

/// How bytes are cut into pieces makes no difference: a stream gives of any
/// pieces what it gives of the bytes that they make up, the first refused page
/// and all.
pub proof fn law_the_sizes_of_reads_make_no_difference<K: Codec<V>, V: DeepView, E>(
    taken: Seq<u8>,
    pieces: Seq<Seq<u8>>,
    expected: u32,
)
    ensures
        pieces_outcome::<K, V, E>(taken, pieces, expected) == stream_outcome::<K, V, E>(
            taken + pieces.flatten(),
            expected,
        ),
    decreases pieces.len(),
{
    if pieces.len() == 0 {
        assert(taken + pieces.flatten() =~= taken);
    } else {
        let rest = pieces.drop_first();
        let more = taken + pieces.first();
        assert(taken + pieces.flatten() =~= more + rest.flatten());
        if unpack::run_outcome::<K, V>(more, 0, None) is Err {
            unpack::lemma_refused_so_far::<K, V>(more, rest.flatten(), 0, None);
        } else {
            law_the_sizes_of_reads_make_no_difference::<K, V, E>(more, rest, expected);
        }
    }
}

/// The reading end of a stream of pages.
pub struct PageStream<K, V> {
    /// What has arrived of the page that is not complete yet.
    part: Vec<u8>,
    /// How many pages are complete.
    pages: usize,
    /// The row type that the first page names.
    schema: Option<u32>,
    rows: Vec<(K, V)>,
    /// The complete pages.
    read: Ghost<Seq<u8>>,
}

impl<K: Codec<V>, V: DeepView> PageStream<K, V> {
    /// Everything that has arrived.
    pub closed spec fn taken(self) -> Seq<u8> {
        self.read@ + self.part@
    }

    /// How many pages are complete.
    pub closed spec fn complete(self) -> int {
        self.pages as int
    }

    /// The rows are those of the pages that are complete.
    pub closed spec fn wf(self) -> bool {
        &&& self.part@.len() < PAGE_SIZE
        &&& unpack::whole_pages(self.read@.len() as int)
        &&& unpack::page_count(self.read@.len() as int) == self.pages
        &&& unpack::run_outcome::<K, V>(self.read@, 0, None) == Ok::<
            Seq<RowView<K, V>>,
            LoadError,
        >(self.rows.deep_view())
        &&& self.schema == if self.read@.len() == 0 {
            None
        } else {
            Some(page::header_at(self.read@).schema)
        }
    }

    /// A stream that nothing has arrived of.
    pub fn new() -> (stream: Self)
        ensures
            stream.wf(),
            stream.taken() == Seq::<u8>::empty(),
            stream.complete() == 0,
    {
        proof {
            unpack::lemma_no_pages();
        }
        let stream = PageStream {
            part: Vec::new(),
            pages: 0,
            schema: None,
            rows: Vec::new(),
            read: Ghost(Seq::empty()),
        };
        assert(stream.rows.deep_view() =~= Seq::empty());
        assert(stream.taken() =~= Seq::empty());
        stream
    }

    /// How many pages are complete.
    pub fn pages(&self) -> (pages: usize)
        ensures
            pages == self.complete(),
    {
        self.pages
    }

    /// How many bytes the page that is not complete yet still takes: at least
    /// one, and never so many that they would reach into the next page.
    pub fn room(&self) -> (room: usize)
        requires
            self.wf(),
        ensures
            0 < room <= PAGE_SIZE,
            room == PAGE_SIZE - (self.taken().len() - PAGE_SIZE * self.complete()),
    {
        proof {
            self.lemma_part_is_the_rest();
        }
        PAGE_SIZE - self.part.len()
    }

    proof fn lemma_part_is_the_rest(self)
        requires
            self.wf(),
        ensures
            self.part@.len() == self.taken().len() - PAGE_SIZE * self.complete(),
            unpack::page_count(self.taken().len() as int) == self.complete(),
            unpack::whole_pages(self.taken().len() as int) == (self.part@.len() == 0),
    {
        if self.part@.len() > 0 {
            unpack::lemma_part_of_a_page(self.read@.len() as int, self.part@.len() as int);
        } else {
            unpack::lemma_pages_times_size(self.read@.len() as int);
        }
        assert(self.taken().len() == self.read@.len() + self.part@.len());
    }

    /// Take what arrived.
    ///
    /// # Errors
    ///
    /// The page that it completes is refused, and with it everything that a
    /// stream of these bytes could go on with.
    pub fn take(&mut self, chunk: &[u8]) -> (taken: Result<(), LoadError>)
        requires
            old(self).wf(),
            chunk@.len() <= PAGE_SIZE - (old(self).taken().len() - PAGE_SIZE * old(
                self,
            ).complete()),
            old(self).complete() < usize::MAX,
        ensures
            match unpack::run_outcome::<K, V>(old(self).taken() + chunk@, 0, None) {
                Ok(_) => {
                    &&& taken is Ok
                    &&& final(self).wf()
                    &&& final(self).taken() == old(self).taken() + chunk@
                },
                Err(error) => taken == Err::<(), LoadError>(error),
            },
    {
        proof {
            self.lemma_part_is_the_rest();
        }
        self.part.extend_from_slice(chunk);
        assert(self.part@ =~= old(self).part@ + chunk@);
        assert(old(self).taken() + chunk@ =~= self.read@ + self.part@);
        proof {
            unpack::lemma_run_append::<K, V>(
                self.read@,
                self.part@,
                0,
                None,
                self.rows.deep_view(),
            );
        }
        if self.part.len() < PAGE_SIZE {
            return Ok(());
        }
        let ghost before = self.read@;
        let ghost raw = self.part@;
        let ghost held = self.rows;
        let ghost named = self.schema;
        proof {
            unpack::lemma_run_of_one_page::<K, V>(raw, self.pages as int, named);
            unpack::lemma_one_page_more(before.len() as int);
        }
        let mut rows = match page_rows(self.part.as_slice(), self.pages, &mut self.schema) {
            Ok(rows) => rows,
            Err(error) => {
                return Err(error);
            },
        };
        let ghost more = rows;
        self.rows.append(&mut rows);
        self.pages = self.pages + 1;
        self.read = Ghost(before + raw);
        self.part = Vec::new();
        proof {
            unpack::lemma_deep_append(held, more, self.rows);
            unpack::lemma_page_names_its_type::<K, V>(raw, old(self).pages as int, named);
            if before.len() == 0 {
                assert(before + raw =~= raw);
            } else {
                unpack::lemma_one_page_less(before.len() as int);
                unpack::lemma_header_of_run(before, raw);
            }
            assert(self.taken() =~= old(self).taken() + chunk@);
        }
        Ok(())
    }

    /// The rows, at the end of input.
    ///
    /// # Errors
    ///
    /// A page that stops part way, no page at all, or another row type.
    pub fn finish<E>(self) -> (rows: Result<Vec<(K, V)>, HydrateError<E>>)
        requires
            self.wf(),
        ensures
            match stream_outcome::<K, V, E>(self.taken(), codec::row_schema::<K, V>()) {
                Ok(found) => rows matches Ok(held) && held.deep_view() == found,
                Err(error) => rows == Err::<Vec<(K, V)>, HydrateError<E>>(error),
            },
    {
        proof {
            self.lemma_part_is_the_rest();
            unpack::lemma_run_append::<K, V>(
                self.read@,
                self.part@,
                0,
                None,
                self.rows.deep_view(),
            );
            assert(self.rows.deep_view() + Seq::empty() =~= self.rows.deep_view());
        }
        if self.part.len() > 0 {
            return Err(HydrateError::Torn { page: self.pages, found: self.part.len() });
        }
        assert(self.taken() =~= self.read@);
        match self.schema {
            None => Err(HydrateError::Page(LoadError::NotWholePages { found: 0 })),
            Some(found) => {
                let expected = fingerprint::<K, V>();
                if found != expected {
                    Err(HydrateError::Page(LoadError::ForeignRows { found, expected }))
                } else {
                    Ok(self.rows)
                }
            },
        }
    }
}

} // verus!
