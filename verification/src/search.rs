//! The search for a lower bound in one file.
//!
//! A binary search narrows the file down to a place from which the records are then read one
//! after the other. Where the binary search stands, and how it moves, is the business of the
//! caller's searcher; the search decides which way it has to move and when it is over.

use vstd::prelude::*;
use crate::bound::{Bound, BoundView};
use crate::config::MAX_KEY_SIZE;
use crate::errors::{no_eof, without_eof, Error, ReadError};
use crate::file::{DehydratedFileReader, RecordHeader, SeekDirection};
use crate::keys::{key_order, order_keys, KeyOrder};

verus! {

/// What the caller has to do for the search to go on.
#[derive(Clone, Copy, Debug, PartialEq, Eq)]
pub enum SearchRequest {
    /// Start the searcher on the file.
    StartSearch,
    /// Move the searcher.
    Seek(SeekDirection),
    /// Read a record header.
    ReadHeader,
    /// Read the key that follows the header.
    ReadKey { len: usize },
    /// Skip the value that follows the key.
    SkipValue { len: usize },
}

/// What the caller reports to the search.
#[derive(Debug)]
pub enum SearchEvent<'e, E> {
    /// The searcher stands at `reader`. If it is not `probing`, it has come to its end.
    Sought { probing: bool, reader: DehydratedFileReader },
    /// The header was read.
    Header(RecordHeader),
    /// The key was read.
    Key(&'e [u8]),
    /// The value was skipped; the reader stands at `reader`.
    Skipped { reader: DehydratedFileReader },
    /// What was requested failed.
    Failed(ReadError<E>),
}

/// A search event as a mathematical value.
pub enum SearchEventView<E> {
    Sought { probing: bool, reader: DehydratedFileReader },
    Header(RecordHeader),
    Key(Seq<u8>),
    Skipped { reader: DehydratedFileReader },
    Failed(ReadError<E>),
}

impl<'e, E> View for SearchEvent<'e, E> {
    type V = SearchEventView<E>;

    open spec fn view(&self) -> SearchEventView<E> {
        match *self {
            SearchEvent::Sought { probing, reader } => SearchEventView::Sought { probing, reader },
            SearchEvent::Header(header) => SearchEventView::Header(header),
            SearchEvent::Key(bytes) => SearchEventView::Key(bytes@),
            SearchEvent::Skipped { reader } => SearchEventView::Skipped { reader },
            SearchEvent::Failed(error) => SearchEventView::Failed(error),
        }
    }
}

/// A search under way: what it waits for.
#[derive(Clone, Copy, Debug)]
pub enum FileSearch {
    /// The searcher to stand somewhere.
    Seeking,
    /// The header of the record at `reader`.
    AtHeader { probing: bool, reader: DehydratedFileReader },
    /// The key of that record.
    AtKey { probing: bool, reader: DehydratedFileReader, header: RecordHeader },
    /// Having skipped the record with the key of the bound, which the bound excludes.
    SkippingMatch,
    /// Having skipped a record before the bound.
    SkippingSmaller,
}

/// Answer of the search to an event.
#[derive(Debug)]
pub enum SearchStep<E> {
    /// Do this and report what came of it.
    Request(FileSearch, SearchRequest),
    /// The search is over: the reader to start from, or none if the file holds nothing for the
    /// range.
    Done(Result<Option<DehydratedFileReader>, Error<E>>),
}

impl FileSearch {
    /// The event answers what the search waits for.
    pub open spec fn accepts<E>(self, event: SearchEventView<E>) -> bool {
        match (event, self) {
            (SearchEventView::Failed(_), _) => true,
            (SearchEventView::Sought { .. }, FileSearch::Seeking) => true,
            (SearchEventView::Header(header), FileSearch::AtHeader { .. }) => header.key_len
                <= MAX_KEY_SIZE,
            (SearchEventView::Key(bytes), FileSearch::AtKey { header, .. }) => bytes.len()
                == header.key_len,
            (SearchEventView::Skipped { .. }, FileSearch::SkippingMatch) => true,
            (SearchEventView::Skipped { .. }, FileSearch::SkippingSmaller) => true,
            _ => false,
        }
    }

    /// What to do at a record with this key.
    pub open spec fn at_record<E>(
        bound: BoundView,
        probing: bool,
        reader: DehydratedFileReader,
        value_len: usize,
        key: Seq<u8>,
    ) -> SearchStep<E> {
        match key_order(key, bound.key) {
            KeyOrder::Equal => if bound.allow_equal {
                SearchStep::Done(Ok(Some(reader)))
            } else {
                SearchStep::Request(
                    FileSearch::SkippingMatch,
                    SearchRequest::SkipValue { len: value_len },
                )
            },
            KeyOrder::Less => if probing {
                SearchStep::Request(
                    FileSearch::Seeking,
                    SearchRequest::Seek(SeekDirection::Right),
                )
            } else {
                SearchStep::Request(
                    FileSearch::SkippingSmaller,
                    SearchRequest::SkipValue { len: value_len },
                )
            },
            KeyOrder::Greater => if probing {
                SearchStep::Request(FileSearch::Seeking, SearchRequest::Seek(SeekDirection::Left))
            } else {
                SearchStep::Done(Ok(Some(reader)))
            },
        }
    }

    /// What the search answers to an event.
    pub open spec fn step<E>(self, bound: BoundView, event: SearchEventView<E>) -> SearchStep<E> {
        match (event, self) {
            (SearchEventView::Failed(ReadError::Eof), FileSearch::AtHeader { .. }) => {
                SearchStep::Done(Ok(None))
            },
            (SearchEventView::Failed(error), _) => SearchStep::Done(Err(without_eof(error))),
            (SearchEventView::Sought { probing, reader }, FileSearch::Seeking) => {
                SearchStep::Request(
                    FileSearch::AtHeader { probing, reader },
                    SearchRequest::ReadHeader,
                )
            },
            (SearchEventView::Header(header), FileSearch::AtHeader { probing, reader }) => {
                SearchStep::Request(
                    FileSearch::AtKey { probing, reader, header },
                    SearchRequest::ReadKey { len: header.key_len },
                )
            },
            (SearchEventView::Key(bytes), FileSearch::AtKey { probing, reader, header }) => {
                FileSearch::at_record(bound, probing, reader, header.value_len, bytes)
            },
            (SearchEventView::Skipped { reader }, FileSearch::SkippingMatch) => SearchStep::Done(
                Ok(Some(reader)),
            ),
            (SearchEventView::Skipped { reader }, FileSearch::SkippingSmaller) => {
                SearchStep::Request(
                    FileSearch::AtHeader { probing: false, reader },
                    SearchRequest::ReadHeader,
                )
            },
            _ => arbitrary(),
        }
    }

    /// Whether [`FileSearch::search_lower_bound_file`] may be called with this event.
    pub fn accepts_event<E>(&self, event: &SearchEvent<'_, E>) -> (ok: bool)
        ensures
            ok == self.accepts(event@),
    {
        match event {
            SearchEvent::Failed(_) => true,
            SearchEvent::Sought { .. } => matches!(*self, FileSearch::Seeking),
            SearchEvent::Header(header) => matches!(*self, FileSearch::AtHeader { .. })
                && header.key_len <= MAX_KEY_SIZE,
            SearchEvent::Key(bytes) => match self {
                FileSearch::AtKey { header, .. } => bytes.len() == header.key_len,
                _ => false,
            },
            SearchEvent::Skipped { .. } => match self {
                FileSearch::SkippingMatch | FileSearch::SkippingSmaller => true,
                _ => false,
            },
        }
    }

    /// Searches a file for the first record that the lower bound admits.
    ///
    /// The search begins with [`FileSearch::Seeking`] and the request
    /// [`SearchRequest::StartSearch`]. Each event reports what came of the step before.
    pub fn search_lower_bound_file<E>(
        self,
        bound: &Bound<'_>,
        event: SearchEvent<'_, E>,
    ) -> (step: SearchStep<E>)
        requires
            self.accepts(event@),
        ensures
            step == self.step(bound@, event@),
    {
        match event {
            SearchEvent::Failed(error) => {
                match (&error, self) {
                    // Not found.
                    (ReadError::Eof, FileSearch::AtHeader { .. }) => SearchStep::Done(Ok(None)),
                    _ => SearchStep::Done(Err(no_eof(error))),
                }
            },
            SearchEvent::Sought { probing, reader } => SearchStep::Request(
                FileSearch::AtHeader { probing, reader },
                SearchRequest::ReadHeader,
            ),
            SearchEvent::Header(header) => {
                match self {
                    FileSearch::AtHeader { probing, reader } => SearchStep::Request(
                        FileSearch::AtKey { probing, reader, header },
                        SearchRequest::ReadKey { len: header.key_len },
                    ),
                    _ => vstd::pervasive::unreached(),
                }
            },
            SearchEvent::Key(bytes) => {
                match self {
                    FileSearch::AtKey { probing, reader, header } => {
                        // Found?
                        let dir = match order_keys(bytes, bound.key) {
                            KeyOrder::Equal => {
                                // If equal is allowed, return it.
                                if bound.allow_equal {
                                    return SearchStep::Done(Ok(Some(reader)));
                                }
                                // Otherwise return the next key.
                                return SearchStep::Request(
                                    FileSearch::SkippingMatch,
                                    SearchRequest::SkipValue { len: header.value_len },
                                );
                            },
                            KeyOrder::Less => SeekDirection::Right,
                            KeyOrder::Greater => SeekDirection::Left,
                        };
                        if probing {
                            // Not found, do a binary search step.
                            return SearchStep::Request(
                                FileSearch::Seeking,
                                SearchRequest::Seek(dir),
                            );
                        }
                        match dir {
                            // Keep going.
                            SeekDirection::Right => SearchStep::Request(
                                FileSearch::SkippingSmaller,
                                SearchRequest::SkipValue { len: header.value_len },
                            ),
                            // Done.
                            SeekDirection::Left => SearchStep::Done(Ok(Some(reader))),
                        }
                    },
                    _ => vstd::pervasive::unreached(),
                }
            },
            SearchEvent::Skipped { reader } => {
                match self {
                    FileSearch::SkippingMatch => SearchStep::Done(Ok(Some(reader))),
                    _ => SearchStep::Request(
                        FileSearch::AtHeader { probing: false, reader },
                        SearchRequest::ReadHeader,
                    ),
                }
            },
        }
    }
}

} // verus!
