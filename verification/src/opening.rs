//! Opening a cursor: finds, in every file, the reader to start from.

use vstd::prelude::*;
use crate::bound::{bound_view, Bound, BoundView};
use crate::config::{FileID, FILE_COUNT};
use crate::cursor::{Cursor, CursorState};
use crate::errors::{without_eof, Error};
use crate::file::DehydratedFileReader;
use crate::inline_vec::{
    new_readers, push_reader, reader_contents, readers_into_array, InlineReaders,
};
use crate::search::{FileSearch, SearchEvent, SearchEventView, SearchRequest, SearchStep};

verus! {

/// What the caller has to do for the opening to go on.
#[derive(Clone, Copy, Debug, PartialEq, Eq)]
pub enum OpenRequest {
    /// Remount the files if they are dirty.
    Remount,
    /// Make a reader of the file, at its start, and put it aside.
    Open { file: FileID },
    /// Do this for the search in the file.
    Search { file: FileID, request: SearchRequest },
}

/// What the caller reports to the opening.
#[derive(Debug)]
pub enum OpenEvent<'e, E> {
    /// The files are mounted.
    Remounted,
    /// Mounting the files failed.
    Failed(Error<E>),
    /// The reader stands at the start of the file.
    Opened { reader: DehydratedFileReader },
    /// What the search asked for.
    Search(SearchEvent<'e, E>),
}

/// An event of an opening as a mathematical value.
pub enum OpenEventView<E> {
    Remounted,
    Failed(Error<E>),
    Opened { reader: DehydratedFileReader },
    Search(SearchEventView<E>),
}

impl<'e, E> View for OpenEvent<'e, E> {
    type V = OpenEventView<E>;

    open spec fn view(&self) -> OpenEventView<E> {
        match *self {
            OpenEvent::Remounted => OpenEventView::Remounted,
            OpenEvent::Failed(error) => OpenEventView::Failed(error),
            OpenEvent::Opened { reader } => OpenEventView::Opened { reader },
            OpenEvent::Search(event) => OpenEventView::Search(event@),
        }
    }
}

/// What an opening waits for.
#[derive(Clone, Copy, Debug)]
pub enum OpenPhase {
    /// The files to be mounted.
    Remounting,
    /// The reader of the next file.
    Opening,
    /// What the search in the next file waits for.
    Searching(FileSearch),
}

/// A cursor being opened.
pub struct Opening<'a, 'b> {
    lower_bound: Option<Bound<'b>>,
    upper_bound: Option<Bound<'a>>,
    readers: InlineReaders,
    /// The file at hand: the number of readers.
    file: usize,
    phase: OpenPhase,
}

/// A cursor being opened, as a mathematical value.
#[verifier::ext_equal]
pub struct OpeningState {
    pub lower: Option<BoundView>,
    pub upper: Option<BoundView>,
    /// The readers of the files that are done, the oldest file first.
    pub readers: Seq<Option<DehydratedFileReader>>,
    pub phase: OpenPhase,
}

/// How far the opening of a cursor has come.
pub enum OpenProgress<'a, 'b, E> {
    /// Do this and report what came of it.
    Pending(Opening<'a, 'b>, OpenRequest),
    /// The opening is over.
    Done(Result<Cursor<'a>, Error<E>>),
}

/// The progress of an opening as a mathematical value.
#[verifier::ext_equal]
pub enum OpenProgressView<E> {
    Pending(OpeningState, OpenRequest),
    Done(Result<CursorState, Error<E>>),
}

impl<'a, 'b, E> View for OpenProgress<'a, 'b, E> {
    type V = OpenProgressView<E>;

    open spec fn view(&self) -> OpenProgressView<E> {
        match *self {
            OpenProgress::Pending(opening, request) => OpenProgressView::Pending(opening@, request),
            OpenProgress::Done(Ok(cursor)) => OpenProgressView::Done(Ok(cursor@)),
            OpenProgress::Done(Err(error)) => OpenProgressView::Done(Err(error)),
        }
    }
}

impl<'a, 'b, E> OpenProgress<'a, 'b, E> {
    /// What the opening has come to can be worked with.
    pub open spec fn wf(self) -> bool {
        match self {
            OpenProgress::Pending(opening, _) => opening.wf() && opening@.wf(),
            OpenProgress::Done(Ok(cursor)) => cursor@.wf(),
            OpenProgress::Done(Err(_)) => true,
        }
    }
}

impl OpeningState {
    /// The opening of a cursor for a range.
    pub open spec fn start(lower: Option<BoundView>, upper: Option<BoundView>) -> OpeningState {
        OpeningState { lower, upper, readers: Seq::empty(), phase: OpenPhase::Remounting }
    }

    /// The phase fits the lower bound, and some file is left to be opened.
    pub open spec fn wf(self) -> bool {
        &&& self.readers.len() < FILE_COUNT
        &&& match self.phase {
            OpenPhase::Remounting => self.readers.len() == 0,
            OpenPhase::Opening => self.lower is None,
            OpenPhase::Searching(_) => self.lower is Some,
        }
    }

    /// The event answers what the opening waits for.
    pub open spec fn accepts<E>(self, event: OpenEventView<E>) -> bool {
        match (event, self.phase) {
            (OpenEventView::Remounted, OpenPhase::Remounting) => true,
            (OpenEventView::Failed(_), OpenPhase::Remounting) => true,
            (OpenEventView::Opened { .. }, OpenPhase::Opening) => true,
            (OpenEventView::Search(event), OpenPhase::Searching(search)) => search.accepts(event),
            _ => false,
        }
    }

    /// Go on with the next file, or end with the cursor behind the last one.
    pub open spec fn next_file<E>(self) -> OpenProgressView<E> {
        let file = self.readers.len() as FileID;
        if self.readers.len() >= FILE_COUNT {
            OpenProgressView::Done(Ok(CursorState::fresh(self.upper, self.readers)))
        } else if self.lower is None {
            OpenProgressView::Pending(
                OpeningState { phase: OpenPhase::Opening, ..self },
                OpenRequest::Open { file },
            )
        } else {
            OpenProgressView::Pending(
                OpeningState { phase: OpenPhase::Searching(FileSearch::Seeking), ..self },
                OpenRequest::Search { file, request: SearchRequest::StartSearch },
            )
        }
    }

    /// The opening after the file at hand got this reader.
    pub open spec fn with_reader(self, reader: Option<DehydratedFileReader>) -> OpeningState {
        OpeningState { readers: self.readers.push(reader), ..self }
    }

    /// What the opening comes to with an event.
    pub open spec fn step<E>(self, event: OpenEventView<E>) -> OpenProgressView<E> {
        match (event, self.phase) {
            (OpenEventView::Remounted, OpenPhase::Remounting) => self.next_file(),
            (OpenEventView::Failed(error), OpenPhase::Remounting) => OpenProgressView::Done(
                Err(error),
            ),
            (OpenEventView::Opened { reader }, OpenPhase::Opening) => self.with_reader(
                Some(reader),
            ).next_file(),
            (OpenEventView::Search(event), OpenPhase::Searching(search)) => match search.step(
                self.lower->0,
                event,
            ) {
                SearchStep::Request(search, request) => OpenProgressView::Pending(
                    OpeningState { phase: OpenPhase::Searching(search), ..self },
                    OpenRequest::Search { file: self.readers.len() as FileID, request },
                ),
                SearchStep::Done(Ok(reader)) => self.with_reader(reader).next_file(),
                SearchStep::Done(Err(error)) => OpenProgressView::Done(Err(error)),
            },
            _ => arbitrary(),
        }
    }
}

impl<'a, 'b> View for Opening<'a, 'b> {
    type V = OpeningState;

    closed spec fn view(&self) -> OpeningState {
        OpeningState {
            lower: bound_view(self.lower_bound),
            upper: bound_view(self.upper_bound),
            readers: reader_contents(self.readers),
            phase: self.phase,
        }
    }
}

impl<'a> Cursor<'a> {
    /// Begins to open a cursor for the entries between two bounds.
    pub fn new<'b, E>(
        lower_bound: Option<Bound<'b>>,
        upper_bound: Option<Bound<'a>>,
    ) -> (progress: OpenProgress<'a, 'b, E>)
        ensures
            progress.wf(),
            progress@ == OpenProgressView::<E>::Pending(
                OpeningState::start(bound_view(lower_bound), bound_view(upper_bound)),
                OpenRequest::Remount,
            ),
    {
        let opening = Opening {
            lower_bound,
            upper_bound,
            readers: new_readers(),
            file: 0,
            phase: OpenPhase::Remounting,
        };
        OpenProgress::Pending(opening, OpenRequest::Remount)
    }
}

impl<'a, 'b> Opening<'a, 'b> {
    /// The opening is well-formed.
    pub closed spec fn wf(self) -> bool {
        &&& self@.wf()
        &&& self.file == self@.readers.len()
    }

    /// Whether [`Opening::step`] may be called with this event.
    pub fn accepts<E>(&self, event: &OpenEvent<'_, E>) -> (ok: bool)
        ensures
            ok == self@.accepts(event@),
    {
        match event {
            OpenEvent::Remounted => matches!(self.phase, OpenPhase::Remounting),
            OpenEvent::Failed(_) => matches!(self.phase, OpenPhase::Remounting),
            OpenEvent::Opened { .. } => matches!(self.phase, OpenPhase::Opening),
            OpenEvent::Search(event) => match &self.phase {
                OpenPhase::Searching(search) => search.accepts_event(event),
                _ => false,
            },
        }
    }

    /// Goes on with the next file.
    fn next_file<E>(self) -> (progress: OpenProgress<'a, 'b, E>)
        requires
            self.file == self@.readers.len(),
            self.file <= FILE_COUNT,
        ensures
            progress.wf(),
            progress@ == self@.next_file::<E>(),
    {
        if self.file < FILE_COUNT {
            let file = self.file as FileID;
            if self.lower_bound.is_none() {
                OpenProgress::Pending(
                    Opening { phase: OpenPhase::Opening, ..self },
                    OpenRequest::Open { file },
                )
            } else {
                OpenProgress::Pending(
                    Opening { phase: OpenPhase::Searching(FileSearch::Seeking), ..self },
                    OpenRequest::Search { file, request: SearchRequest::StartSearch },
                )
            }
        } else {
            match readers_into_array(self.readers) {
                Ok(readers) => OpenProgress::Done(
                    Ok(Cursor::from_readers(self.upper_bound, readers)),
                ),
                Err(_) => vstd::pervasive::unreached(),
            }
        }
    }

    /// Goes on with the next file, the file at hand being read from `reader`.
    fn file_done<E>(
        self,
        reader: Option<DehydratedFileReader>,
    ) -> (progress: OpenProgress<'a, 'b, E>)
        requires
            self.wf(),
        ensures
            progress.wf(),
            progress@ == self@.with_reader(reader).next_file::<E>(),
    {
        let mut readers = self.readers;
        let _ = push_reader(&mut readers, reader);
        let opening = Opening { readers, file: self.file + 1, ..self };
        opening.next_file()
    }

    /// Goes on with the opening after an event.
    pub fn step<E>(self, event: OpenEvent<'_, E>) -> (progress: OpenProgress<'a, 'b, E>)
        requires
            self.wf(),
            self@.accepts(event@),
        ensures
            progress.wf(),
            progress@ == self@.step(event@),
    {
        match event {
            OpenEvent::Remounted => self.next_file(),
            OpenEvent::Failed(error) => OpenProgress::Done(Err(error)),
            OpenEvent::Opened { reader } => self.file_done(Some(reader)),
            OpenEvent::Search(event) => {
                match (&self.lower_bound, self.phase) {
                    (Some(bound), OpenPhase::Searching(search)) => {
                        match search.search_lower_bound_file(bound, event) {
                            SearchStep::Request(search, request) => {
                                let file = self.file as FileID;
                                OpenProgress::Pending(
                                    Opening { phase: OpenPhase::Searching(search), ..self },
                                    OpenRequest::Search { file, request },
                                )
                            },
                            SearchStep::Done(Ok(reader)) => self.file_done(reader),
                            SearchStep::Done(Err(error)) => OpenProgress::Done(Err(error)),
                        }
                    },
                    _ => vstd::pervasive::unreached(),
                }
            },
        }
    }
}

/// The event makes the opening fail with `error`.
pub open spec fn opening_failure<E>(
    opening: OpeningState,
    event: OpenEventView<E>,
    error: Error<E>,
) -> bool {
    match event {
        OpenEventView::Failed(failure) => error == failure,
        OpenEventView::Search(SearchEventView::Failed(failure)) => {
            &&& error == without_eof(failure)
            &&& !(failure is Eof && opening.phase matches OpenPhase::Searching(
                FileSearch::AtHeader { .. },
            ))
        },
        _ => false,
    }
}

/// An opening fails exactly where mounting fails or what a search asked for fails, but for an end of
/// file where the search reads a header; and it fails with that error.
pub proof fn law_opening_fails_with_its_request<E>(opening: OpeningState, event: OpenEventView<E>)
    requires
        opening.wf(),
        opening.accepts(event),
    ensures
        forall|error: Error<E>|
            opening.step(event) == OpenProgressView::<E>::Done(Err(error)) <==> #[trigger]
            opening_failure(opening, event, error),
{
}

} // verus!
