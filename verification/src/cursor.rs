//! The cursor of a range read: merges the files of the store in key order.
//!
//! Every file holds records in ascending key order, and a newer file hides what an older one says
//! of the same key. The cursor keeps one saved reader per file. A call for the next entry runs in
//! rounds. A round looks at the record that each reader stands at, finds the lowest key among
//! them, and moves every reader that stands at that key past its record. The record of the newest
//! file decides: its value is the next entry, or, where it marks the key as deleted, another round
//! follows.
//!
//! Reading is left to the caller. [`Cursor::next`] answers each event with what is to be done
//! next; the caller does it and reports what came of it with the next event.

use vstd::prelude::*;
use crate::bound::{bound_view, is_past_upper, within_upper, Bound, BoundView};
use crate::config::{FILE_COUNT, MAX_KEY_SIZE};
use crate::errors::{as_cursor_error, no_eof, without_eof, CursorError, ReadError};
use crate::file::{DehydratedFileReader, RecordHeader};
use crate::inline_vec::{key_as_slice, key_contents, key_from_slice, InlineKey};
use crate::keys::{key_order, order_keys, KeyOrder};

verus! {

/// What the caller has to do for the cursor to go on.
#[derive(Clone, Copy, Debug, PartialEq, Eq)]
pub enum Request {
    /// Rehydrate the reader and read a record header with it.
    ReadHeader { reader: DehydratedFileReader },
    /// Read the key that follows the header.
    ReadKey { len: usize },
    /// Skip the key that follows the header.
    SkipKey { len: usize },
    /// Read the value that follows the key, and put the reader aside.
    ReadValue { len: usize },
    /// Skip the value that follows the key, and put the reader aside.
    SkipValue { len: usize },
}

/// Answer of the cursor to an event.
#[derive(Debug, PartialEq, Eq)]
pub enum Step<E> {
    /// Do this and report what came of it.
    Request(Request),
    /// The call is over. `Ok(Some((key_len, value_len)))`: the next entry is in the buffers.
    /// `Ok(None)`: there is no further entry.
    Done(Result<Option<(usize, usize)>, CursorError<E>>),
}

/// What the caller reports to the cursor.
#[derive(Debug)]
pub enum Event<'e, E> {
    /// The next entry is wanted.
    Start,
    /// The header was read.
    Header(RecordHeader),
    /// The key was read.
    Key(&'e [u8]),
    /// The key was skipped.
    Skipped,
    /// The value was read; the reader stands behind it.
    Value { bytes: &'e [u8], reader: DehydratedFileReader },
    /// The value was skipped; the reader stands behind it.
    Advanced { reader: DehydratedFileReader },
    /// What was requested failed.
    Failed(ReadError<E>),
}

/// An event as a mathematical value.
pub enum EventView<E> {
    Start,
    Header(RecordHeader),
    Key(Seq<u8>),
    Skipped,
    Value { bytes: Seq<u8>, reader: DehydratedFileReader },
    Advanced { reader: DehydratedFileReader },
    Failed(ReadError<E>),
}

impl<'e, E> View for Event<'e, E> {
    type V = EventView<E>;

    open spec fn view(&self) -> EventView<E> {
        match *self {
            Event::Start => EventView::Start,
            Event::Header(header) => EventView::Header(header),
            Event::Key(bytes) => EventView::Key(bytes@),
            Event::Skipped => EventView::Skipped,
            Event::Value { bytes, reader } => EventView::Value { bytes: bytes@, reader },
            Event::Advanced { reader } => EventView::Advanced { reader },
            Event::Failed(error) => EventView::Failed(error),
        }
    }
}

/// What a cursor waits for.
#[derive(Clone, Copy, Debug)]
pub enum Phase {
    /// No call is under way.
    Idle,
    /// The header of the record that the reader of `file` stands at.
    ScanHeader { file: usize },
    /// The key of that record.
    ScanKey { file: usize, header: RecordHeader },
    /// The header of the record with the lowest key in `file`.
    AdvanceHeader { file: usize },
    /// Having skipped the key of that record.
    AdvanceKey { file: usize, header: RecordHeader },
    /// Having read (`take`) or skipped its value.
    AdvanceValue { file: usize, header: RecordHeader, take: bool },
}

/// Cursor for a range read.
pub struct Cursor<'a> {
    upper_bound: Option<Bound<'a>>,
    readers: [Option<DehydratedFileReader>; FILE_COUNT],
    phase: Phase,
    lowest_key: Option<InlineKey>,
    is_lowest: [bool; FILE_COUNT],
    is_highest_file: bool,
    result: Option<(usize, usize)>,
}

/// A cursor as a mathematical value.
#[verifier::ext_equal]
pub struct CursorState {
    /// The upper bound of the range.
    pub upper: Option<BoundView>,
    /// The reader of each file; none where the file has nothing more within the range.
    pub readers: Seq<Option<DehydratedFileReader>>,
    /// What the cursor waits for.
    pub phase: Phase,
    /// The lowest key that this round has met.
    pub lowest: Option<Seq<u8>>,
    /// The files whose reader stands, or stood before this round moved it, at that key.
    pub is_lowest: Seq<bool>,
    /// No file has told yet what it holds for that key.
    pub is_highest_file: bool,
    /// The lengths of the key and the value that this round has put into the buffers.
    pub result: Option<(usize, usize)>,
}

/// A cursor, the contents of the caller's buffers, and the latest answer.
#[verifier::ext_equal]
pub struct Turn<E> {
    pub cursor: CursorState,
    pub key: Seq<u8>,
    pub value: Seq<u8>,
    pub step: Step<E>,
}

/// The first file at or after `from` that has a reader; the number of files if there is none.
pub open spec fn next_reader(readers: Seq<Option<DehydratedFileReader>>, from: int) -> int
    decreases readers.len() - from,
{
    if from < 0 || from >= readers.len() {
        readers.len() as int
    } else if readers[from] is Some {
        from
    } else {
        next_reader(readers, from + 1)
    }
}

/// The last file below `below` that is marked; `-1` if there is none.
pub open spec fn last_marked(marks: Seq<bool>, below: int) -> int
    decreases below,
{
    if below <= 0 {
        -1
    } else if marks[below - 1] {
        below - 1
    } else {
        last_marked(marks, below - 1)
    }
}

/// `buffer` with `bytes` written over its start.
pub open spec fn overwrite(buffer: Seq<u8>, bytes: Seq<u8>) -> Seq<u8> {
    bytes + buffer.skip(bytes.len() as int)
}

impl CursorState {
    /// A cursor that no call has touched yet.
    pub open spec fn fresh(
        upper: Option<BoundView>,
        readers: Seq<Option<DehydratedFileReader>>,
    ) -> CursorState {
        CursorState {
            upper,
            readers,
            phase: Phase::Idle,
            lowest: None,
            is_lowest: Seq::new(FILE_COUNT as nat, |i: int| false),
            is_highest_file: true,
            result: None,
        }
    }

    /// The marks and the reader slots fit the phase.
    pub open spec fn wf(self) -> bool {
        &&& self.readers.len() == FILE_COUNT
        &&& self.is_lowest.len() == FILE_COUNT
        &&& match self.phase {
            Phase::Idle => true,
            Phase::ScanHeader { file } | Phase::ScanKey { file, .. } => {
                &&& file < FILE_COUNT
                &&& self.readers[file as int] is Some
                &&& self.phase matches Phase::ScanKey { header, .. } ==> header.key_len <= MAX_KEY_SIZE
                &&& self.is_highest_file
                &&& self.result is None
                &&& self.lowest is None ==> forall|i: int|
                    0 <= i < file ==> (#[trigger] self.readers[i]) is None
                &&& forall|i: int|
                    0 <= i < FILE_COUNT && #[trigger] self.is_lowest[i] ==> i < file
                        && self.readers[i] is Some
            },
            Phase::AdvanceHeader { file } | Phase::AdvanceKey { file, .. }
            | Phase::AdvanceValue { file, .. } => {
                &&& file < FILE_COUNT
                &&& self.is_lowest[file as int]
                &&& self.lowest is Some
                &&& forall|i: int|
                    0 <= i <= file && #[trigger] self.is_lowest[i] ==> self.readers[i] is Some
            },
        }
    }

    /// The lengths already promised to the caller fit buffers of these lengths.
    pub open spec fn fits(self, key_cap: nat, value_cap: nat) -> bool {
        self.result matches Some((key_len, value_len)) ==> key_len <= key_cap && value_len
            <= value_cap
    }

    /// The event answers what the cursor waits for, with buffers of these lengths.
    pub open spec fn accepts<E>(self, event: EventView<E>, key_cap: nat, value_cap: nat) -> bool {
        match (event, self.phase) {
            (EventView::Start, _) => true,
            (_, Phase::Idle) => false,
            (EventView::Failed(_), _) => self.fits(key_cap, value_cap),
            (EventView::Header(header), Phase::ScanHeader { .. }) => header.key_len <= MAX_KEY_SIZE,
            (EventView::Key(bytes), Phase::ScanKey { header, .. }) => bytes.len() == header.key_len,
            (EventView::Header(_), Phase::AdvanceHeader { .. }) => self.fits(key_cap, value_cap),
            (EventView::Skipped, Phase::AdvanceKey { header, .. }) => {
                &&& self.fits(key_cap, value_cap)
                &&& self.is_highest_file && !header.is_delete && header.key_len <= key_cap
                    && header.value_len <= value_cap ==> header.key_len == self.lowest->0.len()
            },
            (
                EventView::Value { bytes, .. },
                Phase::AdvanceValue { header, take: true, .. },
            ) => {
                &&& bytes.len() == header.value_len
                &&& header.key_len <= key_cap
                &&& header.value_len <= value_cap
            },
            (EventView::Advanced { .. }, Phase::AdvanceValue { take: false, .. }) => self.fits(
                key_cap,
                value_cap,
            ),
            _ => false,
        }
    }

    /// The cursor without the reader of `file`.
    pub open spec fn without_reader(self, file: int) -> CursorState {
        CursorState { readers: self.readers.update(file, None), ..self }
    }

    /// The cursor after this round has met `key` in `file`.
    pub open spec fn met(self, file: int, key: Seq<u8>) -> CursorState {
        if self.lowest is None || key_order(key, self.lowest->0) is Less {
            CursorState {
                lowest: Some(key),
                is_lowest: Seq::new(FILE_COUNT as nat, |i: int| i == file),
                ..self
            }
        } else if key == self.lowest->0 {
            CursorState { is_lowest: self.is_lowest.update(file, true), ..self }
        } else {
            self
        }
    }

    /// The turn that asks for something and waits for it.
    pub open spec fn ask<E>(
        self,
        phase: Phase,
        request: Request,
        key: Seq<u8>,
        value: Seq<u8>,
    ) -> Turn<E> {
        Turn { cursor: CursorState { phase, ..self }, key, value, step: Step::Request(request) }
    }

    /// The turn that ends the call.
    pub open spec fn end<E>(
        self,
        outcome: Result<Option<(usize, usize)>, CursorError<E>>,
        key: Seq<u8>,
        value: Seq<u8>,
    ) -> Turn<E> {
        Turn {
            cursor: CursorState { phase: Phase::Idle, ..self },
            key,
            value,
            step: Step::Done(outcome),
        }
    }

    /// A new round: look at the first file that has a reader, or end where none has.
    pub open spec fn begin_round<E>(self, key: Seq<u8>, value: Seq<u8>) -> Turn<E> {
        let cleared = CursorState::fresh(self.upper, self.readers);
        let file = next_reader(self.readers, 0);
        if file < FILE_COUNT {
            cleared.ask(
                Phase::ScanHeader { file: file as usize },
                Request::ReadHeader { reader: self.readers[file]->0 },
                key,
                value,
            )
        } else {
            cleared.end(Ok(None), key, value)
        }
    }

    /// Go on with the files from `from` on; behind the last one, move the readers that stand at
    /// the lowest key.
    pub open spec fn scan_from<E>(self, from: int, key: Seq<u8>, value: Seq<u8>) -> Turn<E> {
        let file = next_reader(self.readers, from);
        if file < FILE_COUNT {
            self.ask(
                Phase::ScanHeader { file: file as usize },
                Request::ReadHeader { reader: self.readers[file]->0 },
                key,
                value,
            )
        } else if self.lowest is None {
            self.end(Ok(None), key, value)
        } else {
            self.advance_below(FILE_COUNT as int, key, value)
        }
    }

    /// Move the reader of the newest file below `below` that is at the lowest key. Where none is
    /// left, end with the entry found, or begin another round if the key turned out deleted.
    pub open spec fn advance_below<E>(self, below: int, key: Seq<u8>, value: Seq<u8>) -> Turn<E> {
        let file = last_marked(self.is_lowest, below);
        if file >= 0 {
            self.ask(
                Phase::AdvanceHeader { file: file as usize },
                Request::ReadHeader { reader: self.readers[file]->0 },
                key,
                value,
            )
        } else if self.result is Some {
            self.end(Ok(self.result), key, value)
        } else {
            self.begin_round(key, value)
        }
    }

    /// What an event does to the cursor and to the buffers, and what the cursor answers.
    pub open spec fn next<E>(self, event: EventView<E>, key: Seq<u8>, value: Seq<u8>) -> Turn<E> {
        match (event, self.phase) {
            (EventView::Start, _) => self.begin_round(key, value),
            (EventView::Failed(ReadError::Eof), Phase::ScanHeader { file }) => self.without_reader(
                file as int,
            ).scan_from(file + 1, key, value),
            (
                EventView::Failed(ReadError::Eof),
                Phase::AdvanceHeader { file },
            ) => self.without_reader(file as int).advance_below(file as int, key, value),
            (EventView::Failed(error), _) => self.end(
                Err(as_cursor_error(without_eof(error))),
                key,
                value,
            ),
            (EventView::Header(header), Phase::ScanHeader { file }) => self.ask(
                Phase::ScanKey { file, header },
                Request::ReadKey { len: header.key_len },
                key,
                value,
            ),
            (EventView::Key(bytes), Phase::ScanKey { file, .. }) => if within_upper(
                self.upper,
                bytes,
            ) {
                self.met(file as int, bytes).scan_from(file + 1, key, value)
            } else {
                self.without_reader(file as int).scan_from(file + 1, key, value)
            },
            (EventView::Header(header), Phase::AdvanceHeader { file }) => self.ask(
                Phase::AdvanceKey { file, header },
                Request::SkipKey { len: header.key_len },
                key,
                value,
            ),
            (EventView::Skipped, Phase::AdvanceKey { file, header }) => if !self.is_highest_file
                || header.is_delete {
                self.ask(
                    Phase::AdvanceValue { file, header, take: false },
                    Request::SkipValue { len: header.value_len },
                    key,
                    value,
                )
            } else if header.key_len > key.len() {
                self.end(Err(CursorError::KeyBufferTooSmall), key, value)
            } else if header.value_len > value.len() {
                self.end(Err(CursorError::ValueBufferTooSmall), key, value)
            } else {
                self.ask(
                    Phase::AdvanceValue { file, header, take: true },
                    Request::ReadValue { len: header.value_len },
                    overwrite(key, self.lowest->0),
                    value,
                )
            },
            (EventView::Value { bytes, reader }, Phase::AdvanceValue { file, header, .. }) => (
            CursorState {
                readers: self.readers.update(file as int, Some(reader)),
                is_highest_file: false,
                result: Some((header.key_len, header.value_len)),
                ..self
            }).advance_below(file as int, key, overwrite(value, bytes)),
            (EventView::Advanced { reader }, Phase::AdvanceValue { file, .. }) => (CursorState {
                readers: self.readers.update(file as int, Some(reader)),
                is_highest_file: false,
                ..self
            }).advance_below(file as int, key, value),
            _ => arbitrary(),
        }
    }
}

/// Writes `bytes` over the start of `buffer`.
fn write_start(buffer: &mut [u8], bytes: &[u8])
    requires
        bytes@.len() <= old(buffer)@.len(),
    ensures
        final(buffer)@ == overwrite(old(buffer)@, bytes@),
{
    let mut i: usize = 0;
    while i < bytes.len()
        invariant
            i <= bytes@.len() <= old(buffer)@.len(),
            buffer@ == bytes@.take(i as int) + old(buffer)@.skip(i as int),
        decreases bytes@.len() - i,
    {
        buffer[i] = bytes[i];
        i = i + 1;
    }
    assert(bytes@.take(i as int) == bytes@);
}

impl<'a> View for Cursor<'a> {
    type V = CursorState;

    closed spec fn view(&self) -> CursorState {
        CursorState {
            upper: bound_view(self.upper_bound),
            readers: self.readers@,
            phase: self.phase,
            lowest: match self.lowest_key {
                None => None,
                Some(key) => Some(key_contents(key)),
            },
            is_lowest: self.is_lowest@,
            is_highest_file: self.is_highest_file,
            result: self.result,
        }
    }
}

impl<'a> Cursor<'a> {
    /// A cursor with these readers.
    pub(crate) fn from_readers(
        upper_bound: Option<Bound<'a>>,
        readers: [Option<DehydratedFileReader>; FILE_COUNT],
    ) -> (cursor: Cursor<'a>)
        ensures
            cursor@ == CursorState::fresh(bound_view(upper_bound), readers@),
            cursor@.wf(),
    {
        Cursor {
            upper_bound,
            readers,
            phase: Phase::Idle,
            lowest_key: None,
            is_lowest: [false; FILE_COUNT],
            is_highest_file: true,
            result: None,
        }
    }

    /// Whether [`Cursor::next`] may be called with this event and with buffers of these lengths.
    pub fn accepts<E>(&self, event: &Event<'_, E>, key_cap: usize, value_cap: usize) -> (ok: bool)
        requires
            self@.wf(),
        ensures
            ok == self@.accepts(event@, key_cap as nat, value_cap as nat),
    {
        let fits = match self.result {
            None => true,
            Some((key_len, value_len)) => key_len <= key_cap && value_len <= value_cap,
        };
        match event {
            Event::Start => true,
            Event::Failed(_) => match self.phase {
                Phase::Idle => false,
                _ => fits,
            },
            Event::Header(header) => match self.phase {
                Phase::ScanHeader { .. } => header.key_len <= MAX_KEY_SIZE,
                Phase::AdvanceHeader { .. } => fits,
                _ => false,
            },
            Event::Key(bytes) => match self.phase {
                Phase::ScanKey { header, .. } => bytes.len() == header.key_len,
                _ => false,
            },
            Event::Skipped => match self.phase {
                Phase::AdvanceKey { header, .. } => fits && (!self.is_highest_file
                    || header.is_delete || header.key_len > key_cap || header.value_len > value_cap
                    || match &self.lowest_key {
                    Some(lowest_key) => header.key_len == key_as_slice(lowest_key).len(),
                    None => false,
                }),
                _ => false,
            },
            Event::Value { bytes, .. } => match self.phase {
                Phase::AdvanceValue { header, take, .. } => take && bytes.len() == header.value_len
                    && header.key_len <= key_cap && header.value_len <= value_cap,
                _ => false,
            },
            Event::Advanced { .. } => match self.phase {
                Phase::AdvanceValue { take, .. } => !take && fits,
                _ => false,
            },
        }
    }

    /// Ends the call.
    fn end<E>(&mut self, outcome: Result<Option<(usize, usize)>, CursorError<E>>) -> (step: Step<E>)
        requires
            old(self)@.readers.len() == FILE_COUNT,
            old(self)@.is_lowest.len() == FILE_COUNT,
        ensures
            final(self)@.wf(),
            final(self)@ == (CursorState { phase: Phase::Idle, ..old(self)@ }),
            step == Step::Done(outcome),
    {
        self.phase = Phase::Idle;
        Step::Done(outcome)
    }

    /// Finds the first reader at or after `from`.
    fn find_reader(&self, from: usize) -> (file: usize)
        requires
            from <= FILE_COUNT,
        ensures
            file == next_reader(self@.readers, from as int),
            from <= file <= FILE_COUNT,
            forall|i: int| from <= i < file ==> (#[trigger] self@.readers[i]) is None,
            file < FILE_COUNT ==> self@.readers[file as int] is Some,
    {
        let mut file: usize = from;
        while file < FILE_COUNT
            invariant
                from <= file <= FILE_COUNT,
                next_reader(self.readers@, from as int) == next_reader(self.readers@, file as int),
                forall|i: int| from <= i < file ==> (#[trigger] self.readers@[i]) is None,
            decreases FILE_COUNT - file,
        {
            if self.readers[file].is_some() {
                return file;
            }
            file = file + 1;
        }
        file
    }

    /// Begins a round.
    fn begin_round<E>(&mut self) -> (step: Step<E>)
        ensures
            final(self)@.wf(),
            forall|key: Seq<u8>, value: Seq<u8>| #[trigger]
                old(self)@.begin_round::<E>(key, value) == (Turn {
                    cursor: final(self)@,
                    key,
                    value,
                    step,
                }),
    {
        self.lowest_key = None;
        self.is_lowest = [false; FILE_COUNT];
        self.is_highest_file = true;
        self.result = None;
        let file: usize = self.find_reader(0);
        if file < FILE_COUNT {
            if let Some(reader) = self.readers[file] {
                self.phase = Phase::ScanHeader { file };
                return Step::Request(Request::ReadHeader { reader });
            }
        }
        self.end(Ok(None))
    }

    /// Finds the last file below `below` that is marked as lowest.
    fn find_lowest(&self, below: usize) -> (file: Option<usize>)
        requires
            below <= FILE_COUNT,
        ensures
            match file {
                Some(file) => {
                    &&& file == last_marked(self@.is_lowest, below as int)
                    &&& file < below
                    &&& self@.is_lowest[file as int]
                },
                None => last_marked(self@.is_lowest, below as int) == -1,
            },
    {
        let mut file: usize = below;
        while file > 0
            invariant
                file <= below <= FILE_COUNT,
                last_marked(self.is_lowest@, below as int) == last_marked(
                    self.is_lowest@,
                    file as int,
                ),
            decreases file,
        {
            file = file - 1;
            if self.is_lowest[file] {
                return Some(file);
            }
        }
        None
    }

    /// Moves on to the newest file below `below` that is marked as lowest.
    fn advance_below<E>(&mut self, below: usize) -> (step: Step<E>)
        requires
            below <= FILE_COUNT,
            old(self)@.lowest is Some,
            forall|i: int|
                0 <= i < below && #[trigger] old(self)@.is_lowest[i] ==> old(self)@.readers[i]
                    is Some,
        ensures
            final(self)@.wf(),
            forall|key: Seq<u8>, value: Seq<u8>| #[trigger]
                old(self)@.advance_below::<E>(below as int, key, value) == (Turn {
                    cursor: final(self)@,
                    key,
                    value,
                    step,
                }),
    {
        if let Some(file) = self.find_lowest(below) {
            if let Some(reader) = self.readers[file] {
                self.phase = Phase::AdvanceHeader { file };
                return Step::Request(Request::ReadHeader { reader });
            }
        }
        if self.result.is_some() {
            let result = self.result;
            self.end(Ok(result))
        } else {
            self.begin_round()
        }
    }

    /// Moves on to the first file at or after `from` that has a reader.
    fn scan_from<E>(&mut self, from: usize) -> (step: Step<E>)
        requires
            from <= FILE_COUNT,
            old(self)@.is_highest_file,
            old(self)@.result is None,
            old(self)@.lowest is None ==> forall|i: int|
                0 <= i < from ==> (#[trigger] old(self)@.readers[i]) is None,
            forall|i: int|
                0 <= i < FILE_COUNT && #[trigger] old(self)@.is_lowest[i] ==> i < from
                    && old(self)@.readers[i] is Some,
        ensures
            final(self)@.wf(),
            forall|key: Seq<u8>, value: Seq<u8>| #[trigger]
                old(self)@.scan_from::<E>(from as int, key, value) == (Turn {
                    cursor: final(self)@,
                    key,
                    value,
                    step,
                }),
    {
        let file: usize = self.find_reader(from);
        if file < FILE_COUNT {
            if let Some(reader) = self.readers[file] {
                self.phase = Phase::ScanHeader { file };
                return Step::Request(Request::ReadHeader { reader });
            }
        }
        if self.lowest_key.is_none() {
            self.end(Ok(None))
        } else {
            self.advance_below(FILE_COUNT)
        }
    }

    /// Takes note of the key that the reader of `file` stands at.
    fn meet(&mut self, file: usize, key: &[u8])
        requires
            file < FILE_COUNT,
            key@.len() <= MAX_KEY_SIZE,
        ensures
            final(self)@ == old(self)@.met(file as int, key@),
    {
        let ordering = match &self.lowest_key {
            None => KeyOrder::Less,
            Some(lowest_key) => order_keys(key, key_as_slice(lowest_key)),
        };
        match ordering {
            KeyOrder::Less => {
                match key_from_slice(key) {
                    Ok(lowest_key) => {
                        self.lowest_key = Some(lowest_key);
                    },
                    Err(()) => {
                        assert(false);
                    },
                }
                self.is_lowest = [false; FILE_COUNT];
                self.is_lowest[file] = true;
            },
            KeyOrder::Equal => {
                self.is_lowest[file] = true;
            },
            KeyOrder::Greater => {},
        }
    }

    /// Get the next key/value entry.
    ///
    /// A call for the next entry begins with [`Event::Start`] and ends with [`Step::Done`]. In
    /// between, each event reports what came of the step before. The buffers must be the same
    /// throughout.
    ///
    /// If the cursor has not reached the end, the next entry in lexicographically ascending order
    /// is put into the start of the `key` and `value` buffers. The respective lengths are returned:
    /// `Ok(Some((key_len, value_len)))`.
    ///
    /// If the cursor has reached the end of the iteration, `Ok(None)` is returned.
    pub fn next<E>(&mut self, event: Event<'_, E>, key: &mut [u8], value: &mut [u8]) -> (step: Step<
        E,
    >)
        requires
            old(self)@.wf(),
            old(self)@.accepts(event@, old(key)@.len(), old(value)@.len()),
        ensures
            final(self)@.wf(),
            old(self)@.next(event@, old(key)@, old(value)@) == (Turn {
                cursor: final(self)@,
                key: final(key)@,
                value: final(value)@,
                step,
            }),
            step matches Step::Done(Ok(Some((key_len, value_len)))) ==> key_len <= final(key)@.len()
                && value_len <= final(value)@.len(),
            final(key)@.len() == old(key)@.len(),
            final(value)@.len() == old(value)@.len(),
    {
        match event {
            Event::Start => self.begin_round(),
            Event::Failed(error) => {
                match (&error, self.phase) {
                    (ReadError::Eof, Phase::ScanHeader { file }) => {
                        // Reached EOF, remove this file.
                        self.readers[file] = None;
                        self.scan_from(file + 1)
                    },
                    (ReadError::Eof, Phase::AdvanceHeader { file }) => {
                        // Reached EOF, remove this file.
                        self.readers[file] = None;
                        self.advance_below(file)
                    },
                    _ => self.end(Err(CursorError::from(no_eof(error)))),
                }
            },
            Event::Header(header) => {
                match self.phase {
                    Phase::ScanHeader { file } => {
                        self.phase = Phase::ScanKey { file, header };
                        Step::Request(Request::ReadKey { len: header.key_len })
                    },
                    Phase::AdvanceHeader { file } => {
                        self.phase = Phase::AdvanceKey { file, header };
                        Step::Request(Request::SkipKey { len: header.key_len })
                    },
                    _ => vstd::pervasive::unreached(),
                }
            },
            Event::Key(bytes) => {
                match self.phase {
                    Phase::ScanKey { file, .. } => {
                        if is_past_upper(&self.upper_bound, bytes) {
                            // Reached the upper bound, remove this file.
                            self.readers[file] = None;
                        } else {
                            self.meet(file, bytes);
                        }
                        self.scan_from(file + 1)
                    },
                    _ => vstd::pervasive::unreached(),
                }
            },
            Event::Skipped => {
                match self.phase {
                    Phase::AdvanceKey { file, header } => {
                        if !self.is_highest_file || header.is_delete {
                            self.phase = Phase::AdvanceValue { file, header, take: false };
                            return Step::Request(Request::SkipValue { len: header.value_len });
                        }
                        if header.key_len > key.len() {
                            return self.end(Err(CursorError::KeyBufferTooSmall));
                        }
                        if header.value_len > value.len() {
                            return self.end(Err(CursorError::ValueBufferTooSmall));
                        }
                        if let Some(lowest_key) = &self.lowest_key {
                            write_start(key, key_as_slice(lowest_key));
                        }
                        self.phase = Phase::AdvanceValue { file, header, take: true };
                        Step::Request(Request::ReadValue { len: header.value_len })
                    },
                    _ => vstd::pervasive::unreached(),
                }
            },
            Event::Value { bytes, reader } => {
                match self.phase {
                    Phase::AdvanceValue { file, header, .. } => {
                        write_start(value, bytes);
                        self.readers[file] = Some(reader);
                        self.is_highest_file = false;
                        self.result = Some((header.key_len, header.value_len));
                        self.advance_below(file)
                    },
                    _ => vstd::pervasive::unreached(),
                }
            },
            Event::Advanced { reader } => {
                match self.phase {
                    Phase::AdvanceValue { file, .. } => {
                        self.readers[file] = Some(reader);
                        self.is_highest_file = false;
                        self.advance_below(file)
                    },
                    _ => vstd::pervasive::unreached(),
                }
            },
        }
    }
}

/// A file that has lost its reader never gets one back: once a file has come to its end or to the
/// upper bound, the cursor does not touch it again.
pub proof fn law_dropped_stays_dropped<E>(
    cursor: CursorState,
    event: EventView<E>,
    key: Seq<u8>,
    value: Seq<u8>,
    file: int,
)
    requires
        cursor.wf(),
        cursor.accepts(event, key.len(), value.len()),
        0 <= file < FILE_COUNT,
        cursor.readers[file] is None,
    ensures
        cursor.next(event, key, value).cursor.readers[file] is None,
{
}

/// The event makes the call fail with `error`.
pub open spec fn call_failure<E>(
    cursor: CursorState,
    event: EventView<E>,
    key_cap: nat,
    value_cap: nat,
    error: CursorError<E>,
) -> bool {
    match (event, cursor.phase) {
        (EventView::Failed(failure), phase) => {
            &&& error == as_cursor_error(without_eof(failure))
            &&& !(failure is Eof && (phase is ScanHeader || phase is AdvanceHeader))
        },
        (EventView::Skipped, Phase::AdvanceKey { header, .. }) => {
            &&& cursor.is_highest_file && !header.is_delete
            &&& if header.key_len > key_cap {
                error is KeyBufferTooSmall
            } else {
                header.value_len > value_cap && error is ValueBufferTooSmall
            }
        },
        _ => false,
    }
}

/// A call fails exactly where what it asked for fails, but for an end of file where it reads a
/// header, or where a buffer is too small for the entry; and it fails with that error.
pub proof fn law_call_fails_with_its_request<E>(
    cursor: CursorState,
    event: EventView<E>,
    key: Seq<u8>,
    value: Seq<u8>,
)
    requires
        cursor.wf(),
        cursor.accepts(event, key.len(), value.len()),
    ensures
        forall|error: CursorError<E>|
            cursor.next(event, key, value).step == Step::<E>::Done(Err(error)) <==> #[trigger]
            call_failure(cursor, event, key.len(), value.len(), error),
{
}

/// Once the cursor has reached the end, every further call says so at once, without a request.
pub proof fn law_end_is_final<E, F>(
    cursor: CursorState,
    event: EventView<E>,
    key: Seq<u8>,
    value: Seq<u8>,
    later_key: Seq<u8>,
    later_value: Seq<u8>,
)
    requires
        cursor.wf(),
        cursor.accepts(event, key.len(), value.len()),
        cursor.next(event, key, value).step == Step::<E>::Done(Ok(None)),
    ensures
        ({
            let ended = cursor.next(event, key, value).cursor;
            let again = ended.next(EventView::<F>::Start, later_key, later_value);
            &&& again.step == Step::<F>::Done(Ok(None))
            &&& again.cursor.readers == ended.readers
            &&& again.key == later_key
            &&& again.value == later_value
        }),
{
    let ended = cursor.next(event, key, value).cursor;
    lemma_no_reader(ended.readers, 0);
    lemma_no_reader(cursor.readers, 0);
    if let Phase::ScanHeader { file } = cursor.phase {
        lemma_no_reader(cursor.without_reader(file as int).readers, file + 1);
    }
    if let Phase::ScanKey { file, .. } = cursor.phase {
        lemma_no_reader(cursor.without_reader(file as int).readers, file + 1);
    }
}

/// There is no next reader exactly where no reader is left.
proof fn lemma_no_reader(readers: Seq<Option<DehydratedFileReader>>, from: int)
    requires
        0 <= from <= readers.len(),
    ensures
        next_reader(readers, from) >= readers.len() <==> forall|i: int|
            from <= i < readers.len() ==> (#[trigger] readers[i]) is None,
    decreases readers.len() - from,
{
    if from < readers.len() && readers[from] is None {
        lemma_no_reader(readers, from + 1);
    }
}

} // verus!
