//! How one step follows another, whatever the files hold: what each request asks for, which answers
//! to it are accepted, and what becomes of the readers, the buffers and the failures.

use vstd::prelude::*;
use crate::bound::{law_upper_bound_cuts, within_upper, BoundView};
use crate::config::{FILE_COUNT, MAX_KEY_SIZE};
use crate::cursor::{
    last_marked, next_reader, overwrite, CursorState, Event, EventView, Phase, Request, Step,
};
use crate::errors::{law_errors_keep_their_cause, CursorError, Error, ReadError};
use crate::file::{DehydratedFileReader, RecordHeader, SeekDirection};
use crate::keys::{
    key_less, law_key_less_asymmetric, law_key_less_irreflexive, law_key_less_total,
    law_key_order,
};
use crate::merge_proof::{lemma_last_marked, lemma_next_reader};
use crate::opening::{
    OpenEvent, OpenEventView, OpenPhase, OpenProgress, OpenProgressView, OpenRequest, OpeningState,
};
use crate::search::{FileSearch, SearchEvent, SearchEventView, SearchRequest, SearchStep};

verus! {

/// An event stands for what it reports: the header, the bytes, the reader, or the failure.
pub proof fn law_event_stands_for_its_report<E>(
    event: Event<'_, E>,
    search_event: SearchEvent<'_, E>,
    open_event: OpenEvent<'_, E>,
)
    ensures
        match event {
            Event::Start => event@ is Start,
            Event::Header(header) => event@ == EventView::<E>::Header(header),
            Event::Key(bytes) => event@ == EventView::<E>::Key(bytes@),
            Event::Skipped => event@ is Skipped,
            Event::Value { bytes, reader } => event@ == (EventView::<E>::Value {
                bytes: bytes@,
                reader,
            }),
            Event::Advanced { reader } => event@ == (EventView::<E>::Advanced { reader }),
            Event::Failed(failure) => event@ == EventView::Failed(failure),
        },
        match search_event {
            SearchEvent::Sought { probing, reader } => search_event@ == (SearchEventView::<
                E,
            >::Sought { probing, reader }),
            SearchEvent::Header(header) => search_event@ == SearchEventView::<E>::Header(header),
            SearchEvent::Key(bytes) => search_event@ == SearchEventView::<E>::Key(bytes@),
            SearchEvent::Skipped { reader } => search_event@ == (SearchEventView::<E>::Skipped {
                reader,
            }),
            SearchEvent::Failed(failure) => search_event@ == SearchEventView::Failed(failure),
        },
        match open_event {
            OpenEvent::Remounted => open_event@ is Remounted,
            OpenEvent::Failed(error) => open_event@ == OpenEventView::Failed(error),
            OpenEvent::Opened { reader } => open_event@ == (OpenEventView::<E>::Opened { reader }),
            OpenEvent::Search(inner) => open_event@ == OpenEventView::Search(inner@),
        },
{
}

/// The progress of an opening stands for the opening and its request, for the cursor, or for the
/// error that it holds.
pub proof fn law_progress_stands_for_what_it_holds<E>(progress: OpenProgress<'_, '_, E>)
    ensures
        match progress {
            OpenProgress::Pending(opening, request) => progress@
                == OpenProgressView::<E>::Pending(opening@, request),
            OpenProgress::Done(Ok(cursor)) => progress@ == OpenProgressView::<E>::Done(Ok(cursor@)),
            OpenProgress::Done(Err(error)) => progress@ == OpenProgressView::<E>::Done(Err(error)),
        },
{
}

/// Writing over the start of a buffer puts the bytes there and changes nothing behind them.
pub proof fn law_overwrite(buffer: Seq<u8>, bytes: Seq<u8>)
    requires
        bytes.len() <= buffer.len(),
    ensures
        overwrite(buffer, bytes).take(bytes.len() as int) == bytes,
        overwrite(buffer, bytes).skip(bytes.len() as int) == buffer.skip(bytes.len() as int),
        overwrite(buffer, bytes).len() == buffer.len(),
{
    assert(overwrite(buffer, bytes).take(bytes.len() as int) =~= bytes);
    assert(overwrite(buffer, bytes).skip(bytes.len() as int) =~= buffer.skip(bytes.len() as int));
}

/// A header is followed by reading or skipping a key of the length that it tells. Where the key was
/// skipped, reading or skipping a value follows, of the length that the header tells too.
pub proof fn law_lengths_follow_the_header<E>(
    cursor: CursorState,
    header: RecordHeader,
    key: Seq<u8>,
    value: Seq<u8>,
)
    requires
        cursor.wf(),
        cursor.accepts(EventView::<E>::Header(header), key.len(), value.len()),
    ensures
        ({
            let asked = cursor.next(EventView::<E>::Header(header), key, value);
            let skipped = asked.cursor.next(EventView::<E>::Skipped, key, value);
            &&& asked.key == key
            &&& asked.value == value
            &&& asked.cursor.readers == cursor.readers
            &&& asked.step == Step::<E>::Request(Request::ReadKey { len: header.key_len })
                || asked.step == Step::<E>::Request(Request::SkipKey { len: header.key_len })
            &&& asked.step is Request && asked.step->Request_0 is SkipKey ==> (skipped.step is Request
                ==> {
                ||| skipped.step == Step::<E>::Request(
                    Request::SkipValue { len: header.value_len },
                )
                ||| skipped.step == Step::<E>::Request(
                    Request::ReadValue { len: header.value_len },
                )
            })
        }),
{
}

/// Every answer that fits a request is accepted, and so is every failure.
pub proof fn law_fitting_answers_are_accepted<E>(
    cursor: CursorState,
    event: EventView<E>,
    key: Seq<u8>,
    value: Seq<u8>,
    header: RecordHeader,
    bytes: Seq<u8>,
    reader: DehydratedFileReader,
    failure: ReadError<E>,
)
    requires
        cursor.wf(),
        cursor.accepts(event, key.len(), value.len()),
    ensures
        ({
            let turn = cursor.next(event, key, value);
            let waiting = turn.cursor;
            turn.step matches Step::Request(request) ==> {
                &&& waiting.accepts(EventView::<E>::Failed(failure), key.len(), value.len())
                &&& match request {
                    Request::ReadHeader { .. } => header.key_len <= MAX_KEY_SIZE
                        ==> waiting.accepts(
                        EventView::<E>::Header(header),
                        key.len(),
                        value.len(),
                    ),
                    Request::ReadKey { len } => bytes.len() == len ==> waiting.accepts(
                        EventView::<E>::Key(bytes),
                        key.len(),
                        value.len(),
                    ),
                    Request::SkipKey { len } => waiting.lowest->0.len() == len ==> waiting.accepts(
                        EventView::<E>::Skipped,
                        key.len(),
                        value.len(),
                    ),
                    Request::ReadValue { len } => bytes.len() == len ==> waiting.accepts(
                        EventView::<E>::Value { bytes, reader },
                        key.len(),
                        value.len(),
                    ),
                    Request::SkipValue { .. } => waiting.accepts(
                        EventView::<E>::Advanced { reader },
                        key.len(),
                        value.len(),
                    ),
                }
            }
        }),
        cursor.accepts(EventView::<E>::Start, key.len(), value.len()),
{
}

/// A request that fails ends the call with what it failed with, and moves no reader. An end of file
/// is corruption, but where a header was to be read: there it is no failure, and the cursor only
/// gives up the reader that has come to the end.
pub proof fn law_failure_after_request<E>(
    cursor: CursorState,
    event: EventView<E>,
    key: Seq<u8>,
    value: Seq<u8>,
    e: E,
)
    requires
        cursor.wf(),
        cursor.accepts(event, key.len(), value.len()),
        cursor.next(event, key, value).step is Request,
    ensures
        ({
            let turn = cursor.next(event, key, value);
            let flash = turn.cursor.next(
                EventView::Failed(ReadError::Flash(e)),
                turn.key,
                turn.value,
            );
            let corrupted = turn.cursor.next(
                EventView::Failed(ReadError::<E>::Corrupted),
                turn.key,
                turn.value,
            );
            let eof = turn.cursor.next(
                EventView::Failed(ReadError::<E>::Eof),
                turn.key,
                turn.value,
            );
            &&& flash.step == Step::Done(Err(CursorError::Flash(e)))
            &&& flash.cursor.readers == turn.cursor.readers
            &&& flash.key == turn.key
            &&& flash.value == turn.value
            &&& corrupted.step == Step::Done(Err(CursorError::<E>::Corrupted))
            &&& corrupted.cursor.readers == turn.cursor.readers
            &&& corrupted.key == turn.key
            &&& corrupted.value == turn.value
            &&& eof.key == turn.key
            &&& eof.value == turn.value
            &&& match turn.step->Request_0 {
                Request::ReadHeader { reader } => {
                    &&& !(eof.step matches Step::Done(Err(_)))
                    &&& exists|file: int|
                        0 <= file < FILE_COUNT && turn.cursor.readers[file] == Some(reader)
                            && eof.cursor.readers == #[trigger] turn.cursor.readers.update(
                            file,
                            None,
                        )
                },
                _ => {
                    &&& eof.step == Step::Done(Err(CursorError::<E>::Corrupted))
                    &&& eof.cursor.readers == turn.cursor.readers
                },
            }
        }),
{
    let turn = cursor.next(event, key, value);
    law_errors_keep_their_cause(e);
    lemma_request_reader(cursor, event, key, value);
    let eof = turn.cursor.next(EventView::Failed(ReadError::<E>::Eof), turn.key, turn.value);
    match turn.cursor.phase {
        Phase::ScanHeader { file } | Phase::AdvanceHeader { file } => {
            assert(eof.cursor.readers == turn.cursor.readers.update(file as int, None));
        },
        _ => {},
    }
}

/// The reader that a header is asked of is that of the file that the cursor waits for.
proof fn lemma_request_reader<E>(
    cursor: CursorState,
    event: EventView<E>,
    key: Seq<u8>,
    value: Seq<u8>,
)
    requires
        cursor.wf(),
        cursor.accepts(event, key.len(), value.len()),
    ensures
        ({
            let turn = cursor.next(event, key, value);
            &&& turn.cursor.readers.len() == FILE_COUNT
            &&& turn.cursor.is_lowest.len() == FILE_COUNT
            &&& match turn.cursor.phase {
                Phase::ScanHeader { file } | Phase::AdvanceHeader { file } => {
                    &&& file < FILE_COUNT
                    &&& turn.cursor.readers[file as int] is Some
                    &&& turn.step == Step::<E>::Request(
                        Request::ReadHeader { reader: turn.cursor.readers[file as int]->0 },
                    )
                },
                Phase::Idle => turn.step is Done,
                _ => !(turn.step is Done),
            }
        }),
{
    lemma_orders();
}

/// What the searches for the next file come to.
proof fn lemma_orders()
    ensures
        forall|readers: Seq<Option<DehydratedFileReader>>, from: int|
            0 <= from <= readers.len() ==> {
                let next = #[trigger] next_reader(readers, from);
                &&& from <= next <= readers.len()
                &&& next < readers.len() ==> readers[next] is Some
                &&& forall|i: int| from <= i < next ==> (#[trigger] readers[i]) is None
            },
        forall|marks: Seq<bool>, below: int|
            0 <= below <= marks.len() ==> {
                let last = #[trigger] last_marked(marks, below);
                &&& -1 <= last < below || below == 0
                &&& last >= -1
                &&& last >= 0 ==> marks[last]
                &&& forall|i: int| last < i < below ==> !#[trigger] marks[i]
            },
{
    assert forall|readers: Seq<Option<DehydratedFileReader>>, from: int|
        0 <= from <= readers.len() implies {
        let next = #[trigger] next_reader(readers, from);
        &&& from <= next <= readers.len()
        &&& next < readers.len() ==> readers[next] is Some
        &&& forall|i: int| from <= i < next ==> (#[trigger] readers[i]) is None
    } by {
        lemma_next_reader(readers, from);
    }
    assert forall|marks: Seq<bool>, below: int| 0 <= below <= marks.len() implies {
        let last = #[trigger] last_marked(marks, below);
        &&& -1 <= last < below || below == 0
        &&& last >= -1
        &&& last >= 0 ==> marks[last]
        &&& forall|i: int| last < i < below ==> !#[trigger] marks[i]
    } by {
        lemma_last_marked(marks, below);
    }
}

/// Starting a call forgets all but the readers and the upper bound, and changes nothing of them or
/// of the buffers. It asks for a header of the first file that has a reader; where none has, the
/// end is reached.
pub proof fn law_start_goes_by_the_readers<E>(
    cursor: CursorState,
    other: CursorState,
    key: Seq<u8>,
    value: Seq<u8>,
)
    requires
        cursor.wf(),
        other.wf(),
        cursor.upper == other.upper,
        cursor.readers == other.readers,
    ensures
        ({
            let turn = cursor.next(EventView::<E>::Start, key, value);
            &&& turn == other.next(EventView::<E>::Start, key, value)
            &&& turn.cursor.upper == cursor.upper
            &&& turn.cursor.readers == cursor.readers
            &&& turn.key == key
            &&& turn.value == value
            &&& (forall|i: int| 0 <= i < FILE_COUNT ==> (#[trigger] cursor.readers[i]) is None)
                <==> turn.step == Step::<E>::Done(Ok(None))
            &&& !(turn.step is Done) ==> exists|file: int|
                {
                    &&& 0 <= file < FILE_COUNT
                    &&& (#[trigger] cursor.readers[file]) matches Some(reader)
                    &&& turn.step == Step::<E>::Request(Request::ReadHeader { reader })
                    &&& forall|i: int|
                        0 <= i < file ==> (#[trigger] cursor.readers[i]) is None
                }
        }),
{
    lemma_next_reader(cursor.readers, 0);
    let file = next_reader(cursor.readers, 0);
    if file < FILE_COUNT {
        assert(cursor.readers[file] is Some);
    }
}

/// While a round looks at the files, the lowest key is one that it has met, in a file that is marked.
pub open spec fn lowest_was_met(cursor: CursorState) -> bool {
    (cursor.phase is ScanHeader || cursor.phase is ScanKey) && cursor.lowest is Some
        ==> exists|i: int| 0 <= i < FILE_COUNT && #[trigger] cursor.is_lowest[i]
}

/// That the lowest key was met holds of a cursor from the start, and every event keeps it.
pub proof fn law_lowest_was_met<E>(
    cursor: CursorState,
    event: EventView<E>,
    key: Seq<u8>,
    value: Seq<u8>,
    upper: Option<BoundView>,
    readers: Seq<Option<DehydratedFileReader>>,
)
    requires
        cursor.wf(),
        cursor.accepts(event, key.len(), value.len()),
        lowest_was_met(cursor),
    ensures
        lowest_was_met(cursor.next(event, key, value).cursor),
        lowest_was_met(CursorState::fresh(upper, readers)),
{
    let after = cursor.next(event, key, value).cursor;
    if (after.phase is ScanHeader || after.phase is ScanKey) && after.lowest is Some {
        let marked = choose|i: int| 0 <= i < FILE_COUNT && #[trigger] cursor.is_lowest[i];
        match (cursor.phase, event) {
            (Phase::ScanKey { file, .. }, EventView::Key(bytes)) if within_upper(
                cursor.upper,
                bytes,
            ) => {
                let met = cursor.met(file as int, bytes);
                assert(after.is_lowest == met.is_lowest);
                if met.is_lowest[file as int] {
                    assert(after.is_lowest[file as int]);
                } else {
                    assert(after.is_lowest[marked]);
                }
            },
            _ => {
                assert(after.is_lowest == cursor.is_lowest);
                assert(after.is_lowest[marked]);
            },
        }
    }
}

/// A round looks at the files that have a reader in turn, the oldest first, and leaves none out; a
/// new round starts with nothing found yet.
pub proof fn law_files_are_looked_at_in_turn<E>(
    cursor: CursorState,
    event: EventView<E>,
    key: Seq<u8>,
    value: Seq<u8>,
)
    requires
        cursor.wf(),
        cursor.accepts(event, key.len(), value.len()),
        lowest_was_met(cursor),
    ensures
        ({
            let turn = cursor.next(event, key, value);
            let before: Option<usize> = match cursor.phase {
                Phase::ScanHeader { file } | Phase::ScanKey { file, .. } => Some(file),
                _ => None,
            };
            turn.cursor.phase matches Phase::ScanHeader { file } ==> {
                &&& file < FILE_COUNT
                &&& turn.cursor.readers[file as int] matches Some(reader)
                &&& turn.step == Step::<E>::Request(Request::ReadHeader { reader })
                &&& if !(event is Start) && before is Some {
                    &&& before->0 < file
                    &&& forall|i: int|
                        before->0 < i < file ==> (#[trigger] turn.cursor.readers[i]) is None
                } else {
                    &&& forall|i: int|
                        0 <= i < file ==> (#[trigger] turn.cursor.readers[i]) is None
                    &&& turn.cursor.lowest is None
                    &&& turn.cursor.is_highest_file
                    &&& turn.cursor.result is None
                    &&& forall|i: int|
                        0 <= i < FILE_COUNT ==> !#[trigger] turn.cursor.is_lowest[i]
                }
            }
        }),
{
    lemma_orders();
    if cursor.lowest is Some && (cursor.phase is ScanHeader || cursor.phase is ScanKey) {
        let marked = choose|i: int| 0 <= i < FILE_COUNT && #[trigger] cursor.is_lowest[i];
        if let (Phase::ScanKey { file, .. }, EventView::Key(bytes)) = (cursor.phase, event) {
            let met = cursor.met(file as int, bytes);
            assert(met.is_lowest[file as int] || met.is_lowest[marked]);
        }
    }
    if let (Phase::ScanKey { file, .. }, EventView::Key(bytes)) = (cursor.phase, event) {
        assert(cursor.lowest is None ==> cursor.met(file as int, bytes).is_lowest[file as int]);
    }
}

/// The readers at the lowest key are moved only after all files have been looked at, the newest
/// first, and none is left out.
pub proof fn law_lowest_readers_are_moved_newest_first<E>(
    cursor: CursorState,
    event: EventView<E>,
    key: Seq<u8>,
    value: Seq<u8>,
)
    requires
        cursor.wf(),
        cursor.accepts(event, key.len(), value.len()),
    ensures
        ({
            let turn = cursor.next(event, key, value);
            &&& turn.cursor.phase matches Phase::AdvanceHeader { file } ==> {
                &&& file < FILE_COUNT
                &&& turn.cursor.is_lowest[file as int]
                &&& turn.cursor.readers[file as int] matches Some(reader)
                &&& turn.step == Step::<E>::Request(Request::ReadHeader { reader })
                &&& match cursor.phase {
                    Phase::AdvanceHeader { file: before } | Phase::AdvanceValue {
                        file: before,
                        ..
                    } => {
                        &&& file < before
                        &&& turn.cursor.lowest == cursor.lowest
                        &&& turn.cursor.is_lowest == cursor.is_lowest
                        &&& forall|i: int|
                            file < i < before ==> !#[trigger] turn.cursor.is_lowest[i]
                    },
                    Phase::ScanHeader { file: before } | Phase::ScanKey { file: before, .. } => {
                        &&& forall|i: int|
                            before < i < FILE_COUNT ==> (#[trigger] turn.cursor.readers[i]) is None
                        &&& forall|i: int|
                            file < i < FILE_COUNT ==> !#[trigger] turn.cursor.is_lowest[i]
                    },
                    _ => false,
                }
            }
            &&& match cursor.phase {
                Phase::AdvanceHeader { file: before } | Phase::AdvanceValue {
                    file: before,
                    ..
                } => !(event is Start) && !(event is Header) && !(turn.step matches Step::Done(
                    Err(_),
                )) && !(turn.cursor.phase is AdvanceHeader) ==> forall|i: int|
                    0 <= i < before ==> !#[trigger] cursor.is_lowest[i],
                _ => true,
            }
        }),
{
    lemma_orders();
}

/// A key past the upper bound costs its file the reader. Any other is compared with the lowest key
/// of the round: the lower one is the lowest from then on, and the files marked are those in which
/// the round has met it.
pub proof fn law_key_is_compared_with_the_lowest<E>(
    cursor: CursorState,
    bytes: Seq<u8>,
    key: Seq<u8>,
    value: Seq<u8>,
)
    requires
        cursor.wf(),
        cursor.accepts(EventView::<E>::Key(bytes), key.len(), value.len()),
        lowest_was_met(cursor),
    ensures
        ({
            let turn = cursor.next(EventView::<E>::Key(bytes), key, value);
            let file = cursor.phase->ScanKey_file as int;
            let past = cursor.upper matches Some(b) && (key_less(b.key, bytes) || (bytes == b.key
                && !b.allow_equal));
            &&& cursor.phase is ScanKey
            &&& turn.key == key
            &&& turn.value == value
            &&& past ==> turn.cursor.readers == cursor.readers.update(file, None)
            &&& !past ==> turn.cursor.readers == cursor.readers
            &&& past ==> turn.cursor.lowest == cursor.lowest && turn.cursor.is_lowest
                == cursor.is_lowest
            &&& turn.step is Done ==> past && cursor.lowest is None && turn.step == Step::<E>::Done(
                Ok(None),
            )
            &&& !past ==> {
                let lowest = turn.cursor.lowest->0;
                &&& turn.cursor.lowest is Some
                &&& lowest == if cursor.lowest is None || key_less(bytes, cursor.lowest->0) {
                    bytes
                } else {
                    cursor.lowest->0
                }
                &&& turn.cursor.is_lowest[file] <==> bytes == lowest
                &&& forall|i: int|
                    0 <= i < FILE_COUNT && i != file ==> (#[trigger] turn.cursor.is_lowest[i]
                        <==> cursor.is_lowest[i] && cursor.lowest == Some(lowest))
            }
        }),
{
    if let Some(b) = cursor.upper {
        law_upper_bound_cuts(b, bytes);
        law_key_less_total(bytes, b.key);
        law_key_less_irreflexive(bytes);
        if key_less(b.key, bytes) {
            law_key_less_asymmetric(b.key, bytes);
        }
    }
    lemma_orders();
    let file = cursor.phase->ScanKey_file as int;
    let met = cursor.met(file, bytes);
    if let Some(lowest) = cursor.lowest {
        law_key_order(bytes, lowest);
        law_key_less_irreflexive(bytes);
        let marked = choose|i: int| 0 <= i < FILE_COUNT && #[trigger] cursor.is_lowest[i];
        assert(met.is_lowest[file] || met.is_lowest[marked]);
    } else {
        assert(met.is_lowest[file]);
    }
}

/// The first record of the lowest key that a round comes to decides: unless it is a delete mark, its
/// value is read, and its key is put into the start of the key buffer, if both fit the buffers, the
/// key being tested first. The values of all other records of the key are skipped.
pub proof fn law_newest_record_is_taken<E>(
    cursor: CursorState,
    key: Seq<u8>,
    value: Seq<u8>,
)
    requires
        cursor.wf(),
        cursor.accepts(EventView::<E>::Skipped, key.len(), value.len()),
    ensures
        ({
            let turn = cursor.next(EventView::<E>::Skipped, key, value);
            let header = cursor.phase->AdvanceKey_header;
            let lowest = cursor.lowest->0;
            &&& cursor.phase is AdvanceKey
            &&& turn.cursor.readers == cursor.readers
            &&& turn.value == value
            &&& if header.is_delete || !cursor.is_highest_file {
                &&& turn.step == Step::<E>::Request(Request::SkipValue { len: header.value_len })
                &&& turn.key == key
            } else if header.key_len > key.len() {
                &&& turn.step == Step::<E>::Done(Err(CursorError::KeyBufferTooSmall))
                &&& turn.key == key
            } else if header.value_len > value.len() {
                &&& turn.step == Step::<E>::Done(Err(CursorError::ValueBufferTooSmall))
                &&& turn.key == key
            } else {
                &&& turn.step == Step::<E>::Request(Request::ReadValue { len: header.value_len })
                &&& turn.key.take(lowest.len() as int) == lowest
                &&& turn.key.skip(lowest.len() as int) == key.skip(lowest.len() as int)
            }
        }),
{
    if cursor.lowest->0.len() <= key.len() {
        law_overwrite(key, cursor.lowest->0);
    }
}

/// A value that was read goes into the start of the value buffer, and its lengths are what the call
/// returns once no other file has to be moved. Whether the value was read or skipped, the reader
/// that was reported is kept for its file, and no other reader changes.
pub proof fn law_reader_behind_the_value_is_kept<E>(
    cursor: CursorState,
    bytes: Seq<u8>,
    reader: DehydratedFileReader,
    key: Seq<u8>,
    value: Seq<u8>,
)
    requires
        cursor.wf(),
    ensures
        cursor.accepts(EventView::<E>::Value { bytes, reader }, key.len(), value.len()) ==> {
            let turn = cursor.next(EventView::<E>::Value { bytes, reader }, key, value);
            let file = cursor.phase->AdvanceValue_file as int;
            let header = cursor.phase->AdvanceValue_header;
            &&& cursor.phase is AdvanceValue
            &&& turn.cursor.readers == cursor.readers.update(file, Some(reader))
            &&& turn.key == key
            &&& turn.value.take(bytes.len() as int) == bytes
            &&& turn.value.skip(bytes.len() as int) == value.skip(bytes.len() as int)
            &&& turn.cursor.result == Some((header.key_len, header.value_len))
            &&& !turn.cursor.is_highest_file
            &&& turn.step is Done <==> forall|i: int|
                0 <= i < file ==> !#[trigger] cursor.is_lowest[i]
            &&& turn.step is Done ==> turn.step == Step::<E>::Done(
                Ok(Some((header.key_len, header.value_len))),
            )
        },
        cursor.accepts(EventView::<E>::Advanced { reader }, key.len(), value.len()) ==> {
            let turn = cursor.next(EventView::<E>::Advanced { reader }, key, value);
            let file = cursor.phase->AdvanceValue_file as int;
            &&& cursor.phase is AdvanceValue
            &&& turn.cursor.readers == cursor.readers.update(file, Some(reader))
            &&& turn.key == key
            &&& turn.value == value
            &&& turn.cursor.phase is AdvanceHeader ==> turn.cursor.result == cursor.result
                && !turn.cursor.is_highest_file
            &&& cursor.result is Some ==> {
                &&& turn.step is Done <==> forall|i: int|
                    0 <= i < file ==> !#[trigger] cursor.is_lowest[i]
                &&& turn.step is Done ==> turn.step == Step::<E>::Done(Ok(cursor.result))
            }
            &&& cursor.result is None ==> !(turn.step is Done)
        },
{
    lemma_orders();
    if bytes.len() <= value.len() {
        law_overwrite(value, bytes);
    }
    if let Phase::AdvanceValue { file, .. } = cursor.phase {
        let moved = cursor.readers.update(file as int, Some(reader));
        assert(moved[file as int] is Some);
        assert(next_reader(moved, 0) < FILE_COUNT);
    }
}

/// A search at a record, from the place that the searcher has gone to. The header and the key are
/// asked for, the key in the length that the header tells. At the key of the bound the search is
/// over: it has found that place where the bound allows equal keys, and otherwise the place behind
/// the value, which it skips in the length that the header tells. From any other key a binary
/// search goes on to the side of the bound. A linear one is over at a greater key, and passes over a
/// smaller one, value and all, to go on from there.
pub proof fn law_search_at_a_record<E>(
    bound: BoundView,
    probing: bool,
    reader: DehydratedFileReader,
    header: RecordHeader,
    key: Seq<u8>,
    behind: DehydratedFileReader,
)
    requires
        header.key_len <= MAX_KEY_SIZE,
        key.len() == header.key_len,
    ensures
        ({
            let sought = SearchEventView::<E>::Sought { probing, reader };
            let skipped = SearchEventView::<E>::Skipped { reader: behind };
            &&& FileSearch::Seeking.accepts(sought)
            &&& FileSearch::Seeking.step(bound, sought) matches SearchStep::Request(
                at_header,
                SearchRequest::ReadHeader,
            )
            &&& at_header.accepts(SearchEventView::<E>::Header(header))
            &&& at_header.step(bound, SearchEventView::<E>::Header(header))
                matches SearchStep::Request(at_key, SearchRequest::ReadKey { len })
            &&& len == header.key_len
            &&& at_key.accepts(SearchEventView::<E>::Key(key))
            &&& {
                let step = at_key.step(bound, SearchEventView::<E>::Key(key));
                &&& key == bound.key && bound.allow_equal ==> step == SearchStep::<E>::Done(
                    Ok(Some(reader)),
                )
                &&& key == bound.key && !bound.allow_equal ==> {
                    &&& step matches SearchStep::Request(
                        passing,
                        SearchRequest::SkipValue { len },
                    )
                    &&& len == header.value_len
                    &&& passing.accepts(skipped)
                    &&& passing.step(bound, skipped) == SearchStep::<E>::Done(Ok(Some(behind)))
                }
                &&& key_less(key, bound.key) && probing ==> step == SearchStep::<E>::Request(
                    FileSearch::Seeking,
                    SearchRequest::Seek(SeekDirection::Right),
                )
                &&& key_less(bound.key, key) && probing ==> step == SearchStep::<E>::Request(
                    FileSearch::Seeking,
                    SearchRequest::Seek(SeekDirection::Left),
                )
                &&& key_less(key, bound.key) && !probing ==> {
                    &&& step matches SearchStep::Request(
                        passing,
                        SearchRequest::SkipValue { len },
                    )
                    &&& len == header.value_len
                    &&& passing.accepts(skipped)
                    &&& passing.step(bound, skipped) == FileSearch::Seeking.step(
                        bound,
                        SearchEventView::<E>::Sought { probing: false, reader: behind },
                    )
                }
                &&& key_less(bound.key, key) && !probing ==> step == SearchStep::<E>::Done(
                    Ok(Some(reader)),
                )
            }
        }),
{
    law_key_order(key, bound.key);
    law_key_less_irreflexive(bound.key);
}

/// A search whose request fails is over, with what the request failed with. An end of file is
/// corruption, but where a header was to be read: there the file holds nothing for the range.
pub proof fn law_search_after_failure<E>(
    bound: BoundView,
    search: FileSearch,
    event: SearchEventView<E>,
    e: E,
)
    requires
        search.accepts(event),
    ensures
        ({
            let flash = SearchEventView::Failed(ReadError::Flash(e));
            let corrupted = SearchEventView::<E>::Failed(ReadError::Corrupted);
            let eof = SearchEventView::<E>::Failed(ReadError::Eof);
            search.step(bound, event) matches SearchStep::Request(waiting, request) ==> {
                &&& waiting.accepts(flash)
                &&& waiting.accepts(corrupted)
                &&& waiting.accepts(eof)
                &&& waiting.step(bound, flash) == SearchStep::Done(Err(Error::Flash(e)))
                &&& waiting.step(bound, corrupted) == SearchStep::<E>::Done(Err(Error::Corrupted))
                &&& waiting.step(bound, eof) == if request is ReadHeader {
                    SearchStep::<E>::Done(Ok(None))
                } else {
                    SearchStep::<E>::Done(Err(Error::Corrupted))
                }
            }
        }),
        FileSearch::Seeking.step(bound, SearchEventView::Failed(ReadError::Flash(e)))
            == SearchStep::Done(Err(Error::Flash(e))),
        FileSearch::Seeking.step(bound, SearchEventView::<E>::Failed(ReadError::Corrupted))
            == SearchStep::<E>::Done(Err(Error::Corrupted)),
        FileSearch::Seeking.step(bound, SearchEventView::<E>::Failed(ReadError::Eof))
            == SearchStep::<E>::Done(Err(Error::Corrupted)),
{
    law_errors_keep_their_cause(e);
}

/// An opening mounts the files first, and fails with what mounting fails with. Then it opens, or
/// searches where there is a lower bound, one file after the other, from the oldest to the newest.
/// It gives each file the reader that was opened or found, and ends with the cursor that has these
/// readers and the upper bound.
pub proof fn law_files_are_opened_in_turn<E>(
    opening: OpeningState,
    event: OpenEventView<E>,
    lower: Option<BoundView>,
    upper: Option<BoundView>,
    error: Error<E>,
)
    requires
        opening.wf(),
        opening.accepts(event),
    ensures
        ({
            let mounting = OpeningState::start(lower, upper);
            &&& mounting.readers.len() == 0
            &&& mounting.lower == lower
            &&& mounting.upper == upper
            &&& mounting.accepts(OpenEventView::<E>::Remounted)
            &&& mounting.accepts(OpenEventView::Failed(error))
            &&& mounting.step(OpenEventView::Failed(error)) == OpenProgressView::<E>::Done(
                Err(error),
            )
            &&& mounting.step(OpenEventView::<E>::Remounted) is Pending
        }),
        ({
            let found: Option<Option<DehydratedFileReader>> = match (event, opening.phase) {
                (OpenEventView::Opened { reader }, _) => Some(Some(reader)),
                (OpenEventView::Search(answer), OpenPhase::Searching(search)) => match search.step(
                    opening.lower->0,
                    answer,
                ) {
                    SearchStep::Done(Ok(reader)) => Some(reader),
                    _ => None,
                },
                _ => None,
            };
            let readers = match found {
                Some(reader) => opening.readers.push(reader),
                None => opening.readers,
            };
            match opening.step(event) {
                OpenProgressView::Pending(next, request) => {
                    &&& next.wf()
                    &&& next.lower == opening.lower
                    &&& next.upper == opening.upper
                    &&& next.readers == readers
                    &&& opening.lower is None ==> (request matches OpenRequest::Open { file }
                        && file == readers.len())
                    &&& opening.lower is Some ==> (request matches OpenRequest::Search {
                        file,
                        request: asked,
                    } && file == readers.len() && (found is Some || event is Remounted ==> asked
                        is StartSearch))
                },
                OpenProgressView::Done(Ok(cursor)) => {
                    &&& found is Some
                    &&& readers.len() == FILE_COUNT
                    &&& cursor.readers == readers
                    &&& cursor.upper == opening.upper
                    &&& cursor.wf()
                    &&& cursor.phase is Idle
                },
                OpenProgressView::Done(Err(_)) => event is Failed || event is Search,
            }
        }),
        opening.readers.len() + 1 < FILE_COUNT ==> !(opening.step(event) matches OpenProgressView::Done(
            Ok(_),
        )),
{
    assert(FILE_COUNT == 10);
}

/// Every answer that fits a request of an opening is accepted, and so is every failure of a search.
/// A failure of a search ends the opening with what it failed with. An end of file is corruption,
/// but where a header was to be read: there the file goes without a reader, and that is no failure.
pub proof fn law_opening_after_request<E>(
    opening: OpeningState,
    event: OpenEventView<E>,
    header: RecordHeader,
    bytes: Seq<u8>,
    reader: DehydratedFileReader,
    probing: bool,
    failure: ReadError<E>,
    e: E,
)
    requires
        opening.wf(),
        opening.accepts(event),
    ensures
        opening.step(event) matches OpenProgressView::Pending(waiting, request) ==> match request {
            OpenRequest::Remount => false,
            OpenRequest::Open { .. } => waiting.accepts(OpenEventView::<E>::Opened { reader }),
            OpenRequest::Search { request, .. } => {
                let flash = OpenEventView::Search(
                    SearchEventView::Failed(ReadError::Flash(e)),
                );
                let corrupted = OpenEventView::Search(
                    SearchEventView::<E>::Failed(ReadError::Corrupted),
                );
                let eof = OpenEventView::Search(SearchEventView::<E>::Failed(ReadError::Eof));
                &&& waiting.accepts(OpenEventView::Search(SearchEventView::Failed(failure)))
                &&& match request {
                    SearchRequest::StartSearch | SearchRequest::Seek(_) => waiting.accepts(
                        OpenEventView::<E>::Search(SearchEventView::Sought { probing, reader }),
                    ),
                    SearchRequest::ReadHeader => header.key_len <= MAX_KEY_SIZE ==> waiting.accepts(
                        OpenEventView::<E>::Search(SearchEventView::Header(header)),
                    ),
                    SearchRequest::ReadKey { len } => bytes.len() == len ==> waiting.accepts(
                        OpenEventView::<E>::Search(SearchEventView::Key(bytes)),
                    ),
                    SearchRequest::SkipValue { .. } => waiting.accepts(
                        OpenEventView::<E>::Search(SearchEventView::Skipped { reader }),
                    ),
                }
                &&& waiting.step(flash) == OpenProgressView::Done(Err(Error::Flash(e)))
                &&& waiting.step(corrupted) == OpenProgressView::<E>::Done(Err(Error::Corrupted))
                &&& if request is ReadHeader {
                    match waiting.step(eof) {
                        OpenProgressView::Pending(next, _) => next.readers == waiting.readers.push(
                            None,
                        ),
                        OpenProgressView::Done(Ok(cursor)) => cursor.readers
                            == waiting.readers.push(None),
                        OpenProgressView::Done(Err(_)) => false,
                    }
                } else {
                    waiting.step(eof) == OpenProgressView::<E>::Done(Err(Error::Corrupted))
                }
            },
        },
{
    law_errors_keep_their_cause(e);
}

} // verus!
