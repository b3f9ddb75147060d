//! Reading entries from a sound store: what a call for the next entry comes to when every request
//! of the cursor is answered from the files as they are.

use vstd::prelude::*;
use crate::config::FILE_COUNT;
use crate::cursor::{overwrite, CursorState, EventView, Request, Step, Turn};
use crate::errors::{as_cursor_error, without_eof, CursorError, ReadError};
use crate::file::DehydratedFileReader;
use crate::keys::{key_less, law_key_less_total};
use crate::merge_proof::{lemma_buffers_kept, lemma_call, lemma_call_under_way, lemma_pending_finite};
use crate::store::{
    entries, least_key, positioned, reader_past, runs, store_wf, Record, StoredFile,
};

verus! {

/// The reader that a request is about: a rehydrated one, or else the one in hand.
pub open spec fn reader_at(at: DehydratedFileReader, request: Request) -> DehydratedFileReader {
    match request {
        Request::ReadHeader { reader } => reader,
        _ => at,
    }
}

/// The reader behind the record that `at` stands at.
pub open spec fn reader_behind(
    files: Seq<StoredFile>,
    at: DehydratedFileReader,
) -> DehydratedFileReader {
    let file = files[at.file_id as int];
    DehydratedFileReader { offset: file.offsets[file.place(at.offset) + 1], ..at }
}

/// What the files answer to a request, and where the reader in hand stands then, having stood at
/// `at` before. Reading and skipping move it by as many bytes as were asked for. What a header read
/// gives anywhere but at a record or at the end is left open.
pub open spec fn answer<E>(
    files: Seq<StoredFile>,
    at: DehydratedFileReader,
    request: Request,
) -> (EventView<E>, DehydratedFileReader) {
    let at = reader_at(at, request);
    let file = files[at.file_id as int];
    match request {
        Request::ReadHeader { .. } => if at.offset == file.bytes.len() {
            (EventView::Failed(ReadError::Eof), at)
        } else if file.has_place(at.offset) {
            (
                EventView::Header(file.records[file.place(at.offset)].header()),
                reader_past(at, file.header_size as int),
            )
        } else {
            (EventView::Header(arbitrary()), at)
        },
        Request::ReadKey { len } => match file.read(at.offset, len) {
            Some(bytes) => (EventView::Key(bytes), reader_past(at, len as int)),
            None => (EventView::Failed(ReadError::Eof), at),
        },
        Request::SkipKey { len } => match file.read(at.offset, len) {
            Some(_) => (EventView::Skipped, reader_past(at, len as int)),
            None => (EventView::Failed(ReadError::Eof), at),
        },
        Request::ReadValue { len } => match file.read(at.offset, len) {
            Some(bytes) => {
                let reader = reader_past(at, len as int);
                (EventView::Value { bytes, reader }, reader)
            },
            None => (EventView::Failed(ReadError::Eof), at),
        },
        Request::SkipValue { len } => match file.read(at.offset, len) {
            Some(_) => {
                let reader = reader_past(at, len as int);
                (EventView::Advanced { reader }, reader)
            },
            None => (EventView::Failed(ReadError::Eof), at),
        },
    }
}

/// The turn that a call comes to when its requests are answered from the files, `fuel` of them at
/// most.
pub open spec fn drive<E>(
    files: Seq<StoredFile>,
    turn: Turn<E>,
    at: DehydratedFileReader,
    fuel: nat,
) -> Turn<E>
    decreases fuel,
{
    match turn.step {
        Step::Done(_) => turn,
        Step::Request(request) => if fuel == 0 {
            turn
        } else {
            let (event, at) = answer::<E>(files, at, request);
            drive(
                files,
                turn.cursor.next(event, turn.key, turn.value),
                at,
                (fuel - 1) as nat,
            )
        },
    }
}

/// The cursor accepts every answer on the way of [`drive`].
pub open spec fn drive_accepted<E>(
    files: Seq<StoredFile>,
    turn: Turn<E>,
    at: DehydratedFileReader,
    fuel: nat,
) -> bool
    decreases fuel,
{
    match turn.step {
        Step::Done(_) => true,
        Step::Request(request) => if fuel == 0 {
            true
        } else {
            let (event, at) = answer::<E>(files, at, request);
            &&& turn.cursor.accepts(event, turn.key.len(), turn.value.len())
            &&& drive_accepted(
                files,
                turn.cursor.next(event, turn.key, turn.value),
                at,
                (fuel - 1) as nat,
            )
        },
    }
}

/// The number of records in the first `n` runs.
pub open spec fn record_count(runs: Seq<Seq<Record>>, n: int) -> nat
    decreases n,
{
    if n <= 0 {
        0
    } else {
        record_count(runs, n - 1) + runs[n - 1].len()
    }
}

/// A call makes no more requests than this.
pub open spec fn request_bound(files: Seq<StoredFile>, cursor: CursorState) -> nat {
    let count = record_count(runs(files, cursor.readers), FILE_COUNT as int);
    ((5 * FILE_COUNT + 1) * count + 5 * FILE_COUNT) as nat
}

/// The turn that a call for the next entry ends with.
pub open spec fn call<E>(
    files: Seq<StoredFile>,
    cursor: CursorState,
    key: Seq<u8>,
    value: Seq<u8>,
) -> Turn<E> {
    drive(
        files,
        cursor.next(EventView::<E>::Start, key, value),
        DehydratedFileReader { file_id: 0, offset: 0 },
        request_bound(files, cursor),
    )
}

/// The cursor's readers stand in the files.
pub open spec fn reads(files: Seq<StoredFile>, cursor: CursorState) -> bool {
    &&& store_wf(files)
    &&& cursor.wf()
    &&& positioned(files, cursor.readers)
}

/// The entries that the cursor has before it, by key.
pub open spec fn pending(files: Seq<StoredFile>, cursor: CursorState) -> Map<Seq<u8>, Seq<u8>> {
    entries(runs(files, cursor.readers), cursor.upper)
}

/// Two least keys of a map are the same.
proof fn lemma_least_key_unique(map: Map<Seq<u8>, Seq<u8>>, a: Seq<u8>, b: Seq<u8>)
    requires
        least_key(map, a),
        least_key(map, b),
    ensures
        a == b,
{
    law_key_less_total(a, b);
}

/// Over a sound store the cursor accepts every answer to its requests.
pub proof fn law_answers_accepted<E>(
    files: Seq<StoredFile>,
    cursor: CursorState,
    key: Seq<u8>,
    value: Seq<u8>,
    at: DehydratedFileReader,
)
    requires
        reads(files, cursor),
    ensures
        cursor.accepts(EventView::<E>::Start, key.len(), value.len()),
        drive_accepted(
            files,
            cursor.next(EventView::<E>::Start, key, value),
            at,
            request_bound(files, cursor),
        ),
{
    lemma_call::<E>(files, cursor, key, value, at);
}

/// A call over a sound store comes to its end, within [`request_bound`] requests. It returns
/// nothing exactly where no entry is ahead, and then none is ahead after it either. Otherwise it returns the entry with the least key, in
/// the start of the buffers, and that entry is then no longer ahead; or it fails where the key, or
/// else the value, is longer than its buffer, and then no entry is lost. Apart from an entry that
/// it returns, a call writes nothing into the buffers.
pub proof fn law_next_returns_least<E>(
    files: Seq<StoredFile>,
    cursor: CursorState,
    key: Seq<u8>,
    value: Seq<u8>,
)
    requires
        reads(files, cursor),
    ensures
        ({
            let ahead = pending(files, cursor);
            let end = call::<E>(files, cursor, key, value);
            &&& reads(files, end.cursor)
            &&& end.cursor.upper == cursor.upper
            &&& end.key.len() == key.len()
            &&& end.value.len() == value.len()
            &&& ahead == Map::<Seq<u8>, Seq<u8>>::empty() <==> end.step == Step::<E>::Done(Ok(None))
            &&& ahead == Map::<Seq<u8>, Seq<u8>>::empty() ==> pending(files, end.cursor) == ahead
            &&& !(end.step matches Step::Done(Ok(Some(_)))) ==> end.key == key && end.value == value
            &&& forall|least: Seq<u8>| #[trigger]
                least_key(ahead, least) ==> {
                    if least.len() > key.len() {
                        &&& end.step == Step::<E>::Done(Err(CursorError::KeyBufferTooSmall))
                        &&& pending(files, end.cursor) == ahead
                    } else if ahead[least].len() > value.len() {
                        &&& end.step == Step::<E>::Done(Err(CursorError::ValueBufferTooSmall))
                        &&& pending(files, end.cursor) == ahead
                    } else {
                        &&& end.step matches Step::Done(Ok(Some((key_len, value_len))))
                        &&& key_len == least.len()
                        &&& value_len == ahead[least].len()
                        &&& end.key.take(least.len() as int) == least
                        &&& end.key.skip(least.len() as int) == key.skip(least.len() as int)
                        &&& end.value.take(ahead[least].len() as int) == ahead[least]
                        &&& end.value.skip(ahead[least].len() as int) == value.skip(
                            ahead[least].len() as int,
                        )
                        &&& end.key == overwrite(key, least)
                        &&& end.value == overwrite(value, ahead[least])
                        &&& pending(files, end.cursor) == ahead.remove(least)
                    }
                }
            &&& ahead != Map::<Seq<u8>, Seq<u8>>::empty() ==> exists|least: Seq<u8>|
                least_key(ahead, least)
        }),
{
    let ahead = pending(files, cursor);
    let end = call::<E>(files, cursor, key, value);
    lemma_call::<E>(
        files,
        cursor,
        key,
        value,
        DehydratedFileReader { file_id: 0, offset: 0 },
    );
    let start = cursor.next(EventView::<E>::Start, key, value);
    lemma_buffers_kept(
        files,
        start,
        DehydratedFileReader { file_id: 0, offset: 0 },
        request_bound(files, cursor),
        key,
        value,
    );
    let outcome = end.step->Done_0;
    match outcome {
        Ok(None) => {
            assert(ahead =~= Map::<Seq<u8>, Seq<u8>>::empty());
        },
        Ok(Some((key_len, value_len))) => {
            let found = end.key.take(key_len as int);
            assert(ahead.contains_key(found));
            assert(end.key =~= overwrite(key, found));
            assert(end.value =~= overwrite(value, ahead[found]));
            assert forall|least: Seq<u8>| #[trigger] least_key(ahead, least) implies least
                == found by {
                lemma_least_key_unique(ahead, least, found);
            }
        },
        Err(CursorError::KeyBufferTooSmall) => {
            let found = choose|found: Seq<u8>| #[trigger]
                least_key(ahead, found) && found.len() > end.key.len();
            assert(ahead.contains_key(found));
            assert forall|least: Seq<u8>| #[trigger] least_key(ahead, least) implies least
                == found by {
                lemma_least_key_unique(ahead, least, found);
            }
        },
        Err(_) => {
            let found = choose|found: Seq<u8>| #[trigger]
                least_key(ahead, found) && found.len() <= end.key.len() && ahead[found].len()
                    > end.value.len();
            assert(ahead.contains_key(found));
            assert forall|least: Seq<u8>| #[trigger] least_key(ahead, least) implies least
                == found by {
                lemma_least_key_unique(ahead, least, found);
            }
        },
    }
}

/// The entries that one call after the other returns, `calls` of them at most, up to the first
/// call that returns none.
pub open spec fn collect<E>(
    files: Seq<StoredFile>,
    cursor: CursorState,
    key: Seq<u8>,
    value: Seq<u8>,
    calls: nat,
) -> Seq<(Seq<u8>, Seq<u8>)>
    decreases calls,
{
    if calls == 0 {
        Seq::empty()
    } else {
        let end = call::<E>(files, cursor, key, value);
        match end.step {
            Step::Done(Ok(Some((key_len, value_len)))) => seq![
                (end.key.take(key_len as int), end.value.take(value_len as int)),
            ] + collect::<E>(files, end.cursor, end.key, end.value, (calls - 1) as nat),
            _ => Seq::empty(),
        }
    }
}

/// The list holds exactly the entries of the map, in ascending order of their keys.
pub open spec fn lists(list: Seq<(Seq<u8>, Seq<u8>)>, map: Map<Seq<u8>, Seq<u8>>) -> bool {
    &&& forall|i: int, j: int|
        0 <= i < j < list.len() ==> key_less((#[trigger] list[i]).0, (#[trigger] list[j]).0)
    &&& forall|i: int|
        0 <= i < list.len() ==> {
            &&& map.contains_key((#[trigger] list[i]).0)
            &&& map[list[i].0] == list[i].1
        }
    &&& forall|key: Seq<u8>| #[trigger]
        map.contains_key(key) ==> exists|i: int| 0 <= i < list.len() && (#[trigger] list[i]).0 == key
}

/// Calls with buffers that are long enough return exactly the entries ahead, each once, in
/// lexicographically ascending order. There are finitely many of them.
pub proof fn law_calls_list_entries<E>(
    files: Seq<StoredFile>,
    cursor: CursorState,
    key: Seq<u8>,
    value: Seq<u8>,
    calls: nat,
)
    requires
        reads(files, cursor),
        forall|k: Seq<u8>| #[trigger]
            pending(files, cursor).contains_key(k) ==> k.len() <= key.len() && pending(
                files,
                cursor,
            )[k].len() <= value.len(),
        pending(files, cursor).dom().len() <= calls,
    ensures
        pending(files, cursor).dom().finite(),
        lists(collect::<E>(files, cursor, key, value, calls), pending(files, cursor)),
    decreases calls,
{
    let map = pending(files, cursor);
    let list = collect::<E>(files, cursor, key, value, calls);
    let end = call::<E>(files, cursor, key, value);
    lemma_pending_finite(files, cursor);
    law_next_returns_least::<E>(files, cursor, key, value);
    if map == Map::<Seq<u8>, Seq<u8>>::empty() {
        assert(list =~= Seq::empty());
    } else {
        let least = choose|least: Seq<u8>| least_key(map, least);
        assert(map.dom().contains(least));
        let rest = map.remove(least);
        assert(rest.dom() =~= map.dom().remove(least));
        assert forall|k: Seq<u8>| #[trigger] rest.contains_key(k) implies k.len() <= key.len()
            && rest[k].len() <= value.len() by {
            assert(map.contains_key(k));
        }
        let tail = collect::<E>(files, end.cursor, end.key, end.value, (calls - 1) as nat);
        law_calls_list_entries::<E>(files, end.cursor, end.key, end.value, (calls - 1) as nat);
        assert(end.key.take(least.len() as int) =~= least);
        assert(end.value.take(map[least].len() as int) =~= map[least]);
        assert(list == seq![(least, map[least])] + tail);
        assert forall|i: int, j: int| 0 <= i < j < list.len() implies key_less(
            (#[trigger] list[i]).0,
            (#[trigger] list[j]).0,
        ) by {
            assert(list[j] == tail[j - 1]);
            assert(rest.contains_key(tail[j - 1].0));
            if i == 0 {
                assert(map.contains_key(list[j].0));
                law_key_less_total(least, list[j].0);
            } else {
                assert(list[i] == tail[i - 1]);
            }
        }
        assert forall|i: int| 0 <= i < list.len() implies {
            &&& map.contains_key((#[trigger] list[i]).0)
            &&& map[list[i].0] == list[i].1
        } by {
            if i > 0 {
                assert(list[i] == tail[i - 1]);
                assert(rest.contains_key(tail[i - 1].0));
            }
        }
        assert forall|k: Seq<u8>| #[trigger] map.contains_key(k) implies exists|i: int|
            0 <= i < list.len() && (#[trigger] list[i]).0 == k by {
            if k == least {
                assert(list[0].0 == k);
            } else {
                assert(rest.contains_key(k));
                let p = choose|p: int| 0 <= p < tail.len() && (#[trigger] tail[p]).0 == k;
                assert(list[p + 1].0 == k);
            }
        }
    }
}

/// A call over a sound store that is broken off, by a failure or by starting over, while no file
/// has yet told what it holds for the lowest key of the round, has lost no entry.
pub proof fn law_broken_off_early_loses_nothing<E>(
    files: Seq<StoredFile>,
    cursor: CursorState,
    key: Seq<u8>,
    value: Seq<u8>,
    at: DehydratedFileReader,
    requests: nat,
    error: ReadError<E>,
)
    requires
        reads(files, cursor),
        drive(files, cursor.next(EventView::<E>::Start, key, value), at, requests).step is Request,
        drive(
            files,
            cursor.next(EventView::<E>::Start, key, value),
            at,
            requests,
        ).cursor.is_highest_file,
        !(error is Eof),
    ensures
        ({
            let turn = drive(
                files,
                cursor.next(EventView::<E>::Start, key, value),
                at,
                requests,
            );
            let failed = turn.cursor.next(EventView::Failed(error), turn.key, turn.value);
            &&& reads(files, turn.cursor)
            &&& pending(files, turn.cursor) == pending(files, cursor)
            &&& failed.step == Step::<E>::Done(Err(as_cursor_error(without_eof(error))))
            &&& reads(files, failed.cursor)
            &&& pending(files, failed.cursor) == pending(files, cursor)
        }),
{
    lemma_call_under_way::<E>(files, cursor, key, value, at, requests);
}

} // verus!
