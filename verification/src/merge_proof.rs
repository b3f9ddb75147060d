//! Why the rounds of a cursor merge the files: the invariant of a call, and that every answer of a
//! sound store keeps it.

use vstd::prelude::*;
use crate::bound::{law_within_upper_downward, within_upper, BoundView};
use crate::config::FILE_COUNT;
use crate::cursor::{
    last_marked, next_reader, overwrite, CursorState, EventView, Phase, Request, Step, Turn,
};
use crate::errors::CursorError;
use crate::file::{DehydratedFileReader, RecordHeader};
use crate::keys::{
    key_less, key_order, law_key_less_asymmetric, law_key_less_irreflexive, law_key_less_total,
    law_key_less_transitive,
};
use crate::reading::{
    answer, drive, drive_accepted, pending, reader_behind, reads, record_count, request_bound,
};
use crate::store::{
    ahead, ascending, current_value, entries, holds, least_key, lemma_newest_decides,
    lemma_same_current_value, lemma_says, lemma_skip_ascending, lemma_skip_says, lemma_value_held,
    positioned, reader_past, runs, stands_in, store_wf, Record, StoredFile,
};

verus! {

/// The value of `key` in the runs, up to the upper bound.
pub open spec fn visible(
    runs: Seq<Seq<Record>>,
    upper: Option<BoundView>,
    key: Seq<u8>,
) -> Option<Seq<u8>> {
    if within_upper(upper, key) {
        current_value(runs, key, FILE_COUNT as int)
    } else {
        None
    }
}

/// The value of `key` in the map.
pub open spec fn entry(map: Map<Seq<u8>, Seq<u8>>, key: Seq<u8>) -> Option<Seq<u8>> {
    if map.contains_key(key) {
        Some(map[key])
    } else {
        None
    }
}

/// The entries of the runs are those of the map.
pub open spec fn shows(
    runs: Seq<Seq<Record>>,
    upper: Option<BoundView>,
    map: Map<Seq<u8>, Seq<u8>>,
) -> bool {
    forall|key: Seq<u8>| #[trigger] entry(map, key) == visible(runs, upper, key)
}

pub proof fn lemma_shows(runs: Seq<Seq<Record>>, upper: Option<BoundView>, map: Map<Seq<u8>, Seq<u8>>)
    ensures
        shows(runs, upper, map) <==> entries(runs, upper) == map,
{
    let all = entries(runs, upper);
    assert forall|key: Seq<u8>| #[trigger] entry(all, key) == visible(runs, upper, key) by {}
    if shows(runs, upper, map) {
        assert forall|key: Seq<u8>| #[trigger]
            all.dom().contains(key) == map.dom().contains(key) by {
            assert(entry(all, key) == entry(map, key));
        }
        assert(all.dom() =~= map.dom());
        assert forall|key: Seq<u8>| #[trigger] all.dom().contains(key) implies all[key]
            == map[key] by {
            assert(entry(all, key) == entry(map, key));
        }
        assert(all =~= map);
    }
}

/// All keys of the run come after `key`.
pub open spec fn beyond(run: Seq<Record>, key: Seq<u8>) -> bool {
    forall|p: int| 0 <= p < run.len() ==> key_less(key, (#[trigger] run[p]).key)
}

/// A run beyond a key does not hold it.
proof fn lemma_beyond(run: Seq<Record>, key: Seq<u8>)
    requires
        beyond(run, key),
    ensures
        !holds(run, key),
{
    if holds(run, key) {
        let p = choose|p: int| 0 <= p < run.len() && (#[trigger] run[p]).key == key;
        law_key_less_irreflexive(key);
    }
}

/// A run of ascending keys that starts after `key` lies beyond it.
proof fn lemma_head_beyond(run: Seq<Record>, key: Seq<u8>)
    requires
        ascending(run),
        run.len() > 0 ==> key_less(key, run[0].key),
    ensures
        beyond(run, key),
{
    assert forall|p: int| 0 <= p < run.len() implies key_less(key, (#[trigger] run[p]).key) by {
        if p > 0 {
            assert(key_less(run[0].key, run[p].key));
            law_key_less_transitive(key, run[0].key, run[p].key);
        }
    }
}

/// Behind its first record a run of ascending keys lies beyond that record's key.
proof fn lemma_rest_beyond(run: Seq<Record>)
    requires
        ascending(run),
        run.len() > 0,
    ensures
        ascending(run.skip(1)),
        beyond(run.skip(1), run[0].key),
{
    lemma_skip_ascending(run, 1);
    assert forall|p: int| 0 <= p < run.skip(1).len() implies key_less(
        run[0].key,
        (#[trigger] run.skip(1)[p]).key,
    ) by {
        assert(key_less(run[0].key, run[p + 1].key));
    }
}

/// What the readers have before them.
proof fn lemma_runs(files: Seq<StoredFile>, readers: Seq<Option<DehydratedFileReader>>)
    requires
        store_wf(files),
        positioned(files, readers),
    ensures
        runs(files, readers).len() == FILE_COUNT,
        forall|i: int|
            0 <= i < FILE_COUNT ==> ascending(#[trigger] runs(files, readers)[i]),
        forall|i: int, p: int|
            0 <= i < FILE_COUNT && 0 <= p < runs(files, readers)[i].len() ==> (
            #[trigger] runs(files, readers)[i][p]).fits(),
{
    let rs = runs(files, readers);
    assert forall|i: int| 0 <= i < FILE_COUNT implies ascending(#[trigger] rs[i]) by {
        if let Some(reader) = readers[i] {
            assert(stands_in(files, i, reader));
            lemma_skip_ascending(files[i].records, files[i].place(reader.offset));
        }
    }
    assert forall|i: int, p: int| 0 <= i < FILE_COUNT && 0 <= p < rs[i].len() implies (
    #[trigger] rs[i][p]).fits() by {
        if let Some(reader) = readers[i] {
            assert(stands_in(files, i, reader));
            assert(files[i].wf());
            let q = files[i].place(reader.offset);
            assert(rs[i][p] == files[i].records[q + p]);
        }
    }
}

/// What is read behind a reader that stands at a record.
proof fn lemma_bytes(files: Seq<StoredFile>, file: int, at: DehydratedFileReader)
    requires
        store_wf(files),
        0 <= file < FILE_COUNT,
        stands_in(files, file, at),
        ahead(files[file], Some(at)).len() > 0,
    ensures
        ({
            let f = files[file];
            let record = ahead(f, Some(at))[0];
            let header = record.header();
            let key = reader_past(at, f.header_size as int);
            let value = reader_past(key, header.key_len as int);
            &&& at.offset != f.bytes.len()
            &&& record == f.records[f.place(at.offset)]
            &&& header.key_len == record.key.len()
            &&& header.value_len == record.value.len()
            &&& f.read(key.offset, header.key_len) == Some(record.key)
            &&& f.read(value.offset, header.value_len) == Some(record.value)
            &&& reader_past(value, header.value_len as int) == reader_behind(files, at)
        }),
{
    let f = files[file];
    let p = f.place(at.offset);
    assert(f.wf());
    f.lemma_record(p);
    assert(f.laid_out(p));
}

/// A reader with nothing before it stands at the end.
proof fn lemma_at_end(files: Seq<StoredFile>, file: int, at: DehydratedFileReader)
    requires
        store_wf(files),
        0 <= file < FILE_COUNT,
        stands_in(files, file, at),
        ahead(files[file], Some(at)).len() == 0,
    ensures
        at.offset == files[file].bytes.len(),
{
    assert(files[file].wf());
}

/// The reader behind a record has the rest of the run before it.
proof fn lemma_behind(files: Seq<StoredFile>, file: int, at: DehydratedFileReader)
    requires
        store_wf(files),
        0 <= file < FILE_COUNT,
        stands_in(files, file, at),
        ahead(files[file], Some(at)).len() > 0,
    ensures
        stands_in(files, file, reader_behind(files, at)),
        ahead(files[file], Some(reader_behind(files, at))) == ahead(files[file], Some(at)).skip(1),
{
    let f = files[file];
    let p = f.place(at.offset);
    f.lemma_place(p + 1);
    assert(f.records.skip(p + 1) =~= f.records.skip(p).skip(1));
}

/// Changing one reader changes one run.
proof fn lemma_runs_update(
    files: Seq<StoredFile>,
    readers: Seq<Option<DehydratedFileReader>>,
    file: int,
    reader: Option<DehydratedFileReader>,
)
    requires
        readers.len() == FILE_COUNT,
        0 <= file < FILE_COUNT,
    ensures
        runs(files, readers.update(file, reader)) == runs(files, readers).update(
            file,
            ahead(files[file], reader),
        ),
{
    assert(runs(files, readers.update(file, reader)) =~= runs(files, readers).update(
        file,
        ahead(files[file], reader),
    ));
}

/// Dropping a reader that has nothing before it within the range changes no entry.
proof fn lemma_drop_shows(
    rs: Seq<Seq<Record>>,
    upper: Option<BoundView>,
    file: int,
    map: Map<Seq<u8>, Seq<u8>>,
)
    requires
        rs.len() == FILE_COUNT,
        0 <= file < FILE_COUNT,
        ascending(rs[file]),
        rs[file].len() > 0 ==> !within_upper(upper, rs[file][0].key),
        shows(rs, upper, map),
    ensures
        shows(rs.update(file, Seq::empty()), upper, map),
{
    let after = rs.update(file, Seq::<Record>::empty());
    assert forall|key: Seq<u8>| #[trigger] entry(map, key) == visible(after, upper, key) by {
        assert(entry(map, key) == visible(rs, upper, key));
        if within_upper(upper, key) {
            let run = rs[file];
            if holds(run, key) {
                let p = choose|p: int| 0 <= p < run.len() && (#[trigger] run[p]).key == key;
                if p > 0 {
                    assert(key_less(run[0].key, run[p].key));
                    law_within_upper_downward(upper, run[0].key, key);
                }
            }
            assert(!holds(Seq::<Record>::empty(), key));
            lemma_same_current_value(rs, after, key, FILE_COUNT as int);
        }
    }
}

/// Moving a reader past a record changes the entry of no other key.
proof fn lemma_advance_visible(
    rs: Seq<Seq<Record>>,
    upper: Option<BoundView>,
    file: int,
    key: Seq<u8>,
)
    requires
        rs.len() == FILE_COUNT,
        0 <= file < FILE_COUNT,
        ascending(rs[file]),
        rs[file].len() > 0,
        key != rs[file][0].key,
    ensures
        visible(rs.update(file, rs[file].skip(1)), upper, key) == visible(rs, upper, key),
{
    let after = rs.update(file, rs[file].skip(1));
    lemma_skip_says(rs[file], 1, key);
    lemma_same_current_value(rs, after, key, FILE_COUNT as int);
}

/// A key that no run holds has no entry.
proof fn lemma_not_held(rs: Seq<Seq<Record>>, upper: Option<BoundView>, key: Seq<u8>)
    requires
        forall|i: int| 0 <= i < FILE_COUNT ==> !holds(#[trigger] rs[i], key),
    ensures
        visible(rs, upper, key) is None,
{
    if visible(rs, upper, key) is Some {
        let i = lemma_value_held(rs, key, FILE_COUNT as int);
    }
}

/// Replacing a run by a shorter one lowers the number of records.
proof fn lemma_record_count_update(rs: Seq<Seq<Record>>, file: int, run: Seq<Record>, n: int)
    requires
        0 <= file < rs.len(),
        0 <= n <= rs.len(),
    ensures
        file >= n ==> record_count(rs.update(file, run), n) == record_count(rs, n),
        file < n ==> record_count(rs.update(file, run), n) == record_count(rs, n) - rs[file].len()
            + run.len(),
    decreases n,
{
    if n > 0 {
        lemma_record_count_update(rs, file, run, n - 1);
    }
}

/// What this round knows of a reader that it has looked at: it stands at a record within the
/// range, the lowest key is not above that of the record, and the mark tells whether it is the
/// same.
pub open spec fn looked_at(
    run: Seq<Record>,
    upper: Option<BoundView>,
    lowest: Option<Seq<u8>>,
    marked: bool,
) -> bool {
    &&& run.len() > 0
    &&& within_upper(upper, run[0].key)
    &&& lowest is Some
    &&& !key_less(run[0].key, lowest->0)
    &&& marked <==> run[0].key == lowest->0
}

/// The round has looked at the files below `below`, and `map` holds the entries ahead.
pub open spec fn scanned(
    files: Seq<StoredFile>,
    map: Map<Seq<u8>, Seq<u8>>,
    c: CursorState,
    below: int,
) -> bool {
    let rs = runs(files, c.readers);
    &&& positioned(files, c.readers)
    &&& c.is_lowest.len() == FILE_COUNT
    &&& shows(rs, c.upper, map)
    &&& c.is_highest_file
    &&& c.result is None
    &&& forall|i: int|
        0 <= i < below && (#[trigger] c.readers[i]) is Some ==> looked_at(
            rs[i],
            c.upper,
            c.lowest,
            c.is_lowest[i],
        )
    &&& forall|i: int|
        0 <= i < FILE_COUNT && #[trigger] c.is_lowest[i] ==> i < below && c.readers[i] is Some
    &&& c.lowest is Some ==> exists|i: int| 0 <= i < below && #[trigger] c.is_lowest[i]
}

/// The round has found its lowest key and has moved the marked readers from `below` on past it.
/// `map` holds the entries that were ahead before.
pub open spec fn advanced(
    files: Seq<StoredFile>,
    map: Map<Seq<u8>, Seq<u8>>,
    c: CursorState,
    below: int,
    key: Seq<u8>,
    value: Seq<u8>,
) -> bool {
    let rs = runs(files, c.readers);
    let lowest = c.lowest->0;
    &&& positioned(files, c.readers)
    &&& c.is_lowest.len() == FILE_COUNT
    &&& c.lowest is Some
    &&& within_upper(c.upper, lowest)
    &&& forall|other: Seq<u8>| #[trigger] map.contains_key(other) ==> !key_less(other, lowest)
    &&& forall|i: int|
        0 <= i < below && #[trigger] c.is_lowest[i] ==> {
            &&& c.readers[i] is Some
            &&& rs[i].len() > 0
            &&& rs[i][0].key == lowest
        }
    &&& forall|i: int|
        0 <= i < FILE_COUNT && (i >= below || !c.is_lowest[i]) ==> beyond(#[trigger] rs[i], lowest)
    &&& if c.is_highest_file {
        &&& shows(rs, c.upper, map)
        &&& c.result is None
        &&& forall|i: int| below <= i < FILE_COUNT ==> !#[trigger] c.is_lowest[i]
    } else {
        &&& forall|other: Seq<u8>|
            other != lowest ==> #[trigger] entry(map, other) == visible(rs, c.upper, other)
        &&& c.result is Some <==> map.contains_key(lowest)
        &&& c.result matches Some((key_len, value_len)) ==> {
            &&& key_len == lowest.len()
            &&& value_len == map[lowest].len()
            &&& key_len <= key.len()
            &&& value_len <= value.len()
            &&& key.take(key_len as int) == lowest
            &&& value.take(value_len as int) == map[lowest]
        }
    }
}

/// The reader in hand stands behind this header of the record that the reader of `file` stands at,
/// and behind its key where that is `passed`.
pub open spec fn in_hand(
    files: Seq<StoredFile>,
    c: CursorState,
    file: int,
    header: RecordHeader,
    passed: bool,
    at: DehydratedFileReader,
) -> bool {
    let run = runs(files, c.readers)[file];
    let key = reader_past(c.readers[file]->0, files[file].header_size as int);
    &&& c.readers[file] is Some
    &&& run.len() > 0
    &&& header == run[0].header()
    &&& at == if passed {
        reader_past(key, header.key_len as int)
    } else {
        key
    }
}

/// The invariant of a call under way.
pub open spec fn under_way<E>(
    files: Seq<StoredFile>,
    map: Map<Seq<u8>, Seq<u8>>,
    t: Turn<E>,
    request: Request,
    at: DehydratedFileReader,
) -> bool {
    let c = t.cursor;
    &&& c.wf()
    &&& match c.phase {
        Phase::Idle => false,
        Phase::ScanHeader { file } => {
            &&& scanned(files, map, c, file as int)
            &&& request == (Request::ReadHeader { reader: c.readers[file as int]->0 })
        },
        Phase::ScanKey { file, header } => {
            &&& scanned(files, map, c, file as int)
            &&& in_hand(files, c, file as int, header, false, at)
            &&& request == (Request::ReadKey { len: header.key_len })
        },
        Phase::AdvanceHeader { file } => {
            &&& advanced(files, map, c, file + 1, t.key, t.value)
            &&& request == (Request::ReadHeader { reader: c.readers[file as int]->0 })
        },
        Phase::AdvanceKey { file, header } => {
            &&& advanced(files, map, c, file + 1, t.key, t.value)
            &&& in_hand(files, c, file as int, header, false, at)
            &&& request == (Request::SkipKey { len: header.key_len })
        },
        Phase::AdvanceValue { file, header, take } => {
            &&& advanced(files, map, c, file + 1, t.key, t.value)
            &&& in_hand(files, c, file as int, header, true, at)
            &&& take == (c.is_highest_file && !header.is_delete)
            &&& if take {
                &&& request == (Request::ReadValue { len: header.value_len })
                &&& header.key_len <= t.key.len()
                &&& header.value_len <= t.value.len()
                &&& t.key.take(header.key_len as int) == c.lowest->0
            } else {
                request == (Request::SkipValue { len: header.value_len })
            }
        },
    }
}

/// What a call comes to, `map` holding the entries that were ahead before it.
pub open spec fn settled<E>(
    files: Seq<StoredFile>,
    map: Map<Seq<u8>, Seq<u8>>,
    t: Turn<E>,
    outcome: Result<Option<(usize, usize)>, CursorError<E>>,
) -> bool {
    let c = t.cursor;
    let rs = runs(files, c.readers);
    &&& c.wf()
    &&& c.phase is Idle
    &&& positioned(files, c.readers)
    &&& match outcome {
        Ok(None) => {
            &&& forall|key: Seq<u8>| !#[trigger] map.contains_key(key)
            &&& shows(rs, c.upper, map)
        },
        Ok(Some((key_len, value_len))) => {
            let key = t.key.take(key_len as int);
            &&& key_len <= t.key.len()
            &&& value_len <= t.value.len()
            &&& least_key(map, key)
            &&& map[key] == t.value.take(value_len as int)
            &&& shows(rs, c.upper, map.remove(key))
        },
        Err(CursorError::KeyBufferTooSmall) => {
            &&& exists|key: Seq<u8>| #[trigger] least_key(map, key) && key.len() > t.key.len()
            &&& shows(rs, c.upper, map)
        },
        Err(CursorError::ValueBufferTooSmall) => {
            &&& exists|key: Seq<u8>| #[trigger]
                least_key(map, key) && key.len() <= t.key.len() && map[key].len() > t.value.len()
            &&& shows(rs, c.upper, map)
        },
        _ => false,
    }
}

/// The invariant of a call, under way or over.
pub open spec fn sound<E>(
    files: Seq<StoredFile>,
    map: Map<Seq<u8>, Seq<u8>>,
    t: Turn<E>,
    at: DehydratedFileReader,
) -> bool {
    match t.step {
        Step::Request(request) => under_way(files, map, t, request, at),
        Step::Done(outcome) => settled(files, map, t, outcome),
    }
}

/// How many requests this round may still make.
pub open spec fn rank(phase: Phase) -> int {
    match phase {
        Phase::Idle => 0,
        Phase::ScanHeader { file } => 3 * FILE_COUNT + 2 * (FILE_COUNT - file),
        Phase::ScanKey { file, .. } => 3 * FILE_COUNT + 2 * (FILE_COUNT - file) - 1,
        Phase::AdvanceHeader { file } => 3 * file + 3,
        Phase::AdvanceKey { file, .. } => 3 * file + 2,
        Phase::AdvanceValue { file, .. } => 3 * file + 1,
    }
}

/// How many requests the call may still make.
pub open spec fn requests_left(files: Seq<StoredFile>, c: CursorState) -> int {
    (5 * FILE_COUNT + 1) * record_count(runs(files, c.readers), FILE_COUNT as int) + rank(c.phase)
}

/// Fewer records leave fewer requests, by more than a round makes.
proof fn lemma_fewer_records(fewer: nat, more: nat)
    ensures
        fewer <= more ==> (5 * FILE_COUNT + 1) * fewer <= (5 * FILE_COUNT + 1) * more,
        fewer < more ==> (5 * FILE_COUNT + 1) * fewer + 5 * FILE_COUNT + 1 <= (5 * FILE_COUNT + 1)
            * more,
{
    let cost: int = 5 * FILE_COUNT + 1;
    assert(fewer <= more ==> cost * fewer <= cost * more) by (nonlinear_arith)
        requires
            cost > 0,
    ;
    assert(fewer < more ==> cost * fewer + cost <= cost * more) by (nonlinear_arith)
        requires
            cost > 0,
    ;
}

pub proof fn lemma_next_reader(readers: Seq<Option<DehydratedFileReader>>, from: int)
    requires
        0 <= from <= readers.len(),
    ensures
        from <= next_reader(readers, from) <= readers.len(),
        next_reader(readers, from) < readers.len() ==> readers[next_reader(readers, from)] is Some,
        forall|i: int| from <= i < next_reader(readers, from) ==> (#[trigger] readers[i]) is None,
    decreases readers.len() - from,
{
    if from < readers.len() && readers[from] is None {
        lemma_next_reader(readers, from + 1);
    }
}

pub proof fn lemma_last_marked(marks: Seq<bool>, below: int)
    requires
        0 <= below <= marks.len(),
    ensures
        -1 <= last_marked(marks, below) < below || below == 0,
        last_marked(marks, below) >= 0 ==> marks[last_marked(marks, below)],
        last_marked(marks, below) >= -1,
        forall|i: int| last_marked(marks, below) < i < below ==> !#[trigger] marks[i],
    decreases below,
{
    if below > 0 && !marks[below - 1] {
        lemma_last_marked(marks, below - 1);
    }
}

proof fn lemma_begin_round<E>(
    files: Seq<StoredFile>,
    map: Map<Seq<u8>, Seq<u8>>,
    c: CursorState,
    key: Seq<u8>,
    value: Seq<u8>,
    at: DehydratedFileReader,
)
    requires
        store_wf(files),
        positioned(files, c.readers),
        shows(runs(files, c.readers), c.upper, map),
    ensures
        sound(files, map, c.begin_round::<E>(key, value), at),
        c.begin_round::<E>(key, value).cursor.readers == c.readers,
        rank(c.begin_round::<E>(key, value).cursor.phase) <= 5 * FILE_COUNT,
{
    let t = c.begin_round::<E>(key, value);
    let rs = runs(files, c.readers);
    lemma_next_reader(c.readers, 0);
    if t.step is Done {
        assert forall|k: Seq<u8>| !#[trigger] map.contains_key(k) by {
            assert forall|i: int| 0 <= i < FILE_COUNT implies !holds(#[trigger] rs[i], k) by {
                assert(c.readers[i] is None);
            }
            lemma_not_held(rs, c.upper, k);
            assert(entry(map, k) == visible(rs, c.upper, k));
        }
    }
}

proof fn lemma_advance_below<E>(
    files: Seq<StoredFile>,
    map: Map<Seq<u8>, Seq<u8>>,
    c: CursorState,
    below: int,
    key: Seq<u8>,
    value: Seq<u8>,
    at: DehydratedFileReader,
)
    requires
        store_wf(files),
        0 <= below <= FILE_COUNT,
        advanced(files, map, c, below, key, value),
        c.is_highest_file ==> exists|i: int| 0 <= i < below && #[trigger] c.is_lowest[i],
    ensures
        sound(files, map, c.advance_below::<E>(below, key, value), at),
        c.advance_below::<E>(below, key, value).cursor.readers == c.readers,
        c.is_highest_file ==> rank(c.advance_below::<E>(below, key, value).cursor.phase) <= 3
            * below,
        rank(c.advance_below::<E>(below, key, value).cursor.phase) <= 5 * FILE_COUNT,
{
    let t = c.advance_below::<E>(below, key, value);
    let rs = runs(files, c.readers);
    let lowest = c.lowest->0;
    let file = last_marked(c.is_lowest, below);
    lemma_last_marked(c.is_lowest, below);
    if file < 0 {
        assert forall|i: int| 0 <= i < FILE_COUNT implies !holds(#[trigger] rs[i], lowest) by {
            lemma_beyond(rs[i], lowest);
        }
        lemma_not_held(rs, c.upper, lowest);
        if let Some((key_len, value_len)) = c.result {
            let rest = map.remove(lowest);
            assert forall|other: Seq<u8>| #[trigger]
                entry(rest, other) == visible(rs, c.upper, other) by {
                if other != lowest {
                    assert(entry(map, other) == visible(rs, c.upper, other));
                }
            }
        } else {
            assert forall|other: Seq<u8>| #[trigger]
                entry(map, other) == visible(rs, c.upper, other) by {}
            lemma_begin_round::<E>(files, map, c, key, value, at);
        }
    } else {
        assert(advanced(files, map, t.cursor, file + 1, key, value));
    }
}

proof fn lemma_scan_from<E>(
    files: Seq<StoredFile>,
    map: Map<Seq<u8>, Seq<u8>>,
    c: CursorState,
    from: int,
    key: Seq<u8>,
    value: Seq<u8>,
    at: DehydratedFileReader,
)
    requires
        store_wf(files),
        0 <= from <= FILE_COUNT,
        scanned(files, map, c, from),
    ensures
        sound(files, map, c.scan_from::<E>(from, key, value), at),
        c.scan_from::<E>(from, key, value).cursor.readers == c.readers,
        rank(c.scan_from::<E>(from, key, value).cursor.phase) <= 3 * FILE_COUNT + 2 * (FILE_COUNT
            - from),
{
    let t = c.scan_from::<E>(from, key, value);
    let rs = runs(files, c.readers);
    let file = next_reader(c.readers, from);
    lemma_next_reader(c.readers, from);
    lemma_runs(files, c.readers);
    if file < FILE_COUNT {
        if c.lowest is Some {
            let marked = choose|i: int| 0 <= i < from && #[trigger] c.is_lowest[i];
            assert(t.cursor.is_lowest[marked]);
        }
        assert forall|i: int| 0 <= i < file && (#[trigger] t.cursor.readers[i]) is Some implies looked_at(
            rs[i],
            c.upper,
            c.lowest,
            c.is_lowest[i],
        ) by {
            assert(c.readers[i] is Some);
        }
        assert(scanned(files, map, t.cursor, file));
    } else if c.lowest is None {
        assert forall|k: Seq<u8>| !#[trigger] map.contains_key(k) by {
            assert forall|i: int| 0 <= i < FILE_COUNT implies !holds(#[trigger] rs[i], k) by {
                assert(c.readers[i] is None);
            }
            lemma_not_held(rs, c.upper, k);
            assert(entry(map, k) == visible(rs, c.upper, k));
        }
    } else {
        let lowest = c.lowest->0;
        assert forall|i: int|
            0 <= i < FILE_COUNT && !c.is_lowest[i] implies beyond(#[trigger] rs[i], lowest) by {
            if c.readers[i] is Some {
                assert(looked_at(rs[i], c.upper, c.lowest, c.is_lowest[i]));
                law_key_less_total(rs[i][0].key, lowest);
                lemma_head_beyond(rs[i], lowest);
            }
        }
        assert forall|i: int| 0 <= i < FILE_COUNT && #[trigger] c.is_lowest[i] implies {
            &&& c.readers[i] is Some
            &&& rs[i].len() > 0
            &&& rs[i][0].key == lowest
        } by {
            assert(looked_at(rs[i], c.upper, c.lowest, c.is_lowest[i]));
        }
        let marked = choose|i: int| 0 <= i < from && #[trigger] c.is_lowest[i];
        assert(looked_at(rs[marked], c.upper, c.lowest, c.is_lowest[marked]));
        assert forall|other: Seq<u8>| #[trigger] map.contains_key(other) implies !key_less(
            other,
            lowest,
        ) by {
            assert(entry(map, other) == visible(rs, c.upper, other));
            let i = lemma_value_held(rs, other, FILE_COUNT as int);
            let p = choose|p: int| 0 <= p < rs[i].len() && (#[trigger] rs[i][p]).key == other;
            assert(c.readers[i] is Some);
            assert(looked_at(rs[i], c.upper, c.lowest, c.is_lowest[i]));
            if key_less(other, lowest) {
                if p > 0 {
                    assert(key_less(rs[i][0].key, rs[i][p].key));
                    law_key_less_transitive(rs[i][0].key, other, lowest);
                }
            }
        }
        assert(advanced(files, map, c, FILE_COUNT as int, key, value));
        assert(c.is_lowest[marked]);
        lemma_advance_below::<E>(files, map, c, FILE_COUNT as int, key, value, at);
    }
}

/// Dropping the reader at hand while looking at the files.
proof fn lemma_scan_dropped(
    files: Seq<StoredFile>,
    map: Map<Seq<u8>, Seq<u8>>,
    c: CursorState,
    file: int,
)
    requires
        store_wf(files),
        0 <= file < FILE_COUNT,
        scanned(files, map, c, file),
        ({
            let run = runs(files, c.readers)[file];
            run.len() > 0 ==> !within_upper(c.upper, run[0].key)
        }),
    ensures
        scanned(files, map, c.without_reader(file), file + 1),
        record_count(runs(files, c.without_reader(file).readers), FILE_COUNT as int)
            <= record_count(runs(files, c.readers), FILE_COUNT as int),
{
    let d = c.without_reader(file);
    let rs = runs(files, c.readers);
    lemma_runs(files, c.readers);
    lemma_runs_update(files, c.readers, file, None);
    lemma_drop_shows(rs, c.upper, file, map);
    lemma_record_count_update(rs, file, Seq::empty(), FILE_COUNT as int);
    assert forall|i: int| 0 <= i < file + 1 && (#[trigger] d.readers[i]) is Some implies looked_at(
        runs(files, d.readers)[i],
        d.upper,
        d.lowest,
        d.is_lowest[i],
    ) by {
        assert(c.readers[i] is Some);
    }
    assert forall|i: int| 0 <= i < FILE_COUNT && #[trigger] d.is_lowest[i] implies i < file + 1
        && d.readers[i] is Some by {
        assert(c.is_lowest[i]);
    }
    if c.lowest is Some {
        let marked = choose|i: int| 0 <= i < file && #[trigger] c.is_lowest[i];
        assert(d.is_lowest[marked]);
    }
}

/// Taking note of the key of the record at hand while looking at the files.
proof fn lemma_scan_met(
    files: Seq<StoredFile>,
    map: Map<Seq<u8>, Seq<u8>>,
    c: CursorState,
    file: int,
)
    requires
        store_wf(files),
        0 <= file < FILE_COUNT,
        scanned(files, map, c, file),
        c.readers[file] is Some,
        runs(files, c.readers)[file].len() > 0,
        within_upper(c.upper, runs(files, c.readers)[file][0].key),
    ensures
        scanned(files, map, c.met(file, runs(files, c.readers)[file][0].key), file + 1),
{
    let rs = runs(files, c.readers);
    let key = rs[file][0].key;
    let d = c.met(file, key);
    law_key_less_irreflexive(key);
    if c.lowest is Some {
        law_key_less_total(key, c.lowest->0);
        let marked = choose|i: int| 0 <= i < file && #[trigger] c.is_lowest[i];
        if !(key_order(key, c.lowest->0) is Less) {
            assert(d.is_lowest[marked]);
            if key_less(key, c.lowest->0) {
                law_key_less_asymmetric(key, c.lowest->0);
            }
        }
    }
    if c.lowest is None || key_order(key, c.lowest->0) is Less {
        assert(d.is_lowest[file]);
    }
    assert forall|i: int| 0 <= i < file + 1 && (#[trigger] d.readers[i]) is Some implies looked_at(
        rs[i],
        d.upper,
        d.lowest,
        d.is_lowest[i],
    ) by {
        if i < file {
            assert(c.readers[i] is Some);
            assert(looked_at(rs[i], c.upper, c.lowest, c.is_lowest[i]));
            if key_order(key, c.lowest->0) is Less {
                let head = rs[i][0].key;
                if head == key || key_less(head, key) {
                    if head != key {
                        law_key_less_transitive(head, key, c.lowest->0);
                    }
                }
            }
        }
    }
    assert forall|i: int| 0 <= i < FILE_COUNT && #[trigger] d.is_lowest[i] implies i < file + 1
        && d.readers[i] is Some by {
        if i != file {
            assert(c.is_lowest[i]);
        }
    }
}

/// The answer to a request that looks at a file keeps the invariant.
proof fn lemma_scan_step<E>(
    files: Seq<StoredFile>,
    map: Map<Seq<u8>, Seq<u8>>,
    t: Turn<E>,
    request: Request,
    at: DehydratedFileReader,
)
    requires
        store_wf(files),
        t.step == Step::<E>::Request(request),
        under_way(files, map, t, request, at),
        t.cursor.phase is ScanHeader || t.cursor.phase is ScanKey,
    ensures
        ({
            let (event, at) = answer::<E>(files, at, request);
            let after = t.cursor.next(event, t.key, t.value);
            &&& t.cursor.accepts(event, t.key.len(), t.value.len())
            &&& sound(files, map, after, at)
            &&& requests_left(files, after.cursor) < requests_left(files, t.cursor)
        }),
{
    let c = t.cursor;
    let rs = runs(files, c.readers);
    let (event, hand) = answer::<E>(files, at, request);
    lemma_runs(files, c.readers);
    assert(FILE_COUNT == 10);
    match c.phase {
        Phase::ScanHeader { file } => {
            let file = file as int;
            let reader = c.readers[file]->0;
            assert(stands_in(files, file, reader));
            assert(ahead(files[file], Some(reader)) == rs[file]);
            if rs[file].len() == 0 {
                lemma_at_end(files, file, reader);
                lemma_scan_dropped(files, map, c, file);
                lemma_scan_from::<E>(
                    files,
                    map,
                    c.without_reader(file),
                    file + 1,
                    t.key,
                    t.value,
                    hand,
                );
            } else {
                assert(rs[file][0].fits());
                lemma_bytes(files, file, reader);
                assert(event == EventView::<E>::Header(rs[file][0].header()));
                let after = c.next(event, t.key, t.value);
                assert(after.cursor == CursorState { phase: after.cursor.phase, ..c });
                assert(scanned(files, map, after.cursor, file));
            }
        },
        Phase::ScanKey { file, header } => {
            let file = file as int;
            let reader = c.readers[file]->0;
            assert(stands_in(files, file, reader));
            assert(ahead(files[file], Some(reader)) == rs[file]);
            assert(rs[file][0].fits());
            lemma_bytes(files, file, reader);
            let key = rs[file][0].key;
            if within_upper(c.upper, key) {
                lemma_scan_met(files, map, c, file);
                lemma_scan_from::<E>(
                    files,
                    map,
                    c.met(file, key),
                    file + 1,
                    t.key,
                    t.value,
                    hand,
                );
            } else {
                lemma_scan_dropped(files, map, c, file);
                lemma_scan_from::<E>(
                    files,
                    map,
                    c.without_reader(file),
                    file + 1,
                    t.key,
                    t.value,
                    hand,
                );
            }
        },
        _ => {},
    }
    let after = c.next(event, t.key, t.value);
    assert(c.accepts(event, t.key.len(), t.value.len()));
    assert(sound(files, map, after, hand));
    lemma_fewer_records(
        record_count(runs(files, after.cursor.readers), FILE_COUNT as int),
        record_count(rs, FILE_COUNT as int),
    );
    assert(requests_left(files, after.cursor) < requests_left(files, c));
}

/// While no file has been asked for the lowest key, the newest marked one decides on it.
proof fn lemma_highest_decides(
    files: Seq<StoredFile>,
    map: Map<Seq<u8>, Seq<u8>>,
    c: CursorState,
    file: int,
    key: Seq<u8>,
    value: Seq<u8>,
)
    requires
        store_wf(files),
        0 <= file < FILE_COUNT,
        advanced(files, map, c, file + 1, key, value),
        c.is_lowest[file],
        c.is_highest_file,
    ensures
        entry(map, c.lowest->0) == runs(files, c.readers)[file][0].told(),
        map.contains_key(c.lowest->0) ==> least_key(map, c.lowest->0),
{
    let rs = runs(files, c.readers);
    let lowest = c.lowest->0;
    lemma_runs(files, c.readers);
    assert(entry(map, lowest) == visible(rs, c.upper, lowest));
    lemma_says(rs[file], 0);
    assert forall|i: int| file < i < FILE_COUNT implies !holds(#[trigger] rs[i], lowest) by {
        lemma_beyond(rs[i], lowest);
    }
    lemma_newest_decides(rs, lowest, file, FILE_COUNT as int);
}

/// The cursor after the marked reader at hand has been moved behind its record.
pub open spec fn moved(
    files: Seq<StoredFile>,
    c: CursorState,
    file: int,
    result: Option<(usize, usize)>,
) -> CursorState {
    CursorState {
        readers: c.readers.update(file, Some(reader_behind(files, c.readers[file]->0))),
        is_highest_file: false,
        result,
        ..c
    }
}

/// Moving the reader at hand past the lowest key.
proof fn lemma_moved(
    files: Seq<StoredFile>,
    map: Map<Seq<u8>, Seq<u8>>,
    c: CursorState,
    file: int,
    result: Option<(usize, usize)>,
    key: Seq<u8>,
    value: Seq<u8>,
    new_value: Seq<u8>,
)
    requires
        store_wf(files),
        0 <= file < FILE_COUNT,
        advanced(files, map, c, file + 1, key, value),
        c.is_lowest[file],
        result is Some <==> map.contains_key(c.lowest->0),
        result matches Some((key_len, value_len)) ==> {
            &&& key_len == c.lowest->0.len()
            &&& value_len == map[c.lowest->0].len()
            &&& key_len <= key.len()
            &&& value_len <= new_value.len()
            &&& key.take(key_len as int) == c.lowest->0
            &&& new_value.take(value_len as int) == map[c.lowest->0]
        },
    ensures
        advanced(files, map, moved(files, c, file, result), file, key, new_value),
        record_count(runs(files, moved(files, c, file, result).readers), FILE_COUNT as int)
            < record_count(runs(files, c.readers), FILE_COUNT as int),
{
    let d = moved(files, c, file, result);
    let rs = runs(files, c.readers);
    let at = c.readers[file]->0;
    let lowest = c.lowest->0;
    lemma_runs(files, c.readers);
    assert(stands_in(files, file, at));
    assert(rs[file] == ahead(files[file], Some(at)));
    lemma_behind(files, file, at);
    lemma_runs_update(files, c.readers, file, d.readers[file]);
    let after = runs(files, d.readers);
    assert(after == rs.update(file, rs[file].skip(1)));
    lemma_record_count_update(rs, file, rs[file].skip(1), FILE_COUNT as int);
    lemma_rest_beyond(rs[file]);
    assert forall|i: int| 0 <= i < FILE_COUNT implies ((#[trigger] d.readers[i]) matches Some(
        reader,
    ) ==> stands_in(files, i, reader)) by {
        if i != file {
            assert(d.readers[i] == c.readers[i]);
        }
    }
    assert forall|i: int| 0 <= i < file && #[trigger] d.is_lowest[i] implies {
        &&& d.readers[i] is Some
        &&& after[i].len() > 0
        &&& after[i][0].key == lowest
    } by {
        assert(c.is_lowest[i]);
    }
    assert forall|i: int| 0 <= i < FILE_COUNT && (i >= file || !d.is_lowest[i]) implies beyond(
        #[trigger] after[i],
        lowest,
    ) by {
        if i != file {
            assert(beyond(rs[i], lowest));
        }
    }
    assert forall|other: Seq<u8>| other != lowest implies #[trigger] entry(map, other) == visible(
        after,
        c.upper,
        other,
    ) by {
        assert(entry(map, other) == visible(rs, c.upper, other));
        lemma_advance_visible(rs, c.upper, file, other);
    }
}

/// The answer to a request that moves a reader keeps the invariant.
proof fn lemma_advance_step<E>(
    files: Seq<StoredFile>,
    map: Map<Seq<u8>, Seq<u8>>,
    t: Turn<E>,
    request: Request,
    at: DehydratedFileReader,
)
    requires
        store_wf(files),
        t.step == Step::<E>::Request(request),
        under_way(files, map, t, request, at),
        t.cursor.phase is AdvanceHeader || t.cursor.phase is AdvanceKey,
    ensures
        ({
            let (event, at) = answer::<E>(files, at, request);
            let after = t.cursor.next(event, t.key, t.value);
            &&& t.cursor.accepts(event, t.key.len(), t.value.len())
            &&& sound(files, map, after, at)
            &&& requests_left(files, after.cursor) < requests_left(files, t.cursor)
        }),
{
    let c = t.cursor;
    let rs = runs(files, c.readers);
    let (event, hand) = answer::<E>(files, at, request);
    let after = c.next(event, t.key, t.value);
    lemma_runs(files, c.readers);
    assert(FILE_COUNT == 10);
    match c.phase {
        Phase::AdvanceHeader { file } => {
            let file = file as int;
            let reader = c.readers[file]->0;
            assert(stands_in(files, file, reader));
            assert(ahead(files[file], Some(reader)) == rs[file]);
            assert(rs[file][0].fits());
            lemma_bytes(files, file, reader);
            assert(advanced(files, map, after.cursor, file + 1, after.key, after.value));
        },
        Phase::AdvanceKey { file, header } => {
            let file = file as int;
            let reader = c.readers[file]->0;
            assert(stands_in(files, file, reader));
            assert(ahead(files[file], Some(reader)) == rs[file]);
            assert(rs[file][0].fits());
            lemma_bytes(files, file, reader);
            let lowest = c.lowest->0;
            if c.is_highest_file && !header.is_delete {
                lemma_highest_decides(files, map, c, file, t.key, t.value);
                if header.key_len > t.key.len() {
                    assert(least_key(map, lowest));
                } else if header.value_len > t.value.len() {
                    assert(least_key(map, lowest));
                } else {
                    assert(after.key.take(header.key_len as int) =~= lowest);
                    assert(advanced(files, map, after.cursor, file + 1, after.key, after.value));
                }
            } else {
                assert(advanced(files, map, after.cursor, file + 1, after.key, after.value));
            }
        },
        _ => {},
    }
    assert(c.accepts(event, t.key.len(), t.value.len()));
    assert(sound(files, map, after, hand));
    lemma_fewer_records(
        record_count(runs(files, after.cursor.readers), FILE_COUNT as int),
        record_count(rs, FILE_COUNT as int),
    );
}

/// The answer to a request that reads or skips a value keeps the invariant.
proof fn lemma_value_step<E>(
    files: Seq<StoredFile>,
    map: Map<Seq<u8>, Seq<u8>>,
    t: Turn<E>,
    request: Request,
    at: DehydratedFileReader,
)
    requires
        store_wf(files),
        t.step == Step::<E>::Request(request),
        under_way(files, map, t, request, at),
        t.cursor.phase is AdvanceValue,
    ensures
        ({
            let (event, at) = answer::<E>(files, at, request);
            let after = t.cursor.next(event, t.key, t.value);
            &&& t.cursor.accepts(event, t.key.len(), t.value.len())
            &&& sound(files, map, after, at)
            &&& requests_left(files, after.cursor) < requests_left(files, t.cursor)
        }),
{
    let c = t.cursor;
    let rs = runs(files, c.readers);
    let (event, hand) = answer::<E>(files, at, request);
    let after = c.next(event, t.key, t.value);
    lemma_runs(files, c.readers);
    assert(FILE_COUNT == 10);
    if let Phase::AdvanceValue { file, header, take } = c.phase {
        let file = file as int;
        let lowest = c.lowest->0;
        let reader = c.readers[file]->0;
        assert(stands_in(files, file, reader));
        assert(ahead(files[file], Some(reader)) == rs[file]);
        assert(rs[file][0].fits());
        lemma_bytes(files, file, reader);
        let result = if take {
            Some((header.key_len, header.value_len))
        } else {
            c.result
        };
        if c.is_highest_file {
            lemma_highest_decides(files, map, c, file, t.key, t.value);
        }
        let bytes = rs[file][0].value;
        let new_value = if take {
            overwrite(t.value, bytes)
        } else {
            t.value
        };
        if take {
            assert(new_value.take(header.value_len as int) =~= bytes);
        }
        lemma_moved(files, map, c, file, result, t.key, t.value, new_value);
        let d = moved(files, c, file, result);
        lemma_advance_below::<E>(files, map, d, file, t.key, new_value, hand);
        assert(after == d.advance_below::<E>(file, t.key, new_value));
        lemma_fewer_records(
            record_count(runs(files, after.cursor.readers), FILE_COUNT as int),
            record_count(rs, FILE_COUNT as int),
        );
    }
}

/// Every answer of a sound store keeps the invariant of a call.
pub proof fn lemma_step<E>(
    files: Seq<StoredFile>,
    map: Map<Seq<u8>, Seq<u8>>,
    t: Turn<E>,
    request: Request,
    at: DehydratedFileReader,
)
    requires
        store_wf(files),
        t.step == Step::<E>::Request(request),
        sound(files, map, t, at),
    ensures
        ({
            let (event, at) = answer::<E>(files, at, request);
            let after = t.cursor.next(event, t.key, t.value);
            &&& t.cursor.accepts(event, t.key.len(), t.value.len())
            &&& sound(files, map, after, at)
            &&& requests_left(files, after.cursor) < requests_left(files, t.cursor)
        }),
{
    match t.cursor.phase {
        Phase::Idle => {},
        Phase::ScanHeader { .. } | Phase::ScanKey { .. } => {
            lemma_scan_step(files, map, t, request, at);
        },
        Phase::AdvanceHeader { .. } | Phase::AdvanceKey { .. } => {
            lemma_advance_step(files, map, t, request, at);
        },
        Phase::AdvanceValue { .. } => {
            lemma_value_step(files, map, t, request, at);
        },
    }
}

/// An event leaves the upper bound and the lengths of the buffers as they are.
pub proof fn lemma_next_frame<E>(
    c: CursorState,
    event: EventView<E>,
    key: Seq<u8>,
    value: Seq<u8>,
)
    requires
        c.wf(),
        c.accepts(event, key.len(), value.len()),
    ensures
        c.next(event, key, value).cursor.upper == c.upper,
        c.next(event, key, value).key.len() == key.len(),
        c.next(event, key, value).value.len() == value.len(),
{
}

/// A call that is under way comes to its end.
pub proof fn lemma_drive<E>(
    files: Seq<StoredFile>,
    map: Map<Seq<u8>, Seq<u8>>,
    t: Turn<E>,
    at: DehydratedFileReader,
    fuel: nat,
)
    requires
        store_wf(files),
        sound(files, map, t, at),
        requests_left(files, t.cursor) <= fuel,
    ensures
        ({
            let end = drive(files, t, at, fuel);
            &&& end.step matches Step::Done(outcome)
            &&& settled(files, map, end, outcome)
            &&& end.cursor.upper == t.cursor.upper
            &&& end.key.len() == t.key.len()
            &&& end.value.len() == t.value.len()
        }),
        drive_accepted(files, t, at, fuel),
    decreases fuel,
{
    if let Step::Request(request) = t.step {
        let (event, hand) = answer::<E>(files, at, request);
        let after = t.cursor.next(event, t.key, t.value);
        lemma_step(files, map, t, request, at);
        lemma_next_frame(t.cursor, event, t.key, t.value);
        assert(requests_left(files, after.cursor) >= 0) by {
            lemma_fewer_records(
                0,
                record_count(runs(files, after.cursor.readers), FILE_COUNT as int),
            );
        }
        lemma_drive(files, map, after, hand, (fuel - 1) as nat);
    }
}

/// A call over a sound store comes to its end.
pub proof fn lemma_call<E>(
    files: Seq<StoredFile>,
    cursor: CursorState,
    key: Seq<u8>,
    value: Seq<u8>,
    at: DehydratedFileReader,
)
    requires
        reads(files, cursor),
    ensures
        ({
            let map = pending(files, cursor);
            let start = cursor.next(EventView::<E>::Start, key, value);
            let end = drive(files, start, at, request_bound(files, cursor));
            &&& end.step matches Step::Done(outcome)
            &&& settled(files, map, end, outcome)
            &&& reads(files, end.cursor)
            &&& end.cursor.upper == cursor.upper
            &&& end.key.len() == key.len()
            &&& end.value.len() == value.len()
            &&& match outcome {
                Ok(Some((key_len, _))) => pending(files, end.cursor) == map.remove(
                    end.key.take(key_len as int),
                ),
                _ => pending(files, end.cursor) == map,
            }
            &&& drive_accepted(files, start, at, request_bound(files, cursor))
        }),
{
    let map = pending(files, cursor);
    let rs = runs(files, cursor.readers);
    let start = cursor.next(EventView::<E>::Start, key, value);
    let bound = request_bound(files, cursor);
    let end = drive(files, start, at, bound);
    lemma_shows(rs, cursor.upper, map);
    lemma_begin_round::<E>(files, map, cursor, key, value, at);
    lemma_fewer_records(0, record_count(rs, FILE_COUNT as int));
    lemma_drive(files, map, start, at, bound);
    let after = runs(files, end.cursor.readers);
    match end.step->Done_0 {
        Ok(Some((key_len, _))) => {
            lemma_shows(after, cursor.upper, map.remove(end.key.take(key_len as int)));
        },
        _ => {
            lemma_shows(after, cursor.upper, map);
        },
    }
}

/// What a call has done so far to buffers that held `key` and `value`: nothing, but for the start of
/// them where it has an entry at hand.
pub open spec fn buffers_kept<E>(t: Turn<E>, key: Seq<u8>, value: Seq<u8>) -> bool {
    let c = t.cursor;
    &&& t.key.len() == key.len()
    &&& t.value.len() == value.len()
    &&& match t.step {
        Step::Request(_) => match (c.result, c.phase) {
            (Some((key_len, value_len)), phase) => {
                &&& !c.is_highest_file
                &&& phase is AdvanceHeader || phase is AdvanceKey || phase is AdvanceValue
                &&& !(phase matches Phase::AdvanceValue { take: true, .. })
                &&& t.key.skip(key_len as int) == key.skip(key_len as int)
                &&& t.value.skip(value_len as int) == value.skip(value_len as int)
            },
            (None, Phase::AdvanceValue { header, take: true, .. }) => {
                &&& t.key.skip(header.key_len as int) == key.skip(header.key_len as int)
                &&& t.value == value
            },
            _ => {
                &&& t.key == key
                &&& t.value == value
            },
        },
        Step::Done(Ok(Some((key_len, value_len)))) => {
            &&& t.key.skip(key_len as int) == key.skip(key_len as int)
            &&& t.value.skip(value_len as int) == value.skip(value_len as int)
        },
        Step::Done(Ok(None)) | Step::Done(Err(CursorError::KeyBufferTooSmall)) | Step::Done(
            Err(CursorError::ValueBufferTooSmall),
        ) => {
            &&& t.key == key
            &&& t.value == value
        },
        Step::Done(Err(_)) => true,
    }
}

/// An event leaves the buffers as they were behind the entry.
proof fn lemma_buffers_step<E>(t: Turn<E>, event: EventView<E>, key: Seq<u8>, value: Seq<u8>)
    requires
        t.step is Request,
        !(event is Start),
        t.cursor.accepts(event, t.key.len(), t.value.len()),
        buffers_kept(t, key, value),
    ensures
        buffers_kept(t.cursor.next(event, t.key, t.value), key, value),
{
    match (event, t.cursor.phase) {
        (EventView::Skipped, Phase::AdvanceKey { header, .. }) => {
            let lowest = t.cursor.lowest->0;
            assert(lowest.len() <= t.key.len() ==> overwrite(t.key, lowest).skip(
                lowest.len() as int,
            ) =~= t.key.skip(lowest.len() as int));
        },
        (EventView::Value { bytes, .. }, _) => {
            assert(overwrite(t.value, bytes).skip(bytes.len() as int) =~= t.value.skip(
                bytes.len() as int,
            ));
        },
        _ => {},
    }
}

/// A call leaves the buffers as they were behind the entry.
pub proof fn lemma_buffers_kept<E>(
    files: Seq<StoredFile>,
    t: Turn<E>,
    at: DehydratedFileReader,
    fuel: nat,
    key: Seq<u8>,
    value: Seq<u8>,
)
    requires
        drive_accepted(files, t, at, fuel),
        buffers_kept(t, key, value),
    ensures
        buffers_kept(drive(files, t, at, fuel), key, value),
    decreases fuel,
{
    if let Step::Request(request) = t.step {
        if fuel > 0 {
            let (event, hand) = answer::<E>(files, at, request);
            let after = t.cursor.next(event, t.key, t.value);
            lemma_buffers_step(t, event, key, value);
            lemma_buffers_kept(files, after, hand, (fuel - 1) as nat, key, value);
        }
    }
}

/// There are no more entries than records.
pub proof fn lemma_entries_finite(rs: Seq<Seq<Record>>, upper: Option<BoundView>)
    requires
        rs.len() == FILE_COUNT,
    ensures
        entries(rs, upper).dom().finite(),
        entries(rs, upper).dom().len() <= record_count(rs, FILE_COUNT as int),
{
    lemma_keys_finite(rs, FILE_COUNT as int);
    let held = Set::new(
        |key: Seq<u8>| exists|i: int| 0 <= i < FILE_COUNT && holds(#[trigger] rs[i], key),
    );
    let map = entries(rs, upper);
    assert forall|key: Seq<u8>| #[trigger] map.dom().contains(key) implies held.contains(key) by {
        let i = lemma_value_held(rs, key, FILE_COUNT as int);
        assert(holds(rs[i], key));
    }
    assert(map.dom().subset_of(held));
    vstd::set_lib::lemma_len_subset(map.dom(), held);
}

/// Only finitely many entries are ahead.
pub proof fn lemma_pending_finite(files: Seq<StoredFile>, cursor: CursorState)
    ensures
        pending(files, cursor).dom().finite(),
{
    lemma_entries_finite(runs(files, cursor.readers), cursor.upper);
}

/// No more keys than records occur in the first `n` runs.
proof fn lemma_keys_finite(rs: Seq<Seq<Record>>, n: int)
    requires
        0 <= n <= rs.len(),
    ensures
        Set::new(
            |key: Seq<u8>| exists|i: int| 0 <= i < n && holds(#[trigger] rs[i], key),
        ).finite(),
        Set::new(
            |key: Seq<u8>| exists|i: int| 0 <= i < n && holds(#[trigger] rs[i], key),
        ).len() <= record_count(rs, n),
    decreases n,
{
    let held = Set::new(
        |key: Seq<u8>| exists|i: int| 0 <= i < n && holds(#[trigger] rs[i], key),
    );
    if n == 0 {
        assert(held =~= Set::empty());
    } else {
        lemma_keys_finite(rs, n - 1);
        let before = Set::new(
            |key: Seq<u8>| exists|i: int| 0 <= i < n - 1 && holds(#[trigger] rs[i], key),
        );
        let keys = rs[n - 1].map_values(|record: Record| record.key);
        vstd::seq_lib::seq_to_set_is_finite(keys);
        keys.lemma_cardinality_of_set();
        let both = before.union(keys.to_set());
        vstd::set_lib::lemma_len_union(before, keys.to_set());
        assert forall|key: Seq<u8>| #[trigger] held.contains(key) implies both.contains(key) by {
            if holds(rs[n - 1], key) {
                let run = rs[n - 1];
                let p = choose|p: int| 0 <= p < run.len() && (#[trigger] run[p]).key == key;
                assert(keys[p] == key);
            }
        }
        assert(held.subset_of(both));
        vstd::set_lib::lemma_len_subset(held, both);
    }
}

/// The invariant holds after any number of requests.
proof fn lemma_drive_partly<E>(
    files: Seq<StoredFile>,
    map: Map<Seq<u8>, Seq<u8>>,
    t: Turn<E>,
    at: DehydratedFileReader,
    fuel: nat,
) -> (hand: DehydratedFileReader)
    requires
        store_wf(files),
        sound(files, map, t, at),
    ensures
        sound(files, map, drive(files, t, at, fuel), hand),
        drive(files, t, at, fuel).cursor.upper == t.cursor.upper,
    decreases fuel,
{
    match t.step {
        Step::Request(request) if fuel > 0 => {
            let (event, hand) = answer::<E>(files, at, request);
            let after = t.cursor.next(event, t.key, t.value);
            lemma_step(files, map, t, request, at);
            lemma_next_frame(t.cursor, event, t.key, t.value);
            lemma_drive_partly(files, map, after, hand, (fuel - 1) as nat)
        },
        _ => at,
    }
}

/// A call under way in which no file has told yet what it holds for the lowest key has all the
/// entries ahead that it began with.
pub proof fn lemma_call_under_way<E>(
    files: Seq<StoredFile>,
    cursor: CursorState,
    key: Seq<u8>,
    value: Seq<u8>,
    at: DehydratedFileReader,
    fuel: nat,
)
    requires
        reads(files, cursor),
    ensures
        ({
            let start = cursor.next(EventView::<E>::Start, key, value);
            let turn = drive(files, start, at, fuel);
            turn.step is Request && turn.cursor.is_highest_file ==> {
                &&& reads(files, turn.cursor)
                &&& !(turn.cursor.phase is Idle)
                &&& pending(files, turn.cursor) == pending(files, cursor)
            }
        }),
{
    let map = pending(files, cursor);
    let rs = runs(files, cursor.readers);
    let start = cursor.next(EventView::<E>::Start, key, value);
    let turn = drive(files, start, at, fuel);
    lemma_shows(rs, cursor.upper, map);
    lemma_begin_round::<E>(files, map, cursor, key, value, at);
    let hand = lemma_drive_partly(files, map, start, at, fuel);
    lemma_shows(runs(files, turn.cursor.readers), cursor.upper, map);
}

} // verus!
