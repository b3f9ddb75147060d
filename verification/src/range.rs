//! Reading a range from a sound store: what opening a cursor comes to when every request is
//! answered from the files as they are, and what the calls that follow return.

use vstd::prelude::*;
use crate::bound::{
    law_lower_bound_cuts, law_upper_bound_cuts, law_within_lower_upward, within_lower, BoundView,
};
use crate::config::{FileID, FILE_COUNT};
use crate::cursor::CursorState;
use crate::errors::ReadError;
use crate::file::{DehydratedFileReader, SeekDirection};
use crate::keys::{
    key_less, law_key_less_asymmetric, law_key_less_irreflexive, law_key_less_total,
    law_key_less_transitive,
};
use crate::merge_proof::lemma_entries_finite;
use crate::opening::{OpenEventView, OpenPhase, OpenProgressView, OpenRequest, OpeningState};
use crate::reading::{collect, law_calls_list_entries, lists, pending, reads, record_count};
use crate::search::{FileSearch, SearchEventView, SearchRequest, SearchStep};
use crate::store::{
    all_runs, ascending, current_value, entries, holds, law_entries_are_newest_records,
    lemma_same_current_value, lemma_skip_says, lemma_value_held, live, positioned, range_entries,
    reader_past, runs, says, stands_in, store_wf, StoredFile,
};

verus! {

/// Where a searcher goes: to a record that it probes, or to the place where it ends.
pub enum SearcherMove {
    Probe(int),
    Stop(int),
}

/// A searcher: where it goes in a file of which the records before `lo` are known to come before
/// the key searched for, and those from `hi` on to come after it.
pub type Searcher = spec_fn(int, int, int) -> SearcherMove;

/// The searcher probes records of which nothing is known yet, and ends where no record before it
/// can be the one searched for.
pub open spec fn searcher_wf(files: Seq<StoredFile>, searcher: Searcher) -> bool {
    forall|file: int, lo: int, hi: int|
        0 <= file < FILE_COUNT && 0 <= lo <= hi <= files[file].records.len() ==> match #[trigger]
        searcher(file, lo, hi) {
            SearcherMove::Probe(p) => lo <= p < hi,
            SearcherMove::Stop(p) => 0 <= p <= lo,
        }
}

/// What the caller has in hand while it searches a file: what the searcher knows, the record whose
/// header was read last, and the reader.
pub struct Hand {
    pub lo: int,
    pub hi: int,
    pub record: int,
    pub at: DehydratedFileReader,
}

/// The reader of `file` at place `p`.
pub open spec fn reader_of(files: Seq<StoredFile>, file: int, p: int) -> DehydratedFileReader {
    DehydratedFileReader { file_id: file as FileID, offset: files[file].offsets[p] }
}

/// What the caller has in hand, and reports, after the searcher has moved.
pub open spec fn seek<E>(
    files: Seq<StoredFile>,
    searcher: Searcher,
    file: int,
    lo: int,
    hi: int,
) -> (SearchEventView<E>, Hand) {
    match searcher(file, lo, hi) {
        SearcherMove::Probe(p) => (
            SearchEventView::Sought { probing: true, reader: reader_of(files, file, p) },
            Hand { lo, hi, record: p, at: reader_of(files, file, p) },
        ),
        SearcherMove::Stop(p) => (
            SearchEventView::Sought { probing: false, reader: reader_of(files, file, p) },
            Hand { lo, hi, record: p, at: reader_of(files, file, p) },
        ),
    }
}

/// What the files answer to a request of the search in `file`, and what is then in hand. Reading and
/// skipping move the reader by as many bytes as were asked for. What a header read gives anywhere
/// but at a record or at the end is left open.
pub open spec fn answer_search<E>(
    files: Seq<StoredFile>,
    searcher: Searcher,
    hand: Hand,
    file: int,
    request: SearchRequest,
) -> (SearchEventView<E>, Hand) {
    let stored = files[file];
    match request {
        SearchRequest::StartSearch => seek(
            files,
            searcher,
            file,
            0,
            stored.records.len() as int,
        ),
        SearchRequest::Seek(SeekDirection::Left) => seek(
            files,
            searcher,
            file,
            hand.lo,
            hand.record,
        ),
        SearchRequest::Seek(SeekDirection::Right) => seek(
            files,
            searcher,
            file,
            hand.record + 1,
            hand.hi,
        ),
        SearchRequest::ReadHeader => {
            let p = stored.place(hand.at.offset);
            if hand.at.offset == stored.bytes.len() {
                (SearchEventView::Failed(ReadError::Eof), hand)
            } else if stored.has_place(hand.at.offset) {
                (
                    SearchEventView::Header(stored.records[p].header()),
                    Hand {
                        record: p,
                        at: reader_past(hand.at, stored.header_size as int),
                        ..hand
                    },
                )
            } else {
                (SearchEventView::Header(arbitrary()), hand)
            }
        },
        SearchRequest::ReadKey { len } => match stored.read(hand.at.offset, len) {
            Some(bytes) => (
                SearchEventView::Key(bytes),
                Hand { at: reader_past(hand.at, len as int), ..hand },
            ),
            None => (SearchEventView::Failed(ReadError::Eof), hand),
        },
        SearchRequest::SkipValue { len } => match stored.read(hand.at.offset, len) {
            Some(_) => {
                let reader = reader_past(hand.at, len as int);
                (SearchEventView::Skipped { reader }, Hand { at: reader, ..hand })
            },
            None => (SearchEventView::Failed(ReadError::Eof), hand),
        },
    }
}

/// What a search in `file` comes to when its requests are answered from the files, `fuel` of them
/// at most.
pub open spec fn drive_search<E>(
    files: Seq<StoredFile>,
    searcher: Searcher,
    bound: BoundView,
    file: int,
    step: SearchStep<E>,
    hand: Hand,
    fuel: nat,
) -> SearchStep<E>
    decreases fuel,
{
    match step {
        SearchStep::Done(_) => step,
        SearchStep::Request(search, request) => if fuel == 0 {
            step
        } else {
            let (event, hand) = answer_search::<E>(files, searcher, hand, file, request);
            drive_search(
                files,
                searcher,
                bound,
                file,
                search.step(bound, event),
                hand,
                (fuel - 1) as nat,
            )
        },
    }
}

/// A search in a file makes no more requests than this.
pub open spec fn search_bound(stored: StoredFile) -> nat {
    6 * stored.records.len() + 4
}

/// What a whole search in `file` comes to.
pub open spec fn search_file<E>(
    files: Seq<StoredFile>,
    searcher: Searcher,
    bound: BoundView,
    file: int,
    hand: Hand,
) -> SearchStep<E> {
    drive_search(
        files,
        searcher,
        bound,
        file,
        SearchStep::Request(FileSearch::Seeking, SearchRequest::StartSearch),
        hand,
        search_bound(files[file]),
    )
}

/// What the files answer to a request of an opening, and what is then in hand.
pub open spec fn answer_open<E>(
    files: Seq<StoredFile>,
    searcher: Searcher,
    hand: Hand,
    request: OpenRequest,
) -> (OpenEventView<E>, Hand) {
    match request {
        OpenRequest::Remount => (OpenEventView::Remounted, hand),
        OpenRequest::Open { file } => (
            OpenEventView::Opened { reader: reader_of(files, file as int, 0) },
            hand,
        ),
        OpenRequest::Search { file, request } => {
            let (event, hand) = answer_search::<E>(files, searcher, hand, file as int, request);
            (OpenEventView::Search(event), hand)
        },
    }
}

/// What an opening comes to when its requests are answered from the files, `fuel` of them at most.
pub open spec fn drive_open<E>(
    files: Seq<StoredFile>,
    searcher: Searcher,
    progress: OpenProgressView<E>,
    hand: Hand,
    fuel: nat,
) -> OpenProgressView<E>
    decreases fuel,
{
    match progress {
        OpenProgressView::Done(_) => progress,
        OpenProgressView::Pending(opening, request) => if fuel == 0 {
            progress
        } else {
            let (event, hand) = answer_open::<E>(files, searcher, hand, request);
            drive_open(files, searcher, opening.step(event), hand, (fuel - 1) as nat)
        },
    }
}

/// The opening accepts every answer on the way of [`drive_open`].
pub open spec fn drive_open_accepted<E>(
    files: Seq<StoredFile>,
    searcher: Searcher,
    progress: OpenProgressView<E>,
    hand: Hand,
    fuel: nat,
) -> bool
    decreases fuel,
{
    match progress {
        OpenProgressView::Done(_) => true,
        OpenProgressView::Pending(opening, request) => if fuel == 0 {
            true
        } else {
            let (event, hand) = answer_open::<E>(files, searcher, hand, request);
            &&& opening.accepts(event)
            &&& drive_open_accepted(
                files,
                searcher,
                opening.step(event),
                hand,
                (fuel - 1) as nat,
            )
        },
    }
}

/// Opening the files from `file` on makes no more requests than this.
pub open spec fn open_bound(files: Seq<StoredFile>, file: int) -> nat
    decreases FILE_COUNT - file,
{
    if file < 0 || file >= FILE_COUNT {
        0
    } else {
        search_bound(files[file]) + 1 + open_bound(files, file + 1)
    }
}

/// What opening a cursor for a range comes to.
pub open spec fn open<E>(
    files: Seq<StoredFile>,
    searcher: Searcher,
    lower: Option<BoundView>,
    upper: Option<BoundView>,
    hand: Hand,
) -> OpenProgressView<E> {
    drive_open(
        files,
        searcher,
        OpenProgressView::Pending(OpeningState::start(lower, upper), OpenRequest::Remount),
        hand,
        open_bound(files, 0) + 1,
    )
}

/// From place `p` on, and only there, the records of the file are within the lower bound.
pub open spec fn cut_at(stored: StoredFile, lower: Option<BoundView>, p: int) -> bool {
    &&& 0 <= p <= stored.records.len()
    &&& forall|q: int|
        0 <= q < stored.records.len() ==> (within_lower(
            lower,
            (#[trigger] stored.records[q]).key,
        ) <==> q >= p)
}

/// There is a lower bound, and all keys of the file come before its key.
pub open spec fn all_before(stored: StoredFile, lower: Option<BoundView>) -> bool {
    &&& lower is Some
    &&& forall|q: int|
        0 <= q < stored.records.len() ==> key_less(
            (#[trigger] stored.records[q]).key,
            lower->0.key,
        )
}

/// The reader of `file` has exactly the records within the lower bound before it. There is none
/// exactly where all keys of the file come before the key of the bound.
pub open spec fn starts_at_lower(
    files: Seq<StoredFile>,
    lower: Option<BoundView>,
    file: int,
    reader: Option<DehydratedFileReader>,
) -> bool {
    match reader {
        Some(reader) => {
            &&& stands_in(files, file, reader)
            &&& cut_at(files[file], lower, files[file].place(reader.offset))
            &&& !all_before(files[file], lower)
        },
        None => {
            &&& cut_at(files[file], lower, files[file].records.len() as int)
            &&& all_before(files[file], lower)
        },
    }
}

/// The record that a search is at: the one it is about to read, or the one it has read last.
spec fn record_at(stored: StoredFile, search: FileSearch, hand: Hand) -> int {
    match search {
        FileSearch::AtHeader { .. } => stored.place(hand.at.offset),
        _ => hand.record,
    }
}

/// The invariant of a search under way.
spec fn searching(
    files: Seq<StoredFile>,
    bound: BoundView,
    file: int,
    search: FileSearch,
    request: SearchRequest,
    hand: Hand,
) -> bool {
    let stored = files[file];
    let n = stored.records.len() as int;
    let p = record_at(stored, search, hand);
    let known = {
        &&& 0 <= hand.lo <= hand.hi <= n
        &&& forall|q: int|
            0 <= q < hand.lo ==> key_less((#[trigger] stored.records[q]).key, bound.key)
        &&& forall|q: int|
            hand.hi <= q < n ==> key_less(bound.key, (#[trigger] stored.records[q]).key)
    };
    let probe = {
        &&& known
        &&& hand.lo <= p < hand.hi
    };
    let walk = forall|q: int|
        0 <= q < p ==> key_less((#[trigger] stored.records[q]).key, bound.key);
    let behind_key = {
        &&& 0 <= p < n
        &&& hand.at.file_id == file
        &&& hand.at.offset == stored.value_at(p)
        &&& request == (SearchRequest::SkipValue { len: stored.records[p].header().value_len })
    };
    match search {
        FileSearch::Seeking => match request {
            SearchRequest::StartSearch => true,
            SearchRequest::Seek(SeekDirection::Left) => probe && key_less(
                bound.key,
                stored.records[p].key,
            ),
            SearchRequest::Seek(SeekDirection::Right) => probe && key_less(
                stored.records[p].key,
                bound.key,
            ),
            _ => false,
        },
        FileSearch::AtHeader { probing, reader } => {
            &&& request is ReadHeader
            &&& reader == hand.at
            &&& stands_in(files, file, reader)
            &&& probing ==> probe
            &&& !probing ==> walk
        },
        FileSearch::AtKey { probing, reader, header } => {
            &&& 0 <= p < n
            &&& request == (SearchRequest::ReadKey { len: header.key_len })
            &&& stands_in(files, file, reader)
            &&& stored.place(reader.offset) == p
            &&& hand.at.file_id == file
            &&& hand.at.offset == stored.key_at(p)
            &&& header == stored.records[p].header()
            &&& probing ==> probe
            &&& !probing ==> walk
        },
        FileSearch::SkippingMatch => {
            &&& behind_key
            &&& stored.records[p].key == bound.key
            &&& !bound.allow_equal
        },
        FileSearch::SkippingSmaller => {
            &&& behind_key
            &&& walk
            &&& key_less(stored.records[p].key, bound.key)
        },
    }
}

/// How many requests a search may still make.
spec fn search_left(
    stored: StoredFile,
    search: FileSearch,
    request: SearchRequest,
    hand: Hand,
) -> int {
    let n = stored.records.len() as int;
    let p = record_at(stored, search, hand);
    let probes = 3 * (hand.hi - hand.lo) + 3 * n;
    let steps = 3 * (n - p);
    match search {
        FileSearch::Seeking => if request is StartSearch {
            6 * n + 4
        } else {
            probes + 1
        },
        FileSearch::AtHeader { probing, .. } => if probing {
            probes + 3
        } else {
            steps + 3
        },
        FileSearch::AtKey { probing, .. } => if probing {
            probes + 2
        } else {
            steps + 2
        },
        FileSearch::SkippingMatch => 1,
        FileSearch::SkippingSmaller => steps + 1,
    }
}

/// Where a file of ascending keys is cut by a lower bound.
proof fn lemma_cut(stored: StoredFile, bound: BoundView, p: int)
    requires
        stored.wf(),
        0 <= p <= stored.records.len(),
        p > 0 ==> !within_lower(Some(bound), stored.records[p - 1].key),
        p < stored.records.len() ==> within_lower(Some(bound), stored.records[p].key),
    ensures
        cut_at(stored, Some(bound), p),
{
    assert forall|q: int| 0 <= q < stored.records.len() implies (within_lower(
        Some(bound),
        (#[trigger] stored.records[q]).key,
    ) <==> q >= p) by {
        if q > p {
            assert(key_less(stored.records[p].key, stored.records[q].key));
            law_within_lower_upward(Some(bound), stored.records[p].key, stored.records[q].key);
        } else if q < p - 1 && within_lower(Some(bound), stored.records[q].key) {
            assert(key_less(stored.records[q].key, stored.records[p - 1].key));
            law_within_lower_upward(Some(bound), stored.records[q].key, stored.records[p - 1].key);
        }
    }
}

/// The reader at a place stands there.
proof fn lemma_reader_of(files: Seq<StoredFile>, file: int, p: int)
    requires
        store_wf(files),
        0 <= file < FILE_COUNT,
        0 <= p <= files[file].records.len(),
    ensures
        stands_in(files, file, reader_of(files, file, p)),
        files[file].place(reader_of(files, file, p).offset) == p,
{
    assert(FILE_COUNT == 10);
    files[file].lemma_place(p);
}

/// The searcher's next move keeps the invariant of a search.
proof fn lemma_seek<E>(
    files: Seq<StoredFile>,
    searcher: Searcher,
    bound: BoundView,
    file: int,
    lo: int,
    hi: int,
)
    requires
        store_wf(files),
        searcher_wf(files, searcher),
        0 <= file < FILE_COUNT,
        0 <= lo <= hi <= files[file].records.len(),
        forall|q: int|
            0 <= q < lo ==> key_less((#[trigger] files[file].records[q]).key, bound.key),
        forall|q: int|
            hi <= q < files[file].records.len() ==> key_less(
                bound.key,
                (#[trigger] files[file].records[q]).key,
            ),
    ensures
        ({
            let n = files[file].records.len();
            let (event, hand) = seek::<E>(files, searcher, file, lo, hi);
            &&& FileSearch::Seeking.accepts(event)
            &&& FileSearch::Seeking.step(bound, event) matches SearchStep::Request(search, request)
            &&& searching(files, bound, file, search, request, hand)
            &&& search_left(files[file], search, request, hand) <= 3 * (hi - lo) + 3 * n + 3
        }),
{
    match searcher(file, lo, hi) {
        SearcherMove::Probe(p) => lemma_reader_of(files, file, p),
        SearcherMove::Stop(p) => lemma_reader_of(files, file, p),
    }
}

/// Every answer of a sound store keeps the invariant of a search, and the search ends where the
/// lower bound cuts the file.
proof fn lemma_search_step<E>(
    files: Seq<StoredFile>,
    searcher: Searcher,
    bound: BoundView,
    file: int,
    search: FileSearch,
    request: SearchRequest,
    hand: Hand,
)
    requires
        store_wf(files),
        searcher_wf(files, searcher),
        0 <= file < FILE_COUNT,
        searching(files, bound, file, search, request, hand),
    ensures
        ({
            let (event, after) = answer_search::<E>(files, searcher, hand, file, request);
            &&& search.accepts(event)
            &&& match search.step(bound, event) {
                SearchStep::Request(next, next_request) => {
                    &&& searching(files, bound, file, next, next_request, after)
                    &&& 0 <= search_left(files[file], next, next_request, after) < search_left(
                        files[file],
                        search,
                        request,
                        hand,
                    )
                },
                SearchStep::Done(Ok(reader)) => starts_at_lower(files, Some(bound), file, reader),
                SearchStep::Done(Err(_)) => false,
            }
        }),
{
    let stored = files[file];
    let n = stored.records.len() as int;
    let p = record_at(stored, search, hand);
    let (event, after) = answer_search::<E>(files, searcher, hand, file, request);
    assert(stored.wf());
    match search {
        FileSearch::Seeking => {
            match request {
                SearchRequest::StartSearch => {
                    lemma_seek::<E>(files, searcher, bound, file, 0, n);
                },
                SearchRequest::Seek(SeekDirection::Left) => {
                    assert forall|q: int| p <= q < n implies key_less(
                        bound.key,
                        (#[trigger] stored.records[q]).key,
                    ) by {
                        if p < q {
                            assert(key_less(stored.records[p].key, stored.records[q].key));
                            law_key_less_transitive(
                                bound.key,
                                stored.records[p].key,
                                stored.records[q].key,
                            );
                        }
                    }
                    lemma_seek::<E>(files, searcher, bound, file, hand.lo, p);
                },
                _ => {
                    assert forall|q: int| 0 <= q < p + 1 implies key_less(
                        (#[trigger] stored.records[q]).key,
                        bound.key,
                    ) by {
                        if q < p {
                            assert(key_less(stored.records[q].key, stored.records[p].key));
                            law_key_less_transitive(
                                stored.records[q].key,
                                stored.records[p].key,
                                bound.key,
                            );
                        }
                    }
                    lemma_seek::<E>(files, searcher, bound, file, p + 1, hand.hi);
                },
            }
        },
        FileSearch::AtHeader { probing, reader } => {
            if p == n {
                if p > 0 {
                    law_key_less_asymmetric(stored.records[p - 1].key, bound.key);
                }
                lemma_cut(stored, bound, n);
            } else {
                stored.lemma_record(p);
                assert(stored.laid_out(p));
                assert(stored.records[p].fits());
            }
        },
        FileSearch::AtKey { probing, reader, header } => {
            let key = stored.records[p].key;
            stored.lemma_record(p);
            assert(stored.laid_out(p));
            assert(stored.records[p].fits());
            law_key_less_total(key, bound.key);
            law_key_less_irreflexive(bound.key);
            if key == bound.key {
                if bound.allow_equal {
                    if p > 0 {
                        assert(key_less(stored.records[p - 1].key, key));
                        law_key_less_asymmetric(stored.records[p - 1].key, key);
                    }
                    lemma_cut(stored, bound, p);
                }
            } else if !probing && !key_less(key, bound.key) {
                if p > 0 {
                    assert(key_less(stored.records[p - 1].key, bound.key));
                    law_key_less_asymmetric(stored.records[p - 1].key, bound.key);
                }
                lemma_cut(stored, bound, p);
            }
        },
        FileSearch::SkippingMatch => {
            stored.lemma_record(p);
            assert(stored.laid_out(p));
            stored.lemma_place(p + 1);
            law_key_less_irreflexive(bound.key);
            if p + 1 < n {
                assert(key_less(stored.records[p].key, stored.records[p + 1].key));
            }
            lemma_cut(stored, bound, p + 1);
        },
        FileSearch::SkippingSmaller => {
            stored.lemma_record(p);
            assert(stored.laid_out(p));
            stored.lemma_place(p + 1);
        },
    }
}

/// A search that is under way comes to its end.
proof fn lemma_drive_search<E>(
    files: Seq<StoredFile>,
    searcher: Searcher,
    bound: BoundView,
    file: int,
    search: FileSearch,
    request: SearchRequest,
    hand: Hand,
    fuel: nat,
)
    requires
        store_wf(files),
        searcher_wf(files, searcher),
        0 <= file < FILE_COUNT,
        searching(files, bound, file, search, request, hand),
        0 <= search_left(files[file], search, request, hand) <= fuel,
    ensures
        drive_search(
            files,
            searcher,
            bound,
            file,
            SearchStep::<E>::Request(search, request),
            hand,
            fuel,
        ) matches SearchStep::Done(Ok(reader)) && starts_at_lower(files, Some(bound), file, reader),
    decreases fuel,
{
    reveal_with_fuel(drive_search, 2);
    assert(search_left(files[file], search, request, hand) > 0);
    lemma_search_step::<E>(files, searcher, bound, file, search, request, hand);
    let (event, after) = answer_search::<E>(files, searcher, hand, file, request);
    if let SearchStep::Request(next, next_request) = search.step(bound, event) {
        lemma_drive_search::<E>(
            files,
            searcher,
            bound,
            file,
            next,
            next_request,
            after,
            (fuel - 1) as nat,
        );
    }
}

/// A search in one file of a sound store comes to its end, and ends well. It finds nothing exactly
/// where all keys of the file come before the key of the bound. Otherwise it finds the reader that
/// has exactly the records within the bound before it. Where the last key is that of a bound that
/// excludes it, this is the reader at the end of the file.
pub proof fn law_search_lower_bound<E>(
    files: Seq<StoredFile>,
    searcher: Searcher,
    bound: BoundView,
    file: int,
    hand: Hand,
)
    requires
        store_wf(files),
        searcher_wf(files, searcher),
        0 <= file < FILE_COUNT,
    ensures
        search_file::<E>(files, searcher, bound, file, hand) matches SearchStep::Done(Ok(found)) && {
            let stored = files[file];
            let n = stored.records.len() as int;
            &&& found is None <==> forall|q: int|
                0 <= q < n ==> key_less((#[trigger] stored.records[q]).key, bound.key)
            &&& found matches Some(reader) ==> {
                &&& stands_in(files, file, reader)
                &&& cut_at(stored, Some(bound), stored.place(reader.offset))
            }
            &&& n > 0 && stored.records[n - 1].key == bound.key && !bound.allow_equal ==> found
                == Some(reader_of(files, file, n))
        },
{
    let stored = files[file];
    let n = stored.records.len() as int;
    lemma_drive_search::<E>(
        files,
        searcher,
        bound,
        file,
        FileSearch::Seeking,
        SearchRequest::StartSearch,
        hand,
        search_bound(stored),
    );
    if n > 0 && stored.records[n - 1].key == bound.key && !bound.allow_equal {
        law_key_less_irreflexive(bound.key);
        assert(!within_lower(Some(bound), stored.records[n - 1].key));
        assert(FILE_COUNT == 10);
    }
}

/// The readers gathered so far start at the lower bound.
spec fn gathered(
    files: Seq<StoredFile>,
    lower: Option<BoundView>,
    readers: Seq<Option<DehydratedFileReader>>,
) -> bool {
    forall|i: int|
        0 <= i < readers.len() ==> starts_at_lower(files, lower, i, #[trigger] readers[i])
}

/// The invariant of an opening, under way or over.
spec fn open_sound<E>(
    files: Seq<StoredFile>,
    lower: Option<BoundView>,
    upper: Option<BoundView>,
    progress: OpenProgressView<E>,
    hand: Hand,
) -> bool {
    match progress {
        OpenProgressView::Pending(opening, request) => {
            let file = opening.readers.len() as int;
            &&& opening.wf()
            &&& opening.lower == lower
            &&& opening.upper == upper
            &&& gathered(files, lower, opening.readers)
            &&& match opening.phase {
                OpenPhase::Remounting => request is Remount,
                OpenPhase::Opening => request == (OpenRequest::Open {
                    file: file as FileID,
                }),
                OpenPhase::Searching(search) => {
                    &&& request matches OpenRequest::Search { file: searched, request }
                    &&& searched == file
                    &&& searching(files, lower->0, file, search, request, hand)
                },
            }
        },
        OpenProgressView::Done(Ok(cursor)) => {
            &&& cursor == CursorState::fresh(upper, cursor.readers)
            &&& cursor.readers.len() == FILE_COUNT
            &&& gathered(files, lower, cursor.readers)
        },
        OpenProgressView::Done(Err(_)) => false,
    }
}

/// How many requests an opening may still make.
spec fn open_left<E>(files: Seq<StoredFile>, progress: OpenProgressView<E>, hand: Hand) -> int {
    match progress {
        OpenProgressView::Done(_) => 0,
        OpenProgressView::Pending(opening, request) => {
            let file = opening.readers.len() as int;
            match opening.phase {
                OpenPhase::Remounting => open_bound(files, 0) as int + 1,
                OpenPhase::Opening => open_bound(files, file) as int,
                OpenPhase::Searching(search) => search_left(
                    files[file],
                    search,
                    request->Search_request,
                    hand,
                ) + open_bound(files, file + 1),
            }
        },
    }
}

/// Going on with the next file keeps the invariant of an opening.
proof fn lemma_next_file<E>(
    files: Seq<StoredFile>,
    lower: Option<BoundView>,
    upper: Option<BoundView>,
    opening: OpeningState,
    hand: Hand,
)
    requires
        store_wf(files),
        opening.readers.len() <= FILE_COUNT,
        opening.lower == lower,
        opening.upper == upper,
        gathered(files, lower, opening.readers),
    ensures
        open_sound(files, lower, upper, opening.next_file::<E>(), hand),
        open_left(files, opening.next_file::<E>(), hand) <= open_bound(
            files,
            opening.readers.len() as int,
        ),
{
    assert(FILE_COUNT == 10);
}

/// Every answer of a sound store keeps the invariant of an opening.
proof fn lemma_open_step<E>(
    files: Seq<StoredFile>,
    searcher: Searcher,
    lower: Option<BoundView>,
    upper: Option<BoundView>,
    opening: OpeningState,
    request: OpenRequest,
    hand: Hand,
)
    requires
        store_wf(files),
        searcher_wf(files, searcher),
        open_sound(files, lower, upper, OpenProgressView::<E>::Pending(opening, request), hand),
    ensures
        ({
            let (event, after) = answer_open::<E>(files, searcher, hand, request);
            let progress = opening.step(event);
            &&& opening.accepts(event)
            &&& open_sound(files, lower, upper, progress, after)
            &&& 0 <= open_left(files, progress, after) < open_left(
                files,
                OpenProgressView::<E>::Pending(opening, request),
                hand,
            )
        }),
{
    let file = opening.readers.len() as int;
    let (event, after) = answer_open::<E>(files, searcher, hand, request);
    let progress = opening.step(event);
    assert(FILE_COUNT == 10);
    match opening.phase {
        OpenPhase::Remounting => {
            lemma_next_file::<E>(files, lower, upper, opening, after);
        },
        OpenPhase::Opening => {
            let reader = reader_of(files, file, 0);
            lemma_reader_of(files, file, 0);
            let next = opening.with_reader(Some(reader));
            assert(cut_at(files[file], lower, 0));
            assert(gathered(files, lower, next.readers));
            lemma_next_file::<E>(files, lower, upper, next, after);
        },
        OpenPhase::Searching(search) => {
            let asked = request->Search_request;
            lemma_search_step::<E>(files, searcher, lower->0, file, search, asked, hand);
            let (search_event, _) = answer_search::<E>(files, searcher, hand, file, asked);
            if let SearchStep::Done(Ok(reader)) = search.step(lower->0, search_event) {
                let next = opening.with_reader(reader);
                assert(lower == Some(lower->0));
                assert(gathered(files, lower, next.readers));
                lemma_next_file::<E>(files, lower, upper, next, after);
                assert(search_left(files[file], search, asked, hand) > 0);
            }
        },
    }
}

/// An opening that is under way comes to its end.
proof fn lemma_drive_open<E>(
    files: Seq<StoredFile>,
    searcher: Searcher,
    lower: Option<BoundView>,
    upper: Option<BoundView>,
    progress: OpenProgressView<E>,
    hand: Hand,
    fuel: nat,
)
    requires
        store_wf(files),
        searcher_wf(files, searcher),
        open_sound(files, lower, upper, progress, hand),
        open_left(files, progress, hand) <= fuel,
    ensures
        ({
            let end = drive_open(files, searcher, progress, hand, fuel);
            &&& end is Done
            &&& open_sound(files, lower, upper, end, hand)
        }),
        drive_open_accepted(files, searcher, progress, hand, fuel),
    decreases fuel,
{
    if let OpenProgressView::Pending(opening, request) = progress {
        let (event, after) = answer_open::<E>(files, searcher, hand, request);
        lemma_open_step::<E>(files, searcher, lower, upper, opening, request, hand);
        lemma_drive_open(
            files,
            searcher,
            lower,
            upper,
            opening.step(event),
            after,
            (fuel - 1) as nat,
        );
    }
}

/// Readers that start at the lower bound have exactly the entries of the range before them.
proof fn lemma_range_ahead(
    files: Seq<StoredFile>,
    lower: Option<BoundView>,
    upper: Option<BoundView>,
    readers: Seq<Option<DehydratedFileReader>>,
)
    requires
        store_wf(files),
        readers.len() == FILE_COUNT,
        gathered(files, lower, readers),
    ensures
        positioned(files, readers),
        entries(runs(files, readers), upper) == range_entries(files, lower, upper),
{
    let rs = runs(files, readers);
    let all = all_runs(files);
    let found = entries(rs, upper);
    let range = range_entries(files, lower, upper);
    let n = FILE_COUNT as int;
    assert forall|key: Seq<u8>|
        within_lower(lower, key) implies #[trigger] current_value(rs, key, n) == current_value(
        all,
        key,
        n,
    ) by {
        assert forall|i: int|
            #![trigger rs[i]]
            0 <= i < n implies holds(rs[i], key) == holds(all[i], key) && (holds(rs[i], key)
            ==> says(rs[i], key) == says(all[i], key)) by {
            let stored = files[i];
            assert(starts_at_lower(files, lower, i, readers[i]));
            assert(stored.wf());
            let p = match readers[i] {
                Some(reader) => stored.place(reader.offset),
                None => stored.records.len() as int,
            };
            assert(rs[i] =~= stored.records.skip(p));
            lemma_skip_says(stored.records, p, key);
        }
        lemma_same_current_value(rs, all, key, n);
    }
    assert forall|key: Seq<u8>| !within_lower(lower, key) implies #[trigger] current_value(
        rs,
        key,
        n,
    ) is None by {
        if current_value(rs, key, n) is Some {
            let i = lemma_value_held(rs, key, n);
            let stored = files[i];
            let q = choose|q: int| 0 <= q < rs[i].len() && (#[trigger] rs[i][q]).key == key;
            assert(starts_at_lower(files, lower, i, readers[i]));
            if let Some(reader) = readers[i] {
                assert(rs[i][q] == stored.records[stored.place(reader.offset) + q]);
            }
        }
    }
    assert(found =~= range);
}

/// Opening a cursor over a sound store comes to its end, and the opening accepts every answer on
/// the way. The cursor's readers start, each in its file, at the first record that the lower bound
/// admits. The entries that the cursor has before it are exactly those of the store between the
/// bounds.
pub proof fn law_open_range<E>(
    files: Seq<StoredFile>,
    searcher: Searcher,
    lower: Option<BoundView>,
    upper: Option<BoundView>,
    hand: Hand,
)
    requires
        store_wf(files),
        searcher_wf(files, searcher),
    ensures
        open::<E>(files, searcher, lower, upper, hand) matches OpenProgressView::Done(Ok(cursor))
            && {
            &&& reads(files, cursor)
            &&& cursor.upper == upper
            &&& forall|i: int|
                0 <= i < FILE_COUNT ==> starts_at_lower(files, lower, i, #[trigger] cursor.readers[i])
            &&& pending(files, cursor) == range_entries(files, lower, upper)
        },
        drive_open_accepted(
            files,
            searcher,
            OpenProgressView::<E>::Pending(OpeningState::start(lower, upper), OpenRequest::Remount),
            hand,
            open_bound(files, 0) + 1,
        ),
{
    let start = OpenProgressView::<E>::Pending(
        OpeningState::start(lower, upper),
        OpenRequest::Remount,
    );
    lemma_drive_open(files, searcher, lower, upper, start, hand, open_bound(files, 0) + 1);
    if let OpenProgressView::Done(Ok(cursor)) = open::<E>(files, searcher, lower, upper, hand) {
        lemma_range_ahead(files, lower, upper, cursor.readers);
    }
}

/// A range read over a sound store returns exactly the entries between the bounds, each once, in
/// lexicographically ascending order: the value of a key is what the newest file that holds the
/// key says of it, and deleted keys do not show up.
pub proof fn law_read_range<E>(
    files: Seq<StoredFile>,
    searcher: Searcher,
    lower: Option<BoundView>,
    upper: Option<BoundView>,
    hand: Hand,
    key: Seq<u8>,
    value: Seq<u8>,
    calls: nat,
)
    requires
        store_wf(files),
        searcher_wf(files, searcher),
        forall|k: Seq<u8>| #[trigger]
            range_entries(files, lower, upper).contains_key(k) ==> k.len() <= key.len()
                && range_entries(files, lower, upper)[k].len() <= value.len(),
        range_entries(files, lower, upper).dom().len() <= calls,
    ensures
        open::<E>(files, searcher, lower, upper, hand) matches OpenProgressView::Done(Ok(cursor))
            && lists(
            collect::<E>(files, cursor, key, value, calls),
            range_entries(files, lower, upper),
        ),
{
    law_open_range::<E>(files, searcher, lower, upper, hand);
    if let OpenProgressView::Done(Ok(cursor)) = open::<E>(files, searcher, lower, upper, hand) {
        law_calls_list_entries::<E>(files, cursor, key, value, calls);
    }
}

/// The entries of a range in terms of the records.
proof fn lemma_range_entry(
    files: Seq<StoredFile>,
    lower: Option<BoundView>,
    upper: Option<BoundView>,
    k: Seq<u8>,
    v: Seq<u8>,
)
    requires
        store_wf(files),
    ensures
        ({
            let range = range_entries(files, lower, upper);
            range.contains_key(k) && range[k] == v <==> {
                &&& lower matches Some(b) ==> !key_less(k, b.key) && (k == b.key ==> b.allow_equal)
                &&& upper matches Some(b) ==> !key_less(b.key, k) && (k == b.key ==> b.allow_equal)
                &&& exists|i: int, p: int| live(all_runs(files), i, p, k, v)
            }
        }),
{
    let all = all_runs(files);
    assert forall|i: int| 0 <= i < FILE_COUNT implies ascending(#[trigger] all[i]) by {
        assert(files[i].wf());
    }
    law_entries_are_newest_records(all, upper, k, v);
    if let Some(b) = lower {
        law_lower_bound_cuts(b, k);
        law_key_less_total(k, b.key);
    }
    if let Some(b) = upper {
        law_upper_bound_cuts(b, k);
        law_key_less_total(k, b.key);
        law_key_less_irreflexive(k);
        if key_less(k, b.key) {
            law_key_less_asymmetric(k, b.key);
        }
    }
}

/// A range read over a sound store, in terms of its records: the keys that it returns ascend; a key
/// and a value are returned exactly where some record that is no delete mark holds them, no newer
/// file holds a record of the key, and the key is not before the lower bound, not after the upper
/// bound, and that of a bound only where the bound allows equal keys.
pub proof fn law_read_range_by_records<E>(
    files: Seq<StoredFile>,
    searcher: Searcher,
    lower: Option<BoundView>,
    upper: Option<BoundView>,
    hand: Hand,
    key: Seq<u8>,
    value: Seq<u8>,
    calls: nat,
)
    requires
        store_wf(files),
        forall|file: int, lo: int, hi: int|
            0 <= file < FILE_COUNT && 0 <= lo <= hi <= files[file].records.len() ==> match #[trigger]
            searcher(file, lo, hi) {
                SearcherMove::Probe(p) => lo <= p < hi,
                SearcherMove::Stop(p) => 0 <= p <= lo,
            },
        forall|i: int, p: int|
            0 <= i < FILE_COUNT && 0 <= p < files[i].records.len() ==> (
            #[trigger] files[i].records[p]).key.len() <= key.len() && files[i].records[p].value.len()
                <= value.len(),
        record_count(all_runs(files), FILE_COUNT as int) <= calls,
    ensures
        open::<E>(files, searcher, lower, upper, hand) matches OpenProgressView::Done(Ok(cursor))
            && {
            let list = collect::<E>(files, cursor, key, value, calls);
            &&& forall|i: int, j: int|
                0 <= i < j < list.len() ==> key_less((#[trigger] list[i]).0, (#[trigger] list[j]).0)
            &&& forall|k: Seq<u8>, v: Seq<u8>| #[trigger]
                list.contains((k, v)) <==> {
                    &&& lower matches Some(b) ==> !key_less(k, b.key) && (k == b.key
                        ==> b.allow_equal)
                    &&& upper matches Some(b) ==> !key_less(b.key, k) && (k == b.key
                        ==> b.allow_equal)
                    &&& exists|i: int, p: int| live(all_runs(files), i, p, k, v)
                }
        },
{
    let range = range_entries(files, lower, upper);
    let found = entries(all_runs(files), upper);
    lemma_entries_finite(all_runs(files), upper);
    assert(range.dom().subset_of(found.dom()));
    vstd::set_lib::lemma_len_subset(range.dom(), found.dom());
    assert forall|k: Seq<u8>| #[trigger] range.contains_key(k) implies k.len() <= key.len()
        && range[k].len() <= value.len() by {
        lemma_range_entry(files, lower, upper, k, range[k]);
        let (i, p) = choose|i: int, p: int| live(all_runs(files), i, p, k, range[k]);
        assert(files[i].records[p].key == k);
    }
    law_read_range::<E>(files, searcher, lower, upper, hand, key, value, calls);
    if let OpenProgressView::Done(Ok(cursor)) = open::<E>(files, searcher, lower, upper, hand) {
        let list = collect::<E>(files, cursor, key, value, calls);
        assert forall|k: Seq<u8>, v: Seq<u8>| #[trigger]
            list.contains((k, v)) <==> range.contains_key(k) && range[k] == v by {
            if list.contains((k, v)) {
                let i = choose|i: int| 0 <= i < list.len() && list[i] == (k, v);
                assert(range.contains_key(list[i].0));
            }
            if range.contains_key(k) && range[k] == v {
                let i = choose|i: int| 0 <= i < list.len() && (#[trigger] list[i]).0 == k;
                assert(list[i] == (k, v));
            }
        }
        assert forall|k: Seq<u8>, v: Seq<u8>| #[trigger]
            list.contains((k, v)) <==> {
                &&& lower matches Some(b) ==> !key_less(k, b.key) && (k == b.key
                    ==> b.allow_equal)
                &&& upper matches Some(b) ==> !key_less(b.key, k) && (k == b.key
                    ==> b.allow_equal)
                &&& exists|i: int, p: int| live(all_runs(files), i, p, k, v)
            } by {
            lemma_range_entry(files, lower, upper, k, v);
        }
    }
}

} // verus!
