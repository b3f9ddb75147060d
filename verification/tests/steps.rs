//! Single steps: the order of keys, errors, searches, openings and cursors, event by event.

use ekv::config::{FILE_COUNT, MAX_FILE_COUNT, MAX_KEY_SIZE};
use ekv::cursor::{Event, Request, Step};
use ekv::errors::{no_eof, CursorError, Error, ReadError};
use ekv::file::{DehydratedFileReader, RecordHeader, SeekDirection};
use ekv::keys::{order_keys, KeyOrder};
use ekv::opening::{OpenEvent, OpenProgress, OpenRequest, Opening};
use ekv::search::{FileSearch, SearchEvent, SearchRequest, SearchStep};
use ekv::{Bound, Cursor};

fn reader(file_id: u16, offset: u32) -> DehydratedFileReader {
    DehydratedFileReader { file_id, offset }
}

fn header(key_len: usize, value_len: usize) -> RecordHeader {
    RecordHeader { key_len, value_len, is_delete: false }
}

fn delete_header(key_len: usize) -> RecordHeader {
    RecordHeader { key_len, value_len: 0, is_delete: true }
}

#[test]
fn keys_are_ordered_lexicographically() {
    assert_eq!(order_keys(b"", b""), KeyOrder::Equal);
    assert_eq!(order_keys(b"", b"a"), KeyOrder::Less);
    assert_eq!(order_keys(b"a", b""), KeyOrder::Greater);
    assert_eq!(order_keys(b"ab", b"abc"), KeyOrder::Less);
    assert_eq!(order_keys(b"b", b"abc"), KeyOrder::Greater);
    assert_eq!(order_keys(b"\x00\xff", b"\x01"), KeyOrder::Less);
    assert_eq!(order_keys(b"\x80", b"\x7f\xff"), KeyOrder::Greater);
    assert_eq!(order_keys(b"same", b"same"), KeyOrder::Equal);
}

#[test]
fn order_of_keys_is_a_total_order() {
    let keys: [&[u8]; 6] = [b"", b"\x00", b"\x00\x00", b"\x01", b"a", b"ab"];
    for (i, a) in keys.iter().enumerate() {
        for (j, b) in keys.iter().enumerate() {
            let expected = if i < j {
                KeyOrder::Less
            } else if i == j {
                KeyOrder::Equal
            } else {
                KeyOrder::Greater
            };
            assert_eq!(order_keys(a, b), expected);
        }
    }
}

#[test]
fn file_count_follows_from_the_tree() {
    assert_eq!(MAX_FILE_COUNT, 10);
    assert_eq!(FILE_COUNT, 10);
}

#[test]
fn end_of_file_is_corruption_where_none_may_be() {
    assert_eq!(no_eof::<u8>(ReadError::Eof), Error::Corrupted);
    assert_eq!(no_eof::<u8>(ReadError::Corrupted), Error::Corrupted);
    assert_eq!(no_eof(ReadError::Flash(5u8)), Error::Flash(5));
}

#[test]
fn store_errors_become_cursor_errors() {
    assert_eq!(CursorError::<u8>::from(Error::Corrupted), CursorError::Corrupted);
    assert_eq!(CursorError::from(Error::Flash(5u8)), CursorError::Flash(5));
}

fn requested(step: SearchStep<u8>) -> (FileSearch, SearchRequest) {
    match step {
        SearchStep::Request(search, request) => (search, request),
        SearchStep::Done(done) => panic!("the search is over: {:?}", done),
    }
}

fn found(step: SearchStep<u8>) -> Result<Option<DehydratedFileReader>, Error<u8>> {
    match step {
        SearchStep::Request(_, request) => panic!("the search goes on: {:?}", request),
        SearchStep::Done(done) => done,
    }
}

/// A search that has read the key of the record at place 7, which has a value of 9 bytes.
fn at_key(bound: &Bound<'_>, probing: bool, key: &[u8]) -> SearchStep<u8> {
    let sought = SearchEvent::Sought { probing, reader: reader(1, 7) };
    let (search, request) =
        requested(FileSearch::Seeking.search_lower_bound_file(bound, sought));
    assert_eq!(request, SearchRequest::ReadHeader);
    let (search, request) = requested(
        search.search_lower_bound_file(bound, SearchEvent::Header(header(key.len(), 9))),
    );
    assert_eq!(request, SearchRequest::ReadKey { len: key.len() });
    search.search_lower_bound_file(bound, SearchEvent::Key(key))
}

#[test]
fn binary_search_moves_towards_the_bound() {
    let bound = Bound { key: b"m", allow_equal: true };
    let (_, request) = requested(at_key(&bound, true, b"a"));
    assert_eq!(request, SearchRequest::Seek(SeekDirection::Right));
    let (_, request) = requested(at_key(&bound, true, b"z"));
    assert_eq!(request, SearchRequest::Seek(SeekDirection::Left));
    assert_eq!(found(at_key(&bound, true, b"m")), Ok(Some(reader(1, 7))));
}

#[test]
fn linear_search_passes_over_smaller_keys() {
    let bound = Bound { key: b"m", allow_equal: true };
    let (search, request) = requested(at_key(&bound, false, b"a"));
    assert_eq!(request, SearchRequest::SkipValue { len: 9 });
    let skipped = SearchEvent::Skipped { reader: reader(1, 20) };
    let (search, request) = requested(search.search_lower_bound_file(&bound, skipped));
    assert_eq!(request, SearchRequest::ReadHeader);
    let eof = SearchEvent::Failed(ReadError::Eof);
    assert_eq!(found(search.search_lower_bound_file(&bound, eof)), Ok(None));
    assert_eq!(found(at_key(&bound, false, b"m")), Ok(Some(reader(1, 7))));
    assert_eq!(found(at_key(&bound, false, b"z")), Ok(Some(reader(1, 7))));
}

#[test]
fn excluded_key_is_passed_over() {
    let bound = Bound { key: b"m", allow_equal: false };
    for probing in [true, false] {
        let (search, request) = requested(at_key(&bound, probing, b"m"));
        assert_eq!(request, SearchRequest::SkipValue { len: 9 });
        let skipped = SearchEvent::Skipped { reader: reader(1, 20) };
        let step = search.search_lower_bound_file(&bound, skipped);
        assert_eq!(found(step), Ok(Some(reader(1, 20))));
    }
}

#[test]
fn search_fails_with_its_requests() {
    let bound = Bound { key: b"m", allow_equal: true };
    let failures = || {
        [
            (SearchEvent::Failed(ReadError::Eof), Error::Corrupted),
            (SearchEvent::Failed(ReadError::Corrupted), Error::Corrupted),
            (SearchEvent::Failed(ReadError::Flash(3u8)), Error::Flash(3)),
        ]
    };
    for (event, error) in failures() {
        let step = FileSearch::Seeking.search_lower_bound_file(&bound, event);
        assert_eq!(found(step), Err(error));
    }
    for (event, error) in failures() {
        let (search, _) = requested(at_key(&bound, false, b"a"));
        assert_eq!(found(search.search_lower_bound_file(&bound, event)), Err(error));
    }
    for probing in [true, false] {
        let at = FileSearch::AtHeader { probing, reader: reader(1, 7) };
        let corrupted = SearchEvent::Failed(ReadError::<u8>::Corrupted);
        assert_eq!(found(at.search_lower_bound_file(&bound, corrupted)), Err(Error::Corrupted));
        let eof = SearchEvent::Failed(ReadError::<u8>::Eof);
        assert_eq!(found(at.search_lower_bound_file(&bound, eof)), Ok(None));
    }
}

#[test]
fn search_accepts_what_it_waits_for() {
    let at_header = FileSearch::AtHeader { probing: false, reader: reader(0, 0) };
    let at_key = FileSearch::AtKey { probing: false, reader: reader(0, 0), header: header(2, 0) };
    let sought = || SearchEvent::Sought { probing: true, reader: reader(0, 0) };
    let skipped = || SearchEvent::Skipped { reader: reader(0, 0) };
    assert!(FileSearch::Seeking.accepts_event::<u8>(&sought()));
    assert!(!at_header.accepts_event::<u8>(&sought()));
    assert!(at_header.accepts_event::<u8>(&SearchEvent::Header(header(MAX_KEY_SIZE, 0))));
    assert!(!at_header.accepts_event::<u8>(&SearchEvent::Header(header(MAX_KEY_SIZE + 1, 0))));
    assert!(!at_key.accepts_event::<u8>(&SearchEvent::Header(header(1, 0))));
    assert!(at_key.accepts_event::<u8>(&SearchEvent::Key(b"ab")));
    assert!(!at_key.accepts_event::<u8>(&SearchEvent::Key(b"abc")));
    assert!(FileSearch::SkippingMatch.accepts_event::<u8>(&skipped()));
    assert!(FileSearch::SkippingSmaller.accepts_event::<u8>(&skipped()));
    assert!(!FileSearch::Seeking.accepts_event::<u8>(&skipped()));
    assert!(FileSearch::Seeking.accepts_event(&SearchEvent::Failed(ReadError::Flash(1u8))));
}

fn pending<'a, 'b>(progress: OpenProgress<'a, 'b, u8>) -> (Opening<'a, 'b>, OpenRequest) {
    match progress {
        OpenProgress::Pending(opening, request) => (opening, request),
        OpenProgress::Done(_) => panic!("the opening is over"),
    }
}

/// Opens a cursor whose readers stand at ten times their file, but for those left out.
fn open(left_out: &[usize]) -> Cursor<'static> {
    let lower = Bound { key: b"m", allow_equal: true };
    let (opening, request) = pending(Cursor::new(Some(lower), None));
    assert_eq!(request, OpenRequest::Remount);
    let mut progress = opening.step(OpenEvent::Remounted);
    for file in 0..FILE_COUNT {
        let (opening, request) = pending(progress);
        let file_id = file as u16;
        let start = SearchRequest::StartSearch;
        assert_eq!(request, OpenRequest::Search { file: file_id, request: start });
        let sought = SearchEvent::Sought { probing: false, reader: reader(file_id, 10 * file as u32) };
        let (opening, request) = pending(opening.step(OpenEvent::Search(sought)));
        let read = SearchRequest::ReadHeader;
        assert_eq!(request, OpenRequest::Search { file: file_id, request: read });
        progress = if left_out.contains(&file) {
            opening.step(OpenEvent::Search(SearchEvent::Failed(ReadError::Eof)))
        } else {
            let (opening, _) = pending(opening.step(OpenEvent::Search(SearchEvent::Header(header(1, 0)))));
            opening.step(OpenEvent::Search(SearchEvent::Key(b"z")))
        };
    }
    match progress {
        OpenProgress::Done(Ok(cursor)) => cursor,
        _ => panic!("the opening is not over"),
    }
}

#[test]
fn opening_goes_through_all_files() {
    let (opening, request) = pending(Cursor::new(None, None));
    assert_eq!(request, OpenRequest::Remount);
    assert!(opening.accepts::<u8>(&OpenEvent::Remounted));
    assert!(opening.accepts::<u8>(&OpenEvent::Failed(Error::Corrupted)));
    assert!(!opening.accepts::<u8>(&OpenEvent::Opened { reader: reader(0, 0) }));
    let mut progress = opening.step(OpenEvent::Remounted);
    for file in 0..FILE_COUNT as u16 {
        let (opening, request) = pending(progress);
        assert_eq!(request, OpenRequest::Open { file });
        assert!(opening.accepts::<u8>(&OpenEvent::Opened { reader: reader(file, 4) }));
        assert!(!opening.accepts::<u8>(&OpenEvent::Remounted));
        let sought = SearchEvent::Sought { probing: true, reader: reader(file, 4) };
        assert!(!opening.accepts::<u8>(&OpenEvent::Search(sought)));
        progress = opening.step(OpenEvent::Opened { reader: reader(file, 4) });
    }
    let mut cursor = match progress {
        OpenProgress::Done(Ok(cursor)) => cursor,
        _ => panic!("the opening is not over"),
    };
    // The readers come in the order of the files.
    let mut step = cursor.next::<u8>(Event::Start, &mut [], &mut []);
    for file in 0..FILE_COUNT as u16 {
        assert_eq!(step, Step::Request(Request::ReadHeader { reader: reader(file, 4) }));
        step = cursor.next(Event::Failed(ReadError::Eof), &mut [], &mut []);
    }
    assert_eq!(step, Step::Done(Ok(None)));
}

#[test]
fn search_leaves_out_files_that_hold_nothing() {
    let all: Vec<usize> = (0..FILE_COUNT).collect();
    let mut cursor = open(&all);
    assert_eq!(cursor.next::<u8>(Event::Start, &mut [], &mut []), Step::Done(Ok(None)));
    let mut cursor = open(&[0, 1, 2, 4, 5, 6, 7, 9]);
    let step = cursor.next::<u8>(Event::Start, &mut [], &mut []);
    assert_eq!(step, Step::Request(Request::ReadHeader { reader: reader(3, 30) }));
    let step = cursor.next::<u8>(Event::Failed(ReadError::Eof), &mut [], &mut []);
    assert_eq!(step, Step::Request(Request::ReadHeader { reader: reader(8, 80) }));
}

#[test]
fn merge_round_step_by_step() {
    // Only the files 3 and 8 are open.
    let mut cursor = open(&[0, 1, 2, 4, 5, 6, 7, 9]);
    let mut key = [0xaa; 4];
    let mut value = [0xbb; 4];
    let first = Step::Request(Request::ReadHeader { reader: reader(3, 30) });
    let second = Step::Request(Request::ReadHeader { reader: reader(8, 80) });

    // Both stand at the key "k"; the newer one marks it as deleted.
    assert_eq!(cursor.next::<u8>(Event::Start, &mut key, &mut value), first);
    let step = cursor.next::<u8>(Event::Header(header(1, 2)), &mut key, &mut value);
    assert_eq!(step, Step::Request(Request::ReadKey { len: 1 }));
    assert_eq!(cursor.next::<u8>(Event::Key(b"k"), &mut key, &mut value), second);
    cursor.next::<u8>(Event::Header(delete_header(1)), &mut key, &mut value);
    assert_eq!(cursor.next::<u8>(Event::Key(b"k"), &mut key, &mut value), second);
    let step = cursor.next::<u8>(Event::Header(delete_header(1)), &mut key, &mut value);
    assert_eq!(step, Step::Request(Request::SkipKey { len: 1 }));
    let step = cursor.next::<u8>(Event::Skipped, &mut key, &mut value);
    assert_eq!(step, Step::Request(Request::SkipValue { len: 0 }));
    let advanced = Event::Advanced { reader: reader(8, 85) };
    assert_eq!(cursor.next::<u8>(advanced, &mut key, &mut value), first);
    cursor.next::<u8>(Event::Header(header(1, 2)), &mut key, &mut value);
    let step = cursor.next::<u8>(Event::Skipped, &mut key, &mut value);
    assert_eq!(step, Step::Request(Request::SkipValue { len: 2 }));

    // Another round follows; the older one has the lower key now.
    let advanced = Event::Advanced { reader: reader(3, 37) };
    let first = Step::Request(Request::ReadHeader { reader: reader(3, 37) });
    let second = Step::Request(Request::ReadHeader { reader: reader(8, 85) });
    assert_eq!(cursor.next::<u8>(advanced, &mut key, &mut value), first);
    cursor.next::<u8>(Event::Header(header(2, 3)), &mut key, &mut value);
    assert_eq!(cursor.next::<u8>(Event::Key(b"ka"), &mut key, &mut value), second);
    cursor.next::<u8>(Event::Header(header(1, 1)), &mut key, &mut value);
    assert_eq!(cursor.next::<u8>(Event::Key(b"l"), &mut key, &mut value), first);
    cursor.next::<u8>(Event::Header(header(2, 3)), &mut key, &mut value);
    assert_eq!((key, value), ([0xaa; 4], [0xbb; 4]));
    let step = cursor.next::<u8>(Event::Skipped, &mut key, &mut value);
    assert_eq!(step, Step::Request(Request::ReadValue { len: 3 }));
    let read = Event::Value { bytes: b"xyz", reader: reader(3, 46) };
    let step = cursor.next::<u8>(read, &mut key, &mut value);
    assert_eq!(step, Step::Done(Ok(Some((2, 3)))));
    assert_eq!(&key, b"ka\xaa\xaa");
    assert_eq!(&value, b"xyz\xbb");

    // The older file comes to its end, the newer one goes on.
    let first = Step::Request(Request::ReadHeader { reader: reader(3, 46) });
    assert_eq!(cursor.next::<u8>(Event::Start, &mut key, &mut value), first);
    let step = cursor.next::<u8>(Event::Failed(ReadError::Eof), &mut key, &mut value);
    assert_eq!(step, second);
}

#[test]
fn end_of_file_while_advancing_drops_the_file() {
    let mut cursor = open(&[0, 1, 2, 4, 5, 6, 7, 9]);
    let mut key = [0; 4];
    let mut value = [0; 4];
    let first = Step::Request(Request::ReadHeader { reader: reader(3, 30) });
    let second = Step::Request(Request::ReadHeader { reader: reader(8, 80) });
    cursor.next::<u8>(Event::Start, &mut key, &mut value);
    cursor.next::<u8>(Event::Header(header(1, 0)), &mut key, &mut value);
    cursor.next::<u8>(Event::Key(b"k"), &mut key, &mut value);
    cursor.next::<u8>(Event::Header(header(1, 0)), &mut key, &mut value);
    assert_eq!(cursor.next::<u8>(Event::Key(b"k"), &mut key, &mut value), second);
    // The newer file has shrunk in the meantime: the older one tells the value.
    let step = cursor.next::<u8>(Event::Failed(ReadError::Eof), &mut key, &mut value);
    assert_eq!(step, first);
    // So has the older one: nothing is left.
    let step = cursor.next::<u8>(Event::Failed(ReadError::Eof), &mut key, &mut value);
    assert_eq!(step, Step::Done(Ok(None)));
}

#[test]
fn cursor_fails_with_its_requests() {
    let failures = || {
        [
            (ReadError::Corrupted, CursorError::Corrupted),
            (ReadError::Flash(3u8), CursorError::Flash(3)),
        ]
    };
    // How far the call has come; the end of the file is corruption in all but headers.
    for done in 0..5 {
        let mut cases: Vec<(ReadError<u8>, CursorError<u8>)> = failures().into_iter().collect();
        if done != 0 && done != 2 {
            cases.push((ReadError::Eof, CursorError::Corrupted));
        }
        for (failure, error) in cases {
            let mut cursor = open(&[1, 2, 3, 4, 5, 6, 7, 8, 9]);
            let mut key = [0; 4];
            let mut value = [0; 4];
            let events = [
                Event::Header(header(1, 0)),
                Event::Key(b"k"),
                Event::Header(header(1, 0)),
                Event::Skipped,
            ];
            cursor.next::<u8>(Event::Start, &mut key, &mut value);
            for event in events.into_iter().take(done) {
                cursor.next::<u8>(event, &mut key, &mut value);
            }
            let step = cursor.next(Event::Failed(failure), &mut key, &mut value);
            assert_eq!(step, Step::Done(Err(error)));
            // The call is over, and can be made again.
            let step = cursor.next::<u8>(Event::Start, &mut key, &mut value);
            assert_eq!(step, Step::Request(Request::ReadHeader { reader: reader(0, 0) }));
        }
    }
}

#[test]
fn cursor_accepts_what_it_waits_for() {
    let mut cursor = open(&[1, 2, 3, 4, 5, 6, 7, 8, 9]);
    let mut key = [0; 4];
    let mut value = [0; 4];
    // No call is under way.
    assert!(cursor.accepts::<u8>(&Event::Start, 0, 0));
    assert!(!cursor.accepts::<u8>(&Event::Failed(ReadError::Eof), 4, 4));
    assert!(!cursor.accepts::<u8>(&Event::Header(header(1, 0)), 4, 4));
    cursor.next::<u8>(Event::Start, &mut key, &mut value);
    assert!(cursor.accepts::<u8>(&Event::Header(header(MAX_KEY_SIZE, 0)), 4, 4));
    assert!(!cursor.accepts::<u8>(&Event::Header(header(MAX_KEY_SIZE + 1, 0)), 4, 4));
    assert!(!cursor.accepts::<u8>(&Event::Key(b"k"), 4, 4));
    cursor.next::<u8>(Event::Header(header(1, 2)), &mut key, &mut value);
    assert!(cursor.accepts::<u8>(&Event::Key(b"k"), 4, 4));
    assert!(!cursor.accepts::<u8>(&Event::Key(b"ka"), 4, 4));
    cursor.next::<u8>(Event::Key(b"k"), &mut key, &mut value);
    assert!(!cursor.accepts::<u8>(&Event::Skipped, 4, 4));
    cursor.next::<u8>(Event::Header(header(1, 2)), &mut key, &mut value);
    assert!(cursor.accepts::<u8>(&Event::Skipped, 4, 4));
    cursor.next::<u8>(Event::Skipped, &mut key, &mut value);
    let read = || Event::Value { bytes: b"vw", reader: reader(0, 7) };
    assert!(cursor.accepts::<u8>(&read(), 4, 4));
    assert!(!cursor.accepts::<u8>(&read(), 4, 1));
    assert!(!cursor.accepts::<u8>(&read(), 0, 4));
    assert!(!cursor.accepts::<u8>(&Event::Value { bytes: b"v", reader: reader(0, 7) }, 4, 4));
    assert!(!cursor.accepts::<u8>(&Event::Advanced { reader: reader(0, 7) }, 4, 4));
    // The buffers must not shrink, but a call can always be started over.
    assert!(cursor.accepts::<u8>(&Event::Start, 0, 0));
}

#[test]
fn record_that_has_changed_its_key_length_is_not_taken() {
    let mut cursor = open(&[1, 2, 3, 4, 5, 6, 7, 8, 9]);
    let mut key = [0; 4];
    let mut value = [0; 4];
    cursor.next::<u8>(Event::Start, &mut key, &mut value);
    cursor.next::<u8>(Event::Header(header(1, 2)), &mut key, &mut value);
    cursor.next::<u8>(Event::Key(b"k"), &mut key, &mut value);
    cursor.next::<u8>(Event::Header(header(2, 2)), &mut key, &mut value);
    assert!(!cursor.accepts::<u8>(&Event::Skipped, 4, 4));
    // Where a buffer is too small, that is what comes out.
    assert!(cursor.accepts::<u8>(&Event::Skipped, 1, 4));
    let step = cursor.next::<u8>(Event::Skipped, &mut key[..1], &mut value);
    assert_eq!(step, Step::Done(Err(CursorError::KeyBufferTooSmall)));
}
