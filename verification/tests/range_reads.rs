//! Range reads over files in memory.

use std::collections::BTreeMap;

use ekv::config::{FileID, FILE_COUNT, MAX_KEY_SIZE, MAX_VALUE_SIZE};
use ekv::cursor::{Event, Request, Step};
use ekv::errors::{CursorError, Error, ReadError};
use ekv::file::{DehydratedFileReader, RecordHeader, SeekDirection};
use ekv::opening::{OpenEvent, OpenProgress, OpenRequest};
use ekv::search::{SearchEvent, SearchRequest};
use ekv::{Bound, Cursor};

/// A failure of the flash driver.
#[derive(Clone, Copy, Debug, PartialEq, Eq)]
struct Broken(u32);

/// A record starts with its delete mark, the length of its key, and that of its value.
const RECORD_HEADER_SIZE: usize = 4;

/// Files in memory, and what was done to them.
struct Database {
    files: Vec<Vec<u8>>,
    commits: usize,
    /// The binary search gives up on this many records, and leaves them to the linear one.
    slack: usize,
    /// How many requests went well until one fails.
    failing: Option<usize>,
    requests: usize,
    /// The files whose records were looked at.
    touched: Vec<FileID>,
}

struct WriteTransaction<'a> {
    db: &'a mut Database,
    records: BTreeMap<Vec<u8>, Option<Vec<u8>>>,
}

impl WriteTransaction<'_> {
    fn write(&mut self, key: &[u8], value: &[u8]) {
        self.records.insert(key.to_vec(), Some(value.to_vec()));
    }

    fn delete(&mut self, key: &[u8]) {
        self.records.insert(key.to_vec(), None);
    }

    fn commit(self) {
        let file = self.db.commits;
        for (key, value) in &self.records {
            let bytes: &[u8] = value.as_deref().unwrap_or(&[]);
            let out = &mut self.db.files[file];
            out.push(value.is_none() as u8);
            out.push(key.len() as u8);
            out.extend_from_slice(&(bytes.len() as u16).to_le_bytes());
            out.extend_from_slice(key);
            out.extend_from_slice(bytes);
        }
        self.db.commits += 1;
    }
}

/// Where a binary search stands: the places of the records, and those still open.
struct FileSearcher {
    offsets: Vec<u32>,
    lo: usize,
    hi: usize,
    probe: usize,
}

impl Database {
    fn new() -> Database {
        Database {
            files: vec![Vec::new(); FILE_COUNT],
            commits: 0,
            slack: 0,
            failing: None,
            requests: 0,
            touched: Vec::new(),
        }
    }

    fn write_transaction(&mut self) -> WriteTransaction<'_> {
        WriteTransaction { db: self, records: BTreeMap::new() }
    }

    /// Counts a request, which may be the one that fails.
    fn count(&mut self) -> Result<(), ReadError<Broken>> {
        self.requests += 1;
        match self.failing {
            Some(0) => Err(ReadError::Flash(Broken(7))),
            Some(n) => {
                self.failing = Some(n - 1);
                Ok(())
            }
            None => Ok(()),
        }
    }

    fn read(&mut self, at: &mut DehydratedFileReader, len: usize) -> Result<Vec<u8>, ReadError<Broken>> {
        self.count()?;
        let file = &self.files[at.file_id as usize];
        let from = at.offset as usize;
        match file.get(from..from + len) {
            Some(bytes) => {
                at.offset += len as u32;
                Ok(bytes.to_vec())
            }
            None => Err(ReadError::Eof),
        }
    }

    fn read_header(&mut self, at: &mut DehydratedFileReader) -> Result<RecordHeader, ReadError<Broken>> {
        self.touched.push(at.file_id);
        let raw = self.read(at, RECORD_HEADER_SIZE)?;
        let header = RecordHeader {
            key_len: raw[1] as usize,
            value_len: u16::from_le_bytes([raw[2], raw[3]]) as usize,
            is_delete: raw[0] != 0,
        };
        if header.key_len > MAX_KEY_SIZE || header.value_len > MAX_VALUE_SIZE {
            return Err(ReadError::Corrupted);
        }
        Ok(header)
    }

    fn searcher(&self, file: FileID) -> FileSearcher {
        let bytes = &self.files[file as usize];
        let mut offsets = vec![0];
        let mut at = 0;
        while at + RECORD_HEADER_SIZE <= bytes.len() {
            let value_len = u16::from_le_bytes([bytes[at + 2], bytes[at + 3]]) as usize;
            at += RECORD_HEADER_SIZE + bytes[at + 1] as usize + value_len;
            offsets.push(at as u32);
        }
        let hi = offsets.len() - 1;
        FileSearcher { offsets, lo: 0, hi, probe: 0 }
    }

    /// Opens a cursor for a range.
    fn open<'a>(
        &mut self,
        lower: Option<Bound<'_>>,
        upper: Option<Bound<'a>>,
        mount: Result<(), Error<Broken>>,
    ) -> Result<Cursor<'a>, Error<Broken>> {
        let mut mount = Some(mount);
        let mut searcher = self.searcher(0);
        let mut at = DehydratedFileReader { file_id: 0, offset: 0 };
        let mut bytes;
        let mut progress = Cursor::new(lower, upper);
        loop {
            let (opening, request) = match progress {
                OpenProgress::Done(done) => return done,
                OpenProgress::Pending(opening, request) => (opening, request),
            };
            let event = match request {
                OpenRequest::Remount => match mount.take().unwrap() {
                    Ok(()) => OpenEvent::Remounted,
                    Err(e) => OpenEvent::Failed(e),
                },
                OpenRequest::Open { file } => OpenEvent::Opened {
                    reader: DehydratedFileReader { file_id: file, offset: 0 },
                },
                OpenRequest::Search { file, request } => OpenEvent::Search(match request {
                    SearchRequest::StartSearch | SearchRequest::Seek(_) => {
                        match request {
                            SearchRequest::StartSearch => searcher = self.searcher(file),
                            SearchRequest::Seek(SeekDirection::Left) => searcher.hi = searcher.probe,
                            _ => searcher.lo = searcher.probe + 1,
                        }
                        let probing = searcher.hi > searcher.lo + self.slack;
                        searcher.probe = if probing {
                            (searcher.lo + searcher.hi) / 2
                        } else {
                            searcher.lo
                        };
                        at = DehydratedFileReader { file_id: file, offset: searcher.offsets[searcher.probe] };
                        match self.count() {
                            Ok(()) => SearchEvent::Sought { probing, reader: at },
                            Err(e) => SearchEvent::Failed(e),
                        }
                    }
                    SearchRequest::ReadHeader => match self.read_header(&mut at) {
                        Ok(header) => SearchEvent::Header(header),
                        Err(e) => SearchEvent::Failed(e),
                    },
                    SearchRequest::ReadKey { len } => match self.read(&mut at, len) {
                        Ok(key) => {
                            bytes = key;
                            SearchEvent::Key(&bytes)
                        }
                        Err(e) => SearchEvent::Failed(e),
                    },
                    SearchRequest::SkipValue { len } => match self.read(&mut at, len) {
                        Ok(_) => SearchEvent::Skipped { reader: at },
                        Err(e) => SearchEvent::Failed(e),
                    },
                }),
            };
            assert!(opening.accepts(&event));
            progress = opening.step(event);
        }
    }

    fn read_range<'a>(
        &mut self,
        lower: Option<Bound<'_>>,
        upper: Option<Bound<'a>>,
    ) -> Result<Cursor<'a>, Error<Broken>> {
        self.open(lower, upper, Ok(()))
    }

    fn read_all(&mut self) -> Result<Cursor<'static>, Error<Broken>> {
        self.read_range(None, None)
    }

    /// Gets the next entry of a cursor.
    fn next(
        &mut self,
        cursor: &mut Cursor<'_>,
        key: &mut [u8],
        value: &mut [u8],
    ) -> Result<Option<(usize, usize)>, CursorError<Broken>> {
        let mut at = DehydratedFileReader { file_id: 0, offset: 0 };
        let mut bytes;
        let mut event = Event::Start;
        loop {
            assert!(cursor.accepts(&event, key.len(), value.len()));
            let request = match cursor.next(event, key, value) {
                Step::Done(done) => return done,
                Step::Request(request) => request,
            };
            event = match request {
                Request::ReadHeader { reader } => {
                    at = reader;
                    match self.read_header(&mut at) {
                        Ok(header) => Event::Header(header),
                        Err(e) => Event::Failed(e),
                    }
                }
                Request::ReadKey { len } => match self.read(&mut at, len) {
                    Ok(read) => {
                        bytes = read;
                        Event::Key(&bytes)
                    }
                    Err(e) => Event::Failed(e),
                },
                Request::SkipKey { len } => match self.read(&mut at, len) {
                    Ok(_) => Event::Skipped,
                    Err(e) => Event::Failed(e),
                },
                Request::ReadValue { len } => match self.read(&mut at, len) {
                    Ok(read) => {
                        bytes = read;
                        Event::Value { bytes: &bytes, reader: at }
                    }
                    Err(e) => Event::Failed(e),
                },
                Request::SkipValue { len } => match self.read(&mut at, len) {
                    Ok(_) => Event::Advanced { reader: at },
                    Err(e) => Event::Failed(e),
                },
            };
        }
    }
}

fn check_cursor(db: &mut Database, mut cursor: Cursor<'_>, entries: &[(&[u8], &[u8])]) {
    let mut kbuf = [0; MAX_KEY_SIZE];
    let mut vbuf = [0; MAX_VALUE_SIZE];

    let mut got = Vec::new();
    while let Some((klen, vlen)) = db.next(&mut cursor, &mut kbuf, &mut vbuf).unwrap() {
        got.push((kbuf[..klen].to_vec(), vbuf[..vlen].to_vec()));
    }

    let expected: Vec<(Vec<u8>, Vec<u8>)> =
        entries.iter().map(|(k, v)| (k.to_vec(), v.to_vec())).collect();
    assert_eq!(got, expected);
}

fn check_read_all(db: &mut Database, entries: &[(&[u8], &[u8])]) {
    let cursor = db.read_all().unwrap();
    check_cursor(db, cursor, entries)
}

/// Checks a range, with searches that are all binary, all linear, and something of both.
fn check_read_range(
    db: &mut Database,
    lower: Option<Bound<'_>>,
    upper: Option<Bound<'_>>,
    entries: &[(&[u8], &[u8])],
) {
    for slack in [0, 2, 100] {
        db.slack = slack;
        let cursor = db.read_range(lower, upper).unwrap();
        check_cursor(db, cursor, entries)
    }
}

fn incl(key: &[u8]) -> Option<Bound<'_>> {
    Some(Bound { key, allow_equal: true })
}

fn excl(key: &[u8]) -> Option<Bound<'_>> {
    Some(Bound { key, allow_equal: false })
}

#[test]
fn test_empty() {
    let mut db = Database::new();

    let rows: &[(&[u8], &[u8])] = &[];
    check_read_all(&mut db, rows);
}

#[test]
fn test() {
    let mut db = Database::new();

    let mut wtx = db.write_transaction();
    wtx.write(b"bar", b"4321");
    wtx.write(b"foo", b"1234");
    wtx.commit();

    let mut wtx = db.write_transaction();
    wtx.write(b"bar", b"8765");
    wtx.write(b"baz", b"4242");
    wtx.write(b"foo", b"5678");
    wtx.commit();

    let mut wtx = db.write_transaction();
    wtx.write(b"lol", b"9999");
    wtx.commit();

    let rows: &[(&[u8], &[u8])] = &[
        (b"bar", b"8765"),
        (b"baz", b"4242"),
        (b"foo", b"5678"),
        (b"lol", b"9999"),
    ];
    check_read_all(&mut db, rows);
}

#[test]
fn test_delete() {
    let mut db = Database::new();

    let mut wtx = db.write_transaction();
    wtx.write(b"bar", b"4321");
    wtx.write(b"foo", b"1234");
    wtx.commit();

    let mut wtx = db.write_transaction();
    wtx.delete(b"bar");
    wtx.commit();

    let rows: &[(&[u8], &[u8])] = &[(b"foo", b"1234")];
    check_read_all(&mut db, rows);
}

#[test]
fn test_delete_empty() {
    let mut db = Database::new();

    let mut wtx = db.write_transaction();
    wtx.write(b"bar", b"4321");
    wtx.write(b"foo", b"1234");
    wtx.commit();

    let mut wtx = db.write_transaction();
    wtx.delete(b"bar");
    wtx.commit();

    let mut wtx = db.write_transaction();
    wtx.delete(b"foo");
    wtx.commit();

    let rows: &[(&[u8], &[u8])] = &[];
    check_read_all(&mut db, rows);
}

/// The ranges that both range tests read.
fn check_ranges(db: &mut Database) {
    let rows: &[(&[u8], &[u8])] = &[
        (b"aa", b"a"),
        (b"bb", b"b"),
        (b"cc", b"c"),
        (b"dd", b"d"),
        (b"ee", b"e"),
        (b"ff", b"f"),
    ];
    check_read_range(db, None, None, rows);
    check_read_range(db, None, incl(b"ff"), rows);
    check_read_range(db, None, incl(b"zz"), rows);
    check_read_range(db, None, excl(b"zz"), rows);

    check_read_range(db, incl(b"aa"), None, rows);
    check_read_range(db, incl(b"aa"), incl(b"ff"), rows);
    check_read_range(db, incl(b"aa"), incl(b"zz"), rows);
    check_read_range(db, incl(b"aa"), excl(b"zz"), rows);

    check_read_range(db, incl(b"0"), None, rows);
    check_read_range(db, incl(b"0"), incl(b"ff"), rows);
    check_read_range(db, incl(b"0"), incl(b"zz"), rows);
    check_read_range(db, incl(b"0"), excl(b"zz"), rows);

    check_read_range(db, excl(b"0"), None, rows);
    check_read_range(db, excl(b"0"), incl(b"ff"), rows);
    check_read_range(db, excl(b"0"), incl(b"zz"), rows);
    check_read_range(db, excl(b"0"), excl(b"zz"), rows);

    // match a few keys.
    let rows: &[(&[u8], &[u8])] = &[(b"cc", b"c"), (b"dd", b"d"), (b"ee", b"e")];
    check_read_range(db, incl(b"cc"), incl(b"ee"), rows);
    check_read_range(db, incl(b"c0"), incl(b"ee"), rows);
    check_read_range(db, excl(b"c0"), incl(b"ee"), rows);
    check_read_range(db, excl(b"bb"), incl(b"ee"), rows);

    check_read_range(db, incl(b"cc"), incl(b"ef"), rows);
    check_read_range(db, incl(b"c0"), incl(b"ef"), rows);
    check_read_range(db, excl(b"c0"), incl(b"ef"), rows);
    check_read_range(db, excl(b"bb"), incl(b"ef"), rows);

    check_read_range(db, incl(b"cc"), excl(b"ef"), rows);
    check_read_range(db, incl(b"c0"), excl(b"ef"), rows);
    check_read_range(db, excl(b"c0"), excl(b"ef"), rows);
    check_read_range(db, excl(b"bb"), excl(b"ef"), rows);

    check_read_range(db, incl(b"cc"), excl(b"ff"), rows);
    check_read_range(db, incl(b"c0"), excl(b"ff"), rows);
    check_read_range(db, excl(b"c0"), excl(b"ff"), rows);
    check_read_range(db, excl(b"bb"), excl(b"ff"), rows);

    // empty to the left
    check_read_range(db, None, incl(b"0"), &[]);
    check_read_range(db, None, excl(b"0"), &[]);
    check_read_range(db, None, excl(b"aa"), &[]);

    // empty to the right
    check_read_range(db, incl(b"z"), None, &[]);
    check_read_range(db, excl(b"z"), None, &[]);
    check_read_range(db, excl(b"ff"), None, &[]);

    // empty in the middle
    check_read_range(db, excl(b"aa"), excl(b"bb"), &[]);
    check_read_range(db, incl(b"ax"), excl(b"bb"), &[]);
    check_read_range(db, excl(b"aa"), incl(b"ba"), &[]);
    check_read_range(db, incl(b"ax"), incl(b"ba"), &[]);
}

#[test]
fn test_range() {
    let mut db = Database::new();

    let mut wtx = db.write_transaction();
    wtx.write(b"aa", b"a");
    wtx.write(b"bb", b"b");
    wtx.write(b"cc", b"c");
    wtx.write(b"dd", b"d");
    wtx.write(b"ee", b"e");
    wtx.write(b"ff", b"f");
    wtx.commit();

    check_ranges(&mut db);
}

#[test]
fn test_range_mulifile() {
    let mut db = Database::new();

    // write the thing in multiple transactions, so the keys are spread across files.
    let mut wtx = db.write_transaction();
    wtx.write(b"aa", b"a");
    wtx.write(b"bb", b"b");
    wtx.write(b"bbbad", b"bad");
    wtx.write(b"cc", b"wrong");
    wtx.write(b"dd", b"wrong");
    wtx.write(b"ff", b"f");
    wtx.write(b"ffbad", b"bad");
    wtx.write(b"zzbad", b"bad");
    wtx.commit();

    let mut wtx = db.write_transaction();
    wtx.write(b"aa", b"a");
    wtx.write(b"bb", b"b");
    wtx.delete(b"bbbad");
    wtx.write(b"cc", b"c");
    wtx.write(b"dd", b"d");
    wtx.write(b"ee", b"e");
    wtx.delete(b"ffbad");
    wtx.delete(b"zzbad");
    wtx.delete(b"zzzzznotexisting");
    wtx.commit();

    check_ranges(&mut db);
}

/// Two files that share a key, a deleted key between two others, and one key in the newer file.
fn small_db() -> Database {
    let mut db = Database::new();
    let mut wtx = db.write_transaction();
    wtx.write(b"a", b"old");
    wtx.write(b"b", b"gone");
    wtx.write(b"ccc", b"three");
    wtx.commit();
    let mut wtx = db.write_transaction();
    wtx.write(b"a", b"new!");
    wtx.delete(b"b");
    wtx.write(b"d", b"");
    wtx.commit();
    db
}

#[test]
fn newest_of_all_files_wins() {
    let mut db = Database::new();
    for i in 0..FILE_COUNT {
        let mut wtx = db.write_transaction();
        wtx.write(b"shared", &[i as u8]);
        wtx.write(&[b'k', i as u8], &[i as u8, i as u8]);
        wtx.commit();
    }
    let mut keys = Vec::new();
    for i in 0..FILE_COUNT {
        keys.push(([b'k', i as u8], [i as u8, i as u8]));
    }
    let newest = [FILE_COUNT as u8 - 1];
    let mut rows: Vec<(&[u8], &[u8])> = Vec::new();
    for (k, v) in &keys {
        rows.push((k, v));
    }
    rows.push((b"shared", &newest));
    check_read_all(&mut db, &rows);
    check_read_range(&mut db, excl(&[b'k', 4]), excl(b"shared"), &rows[5..10]);
}

#[test]
fn written_again_after_delete_shows_up() {
    let mut db = Database::new();
    for step in 0..3 {
        let mut wtx = db.write_transaction();
        match step {
            1 => wtx.delete(b"key"),
            n => wtx.write(b"key", &[n]),
        }
        wtx.commit();
    }
    check_read_all(&mut db, &[(b"key", &[2])]);
}

#[test]
fn deleted_key_is_hidden_whatever_bytes_its_record_holds() {
    let mut db = Database::new();
    let mut wtx = db.write_transaction();
    wtx.write(b"a", b"1");
    wtx.write(b"b", b"2");
    wtx.write(b"c", b"3");
    wtx.commit();
    // A delete mark for "b" with three bytes of value, and an entry behind it.
    db.files[1].extend_from_slice(b"\x01\x01\x03\x00bxyz\x00\x01\x01\x00c4");
    check_read_all(&mut db, &[(b"a", b"1"), (b"c", b"4")]);
    check_read_range(&mut db, incl(b"b"), None, &[(b"c", b"4")]);
    check_read_range(&mut db, excl(b"b"), None, &[(b"c", b"4")]);
    check_read_range(&mut db, excl(b"a"), incl(b"b"), &[]);
}

#[test]
fn longest_key_and_empty_key_are_read() {
    let longest = [0xfe; MAX_KEY_SIZE];
    let mut db = Database::new();
    let mut wtx = db.write_transaction();
    wtx.write(b"", b"first");
    wtx.write(&longest, b"last");
    wtx.commit();
    check_read_all(&mut db, &[(b"", b"first"), (&longest, b"last")]);
    check_read_range(&mut db, excl(b""), None, &[(&longest, b"last")]);
    check_read_range(&mut db, None, excl(&longest), &[(b"", b"first")]);
}

#[test]
fn entry_goes_into_the_start_of_the_buffers() {
    let mut db = small_db();
    let mut cursor = db.read_all().unwrap();
    let mut kbuf = [0xaa; 6];
    let mut vbuf = [0xbb; 6];
    assert_eq!(db.next(&mut cursor, &mut kbuf, &mut vbuf), Ok(Some((1, 4))));
    assert_eq!(&kbuf, b"a\xaa\xaa\xaa\xaa\xaa");
    assert_eq!(&vbuf, b"new!\xbb\xbb");
    assert_eq!(db.next(&mut cursor, &mut kbuf, &mut vbuf), Ok(Some((3, 5))));
    assert_eq!(&kbuf, b"ccc\xaa\xaa\xaa");
    assert_eq!(&vbuf, b"three\xbb");
    assert_eq!(db.next(&mut cursor, &mut kbuf, &mut vbuf), Ok(Some((1, 0))));
    assert_eq!(&kbuf, b"dcc\xaa\xaa\xaa");
    assert_eq!(&vbuf, b"three\xbb");
    assert_eq!(db.next(&mut cursor, &mut kbuf, &mut vbuf), Ok(None));
    assert_eq!(&kbuf, b"dcc\xaa\xaa\xaa");
    assert_eq!(&vbuf, b"three\xbb");
}

#[test]
fn too_small_buffers_lose_no_entry() {
    let mut db = small_db();
    let mut cursor = db.read_range(incl(b"b"), None).unwrap();
    let mut kbuf = [0xaa; 3];
    let mut vbuf = [0xbb; 5];
    // Both are too small: the key is reported.
    assert_eq!(
        db.next(&mut cursor, &mut kbuf[..2], &mut vbuf[..4]),
        Err(CursorError::KeyBufferTooSmall)
    );
    assert_eq!(
        db.next(&mut cursor, &mut kbuf, &mut vbuf[..4]),
        Err(CursorError::ValueBufferTooSmall)
    );
    assert_eq!((kbuf, vbuf), ([0xaa; 3], [0xbb; 5]));
    // Exactly large enough.
    assert_eq!(db.next(&mut cursor, &mut kbuf, &mut vbuf), Ok(Some((3, 5))));
    assert_eq!((&kbuf, &vbuf), (b"ccc", b"three"));
}

#[test]
fn end_is_final() {
    let mut db = small_db();
    let mut cursor = db.read_range(None, incl(b"a")).unwrap();
    let mut kbuf = [0; 8];
    let mut vbuf = [0; 8];
    assert_eq!(db.next(&mut cursor, &mut kbuf, &mut vbuf), Ok(Some((1, 4))));
    assert_eq!(db.next(&mut cursor, &mut kbuf, &mut vbuf), Ok(None));
    let requests = db.requests;
    assert_eq!(db.next(&mut cursor, &mut kbuf, &mut vbuf), Ok(None));
    assert_eq!(db.next(&mut cursor, &mut [], &mut []), Ok(None));
    assert_eq!(db.requests, requests);
}

#[test]
fn file_that_is_done_is_not_touched_again() {
    let mut db = small_db();
    let mut cursor = db.read_range(None, incl(b"c")).unwrap();
    let mut kbuf = [0; 8];
    let mut vbuf = [0; 8];
    assert_eq!(db.next(&mut cursor, &mut kbuf, &mut vbuf), Ok(Some((1, 4))));
    // The files without records were done in the first round.
    db.touched.clear();
    assert_eq!(db.next(&mut cursor, &mut kbuf, &mut vbuf), Ok(None));
    assert_eq!(db.touched, [0, 1, 1, 0, 0, 1]);
}

#[test]
fn failure_before_the_newest_file_has_told_loses_no_entry() {
    // Headers and keys of two files, the ends of the others, and the header and key of the newest.
    let early = 2 + 2 + (FILE_COUNT - 2) + 2;
    for failing in 0..=early {
        let mut db = small_db();
        let mut cursor = db.read_all().unwrap();
        let mut kbuf = [0; 8];
        let mut vbuf = [0; 8];
        db.failing = Some(failing);
        assert_eq!(
            db.next(&mut cursor, &mut kbuf, &mut vbuf),
            Err(CursorError::Flash(Broken(7)))
        );
        db.failing = None;
        check_cursor(&mut db, cursor, &[(b"a", b"new!"), (b"ccc", b"three"), (b"d", b"")]);
    }
}

#[test]
fn failure_after_the_newest_file_was_left_shows_the_older_one() {
    let early = 2 + 2 + (FILE_COUNT - 2) + 2;
    let mut db = small_db();
    let mut cursor = db.read_all().unwrap();
    let mut kbuf = [0; 8];
    let mut vbuf = [0; 8];
    db.failing = Some(early + 1);
    assert_eq!(
        db.next(&mut cursor, &mut kbuf, &mut vbuf),
        Err(CursorError::Flash(Broken(7)))
    );
    db.failing = None;
    check_cursor(&mut db, cursor, &[(b"a", b"old"), (b"ccc", b"three"), (b"d", b"")]);
}

#[test]
fn call_that_was_given_up_can_be_started_over() {
    let mut db = small_db();
    let mut cursor = db.read_all().unwrap();
    let mut kbuf = [0; 8];
    let mut vbuf = [0; 8];
    let first = cursor.next::<Broken>(Event::Start, &mut kbuf, &mut vbuf);
    assert!(matches!(first, Step::Request(Request::ReadHeader { .. })));
    let header = RecordHeader { key_len: 1, value_len: 3, is_delete: false };
    let second = cursor.next::<Broken>(Event::Header(header), &mut kbuf, &mut vbuf);
    assert_eq!(second, Step::Request(Request::ReadKey { len: 1 }));
    check_cursor(&mut db, cursor, &[(b"a", b"new!"), (b"ccc", b"three"), (b"d", b"")]);
}

#[test]
fn cut_off_records_are_corruption() {
    // Cut within the value, within the key, and within the header, which reads as the end.
    let expected = [
        Err(CursorError::Corrupted),
        Err(CursorError::Corrupted),
        Ok(None),
    ];
    for (cut, outcome) in [8, 5, 3].into_iter().zip(expected) {
        let mut db = Database::new();
        let mut wtx = db.write_transaction();
        wtx.write(b"key", b"value");
        wtx.commit();
        db.files[0].truncate(cut);
        let mut cursor = db.read_all().unwrap();
        assert_eq!(db.next(&mut cursor, &mut [0; 8], &mut [0; 8]), outcome);
    }
}

#[test]
fn bad_header_is_corruption() {
    let mut db = small_db();
    db.files[1][1] = MAX_KEY_SIZE as u8 + 1;
    let mut cursor = db.read_all().unwrap();
    assert_eq!(
        db.next(&mut cursor, &mut [0; 8], &mut [0; 8]),
        Err(CursorError::Corrupted)
    );
    db.slack = 100;
    assert_eq!(db.read_range(incl(b"x"), None).err(), Some(Error::Corrupted));
}

#[test]
fn opening_fails_where_mounting_fails() {
    let mut db = small_db();
    assert_eq!(db.open(None, None, Err(Error::Corrupted)).err(), Some(Error::Corrupted));
    assert_eq!(
        db.open(incl(b"a"), None, Err(Error::Flash(Broken(3)))).err(),
        Some(Error::Flash(Broken(3)))
    );
    assert_eq!(db.requests, 0);
}

#[test]
fn opening_fails_where_a_search_fails() {
    // Every request of the searches in both files, the last one being the end of the last file.
    let mut db = small_db();
    db.read_range(excl(b"b"), None).unwrap();
    let requests = db.requests;
    for failing in 0..requests {
        let mut db = small_db();
        db.failing = Some(failing);
        assert_eq!(
            db.read_range(excl(b"b"), None).err(),
            Some(Error::Flash(Broken(7)))
        );
    }
    db.failing = Some(requests);
    assert!(db.read_range(excl(b"b"), None).is_ok());
}

#[test]
fn search_in_a_cut_off_key_is_corruption() {
    let mut db = small_db();
    db.files[0].truncate(4);
    db.slack = 100;
    assert_eq!(db.read_range(incl(b"a"), None).err(), Some(Error::Corrupted));
    // Where the cut is in the value, only passing over the record fails.
    let mut db = small_db();
    db.files[0].truncate(6);
    db.slack = 100;
    assert!(db.read_range(incl(b"a"), None).is_ok());
    assert_eq!(db.read_range(excl(b"a"), None).err(), Some(Error::Corrupted));
    assert_eq!(db.read_range(incl(b"b"), None).err(), Some(Error::Corrupted));
}

#[test]
fn excluded_last_record_leaves_nothing() {
    let mut db = small_db();
    check_read_range(&mut db, excl(b"d"), None, &[]);
    check_read_range(&mut db, incl(b"d"), None, &[(b"d", b"")]);
    check_read_range(&mut db, excl(b"ccc"), incl(b"d"), &[(b"d", b"")]);
    check_read_range(&mut db, incl(b"d"), incl(b"a"), &[]);
}

#[test]
fn lengths_fit_whatever_the_files_hold() {
    let mut state: u32 = 12345;
    for _ in 0..200 {
        let mut db = Database::new();
        for file in db.files.iter_mut() {
            for _ in 0..120 {
                state = state.wrapping_mul(1664525).wrapping_add(1013904223);
                let byte = (state >> 24) as u8;
                file.push(if byte < 160 { 0 } else { byte & 0x03 });
            }
        }
        if let Ok(mut cursor) = db.read_all() {
            let mut kbuf = [0; 5];
            let mut vbuf = [0; 40];
            while let Ok(Some((klen, vlen))) = db.next(&mut cursor, &mut kbuf, &mut vbuf) {
                assert!(klen <= kbuf.len());
                assert!(vlen <= vbuf.len());
            }
        }
    }
}
