//! A model of the store that a cursor reads: files of records in ascending key order, and the
//! entries that they amount to.

use vstd::prelude::*;
use crate::bound::{within_lower, within_upper, BoundView};
use crate::config::{FILE_COUNT, MAX_KEY_SIZE};
use crate::file::{DehydratedFileReader, RecordHeader};
use crate::keys::{key_less, law_key_less_irreflexive};

verus! {

/// A record: a key and the bytes of its value. A record that marks its key as deleted may hold such
/// bytes too; they mean nothing.
pub struct Record {
    pub key: Seq<u8>,
    pub value: Seq<u8>,
    pub is_delete: bool,
}

impl Record {
    /// What the record says of its key: its value, or none where it marks it as deleted.
    pub open spec fn told(self) -> Option<Seq<u8>> {
        if self.is_delete {
            None
        } else {
            Some(self.value)
        }
    }

    /// The header of the record.
    pub open spec fn header(self) -> RecordHeader {
        RecordHeader {
            key_len: self.key.len() as usize,
            value_len: self.value.len() as usize,
            is_delete: self.is_delete,
        }
    }

    /// The lengths fit a header.
    pub open spec fn fits(self) -> bool {
        &&& self.key.len() <= MAX_KEY_SIZE
        &&& self.value.len() <= usize::MAX
    }
}

/// The keys of the records ascend strictly.
pub open spec fn ascending(run: Seq<Record>) -> bool {
    forall|i: int, j: int|
        0 <= i < j < run.len() ==> key_less(#[trigger] run[i].key, #[trigger] run[j].key)
}

/// A file: its records, the offsets at which they begin (the last offset is the end), the number of
/// bytes that a header takes, and the byte at each offset.
pub struct StoredFile {
    pub records: Seq<Record>,
    pub offsets: Seq<u32>,
    pub header_size: nat,
    pub bytes: Seq<u8>,
}

impl StoredFile {
    /// Where the key of record `i` begins: behind the header.
    pub open spec fn key_at(self, i: int) -> int {
        self.offsets[i] + self.header_size
    }

    /// Where the value of record `i` begins: behind the key.
    pub open spec fn value_at(self, i: int) -> int {
        self.key_at(i) + self.records[i].key.len()
    }

    /// The bytes of record `i` are its key and its value, and the next record follows.
    pub open spec fn laid_out(self, i: int) -> bool {
        &&& self.value_at(i) + self.records[i].value.len() == self.offsets[i + 1]
        &&& self.bytes.subrange(self.key_at(i), self.value_at(i)) == self.records[i].key
        &&& self.bytes.subrange(self.value_at(i), self.offsets[i + 1] as int)
            == self.records[i].value
    }

    /// The `len` bytes from `offset` on, if the file has as many.
    pub open spec fn read(self, offset: u32, len: usize) -> Option<Seq<u8>> {
        if offset + len <= self.bytes.len() {
            Some(self.bytes.subrange(offset as int, offset + len))
        } else {
            None
        }
    }

    pub open spec fn wf(self) -> bool {
        &&& self.offsets.len() == self.records.len() + 1
        &&& self.bytes.len() == self.offsets[self.records.len() as int]
        &&& forall|i: int| 0 <= i < self.records.len() ==> #[trigger] self.laid_out(i)
        &&& forall|i: int, j: int|
            0 <= i < j < self.offsets.len() ==> #[trigger] self.offsets[i]
                < #[trigger] self.offsets[j]
        &&& ascending(self.records)
        &&& forall|i: int| 0 <= i < self.records.len() ==> (#[trigger] self.records[i]).fits()
    }

    /// The number of records before `offset`, which is the offset of a record or of the end.
    pub open spec fn place(self, offset: u32) -> int {
        choose|i: int| 0 <= i < self.offsets.len() && self.offsets[i] == offset
    }

    /// `offset` is that of a record or of the end.
    pub open spec fn has_place(self, offset: u32) -> bool {
        exists|i: int| 0 <= i < self.offsets.len() && self.offsets[i] == offset
    }

    /// The records from `offset` on.
    pub open spec fn rest(self, offset: u32) -> Seq<Record> {
        self.records.skip(self.place(offset))
    }

    /// What is read of record `i`, and where reading it leads.
    pub proof fn lemma_record(self, i: int)
        requires
            self.wf(),
            0 <= i < self.records.len(),
        ensures
            self.offsets[i] < self.bytes.len(),
            self.offsets[i] <= self.key_at(i) <= self.value_at(i) <= self.offsets[i + 1],
            self.read(self.key_at(i) as u32, self.records[i].header().key_len) == Some(
                self.records[i].key,
            ),
            self.read(self.value_at(i) as u32, self.records[i].header().value_len) == Some(
                self.records[i].value,
            ),
            self.records[i].header().key_len == self.records[i].key.len(),
            self.records[i].header().value_len == self.records[i].value.len(),
    {
        assert(self.laid_out(i));
        assert(self.records[i].fits());
        let n = self.records.len() as int;
        assert(self.offsets[i] < self.offsets[n]);
        if i + 1 < n {
            assert(self.offsets[i + 1] < self.offsets[n]);
        }
    }

    /// A place is where its offset says.
    pub proof fn lemma_place(self, i: int)
        requires
            self.wf(),
            0 <= i < self.offsets.len(),
        ensures
            self.has_place(self.offsets[i]),
            self.place(self.offsets[i]) == i,
    {
        let p = self.place(self.offsets[i]);
        if p < i {
            assert(self.offsets[p] < self.offsets[i]);
        } else if i < p {
            assert(self.offsets[i] < self.offsets[p]);
        }
    }
}

/// The reader `len` bytes further on.
pub open spec fn reader_past(at: DehydratedFileReader, len: int) -> DehydratedFileReader {
    DehydratedFileReader { offset: (at.offset + len) as u32, ..at }
}

/// The files of a store. A higher index is a newer file.
pub open spec fn store_wf(files: Seq<StoredFile>) -> bool {
    &&& files.len() == FILE_COUNT
    &&& forall|i: int| 0 <= i < FILE_COUNT ==> (#[trigger] files[i]).wf()
}

/// The reader stands in file `file`, at a record or at the end.
pub open spec fn stands_in(
    files: Seq<StoredFile>,
    file: int,
    reader: DehydratedFileReader,
) -> bool {
    &&& reader.file_id == file
    &&& files[file].has_place(reader.offset)
}

/// Every reader stands in its file.
pub open spec fn positioned(
    files: Seq<StoredFile>,
    readers: Seq<Option<DehydratedFileReader>>,
) -> bool {
    &&& readers.len() == FILE_COUNT
    &&& forall|i: int|
        0 <= i < FILE_COUNT ==> ((#[trigger] readers[i]) matches Some(reader) ==> stands_in(
            files,
            i,
            reader,
        ))
}

/// The records that a reader has before it.
pub open spec fn ahead(file: StoredFile, reader: Option<DehydratedFileReader>) -> Seq<Record> {
    match reader {
        Some(reader) => file.rest(reader.offset),
        None => Seq::empty(),
    }
}

/// The records that each reader has before it.
pub open spec fn runs(
    files: Seq<StoredFile>,
    readers: Seq<Option<DehydratedFileReader>>,
) -> Seq<Seq<Record>> {
    Seq::new(FILE_COUNT as nat, |i: int| ahead(files[i], readers[i]))
}

/// All the records of each file.
pub open spec fn all_runs(files: Seq<StoredFile>) -> Seq<Seq<Record>> {
    Seq::new(FILE_COUNT as nat, |i: int| files[i].records)
}

/// `run` holds a record of `key`.
pub open spec fn holds(run: Seq<Record>, key: Seq<u8>) -> bool {
    exists|p: int| 0 <= p < run.len() && (#[trigger] run[p]).key == key
}

/// What `run` says of a key that it holds: its value, or none where it marks it as deleted.
pub open spec fn says(run: Seq<Record>, key: Seq<u8>) -> Option<Seq<u8>> {
    run[choose|p: int| 0 <= p < run.len() && (#[trigger] run[p]).key == key].told()
}

/// The value of `key` in the first `n` runs: what the newest of those that hold the key says of
/// it, and none where none holds it.
pub open spec fn current_value(runs: Seq<Seq<Record>>, key: Seq<u8>, n: int) -> Option<Seq<u8>>
    decreases n,
{
    if n <= 0 {
        None
    } else if holds(runs[n - 1], key) {
        says(runs[n - 1], key)
    } else {
        current_value(runs, key, n - 1)
    }
}

/// The entries of the runs, by key, up to an upper bound.
pub open spec fn entries(runs: Seq<Seq<Record>>, upper: Option<BoundView>) -> Map<
    Seq<u8>,
    Seq<u8>,
> {
    Map::new(
        |key: Seq<u8>| within_upper(upper, key) && current_value(runs, key, FILE_COUNT as int) is Some,
        |key: Seq<u8>| current_value(runs, key, FILE_COUNT as int)->0,
    )
}

/// The entries of the store between two bounds, by key.
pub open spec fn range_entries(
    files: Seq<StoredFile>,
    lower: Option<BoundView>,
    upper: Option<BoundView>,
) -> Map<Seq<u8>, Seq<u8>> {
    let all = entries(all_runs(files), upper);
    all.restrict(Set::new(|key: Seq<u8>| within_lower(lower, key)))
}

/// `key` is the least key of `map`.
pub open spec fn least_key(map: Map<Seq<u8>, Seq<u8>>, key: Seq<u8>) -> bool {
    &&& map.contains_key(key)
    &&& forall|other: Seq<u8>| #[trigger] map.contains_key(other) ==> !key_less(other, key)
}

/// In an ascending run a key occurs once.
pub proof fn lemma_says(run: Seq<Record>, p: int)
    requires
        ascending(run),
        0 <= p < run.len(),
    ensures
        holds(run, run[p].key),
        says(run, run[p].key) == run[p].told(),
{
    let key = run[p].key;
    let q = choose|q: int| 0 <= q < run.len() && (#[trigger] run[q]).key == key;
    law_key_less_irreflexive(key);
    if q < p {
        assert(key_less(run[q].key, run[p].key));
    } else if p < q {
        assert(key_less(run[p].key, run[q].key));
    }
}

/// A suffix of an ascending run ascends.
pub proof fn lemma_skip_ascending(run: Seq<Record>, n: int)
    requires
        ascending(run),
        0 <= n <= run.len(),
    ensures
        ascending(run.skip(n)),
{
    let rest = run.skip(n);
    assert forall|i: int, j: int| 0 <= i < j < rest.len() implies key_less(
        #[trigger] rest[i].key,
        #[trigger] rest[j].key,
    ) by {
        assert(key_less(run[i + n].key, run[j + n].key));
    }
}

/// A suffix of an ascending run says the same of the keys that its cut-off part does not hold.
pub proof fn lemma_skip_says(run: Seq<Record>, n: int, key: Seq<u8>)
    requires
        ascending(run),
        0 <= n <= run.len(),
        forall|p: int| 0 <= p < n ==> (#[trigger] run[p]).key != key,
    ensures
        holds(run.skip(n), key) == holds(run, key),
        holds(run, key) ==> says(run.skip(n), key) == says(run, key),
{
    let rest = run.skip(n);
    lemma_skip_ascending(run, n);
    if holds(run, key) {
        let p = choose|p: int| 0 <= p < run.len() && (#[trigger] run[p]).key == key;
        assert(rest[p - n].key == key);
        lemma_says(run, p);
        lemma_says(rest, p - n);
    }
    if holds(rest, key) {
        let p = choose|p: int| 0 <= p < rest.len() && (#[trigger] rest[p]).key == key;
        assert(run[p + n].key == key);
    }
}

/// Runs that say the same of a key give it the same value.
pub proof fn lemma_same_current_value(
    a: Seq<Seq<Record>>,
    b: Seq<Seq<Record>>,
    key: Seq<u8>,
    n: int,
)
    requires
        forall|i: int|
            #![trigger a[i]]
            0 <= i < n ==> holds(a[i], key) == holds(b[i], key) && (holds(a[i], key) ==> says(
                a[i],
                key,
            ) == says(b[i], key)),
    ensures
        current_value(a, key, n) == current_value(b, key, n),
    decreases n,
{
    if n > 0 {
        assert(holds(a[n - 1], key) == holds(b[n - 1], key));
        lemma_same_current_value(a, b, key, n - 1);
    }
}

/// A key that has a value is held by some run.
pub proof fn lemma_value_held(runs: Seq<Seq<Record>>, key: Seq<u8>, n: int) -> (file: int)
    requires
        current_value(runs, key, n) is Some,
    ensures
        0 <= file < n,
        holds(runs[file], key),
    decreases n,
{
    if holds(runs[n - 1], key) {
        n - 1
    } else {
        lemma_value_held(runs, key, n - 1)
    }
}

/// The newest run that holds a key decides on it.
pub proof fn lemma_newest_decides(runs: Seq<Seq<Record>>, key: Seq<u8>, file: int, n: int)
    requires
        0 <= file < n,
        holds(runs[file], key),
        forall|i: int| file < i < n ==> !holds(#[trigger] runs[i], key),
    ensures
        current_value(runs, key, n) == says(runs[file], key),
    decreases n,
{
    if file < n - 1 {
        lemma_newest_decides(runs, key, file, n - 1);
    }
}

/// The record at place `p` of run `i` gives `key` its `value`: it is no delete mark, and no newer
/// run holds a record of the key.
pub open spec fn live(
    runs: Seq<Seq<Record>>,
    i: int,
    p: int,
    key: Seq<u8>,
    value: Seq<u8>,
) -> bool {
    &&& 0 <= i < FILE_COUNT
    &&& 0 <= p < runs[i].len()
    &&& runs[i][p].key == key
    &&& runs[i][p].value == value
    &&& !runs[i][p].is_delete
    &&& forall|j: int, q: int|
        i < j < FILE_COUNT && 0 <= q < runs[j].len() ==> (#[trigger] runs[j][q]).key != key
}

/// The newest of the first `n` runs that holds a key.
proof fn lemma_newest_holder(runs: Seq<Seq<Record>>, key: Seq<u8>, n: int) -> (file: int)
    requires
        current_value(runs, key, n) is Some,
    ensures
        0 <= file < n,
        holds(runs[file], key),
        forall|j: int| file < j < n ==> !holds(#[trigger] runs[j], key),
    decreases n,
{
    if holds(runs[n - 1], key) {
        n - 1
    } else {
        lemma_newest_holder(runs, key, n - 1)
    }
}

/// An entry is a record that no newer run replaces or deletes, and whose key the upper bound does
/// not cut off; and every such record is an entry.
pub proof fn law_entries_are_newest_records(
    runs: Seq<Seq<Record>>,
    upper: Option<BoundView>,
    key: Seq<u8>,
    value: Seq<u8>,
)
    requires
        runs.len() == FILE_COUNT,
        forall|i: int| 0 <= i < FILE_COUNT ==> ascending(#[trigger] runs[i]),
    ensures
        entries(runs, upper).contains_key(key) && entries(runs, upper)[key] == value <==> {
            &&& upper matches Some(b) ==> key_less(key, b.key) || (key == b.key && b.allow_equal)
            &&& exists|i: int, p: int| live(runs, i, p, key, value)
        },
{
    let n = FILE_COUNT as int;
    let map = entries(runs, upper);
    assert(map.contains_key(key) <==> within_upper(upper, key) && current_value(runs, key, n)
        is Some);
    if map.contains_key(key) && map[key] == value {
        let i = lemma_newest_holder(runs, key, n);
        let p = choose|p: int| 0 <= p < runs[i].len() && (#[trigger] runs[i][p]).key == key;
        assert(ascending(runs[i]));
        lemma_says(runs[i], p);
        lemma_newest_decides(runs, key, i, n);
        assert forall|j: int, q: int| i < j < FILE_COUNT && 0 <= q < runs[j].len() implies (
        #[trigger] runs[j][q]).key != key by {
            if runs[j][q].key == key {
                assert(holds(runs[j], key));
            }
        }
        assert(live(runs, i, p, key, value));
    }
    if exists|i: int, p: int| live(runs, i, p, key, value) {
        let (i, p) = choose|i: int, p: int| live(runs, i, p, key, value);
        assert(ascending(runs[i]));
        lemma_says(runs[i], p);
        assert forall|j: int| i < j < n implies !holds(#[trigger] runs[j], key) by {
            if holds(runs[j], key) {
                let q = choose|q: int| 0 <= q < runs[j].len() && (#[trigger] runs[j][q]).key == key;
                assert(runs[j][q].key != key);
            }
        }
        lemma_newest_decides(runs, key, i, n);
    }
}

/// The bytes of the first `n` records, one behind the other, with these headers.
pub open spec fn bytes_of(
    records: Seq<Record>,
    header: spec_fn(Record) -> Seq<u8>,
    n: int,
) -> Seq<u8>
    decreases n,
{
    if n <= 0 {
        Seq::empty()
    } else {
        bytes_of(records, header, n - 1) + header(records[n - 1]) + records[n - 1].key
            + records[n - 1].value
    }
}

/// The file that holds the records one behind the other, with these headers.
pub open spec fn file_of(
    records: Seq<Record>,
    header: spec_fn(Record) -> Seq<u8>,
    header_size: nat,
) -> StoredFile {
    StoredFile {
        records,
        offsets: Seq::new(
            records.len() + 1,
            |i: int| bytes_of(records, header, i).len() as u32,
        ),
        header_size,
        bytes: bytes_of(records, header, records.len() as int),
    }
}

/// The bytes of the first records are the start of the bytes of all.
proof fn lemma_bytes_start(
    records: Seq<Record>,
    header: spec_fn(Record) -> Seq<u8>,
    header_size: nat,
    i: int,
    n: int,
)
    requires
        0 <= i <= n <= records.len(),
        header_size > 0,
        forall|record: Record| (#[trigger] header(record)).len() == header_size,
    ensures
        bytes_of(records, header, i).len() <= bytes_of(records, header, n).len(),
        i < n ==> bytes_of(records, header, i).len() < bytes_of(records, header, n).len(),
        bytes_of(records, header, n).take(bytes_of(records, header, i).len() as int) == bytes_of(
            records,
            header,
            i,
        ),
    decreases n,
{
    let all = bytes_of(records, header, n);
    let start = bytes_of(records, header, i);
    if i == n {
        assert(all.take(all.len() as int) =~= all);
    } else {
        lemma_bytes_start(records, header, header_size, i, n - 1);
        let before = bytes_of(records, header, n - 1);
        assert(header(records[n - 1]).len() == header_size);
        assert(all.take(start.len() as int) =~= before.take(start.len() as int));
    }
}

/// Records in ascending key order, of any keys that a cursor can hold and of any values, make up a
/// sound file when they are written one behind the other.
pub proof fn law_records_make_a_file(
    records: Seq<Record>,
    header: spec_fn(Record) -> Seq<u8>,
    header_size: nat,
)
    requires
        forall|i: int, j: int|
            0 <= i < j < records.len() ==> key_less(
                #[trigger] records[i].key,
                #[trigger] records[j].key,
            ),
        forall|i: int|
            0 <= i < records.len() ==> (#[trigger] records[i]).key.len() <= MAX_KEY_SIZE,
        header_size > 0,
        forall|record: Record| (#[trigger] header(record)).len() == header_size,
        bytes_of(records, header, records.len() as int).len() <= u32::MAX,
    ensures
        file_of(records, header, header_size).wf(),
        file_of(records, header, header_size).records == records,
{
    let f = file_of(records, header, header_size);
    let n = records.len() as int;
    let all = bytes_of(records, header, n);
    assert forall|i: int| 0 <= i <= n implies #[trigger] f.offsets[i] == bytes_of(
        records,
        header,
        i,
    ).len() by {
        lemma_bytes_start(records, header, header_size, i, n);
    }
    assert forall|i: int, j: int| 0 <= i < j < f.offsets.len() implies #[trigger] f.offsets[i]
        < #[trigger] f.offsets[j] by {
        lemma_bytes_start(records, header, header_size, i, j);
    }
    assert forall|i: int| 0 <= i < n implies #[trigger] f.laid_out(i) && records[i].fits() by {
        let before = bytes_of(records, header, i);
        let behind = bytes_of(records, header, i + 1);
        let record = records[i];
        lemma_bytes_start(records, header, header_size, i + 1, n);
        assert(header(record).len() == header_size);
        assert(f.offsets[i] == before.len());
        assert(f.offsets[i + 1] == behind.len());
        assert(all.subrange(f.key_at(i), f.value_at(i)) =~= behind.subrange(
            f.key_at(i),
            f.value_at(i),
        ));
        assert(behind.subrange(f.key_at(i), f.value_at(i)) =~= record.key);
        assert(all.subrange(f.value_at(i), f.offsets[i + 1] as int) =~= behind.subrange(
            f.value_at(i),
            f.offsets[i + 1] as int,
        ));
        assert(behind.subrange(f.value_at(i), behind.len() as int) =~= record.value);
    }
    assert forall|i: int| 0 <= i < n implies (#[trigger] f.records[i]).fits() by {
        assert(f.laid_out(i));
    }
}

} // verus!
