//! What the cursor knows of files and records: saved readers, record headers, and the directions
//! of a binary search.

use vstd::prelude::*;
use crate::config::FileID;

verus! {

/// A reader of a file put aside: the file, and the offset at which reading goes on.
#[derive(Clone, Copy, Debug, PartialEq, Eq, Structural)]
pub struct DehydratedFileReader {
    pub file_id: FileID,
    pub offset: u32,
}

/// Header of a record: a key of `key_len` bytes follows, then a value of `value_len` bytes.
#[derive(Clone, Copy, Debug, PartialEq, Eq, Structural)]
pub struct RecordHeader {
    pub key_len: usize,
    pub value_len: usize,
    /// Whether the record marks its key as deleted.
    pub is_delete: bool,
}

/// Where a binary search over a file goes on, seen from the record it stands at.
#[derive(Clone, Copy, Debug, PartialEq, Eq, Structural)]
pub enum SeekDirection {
    Left,
    Right,
}

} // verus!
