//! Compile-time parameters of the key-value store.

use vstd::prelude::*;

verus! {

// Flash parameters.
pub const WRITE_SIZE: usize = 4;

pub const PAGE_SIZE: usize = 4096;

pub const PAGE_COUNT: usize = 256;

pub const ERASE_VALUE: u8 = 0xFF;

// File tree parameters.
pub const BRANCHING_FACTOR: usize = 3;

pub const LEVEL_COUNT: usize = 3;

pub const MAX_FILE_COUNT: usize = BRANCHING_FACTOR * LEVEL_COUNT + 1;

/// Number of files that a cursor walks side by side. A higher file id is a newer file.
pub const FILE_COUNT: usize = MAX_FILE_COUNT;

// Record parameters.
/// Longest key that a record can hold.
pub const MAX_KEY_SIZE: usize = 64;

/// Longest value that a record can hold.
pub const MAX_VALUE_SIZE: usize = 1024;

pub type FileID = u16;

pub type PageID = u16;

} // verus!
