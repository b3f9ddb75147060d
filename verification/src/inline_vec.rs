//! Vectors of fixed capacity from the `heapless` crate: the key that a merge round has found
//! lowest, and the readers gathered while a cursor is opened.

use vstd::prelude::*;
use crate::config::{FILE_COUNT, MAX_KEY_SIZE};
use crate::file::DehydratedFileReader;

verus! {

/// Declares `heapless::Vec`, a vector of at most `N` items stored in place.
#[verifier::external_type_specification]
#[verifier::external_body]
#[verifier::reject_recursive_types(T)]
pub struct ExInlineVec<T, const N: usize>(heapless::Vec<T, N>);

/// A key held in place.
pub type InlineKey = heapless::Vec<u8, MAX_KEY_SIZE>;

/// Readers held in place, one for each file opened so far.
pub type InlineReaders = heapless::Vec<Option<DehydratedFileReader>, FILE_COUNT>;

/// The bytes that a key held in place consists of.
pub uninterp spec fn key_contents(key: InlineKey) -> Seq<u8>;

/// The readers that the vector holds, in order.
pub uninterp spec fn reader_contents(readers: InlineReaders) -> Seq<Option<DehydratedFileReader>>;

/// Calls `heapless::Vec::from_slice`: copies the slice, or fails where it is longer than the
/// capacity.
#[verifier::external_body]
pub(crate) fn key_from_slice(bytes: &[u8]) -> (copied: Result<InlineKey, ()>)
    ensures
        copied is Ok <==> bytes@.len() <= MAX_KEY_SIZE,
        copied matches Ok(key) ==> key_contents(key) == bytes@,
{
    heapless::Vec::from_slice(bytes)
}

/// Calls `heapless::Vec::as_slice`: the contents as a slice.
#[verifier::external_body]
pub(crate) fn key_as_slice(key: &InlineKey) -> (bytes: &[u8])
    ensures
        bytes@ == key_contents(*key),
{
    key.as_slice()
}

/// Calls `heapless::Vec::new`: a vector without items.
#[verifier::external_body]
pub(crate) fn new_readers() -> (readers: InlineReaders)
    ensures
        reader_contents(readers) == Seq::<Option<DehydratedFileReader>>::empty(),
{
    heapless::Vec::new()
}

/// Calls `heapless::Vec::push`: appends the item where the vector is not full, and otherwise hands
/// it back and leaves the vector as it is.
#[verifier::external_body]
pub(crate) fn push_reader(
    readers: &mut InlineReaders,
    reader: Option<DehydratedFileReader>,
) -> (pushed: Result<(), Option<DehydratedFileReader>>)
    ensures
        pushed is Ok <==> reader_contents(*old(readers)).len() < FILE_COUNT,
        pushed is Ok ==> reader_contents(*final(readers)) == reader_contents(*old(readers)).push(reader),
        pushed matches Err(back) ==> back == reader,
        pushed is Err ==> reader_contents(*final(readers)) == reader_contents(*old(readers)),
{
    readers.push(reader)
}

/// Calls `heapless::Vec::into_array`: the items as an array, where there are exactly as many, and
/// otherwise the vector as it was.
#[verifier::external_body]
pub(crate) fn readers_into_array(readers: InlineReaders) -> (array: Result<
    [Option<DehydratedFileReader>; FILE_COUNT],
    InlineReaders,
>)
    ensures
        array is Ok <==> reader_contents(readers).len() == FILE_COUNT,
        array matches Ok(items) ==> items@ == reader_contents(readers),
        array matches Err(same) ==> reader_contents(same) == reader_contents(readers),
{
    readers.into_array()
}

} // verus!
