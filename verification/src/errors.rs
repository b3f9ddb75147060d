//! Errors of reading files and of walking a cursor.

use vstd::prelude::*;

verus! {

/// Failure of reading from a file. `E` is the error of the flash driver.
#[derive(Debug, PartialEq, Eq)]
pub enum ReadError<E> {
    /// The file ends here.
    Eof,
    /// What is stored makes no sense.
    Corrupted,
    /// The flash driver failed.
    Flash(E),
}

/// Failure of an operation of the store.
#[derive(Debug, PartialEq, Eq)]
pub enum Error<E> {
    /// What is stored makes no sense.
    Corrupted,
    /// The flash driver failed.
    Flash(E),
}

/// Failure of advancing a cursor.
#[derive(Debug, PartialEq, Eq)]
pub enum CursorError<E> {
    /// The key of the next entry is longer than the key buffer.
    KeyBufferTooSmall,
    /// The value of the next entry is longer than the value buffer.
    ValueBufferTooSmall,
    /// What is stored makes no sense.
    Corrupted,
    /// The flash driver failed.
    Flash(E),
}

/// What a read failure means where the file must not end: an end of file is corruption.
pub open spec fn without_eof<E>(error: ReadError<E>) -> Error<E> {
    match error {
        ReadError::Flash(e) => Error::Flash(e),
        ReadError::Eof | ReadError::Corrupted => Error::Corrupted,
    }
}

/// Maps a read failure where the file must not end.
pub fn no_eof<E>(error: ReadError<E>) -> (mapped: Error<E>)
    ensures
        mapped == without_eof(error),
{
    match error {
        ReadError::Flash(e) => Error::Flash(e),
        ReadError::Eof | ReadError::Corrupted => Error::Corrupted,
    }
}

/// A failure of the store, as the cursor reports it.
pub open spec fn as_cursor_error<E>(error: Error<E>) -> CursorError<E> {
    match error {
        Error::Corrupted => CursorError::Corrupted,
        Error::Flash(e) => CursorError::Flash(e),
    }
}

impl<E> From<Error<E>> for CursorError<E> {
    fn from(error: Error<E>) -> (mapped: Self) {
        match error {
            Error::Corrupted => CursorError::Corrupted,
            Error::Flash(e) => CursorError::Flash(e),
        }
    }
}

impl<E> vstd::std_specs::convert::FromSpecImpl<Error<E>> for CursorError<E> {
    open spec fn obeys_from_spec() -> bool {
        true
    }

    open spec fn from_spec(error: Error<E>) -> Self {
        as_cursor_error(error)
    }
}

/// A failure of the flash driver comes out as it went in; what was read as corrupted, and an end of
/// file where none may be, come out as corruption.
pub proof fn law_errors_keep_their_cause<E>(e: E)
    ensures
        without_eof(ReadError::Flash(e)) == Error::Flash(e),
        without_eof(ReadError::<E>::Corrupted) == Error::<E>::Corrupted,
        without_eof(ReadError::<E>::Eof) == Error::<E>::Corrupted,
        as_cursor_error(Error::Flash(e)) == CursorError::Flash(e),
        as_cursor_error(Error::<E>::Corrupted) == CursorError::<E>::Corrupted,
{
}

} // verus!
