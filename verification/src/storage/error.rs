use vstd::prelude::*;
use crate::protocol::error::ProtocolError;

verus! {

/// Why the store could not be recovered or written.
#[derive(Debug)]
pub enum StorageError {
    /// A logged frame is one that the log never holds; the text says which.
    ParseError(String),
    /// Some text was not UTF-8.
    ParseUtf8Error(core::str::Utf8Error),
    /// A file could not be read or written.
    IOError(std::io::Error),
    /// A logged frame could not be read.
    CommandError(ProtocolError),
}

pub type StorageResult<T> = Result<T, StorageError>;

} // verus!
