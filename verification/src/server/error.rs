use vstd::prelude::*;
use crate::protocol::error::ProtocolError;
use crate::storage::error::StorageError;

verus! {

/// Why the server could not serve a request.
#[derive(Debug)]
pub enum ServerError {
    StorageError(StorageError),
    ProtocolError(ProtocolError),
    ParseUtf8Error(core::str::Utf8Error),
    IOError(std::io::Error),
}

pub type ServerResult<T> = Result<T, ServerError>;

} // verus!
