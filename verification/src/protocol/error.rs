use vstd::prelude::*;

verus! {

/// Why a command frame could not be read.
#[derive(Debug)]
pub enum ProtocolError {
    /// The frame is cut short or names no known command; the text says which.
    ParseError(String),
    /// The key bytes are not UTF-8.
    ParseUtf8Error(core::str::Utf8Error),
}

pub type ProtocolResult<T> = Result<T, ProtocolError>;

} // verus!
