use vstd::prelude::*;
use crate::protocol::error::ProtocolError;

verus! {

/// Why the client stopped.
#[derive(Debug)]
pub enum ClientError {
    StdError(std::io::Error),
    ProtocolError(ProtocolError),
    ParseUtf8Error(core::str::Utf8Error),
    /// The user's line is not a command; the text says so.
    CliError(String),
}

pub type ClientResult<T> = Result<T, ClientError>;

} // verus!
