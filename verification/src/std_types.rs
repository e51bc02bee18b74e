//! Types of std that the library's errors carry.
use vstd::prelude::*;

verus! {

/// `std::io::Error`, carried in the error types; the library only passes it on.
#[verifier::external_type_specification]
#[verifier::external_body]
pub struct ExIoError(std::io::Error);

} // verus!
