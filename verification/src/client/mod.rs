//! The command-line client's reading of what the user types.
pub mod client;
pub mod error;
