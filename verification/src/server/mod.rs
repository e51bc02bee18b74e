//! The server's handling of one command against the store.
pub mod error;
pub mod server;
