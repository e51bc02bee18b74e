//! The binary command frames that clients send, and the text replies that
//! the server sends back.
pub mod command;
pub mod error;
pub mod response;
