//! A small key-value store: its wire protocol, its in-memory table with a
//! write-ahead log of protocol frames, the server's command execution and
//! the command-line client's input parsing.
pub mod client;
pub mod protocol;
pub mod server;
pub mod standalone;
pub mod std_types;
pub mod storage;
pub mod text;
