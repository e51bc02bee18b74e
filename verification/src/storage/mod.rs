//! The store's state: its table, the size of its write-ahead log, and the
//! replay of logged frames.
pub mod db;
pub mod error;
pub mod key_index;
pub mod kv_map;
