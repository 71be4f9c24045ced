//! A log-structured key-value store with proved behaviour.
//!
//! Every mutation is appended as a record, one JSON object, to an
//! append-only segment; a sorted key directory maps each live key to the
//! location of its latest `Put` record. Segments are byte buffers owned by
//! the store. The JSON text is written and read by `serde_json`; the store
//! keeps, beside the bytes of each segment, the table of the records that
//! were read from it or written to it, and recovery, lookup and compaction
//! are proved against one model: the sequence of commands that the records
//! carry.

pub mod codec;
pub mod command;
pub mod error;
pub mod keydir;
pub mod kv;
pub mod laws;
pub mod memory;
pub mod model;
pub mod naming;
pub mod replay;
pub mod segment;

pub use command::Command;
pub use error::{KvsError, Result};
pub use kv::KvStore;
