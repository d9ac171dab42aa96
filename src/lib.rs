//! A durable, log-structured key-value store.
//!
//! Records are appended to numbered generation logs; an in-memory key
//! directory points at the authoritative record of each key; replaying the
//! logs rebuilds the directory, and compaction rewrites the live records into
//! a fresh generation.
pub mod error;
pub mod kvs;
pub mod log;
pub mod names;
pub mod record;
pub mod replay;
pub mod server;
pub mod sled_engine;
