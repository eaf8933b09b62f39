//! A persistent key-value store over an append-only command log.
//!
//! The store keeps the whole log as a byte sequence and an index from each
//! key to the position of its newest live record. Everything the store
//! answers is defined by replaying the log, so a store rebuilt from the same
//! bytes answers every lookup the same way.
pub mod error;
pub mod history;
pub mod log;
pub mod record;
pub mod replay;
pub mod store;

pub use error::KvsError;
pub use error::Result;
pub use record::Command;
pub use record::Entry;
pub use store::KvStore;
