//! An embedded, persistent key-value store built on an append-only log with
//! periodic compaction.
//!
//! The verified core keeps the store's durable state as a sequence of
//! numbered log segments, each a byte vector of self-delimiting records, and
//! an in-memory index from key to the locator of its latest `Set` record.
//! Callers that keep the store on a filesystem hold one file per segment and
//! mirror every append, creation and deletion the engine performs.

pub mod codec;
pub mod error;
pub mod index;
pub mod log;
pub mod paths;
pub mod store;
