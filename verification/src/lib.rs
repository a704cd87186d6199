//! Verified core of a telemetry ingestion and storage service.
//!
//! The crate splits an arbitrarily chunked byte stream into complete JSON
//! values, hands each one to a storage backend, and models the durability
//! protocol (flush / commit) of a compressed rotating file writer.

pub mod ingest;
pub mod json;
pub mod render;
pub mod splitter;
pub mod store;
pub mod writer;

use vstd::prelude::*;

verus! {

/// A backend-level failure: the storage medium rejected or lost a write.
#[derive(Clone, Copy, Debug, PartialEq, Eq, Structural)]
pub enum StorageError {
    /// An input/output operation on the medium failed.
    Io,
    /// The database rejected the statement (constraint, schema, connection).
    Backend,
    /// The payload handed to `insert_event` is not one well-formed JSON value.
    InvalidPayload,
}

/// Identifier of one ingestion session (a stream of events).
#[derive(Clone, Copy, Debug, PartialEq, Eq, Structural)]
pub struct StreamId(pub u32);

} // verus!
