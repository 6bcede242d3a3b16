//! Typed outcomes and failures of the capture-and-retention engine.

use vstd::prelude::*;

verus! {

/// A failure surfaced by the event store.
#[derive(Debug)]
pub enum StoreError {
    /// The durable layer failed; carries the underlying message.
    StorageFault(String),
    /// No retained event has the requested id.
    NotFound,
}

/// What sealing a capture cycle concluded.
#[derive(Debug)]
pub enum FinalizeOutcome {
    /// The event was committed and retained under this fresh id.
    Stored(i64),
    /// An identical event was already retained; nothing was written.
    Duplicate,
    /// No event was open; the call was a no-op.
    NoEvent,
}

/// A failure surfaced while pushing a stored event back onto the platform
/// clipboard.
#[derive(Debug)]
pub enum RestoreError {
    /// The platform refused one payload; names the offending type tag.
    TypeRejected(String),
}

} // verus!
