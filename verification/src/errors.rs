//! Error taxonomy of the engine. Every fallible operation surfaces one of
//! these as a typed, recoverable failure.

use vstd::prelude::*;

verus! {

/// Failure cases of the engine.
#[derive(Clone, Copy, Debug, PartialEq, Eq, Structural)]
pub enum EngineError {
    /// The embedding worker has terminated; its request channel is closed.
    WorkerUnavailable,
    /// The embedding model failed on a batch; no partial results exist.
    EncodingFailure,
    /// Vectors of disagreeing length were given to aggregation or storage.
    DimensionMismatch,
    /// An operation referenced a missing note, chunk or vocabulary id.
    NotFound,
    /// The underlying storage reported a query or connection error.
    StorageFailure,
    /// A partial multi-table write was detected.
    ConsistencyViolation,
    /// A bounded wait on the worker elapsed without a reply.
    Timeout,
}

} // verus!
