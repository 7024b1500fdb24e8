//! The library's error type. Durations are carried in milliseconds and
//! type-erased errors as their message.

use vstd::prelude::*;

verus! {

/// A type-erased error, kept as its message.
#[derive(Debug)]
pub struct AnyError(pub String);

/// Canonical error type.
#[derive(Debug)]
#[non_exhaustive]
pub enum KernelError {
    WorkflowNotFound(String),
    NodeNotFound(String),
    CycleDetected,
    /// Node execution timed out after this many milliseconds.
    Timeout(u64),
    Sandbox(String),
    Storage(String),
    Network(String),
    RateLimited,
    CircuitOpen,
    Attestation(String),
    InvalidInput(String),
    /// A (de)serialization failure, kept as its message.
    Serde(String),
    Other(AnyError),
}

pub type KernelResult<T> = Result<T, KernelError>;

} // verus!
