use vstd::prelude::*;

verus! {

/// Errors reported by the estimator and by the layers built on it.
#[derive(Debug, Clone, PartialEq, Eq)]
pub enum HllError {
    /// A storage backend failed.
    Storage(String),
    /// Serialized state could not be encoded or decoded.
    Serialization(String),
    /// An input/output operation failed.
    Io(String),
    /// A key was malformed or missing.
    InvalidKey(String),
    /// No estimator is stored under the key.
    NotFound(String),
    /// The requested precision lies outside 4..=16.
    InvalidPrecision(u8),
    /// Two estimators of different precision cannot be merged.
    PrecisionMismatch(u8, u8),
}

} // verus!
