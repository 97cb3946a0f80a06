use crate::error::HllError;
use vstd::prelude::*;

verus! {

/// Body of an add command: the elements to add under a key.
#[derive(Debug, Clone)]
pub struct PfAddRequest {
    pub elements: Vec<String>,
}

/// Reply to a count command.
#[derive(Debug, Clone, PartialEq, Eq)]
pub struct PfCountResponse {
    pub count: u64,
}

/// Body of a merge command: the keys whose estimators are united.
#[derive(Debug, Clone)]
pub struct PfMergeRequest {
    pub source_keys: Vec<String>,
}

/// Reply to a command that succeeded.
#[derive(Debug, Clone)]
pub struct SuccessResponse {
    pub success: bool,
    pub message: String,
}

/// Reply to a command that failed.
#[derive(Debug, Clone)]
pub struct ErrorResponse {
    pub error: String,
}

/// The HTTP status that reports an error: 404 for a missing key, 400 for a
/// malformed request, 500 for a failure of the server.
pub open spec fn status_of(e: HllError) -> u16 {
    match e {
        HllError::NotFound(_) => 404,
        HllError::InvalidKey(_) => 400,
        HllError::InvalidPrecision(_) => 400,
        HllError::PrecisionMismatch(_, _) => 400,
        _ => 500,
    }
}

impl HllError {
    /// The HTTP status code under which this error is reported.
    pub fn status_code(&self) -> (r: u16)
        ensures
            r == status_of(*self),
    {
        match self {
            HllError::NotFound(_) => 404,
            HllError::InvalidKey(_) => 400,
            HllError::InvalidPrecision(_) => 400,
            HllError::PrecisionMismatch(_, _) => 400,
            _ => 500,
        }
    }
}

} // verus!
