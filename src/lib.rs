//! Cardinality estimation with HyperLogLog registers.

pub mod api;
pub mod error;
pub mod estimate;
pub mod hashing;
pub mod hll;
pub mod lemmas;

pub use error::HllError;
pub use hll::HyperLogLog;
pub use api::{ErrorResponse, PfAddRequest, PfCountResponse, PfMergeRequest, SuccessResponse};
