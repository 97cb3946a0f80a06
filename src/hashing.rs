use std::hash::{Hash, Hasher};
use twox_hash::XxHash64;
use vstd::prelude::*;

verus! {

/// The seed shared by every estimator, so that registers of different
/// estimators stay comparable.
pub const HASH_SEED: u64 = 0;

/// The 64-bit xxHash (seed 0) of a byte string.
pub uninterp spec fn xxh64_of(bytes: Seq<u8>) -> u64;

/// Relies on twox_hash's `XxHash64::with_seed` and its `Hasher` impl: after
/// one `write` of the bytes, `finish` returns a value that depends on the
/// seed and those bytes alone.
#[verifier::external_body]
pub(crate) fn hash_bytes(bytes: &[u8]) -> (r: u64)
    ensures
        r == xxh64_of(bytes@),
{
    let mut hasher = XxHash64::with_seed(HASH_SEED);
    hasher.write(bytes);
    hasher.finish()
}

/// Relies on twox_hash's `XxHash64` (seed 0) fed through the value's own
/// `Hash` impl. Nothing is stated of the result: it depends on that impl.
#[verifier::external_body]
pub(crate) fn hash_value<T: Hash + ?Sized>(element: &T) -> (r: u64) {
    let mut hasher = XxHash64::with_seed(HASH_SEED);
    element.hash(&mut hasher);
    hasher.finish()
}

} // verus!
