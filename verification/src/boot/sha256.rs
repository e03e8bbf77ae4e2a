//! SHA-256.
use sha2::Digest;
use vstd::prelude::*;

verus! {

/// The SHA-256 hash of a byte string.
pub uninterp spec fn sha256(data: Seq<u8>) -> Seq<u8>;

/// Calls `sha2::Sha256::digest`.
///
/// Claimed of it: the hash is a function of the bytes alone. Which function that is,
/// is not said.
#[verifier::external_body]
pub(crate) fn digest(data: &[u8]) -> (r: [u8; 32])
    ensures
        r@ == sha256(data@),
{
    sha2::Sha256::digest(data).into()
}

} // verus!
