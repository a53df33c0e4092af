use vstd::prelude::*;
use sha2::{Digest, Sha256};

verus! {

/// The SHA-256 digest of a byte string.
pub uninterp spec fn sha256_digest(data: Seq<u8>) -> Seq<u8>;

/// Raw SHA-256 of a byte string.
///
/// Trusted: the body runs `sha2::Sha256` (`new`, `update`, `finalize`). The
/// contract claims only that the digest is the function `sha256_digest` of
/// the input bytes; nothing is stated about what that function computes.
#[verifier::external_body]
pub fn sha256_raw(data: &[u8]) -> (digest: [u8; 32])
    ensures
        digest@ == sha256_digest(data@),
{
    let mut hasher = Sha256::new();
    hasher.update(data);
    hasher.finalize().into()
}

} // verus!
