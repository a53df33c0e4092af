use vstd::prelude::*;
use ed25519_dalek::{Signature as Ed25519Signature, Verifier, VerifyingKey};
use crate::crypto::hash::{sha256_digest, sha256_raw};
use crate::ledger::types::{Address, PublicKeyBytes, Signature, TransactionHash};

verus! {

/// Whether `sig` is a valid Ed25519 signature of `msg` under the compressed
/// public key `pk` (false when `pk` is not a valid point encoding).
pub uninterp spec fn ed25519_verifies(msg: Seq<u8>, sig: Seq<u8>, pk: Seq<u8>) -> bool;

/// The address that belongs to a public key: the SHA-256 digest of its bytes.
pub open spec fn address_of(pubkey: Seq<u8>) -> Seq<u8> {
    sha256_digest(pubkey)
}

/// Derives an address from a public key using SHA-256.
pub fn address_from_pubkey(pubkey: &PublicKeyBytes) -> (a: Address)
    ensures
        a@ == address_of(pubkey@),
{
    sha256_raw(pubkey)
}

/// Verifies a signature against a transaction hash.
///
/// Trusted: the body parses the key with `ed25519_dalek::VerifyingKey::from_bytes`
/// (a key that does not parse gives `false`), builds the signature with
/// `ed25519_dalek::Signature::from_bytes` and calls `Verifier::verify` on the
/// hash. The contract claims only that the answer is the function
/// `ed25519_verifies` of the three byte strings; what that function decides is
/// not stated.
#[verifier::external_body]
pub fn verify_signature(
    tx_hash: &TransactionHash,
    sig_bytes: &Signature,
    pubkey: &PublicKeyBytes,
) -> (ok: bool)
    ensures
        ok == ed25519_verifies(tx_hash@, sig_bytes@, pubkey@),
{
    let verifying_key = match VerifyingKey::from_bytes(pubkey) {
        Ok(vk) => vk,
        Err(_) => return false,
    };
    let signature = Ed25519Signature::from_bytes(sig_bytes);
    verifying_key.verify(tx_hash, &signature).is_ok()
}

} // verus!
