use vstd::prelude::*;

verus! {

/// An account address: the SHA-256 digest of the account's public key.
pub type Address = [u8; 32];

/// An Ed25519 signature.
pub type Signature = [u8; 64];

/// The SHA-256 digest that identifies a block.
pub type BlockHash = [u8; 32];

/// The SHA-256 digest that identifies a transaction.
pub type TransactionHash = [u8; 32];

/// An Ed25519 public key in its compressed form.
pub type PublicKeyBytes = [u8; 32];

/// The all-zero 32-byte value: the parent recorded for the genesis block and
/// the producer of the default genesis block.
pub open spec fn zero_bytes32() -> Seq<u8> {
    Seq::new(32, |i: int| 0u8)
}

/// The all-zero 32-byte array.
pub open spec fn zero_array() -> [u8; 32] {
    choose|a: [u8; 32]| a@ == zero_bytes32()
}

fn zeros32() -> (a: [u8; 32])
    ensures
        a@ == zero_bytes32(),
        a == zero_array(),
{
    let a: [u8; 32] = [0u8; 32];
    assert(a@ =~= zero_bytes32());
    assert(exists|b: [u8; 32]| b@ == zero_bytes32());
    assert(zero_array()@ == zero_bytes32());
    assert(a =~= zero_array());
    a
}

/// The parent hash recorded for the genesis block (all zero bytes).
pub fn genesis_hash() -> (h: BlockHash)
    ensures
        h@ == zero_bytes32(),
        h == zero_array(),
{
    zeros32()
}

/// The producer address of the default genesis block (all zero bytes).
pub fn zero_address() -> (a: Address)
    ensures
        a@ == zero_bytes32(),
        a == zero_array(),
{
    zeros32()
}

/// Number of leading zero bytes a block hash needs to carry proof of work.
pub const DIFFICULTY_PREFIX_ZERO_BYTES: usize = 2;

} // verus!
