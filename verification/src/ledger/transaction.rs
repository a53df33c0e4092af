use vstd::prelude::*;
use crate::crypto::hash::sha256_digest;
use crate::crypto::signature::{address_from_pubkey, address_of, ed25519_verifies, verify_signature};
use crate::crypto::hash::sha256_raw;
use crate::ledger::encoding::{encode_transaction, transaction_bytes};
use crate::ledger::address_map::keys_equal;
use crate::ledger::state::{Ledger, State};
use crate::ledger::types::{Address, PublicKeyBytes, Signature, TransactionHash};

verus! {

/// A transfer of `amount` from `from` to `to`, paying `fee` to the block
/// producer; `nonce` must be one more than the sender's current nonce.
#[derive(Clone, Copy, Debug)]
pub struct Transaction {
    pub from: Address,
    pub to: Address,
    pub amount: u64,
    pub fee: u64,
    pub nonce: u64,
}

/// The hash that identifies a transaction: SHA-256 of its encoding.
pub open spec fn transaction_hash(tx: Transaction) -> Seq<u8> {
    sha256_digest(transaction_bytes(tx))
}

impl Transaction {
    /// SHA-256 of the transaction's encoding.
    pub fn hash(&self) -> (h: TransactionHash)
        ensures
            h@ == transaction_hash(*self),
    {
        let bytes = encode_transaction(self);
        sha256_raw(bytes.as_slice())
    }
}

/// A transaction together with the sender's public key and its signature
/// over the transaction hash.
#[derive(Clone, Copy, Debug)]
pub struct SignedTransaction {
    pub tx: Transaction,
    pub signature: Signature,
    pub public_key: PublicKeyBytes,
}

/// Why a transaction was rejected.
#[derive(Debug, Clone, Copy, PartialEq, Eq, Structural)]
pub enum ValidationError {
    SenderAccountNotFound,
    NonceNotFound,
    InvalidNonce,
    InsufficientBalance,
    ZeroAmount,
    ZeroFee,
    InvalidPublicKey,
    InvalidSignature,
}

/// The outcome of validating `stx` against the ledger `l`: the checks run in
/// this order and the first that fails gives the error.
pub open spec fn validate_spec(l: Ledger, stx: SignedTransaction) -> Result<(), ValidationError> {
    let tx = stx.tx;
    let from = tx.from@;
    if tx.amount + tx.fee > u64::MAX {
        Err(ValidationError::InsufficientBalance)
    } else if !l.balances.contains_key(from) {
        Err(ValidationError::SenderAccountNotFound)
    } else if !l.nonces.contains_key(from) {
        Err(ValidationError::NonceNotFound)
    } else if tx.nonce != l.nonces[from] + 1 {
        Err(ValidationError::InvalidNonce)
    } else if l.balances[from] < tx.amount + tx.fee {
        Err(ValidationError::InsufficientBalance)
    } else if tx.amount == 0 {
        Err(ValidationError::ZeroAmount)
    } else if tx.fee == 0 {
        Err(ValidationError::ZeroFee)
    } else if address_of(stx.public_key@) != from {
        Err(ValidationError::InvalidPublicKey)
    } else if !ed25519_verifies(transaction_hash(tx), stx.signature@, stx.public_key@) {
        Err(ValidationError::InvalidSignature)
    } else {
        Ok(())
    }
}

/// Checks a transaction against the state before it is applied; the state is
/// not changed.
pub fn validate(state: &State, signed_tx: &SignedTransaction) -> (r: Result<(), ValidationError>)
    requires
        state.wf(),
    ensures
        r == validate_spec(state@, *signed_tx),
{
    let tx = &signed_tx.tx;
    let sender_address = &tx.from;
    let total_amount = match tx.amount.checked_add(tx.fee) {
        Some(t) => t,
        None => return Err(ValidationError::InsufficientBalance),
    };
    let sender_balance = match state.balances.get(sender_address) {
        Some(b) => *b,
        None => return Err(ValidationError::SenderAccountNotFound),
    };
    let current_nonce = match state.nonces.get(sender_address) {
        Some(n) => *n,
        None => return Err(ValidationError::NonceNotFound),
    };
    if current_nonce == u64::MAX || tx.nonce != current_nonce + 1 {
        return Err(ValidationError::InvalidNonce);
    }
    if sender_balance < total_amount {
        return Err(ValidationError::InsufficientBalance);
    }
    if tx.amount == 0 {
        return Err(ValidationError::ZeroAmount);
    }
    if tx.fee == 0 {
        return Err(ValidationError::ZeroFee);
    }
    let derived_address = address_from_pubkey(&signed_tx.public_key);
    if !keys_equal(&derived_address, sender_address) {
        return Err(ValidationError::InvalidPublicKey);
    }
    let tx_hash = tx.hash();
    if !verify_signature(&tx_hash, &signed_tx.signature, &signed_tx.public_key) {
        return Err(ValidationError::InvalidSignature);
    }
    Ok(())
}

} // verus!
