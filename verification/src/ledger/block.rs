use vstd::prelude::*;
use crate::crypto::hash::{sha256_digest, sha256_raw};
use crate::ledger::encoding::{block_bytes, encode_block};
use crate::ledger::transaction::SignedTransaction;
use crate::ledger::types::{Address, BlockHash};

verus! {

/// A block: the hash of its parent, the producer that collects the fees, the
/// proof-of-work nonce and the ordered transactions.
#[derive(Debug)]
pub struct Block {
    pub prev_hash: BlockHash,
    pub producer: Address,
    pub nonce: u64,
    pub transactions: Vec<SignedTransaction>,
}

/// A block as a mathematical value.
pub struct BlockView {
    pub prev_hash: BlockHash,
    pub producer: Address,
    pub nonce: u64,
    pub transactions: Seq<SignedTransaction>,
}

impl View for Block {
    type V = BlockView;

    open spec fn view(&self) -> BlockView {
        BlockView {
            prev_hash: self.prev_hash,
            producer: self.producer,
            nonce: self.nonce,
            transactions: self.transactions@,
        }
    }
}

/// The hash that identifies a block: SHA-256 of its encoding.
pub open spec fn block_hash(b: BlockView) -> Seq<u8> {
    sha256_digest(block_bytes(b))
}

impl Block {
    /// SHA-256 of the block's encoding; it commits to every field.
    pub fn hash(&self) -> (h: BlockHash)
        ensures
            h@ == block_hash(self@),
    {
        let bytes = encode_block(self);
        sha256_raw(bytes.as_slice())
    }

    /// The work a block adds to its chain: one unit per block.
    pub fn work(&self) -> (w: u128)
        ensures
            w == 1,
    {
        1
    }
}

impl Clone for Block {
    fn clone(&self) -> (r: Self)
        ensures
            r@ == self@,
    {
        let transactions = self.transactions.clone();
        assert(transactions@ =~= self.transactions@);
        Block {
            prev_hash: self.prev_hash,
            producer: self.producer,
            nonce: self.nonce,
            transactions,
        }
    }
}

/// Where a block stands in the block tree.
#[derive(Clone, Copy, Debug)]
pub struct BlockMeta {
    pub height: u64,
    pub parent: BlockHash,
    pub total_work: u128,
}

} // verus!
