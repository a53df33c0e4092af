use vstd::prelude::*;
use crate::ledger::block::{block_hash, Block, BlockView};
use crate::ledger::types::DIFFICULTY_PREFIX_ZERO_BYTES;

verus! {

/// A hash carries proof of work when its first `DIFFICULTY_PREFIX_ZERO_BYTES`
/// bytes are zero.
pub open spec fn meets_difficulty(h: Seq<u8>) -> bool {
    forall|i: int| 0 <= i < DIFFICULTY_PREFIX_ZERO_BYTES ==> #[trigger] h[i] == 0
}

/// The block `b` with its nonce replaced by `n`.
pub open spec fn with_nonce(b: BlockView, n: u64) -> BlockView {
    BlockView { prev_hash: b.prev_hash, producer: b.producer, nonce: n, transactions: b.transactions }
}

/// Searches nonces upward from the block's current nonce for the first one
/// whose block hash carries proof of work. Fails only when every nonce up to
/// `u64::MAX` has been tried.
pub fn mining(block: &mut Block) -> (r: Result<(), ()>)
    ensures
        final(block)@ == with_nonce(old(block)@, final(block).nonce),
        old(block).nonce <= final(block).nonce,
        forall|n: u64|
            old(block).nonce <= n < final(block).nonce ==> !meets_difficulty(
                #[trigger] block_hash(with_nonce(old(block)@, n)),
            ),
        r is Ok <==> meets_difficulty(block_hash(final(block)@)),
        r is Err ==> final(block).nonce == u64::MAX,
{
    let ghost start = block@;
    loop
        invariant
            start == old(block)@,
            block@ == with_nonce(start, block.nonce),
            start.nonce <= block.nonce,
            forall|n: u64|
                start.nonce <= n < block.nonce ==> !meets_difficulty(
                    #[trigger] block_hash(with_nonce(start, n)),
                ),
        decreases u64::MAX - block.nonce,
    {
        let hash = block.hash();
        if valid_hash(hash) {
            return Ok(());
        }
        if block.nonce == u64::MAX {
            return Err(());
        }
        block.nonce = block.nonce + 1;
    }
}

fn valid_hash(hash: [u8; 32]) -> (r: bool)
    ensures
        r == meets_difficulty(hash@),
{
    let mut i: usize = 0;
    while i < DIFFICULTY_PREFIX_ZERO_BYTES
        invariant
            0 <= i <= DIFFICULTY_PREFIX_ZERO_BYTES,
            forall|j: int| 0 <= j < i ==> #[trigger] hash@[j] == 0,
        decreases DIFFICULTY_PREFIX_ZERO_BYTES - i,
    {
        if hash[i] != 0 {
            return false;
        }
        i = i + 1;
    }
    true
}

/// Whether the block's hash carries proof of work.
pub fn valid_pow(block: &Block) -> (r: bool)
    ensures
        r == meets_difficulty(block_hash(block@)),
{
    valid_hash(block.hash())
}

} // verus!
