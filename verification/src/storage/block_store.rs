//! Rebuilding the chain from the blocks kept on disk. The store itself is a
//! file of length-prefixed records (see `crate::framing`).
use vstd::prelude::*;
use crate::ledger::block::Block;
use crate::ledger::consensus::{
    default_genesis, insert_all, insert_stored, new_spec, stored_rest, tip_stored, Chain, ChainError,
};
use crate::ledger::state::State;
use crate::ledger::types::{genesis_hash, zero_address};

verus! {

/// Rebuilds the chain at startup: a chain on the default genesis block, with
/// every stored block after the first added in order. The first stored block
/// stands for the genesis block and is not added again.
pub fn startup_chain(genesis_state: State, blocks: Vec<Block>) -> (r: Result<Chain, ChainError>)
    requires
        genesis_state.wf(),
    ensures
        ({
            let bs = blocks@.map_values(|b: Block| b@);
            let (v, res) = insert_all(new_spec(genesis_state@, default_genesis()), stored_rest(bs));
            match r {
                Ok(c) => c.wf() && tip_stored(c@) && res is Ok && c@ == v,
                Err(e) => res == Err::<(), ChainError>(e),
            }
        }),
{
    let genesis_block = Block {
        prev_hash: genesis_hash(),
        producer: zero_address(),
        nonce: 0,
        transactions: Vec::new(),
    };
    assert(genesis_block@ =~= default_genesis());
    let chain = Chain::new(genesis_state, genesis_block);
    insert_stored(chain, &blocks)
}

} // verus!
