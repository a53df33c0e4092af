use vstd::prelude::*;
use crate::ledger::block::Block;
use crate::ledger::transaction::SignedTransaction;

verus! {

/// The kinds of data nodes gossip to each other.
#[derive(Clone, Debug)]
pub enum GossipData {
    /// A signed transaction to be propagated.
    Transaction(SignedTransaction),
    /// A mined block to be propagated.
    Block(Block),
}

/// A gossip message.
#[derive(Clone, Debug)]
pub struct Gossip {
    pub data: GossipData,
}

impl Gossip {
    /// A gossip message carrying a transaction.
    pub fn new_transaction(tx: SignedTransaction) -> (g: Self)
        ensures
            g.data == GossipData::Transaction(tx),
    {
        Gossip { data: GossipData::Transaction(tx) }
    }

    /// A gossip message carrying a block.
    pub fn new_block(block: Block) -> (g: Self)
        ensures
            g.data == GossipData::Block(block),
    {
        Gossip { data: GossipData::Block(block) }
    }
}

} // verus!
