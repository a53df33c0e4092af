use vstd::prelude::*;
use crate::ledger::address_map::AddressMap;
use crate::ledger::block::{block_hash, Block, BlockView};
use crate::ledger::pow::{meets_difficulty, mining, with_nonce};
use crate::ledger::types::Address;
use crate::ledger::consensus::{insert_spec as chain_insert_spec, tip_stored, Chain, ChainError};
use crate::ledger::mempool::{
    assemble_block, assemble_spec, assembled_block, cost, costs_of, insert_spec as mempool_insert_spec,
    pool_has_nonce, pool_wf, Mempool, MempoolError,
};
use crate::ledger::transaction::{transaction_hash, SignedTransaction, ValidationError};
use crate::net::gossip::{Gossip, GossipData};
use crate::net::peer::PeerList;

verus! {

/// Why a node did not accept gossip.
#[derive(Debug, Clone, Copy, PartialEq, Eq, Structural)]
pub enum NodeError {
    TransactionAlreadySeen,
    BlockAlreadySeen,
    ValidationError(ValidationError),
    MempoolError(MempoolError),
    ChainError(ChainError),
}

/// What one round of block production came to.
#[derive(Debug)]
pub enum MiningRound {
    /// Assembling the block would take a balance past `u64::MAX`.
    Overflow,
    /// No nonce gives the assembled block proof of work.
    Exhausted,
    /// The block was mined and handed to the node, with the node's answer.
    Mined(Block, Result<(), NodeError>),
}

/// `b` is `ab` with the first nonce, counting up from `ab`'s own, whose
/// block hash carries proof of work.
pub open spec fn first_pow(ab: BlockView, b: BlockView) -> bool {
    &&& b == with_nonce(ab, b.nonce)
    &&& ab.nonce <= b.nonce
    &&& meets_difficulty(block_hash(b))
    &&& forall|n: u64| ab.nonce <= n < b.nonce ==> !#[trigger] meets_difficulty(block_hash(with_nonce(ab, n)))
}

/// A queue without its transaction of nonce `n` (queues hold each nonce at most once).
pub open spec fn pool_without(p: Seq<SignedTransaction>, n: u64) -> Seq<SignedTransaction> {
    if exists|i: int| 0 <= i < p.len() && #[trigger] p[i].tx.nonce == n {
        p.remove(choose|i: int| 0 <= i < p.len() && #[trigger] p[i].tx.nonce == n)
    } else {
        p
    }
}

/// The mempool after `stx` was mined: its sender's queue loses the entry with
/// its nonce, and a queue left empty is dropped.
pub open spec fn forget_mined(
    mv: Map<Seq<u8>, Seq<SignedTransaction>>,
    stx: SignedTransaction,
) -> Map<Seq<u8>, Seq<SignedTransaction>> {
    let s = stx.tx.from@;
    if mv.contains_key(s) {
        let p = pool_without(mv[s], stx.tx.nonce);
        if p.len() == 0 {
            mv.remove(s)
        } else {
            mv.insert(s, p)
        }
    } else {
        mv
    }
}

/// The mempool after every transaction of `txs` was mined, in order.
pub open spec fn forget_all_mined(
    mv: Map<Seq<u8>, Seq<SignedTransaction>>,
    txs: Seq<SignedTransaction>,
) -> Map<Seq<u8>, Seq<SignedTransaction>>
    decreases txs.len(),
{
    if txs.len() == 0 {
        mv
    } else {
        forget_mined(forget_all_mined(mv, txs.drop_last()), txs.last())
    }
}

proof fn lemma_costs_remove(s: Seq<SignedTransaction>, i: int)
    requires
        0 <= i < s.len(),
    ensures
        costs_of(s.remove(i)) == costs_of(s) - cost(s[i]),
    decreases s.len(),
{
    if i == s.len() - 1 {
        assert(s.remove(i) =~= s.drop_last());
    } else {
        assert(s.remove(i).drop_last() =~= s.drop_last().remove(i));
        lemma_costs_remove(s.drop_last(), i);
    }
}

fn forget_mined_tx(mempool: &mut Mempool, stx: &SignedTransaction)
    requires
        old(mempool).wf(),
    ensures
        final(mempool).wf(),
        final(mempool)@ == forget_mined(old(mempool)@, *stx),
{
    let ghost mv = mempool@;
    let sender = stx.tx.from;
    let nonce = stx.tx.nonce;
    match mempool.by_account.remove(&sender) {
        None => {
            assert(mempool@ =~= mv);
        },
        Some(mut pool) => {
            let ghost p = pool@;
            assert(mv.contains_key(sender@));
            assert(p == mv[sender@]);
            assert(pool_wf(p));
            let mut i: usize = 0;
            let mut found = false;
            while i < pool.len()
                invariant_except_break
                    !found,
                invariant
                    p == pool@,
                    0 <= i <= pool@.len(),
                    forall|j: int| 0 <= j < i ==> p[j].tx.nonce != nonce,
                ensures
                    found ==> i < pool@.len() && p[i as int].tx.nonce == nonce,
                    !found ==> i == pool@.len(),
                    forall|j: int| 0 <= j < i ==> p[j].tx.nonce != nonce,
                decreases pool@.len() - i,
            {
                if pool[i].tx.nonce == nonce {
                    found = true;
                    break;
                }
                i = i + 1;
            }
            if found {
                proof {
                    let c = choose|c: int| 0 <= c < p.len() && #[trigger] p[c].tx.nonce == nonce;
                    if c != i {
                        if c < i {
                        } else {
                            assert(p[i as int].tx.nonce < p[c].tx.nonce);
                        }
                    }
                    assert(pool_without(p, nonce) == p.remove(i as int));
                    lemma_costs_remove(p, i as int);
                }
                pool.remove(i);
            } else {
                assert(pool_without(p, nonce) == p);
            }
            let ghost np = pool@;
            proof {
                assert(np == pool_without(p, nonce));
                assert forall|a: int, b: int| 0 <= a < b < np.len() implies #[trigger] np[a].tx.nonce
                    < #[trigger] np[b].tx.nonce by {
                    if found {
                        let a2 = if a < i { a } else { a + 1 };
                        let b2 = if b < i { b } else { b + 1 };
                        assert(np[a] == p[a2]);
                        assert(np[b] == p[b2]);
                    }
                }
                assert forall|a: int| 0 <= a < np.len() implies cost(#[trigger] np[a]) <= u64::MAX by {
                    if found {
                        let a2 = if a < i { a } else { a + 1 };
                        assert(np[a] == p[a2]);
                    }
                }
            }
            if pool.len() == 0 {
                proof {
                    assert(mempool@ =~= mv.remove(sender@));
                }
            } else {
                mempool.by_account.insert(sender, pool);
                proof {
                    assert(mempool@ =~= mv.insert(sender@, np));
                }
            }
        },
    }
}

/// Set of 32-byte hashes a node has already handled.
pub type SeenHashes = AddressMap<()>;

/// A node: its chain, its mempool, its peers, and the hashes of the blocks
/// and transactions it has already accepted.
pub struct Node {
    pub chain: Chain,
    pub mempool: Mempool,
    pub peer_list: PeerList,
    pub seen_block_hashes: SeenHashes,
    pub seen_tx_hashes: SeenHashes,
}

/// What `on_transaction` does: a transaction already seen is refused; any
/// other goes to the mempool's admission, and on success its hash is
/// remembered. Chain, peers and seen blocks are untouched.
pub open spec fn transaction_received(pre: Node, post: Node, tx: SignedTransaction, r: Result<(), NodeError>) -> bool {
    let h = transaction_hash(tx.tx);
    let (mv, mr) = mempool_insert_spec(pre.mempool@, pre.chain.state@, tx);
    &&& post.chain@ == pre.chain@
    &&& post.peer_list.peers@ == pre.peer_list.peers@
    &&& post.seen_block_hashes@ == pre.seen_block_hashes@
    &&& if pre.seen_tx_hashes@.contains_key(h) {
        &&& r == Err::<(), NodeError>(NodeError::TransactionAlreadySeen)
        &&& post.mempool@ == pre.mempool@
        &&& post.seen_tx_hashes@ == pre.seen_tx_hashes@
    } else {
        &&& post.mempool@ == mv
        &&& match mr {
            Ok(_) => r == Ok::<(), NodeError>(()) && post.seen_tx_hashes@ == pre.seen_tx_hashes@.insert(
                h,
                (),
            ),
            Err(e) => r == Err::<(), NodeError>(NodeError::MempoolError(e))
                && post.seen_tx_hashes@ == pre.seen_tx_hashes@,
        }
    }
}

/// What `on_block` does: a block already seen is refused; any other goes to
/// the chain, which leaves itself unchanged when it refuses the block; on
/// success its hash is remembered and its transactions leave the mempool.
pub open spec fn block_received(pre: Node, post: Node, b: Block, r: Result<(), NodeError>) -> bool {
    let h = block_hash(b@);
    let (cv, cr) = chain_insert_spec(pre.chain@, b@);
    &&& post.peer_list.peers@ == pre.peer_list.peers@
    &&& post.seen_tx_hashes@ == pre.seen_tx_hashes@
    &&& if pre.seen_block_hashes@.contains_key(h) {
        &&& r == Err::<(), NodeError>(NodeError::BlockAlreadySeen)
        &&& post.chain@ == pre.chain@
        &&& post.mempool@ == pre.mempool@
        &&& post.seen_block_hashes@ == pre.seen_block_hashes@
    } else {
        &&& post.chain@ == cv
        &&& match cr {
            Ok(_) => {
                &&& r == Ok::<(), NodeError>(())
                &&& post.seen_block_hashes@ == pre.seen_block_hashes@.insert(h, ())
                &&& post.mempool@ == forget_all_mined(pre.mempool@, b@.transactions)
            },
            Err(e) => {
                &&& r == Err::<(), NodeError>(NodeError::ChainError(e))
                &&& post.chain@ == pre.chain@
                &&& post.seen_block_hashes@ == pre.seen_block_hashes@
                &&& post.mempool@ == pre.mempool@
            },
        }
    }
}

/// Gossip deduplication: a transaction accepted once is refused, with
/// nothing changed in the mempool, when it arrives again.
pub proof fn law_transaction_accepted_once(
    a: Node,
    b: Node,
    c: Node,
    tx: SignedTransaction,
    r: Result<(), NodeError>,
)
    requires
        transaction_received(a, b, tx, Ok(())),
        transaction_received(b, c, tx, r),
    ensures
        r == Err::<(), NodeError>(NodeError::TransactionAlreadySeen),
        c.mempool@ == b.mempool@,
{
    let h = transaction_hash(tx.tx);
    assert(b.seen_tx_hashes@.contains_key(h));
}

/// Gossip deduplication: a block accepted once is refused, with nothing
/// changed, when it arrives again.
pub proof fn law_block_accepted_once(a: Node, b: Node, c: Node, blk: Block, r: Result<(), NodeError>)
    requires
        block_received(a, b, blk, Ok(())),
        block_received(b, c, blk, r),
    ensures
        r == Err::<(), NodeError>(NodeError::BlockAlreadySeen),
        c.chain@ == b.chain@,
        c.mempool@ == b.mempool@,
{
    let h = block_hash(blk@);
    assert(b.seen_block_hashes@.contains_key(h));
}

/// A transaction the node refuses leaves the node's mempool and its record
/// of seen transactions as they were: only accepted transactions are
/// remembered.
pub proof fn law_refused_transaction_not_remembered(
    pre: Node,
    post: Node,
    tx: SignedTransaction,
    r: Result<(), NodeError>,
)
    requires
        transaction_received(pre, post, tx, r),
        r is Err,
    ensures
        post.seen_tx_hashes@ == pre.seen_tx_hashes@,
        post.mempool@ == pre.mempool@,
        post.chain@ == pre.chain@,
{
}

/// A transaction the mempool refused is not taken for a duplicate when it
/// arrives again: the second delivery goes to the mempool's admission, and
/// is accepted when the node's state now admits it.
pub proof fn law_refused_transaction_retried(
    a: Node,
    b: Node,
    c: Node,
    tx: SignedTransaction,
    e: MempoolError,
    r: Result<(), NodeError>,
)
    requires
        transaction_received(a, b, tx, Err(NodeError::MempoolError(e))),
        transaction_received(b, c, tx, r),
    ensures
        r != Err::<(), NodeError>(NodeError::TransactionAlreadySeen),
        mempool_insert_spec(b.mempool@, b.chain.state@, tx).1 is Ok ==> r == Ok::<(), NodeError>(()),
{
    let h = transaction_hash(tx.tx);
    assert(!a.seen_tx_hashes@.contains_key(h));
    assert(!b.seen_tx_hashes@.contains_key(h));
}

/// A block the node refuses leaves the node as it was, its record of seen
/// blocks included: only accepted blocks are remembered.
pub proof fn law_refused_block_not_remembered(pre: Node, post: Node, blk: Block, r: Result<(), NodeError>)
    requires
        block_received(pre, post, blk, r),
        r is Err,
    ensures
        post.seen_block_hashes@ == pre.seen_block_hashes@,
        post.seen_tx_hashes@ == pre.seen_tx_hashes@,
        post.chain@ == pre.chain@,
        post.mempool@ == pre.mempool@,
{
}

/// A block the chain refused (an orphan, say) is not taken for a duplicate
/// when it arrives again: the second delivery goes to the chain, and is
/// accepted when the chain now accepts it.
pub proof fn law_refused_block_retried(
    a: Node,
    b: Node,
    c: Node,
    blk: Block,
    e: ChainError,
    r: Result<(), NodeError>,
)
    requires
        block_received(a, b, blk, Err(NodeError::ChainError(e))),
        block_received(b, c, blk, r),
    ensures
        r != Err::<(), NodeError>(NodeError::BlockAlreadySeen),
        chain_insert_spec(b.chain@, blk@).1 is Ok ==> r == Ok::<(), NodeError>(()) && c.chain@
            == chain_insert_spec(b.chain@, blk@).0,
{
    let h = block_hash(blk@);
    assert(!a.seen_block_hashes@.contains_key(h));
    assert(!b.seen_block_hashes@.contains_key(h));
}

/// Nonces strictly ascending along a queue.
pub open spec fn nonces_ascending(p: Seq<SignedTransaction>) -> bool {
    forall|i: int, j: int| 0 <= i < j < p.len() ==> #[trigger] p[i].tx.nonce < #[trigger] p[j].tx.nonce
}

/// Whether sender `s` has a queued transaction of nonce `n`.
pub open spec fn queued(mv: Map<Seq<u8>, Seq<SignedTransaction>>, s: Seq<u8>, n: u64) -> bool {
    mv.contains_key(s) && pool_has_nonce(mv[s], n)
}

/// Whether some transaction of `txs` comes from `s` with nonce `n`.
pub open spec fn mined_in(txs: Seq<SignedTransaction>, s: Seq<u8>, n: u64) -> bool {
    exists|i: int| 0 <= i < txs.len() && #[trigger] txs[i].tx.from@ == s && txs[i].tx.nonce == n
}

proof fn lemma_pool_without(p: Seq<SignedTransaction>, n: u64)
    requires
        nonces_ascending(p),
    ensures
        nonces_ascending(pool_without(p, n)),
        forall|m: u64| #[trigger] pool_has_nonce(pool_without(p, n), m) <==> pool_has_nonce(p, m) && m != n,
{
    if exists|i: int| 0 <= i < p.len() && #[trigger] p[i].tx.nonce == n {
        let i = choose|i: int| 0 <= i < p.len() && #[trigger] p[i].tx.nonce == n;
        let q = p.remove(i);
        assert(pool_without(p, n) == q);
        assert forall|a: int, b: int| 0 <= a < b < q.len() implies #[trigger] q[a].tx.nonce
            < #[trigger] q[b].tx.nonce by {
            let a2 = if a < i { a } else { a + 1 };
            let b2 = if b < i { b } else { b + 1 };
            assert(q[a] == p[a2]);
            assert(q[b] == p[b2]);
        }
        assert forall|m: u64| #[trigger] pool_has_nonce(q, m) <==> pool_has_nonce(p, m) && m != n by {
            if pool_has_nonce(q, m) {
                let a = choose|a: int| 0 <= a < q.len() && #[trigger] q[a].tx.nonce == m;
                let a2 = if a < i { a } else { a + 1 };
                assert(q[a] == p[a2]);
                assert(a2 != i);
                if a2 < i {
                    assert(p[a2].tx.nonce < p[i].tx.nonce);
                } else {
                    assert(p[i].tx.nonce < p[a2].tx.nonce);
                }
            }
            if pool_has_nonce(p, m) && m != n {
                let a = choose|a: int| 0 <= a < p.len() && #[trigger] p[a].tx.nonce == m;
                assert(a != i);
                let a2 = if a < i { a } else { a - 1 };
                assert(q[a2] == p[a]);
            }
        }
    }
}

proof fn lemma_forget_mined(mv: Map<Seq<u8>, Seq<SignedTransaction>>, stx: SignedTransaction)
    requires
        forall|k: Seq<u8>| #[trigger] mv.contains_key(k) ==> nonces_ascending(mv[k]),
    ensures
        forall|k: Seq<u8>| #[trigger] forget_mined(mv, stx).contains_key(k) ==> nonces_ascending(
            forget_mined(mv, stx)[k],
        ),
        forall|s: Seq<u8>, m: u64| #[trigger] queued(forget_mined(mv, stx), s, m) <==> queued(mv, s, m)
            && !(s == stx.tx.from@ && m == stx.tx.nonce),
{
    let s0 = stx.tx.from@;
    let post = forget_mined(mv, stx);
    if mv.contains_key(s0) {
        lemma_pool_without(mv[s0], stx.tx.nonce);
        let p = pool_without(mv[s0], stx.tx.nonce);
        assert forall|s: Seq<u8>, m: u64| #[trigger] queued(post, s, m) <==> queued(mv, s, m) && !(s
            == s0 && m == stx.tx.nonce) by {
            if s == s0 {
                if p.len() == 0 {
                    assert(!pool_has_nonce(p, m));
                }
            }
        }
    }
}

proof fn lemma_forget_all_mined(mv: Map<Seq<u8>, Seq<SignedTransaction>>, txs: Seq<SignedTransaction>)
    requires
        forall|k: Seq<u8>| #[trigger] mv.contains_key(k) ==> nonces_ascending(mv[k]),
    ensures
        forall|k: Seq<u8>| #[trigger] forget_all_mined(mv, txs).contains_key(k) ==> nonces_ascending(
            forget_all_mined(mv, txs)[k],
        ),
        forall|s: Seq<u8>, m: u64| #[trigger] queued(forget_all_mined(mv, txs), s, m) <==> queued(mv, s, m)
            && !mined_in(txs, s, m),
    decreases txs.len(),
{
    if txs.len() > 0 {
        let init = txs.drop_last();
        lemma_forget_all_mined(mv, init);
        let mid = forget_all_mined(mv, init);
        lemma_forget_mined(mid, txs.last());
        assert forall|s: Seq<u8>, m: u64| #[trigger] queued(forget_all_mined(mv, txs), s, m) <==> queued(
            mv,
            s,
            m,
        ) && !mined_in(txs, s, m) by {
            if mined_in(txs, s, m) {
                let i = choose|i: int|
                    0 <= i < txs.len() && #[trigger] txs[i].tx.from@ == s && txs[i].tx.nonce == m;
                if i < txs.len() - 1 {
                    assert(init[i] == txs[i]);
                    assert(mined_in(init, s, m));
                }
            }
            if mined_in(init, s, m) {
                let i = choose|i: int|
                    0 <= i < init.len() && #[trigger] init[i].tx.from@ == s && init[i].tx.nonce == m;
                assert(txs[i] == init[i]);
                assert(mined_in(txs, s, m));
            }
            if s == txs.last().tx.from@ && m == txs.last().tx.nonce {
                assert(txs[txs.len() - 1] == txs.last());
                assert(mined_in(txs, s, m));
            }
        }
    }
}

/// An accepted block takes its transactions out of the mempool: afterwards
/// no sender has a queued transaction with the nonce of one of the block's
/// transactions, and every other queued transaction is still queued.
pub proof fn law_accepted_block_clears_mempool(pre: Node, post: Node, blk: Block)
    requires
        pre.mempool.wf(),
        block_received(pre, post, blk, Ok(())),
    ensures
        forall|s: Seq<u8>, m: u64| #[trigger] queued(post.mempool@, s, m) <==> queued(
            pre.mempool@,
            s,
            m,
        ) && !mined_in(blk@.transactions, s, m),
        forall|i: int|
            0 <= i < blk@.transactions.len() ==> !queued(
                post.mempool@,
                #[trigger] blk@.transactions[i].tx.from@,
                blk@.transactions[i].tx.nonce,
            ),
{
    let mv = pre.mempool@;
    assert forall|k: Seq<u8>| #[trigger] mv.contains_key(k) implies nonces_ascending(mv[k]) by {
        assert(pool_wf(mv[k]));
    }
    lemma_forget_all_mined(mv, blk@.transactions);
    assert forall|i: int| 0 <= i < blk@.transactions.len() implies !queued(
        post.mempool@,
        #[trigger] blk@.transactions[i].tx.from@,
        blk@.transactions[i].tx.nonce,
    ) by {
        assert(mined_in(blk@.transactions, blk@.transactions[i].tx.from@, blk@.transactions[i].tx.nonce));
    }
}

/// What a delivered transaction comes to: refused as a duplicate exactly
/// when its hash was seen; otherwise the mempool's admission decides, and
/// only an admitted transaction is remembered.
pub proof fn law_transaction_outcome(pre: Node, post: Node, tx: SignedTransaction, r: Result<(), NodeError>)
    requires
        transaction_received(pre, post, tx, r),
    ensures
        ({
            let h = transaction_hash(tx.tx);
            let (mv, mr) = mempool_insert_spec(pre.mempool@, pre.chain.state@, tx);
            &&& (r == Err::<(), NodeError>(NodeError::TransactionAlreadySeen)) == pre.seen_tx_hashes@.contains_key(h)
            &&& r is Ok ==> mr is Ok && post.mempool@ == mv && post.seen_tx_hashes@ == pre.seen_tx_hashes@.insert(h, ())
                && !pre.seen_tx_hashes@.contains_key(h)
            &&& !pre.seen_tx_hashes@.contains_key(h) && mr is Ok ==> r is Ok
            &&& (r matches Err(NodeError::MempoolError(e)) ==> mr == Err::<(), MempoolError>(e))
            &&& post.chain@ == pre.chain@
        }),
{
}

/// What a delivered block comes to: refused as a duplicate exactly when its
/// hash was seen; otherwise the chain decides, and only an accepted block is
/// remembered.
pub proof fn law_block_outcome(pre: Node, post: Node, blk: Block, r: Result<(), NodeError>)
    requires
        block_received(pre, post, blk, r),
    ensures
        ({
            let h = block_hash(blk@);
            let (cv, cr) = chain_insert_spec(pre.chain@, blk@);
            &&& (r == Err::<(), NodeError>(NodeError::BlockAlreadySeen)) == pre.seen_block_hashes@.contains_key(h)
            &&& r is Ok ==> cr is Ok && post.chain@ == cv && post.seen_block_hashes@ == pre.seen_block_hashes@.insert(h, ())
                && !pre.seen_block_hashes@.contains_key(h)
            &&& !pre.seen_block_hashes@.contains_key(h) && cr is Ok ==> r is Ok
            &&& (r matches Err(NodeError::ChainError(e)) ==> cr == Err::<(), ChainError>(e))
            &&& post.seen_tx_hashes@ == pre.seen_tx_hashes@
        }),
{
}

impl Node {
    /// The node's invariant.
    pub open spec fn wf(&self) -> bool {
        &&& self.chain.wf()
        &&& tip_stored(self.chain@)
        &&& self.mempool.wf()
        &&& self.seen_block_hashes.wf()
        &&& self.seen_tx_hashes.wf()
    }

    /// A node around `chain`, with an empty mempool, no peers and nothing seen.
    pub fn new(chain: Chain) -> (n: Self)
        requires
            chain.wf(),
            tip_stored(chain@),
        ensures
            n.wf(),
            n.chain@ == chain@,
            n.mempool@ == Map::<Seq<u8>, Seq<SignedTransaction>>::empty(),
            n.peer_list.peers@ == Seq::<crate::net::peer::Peer>::empty(),
            n.seen_block_hashes@ == Map::<Seq<u8>, ()>::empty(),
            n.seen_tx_hashes@ == Map::<Seq<u8>, ()>::empty(),
    {
        Node {
            chain,
            mempool: Mempool::new(),
            peer_list: PeerList::new(),
            seen_block_hashes: AddressMap::new(),
            seen_tx_hashes: AddressMap::new(),
        }
    }

    /// Handles a transaction received from gossip.
    pub fn on_transaction(&mut self, tx: SignedTransaction) -> (r: Result<(), NodeError>)
        requires
            old(self).wf(),
        ensures
            final(self).wf(),
            transaction_received(*old(self), *final(self), tx, r),
    {
        let tx_hash = tx.tx.hash();
        if self.seen_tx_hashes.contains_key(&tx_hash) {
            return Err(NodeError::TransactionAlreadySeen);
        }
        match self.mempool.insert_transaction(&self.chain.state, tx) {
            Err(e) => {
                return Err(NodeError::MempoolError(e));
            },
            Ok(()) => {},
        }
        self.seen_tx_hashes.insert(tx_hash, ());
        Ok(())
    }

    /// Handles a block received from gossip.
    #[verifier::rlimit(50)]
    pub fn on_block(&mut self, block: Block) -> (r: Result<(), NodeError>)
        requires
            old(self).wf(),
        ensures
            final(self).wf(),
            block_received(*old(self), *final(self), block, r),
    {
        let ghost bv = block@;
        let block_hash = block.hash();
        if self.seen_block_hashes.contains_key(&block_hash) {
            return Err(NodeError::BlockAlreadySeen);
        }
        let mined = block.transactions.clone();
        assert(mined@ =~= bv.transactions);
        match self.chain.insert_block(block) {
            Err(e) => {
                return Err(NodeError::ChainError(e));
            },
            Ok(()) => {},
        }
        self.seen_block_hashes.insert(block_hash, ());
        let ghost mv0 = self.mempool@;
        let ghost mid = *self;
        assert(mid.chain.wf() && mid.seen_block_hashes.wf() && mid.seen_tx_hashes.wf());
        let n = mined.len();
        let mut i: usize = 0;
        assert(mined@.take(0) =~= Seq::<SignedTransaction>::empty());
        while i < n
            invariant
                n == mined@.len(),
                0 <= i <= n,
                self.mempool.wf(),
                self.mempool@ == forget_all_mined(mv0, mined@.take(i as int)),
                self.chain == mid.chain,
                self.seen_block_hashes == mid.seen_block_hashes,
                self.seen_tx_hashes == mid.seen_tx_hashes,
                self.peer_list == mid.peer_list,
            decreases n - i,
        {
            forget_mined_tx(&mut self.mempool, &mined[i]);
            proof {
                assert(mined@.take(i + 1).drop_last() =~= mined@.take(i as int));
            }
            i = i + 1;
        }
        assert(mined@.take(n as int) =~= mined@);
        Ok(())
    }

    /// One round of block production: assembles a block on the tip from the
    /// mempool, searches nonces upward from zero for proof of work, and hands
    /// the mined block to `on_block` as any received block. Nothing changes
    /// when assembly would overflow a balance or no nonce gives proof of work.
    pub fn produce_block(&mut self, producer: Address) -> (r: MiningRound)
        requires
            old(self).wf(),
        ensures
            final(self).wf(),
            ({
                let l = old(self).chain.state@;
                let pools = old(self).mempool.pools();
                let ab = assembled_block(l, old(self).chain.tip, pools, producer);
                match r {
                    MiningRound::Overflow => assemble_spec(l, pools).2 && *final(self) == *old(
                        self,
                    ),
                    MiningRound::Exhausted => {
                        &&& !assemble_spec(l, pools).2
                        &&& forall|n: u64| !#[trigger] meets_difficulty(block_hash(with_nonce(ab, n)))
                        &&& *final(self) == *old(self)
                    },
                    MiningRound::Mined(b, res) => {
                        &&& !assemble_spec(l, pools).2
                        &&& first_pow(ab, b@)
                        &&& block_received(*old(self), *final(self), b, res)
                    },
                }
            }),
    {
        let assembled = assemble_block(&self.chain.state, self.chain.tip, &self.mempool, producer);
        match assembled {
            None => MiningRound::Overflow,
            Some(block) => {
                let mut block = block;
                let ghost ab = block@;
                let found = mining(&mut block);
                match found {
                    Err(()) => {
                        proof {
                            assert forall|n: u64| !#[trigger] meets_difficulty(
                                block_hash(with_nonce(ab, n)),
                            ) by {
                                if n == u64::MAX {
                                    assert(with_nonce(ab, n) == block@);
                                }
                            }
                        }
                        MiningRound::Exhausted
                    },
                    Ok(()) => {
                        let res = self.on_block(block.clone());
                        MiningRound::Mined(block, res)
                    },
                }
            },
        }
    }

    /// Dispatches a gossip message to `on_transaction` or `on_block`.
    pub fn handle_gossip(&mut self, gossip: Gossip) -> (r: Result<(), NodeError>)
        requires
            old(self).wf(),
        ensures
            final(self).wf(),
            match gossip.data {
                GossipData::Transaction(tx) => transaction_received(*old(self), *final(self), tx, r),
                GossipData::Block(b) => block_received(*old(self), *final(self), b, r),
            },
    {
        match gossip.data {
            GossipData::Transaction(tx) => self.on_transaction(tx),
            GossipData::Block(block) => self.on_block(block),
        }
    }
}

} // verus!
