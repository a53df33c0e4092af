//! Properties of the ledger that span several operations.
use vstd::prelude::*;
use crate::ledger::block::{BlockMeta, BlockView};
use crate::ledger::consensus::{
    ancestry, chain_measure, chain_shape, insert_all, insert_spec, meta_wf, new_spec, path_blocks, path_from, reorg_spec, tip_heaviest,
    ChainError, ChainView,
};
use crate::ledger::types::zero_bytes32;
use crate::ledger::encoding::{block_bytes, lemma_block_bytes_injective};
use crate::ledger::pow::meets_difficulty;
use crate::ledger::mempool::{
    MempoolError, lemma_take_valid_replays, take_valid,
    assemble_spec, assembled_block, cost, costs_of, insert_spec as mempool_insert_spec, pool_has_nonce,
    Mempool,
};
use crate::crypto::signature::{address_of, ed25519_verifies};
use crate::ledger::transaction::transaction_hash;
use crate::ledger::types::{Address, BlockHash};
use crate::ledger::replay::{credit_fits, apply_block_spec, apply_txs, fees_of, replay, ReplayError};
use crate::ledger::state::{apply_ready, apply_spec, Ledger};
use crate::ledger::transaction::{validate_spec, SignedTransaction, ValidationError};

verus! {

/// Determinism: two chains with the same genesis ledger whose paths to the
/// chosen tips carry the same blocks reach the same outcome, and on success
/// the same state.
pub proof fn law_deterministic_replay(v1: ChainView, t1: Seq<u8>, v2: ChainView, t2: Seq<u8>)
    requires
        v1.genesis == v2.genesis,
        path_blocks(v1, t1) == path_blocks(v2, t2),
    ensures
        reorg_spec(v1, t1).1 == reorg_spec(v2, t2).1,
        reorg_spec(v1, t1).1 is Ok ==> reorg_spec(v1, t1).0.state == reorg_spec(v2, t2).0.state,
{
}

/// Replayability: after a successful switch to a tip, the state is the
/// genesis ledger with the blocks from genesis to the tip applied in order.
pub proof fn law_replayability(v: ChainView, new_tip: Seq<u8>)
    requires
        reorg_spec(v, new_tip).1 is Ok,
    ensures
        ({
            let post = reorg_spec(v, new_tip).0;
            &&& post.tip == new_tip
            &&& post.state == replay(post.genesis, path_blocks(post, post.tip)).0
            &&& replay(post.genesis, path_blocks(post, post.tip)).1 is None
        }),
{
}

/// No double spend: once a valid transaction has been applied, the same
/// transaction is refused for its nonce.
pub proof fn law_no_double_spend(l: Ledger, stx: SignedTransaction)
    requires
        validate_spec(l, stx) is Ok,
    ensures
        validate_spec(apply_spec(l, stx), stx) == Err::<(), ValidationError>(
            ValidationError::InvalidNonce,
        ),
{
    let l2 = apply_spec(l, stx);
    let from = stx.tx.from@;
    assert(l2.balances.contains_key(from));
    assert(l2.nonces.contains_key(from));
    assert(l2.nonces[from] == l.nonces[from] + 1);
}

/// An invalid transaction changes nothing: applying a sequence that ends in
/// it leaves the ledger the sequence before it reached, and reports why.
pub proof fn law_invalid_transaction_changes_nothing(
    l: Ledger,
    txs: Seq<SignedTransaction>,
    stx: SignedTransaction,
)
    requires
        apply_txs(l, txs).1 is None,
        validate_spec(apply_txs(l, txs).0, stx) is Err,
    ensures
        apply_txs(l, txs.push(stx)) == (
            apply_txs(l, txs).0,
            Some(ReplayError::Invalid(validate_spec(apply_txs(l, txs).0, stx)->Err_0)),
        ),
{
    assert(txs.push(stx).drop_last() =~= txs);
}

/// Fork choice: after a block is added, the tip carries at least as much
/// accumulated work as before, and at least as much as the new block.
pub proof fn law_fork_choice(v: ChainView, b: BlockView)
    requires
        v.blocks.dom() == v.meta.dom(),
        v.meta.contains_key(v.tip),
        insert_spec(v, b).1 is Ok,
    ensures
        ({
            let post = insert_spec(v, b).0;
            let h = crate::ledger::block::block_hash(b);
            &&& post.meta.contains_key(post.tip)
            &&& post.meta[post.tip].total_work >= v.meta[v.tip].total_work
            &&& post.meta.contains_key(h)
            &&& post.meta[post.tip].total_work >= post.meta[h].total_work
        }),
{
    let h = crate::ledger::block::block_hash(b);
    assert(!v.blocks.contains_key(h));
    assert(h != v.tip);
}

/// A block's hash commits to the whole block: the bytes it digests differ
/// for any two different blocks, in the previous hash, the producer, the
/// nonce or the transactions. In particular proof of work found for one
/// producer is found for that producer's block only.
pub proof fn law_block_encoding_injective(b1: BlockView, b2: BlockView)
    requires
        b1 != b2,
    ensures
        block_bytes(b1) != block_bytes(b2),
{
    if block_bytes(b1) == block_bytes(b2) {
        lemma_block_bytes_injective(b1, b2);
    }
}

/// Block assembly depends on the pending transactions only through what
/// the mempool holds: two mempools with the same queues give the same queue
/// order, and so the same assembled block on the same state and tip.
pub proof fn law_assembly_deterministic(
    m1: Mempool,
    m2: Mempool,
    l: Ledger,
    tip: BlockHash,
    producer: Address,
)
    requires
        m1.wf(),
        m2.wf(),
        m1@ == m2@,
    ensures
        m1.pools() == m2.pools(),
        assemble_spec(l, m1.pools()) == assemble_spec(l, m2.pools()),
        assembled_block(l, tip, m1.pools(), producer) == assembled_block(l, tip, m2.pools(), producer),
{
    assert forall|k: Seq<u8>| m1.by_account@.contains_key(k) <==> m2.by_account@.contains_key(k) by {
        assert(m1.by_account@.contains_key(k) <==> m1@.contains_key(k));
        assert(m2.by_account@.contains_key(k) <==> m2@.contains_key(k));
    }
    assert(m1.by_account@.dom() =~= m2.by_account@.dom());
    m1.by_account.lemma_view_determines(&m2.by_account);
    m1.by_account.lemma_seqs();
    m2.by_account.lemma_seqs();
    let (k1, k2) = (m1.by_account.key_seq(), m2.by_account.key_seq());
    assert forall|i: int| 0 <= i < m1.pools().len() implies m1.pools()[i] == m2.pools()[i] by {
        assert(m1.by_account@.contains_key(k1[i]));
        assert(m2.by_account@.contains_key(k2[i]));
        assert(m1@[k1[i]] == m2@[k2[i]]);
    }
    assert(m1.pools() =~= m2.pools());
}

/// A refused block changes nothing: the chain view stays as it was.
pub proof fn law_refused_block_changes_nothing(v: ChainView, b: BlockView)
    requires
        insert_spec(v, b).1 is Err,
    ensures
        insert_spec(v, b).0 == v,
{
}

/// A failed switch changes nothing: the chain view stays as it was.
pub proof fn law_failed_reorg_changes_nothing(v: ChainView, t: Seq<u8>)
    requires
        reorg_spec(v, t).1 is Err,
    ensures
        reorg_spec(v, t).0 == v,
{
}

/// A new chain has the block-tree shape and its tip is the heaviest block.
pub proof fn law_new_chain_shape(l: Ledger, b: BlockView)
    ensures
        chain_shape(new_spec(l, b)),
        tip_heaviest(new_spec(l, b)),
{
    let v = new_spec(l, b);
    let z = vstd::array::spec_array_fill_for_copy_type::<u8, 32>(0u8);
    assert(z@.len() == 32);
    assert(z@ =~= zero_bytes32());
    assert(v.blocks.dom() =~= v.meta.dom());
}

/// The chain view with block `b` stored one above its parent.
pub open spec fn stored_view(v: ChainView, b: BlockView) -> ChainView {
    let h = crate::ledger::block::block_hash(b);
    let pm = v.meta[b.prev_hash@];
    ChainView {
        blocks: v.blocks.insert(h, b),
        meta: v.meta.insert(
            h,
            BlockMeta {
                height: (pm.height + 1) as u64,
                parent: b.prev_hash,
                total_work: (pm.total_work + 1) as u128,
            },
        ),
        tip: v.tip,
        genesis: v.genesis,
        state: v.state,
    }
}

/// Every stored block's height is below `n`.
pub open spec fn heights_below(meta: Map<Seq<u8>, BlockMeta>, n: int) -> bool {
    forall|k: Seq<u8>| #[trigger] meta.contains_key(k) ==> meta[k].height < n
}

proof fn lemma_meta_insert(meta: Map<Seq<u8>, BlockMeta>, h: Seq<u8>, p: Seq<u8>, nm: BlockMeta)
    requires
        meta_wf(meta),
        !meta.contains_key(h),
        meta.contains_key(p),
        nm.height == meta[p].height + 1,
        nm.parent@ == p,
        nm.total_work == nm.height,
    ensures
        meta_wf(meta.insert(h, nm)),
{
    let m1 = meta.insert(h, nm);
    assert forall|k: Seq<u8>| #[trigger] m1.contains_key(k) implies {
        let mk = m1[k];
        &&& mk.total_work == mk.height
        &&& mk.height == 0 ==> mk.parent@ == zero_bytes32()
        &&& mk.height > 0 ==> m1.contains_key(mk.parent@) && m1[mk.parent@].height + 1 == mk.height
    } by {
        if k != h {
            assert(meta.contains_key(k));
            if meta[k].height > 0 {
                assert(meta.contains_key(meta[k].parent@));
            }
        }
    }
}

proof fn lemma_stored_meta(v: ChainView, b: BlockView)
    requires
        chain_shape(v),
        heights_below(v.meta, u64::MAX as int),
        !v.blocks.contains_key(crate::ledger::block::block_hash(b)),
        v.blocks.contains_key(b.prev_hash@),
    ensures
        meta_wf(stored_view(v, b).meta),
        stored_view(v, b).meta[crate::ledger::block::block_hash(b)].height
            == v.meta[b.prev_hash@].height + 1,
{
    let h = crate::ledger::block::block_hash(b);
    let p = b.prev_hash@;
    assert(v.meta.contains_key(p));
    let pm = v.meta[p];
    assert(pm.height < u64::MAX);
    let nm = stored_view(v, b).meta[h];
    lemma_meta_insert(v.meta, h, p, nm);
}

proof fn lemma_stored_links(v: ChainView, b: BlockView)
    requires
        chain_shape(v),
        !v.blocks.contains_key(crate::ledger::block::block_hash(b)),
    ensures
        forall|k: Seq<u8>| #[trigger]
            stored_view(v, b).blocks.contains_key(k) ==> crate::ledger::block::block_hash(
                stored_view(v, b).blocks[k],
            ) == k,
        forall|k: Seq<u8>| #[trigger]
            stored_view(v, b).meta.contains_key(k) && stored_view(v, b).meta[k].height > 0
                ==> stored_view(v, b).blocks[k].prev_hash == stored_view(v, b).meta[k].parent,
{
    let h = crate::ledger::block::block_hash(b);
    let v1 = stored_view(v, b);
    assert forall|k: Seq<u8>| #[trigger] v1.blocks.contains_key(k) implies crate::ledger::block::block_hash(
        v1.blocks[k],
    ) == k by {
        if k != h {
            assert(v.blocks.contains_key(k));
        }
    }
    assert forall|k: Seq<u8>|
        #[trigger] v1.meta.contains_key(k) && v1.meta[k].height > 0 implies v1.blocks[k].prev_hash
        == v1.meta[k].parent by {
        if k != h {
            assert(v.meta.contains_key(k));
        }
    }
}

proof fn lemma_stored_shape(v: ChainView, b: BlockView)
    requires
        chain_shape(v),
        heights_below(v.meta, u64::MAX as int),
        !v.blocks.contains_key(crate::ledger::block::block_hash(b)),
        v.blocks.contains_key(b.prev_hash@),
    ensures
        chain_shape(stored_view(v, b)),
        tip_heaviest(v) ==> forall|k: Seq<u8>| #[trigger]
            stored_view(v, b).meta.contains_key(k) && k != crate::ledger::block::block_hash(b)
                ==> stored_view(v, b).meta[k].total_work <= v.meta[v.tip].total_work,
{
    let h = crate::ledger::block::block_hash(b);
    let v1 = stored_view(v, b);
    assert(v1.blocks.dom() =~= v1.meta.dom());
    lemma_stored_meta(v, b);
    lemma_stored_links(v, b);
    if tip_heaviest(v) {
        assert forall|k: Seq<u8>| #[trigger]
            v1.meta.contains_key(k) && k != h implies v1.meta[k].total_work
            <= v.meta[v.tip].total_work by {
            assert(v.meta.contains_key(k));
        }
    }
}

proof fn lemma_reorg_parts(v: ChainView, t: Seq<u8>)
    ensures
        reorg_spec(v, t).0.blocks == v.blocks,
        reorg_spec(v, t).0.meta == v.meta,
        reorg_spec(v, t).1 is Ok ==> reorg_spec(v, t).0.tip == t,
        reorg_spec(v, t).1 is Err ==> reorg_spec(v, t).0 == v,
{
}

/// The three outcomes of adding a block: nothing changes; the block is
/// stored without moving the tip; or the block is stored and the chain
/// switches to it.
pub open spec fn insert_outcome(v: ChainView, b: BlockView, post: ChainView) -> bool {
    let h = crate::ledger::block::block_hash(b);
    let v1 = stored_view(v, b);
    ||| post == v
    ||| (!v.blocks.contains_key(h) && v.blocks.contains_key(b.prev_hash@)
        && v1.meta[h].total_work <= v.meta[v.tip].total_work && post == v1)
    ||| (!v.blocks.contains_key(h) && v.blocks.contains_key(b.prev_hash@)
        && v1.meta[h].total_work > v.meta[v.tip].total_work && post.blocks == v1.blocks
        && post.meta == v1.meta && post.tip == h)
}

proof fn lemma_insert_cases(v: ChainView, b: BlockView)
    ensures
        insert_outcome(v, b, insert_spec(v, b).0),
{
    let h = crate::ledger::block::block_hash(b);
    if !v.blocks.contains_key(h) && meets_difficulty(h) && v.blocks.contains_key(b.prev_hash@) {
        let v1 = stored_view(v, b);
        if v1.meta[h].total_work > v.meta[v.tip].total_work {
            lemma_reorg_parts(v1, h);
        }
    }
}

proof fn lemma_outcome_shape(v: ChainView, b: BlockView, post: ChainView, n: int)
    requires
        chain_shape(v),
        heights_below(v.meta, n),
        n <= u64::MAX,
        insert_outcome(v, b, post),
    ensures
        chain_shape(post),
        heights_below(post.meta, n + 1),
        tip_heaviest(v) ==> tip_heaviest(post),
{
    let h = crate::ledger::block::block_hash(b);
    if post != v {
        let v1 = stored_view(v, b);
        lemma_stored_shape(v, b);
        assert(v.meta.contains_key(b.prev_hash@));
        assert(v.meta.contains_key(v.tip) && v.blocks.contains_key(v.tip) && v.tip != h);
        assert forall|k: Seq<u8>| #[trigger] post.meta.contains_key(k) implies post.meta[k].height
            < n + 1 by {
            if k != h {
                assert(v.meta.contains_key(k));
            }
        }
        if tip_heaviest(v) {
            assert(v.meta.contains_key(v.tip));
            assert forall|k: Seq<u8>| #[trigger] post.meta.contains_key(k) implies post.meta[k].total_work
                <= post.meta[post.tip].total_work by {
                if k != h {
                    assert(v1.meta.contains_key(k) && k != h);
                }
            }
        }
    }
}

/// Adding a block keeps the block-tree shape, and keeps the tip the
/// heaviest block, as long as block heights fit in a `u64`.
pub proof fn law_insert_keeps_shape(v: ChainView, b: BlockView)
    requires
        chain_shape(v),
        heights_below(v.meta, u64::MAX as int),
    ensures
        chain_shape(insert_spec(v, b).0),
        tip_heaviest(v) ==> tip_heaviest(insert_spec(v, b).0),
{
    lemma_insert_cases(v, b);
    lemma_outcome_shape(v, b, insert_spec(v, b).0, u64::MAX as int);
}

proof fn lemma_insert_step(v: ChainView, b: BlockView, n: int)
    requires
        chain_shape(v),
        tip_heaviest(v),
        heights_below(v.meta, n),
        n <= u64::MAX,
    ensures
        chain_shape(insert_spec(v, b).0),
        tip_heaviest(insert_spec(v, b).0),
        heights_below(insert_spec(v, b).0.meta, n + 1),
{
    lemma_insert_cases(v, b);
    lemma_outcome_shape(v, b, insert_spec(v, b).0, n);
}

proof fn lemma_all_step(
    prev: (ChainView, Result<(), ChainError>),
    b: BlockView,
    post: (ChainView, Result<(), ChainError>),
    n: int,
)
    requires
        chain_shape(prev.0),
        tip_heaviest(prev.0),
        heights_below(prev.0.meta, n),
        n <= u64::MAX,
        post == (if prev.1 is Err { prev } else { insert_spec(prev.0, b) }),
    ensures
        chain_shape(post.0),
        tip_heaviest(post.0),
        heights_below(post.0.meta, n + 1),
{
    if prev.1 is Ok {
        lemma_insert_step(prev.0, b, n);
    } else {
        assert forall|k: Seq<u8>| #[trigger] post.0.meta.contains_key(k) implies post.0.meta[k].height
            < n + 1 by {}
    }
}

proof fn lemma_insert_all_shape(v: ChainView, bs: Seq<BlockView>, n: int)
    requires
        chain_shape(v),
        tip_heaviest(v),
        heights_below(v.meta, n),
        n + bs.len() <= u64::MAX,
    ensures
        chain_shape(insert_all(v, bs).0),
        tip_heaviest(insert_all(v, bs).0),
        heights_below(insert_all(v, bs).0.meta, n + bs.len()),
    decreases bs.len(),
{
    if bs.len() > 0 {
        let rest = bs.drop_last();
        lemma_insert_all_shape(v, rest, n);
        lemma_all_step(insert_all(v, rest), bs.last(), insert_all(v, bs), n + rest.len());
    }
}

/// A chain built by adding blocks in order, starting from a chain with the
/// block-tree shape whose tip is the heaviest block, keeps both, as long as
/// block heights fit in a `u64`.
pub proof fn law_insert_all_keeps_shape(v: ChainView, bs: Seq<BlockView>)
    requires
        chain_shape(v),
        tip_heaviest(v),
        heights_below(v.meta, u64::MAX - bs.len()),
    ensures
        chain_shape(insert_all(v, bs).0),
        tip_heaviest(insert_all(v, bs).0),
{
    lemma_insert_all_shape(v, bs, u64::MAX - bs.len());
}

/// The state a chain holds is accounted for by its blocks: either the tip is
/// a genesis block and the state is the genesis ledger, or the state is the
/// genesis ledger with every block from genesis to the tip applied in order.
pub open spec fn state_replayed(v: ChainView) -> bool {
    ||| (v.meta.contains_key(v.tip) && v.meta[v.tip].height == 0 && v.state == v.genesis)
    ||| (replay(v.genesis, path_blocks(v, v.tip)).1 is None && v.state == replay(
        v.genesis,
        path_blocks(v, v.tip),
    ).0)
}

proof fn lemma_path_from_insert(
    meta: Map<Seq<u8>, BlockMeta>,
    h: Seq<u8>,
    m: BlockMeta,
    k: Seq<u8>,
    fuel: nat,
)
    requires
        meta_wf(meta),
        !meta.contains_key(h),
        meta.contains_key(k) || k == zero_bytes32(),
    ensures
        path_from(meta.insert(h, m), k, fuel) == path_from(meta, k, fuel),
        forall|j: int|
            0 <= j < path_from(meta, k, fuel).len() ==> meta.contains_key(
                #[trigger] path_from(meta, k, fuel)[j],
            ),
    decreases fuel,
{
    if fuel > 0 && k != zero_bytes32() {
        let p = meta[k].parent@;
        assert(meta.insert(h, m)[k] == meta[k]);
        lemma_path_from_insert(meta, h, m, p, (fuel - 1) as nat);
        let rest = path_from(meta, p, (fuel - 1) as nat);
        assert forall|j: int| 0 <= j < rest.push(k).len() implies meta.contains_key(
            #[trigger] rest.push(k)[j],
        ) by {
            if j < rest.len() {
                assert(rest.push(k)[j] == rest[j]);
            }
        }
    }
}

/// Storing a block that is not yet stored leaves the blocks on the path to
/// any stored block as they were.
proof fn lemma_path_blocks_stored(v: ChainView, b: BlockView, k: Seq<u8>)
    requires
        chain_shape(v),
        !v.blocks.contains_key(crate::ledger::block::block_hash(b)),
        v.meta.contains_key(k),
    ensures
        path_blocks(stored_view(v, b), k) == path_blocks(v, k),
{
    let h = crate::ledger::block::block_hash(b);
    let v1 = stored_view(v, b);
    let m = v1.meta[h];
    assert(v1.meta == v.meta.insert(h, m));
    assert(v1.meta[k] == v.meta[k]);
    assert(chain_measure(v1.meta, k) == chain_measure(v.meta, k));
    lemma_path_from_insert(v.meta, h, m, k, chain_measure(v.meta, k));
    let a = ancestry(v.meta, k);
    assert(ancestry(v1.meta, k) == a);
    assert forall|j: int| 0 <= j < a.len() implies v1.blocks[a[j]] == v.blocks[a[j]] by {
        assert(v.meta.contains_key(a[j]));
        assert(v.blocks.contains_key(a[j]));
    }
    assert(path_blocks(v1, k) =~= path_blocks(v, k));
}

/// The outcomes of adding a block, with the switch's result spelled out.
pub open spec fn state_outcome(v: ChainView, b: BlockView, post: ChainView) -> bool {
    let h = crate::ledger::block::block_hash(b);
    let v1 = stored_view(v, b);
    ||| post == v
    ||| (!v.blocks.contains_key(h) && v.blocks.contains_key(b.prev_hash@) && post == v1)
    ||| (!v.blocks.contains_key(h) && v.blocks.contains_key(b.prev_hash@)
        && reorg_spec(v1, h).1 is Ok && post == reorg_spec(v1, h).0)
}

proof fn lemma_insert_state_cases(v: ChainView, b: BlockView)
    ensures
        state_outcome(v, b, insert_spec(v, b).0),
{
}

proof fn lemma_outcome_replayed(v: ChainView, b: BlockView, post: ChainView)
    requires
        chain_shape(v),
        state_replayed(v),
        state_outcome(v, b, post),
    ensures
        state_replayed(post),
{
    let h = crate::ledger::block::block_hash(b);
    if post != v {
        let v1 = stored_view(v, b);
        if post == v1 {
            assert(v.blocks.contains_key(v.tip) && v.tip != h);
            lemma_path_blocks_stored(v, b, v.tip);
            assert(v1.meta[v.tip] == v.meta[v.tip]);
        } else {
            law_replayability(v1, h);
        }
    }
}

/// Adding a block keeps the state accounted for by the blocks from genesis
/// to the tip.
pub proof fn law_insert_keeps_state_replayed(v: ChainView, b: BlockView)
    requires
        chain_shape(v),
        state_replayed(v),
    ensures
        state_replayed(insert_spec(v, b).0),
{
    lemma_insert_state_cases(v, b);
    lemma_outcome_replayed(v, b, insert_spec(v, b).0);
}

/// A new chain's state is accounted for by its blocks.
pub proof fn law_new_chain_state_replayed(l: Ledger, b: BlockView)
    ensures
        state_replayed(new_spec(l, b)),
{
}

/// A switch to another tip keeps the state accounted for by the blocks.
pub proof fn law_reorg_keeps_state_replayed(v: ChainView, t: Seq<u8>)
    requires
        state_replayed(v),
    ensures
        state_replayed(reorg_spec(v, t).0),
{
    if reorg_spec(v, t).1 is Ok {
        law_replayability(v, t);
    }
}

proof fn lemma_all_step_replayed(
    prev: (ChainView, Result<(), ChainError>),
    b: BlockView,
    post: (ChainView, Result<(), ChainError>),
    n: int,
)
    requires
        chain_shape(prev.0),
        heights_below(prev.0.meta, n),
        n <= u64::MAX,
        state_replayed(prev.0),
        post == (if prev.1 is Err { prev } else { insert_spec(prev.0, b) }),
    ensures
        chain_shape(post.0),
        heights_below(post.0.meta, n + 1),
        state_replayed(post.0),
{
    if prev.1 is Ok {
        lemma_insert_cases(prev.0, b);
        lemma_outcome_shape(prev.0, b, post.0, n);
        lemma_insert_state_cases(prev.0, b);
        lemma_outcome_replayed(prev.0, b, post.0);
    } else {
        assert forall|k: Seq<u8>| #[trigger] post.0.meta.contains_key(k) implies post.0.meta[k].height
            < n + 1 by {}
    }
}

proof fn lemma_insert_all_replayed(v: ChainView, bs: Seq<BlockView>, n: int)
    requires
        chain_shape(v),
        heights_below(v.meta, n),
        n + bs.len() <= u64::MAX,
        state_replayed(v),
    ensures
        chain_shape(insert_all(v, bs).0),
        heights_below(insert_all(v, bs).0.meta, n + bs.len()),
        state_replayed(insert_all(v, bs).0),
    decreases bs.len(),
{
    if bs.len() > 0 {
        let rest = bs.drop_last();
        lemma_insert_all_replayed(v, rest, n);
        lemma_all_step_replayed(insert_all(v, rest), bs.last(), insert_all(v, bs), n + rest.len());
    }
}

/// Adding blocks in order, as rebuilding a chain from storage does, keeps
/// the state accounted for by the blocks from genesis to the tip, as long
/// as block heights fit in a `u64`.
pub proof fn law_insert_all_keeps_state_replayed(v: ChainView, bs: Seq<BlockView>)
    requires
        chain_shape(v),
        heights_below(v.meta, u64::MAX - bs.len()),
        state_replayed(v),
    ensures
        state_replayed(insert_all(v, bs).0),
{
    lemma_insert_all_replayed(v, bs, u64::MAX - bs.len());
}

/// Only the block `root` has height zero.
pub open spec fn only_root_at_zero(meta: Map<Seq<u8>, BlockMeta>, root: Seq<u8>) -> bool {
    forall|k: Seq<u8>| #[trigger] meta.contains_key(k) && meta[k].height == 0 ==> k == root
}

proof fn lemma_outcome_root(v: ChainView, b: BlockView, post: ChainView, n: int, root: Seq<u8>)
    requires
        chain_shape(v),
        heights_below(v.meta, n),
        n <= u64::MAX,
        insert_outcome(v, b, post),
        only_root_at_zero(v.meta, root),
    ensures
        only_root_at_zero(post.meta, root),
{
    let h = crate::ledger::block::block_hash(b);
    if post != v {
        assert(v.meta.contains_key(b.prev_hash@));
        assert(v.meta[b.prev_hash@].height < u64::MAX);
        assert forall|k: Seq<u8>| #[trigger] post.meta.contains_key(k) && post.meta[k].height == 0
            implies k == root by {
            if k != h {
                assert(v.meta.contains_key(k));
            }
        }
    }
}

proof fn lemma_all_step_root(
    prev: (ChainView, Result<(), ChainError>),
    b: BlockView,
    post: (ChainView, Result<(), ChainError>),
    n: int,
    root: Seq<u8>,
)
    requires
        chain_shape(prev.0),
        heights_below(prev.0.meta, n),
        n <= u64::MAX,
        only_root_at_zero(prev.0.meta, root),
        post == (if prev.1 is Err { prev } else { insert_spec(prev.0, b) }),
    ensures
        chain_shape(post.0),
        heights_below(post.0.meta, n + 1),
        only_root_at_zero(post.0.meta, root),
{
    if prev.1 is Ok {
        lemma_insert_cases(prev.0, b);
        lemma_outcome_shape(prev.0, b, post.0, n);
        lemma_outcome_root(prev.0, b, post.0, n, root);
    } else {
        assert forall|k: Seq<u8>| #[trigger] post.0.meta.contains_key(k) implies post.0.meta[k].height
            < n + 1 by {}
    }
}

proof fn lemma_insert_all_root(v: ChainView, bs: Seq<BlockView>, n: int, root: Seq<u8>)
    requires
        chain_shape(v),
        heights_below(v.meta, n),
        n + bs.len() <= u64::MAX,
        only_root_at_zero(v.meta, root),
    ensures
        chain_shape(insert_all(v, bs).0),
        heights_below(insert_all(v, bs).0.meta, n + bs.len()),
        only_root_at_zero(insert_all(v, bs).0.meta, root),
    decreases bs.len(),
{
    if bs.len() > 0 {
        let rest = bs.drop_last();
        lemma_insert_all_root(v, rest, n, root);
        lemma_all_step_root(insert_all(v, rest), bs.last(), insert_all(v, bs), n + rest.len(), root);
    }
}

/// A chain built from a genesis block `g` by adding blocks in order, as
/// `Chain::from_blocks` builds one, has the block-tree shape: every block is
/// stored under its own hash with metadata, the genesis block is the only
/// block of height zero, every other block links to a stored parent one
/// lower whose hash is its previous hash, the work of each block is its
/// height, the tip is the heaviest block, and the state is accounted for by
/// the blocks from genesis to the tip.
pub proof fn law_built_chain(l: Ledger, g: BlockView, bs: Seq<BlockView>)
    requires
        bs.len() < u64::MAX,
    ensures
        ({
            let post = insert_all(new_spec(l, g), bs).0;
            &&& chain_shape(post)
            &&& tip_heaviest(post)
            &&& only_root_at_zero(post.meta, crate::ledger::block::block_hash(g))
            &&& state_replayed(post)
        }),
{
    let v = new_spec(l, g);
    law_new_chain_shape(l, g);
    law_new_chain_state_replayed(l, g);
    assert(heights_below(v.meta, 1));
    assert(heights_below(v.meta, u64::MAX - bs.len()));
    lemma_insert_all_root(v, bs, 1, crate::ledger::block::block_hash(g));
    lemma_insert_all_shape(v, bs, 1);
    lemma_insert_all_replayed(v, bs, 1);
}

/// Applying a transfer moves exactly its amount and fee: the sender pays
/// amount plus fee and its nonce grows by one; a distinct receiver gains the
/// amount (starting from zero when it had no balance) and gets nonce zero
/// only when it had no nonce; every other account keeps its balance and
/// nonce, and no account disappears.
pub proof fn law_apply_effects(l: Ledger, stx: SignedTransaction)
    requires
        apply_ready(l, stx),
    ensures
        ({
            let post = apply_spec(l, stx);
            let (from, to) = (stx.tx.from@, stx.tx.to@);
            let (amount, fee) = (stx.tx.amount, stx.tx.fee);
            &&& post.balances.dom() == l.balances.dom().insert(to)
            &&& post.nonces.dom() == l.nonces.dom().insert(to)
            &&& to != from ==> post.balances[from] == l.balances[from] - amount - fee
            &&& to == from ==> post.balances[from] == l.balances[from] - fee
            &&& to != from && l.balances.contains_key(to) ==> post.balances[to] == l.balances[to]
                + amount
            &&& to != from && !l.balances.contains_key(to) ==> post.balances[to] == amount
            &&& post.nonces[from] == l.nonces[from] + 1
            &&& to != from && !l.nonces.contains_key(to) ==> post.nonces[to] == 0
            &&& forall|k: Seq<u8>|
                k != from && #[trigger] l.nonces.contains_key(k) ==> post.nonces[k] == l.nonces[k]
            &&& forall|k: Seq<u8>|
                k != from && k != to && #[trigger] l.balances.contains_key(k) ==> post.balances[k]
                    == l.balances[k]
        }),
{
    let post = apply_spec(l, stx);
    assert(post.balances.dom() =~= l.balances.dom().insert(stx.tx.to@));
    assert(post.nonces.dom() =~= l.nonces.dom().insert(stx.tx.to@));
}

/// When a transaction validates: its sender has a balance covering amount
/// plus fee (spending the whole balance included), its nonce is one above
/// the sender's, amount and fee are non-zero, the key belongs to the sender
/// and the signature verifies; and every such transaction validates.
pub proof fn law_validate_accepts(l: Ledger, stx: SignedTransaction)
    ensures
        validate_spec(l, stx) is Ok <==> {
            let (tx, from) = (stx.tx, stx.tx.from@);
            &&& l.balances.contains_key(from)
            &&& l.nonces.contains_key(from)
            &&& tx.nonce == l.nonces[from] + 1
            &&& tx.amount + tx.fee <= l.balances[from]
            &&& tx.amount > 0
            &&& tx.fee > 0
            &&& address_of(stx.public_key@) == from
            &&& ed25519_verifies(transaction_hash(tx), stx.signature@, stx.public_key@)
        },
{
}

/// Each refusal names a check that the transaction fails.
pub proof fn law_validate_errors(l: Ledger, stx: SignedTransaction)
    ensures
        ({
            let (tx, from) = (stx.tx, stx.tx.from@);
            match validate_spec(l, stx) {
                Ok(()) => true,
                Err(ValidationError::InsufficientBalance) => !(l.balances.contains_key(from)
                    && tx.amount + tx.fee <= l.balances[from]),
                Err(ValidationError::SenderAccountNotFound) => !l.balances.contains_key(from),
                Err(ValidationError::NonceNotFound) => !l.nonces.contains_key(from),
                Err(ValidationError::InvalidNonce) => !(l.nonces.contains_key(from) && tx.nonce
                    == l.nonces[from] + 1),
                Err(ValidationError::ZeroAmount) => tx.amount == 0,
                Err(ValidationError::ZeroFee) => tx.fee == 0,
                Err(ValidationError::InvalidPublicKey) => address_of(stx.public_key@) != from,
                Err(ValidationError::InvalidSignature) => !ed25519_verifies(
                    transaction_hash(tx),
                    stx.signature@,
                    stx.public_key@,
                ),
            }
        }),
{
}

/// Mempool admission: an admitted transaction joins the end of its sender's
/// queue, the other queues stay as they were, and the sender's balance covers
/// the summed amount plus fee of the whole resulting queue; a refused one
/// changes nothing.
pub proof fn law_admission_effects(
    mv: Map<Seq<u8>, Seq<SignedTransaction>>,
    l: Ledger,
    stx: SignedTransaction,
)
    ensures
        ({
            let (post, r) = mempool_insert_spec(mv, l, stx);
            let sender = stx.tx.from@;
            let pool = if mv.contains_key(sender) {
                mv[sender]
            } else {
                Seq::empty()
            };
            &&& r is Err ==> post == mv
            &&& r is Ok ==> {
                &&& validate_spec(l, stx) is Ok
                &&& post == mv.insert(sender, pool.push(stx))
                &&& l.balances.contains_key(sender)
                &&& costs_of(post[sender]) <= l.balances[sender]
                &&& !pool_has_nonce(pool, stx.tx.nonce)
                &&& stx.tx.nonce == (if pool.len() == 0 {
                    l.nonces[sender] + 1
                } else {
                    pool.last().tx.nonce + 1
                })
            }
        }),
{
    let sender = stx.tx.from@;
    let pool = if mv.contains_key(sender) {
        mv[sender]
    } else {
        Seq::empty()
    };
    assert(pool.push(stx).drop_last() =~= pool);
}

/// Mempool admission accepts every transaction that validates, follows its
/// sender's queue (or the sender's nonce when the queue is empty), is not
/// queued yet, and whose cost together with the queue's is covered by the
/// sender's balance.
pub proof fn law_admission_accepts(
    mv: Map<Seq<u8>, Seq<SignedTransaction>>,
    l: Ledger,
    stx: SignedTransaction,
)
    requires
        validate_spec(l, stx) is Ok,
        ({
            let sender = stx.tx.from@;
            let pool = if mv.contains_key(sender) {
                mv[sender]
            } else {
                Seq::empty()
            };
            &&& stx.tx.nonce > l.nonces[sender]
            &&& pool.len() == 0 ==> stx.tx.nonce == l.nonces[sender] + 1
            &&& pool.len() > 0 ==> stx.tx.nonce == pool.last().tx.nonce + 1
            &&& !pool_has_nonce(pool, stx.tx.nonce)
            &&& costs_of(pool) + cost(stx) <= l.balances[sender]
        }),
    ensures
        mempool_insert_spec(mv, l, stx).1 is Ok,
{
}

/// The order of the checks: the first one a transaction fails gives the
/// error.
pub proof fn law_validate_first_failure(l: Ledger, stx: SignedTransaction)
    ensures
        ({
            let (tx, from) = (stx.tx, stx.tx.from@);
            let r = validate_spec(l, stx);
            let fits = tx.amount + tx.fee <= u64::MAX;
            let known = fits && l.balances.contains_key(from);
            let has_nonce = known && l.nonces.contains_key(from);
            let next = has_nonce && tx.nonce == l.nonces[from] + 1;
            let covered = next && tx.amount + tx.fee <= l.balances[from];
            let nonzero = covered && tx.amount > 0;
            let paid = nonzero && tx.fee > 0;
            let owned = paid && address_of(stx.public_key@) == from;
            &&& !fits ==> r == Err::<(), ValidationError>(ValidationError::InsufficientBalance)
            &&& fits && !known ==> r == Err::<(), ValidationError>(ValidationError::SenderAccountNotFound)
            &&& known && !has_nonce ==> r == Err::<(), ValidationError>(ValidationError::NonceNotFound)
            &&& has_nonce && !next ==> r == Err::<(), ValidationError>(ValidationError::InvalidNonce)
            &&& next && !covered ==> r == Err::<(), ValidationError>(ValidationError::InsufficientBalance)
            &&& covered && !nonzero ==> r == Err::<(), ValidationError>(ValidationError::ZeroAmount)
            &&& nonzero && !paid ==> r == Err::<(), ValidationError>(ValidationError::ZeroFee)
            &&& paid && !owned ==> r == Err::<(), ValidationError>(ValidationError::InvalidPublicKey)
            &&& owned && !ed25519_verifies(transaction_hash(tx), stx.signature@, stx.public_key@)
                ==> r == Err::<(), ValidationError>(ValidationError::InvalidSignature)
        }),
{
}

/// Each refusal of mempool admission names what is wrong: the transaction
/// does not validate (with that error), its nonce is not above the sender's,
/// it does not follow its sender's queue, it is queued already, or the
/// sender's balance does not cover the queue with it.
pub proof fn law_admission_errors(
    mv: Map<Seq<u8>, Seq<SignedTransaction>>,
    l: Ledger,
    stx: SignedTransaction,
)
    ensures
        ({
            let (post, r) = mempool_insert_spec(mv, l, stx);
            let sender = stx.tx.from@;
            let n = stx.tx.nonce;
            let pool = if mv.contains_key(sender) {
                mv[sender]
            } else {
                Seq::empty()
            };
            &&& validate_spec(l, stx) is Err ==> r == Err::<(), MempoolError>(
                MempoolError::InvalidTransaction(validate_spec(l, stx)->Err_0),
            )
            &&& match r {
                Ok(()) => true,
                Err(MempoolError::InvalidTransaction(e)) => validate_spec(l, stx) == Err::<(), ValidationError>(e),
                Err(MempoolError::NonceTooLow) => validate_spec(l, stx) is Ok && n <= l.nonces[sender],
                Err(MempoolError::NonceGap) => validate_spec(l, stx) is Ok && n > l.nonces[sender] && n != (
                if pool.len() == 0 {
                    l.nonces[sender] + 1
                } else {
                    pool.last().tx.nonce + 1
                }),
                Err(MempoolError::DuplicateTransaction) => pool_has_nonce(pool, n),
                Err(MempoolError::InsufficientBalance) => validate_spec(l, stx) is Ok && costs_of(pool)
                    + cost(stx) > l.balances[sender],
            }
        }),
{
}

/// Fork choice is by strictly more work: an added block becomes the tip
/// exactly when its accumulated work exceeds the tip's; otherwise tip and
/// state stay as they were.
pub proof fn law_fork_choice_strict(v: ChainView, b: BlockView)
    requires
        insert_spec(v, b).1 is Ok,
    ensures
        ({
            let post = insert_spec(v, b).0;
            let h = crate::ledger::block::block_hash(b);
            &&& post.meta.contains_key(h)
            &&& post.meta[h].total_work > v.meta[v.tip].total_work ==> post.tip == h
            &&& post.meta[h].total_work <= v.meta[v.tip].total_work ==> post.tip == v.tip
                && post.state == v.state
        }),
{
}

/// A block that applies pays its producer: after its transactions, the
/// producer's balance grows by the sum of the block's fees (from zero when it
/// had none), and nothing else changes.
pub proof fn law_block_pays_producer(l: Ledger, b: BlockView)
    requires
        apply_block_spec(l, b).1 is None,
    ensures
        ({
            let mid = apply_txs(l, b.transactions);
            let post = apply_block_spec(l, b).0;
            let p = b.producer@;
            &&& mid.1 is None
            &&& post.balances.dom() == mid.0.balances.dom().insert(p)
            &&& post.nonces == mid.0.nonces
            &&& mid.0.balances.contains_key(p) ==> post.balances[p] == mid.0.balances[p] + fees_of(
                b.transactions,
            )
            &&& !mid.0.balances.contains_key(p) ==> post.balances[p] == fees_of(b.transactions)
            &&& forall|k: Seq<u8>|
                k != p && #[trigger] mid.0.balances.contains_key(k) ==> post.balances[k]
                    == mid.0.balances[k]
        }),
{
    let mid = apply_txs(l, b.transactions);
    let post = apply_block_spec(l, b).0;
    lemma_fees_nonneg(b.transactions);
    assert(post.balances.dom() =~= mid.0.balances.dom().insert(b.producer@));
}

proof fn lemma_fees_nonneg(txs: Seq<SignedTransaction>)
    ensures
        fees_of(txs) >= 0,
    decreases txs.len(),
{
    if txs.len() > 0 {
        lemma_fees_nonneg(txs.drop_last());
    }
}

/// Why a block is refused, and what adding one stores: a refused block was
/// already stored, lacks proof of work, has an unknown parent, or its path
/// from genesis does not replay; an added block is stored under its hash
/// above a stored parent and carries proof of work.
pub proof fn law_insert_outcome(v: ChainView, b: BlockView)
    ensures
        ({
            let (post, r) = insert_spec(v, b);
            let h = crate::ledger::block::block_hash(b);
            &&& (r == Err::<(), ChainError>(ChainError::DuplicateBlock)) == v.blocks.contains_key(h)
            &&& r == Err::<(), ChainError>(ChainError::InvalidPoW) ==> !v.blocks.contains_key(h)
                && !meets_difficulty(h)
            &&& r == Err::<(), ChainError>(ChainError::UnknownParent) ==> !v.blocks.contains_key(h)
                && meets_difficulty(h) && !v.blocks.contains_key(b.prev_hash@)
            &&& r is Ok ==> {
                &&& !v.blocks.contains_key(h)
                &&& meets_difficulty(h)
                &&& v.blocks.contains_key(b.prev_hash@)
                &&& post.blocks == v.blocks.insert(h, b)
                &&& post.meta.contains_key(h)
                &&& post.meta[h].parent == b.prev_hash
                &&& post.genesis == v.genesis
            }
            &&& (r matches Err(ChainError::TransactionValidationFailed(_)) || r == Err::<
                (),
                ChainError,
            >(ChainError::BalanceOverflow)) ==> {
                &&& !v.blocks.contains_key(h)
                &&& meets_difficulty(h)
                &&& v.blocks.contains_key(b.prev_hash@)
                &&& replay(v.genesis, path_blocks(stored_view(v, b), h)).1 is Some
            }
        }),
{
    let h = crate::ledger::block::block_hash(b);
    if !v.blocks.contains_key(h) && meets_difficulty(h) && v.blocks.contains_key(b.prev_hash@) {
        let v1 = stored_view(v, b);
        lemma_reorg_parts(v1, h);
    }
}

/// What block assembly takes from one queue: a prefix of it, which replays
/// without error from the ledger it starts on; it stops short only at a
/// transaction that does not validate against the ledger reached, or (with
/// the overflow flag set) at a valid one whose credit does not fit.
pub proof fn law_take_valid_prefix(l: Ledger, pool: Seq<SignedTransaction>)
    ensures
        ({
            let (l2, t, o) = take_valid(l, pool);
            &&& t.len() <= pool.len()
            &&& t == pool.take(t.len() as int)
            &&& apply_txs(l, t) == (l2, None::<ReplayError>)
            &&& t.len() == pool.len() ==> !o
            &&& t.len() < pool.len() && !o ==> validate_spec(l2, pool[t.len() as int]) is Err
            &&& o ==> t.len() < pool.len() && validate_spec(l2, pool[t.len() as int]) is Ok
                && !credit_fits(l2, pool[t.len() as int])
        }),
    decreases pool.len(),
{
    lemma_take_valid_replays(l, pool);
    if pool.len() > 0 && validate_spec(l, pool[0]) is Ok && credit_fits(l, pool[0]) {
        let rest = pool.drop_first();
        law_take_valid_prefix(apply_spec(l, pool[0]), rest);
        let (l2, t2, o2) = take_valid(apply_spec(l, pool[0]), rest);
        let t = seq![pool[0]] + t2;
        assert(t =~= pool.take(t.len() as int));
        if t.len() < pool.len() {
            assert(pool[t.len() as int] == rest[t2.len() as int]);
        }
    } else if pool.len() > 0 {
        assert(Seq::<SignedTransaction>::empty() =~= pool.take(0));
    } else {
        assert(Seq::<SignedTransaction>::empty() =~= pool.take(0));
    }
}

} // verus!
