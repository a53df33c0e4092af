use vstd::prelude::*;
use crate::ledger::address_map::{keys_equal, AddressMap};
use crate::ledger::block::{block_hash, Block, BlockMeta, BlockView};
use crate::ledger::pow::{meets_difficulty, valid_pow};
use crate::ledger::replay::{
    apply_block_spec, apply_txs, as_result, credit, credit_fits, fees_of, lemma_apply_txs_stops,
    lemma_replay_stops, lemma_valid_is_ready, replay, ReplayError,
};
use crate::ledger::state::{value_or_zero, apply, apply_ready, Ledger, State};
use crate::ledger::transaction::{validate, validate_spec, ValidationError};
use crate::ledger::laws::{
    law_insert_keeps_shape, law_insert_keeps_state_replayed, law_new_chain_shape,
    law_new_chain_state_replayed, law_reorg_keeps_state_replayed, state_replayed,
};
use crate::ledger::types::{genesis_hash, zero_address, zero_array, zero_bytes32, BlockHash};

verus! {

/// Why a block was not added, or why switching to a new tip failed.
#[derive(Debug, Clone, Copy, PartialEq, Eq, Structural)]
pub enum ChainError {
    InvalidPreviousHash,
    InvalidPoW,
    UnknownParent,
    DuplicateBlock,
    TransactionValidationFailed(ValidationError),
    /// Replaying the chain would take a balance, or a block's fee total,
    /// past `u64::MAX`.
    BalanceOverflow,
}

/// The chain error reporting a failed replay.
pub open spec fn chain_error_of(e: ReplayError) -> ChainError {
    match e {
        ReplayError::Invalid(v) => ChainError::TransactionValidationFailed(v),
        ReplayError::Overflow => ChainError::BalanceOverflow,
    }
}

/// A chain as a mathematical value: the block tree, the metadata of each
/// block, the canonical tip, the genesis ledger and the current ledger.
pub struct ChainView {
    pub blocks: Map<Seq<u8>, BlockView>,
    pub meta: Map<Seq<u8>, BlockMeta>,
    pub tip: Seq<u8>,
    pub genesis: Ledger,
    pub state: Ledger,
}

/// The metadata recorded for a genesis block.
pub open spec fn genesis_meta() -> BlockMeta {
    BlockMeta { height: 0, parent: zero_array(), total_work: 0 }
}

/// The block used as genesis when none is given.
pub open spec fn default_genesis() -> BlockView {
    BlockView { prev_hash: zero_array(), producer: zero_array(), nonce: 0, transactions: Seq::empty() }
}

/// Shape of the block metadata: a block of height zero has the all-zero
/// parent and no work; any other block has a recorded parent one lower; the
/// accumulated work equals the height.
pub open spec fn meta_wf(meta: Map<Seq<u8>, BlockMeta>) -> bool {
    forall|k: Seq<u8>|
        #[trigger] meta.contains_key(k) ==> {
            let m = meta[k];
            &&& m.total_work == m.height
            &&& m.height == 0 ==> m.parent@ == zero_bytes32()
            &&& m.height > 0 ==> meta.contains_key(m.parent@) && meta[m.parent@].height + 1
                == m.height
        }
}

/// How many steps remain when walking parents from `h` back to the all-zero hash.
pub open spec fn chain_measure(meta: Map<Seq<u8>, BlockMeta>, h: Seq<u8>) -> nat {
    if h == zero_bytes32() || !meta.contains_key(h) {
        0
    } else {
        meta[h].height as nat + 1
    }
}

/// The hashes met walking parents from `h`, oldest first, for at most `fuel` steps.
pub open spec fn path_from(meta: Map<Seq<u8>, BlockMeta>, h: Seq<u8>, fuel: nat) -> Seq<Seq<u8>>
    decreases fuel,
{
    if fuel == 0 || h == zero_bytes32() {
        Seq::empty()
    } else {
        path_from(meta, meta[h].parent@, (fuel - 1) as nat).push(h)
    }
}

/// The hashes from the genesis block up to and including `h`.
pub open spec fn ancestry(meta: Map<Seq<u8>, BlockMeta>, h: Seq<u8>) -> Seq<Seq<u8>> {
    path_from(meta, h, chain_measure(meta, h))
}

/// The blocks from the genesis block up to and including `h`.
pub open spec fn path_blocks(v: ChainView, h: Seq<u8>) -> Seq<BlockView> {
    ancestry(v.meta, h).map_values(|k: Seq<u8>| v.blocks[k])
}

/// Switching to `new_tip`: the state is replayed from genesis along the path
/// to `new_tip`. When every block on it applies, the tip moves and the state
/// is the replayed one; otherwise nothing changes.
pub open spec fn reorg_spec(v: ChainView, new_tip: Seq<u8>) -> (ChainView, Result<(), ChainError>) {
    let (l, e) = replay(v.genesis, path_blocks(v, new_tip));
    match e {
        None => (
            ChainView { blocks: v.blocks, meta: v.meta, tip: new_tip, genesis: v.genesis, state: l },
            Ok(()),
        ),
        Some(err) => (v, Err(chain_error_of(err))),
    }
}

/// Adding a block: duplicates, blocks without proof of work and blocks with
/// an unknown parent are refused in that order; otherwise the block is stored
/// one above its parent, and the chain switches to it when it carries more
/// accumulated work than the current tip. A block whose switch fails is
/// rejected: the chain is left as it was.
pub open spec fn insert_spec(v: ChainView, b: BlockView) -> (ChainView, Result<(), ChainError>) {
    let h = block_hash(b);
    if v.blocks.contains_key(h) {
        (v, Err(ChainError::DuplicateBlock))
    } else if !meets_difficulty(h) {
        (v, Err(ChainError::InvalidPoW))
    } else if !v.blocks.contains_key(b.prev_hash@) {
        (v, Err(ChainError::UnknownParent))
    } else {
        let pm = v.meta[b.prev_hash@];
        let m = BlockMeta {
            height: (pm.height + 1) as u64,
            parent: b.prev_hash,
            total_work: (pm.total_work + 1) as u128,
        };
        let v1 = ChainView {
            blocks: v.blocks.insert(h, b),
            meta: v.meta.insert(h, m),
            tip: v.tip,
            genesis: v.genesis,
            state: v.state,
        };
        if m.total_work > v.meta[v.tip].total_work {
            let (v2, r) = reorg_spec(v1, h);
            if r is Ok {
                (v2, r)
            } else {
                (v, r)
            }
        } else {
            (v1, Ok(()))
        }
    }
}

/// The tip names a stored block (it can also be the all-zero hash, after a
/// switch back to before genesis).
pub open spec fn tip_stored(v: ChainView) -> bool {
    v.meta.contains_key(v.tip)
}

/// Adding `b` gets past the duplicate, proof-of-work and parent checks to
/// the comparison with the tip's work.
pub open spec fn reaches_fork_choice(v: ChainView, b: BlockView) -> bool {
    let h = block_hash(b);
    !v.blocks.contains_key(h) && meets_difficulty(h) && v.blocks.contains_key(b.prev_hash@)
}

/// Adds blocks in order, stopping at the first one refused.
pub open spec fn insert_all(v: ChainView, bs: Seq<BlockView>) -> (ChainView, Result<(), ChainError>)
    decreases bs.len(),
{
    if bs.len() == 0 {
        (v, Ok(()))
    } else {
        let (v1, r) = insert_all(v, bs.drop_last());
        if r is Err {
            (v1, r)
        } else {
            insert_spec(v1, bs.last())
        }
    }
}

/// A new chain holding only its genesis block, with the genesis ledger as state.
pub open spec fn new_spec(l: Ledger, b: BlockView) -> ChainView {
    let h = block_hash(b);
    ChainView {
        blocks: Map::empty().insert(h, b),
        meta: Map::empty().insert(h, genesis_meta()),
        tip: h,
        genesis: l,
        state: l,
    }
}

/// The genesis block `from_blocks` uses: the first stored block, or the
/// default genesis block.
pub open spec fn stored_genesis(bs: Seq<BlockView>) -> BlockView {
    if bs.len() == 0 {
        default_genesis()
    } else {
        bs[0]
    }
}

/// The blocks `from_blocks` adds after the genesis block.
pub open spec fn stored_rest(bs: Seq<BlockView>) -> Seq<BlockView> {
    if bs.len() == 0 {
        Seq::empty()
    } else {
        bs.skip(1)
    }
}

/// Once adding a prefix has failed, adding the whole sequence gives the same result.
pub proof fn lemma_insert_all_stops(v: ChainView, bs: Seq<BlockView>, k: int)
    requires
        0 <= k <= bs.len(),
        insert_all(v, bs.take(k)).1 is Err,
    ensures
        insert_all(v, bs) == insert_all(v, bs.take(k)),
    decreases bs.len() - k,
{
    if k < bs.len() {
        assert(bs.take(k + 1).drop_last() =~= bs.take(k));
        lemma_insert_all_stops(v, bs, k + 1);
    } else {
        assert(bs.take(k) =~= bs);
    }
}

/// The shape of a chain's block tree: every stored block has metadata shaped
/// as `meta_wf` says, is stored under its own hash, and names its recorded
/// parent; the tip is stored.
pub open spec fn chain_shape(v: ChainView) -> bool {
    &&& v.blocks.dom() == v.meta.dom()
    &&& meta_wf(v.meta)
    &&& forall|k: Seq<u8>| #[trigger] v.blocks.contains_key(k) ==> block_hash(v.blocks[k]) == k
    &&& forall|k: Seq<u8>|
        #[trigger] v.meta.contains_key(k) && v.meta[k].height > 0 ==> v.blocks[k].prev_hash
            == v.meta[k].parent
    &&& v.meta.contains_key(v.tip)
}

/// No stored block carries more accumulated work than the tip.
pub open spec fn tip_heaviest(v: ChainView) -> bool {
    forall|k: Seq<u8>| #[trigger] v.meta.contains_key(k) ==> v.meta[k].total_work <= v.meta[v.tip].total_work
}

/// One step of the parent walk.
pub proof fn lemma_ancestry_step(meta: Map<Seq<u8>, BlockMeta>, k: Seq<u8>)
    requires
        meta_wf(meta),
        meta.contains_key(k),
        k != zero_bytes32(),
    ensures
        ancestry(meta, k) == ancestry(meta, meta[k].parent@).push(k),
        chain_measure(meta, meta[k].parent@) < chain_measure(meta, k),
        meta[k].parent@ == zero_bytes32() || meta.contains_key(meta[k].parent@),
{
    let p = meta[k].parent@;
    assert(meta.contains_key(k));
    if meta[k].height == 0 {
        assert(path_from(meta, p, 0) =~= Seq::<Seq<u8>>::empty());
    } else if p == zero_bytes32() {
        assert(path_from(meta, p, meta[k].height as nat) =~= Seq::<Seq<u8>>::empty());
    }
}

/// The hashes of `p` in reverse order.
pub open spec fn rev_views(p: Seq<[u8; 32]>) -> Seq<Seq<u8>> {
    Seq::new(p.len(), |i: int| p[p.len() - 1 - i]@)
}

/// Hashes from `tip` back towards genesis; reversed, they are the ancestry of `tip`.
fn ancestry_path(meta: &AddressMap<BlockMeta>, tip: &BlockHash) -> (path: Vec<BlockHash>)
    requires
        meta.wf(),
        meta_wf(meta@),
        meta@.contains_key(tip@) || tip@ == zero_bytes32(),
    ensures
        rev_views(path@) == ancestry(meta@, tip@),
        forall|j: int| 0 <= j < path@.len() ==> meta@.contains_key(#[trigger] path@[j]@),
{
    let mut path: Vec<BlockHash> = Vec::new();
    let mut cursor: BlockHash = *tip;
    let zero = genesis_hash();
    assert(rev_views(path@) =~= Seq::<Seq<u8>>::empty());
    while !keys_equal(&cursor, &zero)
        invariant
            meta.wf(),
            meta_wf(meta@),
            zero@ == zero_bytes32(),
            cursor@ == zero_bytes32() || meta@.contains_key(cursor@),
            ancestry(meta@, tip@) == ancestry(meta@, cursor@) + rev_views(path@),
            forall|j: int| 0 <= j < path@.len() ==> meta@.contains_key(#[trigger] path@[j]@),
        decreases chain_measure(meta@, cursor@),
    {
        proof {
            lemma_ancestry_step(meta@, cursor@);
        }
        let ghost old_path = path@;
        path.push(cursor);
        let m = meta.get(&cursor);
        let parent = match m {
            Some(m) => m.parent,
            None => cursor,
        };
        proof {
            assert(rev_views(path@) =~= seq![cursor@] + rev_views(old_path));
            assert(ancestry(meta@, cursor@) + rev_views(old_path) =~= ancestry(meta@, parent@)
                + rev_views(path@));
        }
        cursor = parent;
    }
    proof {
        assert(ancestry(meta@, cursor@) =~= Seq::<Seq<u8>>::empty());
        assert(ancestry(meta@, tip@) =~= rev_views(path@));
    }
    path
}

/// The blocks named by `hs`, in order.
pub open spec fn blocks_along(blocks: Map<Seq<u8>, Block>, hs: Seq<Seq<u8>>) -> Seq<BlockView> {
    hs.map_values(|k: Seq<u8>| blocks[k]@)
}

/// Applies one block to the state. On failure the state is left well formed
/// but unspecified; the caller restores it.
fn replay_block(state: &mut State, block: &Block) -> (r: Result<(), ReplayError>)
    requires
        old(state).wf(),
    ensures
        final(state).wf(),
        r == as_result(apply_block_spec(old(state)@, block@).1),
        r is Ok ==> final(state)@ == apply_block_spec(old(state)@, block@).0,
        r is Ok ==> final(state).total_balance() == old(state).total_balance(),
{
    let ghost l0 = state@;
    let ghost t0 = state.total_balance();
    let ghost txs = block.transactions@;
    let n = block.transactions.len();
    let mut fees: u64 = 0;
    let mut fees_fit = true;
    let mut i: usize = 0;
    assert(txs.take(0) =~= Seq::empty());
    while i < n
        invariant
            state.wf(),
            n == txs.len(),
            txs == block.transactions@,
            0 <= i <= n,
            l0 == old(state)@,
            t0 == old(state).total_balance(),
            apply_txs(l0, txs.take(i as int)) == (state@, None::<ReplayError>),
            fees_fit ==> fees == fees_of(txs.take(i as int)),
            !fees_fit ==> fees_of(txs.take(i as int)) > u64::MAX,
            state.total_balance() + fees_of(txs.take(i as int)) == t0,
        decreases n - i,
    {
        let tx = &block.transactions[i];
        proof {
            assert(txs.take(i + 1).drop_last() =~= txs.take(i as int));
            assert(txs.take(i + 1).last() == *tx);
        }
        match validate(state, tx) {
            Err(e) => {
                proof {
                    assert(apply_txs(l0, txs.take(i + 1)) == (state@, Some(ReplayError::Invalid(e))));
                    lemma_apply_txs_stops(l0, txs, i + 1);
                }
                return Err(ReplayError::Invalid(e));
            },
            Ok(()) => {},
        }
        if !keys_equal(&tx.tx.to, &tx.tx.from) {
            let receiver_balance = match state.balances.get(&tx.tx.to) {
                Some(b) => *b,
                None => 0,
            };
            if receiver_balance > u64::MAX - tx.tx.amount {
                proof {
                    assert(!credit_fits(state@, *tx));
                    assert(apply_txs(l0, txs.take(i + 1)) == (state@, Some(ReplayError::Overflow)));
                    lemma_apply_txs_stops(l0, txs, i + 1);
                }
                return Err(ReplayError::Overflow);
            }
        }
        proof {
            assert(credit_fits(state@, *tx));
            lemma_valid_is_ready(state@, *tx);
        }
        apply(state, tx);
        if fees_fit {
            match fees.checked_add(tx.tx.fee) {
                Some(f) => {
                    fees = f;
                },
                None => {
                    fees_fit = false;
                },
            }
        }
        i = i + 1;
    }
    proof {
        assert(txs.take(n as int) =~= txs);
    }
    if !fees_fit {
        return Err(ReplayError::Overflow);
    }
    let producer_balance = match state.balances.get(&block.producer) {
        Some(b) => *b,
        None => 0,
    };
    if producer_balance > u64::MAX - fees {
        return Err(ReplayError::Overflow);
    }
    state.balances.set_amount(block.producer, producer_balance + fees);
    proof {
        let l1 = apply_txs(l0, txs).0;
        assert(state@.balances =~= credit(l1, block.producer@, fees_of(txs)).balances);
    }
    Ok(())
}

/// Resets `state` to `genesis` and replays the blocks of `path` (newest first).
fn replay_path(
    state: &mut State,
    genesis: &State,
    blocks: &AddressMap<Block>,
    path: &Vec<BlockHash>,
) -> (r: Result<(), ReplayError>)
    requires
        genesis.wf(),
        blocks.wf(),
        forall|j: int| 0 <= j < path@.len() ==> blocks@.contains_key(#[trigger] path@[j]@),
    ensures
        final(state).wf(),
        r == as_result(replay(genesis@, blocks_along(blocks@, rev_views(path@))).1),
        r is Ok ==> final(state)@ == replay(genesis@, blocks_along(blocks@, rev_views(path@))).0,
        r is Ok ==> final(state).total_balance() == genesis.total_balance(),
{
    *state = genesis.clone();
    let ghost pb = blocks_along(blocks@, rev_views(path@));
    let n = path.len();
    let mut k: usize = 0;
    assert(pb.take(0) =~= Seq::empty());
    while k < n
        invariant
            state.wf(),
            genesis.wf(),
            blocks.wf(),
            n == path@.len(),
            pb == blocks_along(blocks@, rev_views(path@)),
            forall|j: int| 0 <= j < path@.len() ==> blocks@.contains_key(#[trigger] path@[j]@),
            0 <= k <= n,
            replay(genesis@, pb.take(k as int)) == (state@, None::<ReplayError>),
            state.total_balance() == genesis.total_balance(),
        decreases n - k,
    {
        let idx = n - 1 - k;
        let found = blocks.get(&path[idx]);
        proof {
            assert(blocks@.contains_key(path@[idx as int]@));
            assert(pb[k as int] == blocks@[path@[idx as int]@]@);
            assert(pb.take(k + 1).drop_last() =~= pb.take(k as int));
        }
        match found {
            Some(block) => {
                let ghost before = state@;
                match replay_block(state, block) {
                    Err(e) => {
                        proof {
                            assert(replay(genesis@, pb.take(k + 1)).1 == Some(e));
                            lemma_replay_stops(genesis@, pb, k + 1);
                        }
                        return Err(e);
                    },
                    Ok(()) => {},
                }
            },
            None => {},
        }
        k = k + 1;
    }
    assert(pb.take(n as int) =~= pb);
    Ok(())
}

/// Adds `blocks[1..]` to `chain` in order, stopping at the first refused.
#[verifier::loop_isolation(false)]
#[verifier::rlimit(100)]
pub(crate) fn insert_stored(chain: Chain, blocks: &Vec<Block>) -> (r: Result<Chain, ChainError>)
    requires
        chain.wf(),
        tip_stored(chain@),
    ensures
        ({
            let bs = blocks@.map_values(|b: Block| b@);
            let (v, res) = insert_all(chain@, stored_rest(bs));
            match r {
                Ok(c) => c.wf() && tip_stored(c@) && res is Ok && c@ == v,
                Err(e) => res == Err::<(), ChainError>(e),
            }
        }),
{
    let ghost bs = blocks@.map_values(|b: Block| b@);
    let ghost v0 = chain@;
    let ghost rest = stored_rest(bs);
    let mut chain = chain;
    let n = blocks.len();
    let mut i: usize = 1;
    assert(rest.take(0) =~= Seq::empty());
    while i < n
        invariant
            n == blocks@.len(),
            bs == blocks@.map_values(|b: Block| b@),
            rest == stored_rest(bs),
            1 <= i,
            i <= n || n == 0,
            chain.wf(),
            tip_stored(chain@),
            n == 0 ==> chain@ == v0,
            n > 0 ==> insert_all(v0, rest.take(i - 1)) == (chain@, Ok::<(), ChainError>(())),
        decreases n - i,
    {
        let b = blocks[i].clone();
        proof {
            assert(rest[i - 1] == bs[i as int]);
            assert(b@ == rest[i - 1]);
            assert(rest.take(i as int).drop_last() =~= rest.take(i - 1));
            assert(rest.take(i as int).last() == rest[i - 1]);
        }
        let res = chain.insert_block(b);
        proof {
            assert(insert_all(v0, rest.take(i as int)) == (chain@, res));
        }
        match res {
            Err(e) => {
                proof {
                    lemma_insert_all_stops(v0, rest, i as int);
                }
                return Err(e);
            },
            Ok(()) => {},
        }
        i = i + 1;
    }
    proof {
        if n > 0 {
            assert(rest.take(n - 1) =~= rest);
        } else {
            assert(rest =~= Seq::<BlockView>::empty());
        }
    }
    Ok(chain)
}

/// The block tree with fork choice by accumulated work, and the state
/// reached by replaying the canonical chain from genesis.
pub struct Chain {
    pub blocks: AddressMap<Block>,
    pub meta: AddressMap<BlockMeta>,
    pub tip: BlockHash,
    pub genesis_state: State,
    pub state: State,
}

impl View for Chain {
    type V = ChainView;

    open spec fn view(&self) -> ChainView {
        ChainView {
            blocks: self.blocks@.map_values(|b: Block| b@),
            meta: self.meta@,
            tip: self.tip@,
            genesis: self.genesis_state@,
            state: self.state@,
        }
    }
}

impl Chain {
    /// The chain's invariant: every stored block has metadata and the
    /// metadata is shaped as `meta_wf` says, each block's parent hash is its
    /// recorded parent, heights stay below the number of blocks, the tip is
    /// stored (or is the all-zero hash, after a switch back to before
    /// genesis), one block at most has height zero, every block is stored
    /// under its own hash, and the state holds exactly the value the genesis
    /// ledger holds.
    pub open spec fn wf(&self) -> bool {
        &&& self.blocks.wf()
        &&& self.meta.wf()
        &&& self.genesis_state.wf()
        &&& self.state.wf()
        &&& self.blocks@.dom() == self.meta@.dom()
        &&& meta_wf(self.meta@)
        &&& forall|k: Seq<u8>| #[trigger]
            self.meta@.contains_key(k) ==> self.meta@[k].height < self.meta.val_seq().len()
        &&& forall|k: Seq<u8>|
            #[trigger] self.meta@.contains_key(k) && self.meta@[k].height > 0 ==> self.blocks@[k].prev_hash
                == self.meta@[k].parent
        &&& forall|k: Seq<u8>| #[trigger]
            self.blocks@.contains_key(k) ==> block_hash(self.blocks@[k]@) == k
        &&& (self.meta@.contains_key(self.tip@) || self.tip@ == zero_bytes32())
        &&& forall|k1: Seq<u8>, k2: Seq<u8>|
            #[trigger] self.meta@.contains_key(k1) && #[trigger] self.meta@.contains_key(k2)
                && self.meta@[k1].height == 0 && self.meta@[k2].height == 0 ==> k1 == k2
        &&& self.state.total_balance() == self.genesis_state.total_balance()
    }

    /// A well-formed chain has the shape `chain_shape` states.
    pub proof fn lemma_shape(&self)
        requires
            self.wf(),
            tip_stored(self@),
        ensures
            chain_shape(self@),
    {
        assert(self@.blocks.dom() =~= self@.meta.dom());
    }

    /// Adding a block to a well-formed chain keeps the tip the heaviest block
    /// and the state accounted for by the blocks, where they were before.
    proof fn lemma_insert_keeps_laws(&self, b: BlockView)
        requires
            self.wf(),
            tip_stored(self@),
        ensures
            tip_heaviest(self@) ==> tip_heaviest(insert_spec(self@, b).0),
            state_replayed(self@) ==> state_replayed(insert_spec(self@, b).0),
    {
        self.lemma_shape();
        self.meta.lemma_len_fits();
        assert forall|k: Seq<u8>| #[trigger] self@.meta.contains_key(k) implies self@.meta[k].height
            < u64::MAX by {
            assert(self.meta@.contains_key(k));
        }
        law_insert_keeps_shape(self@, b);
        if state_replayed(self@) {
            law_insert_keeps_state_replayed(self@, b);
        }
    }

    /// A chain that holds only `genesis_block`; the state is the genesis
    /// state (the genesis block's transactions are not applied).
    pub fn new(genesis_state: State, genesis_block: Block) -> (c: Self)
        requires
            genesis_state.wf(),
        ensures
            c.wf(),
            c@ == new_spec(genesis_state@, genesis_block@),
            c.genesis_state.total_balance() == genesis_state.total_balance(),
            tip_heaviest(c@),
            state_replayed(c@),
    {
        let ghost gb = genesis_block@;
        let hash = genesis_block.hash();
        let mut blocks: AddressMap<Block> = AddressMap::new();
        let mut meta: AddressMap<BlockMeta> = AddressMap::new();
        blocks.insert(hash, genesis_block);
        meta.insert(hash, BlockMeta { height: 0, parent: genesis_hash(), total_work: 0 });
        let c = Chain {
            blocks,
            meta,
            tip: hash,
            genesis_state: genesis_state.clone(),
            state: genesis_state,
        };
        proof {
            assert(c@.blocks =~= new_spec(genesis_state@, gb).blocks);
            assert(c@.meta =~= new_spec(genesis_state@, gb).meta);
            law_new_chain_shape(genesis_state@, gb);
            law_new_chain_state_replayed(genesis_state@, gb);
        }
        c
    }

    /// Builds a chain from stored blocks: the first is the genesis block (or
    /// the default genesis block when there are none) and the rest are added
    /// in order with `insert_block`.
    pub fn from_blocks(genesis_state: State, blocks: Vec<Block>) -> (r: Result<Self, ChainError>)
        requires
            genesis_state.wf(),
        ensures
            ({
                let bs = blocks@.map_values(|b: Block| b@);
                let (v, res) = insert_all(
                    new_spec(genesis_state@, stored_genesis(bs)),
                    stored_rest(bs),
                );
                match r {
                    Ok(c) => c.wf() && tip_stored(c@) && res is Ok && c@ == v,
                    Err(e) => res == Err::<(), ChainError>(e),
                }
            }),
    {
        let ghost bs = blocks@.map_values(|b: Block| b@);
        let n = blocks.len();
        let genesis_block = if n == 0 {
            Block {
                prev_hash: genesis_hash(),
                producer: zero_address(),
                nonce: 0,
                transactions: Vec::new(),
            }
        } else {
            blocks[0].clone()
        };
        proof {
            if n == 0 {
                assert(genesis_block@ =~= default_genesis());
            } else {
                assert(genesis_block@ == bs[0]);
            }
            assert(genesis_block@ == stored_genesis(bs));
        }
        let chain = Chain::new(genesis_state, genesis_block);
        insert_stored(chain, &blocks)
    }

    /// Stores a block with its metadata; the block is not yet stored and its
    /// parent is.
    fn store_block(&mut self, hash: BlockHash, block: Block, new_meta: BlockMeta)
        requires
            old(self).wf(),
            hash@ == block_hash(block@),
            !old(self)@.blocks.contains_key(hash@),
            old(self)@.meta.contains_key(block.prev_hash@),
            new_meta.parent == block.prev_hash,
            new_meta.height == old(self)@.meta[block.prev_hash@].height + 1,
            new_meta.total_work == old(self)@.meta[block.prev_hash@].total_work + 1,
        ensures
            final(self).wf(),
            final(self)@ == (ChainView {
                blocks: old(self)@.blocks.insert(hash@, block@),
                meta: old(self)@.meta.insert(hash@, new_meta),
                tip: old(self)@.tip,
                genesis: old(self)@.genesis,
                state: old(self)@.state,
            }),
            final(self).meta.val_seq().len() == old(self).meta.val_seq().len() + 1,
    {
        let ghost v = self@;
        let ghost bv = block@;
        let ghost old_meta_len = self.meta.val_seq().len();
        proof {
            self.meta.lemma_seqs();
        }
        self.blocks.insert(hash, block);
        self.meta.insert(hash, new_meta);
        proof {
            self.meta.lemma_seqs();
            assert(self.meta.val_seq().len() == old_meta_len + 1);
            assert(self@.blocks =~= v.blocks.insert(hash@, bv));
            assert forall|k: Seq<u8>| #[trigger] self.meta@.contains_key(k) implies {
                let m = self.meta@[k];
                &&& m.total_work == m.height
                &&& m.height == 0 ==> m.parent@ == zero_bytes32()
                &&& m.height > 0 ==> self.meta@.contains_key(m.parent@)
                    && self.meta@[m.parent@].height + 1 == m.height
            } by {
                if k != hash@ {
                    assert(v.meta.contains_key(k));
                    let m = v.meta[k];
                    if m.height > 0 {
                        assert(v.meta.contains_key(m.parent@));
                    }
                }
            }
            assert forall|k: Seq<u8>| #[trigger]
                self.meta@.contains_key(k) implies self.meta@[k].height < self.meta.val_seq().len() by {
                if k != hash@ {
                    assert(v.meta.contains_key(k));
                }
            }
            assert(self.blocks@.dom() =~= self.meta@.dom());
            assert forall|k: Seq<u8>| #[trigger]
                self.blocks@.contains_key(k) implies block_hash(self.blocks@[k]@) == k by {
                if k != hash@ {
                    assert(v.blocks.contains_key(k));
                }
            }
        }
    }

    /// Takes back a block just stored by `store_block`.
    #[verifier::rlimit(50)]
    fn unstore_block(&mut self, hash: &BlockHash, Ghost(prev): Ghost<ChainView>, Ghost(prev_len): Ghost<nat>)
        requires
            old(self).wf(),
            !prev.blocks.contains_key(hash@),
            old(self)@.blocks == prev.blocks.insert(hash@, old(self)@.blocks[hash@]),
            old(self)@.meta == prev.meta.insert(hash@, old(self)@.meta[hash@]),
            old(self)@.tip == prev.tip,
            old(self)@.genesis == prev.genesis,
            old(self)@.state == prev.state,
            old(self).meta.val_seq().len() == prev_len + 1,
            prev.blocks.dom() == prev.meta.dom(),
            meta_wf(prev.meta),
            forall|k: Seq<u8>| #[trigger] prev.meta.contains_key(k) ==> prev.meta[k].height < prev_len,
            forall|k: Seq<u8>|
                #[trigger] prev.meta.contains_key(k) && prev.meta[k].height > 0 ==> prev.blocks[k].prev_hash
                    == prev.meta[k].parent,
            forall|k: Seq<u8>| #[trigger] prev.blocks.contains_key(k) ==> block_hash(prev.blocks[k]) == k,
            prev.meta.contains_key(prev.tip),
        ensures
            final(self).wf(),
            final(self)@ == prev,
    {
        let ghost mb = self.blocks@;
        let ghost ov = self@;
        self.blocks.remove(hash);
        self.meta.remove(hash);
        proof {
            assert(self.blocks@ == mb.remove(hash@));
            assert forall|k: Seq<u8>| #[trigger] self@.blocks.contains_key(k) == prev.blocks.contains_key(k)
                && (self@.blocks.contains_key(k) ==> self@.blocks[k] == prev.blocks[k]) by {
                if k != hash@ {
                    assert(self@.blocks.contains_key(k) == mb.contains_key(k));
                    assert(ov.blocks.contains_key(k) == prev.blocks.contains_key(k));
                    if mb.contains_key(k) {
                        assert(self@.blocks[k] == mb[k]@);
                        assert(ov.blocks[k] == mb[k]@);
                    }
                }
            }
            assert(self@.blocks =~= prev.blocks);
            assert(self@.meta =~= prev.meta);
            assert(self.meta.val_seq().len() == prev_len);
        }
    }

    /// Adds a block: refused when already stored, without proof of work, or
    /// with an unknown parent; otherwise stored one above its parent, and the
    /// chain switches to it when its accumulated work exceeds the tip's. When
    /// that switch fails the block is rejected and the chain is left as it was.
    pub fn insert_block(&mut self, block: Block) -> (r: Result<(), ChainError>)
        requires
            old(self).wf(),
            reaches_fork_choice(old(self)@, block@) ==> tip_stored(old(self)@),
        ensures
            final(self).wf(),
            tip_stored(old(self)@) ==> tip_stored(final(self)@),
            (final(self)@, r) == insert_spec(old(self)@, block@),
            final(self).state.total_balance() == final(self).genesis_state.total_balance(),
            tip_heaviest(old(self)@) ==> tip_heaviest(final(self)@),
            state_replayed(old(self)@) ==> state_replayed(final(self)@),
    {
        let hash = block.hash();
        if self.blocks.contains_key(&hash) {
            return Err(ChainError::DuplicateBlock);
        }
        if !valid_pow(&block) {
            return Err(ChainError::InvalidPoW);
        }
        if !self.blocks.contains_key(&block.prev_hash) {
            return Err(ChainError::UnknownParent);
        }
        self.attach_block(hash, block)
    }

    /// The part of `insert_block` after the checks: stores the block and
    /// switches to it when it carries more work than the tip.
    fn attach_block(&mut self, hash: BlockHash, block: Block) -> (r: Result<(), ChainError>)
        requires
            old(self).wf(),
            tip_stored(old(self)@),
            reaches_fork_choice(old(self)@, block@),
            hash@ == block_hash(block@),
        ensures
            final(self).wf(),
            tip_stored(final(self)@),
            (final(self)@, r) == insert_spec(old(self)@, block@),
            final(self).state.total_balance() == final(self).genesis_state.total_balance(),
            tip_heaviest(old(self)@) ==> tip_heaviest(final(self)@),
            state_replayed(old(self)@) ==> state_replayed(final(self)@),
    {
        let ghost v = self@;
        let ghost bv = block@;
        let ghost old_len = self.meta.val_seq().len();
        let parent_hash = block.prev_hash;
        proof {
            assert(v.blocks.dom() =~= v.meta.dom());
            assert(self.meta@.contains_key(parent_hash@));
            self.meta.lemma_len_fits();
            self.lemma_insert_keeps_laws(bv);
        }
        let parent_meta = match self.meta.get(&parent_hash) {
            Some(m) => *m,
            None => BlockMeta { height: 0, parent: parent_hash, total_work: 0 },
        };
        let height = parent_meta.height + 1;
        let total_work = parent_meta.total_work + block.work();
        let new_meta = BlockMeta { height, parent: parent_hash, total_work };
        self.store_block(hash, block, new_meta);
        let ghost v1 = self@;
        proof {
            assert(v1 == (ChainView {
                blocks: v.blocks.insert(hash@, bv),
                meta: v.meta.insert(hash@, new_meta),
                tip: v.tip,
                genesis: v.genesis,
                state: v.state,
            }));
        }
        let tip_work = match self.meta.get(&self.tip) {
            Some(m) => m.total_work,
            None => 0,
        };
        proof {
            assert(hash@ != v.tip);
            assert(tip_work == v.meta[v.tip].total_work);
        }
        if total_work > tip_work {
            let r = self.reorg_to(hash);
            proof {
                assert(insert_spec(v, bv) == (if r is Ok { reorg_spec(v1, hash@) } else { (v, r) }));
            }
            match r {
                Ok(()) => Ok(()),
                Err(e) => {
                    self.unstore_block(&hash, Ghost(v), Ghost(old_len));
                    Err(e)
                },
            }
        } else {
            proof {
                assert(insert_spec(v, bv) == (v1, Ok::<(), ChainError>(())));
            }
            Ok(())
        }
    }

    /// Replays the state from genesis along the path to `new_tip` and, when
    /// every block on it applies, makes `new_tip` the tip; otherwise the chain
    /// is left exactly as it was.
    pub fn reorg_to(&mut self, new_tip: BlockHash) -> (r: Result<(), ChainError>)
        requires
            old(self).wf(),
            old(self)@.meta.contains_key(new_tip@) || new_tip@ == zero_bytes32(),
        ensures
            final(self).wf(),
            tip_stored(old(self)@) && old(self)@.meta.contains_key(new_tip@) ==> tip_stored(
                final(self)@,
            ),
            (final(self)@, r) == reorg_spec(old(self)@, new_tip@),
            final(self).meta.val_seq() == old(self).meta.val_seq(),
            final(self).state.total_balance() == final(self).genesis_state.total_balance(),
            state_replayed(old(self)@) ==> state_replayed(final(self)@),
    {
        let ghost v = self@;
        proof {
            if state_replayed(v) {
                law_reorg_keeps_state_replayed(v, new_tip@);
            }
        }
        let saved = self.state.clone();
        let path = ancestry_path(&self.meta, &new_tip);
        proof {
            assert forall|j: int| 0 <= j < path@.len() implies self.blocks@.contains_key(
                #[trigger] path@[j]@,
            ) by {
                assert(self.meta@.contains_key(path@[j]@));
            }
            assert(blocks_along(self.blocks@, rev_views(path@)) =~= path_blocks(v, new_tip@));
        }
        let res = replay_path(&mut self.state, &self.genesis_state, &self.blocks, &path);
        match res {
            Ok(()) => {
                self.tip = new_tip;
                Ok(())
            },
            Err(e) => {
                self.state = saved;
                match e {
                    ReplayError::Invalid(err) => Err(ChainError::TransactionValidationFailed(err)),
                    ReplayError::Overflow => Err(ChainError::BalanceOverflow),
                }
            },
        }
    }
}

} // verus!
