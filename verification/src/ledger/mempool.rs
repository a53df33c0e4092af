use vstd::prelude::*;
use crate::ledger::address_map::AddressMap;
use crate::ledger::block::{Block, BlockView};
use crate::ledger::address_map::keys_equal;
use crate::ledger::replay::{apply_txs, credit_fits, lemma_valid_is_ready, ReplayError};
use crate::ledger::state::{value_or_zero, apply, apply_ready, apply_spec, Ledger, State};
use crate::ledger::transaction::{validate, validate_spec, SignedTransaction, ValidationError};
use crate::ledger::types::{Address, BlockHash};

verus! {

/// Why a transaction was not admitted to the mempool.
#[derive(Debug, Clone, Copy, PartialEq, Eq, Structural)]
pub enum MempoolError {
    InvalidTransaction(ValidationError),
    NonceTooLow,
    NonceGap,
    DuplicateTransaction,
    InsufficientBalance,
}

/// What a transaction costs its sender: amount plus fee.
pub open spec fn cost(stx: SignedTransaction) -> int {
    stx.tx.amount + stx.tx.fee
}

/// The summed cost of a sequence of transactions.
pub open spec fn costs_of(s: Seq<SignedTransaction>) -> int
    decreases s.len(),
{
    if s.len() == 0 {
        0
    } else {
        costs_of(s.drop_last()) + cost(s.last())
    }
}

/// A sender's pending transactions: nonces strictly ascending, each cost and
/// the summed cost fitting in a `u64`.
pub open spec fn pool_wf(s: Seq<SignedTransaction>) -> bool {
    &&& forall|i: int, j: int| 0 <= i < j < s.len() ==> #[trigger] s[i].tx.nonce < #[trigger] s[j].tx.nonce
    &&& forall|i: int| 0 <= i < s.len() ==> cost(#[trigger] s[i]) <= u64::MAX
    &&& costs_of(s) <= u64::MAX
}

/// Whether some pending transaction carries nonce `n`.
pub open spec fn pool_has_nonce(s: Seq<SignedTransaction>, n: u64) -> bool {
    exists|i: int| 0 <= i < s.len() && #[trigger] s[i].tx.nonce == n
}

/// Admission of `stx` given the ledger `l` and the pending transactions `mv`:
/// the checks run in this order and the first that fails gives the error;
/// on success the transaction joins the end of its sender's queue.
pub open spec fn insert_spec(
    mv: Map<Seq<u8>, Seq<SignedTransaction>>,
    l: Ledger,
    stx: SignedTransaction,
) -> (Map<Seq<u8>, Seq<SignedTransaction>>, Result<(), MempoolError>) {
    let sender = stx.tx.from@;
    let n = stx.tx.nonce;
    let state_nonce = value_or_zero(l.nonces, sender);
    let pool = if mv.contains_key(sender) {
        mv[sender]
    } else {
        Seq::empty()
    };
    if validate_spec(l, stx) is Err {
        (mv, Err(MempoolError::InvalidTransaction(validate_spec(l, stx)->Err_0)))
    } else if n <= state_nonce {
        (mv, Err(MempoolError::NonceTooLow))
    } else if pool.len() > 0 && n != pool.last().tx.nonce + 1 {
        (mv, Err(MempoolError::NonceGap))
    } else if pool.len() == 0 && n != state_nonce + 1 {
        (mv, Err(MempoolError::NonceGap))
    } else if pool_has_nonce(pool, n) {
        (mv, Err(MempoolError::DuplicateTransaction))
    } else if value_or_zero(l.balances, sender) < costs_of(pool) + cost(stx) {
        (mv, Err(MempoolError::InsufficientBalance))
    } else {
        (mv.insert(sender, pool.push(stx)), Ok(()))
    }
}

/// Pending transactions, queued per sender in nonce order.
pub struct Mempool {
    pub by_account: AddressMap<Vec<SignedTransaction>>,
}

impl View for Mempool {
    type V = Map<Seq<u8>, Seq<SignedTransaction>>;

    open spec fn view(&self) -> Map<Seq<u8>, Seq<SignedTransaction>> {
        self.by_account@.map_values(|p: Vec<SignedTransaction>| p@)
    }
}

impl Mempool {
    /// Every queue is ordered by nonce and its costs fit in a `u64`.
    pub open spec fn wf(&self) -> bool {
        &&& self.by_account.wf()
        &&& forall|k: Seq<u8>| #[trigger] self@.contains_key(k) ==> pool_wf(self@[k])
    }

    /// The queues in ascending order of sender address.
    pub open spec fn pools(&self) -> Seq<Seq<SignedTransaction>> {
        self.by_account.val_seq().map_values(|p: Vec<SignedTransaction>| p@)
    }

    /// An empty mempool.
    pub fn new() -> (m: Self)
        ensures
            m.wf(),
            m@ == Map::<Seq<u8>, Seq<SignedTransaction>>::empty(),
            m.pools() == Seq::<Seq<SignedTransaction>>::empty(),
    {
        let m = Mempool { by_account: AddressMap::new() };
        assert(m@ =~= Map::<Seq<u8>, Seq<SignedTransaction>>::empty());
        assert(m.pools() =~= Seq::<Seq<SignedTransaction>>::empty());
        m
    }

    /// Admits a transaction after checking it against the state and against
    /// the sender's queue: valid, nonce above the state's, next after the
    /// queue's last nonce (or after the state's when the queue is empty), not
    /// queued yet, and the sender's balance covers the whole queue.
    #[verifier::loop_isolation(false)]
    pub fn insert_transaction(&mut self, state: &State, tx: SignedTransaction) -> (r: Result<
        (),
        MempoolError,
    >)
        requires
            old(self).wf(),
            state.wf(),
        ensures
            final(self).wf(),
            (final(self)@, r) == insert_spec(old(self)@, state@, tx),
    {
        let ghost mv = self@;
        match validate(state, &tx) {
            Err(e) => {
                return Err(MempoolError::InvalidTransaction(e));
            },
            Ok(()) => {},
        }
        let sender = tx.tx.from;
        let tx_nonce = tx.tx.nonce;
        let state_nonce = match state.nonces.get(&sender) {
            Some(n) => *n,
            None => 0,
        };
        if tx_nonce <= state_nonce {
            return Err(MempoolError::NonceTooLow);
        }
        let empty: Vec<SignedTransaction> = Vec::new();
        let pool: &Vec<SignedTransaction> = match self.by_account.get(&sender) {
            Some(p) => p,
            None => &empty,
        };
        let ghost ps = pool@;
        proof {
            if mv.contains_key(sender@) {
                assert(ps == mv[sender@]);
            } else {
                assert(ps =~= Seq::<SignedTransaction>::empty());
            }
            assert(pool_wf(ps));
        }
        let len = pool.len();
        if len > 0 {
            let last_nonce = pool[len - 1].tx.nonce;
            if last_nonce == u64::MAX || tx_nonce != last_nonce + 1 {
                return Err(MempoolError::NonceGap);
            }
        } else {
            if state_nonce == u64::MAX || tx_nonce != state_nonce + 1 {
                return Err(MempoolError::NonceGap);
            }
        }
        let mut i: usize = 0;
        while i < len
            invariant
                len == ps.len(),
                ps == pool@,
                0 <= i <= len,
                forall|j: int| 0 <= j < i ==> ps[j].tx.nonce != tx_nonce,
            decreases len - i,
        {
            if pool[i].tx.nonce == tx_nonce {
                return Err(MempoolError::DuplicateTransaction);
            }
            i = i + 1;
        }
        let mut pending_usage: u64 = 0;
        let mut j: usize = 0;
        while j < len
            invariant
                len == ps.len(),
                ps == pool@,
                pool_wf(ps),
                0 <= j <= len,
                pending_usage == costs_of(ps.take(j as int)),
            decreases len - j,
        {
            proof {
                assert(ps.take(j + 1).drop_last() =~= ps.take(j as int));
                lemma_costs_prefix(ps, j + 1);
            }
            let p = &pool[j];
            pending_usage = pending_usage + (p.tx.amount + p.tx.fee);
            j = j + 1;
        }
        proof {
            assert(ps.take(len as int) =~= ps);
        }
        let sender_balance = match state.balances.get(&sender) {
            Some(b) => *b,
            None => 0,
        };
        let new_tx_cost = tx.tx.amount + tx.tx.fee;
        let total_required = match pending_usage.checked_add(new_tx_cost) {
            Some(t) => t,
            None => return Err(MempoolError::InsufficientBalance),
        };
        if sender_balance < total_required {
            return Err(MempoolError::InsufficientBalance);
        }
        let mut new_pool = match self.by_account.remove(&sender) {
            Some(p) => p,
            None => Vec::new(),
        };
        new_pool.push(tx);
        proof {
            let np = new_pool@;
            assert(np =~= ps.push(tx));
            assert(np.drop_last() =~= ps);
            assert forall|a: int, b: int| 0 <= a < b < np.len() implies #[trigger] np[a].tx.nonce
                < #[trigger] np[b].tx.nonce by {
                if b == np.len() - 1 && a < ps.len() {
                    assert(ps[a].tx.nonce <= ps.last().tx.nonce);
                }
            }
        }
        self.by_account.insert(sender, new_pool);
        proof {
            assert(self@ =~= mv.insert(sender@, ps.push(tx)));
        }
        Ok(())
    }
}

/// A prefix of a queue costs no more than the whole queue.
pub proof fn lemma_costs_prefix(s: Seq<SignedTransaction>, n: int)
    requires
        0 <= n <= s.len(),
        forall|i: int| 0 <= i < s.len() ==> cost(#[trigger] s[i]) <= u64::MAX,
    ensures
        costs_of(s.take(n)) <= costs_of(s),
        costs_of(s.take(n)) >= 0,
    decreases s.len(),
{
    if n < s.len() {
        assert(s.drop_last().take(n) =~= s.take(n));
        lemma_costs_prefix(s.drop_last(), n);
    } else {
        assert(s.take(n) =~= s);
        lemma_costs_nonneg(s);
    }
}

proof fn lemma_costs_nonneg(s: Seq<SignedTransaction>)
    ensures
        costs_of(s) >= 0,
    decreases s.len(),
{
    if s.len() > 0 {
        lemma_costs_nonneg(s.drop_last());
    }
}

/// Takes transactions from the front of a queue while each one is valid
/// against the ledger reached so far: the ledger after them, the
/// transactions taken, and whether it stopped at a valid transaction whose
/// credit would take the receiver's balance past `u64::MAX`.
pub open spec fn take_valid(l: Ledger, pool: Seq<SignedTransaction>) -> (Ledger, Seq<SignedTransaction>, bool)
    decreases pool.len(),
{
    if pool.len() == 0 {
        (l, Seq::empty(), false)
    } else if validate_spec(l, pool[0]) is Ok {
        if credit_fits(l, pool[0]) {
            let (l2, t, o) = take_valid(apply_spec(l, pool[0]), pool.drop_first());
            (l2, seq![pool[0]] + t, o)
        } else {
            (l, Seq::empty(), true)
        }
    } else {
        (l, Seq::empty(), false)
    }
}

/// Block assembly over the queues in order: from each queue, its valid
/// prefix; the flag says assembly met a credit that does not fit.
pub open spec fn assemble_spec(l: Ledger, pools: Seq<Seq<SignedTransaction>>) -> (Ledger, Seq<SignedTransaction>, bool)
    decreases pools.len(),
{
    if pools.len() == 0 {
        (l, Seq::empty(), false)
    } else {
        let (l1, t1, o1) = take_valid(l, pools[0]);
        if o1 {
            (l1, t1, true)
        } else {
            let (l2, t2, o2) = assemble_spec(l1, pools.drop_first());
            (l2, t1 + t2, o2)
        }
    }
}

/// Assembly from the rest of one queue, then the queues after it.
pub open spec fn continue_assembly(
    l: Ledger,
    pool_rest: Seq<SignedTransaction>,
    later: Seq<Seq<SignedTransaction>>,
) -> (Ledger, Seq<SignedTransaction>, bool) {
    let (l1, t1, o1) = take_valid(l, pool_rest);
    if o1 {
        (l1, t1, true)
    } else {
        let (l2, t2, o2) = assemble_spec(l1, later);
        (l2, t1 + t2, o2)
    }
}

/// The block `assemble_block` builds.
pub open spec fn assembled_block(
    l: Ledger,
    tip: BlockHash,
    pools: Seq<Seq<SignedTransaction>>,
    producer: Address,
) -> BlockView {
    BlockView { prev_hash: tip, producer, nonce: 0, transactions: assemble_spec(l, pools).1 }
}

/// Applying transactions one sequence after another is applying their concatenation.
pub proof fn lemma_apply_txs_append(l: Ledger, a: Seq<SignedTransaction>, b: Seq<SignedTransaction>)
    requires
        apply_txs(l, a).1 is None,
    ensures
        apply_txs(l, a + b) == apply_txs(apply_txs(l, a).0, b),
    decreases b.len(),
{
    if b.len() == 0 {
        assert(a + b =~= a);
    } else {
        assert((a + b).drop_last() =~= a + b.drop_last());
        lemma_apply_txs_append(l, a, b.drop_last());
    }
}

/// The prefix `take_valid` keeps replays without error to the ledger it reports.
pub proof fn lemma_take_valid_replays(l: Ledger, pool: Seq<SignedTransaction>)
    ensures
        apply_txs(l, take_valid(l, pool).1) == (take_valid(l, pool).0, None::<ReplayError>),
    decreases pool.len(),
{
    if pool.len() > 0 && validate_spec(l, pool[0]) is Ok && credit_fits(l, pool[0]) {
        let one = seq![pool[0]];
        assert(one.drop_last() =~= Seq::<SignedTransaction>::empty());
        assert(apply_txs(l, one.drop_last()) == (l, None::<ReplayError>));
        assert(one.last() == pool[0]);
        assert(apply_txs(l, one) == (apply_spec(l, pool[0]), None::<ReplayError>));
        lemma_take_valid_replays(apply_spec(l, pool[0]), pool.drop_first());
        lemma_apply_txs_append(l, one, take_valid(apply_spec(l, pool[0]), pool.drop_first()).1);
    } else {
        assert(apply_txs(l, Seq::<SignedTransaction>::empty()) == (l, None::<ReplayError>));
    }
}

/// The transactions of an assembled block replay without error to the
/// ledger assembly reports.
pub proof fn lemma_assemble_replays(l: Ledger, pools: Seq<Seq<SignedTransaction>>)
    ensures
        apply_txs(l, assemble_spec(l, pools).1) == (assemble_spec(l, pools).0, None::<ReplayError>),
    decreases pools.len(),
{
    if pools.len() > 0 {
        let (l1, t1, o1) = take_valid(l, pools[0]);
        lemma_take_valid_replays(l, pools[0]);
        if !o1 {
            lemma_assemble_replays(l1, pools.drop_first());
            lemma_apply_txs_append(l, t1, assemble_spec(l1, pools.drop_first()).1);
        }
    } else {
        assert(apply_txs(l, Seq::<SignedTransaction>::empty()) == (l, None::<ReplayError>));
    }
}

/// Assembles a block on top of `chain_tip` from the pending transactions:
/// senders in ascending address order, from each sender's queue the
/// transactions that validate in turn against the state so far, stopping at
/// the first that does not. The block's transactions replay without error.
/// `None` when a transaction that validates would take its receiver's
/// balance past `u64::MAX`.
pub fn assemble_block(
    chain_state: &State,
    chain_tip: BlockHash,
    mempool: &Mempool,
    producer: Address,
) -> (r: Option<Block>)
    requires
        chain_state.wf(),
        mempool.wf(),
    ensures
        r is None <==> assemble_spec(chain_state@, mempool.pools()).2,
        r matches Some(b) ==> b@ == assembled_block(chain_state@, chain_tip, mempool.pools(), producer),
        r matches Some(b) ==> apply_txs(chain_state@, b.transactions@) == (
            assemble_spec(chain_state@, mempool.pools()).0,
            None::<ReplayError>,
        ),
{
    let ghost l0 = chain_state@;
    let ghost pools = mempool.pools();
    let mut temp_state = chain_state.clone();
    let mut transactions: Vec<SignedTransaction> = Vec::new();
    let n = mempool.by_account.len();
    let mut i: usize = 0;
    assert(pools.skip(0) =~= pools);
    assert(transactions@ + assemble_spec(l0, pools).1 =~= assemble_spec(l0, pools).1);
    while i < n
        invariant
            mempool.wf(),
            l0 == chain_state@,
            n == pools.len(),
            pools == mempool.pools(),
            0 <= i <= n,
            temp_state.wf(),
            ({
                let a = assemble_spec(temp_state@, pools.skip(i as int));
                assemble_spec(l0, pools) == (a.0, transactions@ + a.1, a.2)
            }),
        decreases n - i,
    {
        let pool = mempool.by_account.value_at(i);
        let ghost ps = pool@;
        let ghost rest = pools.skip(i + 1);
        proof {
            assert(ps == pools[i as int]);
            assert(pools.skip(i as int).drop_first() =~= rest);
            assert(assemble_spec(temp_state@, pools.skip(i as int)) == continue_assembly(
                temp_state@,
                ps,
                rest,
            ));
        }
        let m = pool.len();
        let mut j: usize = 0;
        assert(ps.skip(0) =~= ps);
        while j < m
            invariant
                m == ps.len(),
                ps == pool@,
                l0 == chain_state@,
                pools == mempool.pools(),
                0 <= j <= m,
                temp_state.wf(),
                ({
                    let c = continue_assembly(temp_state@, ps.skip(j as int), rest);
                    assemble_spec(l0, pools) == (c.0, transactions@ + c.1, c.2)
                }),
            ensures
                j == m || (j < m && validate_spec(temp_state@, ps[j as int]) is Err),
            decreases m - j,
        {
            let tx = &pool[j];
            proof {
                assert(ps.skip(j as int)[0] == *tx);
                assert(ps.skip(j as int).drop_first() =~= ps.skip(j + 1));
            }
            match validate(&temp_state, tx) {
                Ok(()) => {
                    if !keys_equal(&tx.tx.to, &tx.tx.from) {
                        let receiver_balance = match temp_state.balances.get(&tx.tx.to) {
                            Some(b) => *b,
                            None => 0,
                        };
                        if receiver_balance > u64::MAX - tx.tx.amount {
                            proof {
                                assert(!credit_fits(temp_state@, *tx));
                                assert(take_valid(temp_state@, ps.skip(j as int)).2);
                                assert(continue_assembly(temp_state@, ps.skip(j as int), rest).2);
                            }
                            return None;
                        }
                    }
                    proof {
                        assert(credit_fits(temp_state@, *tx));
                        lemma_valid_is_ready(temp_state@, *tx);
                    }
                    let ghost before = temp_state@;
                    let ghost acc = transactions@;
                    apply(&mut temp_state, tx);
                    transactions.push(*tx);
                    proof {
                        let (lf, tr, of) = take_valid(temp_state@, ps.skip(j + 1));
                        assert(take_valid(before, ps.skip(j as int)) == (lf, seq![*tx] + tr, of));
                        assert(acc + (seq![*tx] + tr) =~= transactions@ + tr);
                        if !of {
                            let (l2, t2, o2) = assemble_spec(lf, rest);
                            assert(acc + (seq![*tx] + tr + t2) =~= transactions@ + (tr + t2));
                        }
                    }
                    j = j + 1;
                },
                Err(_) => {
                    break;
                },
            }
        }
        proof {
            if j == m {
                assert(ps.skip(j as int) =~= Seq::<SignedTransaction>::empty());
            } else {
                assert(ps.skip(j as int)[0] == ps[j as int]);
            }
            let (lf, tr, of) = take_valid(temp_state@, ps.skip(j as int));
            assert(tr =~= Seq::<SignedTransaction>::empty());
            assert(!of);
            assert(lf == temp_state@);
            let (l2, t2, o2) = assemble_spec(lf, rest);
            assert(transactions@ + (tr + t2) =~= transactions@ + t2);
        }
        i = i + 1;
    }
    proof {
        assert(pools.skip(n as int) =~= Seq::<Seq<SignedTransaction>>::empty());
        assert(transactions@ + Seq::<SignedTransaction>::empty() =~= transactions@);
        lemma_assemble_replays(l0, pools);
    }
    Some(Block { prev_hash: chain_tip, producer, nonce: 0, transactions })
}

} // verus!
