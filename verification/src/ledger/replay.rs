//! Replaying transactions and blocks on a ledger, as mathematical functions.
use vstd::prelude::*;
use crate::ledger::block::BlockView;
use crate::ledger::state::{value_or_zero, apply_ready, apply_spec, Ledger};
use crate::ledger::transaction::{validate_spec, SignedTransaction, ValidationError};

verus! {

/// Why replaying transactions stopped: an invalid transaction, or a credit
/// that would take a balance past `u64::MAX`.
#[derive(Debug, Clone, Copy, PartialEq, Eq, Structural)]
pub enum ReplayError {
    Invalid(ValidationError),
    Overflow,
}

/// The receiver's balance has room for the amount (a transfer to oneself
/// always has).
pub open spec fn credit_fits(l: Ledger, stx: SignedTransaction) -> bool {
    stx.tx.to@ == stx.tx.from@ || value_or_zero(l.balances, stx.tx.to@) + stx.tx.amount <= u64::MAX
}

/// A valid transaction whose credit fits can be applied.
pub proof fn lemma_valid_is_ready(l: Ledger, stx: SignedTransaction)
    requires
        validate_spec(l, stx) is Ok,
        credit_fits(l, stx),
    ensures
        apply_ready(l, stx),
{
}

/// Validates and applies `txs` in order, stopping at the first that is
/// invalid or whose credit does not fit: the ledger reached and what stopped
/// it, if anything.
pub open spec fn apply_txs(l: Ledger, txs: Seq<SignedTransaction>) -> (Ledger, Option<ReplayError>)
    decreases txs.len(),
{
    if txs.len() == 0 {
        (l, None)
    } else {
        let (l1, e) = apply_txs(l, txs.drop_last());
        if e is Some {
            (l1, e)
        } else {
            match validate_spec(l1, txs.last()) {
                Ok(_) => if credit_fits(l1, txs.last()) {
                    (apply_spec(l1, txs.last()), None)
                } else {
                    (l1, Some(ReplayError::Overflow))
                },
                Err(err) => (l1, Some(ReplayError::Invalid(err))),
            }
        }
    }
}

/// The sum of the fees of `txs`.
pub open spec fn fees_of(txs: Seq<SignedTransaction>) -> int
    decreases txs.len(),
{
    if txs.len() == 0 {
        0
    } else {
        fees_of(txs.drop_last()) + txs.last().tx.fee
    }
}

/// Credits `amount` to the balance of `producer`.
pub open spec fn credit(l: Ledger, producer: Seq<u8>, amount: int) -> Ledger {
    Ledger {
        balances: l.balances.insert(producer, (value_or_zero(l.balances, producer) + amount) as u64),
        nonces: l.nonces,
    }
}

/// Applies a block: its transactions in order, then its fees to the
/// producer; the fee total and the producer's credit must fit in a `u64`.
pub open spec fn apply_block_spec(l: Ledger, b: BlockView) -> (Ledger, Option<ReplayError>) {
    let (l1, e) = apply_txs(l, b.transactions);
    if e is Some {
        (l1, e)
    } else if fees_of(b.transactions) > u64::MAX {
        (l1, Some(ReplayError::Overflow))
    } else if value_or_zero(l1.balances, b.producer@) + fees_of(b.transactions) > u64::MAX {
        (l1, Some(ReplayError::Overflow))
    } else {
        (credit(l1, b.producer@, fees_of(b.transactions)), None)
    }
}

/// Applies blocks in order, stopping at the first failure.
pub open spec fn replay(l: Ledger, blocks: Seq<BlockView>) -> (Ledger, Option<ReplayError>)
    decreases blocks.len(),
{
    if blocks.len() == 0 {
        (l, None)
    } else {
        let (l1, e) = replay(l, blocks.drop_last());
        if e is Some {
            (l1, e)
        } else {
            apply_block_spec(l1, blocks.last())
        }
    }
}

/// `Ok` when no error occurred.
pub open spec fn as_result(e: Option<ReplayError>) -> Result<(), ReplayError> {
    match e {
        Some(err) => Err(err),
        None => Ok(()),
    }
}

/// Once replaying a prefix has failed, replaying the whole sequence gives the
/// same ledger and error.
pub proof fn lemma_replay_stops(l: Ledger, blocks: Seq<BlockView>, k: int)
    requires
        0 <= k <= blocks.len(),
        replay(l, blocks.take(k)).1 is Some,
    ensures
        replay(l, blocks) == replay(l, blocks.take(k)),
    decreases blocks.len() - k,
{
    if k < blocks.len() {
        assert(blocks.take(k + 1).drop_last() =~= blocks.take(k));
        lemma_replay_stops(l, blocks, k + 1);
    } else {
        assert(blocks.take(k) =~= blocks);
    }
}

/// Once applying a prefix of transactions has failed, applying the whole
/// sequence gives the same ledger and error.
pub proof fn lemma_apply_txs_stops(l: Ledger, txs: Seq<SignedTransaction>, k: int)
    requires
        0 <= k <= txs.len(),
        apply_txs(l, txs.take(k)).1 is Some,
    ensures
        apply_txs(l, txs) == apply_txs(l, txs.take(k)),
    decreases txs.len() - k,
{
    if k < txs.len() {
        assert(txs.take(k + 1).drop_last() =~= txs.take(k));
        lemma_apply_txs_stops(l, txs, k + 1);
    } else {
        assert(txs.take(k) =~= txs);
    }
}

} // verus!
