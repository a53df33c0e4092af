use vstd::prelude::*;
use crate::ledger::address_map::AddressMap;
use crate::ledger::transaction::SignedTransaction;

verus! {

/// What a state holds: each account's balance and nonce, keyed by address bytes.
pub struct Ledger {
    pub balances: Map<Seq<u8>, u64>,
    pub nonces: Map<Seq<u8>, u64>,
}

/// The value stored under `k` (a balance or a nonce), or zero when there is none.
pub open spec fn value_or_zero(m: Map<Seq<u8>, u64>, k: Seq<u8>) -> u64 {
    if m.contains_key(k) {
        m[k]
    } else {
        0
    }
}

/// Account balances and nonces.
pub struct State {
    pub balances: AddressMap<u64>,
    pub nonces: AddressMap<u64>,
}

impl View for State {
    type V = Ledger;

    open spec fn view(&self) -> Ledger {
        Ledger { balances: self.balances@, nonces: self.nonces@ }
    }
}

impl State {
    /// Both maps satisfy their representation invariant.
    pub open spec fn wf(&self) -> bool {
        self.balances.wf() && self.nonces.wf()
    }

    /// The sum of all balances.
    pub open spec fn total_balance(&self) -> int {
        self.balances.total()
    }

    /// A state with no accounts.
    pub fn new() -> (s: Self)
        ensures
            s.wf(),
            s@.balances == Map::<Seq<u8>, u64>::empty(),
            s@.nonces == Map::<Seq<u8>, u64>::empty(),
            s.total_balance() == 0,
    {
        State { balances: AddressMap::new(), nonces: AddressMap::new() }
    }
}

impl Clone for State {
    fn clone(&self) -> (r: Self)
        ensures
            r@ == self@,
            self.wf() ==> r.wf(),
            r.total_balance() == self.total_balance(),
    {
        State { balances: self.balances.clone(), nonces: self.nonces.clone() }
    }
}

/// The conditions under which `apply` runs without failing: the sender has a
/// balance covering amount and fee and a nonce below the maximum, and the
/// receiver's balance has room for the amount.
pub open spec fn apply_ready(l: Ledger, stx: SignedTransaction) -> bool {
    let tx = stx.tx;
    &&& l.balances.contains_key(tx.from@)
    &&& l.nonces.contains_key(tx.from@)
    &&& tx.amount + tx.fee <= l.balances[tx.from@]
    &&& l.nonces[tx.from@] < u64::MAX
    &&& tx.to@ == tx.from@ || value_or_zero(l.balances, tx.to@) + tx.amount <= u64::MAX
}

/// The state after a transfer: the sender pays amount and fee and its nonce
/// grows by one; the receiver is credited the amount and gets a zero nonce
/// if it had none.
pub open spec fn apply_spec(l: Ledger, stx: SignedTransaction) -> Ledger {
    let tx = stx.tx;
    let from = tx.from@;
    let to = tx.to@;
    let b1 = l.balances.insert(from, (l.balances[from] - tx.amount - tx.fee) as u64);
    let b2 = b1.insert(to, (value_or_zero(b1, to) + tx.amount) as u64);
    let n1 = l.nonces.insert(from, (l.nonces[from] + 1) as u64);
    let n2 = if n1.contains_key(to) {
        n1
    } else {
        n1.insert(to, 0)
    };
    Ledger { balances: b2, nonces: n2 }
}

/// Applies a validated transaction to the state. The fee leaves the sum of
/// balances; it is credited to the block producer separately.
pub fn apply(state: &mut State, signed_tx: &SignedTransaction)
    requires
        old(state).wf(),
        apply_ready(old(state)@, *signed_tx),
    ensures
        final(state).wf(),
        final(state)@ == apply_spec(old(state)@, *signed_tx),
        final(state).total_balance() == old(state).total_balance() - signed_tx.tx.fee,
{
    let ghost l = state@;
    let sender_address = signed_tx.tx.from;
    let receiver_address = signed_tx.tx.to;
    let transfer_amount = signed_tx.tx.amount;
    let fee = signed_tx.tx.fee;

    let sender_balance = match state.balances.get(&sender_address) {
        Some(b) => *b,
        None => 0,
    };
    state.balances.set_amount(sender_address, sender_balance - (transfer_amount + fee));

    let sender_nonce = match state.nonces.get(&sender_address) {
        Some(n) => *n,
        None => 0,
    };
    state.nonces.set_amount(sender_address, sender_nonce + 1);

    let receiver_balance = match state.balances.get(&receiver_address) {
        Some(b) => *b,
        None => 0,
    };
    state.balances.set_amount(receiver_address, receiver_balance + transfer_amount);

    if !state.nonces.contains_key(&receiver_address) {
        state.nonces.set_amount(receiver_address, 0);
    }
    proof {
        assert(state@.balances =~= apply_spec(l, *signed_tx).balances);
        assert(state@.nonces =~= apply_spec(l, *signed_tx).nonces);
    }
}

} // verus!
