//! The byte encodings that block and transaction hashes commit to: postcard's
//! wire format for the ledger's records (fixed-size byte arrays verbatim,
//! integers and sequence lengths as LEB128 varints, fields in declaration
//! order).
use vstd::prelude::*;
use crate::ledger::block::{Block, BlockView};
use crate::ledger::transaction::{SignedTransaction, Transaction};

verus! {

/// LEB128 varint: seven bits per byte, least significant group first, the
/// high bit set on every byte but the last.
pub open spec fn varint(n: nat) -> Seq<u8>
    decreases n,
{
    if n < 128 {
        seq![n as u8]
    } else {
        seq![(n % 128 + 128) as u8] + varint(n / 128)
    }
}

/// postcard's encoding of a `u64`.
///
/// Trusted: calls `postcard::to_allocvec` on the integer. postcard's
/// serializer writes a `u64` with `varint_u64`, which is the LEB128 varint
/// that `varint` states; serializing an integer into an allocated vector
/// does not fail.
#[verifier::external_body]
fn postcard_u64(x: u64) -> (bytes: Vec<u8>)
    ensures
        bytes@ == varint(x as nat),
{
    match postcard::to_allocvec(&x) {
        Ok(v) => v,
        Err(_) => Vec::new(),
    }
}

/// Bytes of an unsigned transaction.
pub open spec fn transaction_bytes(tx: Transaction) -> Seq<u8> {
    tx.from@ + tx.to@ + varint(tx.amount as nat) + varint(tx.fee as nat) + varint(tx.nonce as nat)
}

/// Bytes of a signed transaction.
pub open spec fn signed_transaction_bytes(stx: SignedTransaction) -> Seq<u8> {
    transaction_bytes(stx.tx) + stx.signature@ + stx.public_key@
}

/// Concatenated bytes of a sequence of signed transactions.
pub open spec fn transactions_bytes(txs: Seq<SignedTransaction>) -> Seq<u8>
    decreases txs.len(),
{
    if txs.len() == 0 {
        Seq::empty()
    } else {
        transactions_bytes(txs.drop_last()) + signed_transaction_bytes(txs.last())
    }
}

/// Bytes of a block: both hashes, the nonce, the transaction count and the
/// transactions.
pub open spec fn block_bytes(b: BlockView) -> Seq<u8> {
    b.prev_hash@ + b.producer@ + varint(b.nonce as nat) + varint(b.transactions.len())
        + transactions_bytes(b.transactions)
}

fn push_bytes(out: &mut Vec<u8>, s: &[u8])
    ensures
        final(out)@ == old(out)@ + s@,
{
    let ghost start = out@;
    let mut i: usize = 0;
    while i < s.len()
        invariant
            0 <= i <= s@.len(),
            out@ == start + s@.take(i as int),
        decreases s@.len() - i,
    {
        out.push(s[i]);
        i = i + 1;
        assert(out@ =~= start + s@.take(i as int));
    }
    assert(s@.take(i as int) =~= s@);
}

fn push_varint(out: &mut Vec<u8>, x: u64)
    ensures
        final(out)@ == old(out)@ + varint(x as nat),
{
    let mut bytes = postcard_u64(x);
    out.append(&mut bytes);
}

fn push_transaction(out: &mut Vec<u8>, tx: &Transaction)
    ensures
        final(out)@ == old(out)@ + transaction_bytes(*tx),
{
    let ghost start = out@;
    push_bytes(out, &tx.from);
    push_bytes(out, &tx.to);
    push_varint(out, tx.amount);
    push_varint(out, tx.fee);
    push_varint(out, tx.nonce);
    assert(out@ =~= start + transaction_bytes(*tx));
}

fn push_signed_transaction(out: &mut Vec<u8>, stx: &SignedTransaction)
    ensures
        final(out)@ == old(out)@ + signed_transaction_bytes(*stx),
{
    let ghost start = out@;
    push_transaction(out, &stx.tx);
    push_bytes(out, &stx.signature);
    push_bytes(out, &stx.public_key);
    assert(out@ =~= start + signed_transaction_bytes(*stx));
}

/// Encodes an unsigned transaction.
pub fn encode_transaction(tx: &Transaction) -> (bytes: Vec<u8>)
    ensures
        bytes@ == transaction_bytes(*tx),
{
    let mut out: Vec<u8> = Vec::new();
    push_transaction(&mut out, tx);
    assert(out@ =~= transaction_bytes(*tx));
    out
}

/// Encodes a signed transaction.
pub fn encode_signed_transaction(stx: &SignedTransaction) -> (bytes: Vec<u8>)
    ensures
        bytes@ == signed_transaction_bytes(*stx),
{
    let mut out: Vec<u8> = Vec::new();
    push_signed_transaction(&mut out, stx);
    assert(out@ =~= signed_transaction_bytes(*stx));
    out
}

/// Encodes a block.
pub fn encode_block(block: &Block) -> (bytes: Vec<u8>)
    ensures
        bytes@ == block_bytes(block@),
{
    let mut out: Vec<u8> = Vec::new();
    push_bytes(&mut out, &block.prev_hash);
    push_bytes(&mut out, &block.producer);
    push_varint(&mut out, block.nonce);
    let n = block.transactions.len();
    push_varint(&mut out, n as u64);
    let ghost head = out@;
    let mut i: usize = 0;
    while i < n
        invariant
            n == block.transactions@.len(),
            0 <= i <= n,
            out@ == head + transactions_bytes(block.transactions@.take(i as int)),
        decreases n - i,
    {
        push_signed_transaction(&mut out, &block.transactions[i]);
        assert(block.transactions@.take(i + 1).drop_last() =~= block.transactions@.take(i as int));
        i = i + 1;
    }
    assert(block.transactions@.take(n as int) =~= block.transactions@);
    assert(out@ =~= block_bytes(block@));
    out
}

/// Equal concatenations whose first parts have the same length have equal parts.
pub proof fn lemma_split_equal(a: Seq<u8>, b: Seq<u8>, r1: Seq<u8>, r2: Seq<u8>)
    requires
        a.len() == b.len(),
        a + r1 == b + r2,
    ensures
        a == b,
        r1 == r2,
{
    let s = a + r1;
    assert(a =~= s.subrange(0, a.len() as int));
    assert(b =~= (b + r2).subrange(0, b.len() as int));
    assert(r1 =~= s.subrange(a.len() as int, s.len() as int));
    assert(r2 =~= (b + r2).subrange(b.len() as int, (b + r2).len() as int));
}

/// A varint is never a proper prefix of another: the encoding of one
/// integer followed by anything determines the integer and what follows.
pub proof fn lemma_varint_prefix_free(a: nat, b: nat, r1: Seq<u8>, r2: Seq<u8>)
    requires
        varint(a) + r1 == varint(b) + r2,
    ensures
        a == b,
        r1 == r2,
    decreases a,
{
    let s = varint(a) + r1;
    let t = varint(b) + r2;
    assert(s[0] == varint(a)[0]);
    assert(t[0] == varint(b)[0]);
    if a < 128 {
        if b >= 128 {
            assert(varint(b)[0] == (b % 128 + 128) as u8);
            assert(false);
        }
        lemma_split_equal(varint(a), varint(b), r1, r2);
    } else {
        if b < 128 {
            assert(varint(a)[0] == (a % 128 + 128) as u8);
            assert(false);
        }
        assert(a % 128 == b % 128);
        assert(s =~= seq![(a % 128 + 128) as u8] + (varint(a / 128) + r1));
        assert(t =~= seq![(b % 128 + 128) as u8] + (varint(b / 128) + r2));
        lemma_split_equal(
            seq![(a % 128 + 128) as u8],
            seq![(b % 128 + 128) as u8],
            varint(a / 128) + r1,
            varint(b / 128) + r2,
        );
        lemma_varint_prefix_free(a / 128, b / 128, r1, r2);
    }
}

proof fn lemma_array32_prefix(a: [u8; 32], b: [u8; 32], r1: Seq<u8>, r2: Seq<u8>)
    requires
        a@ + r1 == b@ + r2,
    ensures
        a == b,
        r1 == r2,
{
    lemma_split_equal(a@, b@, r1, r2);
    assert forall|i: int| 0 <= i < 32 implies a[i] == b[i] by {
        assert(a@[i] == b@[i]);
    }
    assert(a =~= b);
}

proof fn lemma_array64_prefix(a: [u8; 64], b: [u8; 64], r1: Seq<u8>, r2: Seq<u8>)
    requires
        a@ + r1 == b@ + r2,
    ensures
        a == b,
        r1 == r2,
{
    lemma_split_equal(a@, b@, r1, r2);
    assert forall|i: int| 0 <= i < 64 implies a[i] == b[i] by {
        assert(a@[i] == b@[i]);
    }
    assert(a =~= b);
}

proof fn lemma_concat5(a: Seq<u8>, b: Seq<u8>, c: Seq<u8>, d: Seq<u8>, e: Seq<u8>, r: Seq<u8>)
    ensures
        a + b + c + d + e + r == a + (b + (c + (d + (e + r)))),
{
    assert(a + b + c + d + e + r =~= a + (b + (c + (d + (e + r)))));
}

proof fn lemma_concat3(a: Seq<u8>, b: Seq<u8>, c: Seq<u8>, r: Seq<u8>)
    ensures
        a + b + c + r == a + (b + (c + r)),
{
    assert(a + b + c + r =~= a + (b + (c + r)));
}

/// An unsigned transaction's encoding followed by anything determines the
/// transaction and what follows.
pub proof fn lemma_transaction_prefix(t1: Transaction, t2: Transaction, r1: Seq<u8>, r2: Seq<u8>)
    requires
        transaction_bytes(t1) + r1 == transaction_bytes(t2) + r2,
    ensures
        t1 == t2,
        r1 == r2,
{
    let (va1, vf1, vn1) = (varint(t1.amount as nat), varint(t1.fee as nat), varint(t1.nonce as nat));
    let (va2, vf2, vn2) = (varint(t2.amount as nat), varint(t2.fee as nat), varint(t2.nonce as nat));
    lemma_concat5(t1.from@, t1.to@, va1, vf1, vn1, r1);
    lemma_concat5(t2.from@, t2.to@, va2, vf2, vn2, r2);
    lemma_array32_prefix(t1.from, t2.from, t1.to@ + (va1 + (vf1 + (vn1 + r1))), t2.to@ + (va2 + (vf2 + (vn2 + r2))));
    lemma_array32_prefix(t1.to, t2.to, va1 + (vf1 + (vn1 + r1)), va2 + (vf2 + (vn2 + r2)));
    lemma_varint_prefix_free(t1.amount as nat, t2.amount as nat, vf1 + (vn1 + r1), vf2 + (vn2 + r2));
    lemma_varint_prefix_free(t1.fee as nat, t2.fee as nat, vn1 + r1, vn2 + r2);
    lemma_varint_prefix_free(t1.nonce as nat, t2.nonce as nat, r1, r2);
}

/// A signed transaction's encoding followed by anything determines the
/// transaction and what follows.
pub proof fn lemma_signed_transaction_prefix(
    s1: SignedTransaction,
    s2: SignedTransaction,
    r1: Seq<u8>,
    r2: Seq<u8>,
)
    requires
        signed_transaction_bytes(s1) + r1 == signed_transaction_bytes(s2) + r2,
    ensures
        s1 == s2,
        r1 == r2,
{
    lemma_concat3(transaction_bytes(s1.tx), s1.signature@, s1.public_key@, r1);
    lemma_concat3(transaction_bytes(s2.tx), s2.signature@, s2.public_key@, r2);
    lemma_transaction_prefix(s1.tx, s2.tx, s1.signature@ + (s1.public_key@ + r1), s2.signature@ + (s2.public_key@ + r2));
    lemma_array64_prefix(s1.signature, s2.signature, s1.public_key@ + r1, s2.public_key@ + r2);
    lemma_array32_prefix(s1.public_key, s2.public_key, r1, r2);
}

/// The encoding of a non-empty sequence of transactions starts with the
/// encoding of its first transaction.
pub proof fn lemma_transactions_bytes_front(txs: Seq<SignedTransaction>)
    requires
        txs.len() > 0,
    ensures
        transactions_bytes(txs) == signed_transaction_bytes(txs[0]) + transactions_bytes(
            txs.drop_first(),
        ),
    decreases txs.len(),
{
    if txs.len() == 1 {
        assert(txs.drop_last() =~= Seq::<SignedTransaction>::empty());
        assert(txs.drop_first() =~= Seq::<SignedTransaction>::empty());
        assert(transactions_bytes(txs) =~= signed_transaction_bytes(txs[0]) + transactions_bytes(
            txs.drop_first(),
        ));
    } else {
        let init = txs.drop_last();
        lemma_transactions_bytes_front(init);
        assert(init.drop_first() =~= txs.drop_first().drop_last());
        assert(init[0] == txs[0]);
        assert(txs.drop_first().last() == txs.last());
        assert(transactions_bytes(txs) =~= signed_transaction_bytes(txs[0]) + transactions_bytes(
            txs.drop_first(),
        ));
    }
}

/// Two sequences of transactions of the same length whose encodings, each
/// followed by anything, agree are equal, and so is what follows.
pub proof fn lemma_transactions_prefix(
    t1: Seq<SignedTransaction>,
    t2: Seq<SignedTransaction>,
    r1: Seq<u8>,
    r2: Seq<u8>,
)
    requires
        t1.len() == t2.len(),
        transactions_bytes(t1) + r1 == transactions_bytes(t2) + r2,
    ensures
        t1 == t2,
        r1 == r2,
    decreases t1.len(),
{
    if t1.len() == 0 {
        assert(transactions_bytes(t1) + r1 =~= r1);
        assert(transactions_bytes(t2) + r2 =~= r2);
        assert(t1 =~= t2);
    } else {
        lemma_transactions_bytes_front(t1);
        lemma_transactions_bytes_front(t2);
        let u1 = transactions_bytes(t1.drop_first()) + r1;
        let u2 = transactions_bytes(t2.drop_first()) + r2;
        assert(transactions_bytes(t1) + r1 =~= signed_transaction_bytes(t1[0]) + u1);
        assert(transactions_bytes(t2) + r2 =~= signed_transaction_bytes(t2[0]) + u2);
        lemma_signed_transaction_prefix(t1[0], t2[0], u1, u2);
        lemma_transactions_prefix(t1.drop_first(), t2.drop_first(), r1, r2);
        assert forall|i: int| 0 <= i < t1.len() implies t1[i] == t2[i] by {
            if i > 0 {
                assert(t1[i] == t1.drop_first()[i - 1]);
                assert(t2[i] == t2.drop_first()[i - 1]);
            }
        }
        assert(t1 =~= t2);
    }
}

/// Blocks with the same encoding are the same block.
pub proof fn lemma_block_bytes_injective(b1: BlockView, b2: BlockView)
    requires
        block_bytes(b1) == block_bytes(b2),
    ensures
        b1 == b2,
{
    let e = Seq::<u8>::empty();
    let x1 = transactions_bytes(b1.transactions) + e;
    let x2 = transactions_bytes(b2.transactions) + e;
    let c1 = varint(b1.transactions.len()) + x1;
    let c2 = varint(b2.transactions.len()) + x2;
    let n1 = varint(b1.nonce as nat) + c1;
    let n2 = varint(b2.nonce as nat) + c2;
    let p1 = b1.producer@ + n1;
    let p2 = b2.producer@ + n2;
    lemma_concat5(b1.prev_hash@, b1.producer@, varint(b1.nonce as nat), varint(b1.transactions.len()), transactions_bytes(b1.transactions), e);
    lemma_concat5(b2.prev_hash@, b2.producer@, varint(b2.nonce as nat), varint(b2.transactions.len()), transactions_bytes(b2.transactions), e);
    assert(block_bytes(b1) + e =~= block_bytes(b1));
    assert(block_bytes(b2) + e =~= block_bytes(b2));
    lemma_array32_prefix(b1.prev_hash, b2.prev_hash, p1, p2);
    lemma_array32_prefix(b1.producer, b2.producer, n1, n2);
    lemma_varint_prefix_free(b1.nonce as nat, b2.nonce as nat, c1, c2);
    lemma_varint_prefix_free(b1.transactions.len(), b2.transactions.len(), x1, x2);
    lemma_transactions_prefix(b1.transactions, b2.transactions, e, e);
}

} // verus!
