use ed25519_dalek::{Signer, SigningKey};
use ledgerzero::crypto::hash::sha256_raw;
use ledgerzero::crypto::signature::{address_from_pubkey, verify_signature};
use ledgerzero::framing::{encode_frame, frame_len, split_frames, FrameError};
use ledgerzero::ledger::address_map::{compare_keys, AddressMap, KeyOrder};
use ledgerzero::ledger::block::Block;
use ledgerzero::ledger::consensus::{Chain, ChainError};
use ledgerzero::ledger::encoding::{encode_block, encode_signed_transaction, encode_transaction};
use ledgerzero::ledger::mempool::{assemble_block, Mempool, MempoolError};
use ledgerzero::ledger::pow::{mining, valid_pow};
use ledgerzero::ledger::state::{apply, State};
use ledgerzero::ledger::transaction::{validate, SignedTransaction, Transaction, ValidationError};
use ledgerzero::ledger::types::{genesis_hash, zero_address, Address};
use ledgerzero::net::gossip::{Gossip, GossipData};
use ledgerzero::net::peer::{Peer, PeerIp, PeerList};
use ledgerzero::net::transport::TransportError;
use ledgerzero::node::node::{MiningRound, Node, NodeError};
use ledgerzero::storage::block_store::startup_chain;

fn user(seed_byte: u8) -> (SigningKey, Address) {
    let key = SigningKey::from_bytes(&[seed_byte; 32]);
    let addr = address_from_pubkey(&key.verifying_key().to_bytes());
    (key, addr)
}

fn signed(key: &SigningKey, from: Address, to: Address, amount: u64, fee: u64, nonce: u64) -> SignedTransaction {
    let tx = Transaction { from, to, amount, fee, nonce };
    let sig = key.sign(&tx.hash());
    SignedTransaction { tx, signature: sig.to_bytes(), public_key: key.verifying_key().to_bytes() }
}

fn genesis_block() -> Block {
    Block { prev_hash: genesis_hash(), producer: zero_address(), nonce: 0, transactions: vec![] }
}

fn state_with(accounts: &[(Address, u64, u64)]) -> State {
    let mut s = State::new();
    for (a, b, n) in accounts {
        s.balances.insert(*a, *b);
        s.nonces.insert(*a, *n);
    }
    s
}

fn balance(s: &State, a: &Address) -> Option<u64> {
    s.balances.get(a).copied()
}

fn nonce(s: &State, a: &Address) -> Option<u64> {
    s.nonces.get(a).copied()
}

#[test]
fn transaction_encoding_is_postcard() {
    let tx = Transaction { from: [3u8; 32], to: [4u8; 32], amount: 300, fee: u64::MAX, nonce: 127 };
    let expected = postcard::to_allocvec(&(tx.from, tx.to, tx.amount, tx.fee, tx.nonce)).unwrap();
    assert_eq!(encode_transaction(&tx), expected);
    // 300 is the two-byte varint AC 02.
    assert_eq!(&encode_transaction(&tx)[64..66], &[0xAC, 0x02]);
}

#[test]
fn block_encoding_is_postcard() {
    let (k1, a1) = user(1);
    let (_, a2) = user(2);
    let t1 = signed(&k1, a1, a2, 5, 1, 1);
    let t2 = signed(&k1, a1, a2, 1000, 2, 2);
    let block = Block { prev_hash: [9u8; 32], producer: [8u8; 32], nonce: 200, transactions: vec![t1, t2] };
    let as_tuple = |s: &SignedTransaction| {
        let mut lo = [0u8; 32];
        let mut hi = [0u8; 32];
        lo.copy_from_slice(&s.signature[..32]);
        hi.copy_from_slice(&s.signature[32..]);
        ((s.tx.from, s.tx.to, s.tx.amount, s.tx.fee, s.tx.nonce), (lo, hi), s.public_key)
    };
    let txs: Vec<_> = block.transactions.iter().map(as_tuple).collect();
    let expected = postcard::to_allocvec(&(block.prev_hash, block.producer, block.nonce, txs)).unwrap();
    assert_eq!(encode_block(&block), expected);
    let one = postcard::to_allocvec(&as_tuple(&t1)).unwrap();
    assert_eq!(encode_signed_transaction(&t1), one);
}

#[test]
fn sha256_known_digest() {
    let d = sha256_raw(b"abc");
    assert_eq!(d[..4], [0xba, 0x78, 0x16, 0xbf]);
    assert_eq!(d[28..], [0xf2, 0x00, 0x15, 0xad]);
}

#[test]
fn hashes_commit_to_contents() {
    let tx = Transaction { from: [3u8; 32], to: [4u8; 32], amount: 1, fee: 1, nonce: 1 };
    let mut tx2 = tx;
    tx2.amount = 2;
    assert_ne!(tx.hash(), tx2.hash());
    assert_eq!(tx.hash(), sha256_raw(&encode_transaction(&tx)));
    let b1 = genesis_block();
    let mut b2 = genesis_block();
    b2.producer = [1u8; 32];
    assert_ne!(b1.hash(), b2.hash());
    assert_eq!(b1.hash(), sha256_raw(&encode_block(&b1)));
    assert_eq!(b1.work(), 1);
}

#[test]
fn signatures_verify() {
    let (k, a) = user(5);
    let stx = signed(&k, a, [0u8; 32], 1, 1, 1);
    assert!(verify_signature(&stx.tx.hash(), &stx.signature, &stx.public_key));
    let mut bad = stx.signature;
    bad[0] ^= 1;
    assert!(!verify_signature(&stx.tx.hash(), &bad, &stx.public_key));
    assert!(!verify_signature(&[0u8; 32], &stx.signature, &stx.public_key));
    assert_eq!(address_from_pubkey(&stx.public_key), sha256_raw(&stx.public_key));
}

#[test]
fn validate_reports_each_error() {
    let (k, a) = user(6);
    let (_, b) = user(7);
    let s = state_with(&[(a, 100, 0)]);
    assert_eq!(validate(&s, &signed(&k, a, b, 10, 1, 1)), Ok(()));
    assert_eq!(validate(&s, &signed(&k, a, b, u64::MAX, 1, 1)), Err(ValidationError::InsufficientBalance));
    assert_eq!(validate(&s, &signed(&k, b, a, 10, 1, 1)), Err(ValidationError::SenderAccountNotFound));
    let mut no_nonce = State::new();
    no_nonce.balances.insert(a, 100);
    assert_eq!(validate(&no_nonce, &signed(&k, a, b, 10, 1, 1)), Err(ValidationError::NonceNotFound));
    assert_eq!(validate(&s, &signed(&k, a, b, 10, 1, 2)), Err(ValidationError::InvalidNonce));
    assert_eq!(validate(&s, &signed(&k, a, b, 100, 1, 1)), Err(ValidationError::InsufficientBalance));
    assert_eq!(validate(&s, &signed(&k, a, b, 0, 1, 1)), Err(ValidationError::ZeroAmount));
    assert_eq!(validate(&s, &signed(&k, a, b, 10, 0, 1)), Err(ValidationError::ZeroFee));
    let (other, _) = user(8);
    assert_eq!(validate(&s, &signed(&other, a, b, 10, 1, 1)), Err(ValidationError::InvalidPublicKey));
    let mut forged = signed(&k, a, b, 10, 1, 1);
    forged.tx.amount = 11;
    assert_eq!(validate(&s, &forged), Err(ValidationError::InvalidSignature));
    let maxed = state_with(&[(a, 100, u64::MAX)]);
    assert_eq!(validate(&maxed, &signed(&k, a, b, 10, 1, 0)), Err(ValidationError::InvalidNonce));
}

#[test]
fn apply_moves_amount_and_fee() {
    let (k, a) = user(9);
    let (_, b) = user(10);
    let mut s = state_with(&[(a, 100, 0)]);
    let stx = signed(&k, a, b, 30, 2, 1);
    apply(&mut s, &stx);
    assert_eq!(balance(&s, &a), Some(68));
    assert_eq!(balance(&s, &b), Some(30));
    assert_eq!(nonce(&s, &a), Some(1));
    assert_eq!(nonce(&s, &b), Some(0));
    // A transaction applied once does not validate again.
    assert_eq!(validate(&s, &stx), Err(ValidationError::InvalidNonce));
    // Sending to oneself costs only the fee.
    let mut t = state_with(&[(a, 100, 4)]);
    apply(&mut t, &signed(&k, a, a, 30, 2, 5));
    assert_eq!(balance(&t, &a), Some(98));
    assert_eq!(nonce(&t, &a), Some(5));
}

#[test]
fn mining_finds_proof_of_work() {
    let mut block = genesis_block();
    block.producer = [42u8; 32];
    block.nonce = 17;
    let before = block.clone();
    assert_eq!(mining(&mut block), Ok(()));
    assert!(valid_pow(&block));
    let h = block.hash();
    assert_eq!(h[0], 0);
    assert_eq!(h[1], 0);
    assert!(block.nonce >= 17);
    assert_eq!(block.prev_hash, before.prev_hash);
    assert_eq!(block.producer, before.producer);
    // Every nonce before the one found fails.
    let mut probe = before.clone();
    while probe.nonce < block.nonce {
        assert!(!valid_pow(&probe));
        probe.nonce += 1;
    }
    // Changing the producer breaks the proof of work found.
    let mut other = block.clone();
    other.producer = [43u8; 32];
    assert_ne!(other.hash(), block.hash());
}

#[test]
fn mining_gives_up_at_the_last_nonce() {
    let mut block = genesis_block();
    block.nonce = u64::MAX;
    let r = mining(&mut block);
    assert_eq!(r.is_ok(), valid_pow(&block));
    assert_eq!(block.nonce, u64::MAX);
}

fn mined_on(parent: [u8; 32], producer: Address, txs: Vec<SignedTransaction>) -> Block {
    let mut b = Block { prev_hash: parent, producer, nonce: 0, transactions: txs };
    mining(&mut b).unwrap();
    b
}

#[test]
fn insert_block_refusals() {
    let (k, a) = user(13);
    let gs = state_with(&[(a, 100, 0)]);
    let g = genesis_block();
    let gh = g.hash();
    let mut chain = Chain::new(gs, g.clone());
    assert_eq!(chain.tip, gh);
    assert_eq!(chain.insert_block(g.clone()), Err(ChainError::DuplicateBlock));
    let mut unmined = Block { prev_hash: gh, producer: [1u8; 32], nonce: 0, transactions: vec![] };
    while valid_pow(&unmined) {
        unmined.nonce += 1;
    }
    assert_eq!(chain.insert_block(unmined), Err(ChainError::InvalidPoW));
    let orphan = mined_on([7u8; 32], [1u8; 32], vec![]);
    assert_eq!(chain.insert_block(orphan), Err(ChainError::UnknownParent));
    assert_eq!(chain.tip, gh);
    let good = mined_on(gh, [1u8; 32], vec![signed(&k, a, [2u8; 32], 10, 3, 1)]);
    let good_hash = good.hash();
    assert_eq!(chain.insert_block(good), Ok(()));
    assert_eq!(chain.tip, good_hash);
    assert_eq!(chain.meta.get(&good_hash).unwrap().height, 1);
    assert_eq!(chain.meta.get(&good_hash).unwrap().total_work, 1);
    assert_eq!(chain.meta.get(&good_hash).unwrap().parent, gh);
    assert_eq!(balance(&chain.state, &a), Some(87));
    assert_eq!(balance(&chain.state, &[1u8; 32]), Some(3));
}

#[test]
fn failed_reorg_keeps_tip() {
    let (k, a) = user(14);
    let gs = state_with(&[(a, 100, 0)]);
    let g = genesis_block();
    let gh = g.hash();
    let mut chain = Chain::new(gs, g);
    let mut bad = signed(&k, a, [2u8; 32], 10, 3, 1);
    bad.signature[5] ^= 0xff;
    let block = mined_on(gh, [1u8; 32], vec![bad]);
    let bh = block.hash();
    assert_eq!(
        chain.insert_block(block),
        Err(ChainError::TransactionValidationFailed(ValidationError::InvalidSignature))
    );
    // The block is rejected and nothing changes.
    assert_eq!(chain.tip, gh);
    assert!(!chain.blocks.contains_key(&bh));
    assert!(!chain.meta.contains_key(&bh));
    assert_eq!(balance(&chain.state, &a), Some(100));
    // A valid sibling is then accepted.
    let sibling = mined_on(gh, [5u8; 32], vec![]);
    let sh = sibling.hash();
    assert_eq!(chain.insert_block(sibling), Ok(()));
    assert_eq!(chain.tip, sh);
}

#[test]
fn equal_work_keeps_first_tip() {
    let gs = State::new();
    let g = genesis_block();
    let gh = g.hash();
    let mut chain = Chain::new(gs, g);
    let first = mined_on(gh, [5u8; 32], vec![]);
    let fh = first.hash();
    assert_eq!(chain.insert_block(first), Ok(()));
    let second = mined_on(gh, [6u8; 32], vec![]);
    assert_eq!(chain.insert_block(second), Ok(()));
    assert_eq!(chain.tip, fh);
    assert_eq!(chain.reorg_to(gh), Ok(()));
    assert_eq!(chain.tip, gh);
}

#[test]
fn chain_from_stored_blocks() {
    let g = genesis_block();
    let gh = g.hash();
    let b1 = mined_on(gh, [5u8; 32], vec![]);
    let b1h = b1.hash();
    let c = Chain::from_blocks(State::new(), vec![g.clone(), b1.clone()]).unwrap();
    assert_eq!(c.tip, b1h);
    let c = startup_chain(State::new(), vec![g.clone(), b1.clone()]).unwrap();
    assert_eq!(c.tip, b1h);
    let c = startup_chain(State::new(), vec![]).unwrap();
    assert_eq!(c.tip, gh);
    let c = Chain::from_blocks(State::new(), vec![]).unwrap();
    assert_eq!(c.tip, gh);
    assert_eq!(
        Chain::from_blocks(State::new(), vec![g.clone(), b1.clone(), b1]).err(),
        Some(ChainError::DuplicateBlock)
    );
}

#[test]
fn mempool_admission() {
    let (k, a) = user(15);
    let (_, b) = user(16);
    let mut s = state_with(&[(a, 1000, 0)]);
    let mut pool = Mempool::new();
    let t1 = signed(&k, a, b, 100, 1, 1);
    assert_eq!(
        pool.insert_transaction(&s, signed(&k, a, b, 100, 1, 2)),
        Err(MempoolError::InvalidTransaction(ValidationError::InvalidNonce))
    );
    assert_eq!(pool.insert_transaction(&s, t1), Ok(()));
    assert_eq!(pool.by_account.get(&a).unwrap().len(), 1);
    // The state moves on without the mempool hearing of it: the queue still
    // holds t1, so it counts against the balance.
    apply(&mut s, &t1);
    assert_eq!(
        pool.insert_transaction(&s, signed(&k, a, b, 849, 1, 2)),
        Err(MempoolError::InsufficientBalance)
    );
    let t2 = signed(&k, a, b, 699, 1, 2);
    assert_eq!(pool.insert_transaction(&s, t2), Ok(()));
    apply(&mut s, &t2);
    apply(&mut s, &signed(&k, a, b, 10, 1, 3));
    assert_eq!(
        pool.insert_transaction(&s, signed(&k, a, b, 1, 1, 4)),
        Err(MempoolError::NonceGap)
    );
    assert_eq!(pool.by_account.get(&a).unwrap().len(), 2);
}

#[test]
fn assembly_orders_senders_and_stops_at_invalid() {
    let (k1, a1) = user(17);
    let (k2, a2) = user(18);
    let s = state_with(&[(a1, 100, 0), (a2, 100, 0)]);
    let mut pool = Mempool::new();
    pool.insert_transaction(&s, signed(&k1, a1, a2, 10, 1, 1)).unwrap();
    pool.insert_transaction(&s, signed(&k2, a2, a1, 20, 1, 1)).unwrap();
    let block = assemble_block(&s, [7u8; 32], &pool, [9u8; 32]).unwrap();
    assert_eq!(block.prev_hash, [7u8; 32]);
    assert_eq!(block.producer, [9u8; 32]);
    assert_eq!(block.nonce, 0);
    assert_eq!(block.transactions.len(), 2);
    let first = if compare_keys(&a1, &a2) == KeyOrder::Less { a1 } else { a2 };
    assert_eq!(block.transactions[0].tx.from, first);
    // A queue whose head no longer validates contributes nothing.
    let drained = state_with(&[(a1, 5, 0), (a2, 100, 0)]);
    let block = assemble_block(&drained, [7u8; 32], &pool, [9u8; 32]).unwrap();
    assert_eq!(block.transactions.len(), 1);
    assert_eq!(block.transactions[0].tx.from, a2);
}

#[test]
fn node_deduplicates_gossip() {
    let (k, a) = user(19);
    let gs = state_with(&[(a, 100, 0)]);
    let g = genesis_block();
    let gh = g.hash();
    let mut node = Node::new(Chain::new(gs, g));
    let stx = signed(&k, a, [2u8; 32], 10, 1, 1);
    assert_eq!(node.on_transaction(stx), Ok(()));
    assert_eq!(node.on_transaction(stx), Err(NodeError::TransactionAlreadySeen));
    let bad = signed(&k, a, [2u8; 32], 10, 0, 1);
    assert_eq!(
        node.on_transaction(bad),
        Err(NodeError::MempoolError(MempoolError::InvalidTransaction(ValidationError::ZeroFee)))
    );
    let block = mined_on(gh, [3u8; 32], vec![stx]);
    assert_eq!(node.handle_gossip(Gossip::new_block(block.clone())), Ok(()));
    assert!(node.mempool.by_account.get(&a).is_none());
    assert_eq!(node.on_block(block), Err(NodeError::BlockAlreadySeen));
    let orphan = mined_on([7u8; 32], [3u8; 32], vec![]);
    assert_eq!(node.on_block(orphan), Err(NodeError::ChainError(ChainError::UnknownParent)));
}

#[test]
fn gossip_constructors() {
    let stx = signed(&user(20).0, user(20).1, [0u8; 32], 1, 1, 1);
    match Gossip::new_transaction(stx).data {
        GossipData::Transaction(t) => assert_eq!(t.tx.nonce, 1),
        _ => panic!("expected a transaction"),
    }
    match Gossip::new_block(genesis_block()).data {
        GossipData::Block(b) => assert_eq!(b.nonce, 0),
        _ => panic!("expected a block"),
    }
}

#[test]
fn frames_round_trip() {
    let a = encode_frame(&[1, 2, 3]);
    assert_eq!(a, vec![3, 0, 0, 0, 1, 2, 3]);
    assert_eq!(frame_len(&[3, 0, 0, 0]), 3);
    assert_eq!(frame_len(&[0, 1, 0, 0]), 256);
    let mut data = a.clone();
    data.extend(encode_frame(&[]));
    data.extend(encode_frame(&[9; 300]));
    let frames = split_frames(&data).unwrap();
    assert_eq!(frames, vec![vec![1, 2, 3], vec![], vec![9; 300]]);
    // Up to three trailing bytes end the sequence.
    data.extend([1, 0]);
    assert_eq!(split_frames(&data).unwrap().len(), 3);
    assert_eq!(split_frames(&[5, 0, 0, 0, 1]), Err(FrameError::Truncated));
}

#[test]
fn peers_are_listed_once() {
    let mut list = PeerList::new();
    let p = Peer { ip: PeerIp::V4([127, 0, 0, 1]), port: 8001 };
    list.add_peer(p);
    list.add_peer(p);
    list.add_peer(Peer { ip: PeerIp::V4([127, 0, 0, 1]), port: 8002 });
    list.add_peer(Peer { ip: PeerIp::V6([0; 16]), port: 8001 });
    assert_eq!(list.peers.len(), 3);
}

#[test]
fn transport_error_from_io() {
    let e = std::io::Error::new(std::io::ErrorKind::Other, "x");
    let t: TransportError = e.into();
    match t {
        TransportError::IoError(inner) => assert_eq!(inner.kind(), std::io::ErrorKind::Other),
    }
}

#[test]
fn address_map_is_sorted() {
    let mut m: AddressMap<u64> = AddressMap::new();
    m.insert([3u8; 32], 30);
    m.insert([1u8; 32], 10);
    m.insert([2u8; 32], 20);
    m.insert([1u8; 32], 11);
    assert_eq!(m.len(), 3);
    assert_eq!(*m.key_at(0), [1u8; 32]);
    assert_eq!(*m.value_at(0), 11);
    assert_eq!(*m.key_at(2), [3u8; 32]);
    assert_eq!(m.remove(&[2u8; 32]), Some(20));
    assert_eq!(m.remove(&[2u8; 32]), None);
    m.insert([4u8; 32], u64::MAX);
    assert!(m.contains_key(&[4u8; 32]));
    assert_eq!(m.len(), 3);
}

#[test]
fn failed_reorg_restores_state() {
    let (k, a) = user(23);
    let gs = state_with(&[(a, 100, 0)]);
    let g = genesis_block();
    let gh = g.hash();
    let mut chain = Chain::new(gs, g);
    let b1 = mined_on(gh, [1u8; 32], vec![signed(&k, a, [2u8; 32], 10, 3, 1)]);
    let b1h = b1.hash();
    assert_eq!(chain.insert_block(b1), Ok(()));
    assert_eq!(balance(&chain.state, &a), Some(87));
    // A heavier branch whose second block spends a nonce already used.
    let b2 = mined_on(b1h, [1u8; 32], vec![signed(&k, a, [2u8; 32], 5, 1, 2)]);
    let b2h = b2.hash();
    assert_eq!(chain.insert_block(b2), Ok(()));
    assert_eq!(balance(&chain.state, &a), Some(81));
    let b3 = mined_on(b2h, [1u8; 32], vec![signed(&k, a, [2u8; 32], 1, 1, 1)]);
    let b3h = b3.hash();
    assert_eq!(
        chain.insert_block(b3),
        Err(ChainError::TransactionValidationFailed(ValidationError::InvalidNonce))
    );
    assert_eq!(chain.tip, b2h);
    assert!(!chain.blocks.contains_key(&b3h));
    assert_eq!(balance(&chain.state, &a), Some(81));
    assert_eq!(nonce(&chain.state, &a), Some(2));
    // Switching back to an older tip replays to it.
    assert_eq!(chain.reorg_to(b1h), Ok(()));
    assert_eq!(balance(&chain.state, &a), Some(87));
}

#[test]
fn overflowing_credit_is_refused() {
    let (k, a) = user(24);
    let rich: Address = [2u8; 32];
    let gs = state_with(&[(a, 100, 0), (rich, u64::MAX, 0)]);
    let g = genesis_block();
    let gh = g.hash();
    let stx = signed(&k, a, rich, 10, 1, 1);
    let mut pool = Mempool::new();
    assert_eq!(pool.insert_transaction(&gs, stx), Ok(()));
    assert!(assemble_block(&gs, gh, &pool, [9u8; 32]).is_none());
    let mut chain = Chain::new(gs, g);
    let block = mined_on(gh, [1u8; 32], vec![stx]);
    assert_eq!(chain.insert_block(block), Err(ChainError::BalanceOverflow));
    assert_eq!(chain.tip, gh);
    assert_eq!(balance(&chain.state, &a), Some(100));
    // The producer's credit overflowing is refused too.
    let gs2 = state_with(&[(a, 100, 0), ([1u8; 32], u64::MAX, 0)]);
    let mut chain2 = Chain::new(gs2, genesis_block());
    let block2 = mined_on(gh, [1u8; 32], vec![signed(&k, a, [3u8; 32], 10, 1, 1)]);
    assert_eq!(chain2.insert_block(block2), Err(ChainError::BalanceOverflow));
}

#[test]
fn block_encoding_distinguishes_every_field() {
    let (k, a) = user(21);
    let base = Block { prev_hash: [1u8; 32], producer: [2u8; 32], nonce: 127, transactions: vec![] };
    let mut other_nonce = base.clone();
    other_nonce.nonce = 128;
    let mut other_prev = base.clone();
    other_prev.prev_hash[31] = 0;
    let mut with_tx = base.clone();
    with_tx.transactions.push(signed(&k, a, [3u8; 32], 1, 1, 1));
    let mut other_tx = base.clone();
    other_tx.transactions.push(signed(&k, a, [3u8; 32], 1, 1, 2));
    let all = [&base, &other_nonce, &other_prev, &with_tx, &other_tx];
    for (i, x) in all.iter().enumerate() {
        for (j, y) in all.iter().enumerate() {
            if i != j {
                assert_ne!(encode_block(x), encode_block(y));
                assert_ne!(x.hash(), y.hash());
            }
        }
    }
    // 127 takes one varint byte and 128 takes two.
    assert_eq!(encode_block(&base).len() + 1, encode_block(&other_nonce).len());
}

#[test]
fn assembly_ignores_arrival_order() {
    let (k1, a1) = user(22);
    let (k2, a2) = user(23);
    let s = state_with(&[(a1, 100, 0), (a2, 100, 0)]);
    let t1 = signed(&k1, a1, a2, 10, 1, 1);
    let t2 = signed(&k2, a2, a1, 20, 1, 1);
    let mut p1 = Mempool::new();
    p1.insert_transaction(&s, t1).unwrap();
    p1.insert_transaction(&s, t2).unwrap();
    let mut p2 = Mempool::new();
    p2.insert_transaction(&s, t2).unwrap();
    p2.insert_transaction(&s, t1).unwrap();
    let b1 = assemble_block(&s, [7u8; 32], &p1, [9u8; 32]).unwrap();
    let b2 = assemble_block(&s, [7u8; 32], &p2, [9u8; 32]).unwrap();
    assert_eq!(encode_block(&b1), encode_block(&b2));
    assert_eq!(b1.transactions.len(), 2);
}

#[test]
fn inserted_blocks_keep_the_tree_shape() {
    let g = genesis_block();
    let gh = g.hash();
    let mut chain = Chain::new(State::new(), g);
    let a = mined_on(gh, [5u8; 32], vec![]);
    let ah = a.hash();
    let b = mined_on(ah, [5u8; 32], vec![]);
    let bh = b.hash();
    let side = mined_on(gh, [6u8; 32], vec![]);
    let sh = side.hash();
    assert_eq!(chain.insert_block(a), Ok(()));
    assert_eq!(chain.insert_block(side), Ok(()));
    assert_eq!(chain.insert_block(b), Ok(()));
    for h in [gh, ah, bh, sh] {
        let stored = chain.blocks.get(&h).unwrap();
        assert_eq!(stored.hash(), h);
        let m = chain.meta.get(&h).unwrap();
        assert_eq!(m.total_work, m.height as u128);
        assert!(m.total_work <= chain.meta.get(&chain.tip).unwrap().total_work);
        assert_eq!(m.height == 0, h == gh);
        if m.height > 0 {
            assert_eq!(stored.prev_hash, m.parent);
            assert_eq!(chain.meta.get(&m.parent).unwrap().height + 1, m.height);
        }
    }
    assert_eq!(chain.tip, bh);
}

#[test]
fn state_follows_the_heaviest_branch() {
    let (k, a) = user(24);
    let gs = state_with(&[(a, 100, 0)]);
    let g = genesis_block();
    let gh = g.hash();
    let mut chain = Chain::new(gs, g);
    let b1 = mined_on(gh, [31u8; 32], vec![signed(&k, a, [41u8; 32], 10, 1, 1)]);
    assert_eq!(chain.insert_block(b1), Ok(()));
    assert_eq!(balance(&chain.state, &[41u8; 32]), Some(10));
    let s1 = mined_on(gh, [32u8; 32], vec![signed(&k, a, [42u8; 32], 20, 2, 1)]);
    let s1h = s1.hash();
    assert_eq!(chain.insert_block(s1), Ok(()));
    let s2 = mined_on(s1h, [33u8; 32], vec![]);
    let s2h = s2.hash();
    assert_eq!(chain.insert_block(s2), Ok(()));
    assert_eq!(chain.tip, s2h);
    // The state is the genesis state with the new branch's blocks applied.
    assert_eq!(balance(&chain.state, &a), Some(78));
    assert_eq!(nonce(&chain.state, &a), Some(1));
    assert_eq!(balance(&chain.state, &[42u8; 32]), Some(20));
    assert_eq!(balance(&chain.state, &[32u8; 32]), Some(2));
    assert_eq!(balance(&chain.state, &[41u8; 32]), None);
    assert_eq!(balance(&chain.state, &[31u8; 32]), None);
}

#[test]
fn reorg_to_before_genesis_resets_state() {
    let (k, a) = user(25);
    let gs = state_with(&[(a, 100, 0)]);
    let g = genesis_block();
    let gh = g.hash();
    let mut chain = Chain::new(gs, g);
    let b1 = mined_on(gh, [34u8; 32], vec![signed(&k, a, [43u8; 32], 10, 1, 1)]);
    assert_eq!(chain.insert_block(b1), Ok(()));
    assert_eq!(balance(&chain.state, &a), Some(89));
    assert_eq!(chain.reorg_to(genesis_hash()), Ok(()));
    assert_eq!(chain.tip, genesis_hash());
    assert_eq!(balance(&chain.state, &a), Some(100));
    assert_eq!(nonce(&chain.state, &a), Some(0));
    assert_eq!(balance(&chain.state, &[43u8; 32]), None);
}

#[test]
fn produce_block_mines_and_adopts() {
    let (k, a) = user(26);
    let gs = state_with(&[(a, 100, 0)]);
    let g = genesis_block();
    let gh = g.hash();
    let mut node = Node::new(Chain::new(gs, g));
    let stx = signed(&k, a, [44u8; 32], 10, 2, 1);
    assert_eq!(node.on_transaction(stx), Ok(()));
    match node.produce_block([35u8; 32]) {
        MiningRound::Mined(b, res) => {
            assert_eq!(res, Ok(()));
            assert_eq!(b.prev_hash, gh);
            assert_eq!(b.producer, [35u8; 32]);
            assert_eq!(b.transactions.len(), 1);
            assert!(valid_pow(&b));
            for n in 0..b.nonce {
                let mut earlier = b.clone();
                earlier.nonce = n;
                assert!(!valid_pow(&earlier));
            }
            assert_eq!(node.chain.tip, b.hash());
        }
        other => panic!("unexpected round: {:?}", other),
    }
    assert!(node.mempool.by_account.get(&a).is_none());
    assert_eq!(balance(&node.chain.state, &a), Some(88));
    assert_eq!(balance(&node.chain.state, &[35u8; 32]), Some(2));
}
