use ed25519_dalek::{Signer, SigningKey};
use ledgerzero::crypto::signature::address_from_pubkey;
use ledgerzero::ledger::block::Block;
use ledgerzero::ledger::consensus::Chain;
use ledgerzero::ledger::mempool::assemble_block;
use ledgerzero::ledger::pow;
use ledgerzero::ledger::state::State;
use ledgerzero::ledger::transaction::{SignedTransaction, Transaction};
use ledgerzero::ledger::types::{genesis_hash, zero_address, Address};
use ledgerzero::node::node::Node;

/// A keypair from a fixed seed and the address it controls.
fn create_user(seed_byte: u8) -> (SigningKey, Address) {
    let seed = [seed_byte; 32];
    let signing_key = SigningKey::from_bytes(&seed);
    let public_key = signing_key.verifying_key().to_bytes();
    let address = address_from_pubkey(&public_key);
    (signing_key, address)
}

fn create_signed_tx(
    signing_key: &SigningKey,
    from: Address,
    to: Address,
    amount: u64,
    fee: u64,
    nonce: u64,
) -> SignedTransaction {
    let tx = Transaction { from, to, amount, fee, nonce };
    let tx_hash = tx.hash();
    let signature = signing_key.sign(&tx_hash);
    SignedTransaction {
        tx,
        signature: signature.to_bytes(),
        public_key: signing_key.verifying_key().to_bytes(),
    }
}

fn create_genesis_block() -> Block {
    Block { prev_hash: genesis_hash(), producer: zero_address(), nonce: 0, transactions: vec![] }
}

#[test]
fn test_mempool_and_chain_flow() {
    let (user1_key, user1_addr) = create_user(11);
    let (_user2_key, user2_addr) = create_user(12);
    let miner_addr: Address = [99u8; 32];

    let mut genesis_state = State::new();
    genesis_state.balances.insert(user1_addr, 1000);
    genesis_state.nonces.insert(user1_addr, 0);
    genesis_state.balances.insert(miner_addr, 0);
    genesis_state.nonces.insert(miner_addr, 0);

    let genesis_block = create_genesis_block();
    let chain = Chain::new(genesis_state.clone(), genesis_block);
    let mut node = Node::new(chain);

    let signed_tx = create_signed_tx(&user1_key, user1_addr, user2_addr, 100, 1, 1);
    let result = node.on_transaction(signed_tx.clone());
    assert!(result.is_ok(), "Transaction should be added to mempool");

    let mempool_txs = node.mempool.by_account.get(&user1_addr);
    assert!(mempool_txs.is_some(), "User1 should have pending txs in mempool");
    assert_eq!(mempool_txs.unwrap().len(), 1, "Should have exactly 1 tx");

    let mut block = assemble_block(&node.chain.state, node.chain.tip, &node.mempool, miner_addr).unwrap();
    assert_eq!(block.transactions.len(), 1, "Block should contain 1 tx");

    pow::mining(&mut block).expect("Mining should succeed");

    let result = node.on_block(block.clone());
    assert!(result.is_ok(), "Block should be added to chain");

    let user1_new_balance = *node.chain.state.balances.get(&user1_addr).unwrap();
    let user2_balance = *node.chain.state.balances.get(&user2_addr).unwrap_or(&0);
    let miner_balance = *node.chain.state.balances.get(&miner_addr).unwrap();

    assert_eq!(user1_new_balance, 1000 - 100 - 1, "User1 should have 899");
    assert_eq!(user2_balance, 100, "User2 should have 100");
    assert_eq!(miner_balance, 1, "Miner should have 1 (fee)");

    assert!(
        node.mempool.by_account.get(&user1_addr).is_none()
            || node.mempool.by_account.get(&user1_addr).unwrap().is_empty(),
        "Mempool should be empty after block"
    );
}

#[test]
fn test_two_nodes_consensus() {
    let (user1_key, user1_addr) = create_user(21);
    let (_user2_key, user2_addr) = create_user(22);
    let miner_addr: Address = [99u8; 32];

    let mut genesis_state = State::new();
    genesis_state.balances.insert(user1_addr, 1000);
    genesis_state.nonces.insert(user1_addr, 0);
    genesis_state.balances.insert(miner_addr, 0);
    genesis_state.nonces.insert(miner_addr, 0);

    let genesis_block = create_genesis_block();
    let chain1 = Chain::new(genesis_state.clone(), genesis_block.clone());
    let chain2 = Chain::new(genesis_state.clone(), genesis_block.clone());
    let mut node1 = Node::new(chain1);
    let mut node2 = Node::new(chain2);

    assert_eq!(node1.chain.tip, node2.chain.tip, "Both nodes should have same genesis tip");

    let signed_tx = create_signed_tx(&user1_key, user1_addr, user2_addr, 50, 1, 1);
    node1.on_transaction(signed_tx.clone()).unwrap();
    node2.on_transaction(signed_tx).unwrap();

    let mut block = assemble_block(&node1.chain.state, node1.chain.tip, &node1.mempool, miner_addr).unwrap();
    pow::mining(&mut block).unwrap();

    node1.on_block(block.clone()).unwrap();
    node2.on_block(block).unwrap();

    assert_eq!(node1.chain.tip, node2.chain.tip, "Both nodes should have same tip after sync");
    let node1_user2_bal = *node1.chain.state.balances.get(&user2_addr).unwrap_or(&0);
    let node2_user2_bal = *node2.chain.state.balances.get(&user2_addr).unwrap_or(&0);
    assert_eq!(node1_user2_bal, node2_user2_bal, "Both nodes should have same user2 balance");
    assert_eq!(node1_user2_bal, 50, "User2 should have 50");
}
