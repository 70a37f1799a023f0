use lib::{
    bytes_to_trits, leading_zeros, ternary_hash, validate_chain, TernaryBlock, TernaryMerkle,
    TernaryTransaction,
};

#[test]
fn bytes_to_trits_roundtrip() {
    let data = vec![42u8, 100, 200];
    let trits = bytes_to_trits(&data);
    assert_eq!(trits.len(), 15);
    for &t in &trits {
        assert!(t >= -1 && t <= 1);
    }
}

#[test]
fn hash_deterministic() {
    let h1 = ternary_hash(b"hello");
    let h2 = ternary_hash(b"hello");
    assert_eq!(h1, h2);
}

#[test]
fn hash_different_inputs() {
    let h1 = ternary_hash(b"hello");
    let h2 = ternary_hash(b"world");
    assert_ne!(h1, h2);
}

#[test]
fn hash_size() {
    let h = ternary_hash(b"test");
    assert_eq!(h.len(), 24);
    for &t in &h {
        assert!(t >= -1 && t <= 1);
    }
}

#[test]
fn leading_zeros_count() {
    assert_eq!(leading_zeros(&[0, 0, 0, -1, 1]), 3);
    assert_eq!(leading_zeros(&[1, 0, 0]), 0);
    assert_eq!(leading_zeros(&[0, 0, 0, 0, 0]), 5);
}

#[test]
fn transaction_types() {
    let send = TernaryTransaction::send(100, "alice", "bob", 0);
    assert_eq!(send.tx_type, -1);
    let hold = TernaryTransaction::hold(50, "alice", 0);
    assert_eq!(hold.tx_type, 0);
    let recv = TernaryTransaction::receive(100, "alice", "bob", 0);
    assert_eq!(recv.tx_type, 1);
}

#[test]
fn transaction_hash() {
    let tx = TernaryTransaction::send(100, "alice", "bob", 0);
    let h = tx.hash();
    assert_eq!(h.len(), 24);
}

#[test]
fn genesis_block() {
    let genesis = TernaryBlock::genesis();
    assert_eq!(genesis.index, 0);
    assert!(genesis.transactions.is_empty());
}

#[test]
fn mine_finds_nonce() {
    // Use difficulty 0 (no PoW requirement) to test mining mechanics
    let tx = TernaryTransaction::send(50, "alice", "bob", 0);
    let mut block = TernaryBlock::new(1, vec![tx], vec![0i8; 24]);
    block.mine(0); // 0 leading zero trits = always valid
    assert!(block.is_valid(0));
}

#[test]
fn chain_validation() {
    let genesis = TernaryBlock::genesis();
    let tx = TernaryTransaction::send(10, "alice", "bob", 0);
    let block1 = TernaryBlock::new(1, vec![tx], genesis.hash.clone());
    assert!(validate_chain(&[genesis, block1], 0));
}

#[test]
fn merkle_tree() {
    let txs: Vec<TernaryTransaction> =
        (0..4).map(|i| TernaryTransaction::send(i, "alice", "bob", i)).collect();
    let merkle = TernaryMerkle::new(&txs);
    assert_eq!(merkle.root.len(), 24);
    assert_eq!(merkle.leaves.len(), 4);
}

#[test]
fn merkle_empty() {
    let merkle = TernaryMerkle::new(&[]);
    assert_eq!(merkle.root.len(), 24);
}
