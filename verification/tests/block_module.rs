use lib::block::TernaryBlock;
use lib::hash::HASH_LEN;
use lib::transaction::{TernaryTransaction, TxType};

fn balanced_txs() -> Vec<TernaryTransaction> {
    vec![
        TernaryTransaction::new(10, TxType::Send, [1u8; 8], [2u8; 8]),
        TernaryTransaction::new(10, TxType::Receive, [2u8; 8], [1u8; 8]),
    ]
}

#[test]
fn block_hash_is_deterministic() {
    let b = TernaryBlock::genesis(balanced_txs());
    assert_eq!(b.hash(), b.hash());
}

#[test]
fn block_hash_changes_with_nonce() {
    let b1 = TernaryBlock::new(0, [0i8; HASH_LEN], balanced_txs(), 0);
    let b2 = TernaryBlock::new(0, [0i8; HASH_LEN], balanced_txs(), 1);
    assert_ne!(b1.hash(), b2.hash());
}

#[test]
fn block_validity_checks_prev_hash() {
    let genesis = TernaryBlock::genesis(balanced_txs());
    let genesis_hash = genesis.hash();
    let b2 = TernaryBlock::new(1, genesis_hash, balanced_txs(), 0);
    assert!(b2.is_valid(&genesis_hash));
    assert!(!b2.is_valid(&[1i8; HASH_LEN]));
}
