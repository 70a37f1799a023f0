use lib::chain::TernaryChain;
use lib::transaction::{TernaryTransaction, TxType};

fn txs() -> Vec<TernaryTransaction> {
    vec![
        TernaryTransaction::new(1, TxType::Send, [0u8; 8], [1u8; 8]),
        TernaryTransaction::new(1, TxType::Receive, [1u8; 8], [0u8; 8]),
    ]
}

#[test]
fn chain_validates_after_building() {
    let mut chain = TernaryChain::new(1);
    chain.init_genesis(txs());
    chain.add_block(txs());
    assert!(chain.validate());
}

#[test]
fn chain_detects_tampered_block() {
    let mut chain = TernaryChain::new(1);
    chain.init_genesis(txs());
    chain.add_block(txs());
    // Tamper with the genesis block's nonce
    chain.blocks[0].nonce = chain.blocks[0].nonce.wrapping_add(999999);
    assert!(!chain.validate());
}

#[test]
fn chain_grows_correctly() {
    let mut chain = TernaryChain::new(1);
    chain.init_genesis(txs());
    chain.add_block(txs());
    chain.add_block(txs());
    assert_eq!(chain.len(), 3);
}
