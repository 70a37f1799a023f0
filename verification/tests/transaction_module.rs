use lib::transaction::{transactions_balanced, TernaryTransaction, TxType};

#[test]
fn transaction_serializes_consistently() {
    let tx = TernaryTransaction::new(100, TxType::Send, [1u8; 8], [2u8; 8]);
    assert_eq!(tx.to_bytes(), tx.to_bytes());
}

#[test]
fn transaction_hash_is_trit_valued() {
    let tx = TernaryTransaction::new(50, TxType::Receive, [0u8; 8], [1u8; 8]);
    let h = tx.hash();
    for &t in &h {
        assert!(t == -1 || t == 0 || t == 1);
    }
}

#[test]
fn balanced_transactions() {
    let txs = vec![
        TernaryTransaction::new(100, TxType::Send, [1u8; 8], [2u8; 8]),
        TernaryTransaction::new(100, TxType::Receive, [2u8; 8], [1u8; 8]),
    ];
    assert!(transactions_balanced(&txs));
}

#[test]
fn unbalanced_transactions_detected() {
    let txs = vec![
        TernaryTransaction::new(100, TxType::Send, [1u8; 8], [2u8; 8]),
        TernaryTransaction::new(100, TxType::Send, [2u8; 8], [3u8; 8]),
    ];
    assert!(!transactions_balanced(&txs));
}
