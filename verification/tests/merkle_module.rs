use lib::merkle::TernaryMerkle;
use lib::transaction::{TernaryTransaction, TxType};

fn make_tx(v: i64) -> TernaryTransaction {
    TernaryTransaction::new(v, TxType::Hold, [0u8; 8], [0u8; 8])
}

#[test]
fn merkle_root_consistent() {
    let txs = vec![make_tx(1), make_tx(2), make_tx(3), make_tx(4)];
    let m = TernaryMerkle::new(&txs);
    assert_eq!(m.root(), m.root());
}

#[test]
fn merkle_root_changes_with_different_txs() {
    let txs1 = vec![make_tx(1), make_tx(2)];
    let txs2 = vec![make_tx(3), make_tx(4)];
    let m1 = TernaryMerkle::new(&txs1);
    let m2 = TernaryMerkle::new(&txs2);
    assert_ne!(m1.root(), m2.root());
}

#[test]
fn merkle_proof_verifies() {
    let txs = vec![make_tx(10), make_tx(20), make_tx(30), make_tx(40)];
    let m = TernaryMerkle::new(&txs);
    let root = m.root();
    let proof = m.proof_path(1);
    assert!(TernaryMerkle::verify_proof(&txs[1].hash(), &proof, &root));
}
