use lib::block::TernaryBlock as FullBlock;
use lib::chain::TernaryChain;
use lib::hash::{hash_pair, ternary_hash as hash27, HASH_LEN};
use lib::merkle::TernaryMerkle as FullMerkle;
use lib::pow::{has_leading_zeros, ProofOfWork};
use lib::transaction::{transactions_balanced, TernaryTransaction as FullTx, TxType};
use lib::{
    bytes_to_trits, leading_zeros, ternary_hash, validate_chain, TernaryBlock, TernaryMerkle,
    TernaryTransaction,
};

fn tx(v: i64, t: TxType) -> FullTx {
    FullTx::new(v, t, [3u8; 8], [4u8; 8])
}

#[test]
fn bytes_to_trits_exact_digits() {
    assert_eq!(bytes_to_trits(&[42]), vec![-1, 1, 0, 0, -1]);
    assert_eq!(bytes_to_trits(&[]), Vec::<i8>::new());
}

#[test]
fn bytes_to_trits_decodes_mod_243() {
    for b in 0..=255u8 {
        let t = bytes_to_trits(&[b]);
        let mut value: u32 = 0;
        let mut p: u32 = 1;
        for &d in &t {
            value += (d as i32 + 1) as u32 * p;
            p *= 3;
        }
        assert_eq!(value, b as u32 % 243);
    }
}

#[test]
fn hash24_exact_values() {
    assert_eq!(
        ternary_hash(b""),
        vec![1, 1, 1, -1, -1, -1, -1, -1, -1, -1, -1, -1, -1, -1, -1, -1, -1, -1, -1, -1, 0, 0, 0, 0]
    );
    assert_eq!(
        ternary_hash(b"abc"),
        vec![-1, 0, -1, 1, -1, 0, 1, 1, 0, -1, 1, -1, -1, -1, 0, 1, -1, 0, -1, -1, -1, -1, -1, 0]
    );
}

#[test]
fn hash27_exact_values() {
    assert_eq!(
        hash27(b""),
        [1, 1, 1, 1, 1, 1, 0, 1, 1, 1, -1, 0, 0, 0, 0, 1, -1, 1, 1, 1, 1, 1, 1, 1, 1, 1, 1]
    );
    assert_eq!(
        hash27(b"abc"),
        [1, 1, 1, 1, -1, 1, 0, -1, 0, 1, 1, -1, -1, -1, -1, -1, -1, -1, -1, -1, 1, 1, 1, 1, 1, -1, -1]
    );
}

#[test]
fn hash27_bytes_243_apart_collide() {
    // Five balanced trits cover -121..=121 only: 0 and 243 have the same digits.
    assert_eq!(hash27(&[0]), hash27(&[243]));
    assert_ne!(hash27(&[0]), hash27(&[1]));
}

#[test]
fn hash_pair_hashes_shifted_concatenation() {
    let a = hash27(b"left");
    let b = hash27(b"right");
    let mut bytes = Vec::new();
    for &t in a.iter().chain(b.iter()) {
        bytes.push((t + 1) as u8);
    }
    assert_eq!(hash_pair(&a, &b), hash27(&bytes));
    assert_ne!(hash_pair(&a, &b), hash_pair(&b, &a));
}

#[test]
fn leading_zeros_of_empty_is_zero() {
    assert_eq!(leading_zeros(&[]), 0);
    assert_eq!(leading_zeros(&[0, 1, 0]), 1);
}

#[test]
fn compact_transaction_bytes_exact() {
    let t = TernaryTransaction::send(1, "a", "b", 2);
    assert_eq!(t.to_bytes(), vec![0, 1, 0, 0, 0, 0, 0, 0, 0, 97, 0, 98, 0, 2, 0, 0, 0, 0, 0, 0, 0]);
    let h = TernaryTransaction::hold(5, "me", 0);
    assert_eq!(h.receiver, "me");
    assert_eq!(h.to_bytes()[0], 1);
}

#[test]
fn compact_block_mining_restarts_from_zero() {
    let t = TernaryTransaction::receive(7, "x", "y", 1);
    let mut b = TernaryBlock::new(3, vec![t], vec![0i8; 24]);
    b.nonce = 5;
    b.hash = vec![];
    assert!(!b.is_valid(0));
    b.mine(0);
    assert_eq!(b.nonce, 0);
    assert!(b.is_valid(0));
    assert_eq!(b.hash, TernaryBlock::new(3, b.transactions.clone(), vec![0i8; 24]).hash);
}

#[test]
fn compact_block_tampering_is_detected() {
    let mut b = TernaryBlock::genesis();
    assert!(b.is_valid(0));
    b.index = 9;
    assert!(!b.is_valid(0));
}

#[test]
fn compact_chain_edges() {
    let genesis = TernaryBlock::genesis();
    assert!(validate_chain(&[], 0));
    assert!(validate_chain(&[genesis.clone()], 5));
    let stray = TernaryBlock::new(1, Vec::new(), vec![1i8; 24]);
    assert!(!validate_chain(&[genesis, stray], 0));
}

#[test]
fn compact_merkle_single_and_three() {
    let t0 = TernaryTransaction::send(1, "a", "b", 0);
    let m1 = TernaryMerkle::new(&[t0.clone()]);
    assert_eq!(m1.root, t0.hash());
    let t1 = TernaryTransaction::send(2, "a", "b", 1);
    let t2 = TernaryTransaction::send(3, "a", "b", 2);
    let m3 = TernaryMerkle::new(&[t0.clone(), t1.clone(), t2.clone()]);
    let shift = |v: &Vec<i8>| v.iter().map(|&t| (t + 1) as u8).collect::<Vec<u8>>();
    let mut left = shift(&t0.hash());
    left.extend(shift(&t1.hash()));
    let l = ternary_hash(&left);
    let r = ternary_hash(&shift(&t2.hash()));
    let mut top = shift(&l);
    top.extend(shift(&r));
    assert_eq!(m3.root, ternary_hash(&top));
    assert_eq!(TernaryMerkle::new(&[]).root, vec![0i8; 24]);
}

#[test]
fn full_transaction_bytes_exact() {
    let t = FullTx::new(-1, TxType::Send, [1u8; 8], [2u8; 8]);
    let mut expected = vec![255u8; 8];
    expected.push(0);
    expected.extend([1u8; 8]);
    expected.extend([2u8; 8]);
    assert_eq!(t.to_bytes(), expected);
    assert_eq!(TxType::Hold.as_trit(), 0);
    assert_eq!(TxType::Receive.as_trit(), 1);
}

#[test]
fn balance_edge_cases() {
    assert!(transactions_balanced(&[]));
    assert!(transactions_balanced(&[tx(1, TxType::Hold)]));
    assert!(!transactions_balanced(&[tx(1, TxType::Receive)]));
    assert!(transactions_balanced(&[
        tx(1, TxType::Send),
        tx(1, TxType::Hold),
        tx(1, TxType::Receive),
        tx(1, TxType::Send),
        tx(1, TxType::Receive),
    ]));
}

#[test]
fn leading_zero_check_edges() {
    let zero = [0i8; HASH_LEN];
    assert!(has_leading_zeros(&zero, 27));
    assert!(!has_leading_zeros(&zero, 28));
    assert!(!has_leading_zeros(&zero, 40));
    let mut h = [0i8; HASH_LEN];
    h[0] = 1;
    assert!(has_leading_zeros(&h, 0));
    assert!(!has_leading_zeros(&h, 1));
    h[0] = 0;
    h[2] = -1;
    assert!(has_leading_zeros(&h, 2));
    assert!(!has_leading_zeros(&h, 3));
}

#[test]
fn full_block_header_layout() {
    let b = FullBlock::with_timestamp(5, [1i8; HASH_LEN], vec![tx(2, TxType::Hold)], 7, 9);
    let bytes = b.header_bytes();
    assert_eq!(bytes.len(), 8 + 27 + 27 + 8 + 8);
    assert_eq!(&bytes[0..8], &[5, 0, 0, 0, 0, 0, 0, 0]);
    assert!(bytes[8..35].iter().all(|&x| x == 2));
    assert_eq!(&bytes[62..70], &[7, 0, 0, 0, 0, 0, 0, 0]);
    assert_eq!(&bytes[70..78], &[9, 0, 0, 0, 0, 0, 0, 0]);
    assert_eq!(b.hash(), hash27(&bytes));
    let single = FullMerkle::new(&[tx(2, TxType::Hold)]);
    assert_eq!(b.merkle_root, single.root());
}

#[test]
fn full_mining_takes_first_nonce() {
    let b = FullBlock::with_timestamp(1, [0i8; HASH_LEN], vec![], 0, 42);
    let mined = ProofOfWork::mine(b.clone(), 2);
    assert!(ProofOfWork::verify(&mined, 2));
    for n in 0..mined.nonce {
        let mut probe = b.clone();
        probe.nonce = n;
        assert!(!ProofOfWork::verify(&probe, 2));
    }
}

#[test]
fn merkle_proofs_for_odd_tree() {
    let txs = vec![tx(1, TxType::Hold), tx(2, TxType::Hold), tx(3, TxType::Hold)];
    let m = FullMerkle::new(&txs);
    let root = m.root();
    for (i, t) in txs.iter().enumerate() {
        let p = m.proof_path(i);
        assert_eq!(p.len(), 2);
        assert!(FullMerkle::verify_proof(&t.hash(), &p, &root));
    }
    assert!(m.proof_path(3).is_empty());
    let p = m.proof_path(0);
    assert!(!FullMerkle::verify_proof(&txs[1].hash(), &p, &root));
    let expected = hash_pair(&hash_pair(&txs[0].hash(), &txs[1].hash()), &hash_pair(&txs[2].hash(), &txs[2].hash()));
    assert_eq!(root, expected);
}

#[test]
fn merkle_small_roots() {
    assert_eq!(FullMerkle::from_hashes(vec![]).root(), [0i8; HASH_LEN]);
    let h = hash27(b"leaf");
    assert_eq!(FullMerkle::from_hashes(vec![h]).root(), h);
    assert!(FullMerkle::from_hashes(vec![h]).proof_path(0).is_empty());
}

#[test]
fn full_chain_edges() {
    let mut chain = TernaryChain::new(1);
    assert!(chain.validate());
    assert_eq!(chain.len(), 0);
    chain.add_block(vec![tx(1, TxType::Send), tx(1, TxType::Receive)]);
    assert!(chain.validate());
    chain.add_block(vec![tx(1, TxType::Send)]);
    assert_eq!(chain.len(), 2);
    assert!(!chain.validate());
}

#[test]
fn full_chain_at_fixed_times() {
    let mut chain = TernaryChain::new(1);
    chain.init_genesis_at(vec![], 100);
    chain.add_block_at(vec![tx(4, TxType::Hold)], 200);
    assert!(chain.validate());
    assert_eq!(chain.blocks[1].prev_hash, chain.blocks[0].hash());
    assert_eq!(chain.blocks[1].index, 1);
    assert_eq!(chain.blocks[1].timestamp, 200);
    chain.blocks[1].prev_hash[0] = if chain.blocks[1].prev_hash[0] == 0 { 1 } else { 0 };
    assert!(!chain.validate());
}

#[test]
fn tampering_index_by_243_goes_unnoticed() {
    // Index bytes 0 and 243 have the same five balanced trits, so the header hash,
    // and with it the whole chain, is unchanged by this edit.
    let txs = || vec![tx(1, TxType::Send), tx(1, TxType::Receive)];
    let mut chain = TernaryChain::new(1);
    chain.init_genesis(txs());
    chain.add_block(txs());
    let before = chain.blocks[0].hash();
    chain.blocks[0].index = 243;
    assert_eq!(chain.blocks[0].hash(), before);
    assert!(chain.validate());
}
