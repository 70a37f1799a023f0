//! Blocks: header serialization, hashing and the validity rule.
use vstd::prelude::*;

use crate::clock::unix_timestamp;
use crate::encoding::{le_bytes, push_trit_bytes, push_u64_le};
use crate::hash::{
    shiftable, spec_ternary_hash, ternary_hash, trit_bytes, trit_state, zero_state, TritHash,
    HASH_LEN,
};
use crate::merkle::{merkle_root, trits_eq, tx_hashes, TernaryMerkle};
use crate::transaction::{spec_balanced, transactions_balanced, TernaryTransaction};

verus! {

#[derive(Debug, Clone)]
pub struct TernaryBlock {
    pub index: u64,
    pub prev_hash: TritHash,
    pub transactions: Vec<TernaryTransaction>,
    pub nonce: u64,
    pub timestamp: u64,
    pub merkle_root: TritHash,
}

/// The serialized header: index, previous hash and Merkle root (each trit plus one),
/// nonce, timestamp; the integers as eight little-endian bytes.
pub open spec fn spec_header_bytes(
    index: u64,
    prev_hash: Seq<i8>,
    merkle_root: Seq<i8>,
    nonce: u64,
    timestamp: u64,
) -> Seq<u8> {
    le_bytes(index) + trit_bytes(prev_hash) + trit_bytes(merkle_root) + le_bytes(nonce) + le_bytes(
        timestamp,
    )
}

/// The Merkle root of a list of transactions.
pub open spec fn txs_merkle_root(txs: Seq<TernaryTransaction>) -> Seq<i8> {
    merkle_root(tx_hashes(txs))
}

/// The layout of a block header, byte by byte: the index in bytes 0..8 (least
/// significant first), the previous hash in bytes 8..35 and the Merkle root in bytes
/// 35..62 (each trit plus one), the nonce in bytes 62..70 and the timestamp in bytes
/// 70..78. In particular the header, and so the hash, commits to the Merkle root.
pub proof fn lemma_header_layout(b: TernaryBlock)
    ensures
        b.header().len() == 78,
        forall|k: int|
            0 <= k < 8 ==> #[trigger] b.header()[k] == ((b.index as nat / crate::encoding::pow256(
                k as nat,
            )) % 256) as u8,
        forall|k: int|
            0 <= k < 27 ==> #[trigger] b.header()[8 + k] == (b.prev_hash@[k] + 1) as u8,
        forall|k: int|
            0 <= k < 27 ==> #[trigger] b.header()[35 + k] == (b.merkle_root@[k] + 1) as u8,
        forall|k: int|
            0 <= k < 8 ==> #[trigger] b.header()[62 + k] == ((b.nonce as nat / crate::encoding::pow256(
                k as nat,
            )) % 256) as u8,
        forall|k: int|
            0 <= k < 8 ==> #[trigger] b.header()[70 + k] == ((b.timestamp as nat
                / crate::encoding::pow256(k as nat)) % 256) as u8,
{
    let a = le_bytes(b.index);
    let p = trit_bytes(b.prev_hash@);
    let m = trit_bytes(b.merkle_root@);
    let n = le_bytes(b.nonce);
    let t = le_bytes(b.timestamp);
    let h = b.header();
    assert(h == a + p + m + n + t);
    assert(p.len() == 27 && m.len() == 27);
    assert forall|k: int| 0 <= k < 8 implies #[trigger] h[k] == a[k] by {}
    assert forall|k: int| 0 <= k < 27 implies #[trigger] h[8 + k] == p[k] by {}
    assert forall|k: int| 0 <= k < 27 implies #[trigger] h[35 + k] == m[k] by {}
    assert forall|k: int| 0 <= k < 8 implies #[trigger] h[62 + k] == n[k] by {}
    assert forall|k: int| 0 <= k < 8 implies #[trigger] h[70 + k] == t[k] by {}
}

/// Two blocks that differ only in their Merkle roots have different headers.
pub proof fn lemma_header_commits_to_merkle_root(b1: TernaryBlock, b2: TernaryBlock)
    requires
        b1.index == b2.index,
        b1.prev_hash == b2.prev_hash,
        b1.nonce == b2.nonce,
        b1.timestamp == b2.timestamp,
        b1.merkle_root@ != b2.merkle_root@,
        shiftable(b1.merkle_root@),
        shiftable(b2.merkle_root@),
    ensures
        b1.header() != b2.header(),
{
    lemma_header_layout(b1);
    lemma_header_layout(b2);
    if b1.header() == b2.header() {
        assert forall|j: int| 0 <= j < 27 implies b1.merkle_root@[j] == b2.merkle_root@[j] by {
            assert(b1.header()[35 + j] == b2.header()[35 + j]);
            lemma_shift_byte_injective(b1.merkle_root@[j], b2.merkle_root@[j]);
        }
        assert(b1.merkle_root@ =~= b2.merkle_root@);
    }
}

proof fn lemma_shift_byte_injective(a: i8, b: i8)
    ensures
        a != 127 && b != 127 && (a + 1) as u8 == (b + 1) as u8 ==> a == b,
{
    assert(a != 127 && b != 127 && (a + 1) as u8 == (b + 1) as u8 ==> a == b) by (bit_vector);
}

impl TernaryBlock {
    /// The serialized header of this block.
    pub open spec fn header(self) -> Seq<u8> {
        spec_header_bytes(
            self.index,
            self.prev_hash@,
            self.merkle_root@,
            self.nonce,
            self.timestamp,
        )
    }

    /// The hash of this block's header.
    pub open spec fn spec_hash(self) -> Seq<i8> {
        spec_ternary_hash(self.header())
    }

    /// The header can be serialized: no trit of the two hashes is `i8::MAX`.
    pub open spec fn hashable(self) -> bool {
        shiftable(self.prev_hash@) && shiftable(self.merkle_root@)
    }

    /// Builds a block with the given timestamp; the Merkle root is that of the transactions.
    pub fn with_timestamp(
        index: u64,
        prev_hash: TritHash,
        transactions: Vec<TernaryTransaction>,
        nonce: u64,
        timestamp: u64,
    ) -> (b: Self)
        ensures
            b.index == index,
            b.prev_hash == prev_hash,
            b.transactions == transactions,
            b.nonce == nonce,
            b.timestamp == timestamp,
            b.merkle_root@ == txs_merkle_root(transactions@),
            trit_state(b.merkle_root@),
    {
        let m = TernaryMerkle::new(transactions.as_slice());
        let merkle_root = m.root();
        proof {
            crate::merkle::lemma_root_is_trits(m@);
        }
        TernaryBlock { index, prev_hash, transactions, nonce, timestamp, merkle_root }
    }

    /// Builds a block stamped with the current time (seconds since the Unix epoch).
    pub fn new(index: u64, prev_hash: TritHash, transactions: Vec<TernaryTransaction>, nonce: u64) -> (b:
        Self)
        ensures
            b.index == index,
            b.prev_hash == prev_hash,
            b.transactions == transactions,
            b.nonce == nonce,
            b.merkle_root@ == txs_merkle_root(transactions@),
            trit_state(b.merkle_root@),
    {
        let timestamp = unix_timestamp();
        Self::with_timestamp(index, prev_hash, transactions, nonce, timestamp)
    }

    /// Serialize block header to bytes for hashing.
    pub fn header_bytes(&self) -> (v: Vec<u8>)
        requires
            self.hashable(),
        ensures
            v@ == self.header(),
    {
        let mut v: Vec<u8> = Vec::new();
        push_u64_le(&mut v, self.index);
        push_trit_bytes(&mut v, &self.prev_hash);
        push_trit_bytes(&mut v, &self.merkle_root);
        push_u64_le(&mut v, self.nonce);
        push_u64_le(&mut v, self.timestamp);
        v
    }

    pub fn hash(&self) -> (h: TritHash)
        requires
            self.hashable(),
        ensures
            h@ == self.spec_hash(),
            trit_state(h@),
    {
        ternary_hash(self.header_bytes().as_slice())
    }

    /// Validate block: check prev_hash linkage and transaction balance.
    pub fn is_valid(&self, expected_prev_hash: &TritHash) -> (ok: bool)
        ensures
            ok == (self.prev_hash@ == expected_prev_hash@ && spec_balanced(self.transactions@)),
    {
        if !trits_eq(&self.prev_hash, expected_prev_hash) {
            return false;
        }
        transactions_balanced(self.transactions.as_slice())
    }

    /// Genesis block with empty prev_hash.
    pub fn genesis(transactions: Vec<TernaryTransaction>) -> (b: Self)
        ensures
            b.index == 0,
            b.prev_hash@ == zero_state(),
            b.transactions == transactions,
            b.nonce == 0,
            b.merkle_root@ == txs_merkle_root(transactions@),
            trit_state(b.merkle_root@),
    {
        let z = [0i8; HASH_LEN];
        assert(z@ =~= zero_state());
        TernaryBlock::new(0, z, transactions, 0)
    }
}

} // verus!
