//! Ternary-typed transactions and the balance rule.
use vstd::prelude::*;

use crate::encoding::{le_bytes, push_bytes, push_u64_le};
use crate::hash::{spec_ternary_hash, ternary_hash, trit_state, TritHash};

verus! {

/// The kind of a transaction, carried as a trit: send -1, hold 0, receive +1.
#[derive(Debug, Clone, PartialEq, Eq, Structural)]
pub enum TxType {
    Send,
    Hold,
    Receive,
}

impl TxType {
    /// The trit of this kind: send -1, hold 0, receive +1.
    pub open spec fn trit(self) -> i8 {
        match self {
            TxType::Send => -1i8,
            TxType::Hold => 0i8,
            TxType::Receive => 1i8,
        }
    }

    pub fn as_trit(&self) -> (t: i8)
        ensures
            t == self.trit(),
    {
        match self {
            TxType::Send => -1,
            TxType::Hold => 0,
            TxType::Receive => 1,
        }
    }
}

#[derive(Debug, Clone)]
pub struct TernaryTransaction {
    pub value: i64,
    pub tx_type: TxType,
    pub from: [u8; 8],
    pub to: [u8; 8],
}

/// The serialization of a transaction: the value's eight little-endian bytes (two's
/// complement), the kind's trit plus one, then the sender and the receiver addresses.
pub open spec fn spec_tx_bytes(tx: TernaryTransaction) -> Seq<u8> {
    le_bytes(tx.value as u64) + seq![(tx.tx_type.trit() + 1) as u8] + tx.from@ + tx.to@
}

impl TernaryTransaction {
    pub fn new(value: i64, tx_type: TxType, from: [u8; 8], to: [u8; 8]) -> (tx: Self)
        ensures
            tx == (TernaryTransaction { value, tx_type, from, to }),
    {
        TernaryTransaction { value, tx_type, from, to }
    }

    /// Serialize to bytes for hashing.
    pub fn to_bytes(&self) -> (v: Vec<u8>)
        ensures
            v@ == spec_tx_bytes(*self),
    {
        let mut v: Vec<u8> = Vec::new();
        push_u64_le(&mut v, self.value as u64);
        v.push((self.tx_type.as_trit() + 1) as u8);
        push_bytes(&mut v, &self.from);
        push_bytes(&mut v, &self.to);
        assert(v@ =~= spec_tx_bytes(*self));
        v
    }

    pub fn hash(&self) -> (h: TritHash)
        ensures
            h@ == spec_ternary_hash(spec_tx_bytes(*self)),
            trit_state(h@),
    {
        ternary_hash(self.to_bytes().as_slice())
    }
}

/// The sum of the kind trits of `txs`.
pub open spec fn trit_sum(txs: Seq<TernaryTransaction>) -> int
    decreases txs.len(),
{
    if txs.len() == 0 {
        0
    } else {
        trit_sum(txs.drop_last()) + txs.last().tx_type.trit()
    }
}

/// Whether the kind trits of `txs` sum to zero.
pub open spec fn spec_balanced(txs: Seq<TernaryTransaction>) -> bool {
    trit_sum(txs) == 0
}

/// The number of transactions of kind `ty` in `txs`.
pub open spec fn count_kind(txs: Seq<TernaryTransaction>, ty: TxType) -> nat
    decreases txs.len(),
{
    if txs.len() == 0 {
        0
    } else {
        count_kind(txs.drop_last(), ty) + if txs.last().tx_type == ty {
            1nat
        } else {
            0nat
        }
    }
}

/// The trit sum is the number of receives minus the number of sends.
pub proof fn lemma_trit_sum_counts(txs: Seq<TernaryTransaction>)
    ensures
        trit_sum(txs) == count_kind(txs, TxType::Receive) - count_kind(txs, TxType::Send),
    decreases txs.len(),
{
    if txs.len() > 0 {
        lemma_trit_sum_counts(txs.drop_last());
    }
}

/// A set of transactions is balanced exactly when every send is matched by a receive:
/// there are as many sends as receives.
pub proof fn lemma_balanced_iff_sends_match_receives(txs: Seq<TernaryTransaction>)
    ensures
        spec_balanced(txs) <==> count_kind(txs, TxType::Send) == count_kind(txs, TxType::Receive),
{
    lemma_trit_sum_counts(txs);
}

proof fn lemma_trit_sum_bound(txs: Seq<TernaryTransaction>)
    ensures
        -txs.len() <= trit_sum(txs) <= txs.len(),
    decreases txs.len(),
{
    if txs.len() > 0 {
        lemma_trit_sum_bound(txs.drop_last());
    }
}

/// Check that the sum of tx_type trits across a set of transactions is 0 (balanced).
pub fn transactions_balanced(txs: &[TernaryTransaction]) -> (b: bool)
    ensures
        b == spec_balanced(txs@),
{
    let mut sum: i128 = 0;
    let mut i: usize = 0;
    while i < txs.len()
        invariant
            i <= txs@.len(),
            sum == trit_sum(txs@.take(i as int)),
        decreases txs.len() - i,
    {
        proof {
            lemma_trit_sum_bound(txs@.take(i as int));
            assert(txs@.take(i + 1).drop_last() =~= txs@.take(i as int));
        }
        sum = sum + txs[i].tx_type.as_trit() as i128;
        i += 1;
    }
    assert(txs@.take(txs@.len() as int) =~= txs@);
    sum == 0
}

} // verus!
