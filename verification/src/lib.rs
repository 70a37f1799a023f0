//! Blockchain primitives over balanced ternary trits {-1, 0, +1}.
//!
//! The crate root holds a compact stand-alone chain (a 24-trit hash over byte-to-trit
//! digits, string-addressed transactions, blocks that carry their own hash, a Merkle
//! root); the modules hold the 27-trit sponge hash and the full chain built on it.
pub mod block;
pub mod chain;
mod clock;
pub mod encoding;
pub mod hash;
pub mod merkle;
pub mod pow;
pub mod transaction;

use vstd::prelude::*;

use crate::encoding::{le_bytes, push_bytes, push_trit_bytes, push_u64_le};
use crate::hash::{all_trits, lemma_pow3_pos, pow3, shiftable, trit_bytes};

verus! {

/// Trit `j` (0..5) of byte `b`: its base-3 digit `j`, shifted down by one.
pub open spec fn byte_trit(b: u8, j: int) -> i8 {
    ((b as nat / pow3(j as nat)) % 3 - 1) as i8
}

/// Five trits per byte, least significant digit first.
pub open spec fn spec_bytes_to_trits(data: Seq<u8>) -> Seq<i8> {
    Seq::new(5 * data.len(), |k: int| byte_trit(data[k / 5], k % 5))
}

/// Convert bytes to balanced ternary trits
pub fn bytes_to_trits(data: &[u8]) -> (trits: Vec<i8>)
    ensures
        trits@ == spec_bytes_to_trits(data@),
        all_trits(trits@),
{
    let mut trits: Vec<i8> = Vec::new();
    let mut b: usize = 0;
    while b < data.len()
        invariant
            b <= data@.len(),
            trits@.len() == 5 * b,
            forall|k: int| 0 <= k < 5 * b ==> #[trigger] trits@[k] == spec_bytes_to_trits(data@)[k],
        decreases data.len() - b,
    {
        let byte = data[b];
        let mut val: u16 = byte as u16;
        assert(pow3(0) == 1);
        for j in 0..5usize
            invariant
                b < data@.len(),
                byte == data@[b as int],
                trits@.len() == 5 * b + j,
                val as nat == byte as nat / pow3(j as nat),
                forall|k: int|
                    0 <= k < 5 * b + j ==> #[trigger] trits@[k] == spec_bytes_to_trits(data@)[k],
        {
            proof {
                lemma_pow3_pos(j as nat);
                vstd::arithmetic::div_mod::lemma_div_denominator(byte as int, pow3(j as nat) as int, 3);
                assert(pow3((j + 1) as nat) == pow3(j as nat) * 3);
                let k = 5 * b + j;
                assert(k / 5 == b && k % 5 == j);
            }
            trits.push((val % 3) as i8 - 1);
            val = val / 3;
        }
        b += 1;
    }
    assert(trits@ =~= spec_bytes_to_trits(data@));
    trits
}

/// The combining step of the 24-trit hash: `(a + b + 2) mod 3 - 1`.
pub open spec fn mix3(a: i8, b: i8) -> i8 {
    ((a + b + 2) % 3 - 1) as i8
}

/// The all-zero 24-trit state.
pub open spec fn zeros24() -> Seq<i8> {
    Seq::new(24, |i: int| 0i8)
}

/// `s` rotated left by one position.
pub open spec fn rotl1(s: Seq<i8>) -> Seq<i8> {
    Seq::new(24, |j: int| s[(j + 1) % 24])
}

/// The state after absorbing the first `n` trits: trit `i` is combined into position
/// `i mod 24`, and after each position 23 the state rotates left by one.
pub open spec fn absorb24(trits: Seq<i8>, n: nat) -> Seq<i8>
    decreases n,
{
    if n == 0 {
        zeros24()
    } else {
        let s = absorb24(trits, (n - 1) as nat);
        let i = n - 1;
        let s1 = s.update(i % 24, mix3(s[i % 24], trits[i]));
        if i % 24 == 23 {
            rotl1(s1)
        } else {
            s1
        }
    }
}

/// The first `n` steps of a squeeze pass, updating in place: position `i` is combined
/// with position `i + 7 mod 24` as it stands at that moment.
pub open spec fn squeeze_pass(s: Seq<i8>, n: nat) -> Seq<i8>
    decreases n,
{
    if n == 0 {
        s
    } else {
        let t = squeeze_pass(s, (n - 1) as nat);
        let i = n - 1;
        t.update(i, mix3(t[i], t[(i + 7) % 24]))
    }
}

/// One full squeeze round.
pub open spec fn squeeze_round(s: Seq<i8>) -> Seq<i8> {
    squeeze_pass(s, 24)
}

/// The 24-trit hash of `data`: absorb its trits, then three squeeze rounds.
pub open spec fn spec_hash24(data: Seq<u8>) -> Seq<i8> {
    let t = spec_bytes_to_trits(data);
    squeeze_round(squeeze_round(squeeze_round(absorb24(t, t.len()))))
}

/// A 24-trit state of trits.
pub open spec fn state24(s: Seq<i8>) -> bool {
    s.len() == 24 && all_trits(s)
}

proof fn lemma_absorb24_trits(trits: Seq<i8>, n: nat)
    requires
        all_trits(trits),
        n <= trits.len(),
    ensures
        state24(absorb24(trits, n)),
    decreases n,
{
    if n > 0 {
        lemma_absorb24_trits(trits, (n - 1) as nat);
    }
}

proof fn lemma_squeeze_trits(s: Seq<i8>, n: nat)
    requires
        state24(s),
        n <= 24,
    ensures
        state24(squeeze_pass(s, n)),
    decreases n,
{
    if n > 0 {
        lemma_squeeze_trits(s, (n - 1) as nat);
    }
}

/// Every 24-trit hash is 24 trits.
pub proof fn lemma_hash24_trits(data: Seq<u8>)
    ensures
        state24(spec_hash24(data)),
{
    let t = spec_bytes_to_trits(data);
    assert(all_trits(t));
    lemma_absorb24_trits(t, t.len());
    let a = absorb24(t, t.len());
    lemma_squeeze_trits(a, 24);
    lemma_squeeze_trits(squeeze_round(a), 24);
    lemma_squeeze_trits(squeeze_round(squeeze_round(a)), 24);
}

fn mix_trits(a: i8, b: i8) -> (r: i8)
    requires
        hash::is_trit(a),
        hash::is_trit(b),
    ensures
        r == mix3(a, b),
        hash::is_trit(r),
{
    let s: u8 = ((a + 1) + (b + 1)) as u8;
    (s % 3) as i8 - 1
}

fn new_zeros(n: usize) -> (v: Vec<i8>)
    ensures
        v@ == Seq::new(n as nat, |i: int| 0i8),
{
    let mut v: Vec<i8> = Vec::new();
    for i in 0..n
        invariant
            v@ == Seq::new(i as nat, |j: int| 0i8),
    {
        v.push(0);
        assert(v@ =~= Seq::new((i + 1) as nat, |j: int| 0i8));
    }
    v
}

fn squeeze(state: &mut Vec<i8>)
    requires
        state24(old(state)@),
    ensures
        final(state)@ == squeeze_round(old(state)@),
        state24(final(state)@),
{
    let ghost start = state@;
    for i in 0..24usize
        invariant
            state@ == squeeze_pass(start, i as nat),
            state24(start),
    {
        proof {
            lemma_squeeze_trits(start, i as nat);
        }
        let v = mix_trits(state[i], state[(i + 7) % 24]);
        state.set(i, v);
    }
    proof {
        lemma_squeeze_trits(start, 24);
    }
}

/// Ternary hash using sponge-like absorption on trits
pub fn ternary_hash(data: &[u8]) -> (h: Vec<i8>)
    ensures
        h@ == spec_hash24(data@),
        state24(h@),
{
    let trits = bytes_to_trits(data);
    let hash_size: usize = 24;
    let mut state = new_zeros(hash_size);
    assert(state@ =~= zeros24());
    let mut i: usize = 0;
    while i < trits.len()
        invariant
            hash_size == 24,
            i <= trits@.len(),
            all_trits(trits@),
            state@ == absorb24(trits@, i as nat),
        decreases trits.len() - i,
    {
        proof {
            lemma_absorb24_trits(trits@, i as nat);
        }
        let idx = i % hash_size;
        let v = mix_trits(state[idx], trits[i]);
        state.set(idx, v);
        if idx == hash_size - 1 {
            let ghost s1 = state@;
            let first = state[0];
            for j in 0..hash_size - 1
                invariant
                    hash_size == 24,
                    s1.len() == 24,
                    state@.len() == 24,
                    forall|k: int| 0 <= k < j ==> #[trigger] state@[k] == s1[k + 1],
                    forall|k: int| j <= k < 24 ==> #[trigger] state@[k] == s1[k],
            {
                let next = state[j + 1];
                state.set(j, next);
            }
            state.set(hash_size - 1, first);
            assert(state@ =~= rotl1(s1));
        }
        i += 1;
    }
    proof {
        lemma_absorb24_trits(trits@, trits@.len());
    }
    squeeze(&mut state);
    squeeze(&mut state);
    squeeze(&mut state);
    proof {
        lemma_hash24_trits(data@);
    }
    state
}

/// The number of zero trits at the start of `s`.
pub open spec fn count_leading_zeros(s: Seq<i8>) -> nat
    decreases s.len(),
{
    if s.len() == 0 || s[0] != 0 {
        0
    } else {
        1 + count_leading_zeros(s.drop_first())
    }
}

/// The leading-zero count is the length of the longest all-zero prefix.
pub proof fn lemma_count_leading_zeros(s: Seq<i8>)
    ensures
        count_leading_zeros(s) <= s.len(),
        forall|i: int| 0 <= i < count_leading_zeros(s) ==> s[i] == 0,
        count_leading_zeros(s) < s.len() ==> s[count_leading_zeros(s) as int] != 0,
    decreases s.len(),
{
    if s.len() > 0 && s[0] == 0 {
        lemma_count_leading_zeros(s.drop_first());
        assert forall|i: int| 0 <= i < count_leading_zeros(s) implies s[i] == 0 by {
            if i > 0 {
                assert(s[i] == s.drop_first()[i - 1]);
            }
        }
    }
}

/// Check if a hash has N leading zero trits (for proof of work)
pub fn leading_zeros(hash: &[i8]) -> (n: usize)
    ensures
        n == count_leading_zeros(hash@),
{
    let mut i: usize = 0;
    while i < hash.len() && hash[i] == 0
        invariant
            i <= hash@.len(),
            forall|j: int| 0 <= j < i ==> hash@[j] == 0,
        decreases hash.len() - i,
    {
        i += 1;
    }
    proof {
        lemma_count_leading_zeros(hash@);
        let c = count_leading_zeros(hash@);
        if c < i {
            assert(hash@[c as int] == 0);
        }
        if c > i {
            assert(hash@[i as int] == 0);
        }
    }
    i
}

/// A ternary transaction: {-1=send, 0=hold, +1=receive}
#[derive(Debug, Clone)]
pub struct TernaryTransaction {
    pub tx_type: i8,
    pub amount: u64,
    pub sender: String,
    pub receiver: String,
    pub nonce: u64,
}

/// The serialization of a transaction: its type plus one as a byte, the amount's eight
/// little-endian bytes, the sender's UTF-8 bytes and a zero byte, the receiver's UTF-8
/// bytes and a zero byte, the nonce's eight little-endian bytes.
pub open spec fn spec_tx_bytes(tx: TernaryTransaction) -> Seq<u8> {
    seq![(tx.tx_type + 1) as u8] + le_bytes(tx.amount) + vstd::utf8::encode_utf8(tx.sender@)
        + seq![0u8] + vstd::utf8::encode_utf8(tx.receiver@) + seq![0u8] + le_bytes(tx.nonce)
}

/// The type can be shifted up by one without leaving the `i8` range.
pub open spec fn tx_serializable(tx: TernaryTransaction) -> bool {
    tx.tx_type != 127
}

impl TernaryTransaction {
    pub fn send(amount: u64, sender: &str, receiver: &str, nonce: u64) -> (tx: Self)
        ensures
            tx.tx_type == -1,
            tx.amount == amount,
            tx.sender@ == sender@,
            tx.receiver@ == receiver@,
            tx.nonce == nonce,
    {
        Self { tx_type: -1, amount, sender: sender.to_owned(), receiver: receiver.to_owned(), nonce }
    }

    pub fn hold(amount: u64, sender: &str, nonce: u64) -> (tx: Self)
        ensures
            tx.tx_type == 0,
            tx.amount == amount,
            tx.sender@ == sender@,
            tx.receiver@ == sender@,
            tx.nonce == nonce,
    {
        Self { tx_type: 0, amount, sender: sender.to_owned(), receiver: sender.to_owned(), nonce }
    }

    pub fn receive(amount: u64, sender: &str, receiver: &str, nonce: u64) -> (tx: Self)
        ensures
            tx.tx_type == 1,
            tx.amount == amount,
            tx.sender@ == sender@,
            tx.receiver@ == receiver@,
            tx.nonce == nonce,
    {
        Self { tx_type: 1, amount, sender: sender.to_owned(), receiver: receiver.to_owned(), nonce }
    }

    pub fn to_bytes(&self) -> (bytes: Vec<u8>)
        requires
            tx_serializable(*self),
        ensures
            bytes@ == spec_tx_bytes(*self),
    {
        let mut bytes: Vec<u8> = Vec::new();
        bytes.push((self.tx_type + 1) as u8);
        push_u64_le(&mut bytes, self.amount);
        push_bytes(&mut bytes, self.sender.as_str().as_bytes());
        bytes.push(0);
        push_bytes(&mut bytes, self.receiver.as_str().as_bytes());
        bytes.push(0);
        push_u64_le(&mut bytes, self.nonce);
        assert(bytes@ =~= spec_tx_bytes(*self));
        bytes
    }

    pub fn hash(&self) -> (h: Vec<i8>)
        requires
            tx_serializable(*self),
        ensures
            h@ == spec_hash24(spec_tx_bytes(*self)),
            state24(h@),
    {
        ternary_hash(self.to_bytes().as_slice())
    }
}

/// The transactions' serializations, one after another.
pub open spec fn txs_bytes(txs: Seq<TernaryTransaction>) -> Seq<u8>
    decreases txs.len(),
{
    if txs.len() == 0 {
        Seq::empty()
    } else {
        txs_bytes(txs.drop_last()) + spec_tx_bytes(txs.last())
    }
}

/// The bytes a block's hash is computed over: index and nonce (eight little-endian bytes
/// each), the previous hash (each trit plus one), then the transactions.
pub open spec fn block_bytes(
    index: u64,
    nonce: u64,
    prev_hash: Seq<i8>,
    txs: Seq<TernaryTransaction>,
) -> Seq<u8> {
    le_bytes(index) + le_bytes(nonce) + trit_bytes(prev_hash) + txs_bytes(txs)
}

/// A block in the ternary blockchain
#[derive(Debug, Clone)]
pub struct TernaryBlock {
    pub index: u64,
    pub transactions: Vec<TernaryTransaction>,
    pub prev_hash: Vec<i8>,
    pub nonce: u64,
    pub hash: Vec<i8>,
}

impl TernaryBlock {
    /// The block's content can be serialized: no trit of the previous hash and no
    /// transaction type is `i8::MAX`.
    pub open spec fn hashable(self) -> bool {
        &&& shiftable(self.prev_hash@)
        &&& forall|i: int|
            0 <= i < self.transactions@.len() ==> tx_serializable(#[trigger] self.transactions@[i])
    }

    /// The hash of this block's content with nonce `nonce`.
    pub open spec fn hash_at(self, nonce: u64) -> Seq<i8> {
        spec_hash24(block_bytes(self.index, nonce, self.prev_hash@, self.transactions@))
    }

    /// The hash of this block's content with its own nonce.
    pub open spec fn content_hash(self) -> Seq<i8> {
        self.hash_at(self.nonce)
    }

    /// The stored hash is the content hash and has `difficulty` leading zero trits.
    pub open spec fn valid_at(self, difficulty: int) -> bool {
        self.hash@ == self.content_hash() && count_leading_zeros(self.hash@) >= difficulty
    }

    pub fn new(index: u64, transactions: Vec<TernaryTransaction>, prev_hash: Vec<i8>) -> (b: Self)
        requires
            shiftable(prev_hash@),
            forall|i: int|
                0 <= i < transactions@.len() ==> tx_serializable(#[trigger] transactions@[i]),
        ensures
            b.index == index,
            b.transactions == transactions,
            b.prev_hash == prev_hash,
            b.nonce == 0,
            b.hash@ == b.content_hash(),
            b.valid_at(0),
    {
        let mut block = Self { index, transactions, prev_hash, nonce: 0, hash: Vec::new() };
        block.hash = block.compute_hash();
        block
    }

    pub fn genesis() -> (b: Self)
        ensures
            b.index == 0,
            b.transactions@.len() == 0,
            b.prev_hash@ == zeros24(),
            b.nonce == 0,
            b.hash@ == b.content_hash(),
            b.valid_at(0),
    {
        let z = new_zeros(24);
        assert(z@ =~= zeros24());
        Self::new(0, Vec::new(), z)
    }

    fn compute_hash(&self) -> (h: Vec<i8>)
        requires
            self.hashable(),
        ensures
            h@ == self.content_hash(),
            state24(h@),
    {
        let mut data: Vec<u8> = Vec::new();
        push_u64_le(&mut data, self.index);
        push_u64_le(&mut data, self.nonce);
        push_trit_bytes(&mut data, self.prev_hash.as_slice());
        let ghost head = data@;
        let mut i: usize = 0;
        while i < self.transactions.len()
            invariant
                self.hashable(),
                i <= self.transactions@.len(),
                data@ == head + txs_bytes(self.transactions@.take(i as int)),
            decreases self.transactions.len() - i,
        {
            let b = self.transactions[i].to_bytes();
            push_bytes(&mut data, b.as_slice());
            assert(self.transactions@.take(i + 1).drop_last() =~= self.transactions@.take(i as int));
            assert(data@ =~= head + txs_bytes(self.transactions@.take(i + 1)));
            i += 1;
        }
        assert(self.transactions@.take(self.transactions@.len() as int) =~= self.transactions@);
        assert(data@ =~= block_bytes(self.index, self.nonce, self.prev_hash@, self.transactions@));
        ternary_hash(data.as_slice())
    }

    /// Searches nonces 0, 1, 2, ... and keeps the first whose hash has `difficulty`
    /// leading zero trits. The search ends exactly when such a nonce exists.
    #[verifier::loop_isolation(false)]
    pub fn mine(&mut self, difficulty: usize)
        requires
            old(self).hashable(),
            exists|n: u64| count_leading_zeros(#[trigger] old(self).hash_at(n)) >= difficulty,
        ensures
            final(self).index == old(self).index,
            final(self).transactions == old(self).transactions,
            final(self).prev_hash == old(self).prev_hash,
            forall|m: u64|
                m < final(self).nonce ==> count_leading_zeros(#[trigger] old(self).hash_at(m))
                    < difficulty,
            final(self).valid_at(difficulty as int),
    {
        let ghost w = choose|n: u64| count_leading_zeros(#[trigger] old(self).hash_at(n)) >= difficulty;
        self.nonce = 0;
        loop
            invariant
                self.index == old(self).index,
                self.transactions == old(self).transactions,
                self.prev_hash == old(self).prev_hash,
                self.hashable(),
                count_leading_zeros(old(self).hash_at(w)) >= difficulty,
                self.nonce <= w,
                forall|m: u64|
                    m < self.nonce ==> count_leading_zeros(#[trigger] old(self).hash_at(m))
                        < difficulty,
            decreases w - self.nonce,
        {
            self.hash = self.compute_hash();
            assert(self.hash@ == old(self).hash_at(self.nonce));
            if leading_zeros(self.hash.as_slice()) >= difficulty {
                return;
            }
            self.nonce += 1;
        }
    }

    pub fn is_valid(&self, difficulty: usize) -> (ok: bool)
        requires
            self.hashable(),
        ensures
            ok == self.valid_at(difficulty as int),
    {
        let h = self.compute_hash();
        trit_vec_eq(&self.hash, &h) && leading_zeros(self.hash.as_slice()) >= difficulty
    }
}

/// Whether two trit sequences are equal.
fn trit_vec_eq(a: &Vec<i8>, b: &Vec<i8>) -> (eq: bool)
    ensures
        eq == (a@ == b@),
{
    if a.len() != b.len() {
        return false;
    }
    let mut i: usize = 0;
    while i < a.len()
        invariant
            a@.len() == b@.len(),
            i <= a@.len(),
            forall|j: int| 0 <= j < i ==> a@[j] == b@[j],
        decreases a.len() - i,
    {
        if a[i] != b[i] {
            return false;
        }
        i += 1;
    }
    assert(a@ =~= b@);
    true
}

/// The views of a list of trit vectors.
pub open spec fn vec_views(s: Seq<Vec<i8>>) -> Seq<Seq<i8>> {
    Seq::new(s.len(), |i: int| s[i]@)
}

/// The 24-trit hashes of the transactions in `txs`, in order.
pub open spec fn tx_hashes24(txs: Seq<TernaryTransaction>) -> Seq<Seq<i8>> {
    Seq::new(txs.len(), |i: int| spec_hash24(spec_tx_bytes(txs[i])))
}

/// The node made of one or two nodes: the hash of their trits (each plus one).
pub open spec fn chunk_hash(level: Seq<Seq<i8>>, k: int) -> Seq<i8> {
    if 2 * k + 1 < level.len() {
        spec_hash24(trit_bytes(level[2 * k] + level[2 * k + 1]))
    } else {
        spec_hash24(trit_bytes(level[2 * k]))
    }
}

/// The level above: one node per chunk of two (the last chunk may hold one node).
pub open spec fn level_above(level: Seq<Seq<i8>>) -> Seq<Seq<i8>> {
    Seq::new((level.len() + 1) / 2, |k: int| chunk_hash(level, k))
}

/// The root: 24 zero trits for no hashes, the hash itself for one, else the root of
/// the level above.
pub open spec fn root_of(level: Seq<Seq<i8>>) -> Seq<i8>
    decreases level.len(),
{
    if level.len() == 0 {
        zeros24()
    } else if level.len() == 1 {
        level[0]
    } else {
        root_of(level_above(level))
    }
}

/// Every node can be hashed.
pub open spec fn nodes_shiftable(level: Seq<Seq<i8>>) -> bool {
    forall|i: int| 0 <= i < level.len() ==> shiftable(#[trigger] level[i])
}

/// Every node is a 24-trit state.
pub open spec fn nodes_state24(level: Seq<Seq<i8>>) -> bool {
    forall|i: int| 0 <= i < level.len() ==> state24(#[trigger] level[i])
}

/// The root of 24-trit hashes is 24 trits.
pub proof fn lemma_root_of_state24(level: Seq<Seq<i8>>)
    requires
        nodes_state24(level),
    ensures
        state24(root_of(level)),
    decreases level.len(),
{
    if level.len() == 0 {
        assert(state24(zeros24()));
    } else if level.len() == 1 {
        assert(state24(level[0]));
    } else {
        let up = level_above(level);
        assert forall|k: int| 0 <= k < up.len() implies state24(#[trigger] up[k]) by {
            if 2 * k + 1 < level.len() {
                lemma_hash24_trits(trit_bytes(level[2 * k] + level[2 * k + 1]));
            } else {
                lemma_hash24_trits(trit_bytes(level[2 * k]));
            }
        }
        lemma_root_of_state24(up);
    }
}

fn copy_trits(v: &Vec<i8>) -> (out: Vec<i8>)
    ensures
        out@ == v@,
{
    let mut out: Vec<i8> = Vec::new();
    for i in 0..v.len()
        invariant
            out@ == v@.take(i as int),
    {
        out.push(v[i]);
        assert(out@ =~= v@.take(i + 1));
    }
    assert(v@.take(v@.len() as int) =~= v@);
    out
}

/// Ternary Merkle tree
#[derive(Debug, Clone)]
pub struct TernaryMerkle {
    pub leaves: Vec<Vec<i8>>,
    pub root: Vec<i8>,
}

impl TernaryMerkle {
    pub fn new(transactions: &[TernaryTransaction]) -> (m: Self)
        requires
            forall|i: int|
                0 <= i < transactions@.len() ==> tx_serializable(#[trigger] transactions@[i]),
        ensures
            vec_views(m.leaves@) == tx_hashes24(transactions@),
            m.root@ == root_of(tx_hashes24(transactions@)),
            state24(m.root@),
    {
        let mut leaves: Vec<Vec<i8>> = Vec::new();
        for i in 0..transactions.len()
            invariant
                forall|j: int|
                    0 <= j < transactions@.len() ==> tx_serializable(#[trigger] transactions@[j]),
                leaves@.len() == i,
                forall|j: int| 0 <= j < i ==> #[trigger] leaves@[j]@ == tx_hashes24(transactions@)[j],
                forall|j: int| 0 <= j < i ==> state24(#[trigger] leaves@[j]@),
        {
            assert(tx_serializable(transactions@[i as int]));
            let h = transactions[i].hash();
            leaves.push(h);
        }
        assert(vec_views(leaves@) =~= tx_hashes24(transactions@));
        assert(nodes_state24(vec_views(leaves@)));
        assert forall|j: int| 0 <= j < vec_views(leaves@).len() implies shiftable(
            #[trigger] vec_views(leaves@)[j],
        ) by {
            assert(state24(vec_views(leaves@)[j]));
        }
        let root = Self::compute_root(leaves.as_slice());
        proof {
            lemma_root_of_state24(vec_views(leaves@));
        }
        Self { leaves, root }
    }

    fn compute_root(hashes: &[Vec<i8>]) -> (r: Vec<i8>)
        requires
            hashes@.len() >= 2 ==> nodes_shiftable(vec_views(hashes@)),
        ensures
            r@ == root_of(vec_views(hashes@)),
        decreases hashes@.len(),
    {
        let ghost lv = vec_views(hashes@);
        if hashes.len() == 0 {
            let z = new_zeros(24);
            assert(z@ =~= zeros24());
            return z;
        }
        if hashes.len() == 1 {
            return copy_trits(&hashes[0]);
        }
        let n = hashes.len();
        let mut next: Vec<Vec<i8>> = Vec::new();
        let half = n / 2 + n % 2;
        let mut k: usize = 0;
        while k < half
            invariant
                n == hashes@.len(),
                half == (n + 1) / 2,
                n >= 2,
                lv == vec_views(hashes@),
                nodes_shiftable(lv),
                k <= half,
                next@.len() == k,
                forall|j: int| 0 <= j < k ==> #[trigger] next@[j]@ == chunk_hash(lv, j),
                forall|j: int| 0 <= j < k ==> state24(#[trigger] next@[j]@),
            decreases half - k,
        {
            let mut data: Vec<u8> = Vec::new();
            assert(shiftable(lv[2 * k as int]));
            push_trit_bytes(&mut data, hashes[2 * k].as_slice());
            if 2 * k + 1 < n {
                assert(shiftable(lv[2 * k + 1]));
                push_trit_bytes(&mut data, hashes[2 * k + 1].as_slice());
                assert(data@ =~= trit_bytes(lv[2 * k as int] + lv[2 * k + 1]));
            } else {
                assert(data@ =~= trit_bytes(lv[2 * k as int]));
            }
            let h = ternary_hash(data.as_slice());
            next.push(h);
            k += 1;
        }
        assert(vec_views(next@) =~= level_above(lv));
        assert forall|j: int| 0 <= j < vec_views(next@).len() implies shiftable(
            #[trigger] vec_views(next@)[j],
        ) by {
            assert(state24(vec_views(next@)[j]));
        }
        Self::compute_root(next.as_slice())
    }
}

/// Link `i` of the chain holds: block `i` names the stored hash of block `i - 1` as its
/// previous hash and is valid at the difficulty.
pub open spec fn link_ok(chain: Seq<TernaryBlock>, i: int, difficulty: int) -> bool {
    chain[i].prev_hash@ == chain[i - 1].hash@ && chain[i].valid_at(difficulty)
}

/// Every block after the first links to its predecessor and is valid.
pub open spec fn chain_valid(chain: Seq<TernaryBlock>, difficulty: int) -> bool {
    forall|i: int| 1 <= i < chain.len() ==> #[trigger] link_ok(chain, i, difficulty)
}

/// Validation can hash every block it reaches.
pub open spec fn chain_checkable(chain: Seq<TernaryBlock>, difficulty: int) -> bool {
    forall|i: int|
        1 <= i < chain.len() && (forall|j: int| 1 <= j < i ==> #[trigger] link_ok(chain, j, difficulty))
            && chain[i].prev_hash@ == chain[i - 1].hash@ ==> #[trigger] chain[i].hashable()
}

/// Blockchain validator
pub fn validate_chain(chain: &[TernaryBlock], difficulty: usize) -> (ok: bool)
    requires
        chain_checkable(chain@, difficulty as int),
    ensures
        ok == chain_valid(chain@, difficulty as int),
{
    let mut i: usize = 1;
    while i < chain.len()
        invariant
            1 <= i,
            i <= chain@.len() || chain@.len() == 0,
            chain_checkable(chain@, difficulty as int),
            forall|j: int| 1 <= j < i && j < chain@.len() ==> #[trigger] link_ok(chain@, j, difficulty as int),
        decreases chain.len() - i,
    {
        if !trit_vec_eq(&chain[i].prev_hash, &chain[i - 1].hash) {
            assert(!link_ok(chain@, i as int, difficulty as int));
            return false;
        }
        assert(chain@[i as int].hashable());
        if !chain[i].is_valid(difficulty) {
            assert(!link_ok(chain@, i as int, difficulty as int));
            return false;
        }
        i += 1;
    }
    true
}

/// The number `sum (t[j] + 1) * 3^j` over the first `n` trits of `t`.
pub open spec fn shifted_trits_value(t: Seq<i8>, n: nat) -> int
    decreases n,
{
    if n == 0 {
        0
    } else {
        shifted_trits_value(t, (n - 1) as nat) + (t[n - 1] + 1) * pow3((n - 1) as nat)
    }
}

/// The five trits of each byte, read as base-3 digits after adding one, give back the
/// byte modulo 3^5 = 243: bytes below 243 are recovered exactly.
pub proof fn lemma_bytes_to_trits_decode(data: Seq<u8>, k: int)
    requires
        0 <= k < data.len(),
    ensures
        shifted_trits_value(spec_bytes_to_trits(data).subrange(5 * k, 5 * k + 5), 5) == data[k]
            % 243,
        data[k] < 243 ==> shifted_trits_value(
            spec_bytes_to_trits(data).subrange(5 * k, 5 * k + 5),
            5,
        ) == data[k],
{
    let t = spec_bytes_to_trits(data).subrange(5 * k, 5 * k + 5);
    let b = data[k];
    assert forall|j: int| 0 <= j < 5 implies #[trigger] t[j] == byte_trit(b, j) by {
        assert((5 * k + j) / 5 == k && (5 * k + j) % 5 == j);
    }
    lemma_shifted_value(t, b, 5);
    assert(pow3(5) == 243) by {
        reveal_with_fuel(pow3, 6);
    }
}

proof fn lemma_shifted_value(t: Seq<i8>, b: u8, n: nat)
    requires
        n <= t.len(),
        forall|j: int| 0 <= j < n ==> #[trigger] t[j] == byte_trit(b, j),
    ensures
        shifted_trits_value(t, n) == b as nat % pow3(n),
    decreases n,
{
    if n == 0 {
        assert(b as nat % 1 == 0);
    } else {
        let m = (n - 1) as nat;
        lemma_shifted_value(t, b, m);
        lemma_pow3_pos(m);
        vstd::arithmetic::div_mod::lemma_mod_breakdown(b as int, pow3(m) as int, 3);
        assert(pow3(n) == pow3(m) * 3);
        assert(t[m as int] + 1 == (b as nat / pow3(m)) % 3);
    }
}

/// A valid chain stays valid when a valid block that names the last block's stored
/// hash as its previous hash is appended.
pub proof fn lemma_chain_extend(chain: Seq<TernaryBlock>, b: TernaryBlock, difficulty: int)
    requires
        chain.len() > 0,
        chain_valid(chain, difficulty),
        b.prev_hash@ == chain.last().hash@,
        b.valid_at(difficulty),
    ensures
        chain_valid(chain.push(b), difficulty),
{
    let c = chain.push(b);
    assert forall|i: int| 1 <= i < c.len() implies #[trigger] link_ok(c, i, difficulty) by {
        if i < chain.len() {
            assert(link_ok(chain, i, difficulty));
        }
    }
}

/// Changing the content of a block after the first, so that its content hash no longer
/// matches the hash it stores, makes the chain fail validation.
pub proof fn lemma_tampered_content_detected(
    chain: Seq<TernaryBlock>,
    i: int,
    tampered: TernaryBlock,
    difficulty: int,
)
    requires
        1 <= i < chain.len(),
        tampered.hash@ == chain[i].hash@,
        tampered.content_hash() != chain[i].hash@,
    ensures
        !chain_valid(chain.update(i, tampered), difficulty),
{
    let c = chain.update(i, tampered);
    assert(!link_ok(c, i, difficulty));
}

/// The bytes a block's hash covers, by its transactions: with none, the index and
/// nonce (eight little-endian bytes each) and the previous hash (each trit plus one);
/// each further transaction appends its own serialization.
pub proof fn lemma_block_bytes_cover_transactions(
    index: u64,
    nonce: u64,
    prev_hash: Seq<i8>,
    txs: Seq<TernaryTransaction>,
    tx: TernaryTransaction,
)
    ensures
        block_bytes(index, nonce, prev_hash, Seq::empty()) == le_bytes(index) + le_bytes(nonce)
            + trit_bytes(prev_hash),
        block_bytes(index, nonce, prev_hash, txs.push(tx)) == block_bytes(
            index,
            nonce,
            prev_hash,
            txs,
        ) + spec_tx_bytes(tx),
{
    assert(txs.push(tx).drop_last() =~= txs);
    assert(le_bytes(index) + le_bytes(nonce) + trit_bytes(prev_hash) + Seq::<u8>::empty()
        =~= le_bytes(index) + le_bytes(nonce) + trit_bytes(prev_hash));
    assert(block_bytes(index, nonce, prev_hash, txs.push(tx)) =~= block_bytes(
        index,
        nonce,
        prev_hash,
        txs,
    ) + spec_tx_bytes(tx));
}

/// A block's hashed content ends with its transactions' serializations, in order, the
/// last transaction's serialization last; they follow the 16 bytes of index and nonce
/// and the bytes of the previous hash.
pub proof fn lemma_block_bytes_end_with_transactions(
    index: u64,
    nonce: u64,
    prev_hash: Seq<i8>,
    txs: Seq<TernaryTransaction>,
)
    ensures
        block_bytes(index, nonce, prev_hash, txs).len() == 16 + prev_hash.len() + txs_bytes(txs).len(),
        block_bytes(index, nonce, prev_hash, txs).subrange(
            16 + prev_hash.len() as int,
            block_bytes(index, nonce, prev_hash, txs).len() as int,
        ) == txs_bytes(txs),
        txs.len() > 0 ==> block_bytes(index, nonce, prev_hash, txs).subrange(
            block_bytes(index, nonce, prev_hash, txs).len() - spec_tx_bytes(txs.last()).len(),
            block_bytes(index, nonce, prev_hash, txs).len() as int,
        ) == spec_tx_bytes(txs.last()),
{
    let b = block_bytes(index, nonce, prev_hash, txs);
    let h = le_bytes(index) + le_bytes(nonce) + trit_bytes(prev_hash);
    assert(b == h + txs_bytes(txs));
    assert(b.subrange(16 + prev_hash.len() as int, b.len() as int) =~= txs_bytes(txs));
    if txs.len() > 0 {
        let rest = txs_bytes(txs.drop_last());
        let last = spec_tx_bytes(txs.last());
        assert(txs_bytes(txs) == rest + last);
        assert(b.subrange(b.len() - last.len(), b.len() as int) =~= last);
    }
}

proof fn lemma_absorb24_len(trits: Seq<i8>, n: nat)
    ensures
        absorb24(trits, n).len() == 24,
    decreases n,
{
    if n > 0 {
        lemma_absorb24_len(trits, (n - 1) as nat);
    }
}

/// One absorption step of the 24-trit hash: trit `n - 1` is combined into position
/// `(n - 1) mod 24`, and when that completes a block of 24 trits (`n` a multiple of 24)
/// the state is rotated left by one: its first trit moves to the end.
pub proof fn lemma_absorb24_step(trits: Seq<i8>, n: nat)
    requires
        n >= 1,
    ensures
        ({
            let s = absorb24(trits, (n - 1) as nat);
            let s1 = s.update((n - 1) % 24, mix3(s[(n - 1) % 24], trits[n - 1]));
            absorb24(trits, n) == if n % 24 == 0 {
                s1.subrange(1, 24).push(s1[0])
            } else {
                s1
            }
        }),
{
    lemma_absorb24_len(trits, (n - 1) as nat);
    let s = absorb24(trits, (n - 1) as nat);
    let s1 = s.update((n - 1) % 24, mix3(s[(n - 1) % 24], trits[n - 1]));
    if n % 24 == 0 {
        assert(rotl1(s1) =~= s1.subrange(1, 24).push(s1[0]));
    }
}

proof fn lemma_absorb24_first_block_prefix(trits: Seq<i8>, n: nat)
    requires
        n <= 23,
    ensures
        absorb24(trits, n) == Seq::new(24, |j: int| if j < n { mix3(0, trits[j]) } else { 0i8 }),
    decreases n,
{
    if n > 0 {
        lemma_absorb24_first_block_prefix(trits, (n - 1) as nat);
        assert(absorb24(trits, n) =~= Seq::new(
            24,
            |j: int| if j < n { mix3(0, trits[j]) } else { 0i8 },
        ));
    } else {
        assert(zeros24() =~= Seq::new(24, |j: int| if j < 0 { mix3(0, trits[j]) } else { 0i8 }));
    }
}

/// After the first 24 trits the state holds trit `j + 1` (combined with zero) at
/// position `j`, and trit 0 at position 23: the block is written in order and then
/// rotated left by one.
pub proof fn lemma_absorb24_first_block(trits: Seq<i8>)
    ensures
        forall|j: int| 0 <= j < 24 ==> #[trigger] absorb24(trits, 24)[j] == mix3(0, trits[(j + 1) % 24]),
{
    lemma_absorb24_first_block_prefix(trits, 23);
    lemma_absorb24_step(trits, 24);
    let s = absorb24(trits, 23);
    let s1 = s.update(23, mix3(s[23], trits[23]));
    assert forall|j: int| 0 <= j < 24 implies #[trigger] absorb24(trits, 24)[j] == mix3(
        0,
        trits[(j + 1) % 24],
    ) by {
        assert(absorb24(trits, 24) == s1.subrange(1, 24).push(s1[0]));
        if j < 23 {
            assert(absorb24(trits, 24)[j] == s1[j + 1]);
        } else {
            assert(absorb24(trits, 24)[j] == s1[0]);
        }
    }
}

} // verus!
