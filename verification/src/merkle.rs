//! Binary Merkle tree over trit hashes, with inclusion proofs.
use vstd::prelude::*;

use crate::hash::{
    hash_pair, shiftable, spec_hash_pair, spec_ternary_hash, trit_state, zero_state, TritHash,
    HASH_LEN,
};
use crate::transaction::{spec_tx_bytes, TernaryTransaction};

verus! {

/// The views of a sequence of hashes.
pub open spec fn hash_views(s: Seq<TritHash>) -> Seq<Seq<i8>> {
    Seq::new(s.len(), |i: int| s[i]@)
}

/// The hashes of the transactions in `txs`, in order.
pub open spec fn tx_hashes(txs: Seq<TernaryTransaction>) -> Seq<Seq<i8>> {
    Seq::new(txs.len(), |i: int| spec_ternary_hash(spec_tx_bytes(txs[i])))
}

/// A level with an odd number of nodes gets its last node duplicated.
pub open spec fn padded(level: Seq<Seq<i8>>) -> Seq<Seq<i8>> {
    if level.len() % 2 != 0 {
        level.push(level.last())
    } else {
        level
    }
}

/// The level above `level`: the hash of each pair of the padded level.
pub open spec fn next_level(level: Seq<Seq<i8>>) -> Seq<Seq<i8>> {
    let p = padded(level);
    Seq::new(p.len() / 2, |k: int| spec_hash_pair(p[2 * k], p[2 * k + 1]))
}

/// The Merkle root of `level`: all zero for no leaves, the leaf itself for one,
/// else the root of the level above.
pub open spec fn merkle_root(level: Seq<Seq<i8>>) -> Seq<i8>
    decreases level.len(),
{
    if level.len() == 0 {
        zero_state()
    } else if level.len() == 1 {
        level[0]
    } else {
        merkle_root(next_level(level))
    }
}

/// The inclusion proof of the node at `idx`: at each level its sibling, and whether that
/// sibling is on the right.
pub open spec fn merkle_proof(level: Seq<Seq<i8>>, idx: int) -> Seq<(Seq<i8>, bool)>
    decreases level.len(),
{
    if level.len() <= 1 {
        Seq::empty()
    } else {
        let p = padded(level);
        let sib = if idx % 2 == 0 {
            idx + 1
        } else {
            idx - 1
        };
        seq![(p[sib], idx % 2 == 0)] + merkle_proof(next_level(level), idx / 2)
    }
}

/// One step of proof checking: combine `cur` with a sibling on its right or left.
pub open spec fn proof_step(cur: Seq<i8>, step: (Seq<i8>, bool)) -> Seq<i8> {
    if step.1 {
        spec_hash_pair(cur, step.0)
    } else {
        spec_hash_pair(step.0, cur)
    }
}

/// The root that `path` rebuilds from `cur`.
pub open spec fn fold_proof(cur: Seq<i8>, path: Seq<(Seq<i8>, bool)>) -> Seq<i8>
    decreases path.len(),
{
    if path.len() == 0 {
        cur
    } else {
        fold_proof(proof_step(cur, path[0]), path.drop_first())
    }
}

/// The views of a proof path.
pub open spec fn path_view(p: Seq<(TritHash, bool)>) -> Seq<(Seq<i8>, bool)> {
    Seq::new(p.len(), |i: int| (p[i].0@, p[i].1))
}

/// Every node of `s` can be hashed.
pub open spec fn all_shiftable(s: Seq<Seq<i8>>) -> bool {
    forall|i: int| 0 <= i < s.len() ==> shiftable(#[trigger] s[i])
}

/// Every node of `s` is a trit hash.
pub open spec fn all_trit_states(s: Seq<Seq<i8>>) -> bool {
    forall|i: int| 0 <= i < s.len() ==> trit_state(#[trigger] s[i])
}

pub proof fn lemma_next_level_len(level: Seq<Seq<i8>>)
    ensures
        next_level(level).len() == (level.len() + 1) / 2,
        all_trit_states(next_level(level)),
{
    let n = next_level(level);
    assert forall|k: int| 0 <= k < n.len() implies trit_state(#[trigger] n[k]) by {
        let p = padded(level);
        crate::hash::lemma_hash_is_trits(crate::hash::trit_bytes(p[2 * k] + p[2 * k + 1]));
    }
}

/// The Merkle proof of any leaf rebuilds the Merkle root.
pub proof fn lemma_merkle_proof_verifies(leaves: Seq<Seq<i8>>, idx: int)
    requires
        0 <= idx < leaves.len(),
    ensures
        fold_proof(leaves[idx], merkle_proof(leaves, idx)) == merkle_root(leaves),
    decreases leaves.len(),
{
    if leaves.len() > 1 {
        let p = padded(leaves);
        let next = next_level(leaves);
        lemma_next_level_len(leaves);
        let sib = if idx % 2 == 0 {
            idx + 1
        } else {
            idx - 1
        };
        let head = (p[sib], idx % 2 == 0);
        let rest = merkle_proof(next, idx / 2);
        assert((seq![head] + rest).drop_first() =~= rest);
        assert(p[idx] == leaves[idx]);
        assert(proof_step(leaves[idx], head) == next[idx / 2]);
        lemma_merkle_proof_verifies(next, idx / 2);
    }
}

/// Trit hashes can be hashed again.
pub proof fn lemma_trit_states_shiftable(s: Seq<Seq<i8>>)
    requires
        all_trit_states(s),
    ensures
        all_shiftable(s),
{
    assert forall|i: int| 0 <= i < s.len() implies shiftable(#[trigger] s[i]) by {
        assert(trit_state(s[i]));
    }
}

/// The root of trit hashes is a trit hash.
pub proof fn lemma_root_is_trits(level: Seq<Seq<i8>>)
    requires
        all_trit_states(level),
    ensures
        trit_state(merkle_root(level)),
    decreases level.len(),
{
    if level.len() == 0 {
        assert(trit_state(zero_state()));
    } else if level.len() == 1 {
        assert(trit_state(level[0]));
    } else {
        lemma_next_level_len(level);
        lemma_root_is_trits(next_level(level));
    }
}

pub struct TernaryMerkle {
    leaves: Vec<TritHash>,
}

impl View for TernaryMerkle {
    type V = Seq<Seq<i8>>;

    closed spec fn view(&self) -> Seq<Seq<i8>> {
        hash_views(self.leaves@)
    }
}

/// Duplicates the last node of a level of odd length.
fn pad(level: &mut Vec<TritHash>)
    requires
        old(level)@.len() > 0,
    ensures
        hash_views(final(level)@) == padded(hash_views(old(level)@)),
        final(level)@.len() % 2 == 0,
        final(level)@.len() >= old(level)@.len(),
{
    if level.len() % 2 != 0 {
        let last = level[level.len() - 1];
        level.push(last);
    }
    assert(hash_views(level@) =~= padded(hash_views(old(level)@)));
}

/// Hashes the nodes of an even-length level in pairs.
fn pair_up(level: &Vec<TritHash>) -> (next: Vec<TritHash>)
    requires
        level@.len() % 2 == 0,
        all_shiftable(hash_views(level@)),
    ensures
        hash_views(next@) == next_level(hash_views(level@)),
        all_trit_states(hash_views(next@)),
{
    let ghost lv = hash_views(level@);
    assert(padded(lv) == lv);
    let mut next: Vec<TritHash> = Vec::new();
    let n = level.len();
    let half = n / 2;
    let mut k: usize = 0;
    while k < half
        invariant
            n == level@.len(),
            half == n / 2,
            n % 2 == 0,
            k <= half,
            lv == hash_views(level@),
            all_shiftable(lv),
            padded(lv) == lv,
            next_level(lv).len() == half,
            next@.len() == k,
            forall|j: int| 0 <= j < k ==> #[trigger] next@[j]@ == next_level(lv)[j],
            forall|j: int| 0 <= j < k ==> trit_state(#[trigger] next@[j]@),
        decreases half - k,
    {
        assert(shiftable(lv[2 * k as int]));
        assert(shiftable(lv[2 * k + 1]));
        let h = hash_pair(&level[2 * k], &level[2 * k + 1]);
        next.push(h);
        k += 1;
    }
    assert(hash_views(next@) =~= next_level(lv));
    next
}

/// A copy of a list of hashes.
fn copy_hashes(hashes: &Vec<TritHash>) -> (out: Vec<TritHash>)
    ensures
        out@ == hashes@,
{
    let mut out: Vec<TritHash> = Vec::new();
    for i in 0..hashes.len()
        invariant
            out@ == hashes@.take(i as int),
    {
        out.push(hashes[i]);
        assert(out@ =~= hashes@.take(i + 1));
    }
    assert(hashes@.take(hashes@.len() as int) =~= hashes@);
    out
}

impl TernaryMerkle {
    pub fn new(transactions: &[TernaryTransaction]) -> (m: Self)
        ensures
            m@ == tx_hashes(transactions@),
            all_trit_states(m@),
            all_shiftable(m@),
    {
        let mut leaves: Vec<TritHash> = Vec::new();
        for i in 0..transactions.len()
            invariant
                leaves@.len() == i,
                forall|j: int| 0 <= j < i ==> #[trigger] leaves@[j]@ == tx_hashes(transactions@)[j],
                forall|j: int| 0 <= j < i ==> trit_state(#[trigger] leaves@[j]@),
        {
            let h = transactions[i].hash();
            leaves.push(h);
        }
        assert(hash_views(leaves@) =~= tx_hashes(transactions@));
        proof {
            lemma_trit_states_shiftable(hash_views(leaves@));
        }
        TernaryMerkle { leaves }
    }

    pub fn from_hashes(hashes: Vec<TritHash>) -> (m: Self)
        ensures
            m@ == hash_views(hashes@),
    {
        TernaryMerkle { leaves: hashes }
    }

    /// Compute Merkle root using TernaryHash pairs.
    pub fn root(&self) -> (r: TritHash)
        requires
            self@.len() >= 2 ==> all_shiftable(self@),
        ensures
            r@ == merkle_root(self@),
    {
        if self.leaves.len() == 0 {
            let z = [0i8; HASH_LEN];
            assert(z@ =~= zero_state());
            return z;
        }
        let mut level = copy_hashes(&self.leaves);
        while level.len() > 1
            invariant
                level@.len() >= 1,
                merkle_root(hash_views(level@)) == merkle_root(self@),
                level@.len() >= 2 ==> all_shiftable(hash_views(level@)),
            decreases level@.len(),
        {
            let ghost before = hash_views(level@);
            pad(&mut level);
            let next = pair_up(&level);
            proof {
                lemma_next_level_len(before);
                assert forall|i: int| 0 <= i < hash_views(next@).len() implies shiftable(
                    #[trigger] hash_views(next@)[i],
                ) by {
                    assert(trit_state(hash_views(next@)[i]));
                }
            }
            level = next;
        }
        level[0]
    }

    /// Return the proof path (sibling hashes) for the leaf at `index`.
    pub fn proof_path(&self, index: usize) -> (path: Vec<(TritHash, bool)>)
        requires
            index < self@.len() && self@.len() >= 2 ==> all_shiftable(self@),
        ensures
            path_view(path@) == if index < self@.len() {
                merkle_proof(self@, index as int)
            } else {
                Seq::empty()
            },
    {
        if self.leaves.len() == 0 || index >= self.leaves.len() {
            let empty: Vec<(TritHash, bool)> = Vec::new();
            assert(path_view(empty@) =~= Seq::empty());
            return empty;
        }
        let mut level = copy_hashes(&self.leaves);
        let mut idx = index;
        let mut path: Vec<(TritHash, bool)> = Vec::new();
        while level.len() > 1
            invariant
                idx < level@.len(),
                path_view(path@) + merkle_proof(hash_views(level@), idx as int) == merkle_proof(
                    self@,
                    index as int,
                ),
                level@.len() >= 2 ==> all_shiftable(hash_views(level@)),
            decreases level@.len(),
        {
            let ghost before = hash_views(level@);
            let ghost old_path = path_view(path@);
            pad(&mut level);
            let sibling_idx = if idx % 2 == 0 {
                idx + 1
            } else {
                idx - 1
            };
            let is_right = idx % 2 == 0;
            path.push((level[sibling_idx], is_right));
            idx = idx / 2;
            let next = pair_up(&level);
            proof {
                lemma_next_level_len(before);
                assert(path_view(path@) =~= old_path + seq![
                    (hash_views(level@)[sibling_idx as int], is_right),
                ]);
                assert forall|i: int| 0 <= i < hash_views(next@).len() implies shiftable(
                    #[trigger] hash_views(next@)[i],
                ) by {
                    assert(trit_state(hash_views(next@)[i]));
                }
            }
            level = next;
        }
        assert(merkle_proof(hash_views(level@), idx as int) =~= Seq::empty());
        assert(path_view(path@) + Seq::empty() =~= path_view(path@));
        path
    }

    /// Verify a Merkle proof for `leaf_hash` against `root`.
    pub fn verify_proof(leaf_hash: &TritHash, path: &[(TritHash, bool)], root: &TritHash) -> (ok:
        bool)
        requires
            path@.len() > 0 ==> shiftable(leaf_hash@),
            forall|i: int| 0 <= i < path@.len() ==> shiftable(#[trigger] path@[i].0@),
        ensures
            ok == (fold_proof(leaf_hash@, path_view(path@)) == root@),
    {
        let ghost full = path_view(path@);
        let mut current = *leaf_hash;
        let mut i: usize = 0;
        assert(full.skip(0) =~= full);
        while i < path.len()
            invariant
                full == path_view(path@),
                i <= path@.len(),
                fold_proof(current@, full.skip(i as int)) == fold_proof(leaf_hash@, full),
                i > 0 || path@.len() == 0 || current@ == leaf_hash@,
                i > 0 ==> trit_state(current@),
                path@.len() > 0 ==> shiftable(leaf_hash@),
                forall|j: int| 0 <= j < path@.len() ==> shiftable(#[trigger] path@[j].0@),
            decreases path.len() - i,
        {
            let (sibling, is_right) = path[i];
            assert(shiftable(path@[i as int].0@));
            assert(shiftable(current@));
            assert(full.skip(i as int).drop_first() =~= full.skip(i + 1));
            current = if is_right {
                hash_pair(&current, &sibling)
            } else {
                hash_pair(&sibling, &current)
            };
            i += 1;
        }
        trits_eq(&current, root)
    }
}

/// Whether two hashes are equal.
pub fn trits_eq(a: &TritHash, b: &TritHash) -> (eq: bool)
    ensures
        eq == (a@ == b@),
{
    for i in 0..HASH_LEN
        invariant
            forall|j: int| 0 <= j < i ==> a@[j] == b@[j],
    {
        if a[i] != b[i] {
            return false;
        }
    }
    assert(a@ =~= b@);
    true
}

} // verus!
