//! Proof of work: leading zero trits of a block hash.
use vstd::prelude::*;

use crate::block::{spec_header_bytes, TernaryBlock};
use crate::hash::{spec_ternary_hash, TritHash, HASH_LEN};

verus! {

/// `h` has at least `difficulty` leading zero trits: it is that long, and its first
/// `difficulty` trits are zero.
pub open spec fn spec_has_leading_zeros(h: Seq<i8>, difficulty: int) -> bool {
    &&& difficulty <= h.len()
    &&& forall|i: int| 0 <= i < difficulty ==> #[trigger] h[i] == 0
}

/// Check that hash has at least `difficulty` leading zero-trits.
pub fn has_leading_zeros(hash: &TritHash, difficulty: usize) -> (ok: bool)
    ensures
        ok == spec_has_leading_zeros(hash@, difficulty as int),
        ok <==> (difficulty <= 27 && forall|i: int| 0 <= i < difficulty ==> hash@[i] == 0),
{
    if difficulty > HASH_LEN {
        return false;
    }
    let mut i: usize = 0;
    while i < difficulty
        invariant
            i <= difficulty,
            difficulty <= 27,
            forall|j: int| 0 <= j < i ==> hash@[j] == 0,
        decreases difficulty - i,
    {
        if hash[i] != 0 {
            return false;
        }
        i += 1;
    }
    true
}

/// The hash of `b`'s header with its nonce replaced by `nonce`.
pub open spec fn hash_with_nonce(b: TernaryBlock, nonce: u64) -> Seq<i8> {
    spec_ternary_hash(spec_header_bytes(b.index, b.prev_hash@, b.merkle_root@, nonce, b.timestamp))
}

/// With nonce `nonce`, `b`'s hash has `difficulty` leading zero trits.
pub open spec fn nonce_meets(b: TernaryBlock, nonce: u64, difficulty: int) -> bool {
    spec_has_leading_zeros(hash_with_nonce(b, nonce), difficulty)
}

/// `start + k`, wrapping at 2^64.
pub open spec fn wrap_add(start: u64, k: int) -> u64 {
    if start + k <= u64::MAX {
        (start + k) as u64
    } else {
        (start + k - 0x1_0000_0000_0000_0000) as u64
    }
}

/// How many wrapping increments lead from `from` to `to`.
pub open spec fn wrap_distance(from: u64, to: u64) -> int {
    if to >= from {
        to - from
    } else {
        to + 0x1_0000_0000_0000_0000 - from
    }
}

/// `r` is `b` with the first nonce, counting up from `b.nonce` and wrapping at 2^64,
/// that meets the difficulty.
pub open spec fn mined_from(b: TernaryBlock, r: TernaryBlock, difficulty: int) -> bool {
    &&& r.index == b.index
    &&& r.prev_hash == b.prev_hash
    &&& r.transactions == b.transactions
    &&& r.timestamp == b.timestamp
    &&& r.merkle_root == b.merkle_root
    &&& nonce_meets(b, r.nonce, difficulty)
    &&& exists|k: int|
        0 <= k < 0x1_0000_0000_0000_0000 && r.nonce == wrap_add(b.nonce, k) && forall|j: int|
            0 <= j < k ==> !nonce_meets(b, #[trigger] wrap_add(b.nonce, j), difficulty)
}

pub struct ProofOfWork;

impl ProofOfWork {
    /// Mine: increment nonce until block hash has `difficulty` leading zero-trits.
    /// The search goes through every nonce, so it ends exactly when some nonce meets
    /// the difficulty.
    #[verifier::loop_isolation(false)]
    pub fn mine(mut block: TernaryBlock, difficulty: usize) -> (r: TernaryBlock)
        requires
            block.hashable(),
            exists|n: u64| nonce_meets(block, n, difficulty as int),
        ensures
            mined_from(block, r, difficulty as int),
            spec_has_leading_zeros(r.spec_hash(), difficulty as int),
            difficulty <= 27,
            forall|i: int| 0 <= i < difficulty ==> r.spec_hash()[i] == 0,
    {
        let ghost b0 = block;
        let ghost w = choose|n: u64| nonce_meets(block, n, difficulty as int);
        let ghost mut k: int = 0;
        loop
            invariant
                b0.hashable(),
                nonce_meets(b0, w, difficulty as int),
                block.index == b0.index,
                block.prev_hash == b0.prev_hash,
                block.transactions == b0.transactions,
                block.timestamp == b0.timestamp,
                block.merkle_root == b0.merkle_root,
                0 <= k,
                k + wrap_distance(block.nonce, w) == wrap_distance(b0.nonce, w),
                block.nonce == wrap_add(b0.nonce, k),
                forall|j: int|
                    0 <= j < k ==> !nonce_meets(b0, #[trigger] wrap_add(b0.nonce, j), difficulty as int),
            decreases wrap_distance(block.nonce, w),
        {
            let h = block.hash();
            if has_leading_zeros(&h, difficulty) {
                assert(hash_with_nonce(b0, block.nonce) == block.spec_hash());
                assert(h@ == block.spec_hash());
                assert(wrap_distance(b0.nonce, w) < 0x1_0000_0000_0000_0000);
                assert(0 <= k < 0x1_0000_0000_0000_0000 && block.nonce == wrap_add(b0.nonce, k)
                    && forall|j: int|
                    0 <= j < k ==> !nonce_meets(b0, #[trigger] wrap_add(b0.nonce, j), difficulty as int));
                return block;
            }
            assert(block.nonce != w);
            block.nonce = block.nonce.wrapping_add(1);
            proof {
                k = k + 1;
            }
        }
    }

    pub fn verify(block: &TernaryBlock, difficulty: usize) -> (ok: bool)
        requires
            block.hashable(),
        ensures
            ok == spec_has_leading_zeros(block.spec_hash(), difficulty as int),
            ok <==> (difficulty <= 27 && forall|i: int|
                0 <= i < difficulty ==> block.spec_hash()[i] == 0),
    {
        has_leading_zeros(&block.hash(), difficulty)
    }
}

} // verus!
