//! The chain: building by mining, and validation of linkage, work and balance.
use vstd::prelude::*;

use crate::block::{txs_merkle_root, TernaryBlock};
use crate::clock::unix_timestamp;
use crate::hash::{shiftable, trit_state, zero_state, HASH_LEN};
use crate::merkle::trits_eq;
use crate::pow::{mined_from, nonce_meets, spec_has_leading_zeros, ProofOfWork};
use crate::transaction::{spec_balanced, transactions_balanced, TernaryTransaction};

verus! {

/// Block `i` of `blocks` passes: its hash has `difficulty` leading zero trits, it links
/// to the hash of block `i - 1` (the first block to the all-zero hash), and its
/// transactions balance.
pub open spec fn block_ok(blocks: Seq<TernaryBlock>, i: int, difficulty: int) -> bool {
    &&& spec_has_leading_zeros(blocks[i].spec_hash(), difficulty)
    &&& if i == 0 {
        blocks[0].prev_hash@ == zero_state()
    } else {
        blocks[i].prev_hash@ == blocks[i - 1].spec_hash()
    }
    &&& spec_balanced(blocks[i].transactions@)
}

/// Every block of the chain passes.
pub open spec fn chain_valid(blocks: Seq<TernaryBlock>, difficulty: int) -> bool {
    forall|i: int| 0 <= i < blocks.len() ==> block_ok(blocks, i, difficulty)
}

/// Validation can hash every block it reaches: each block that follows only passing
/// blocks has a serializable header.
pub open spec fn checkable(blocks: Seq<TernaryBlock>, difficulty: int) -> bool {
    forall|i: int|
        0 <= i < blocks.len() && (forall|j: int| 0 <= j < i ==> block_ok(blocks, j, difficulty))
            ==> #[trigger] blocks[i].hashable()
}

/// Some nonce makes the block with these fields meet the difficulty.
pub open spec fn minable(
    index: u64,
    prev_hash: Seq<i8>,
    transactions: Seq<TernaryTransaction>,
    timestamp: u64,
    difficulty: int,
) -> bool {
    exists|n: u64|
        spec_has_leading_zeros(
            crate::hash::spec_ternary_hash(
                crate::block::spec_header_bytes(
                    index,
                    prev_hash,
                    txs_merkle_root(transactions),
                    n,
                    timestamp,
                ),
            ),
            difficulty,
        )
}

/// The hash that the next block links to.
pub open spec fn tip_hash(blocks: Seq<TernaryBlock>) -> Seq<i8> {
    if blocks.len() == 0 {
        zero_state()
    } else {
        blocks.last().spec_hash()
    }
}

/// Tampering with a block other than the last in a way that changes its hash breaks the
/// link of the block after it: the chain no longer validates.
pub proof fn lemma_tampering_breaks_link(
    blocks: Seq<TernaryBlock>,
    i: int,
    tampered: TernaryBlock,
    difficulty: int,
)
    requires
        chain_valid(blocks, difficulty),
        0 <= i,
        i + 1 < blocks.len(),
        tampered.spec_hash() != blocks[i].spec_hash(),
    ensures
        !chain_valid(blocks.update(i, tampered), difficulty),
{
    let t = blocks.update(i, tampered);
    assert(block_ok(blocks, i + 1, difficulty));
    assert(!block_ok(t, i + 1, difficulty));
}

/// Appending to a valid chain a block mined from the next block in line (linked to the
/// chain's tip hash) whose transactions balance keeps the chain valid. This holds of
/// whatever block mining returns, apart from whether it returns.
pub proof fn lemma_append_mined_block(
    blocks: Seq<TernaryBlock>,
    template: TernaryBlock,
    mined: TernaryBlock,
    difficulty: int,
)
    requires
        chain_valid(blocks, difficulty),
        template.prev_hash@ == tip_hash(blocks),
        spec_balanced(template.transactions@),
        mined_from(template, mined, difficulty),
    ensures
        chain_valid(blocks.push(mined), difficulty),
{
    let after = blocks.push(mined);
    assert(crate::pow::hash_with_nonce(template, mined.nonce) == mined.spec_hash());
    assert forall|i: int| 0 <= i < after.len() implies block_ok(after, i, difficulty) by {
        if i < blocks.len() {
            assert(after[i] == blocks[i]);
            assert(block_ok(blocks, i, difficulty));
            if i > 0 {
                assert(after[i - 1] == blocks[i - 1]);
            }
        } else {
            assert(after[i] == mined);
        }
    }
}

/// A valid chain checks every block, the first one included: every block's transaction
/// trits sum to zero, every block's hash is 27 trits whose first `difficulty` are zero,
/// the first block names the all-zero hash as its previous hash, and every later block
/// names the hash of the block before it.
pub proof fn lemma_valid_chain_checks_every_block(blocks: Seq<TernaryBlock>, difficulty: int)
    requires
        chain_valid(blocks, difficulty),
    ensures
        blocks.len() > 0 ==> blocks[0].prev_hash@ == Seq::new(27, |k: int| 0i8),
        forall|i: int|
            0 <= i < blocks.len() ==> crate::transaction::trit_sum(#[trigger] blocks[i].transactions@)
                == 0,
        blocks.len() > 0 ==> difficulty <= 27,
        forall|i: int, k: int|
            0 <= i < blocks.len() && 0 <= k < difficulty ==> #[trigger] blocks[i].spec_hash()[k]
                == 0,
        forall|i: int|
            0 < i < blocks.len() ==> #[trigger] blocks[i].prev_hash@ == blocks[i - 1].spec_hash(),
{
    assert(zero_state() =~= Seq::new(27, |k: int| 0i8));
    if blocks.len() > 0 {
        assert(block_ok(blocks, 0, difficulty));
    }
    assert forall|i: int| 0 <= i < blocks.len() implies crate::transaction::trit_sum(
        #[trigger] blocks[i].transactions@,
    ) == 0 by {
        assert(block_ok(blocks, i, difficulty));
    }
    if blocks.len() > 0 {
        crate::hash::lemma_hash_is_trits(blocks[0].header());
    }
    assert forall|i: int, k: int| 0 <= i < blocks.len() && 0 <= k < difficulty implies
        #[trigger] blocks[i].spec_hash()[k] == 0 by {
        assert(block_ok(blocks, i, difficulty));
    }
    assert forall|i: int| 0 < i < blocks.len() implies #[trigger] blocks[i].prev_hash@
        == blocks[i - 1].spec_hash() by {
        assert(block_ok(blocks, i, difficulty));
    }
}

/// Conversely, a chain whose every block, the first one included, balances, meets the
/// difficulty and links as above is valid.
pub proof fn lemma_checked_blocks_make_valid_chain(blocks: Seq<TernaryBlock>, difficulty: int)
    requires
        blocks.len() > 0 ==> blocks[0].prev_hash@ == Seq::new(27, |k: int| 0i8),
        forall|i: int|
            0 <= i < blocks.len() ==> crate::transaction::trit_sum(#[trigger] blocks[i].transactions@)
                == 0,
        blocks.len() > 0 ==> difficulty <= 27,
        forall|i: int, k: int|
            0 <= i < blocks.len() && 0 <= k < difficulty ==> #[trigger] blocks[i].spec_hash()[k]
                == 0,
        forall|i: int|
            0 < i < blocks.len() ==> #[trigger] blocks[i].prev_hash@ == blocks[i - 1].spec_hash(),
    ensures
        chain_valid(blocks, difficulty),
{
    assert(zero_state() =~= Seq::new(27, |k: int| 0i8));
    assert forall|i: int| 0 <= i < blocks.len() implies block_ok(blocks, i, difficulty) by {
        assert(crate::transaction::trit_sum(blocks[i].transactions@) == 0);
        crate::hash::lemma_hash_is_trits(blocks[i].header());
        assert(difficulty <= 27);
        if i > 0 {
            assert(blocks[i].prev_hash@ == blocks[i - 1].spec_hash());
        }
    }
}

pub struct TernaryChain {
    pub blocks: Vec<TernaryBlock>,
    pub difficulty: usize,
}

impl TernaryChain {
    pub fn new(difficulty: usize) -> (c: Self)
        ensures
            c.blocks@ == Seq::<TernaryBlock>::empty(),
            c.difficulty == difficulty,
    {
        TernaryChain { blocks: Vec::new(), difficulty }
    }

    /// Mines a genesis block with the given timestamp and appends it.
    pub fn init_genesis_at(&mut self, transactions: Vec<TernaryTransaction>, timestamp: u64)
        requires
            minable(0, zero_state(), transactions@, timestamp, old(self).difficulty as int),
        ensures
            final(self).difficulty == old(self).difficulty,
            final(self).blocks@.len() == old(self).blocks@.len() + 1,
            final(self).blocks@.drop_last() == old(self).blocks@,
            exists|b: TernaryBlock|
                #![trigger mined_from(b, final(self).blocks@.last(), old(self).difficulty as int)]
                b.index == 0 && b.prev_hash@ == zero_state() && b.transactions == transactions
                    && b.nonce == 0 && b.timestamp == timestamp && b.merkle_root@
                    == txs_merkle_root(transactions@) && mined_from(
                    b,
                    final(self).blocks@.last(),
                    old(self).difficulty as int,
                ),
            old(self).blocks@.len() == 0 && spec_balanced(transactions@) ==> chain_valid(
                final(self).blocks@,
                final(self).difficulty as int,
            ),
    {
        let z = [0i8; HASH_LEN];
        assert(z@ =~= zero_state());
        let genesis = TernaryBlock::with_timestamp(0, z, transactions, 0, timestamp);
        let ghost g = genesis;
        proof {
            let n = choose|n: u64|
                spec_has_leading_zeros(
                    crate::hash::spec_ternary_hash(
                        crate::block::spec_header_bytes(
                            0,
                            zero_state(),
                            txs_merkle_root(transactions@),
                            n,
                            timestamp,
                        ),
                    ),
                    self.difficulty as int,
                );
            assert(nonce_meets(genesis, n, self.difficulty as int));
            assert(shiftable(genesis.prev_hash@));
            assert(shiftable(genesis.merkle_root@));
        }
        let mined = ProofOfWork::mine(genesis, self.difficulty);
        let ghost before = self.blocks@;
        self.blocks.push(mined);
        proof {
            assert(self.blocks@.drop_last() =~= before);
            assert(mined_from(g, self.blocks@.last(), self.difficulty as int));
            if before.len() == 0 && spec_balanced(g.transactions@) {
                assert(block_ok(self.blocks@, 0, self.difficulty as int));
            }
        }
    }

    pub fn init_genesis(&mut self, transactions: Vec<TernaryTransaction>)
        requires
            forall|ts: u64|
                #[trigger] minable(0, zero_state(), transactions@, ts, old(self).difficulty as int),
        ensures
            final(self).difficulty == old(self).difficulty,
            final(self).blocks@.len() == old(self).blocks@.len() + 1,
            final(self).blocks@.drop_last() == old(self).blocks@,
            exists|b: TernaryBlock|
                #![trigger mined_from(b, final(self).blocks@.last(), old(self).difficulty as int)]
                b.index == 0 && b.prev_hash@ == zero_state() && b.transactions == transactions
                    && b.nonce == 0 && b.merkle_root@ == txs_merkle_root(transactions@)
                    && mined_from(b, final(self).blocks@.last(), old(self).difficulty as int),
            old(self).blocks@.len() == 0 && spec_balanced(transactions@) ==> chain_valid(
                final(self).blocks@,
                final(self).difficulty as int,
            ),
    {
        let timestamp = unix_timestamp();
        self.init_genesis_at(transactions, timestamp);
    }

    /// Mines a block with the given timestamp on top of the chain and appends it.
    pub fn add_block_at(&mut self, transactions: Vec<TernaryTransaction>, timestamp: u64)
        requires
            old(self).blocks@.len() > 0 ==> old(self).blocks@.last().hashable(),
            minable(
                old(self).blocks@.len() as u64,
                tip_hash(old(self).blocks@),
                transactions@,
                timestamp,
                old(self).difficulty as int,
            ),
        ensures
            final(self).difficulty == old(self).difficulty,
            final(self).blocks@.len() == old(self).blocks@.len() + 1,
            final(self).blocks@.drop_last() == old(self).blocks@,
            exists|b: TernaryBlock|
                #![trigger mined_from(b, final(self).blocks@.last(), old(self).difficulty as int)]
                b.index == old(self).blocks@.len() as u64 && b.prev_hash@ == tip_hash(
                    old(self).blocks@,
                ) && b.transactions == transactions && b.nonce == 0 && b.timestamp == timestamp
                    && b.merkle_root@ == txs_merkle_root(transactions@) && mined_from(
                    b,
                    final(self).blocks@.last(),
                    old(self).difficulty as int,
                ),
            chain_valid(old(self).blocks@, old(self).difficulty as int) && spec_balanced(
                transactions@,
            ) ==> chain_valid(final(self).blocks@, final(self).difficulty as int),
    {
        let prev_hash = if self.blocks.len() > 0 {
            self.blocks[self.blocks.len() - 1].hash()
        } else {
            let z = [0i8; HASH_LEN];
            assert(z@ =~= zero_state());
            z
        };
        let index = self.blocks.len() as u64;
        let block = TernaryBlock::with_timestamp(index, prev_hash, transactions, 0, timestamp);
        let ghost g = block;
        proof {
            let n = choose|n: u64|
                spec_has_leading_zeros(
                    crate::hash::spec_ternary_hash(
                        crate::block::spec_header_bytes(
                            index,
                            tip_hash(self.blocks@),
                            txs_merkle_root(transactions@),
                            n,
                            timestamp,
                        ),
                    ),
                    self.difficulty as int,
                );
            assert(nonce_meets(block, n, self.difficulty as int));
            assert(trit_state(prev_hash@));
            assert(shiftable(block.prev_hash@));
            assert(shiftable(block.merkle_root@));
        }
        let mined = ProofOfWork::mine(block, self.difficulty);
        let ghost before = self.blocks@;
        self.blocks.push(mined);
        proof {
            let after = self.blocks@;
            let d = self.difficulty as int;
            assert(after.drop_last() =~= before);
            assert(mined_from(g, after.last(), d));
            if chain_valid(before, d) && spec_balanced(g.transactions@) {
                assert(after =~= before.push(mined));
                lemma_append_mined_block(before, g, mined, d);
            }
        }
    }

    pub fn add_block(&mut self, transactions: Vec<TernaryTransaction>)
        requires
            old(self).blocks@.len() > 0 ==> old(self).blocks@.last().hashable(),
            forall|ts: u64|
                #[trigger] minable(
                    old(self).blocks@.len() as u64,
                    tip_hash(old(self).blocks@),
                    transactions@,
                    ts,
                    old(self).difficulty as int,
                ),
        ensures
            final(self).difficulty == old(self).difficulty,
            final(self).blocks@.len() == old(self).blocks@.len() + 1,
            final(self).blocks@.drop_last() == old(self).blocks@,
            exists|b: TernaryBlock|
                #![trigger mined_from(b, final(self).blocks@.last(), old(self).difficulty as int)]
                b.index == old(self).blocks@.len() as u64 && b.prev_hash@ == tip_hash(
                    old(self).blocks@,
                ) && b.transactions == transactions && b.nonce == 0 && b.merkle_root@
                    == txs_merkle_root(transactions@) && mined_from(
                    b,
                    final(self).blocks@.last(),
                    old(self).difficulty as int,
                ),
            chain_valid(old(self).blocks@, old(self).difficulty as int) && spec_balanced(
                transactions@,
            ) ==> chain_valid(final(self).blocks@, final(self).difficulty as int),
    {
        let timestamp = unix_timestamp();
        self.add_block_at(transactions, timestamp);
    }

    /// Validate entire chain: hash linkage, PoW, transaction balance.
    pub fn validate(&self) -> (ok: bool)
        requires
            checkable(self.blocks@, self.difficulty as int),
        ensures
            ok == chain_valid(self.blocks@, self.difficulty as int),
    {
        let n = self.blocks.len();
        let d = self.difficulty;
        let mut i: usize = 0;
        while i < n
            invariant
                n == self.blocks@.len(),
                d == self.difficulty,
                i <= n,
                checkable(self.blocks@, d as int),
                forall|j: int| 0 <= j < i ==> block_ok(self.blocks@, j, d as int),
            decreases n - i,
        {
            let block = &self.blocks[i];
            assert(self.blocks@[i as int].hashable());
            if !ProofOfWork::verify(block, d) {
                assert(!block_ok(self.blocks@, i as int, d as int));
                return false;
            }
            if i == 0 {
                let z = [0i8; HASH_LEN];
                assert(z@ =~= zero_state());
                if !trits_eq(&block.prev_hash, &z) {
                    assert(!block_ok(self.blocks@, i as int, d as int));
                return false;
                }
            } else {
                assert(self.blocks@[i - 1].hashable());
                let expected = self.blocks[i - 1].hash();
                if !trits_eq(&block.prev_hash, &expected) {
                    assert(!block_ok(self.blocks@, i as int, d as int));
                return false;
                }
            }
            if !transactions_balanced(block.transactions.as_slice()) {
                assert(!block_ok(self.blocks@, i as int, d as int));
                return false;
            }
            i += 1;
        }
        true
    }

    pub fn len(&self) -> (n: usize)
        ensures
            n == self.blocks@.len(),
    {
        self.blocks.len()
    }
}

} // verus!
