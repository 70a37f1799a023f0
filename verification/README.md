# ternary blockchain, verified

Blockchain primitives over balanced ternary trits {-1, 0, +1}, written in Verus.
Every function of `src/` is verified against a contract over spec functions, except
the three calls into `std::time` in `src/clock.rs`, which are trusted and state nothing
of the clock's reading.

Layout:

- `src/lib.rs` — a compact stand-alone chain: bytes to trits (five base-3 digits per
  byte), a 24-trit sponge hash, string-addressed transactions, blocks that store their
  own hash and are mined from nonce 0, a Merkle root over transaction hashes, and chain
  validation.
- `src/hash.rs` — the 27-trit sponge hash (balanced digits, Z3 trit arithmetic, three
  mixing rounds per absorption) and `hash_pair`.
- `src/transaction.rs` — typed transactions (send / hold / receive) and the balance rule.
- `src/merkle.rs` — Merkle root, inclusion proofs and their verification.
- `src/block.rs`, `src/pow.rs`, `src/chain.rs` — block headers, proof of work, and the
  chain that is built by mining and validated block by block.
- `src/encoding.rs` — little-endian integers and trit-to-byte encodings.
- `src/clock.rs` — the system clock, the one call whose result nothing is stated of.

Proved laws include: every hash is a vector of trits of the right length; a set of
transactions is balanced exactly when sends and receives are equal in number; the
inclusion proof of any leaf rebuilds the Merkle root; a mined block meets its
difficulty with the first nonce that does; adding a block with balanced transactions
to a valid chain keeps it valid; the trits of a byte give back its value (mod 243, and
exactly for the balanced digits up to 121).
