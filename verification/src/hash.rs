//! Sponge-style hash on a 27-trit state.
use vstd::prelude::*;

verus! {

/// Number of trits in a hash.
pub const HASH_LEN: usize = 27;

/// A 27-trit hash value.
pub type TritHash = [i8; HASH_LEN];

/// A trit is one of -1, 0, +1.
pub open spec fn is_trit(t: i8) -> bool {
    -1 <= t <= 1
}

/// Every element of `s` is a trit.
pub open spec fn all_trits(s: Seq<i8>) -> bool {
    forall|i: int| 0 <= i < s.len() ==> is_trit(#[trigger] s[i])
}

/// Balanced reduction of a small integer into {-1, 0, +1} by one step of +-3.
pub open spec fn balance(s: int) -> int {
    if s > 1 {
        s - 3
    } else if s < -1 {
        s + 3
    } else {
        s
    }
}

/// Sum of two trits in Z3, balanced.
pub open spec fn spec_trit_add(a: i8, b: i8) -> i8 {
    balance(a + b) as i8
}

/// Product of two trits in Z3, balanced.
pub open spec fn spec_trit_mul(a: i8, b: i8) -> i8 {
    balance(a * b) as i8
}

/// On trits, balanced addition and multiplication stay trits and agree with Z3.
pub proof fn lemma_trit_ops(a: i8, b: i8)
    requires
        is_trit(a),
        is_trit(b),
    ensures
        is_trit(spec_trit_add(a, b)),
        is_trit(spec_trit_mul(a, b)),
        -1 <= a * b <= 1,
        (spec_trit_add(a, b) - (a + b)) % 3 == 0,
        (spec_trit_mul(a, b) - (a * b)) % 3 == 0,
{
    assert(-1 <= a * b <= 1) by (nonlinear_arith)
        requires
            -1 <= a <= 1,
            -1 <= b <= 1,
    ;
}

fn trit_add(a: i8, b: i8) -> (r: i8)
    requires
        is_trit(a),
        is_trit(b),
    ensures
        r == spec_trit_add(a, b),
        is_trit(r),
{
    let s = a + b;
    if s > 1 {
        s - 3
    } else if s < -1 {
        s + 3
    } else {
        s
    }
}

fn trit_mul(a: i8, b: i8) -> (r: i8)
    requires
        is_trit(a),
        is_trit(b),
    ensures
        r == spec_trit_mul(a, b),
        is_trit(r),
{
    proof {
        lemma_trit_ops(a, b);
    }
    let p = a * b;
    if p > 1 {
        p - 3
    } else if p < -1 {
        p + 3
    } else {
        p
    }
}


/// `s` rotated left by `n` positions: position `i` receives `s[(i + n mod 27) mod 27]`.
pub open spec fn spec_rotate_left(s: Seq<i8>, n: int) -> Seq<i8> {
    Seq::new(27, |i: int| s[(i + n % 27) % 27])
}

fn rotate_left(state: &mut [i8; HASH_LEN], n: usize)
    ensures
        final(state)@ == spec_rotate_left(old(state)@, n as int),
{
    let k = n % HASH_LEN;
    let tmp = *state;
    for i in 0..HASH_LEN
        invariant
            tmp@ == old(state)@,
            k == n % 27,
            forall|j: int| 0 <= j < i ==> #[trigger] state@[j] == tmp@[(j + k) % 27],
    {
        state[i] = tmp[(i + k) % HASH_LEN];
    }
    assert(state@ =~= spec_rotate_left(old(state)@, n as int));
}

/// `3` to the power `j`.
pub open spec fn pow3(j: nat) -> nat
    decreases j,
{
    if j == 0 {
        1
    } else {
        3 * pow3((j - 1) as nat)
    }
}

pub proof fn lemma_pow3_pos(j: nat)
    ensures
        pow3(j) > 0,
    decreases j,
{
    if j > 0 {
        lemma_pow3_pos((j - 1) as nat);
    }
}

/// The balanced ternary digit of `v`: its residue mod 3, with 2 written as -1.
pub open spec fn bal_digit(v: int) -> int {
    if v % 3 == 2 {
        -1
    } else {
        v % 3
    }
}

/// What is left of `v` after its lowest `k` balanced ternary digits are taken off.
pub open spec fn bal_carry(v: int, k: nat) -> int
    decreases k,
{
    if k == 0 {
        v
    } else {
        let p = bal_carry(v, (k - 1) as nat);
        (p - bal_digit(p)) / 3
    }
}

/// The five lowest balanced ternary digits of a byte, least significant first.
pub open spec fn spec_byte_to_trits(b: u8) -> Seq<i8> {
    Seq::new(5, |i: int| bal_digit(bal_carry(b as int, i as nat)) as i8)
}

fn byte_to_trits(b: u8) -> (t: [i8; 5])
    ensures
        t@ == spec_byte_to_trits(b),
        all_trits(t@),
{
    proof {
        lemma_byte_trits(b);
    }
    let mut v: u16 = b as u16;
    let mut t = [0i8; 5];
    for i in 0..5
        invariant
            v == bal_carry(b as int, i as nat),
            v <= 255,
            forall|j: int| 0 <= j < i ==> #[trigger] t@[j] == spec_byte_to_trits(b)[j],
            forall|j: int| 0 <= j < i ==> is_trit(#[trigger] t@[j]),
    {
        let r = v % 3;
        if r == 2 {
            t[i] = -1;
            v = (v + 1) / 3;
        } else {
            t[i] = r as i8;
            v = (v - r) / 3;
        }
    }
    assert(t@ =~= spec_byte_to_trits(b));
    t
}

/// The state after adding the first `n` trits of `chunk` into it, trit `i` landing on
/// position `i mod 27`.
pub open spec fn absorb_add(state: Seq<i8>, chunk: Seq<i8>, n: nat) -> Seq<i8>
    decreases n,
{
    if n == 0 {
        state
    } else {
        let s = absorb_add(state, chunk, (n - 1) as nat);
        let idx = (n - 1) % 27;
        s.update(idx, spec_trit_add(s[idx], chunk[n - 1]))
    }
}

/// The nonlinear layer: each trit plus the product of its two neighbours, plus `round_t`.
pub open spec fn mix_layer(prev: Seq<i8>, round_t: i8) -> Seq<i8> {
    Seq::new(
        27,
        |i: int|
            spec_trit_add(
                spec_trit_add(prev[i], spec_trit_mul(prev[(i + 26) % 27], prev[(i + 1) % 27])),
                round_t,
            ),
    )
}

/// Mixing round `r` (0, 1 or 2): the nonlinear layer with constant `r - 1`, then a
/// rotation left by `3 (r + 1)`.
pub open spec fn mix_round(s: Seq<i8>, r: int) -> Seq<i8> {
    spec_rotate_left(mix_layer(s, (r - 1) as i8), 3 * (r + 1))
}

/// The first `r` mixing rounds applied to `s`.
pub open spec fn mix_rounds(s: Seq<i8>, r: nat) -> Seq<i8>
    decreases r,
{
    if r == 0 {
        s
    } else {
        mix_round(mix_rounds(s, (r - 1) as nat), r - 1)
    }
}

/// One absorption: add the chunk, then three mixing rounds.
pub open spec fn spec_absorb(state: Seq<i8>, chunk: Seq<i8>) -> Seq<i8> {
    mix_rounds(absorb_add(state, chunk, chunk.len()), 3)
}

/// A 27-trit state of trits.
pub open spec fn trit_state(s: Seq<i8>) -> bool {
    s.len() == 27 && all_trits(s)
}

proof fn lemma_absorb_add_trits(state: Seq<i8>, chunk: Seq<i8>, n: nat)
    requires
        trit_state(state),
        all_trits(chunk),
        n <= chunk.len(),
    ensures
        trit_state(absorb_add(state, chunk, n)),
    decreases n,
{
    if n > 0 {
        lemma_absorb_add_trits(state, chunk, (n - 1) as nat);
        let s = absorb_add(state, chunk, (n - 1) as nat);
        let idx = (n - 1) % 27;
        lemma_trit_ops(s[idx], chunk[n - 1]);
    }
}

proof fn lemma_mix_round_trits(s: Seq<i8>, r: int)
    requires
        trit_state(s),
        0 <= r <= 2,
    ensures
        trit_state(mix_round(s, r)),
{
    let m = mix_layer(s, (r - 1) as i8);
    assert forall|i: int| 0 <= i < 27 implies is_trit(#[trigger] m[i]) by {
        let p = spec_trit_mul(s[(i + 26) % 27], s[(i + 1) % 27]);
        lemma_trit_ops(s[(i + 26) % 27], s[(i + 1) % 27]);
        lemma_trit_ops(s[i], p);
        lemma_trit_ops(spec_trit_add(s[i], p), (r - 1) as i8);
    }
    let q = mix_round(s, r);
    assert forall|i: int| 0 <= i < 27 implies is_trit(#[trigger] q[i]) by {
        assert(0 <= (i + (3 * (r + 1)) % 27) % 27 < 27);
    }
}

proof fn lemma_mix_rounds_trits(s: Seq<i8>, r: nat)
    requires
        trit_state(s),
        r <= 3,
    ensures
        trit_state(mix_rounds(s, r)),
    decreases r,
{
    if r > 0 {
        lemma_mix_rounds_trits(s, (r - 1) as nat);
        lemma_mix_round_trits(mix_rounds(s, (r - 1) as nat), r - 1);
    }
}

/// Absorbing trits into a trit state gives a trit state.
pub proof fn lemma_absorb_trits(state: Seq<i8>, chunk: Seq<i8>)
    requires
        trit_state(state),
        all_trits(chunk),
    ensures
        trit_state(spec_absorb(state, chunk)),
{
    lemma_absorb_add_trits(state, chunk, chunk.len());
    lemma_mix_rounds_trits(absorb_add(state, chunk, chunk.len()), 3);
}

fn mix(state: &mut [i8; HASH_LEN], round: u8)
    requires
        trit_state(old(state)@),
        round < 3,
    ensures
        final(state)@ == mix_round(old(state)@, round as int),
        trit_state(final(state)@),
{
    let round_t = (round as i8) - 1;
    let prev = *state;
    for i in 0..HASH_LEN
        invariant
            prev@ == old(state)@,
            trit_state(prev@),
            round_t == round - 1,
            round < 3,
            forall|j: int| 0 <= j < i ==> #[trigger] state@[j] == mix_layer(prev@, round_t)[j],
    {
        let left = prev[(i + HASH_LEN - 1) % HASH_LEN];
        let right = prev[(i + 1) % HASH_LEN];
        let p = trit_mul(left, right);
        let a = trit_add(prev[i], p);
        state[i] = trit_add(a, round_t);
        assert((i + 27 - 1) % 27 == (i + 26) % 27);
    }
    assert(state@ =~= mix_layer(prev@, round_t));
    rotate_left(state, 3 * (round as usize + 1));
    proof {
        lemma_mix_round_trits(prev@, round as int);
    }
}

fn absorb(state: &mut [i8; HASH_LEN], chunk: &[i8])
    requires
        trit_state(old(state)@),
        all_trits(chunk@),
    ensures
        final(state)@ == spec_absorb(old(state)@, chunk@),
        trit_state(final(state)@),
{
    let ghost start = state@;
    let mut i: usize = 0;
    while i < chunk.len()
        invariant
            start == old(state)@,
            trit_state(start),
            all_trits(chunk@),
            i <= chunk.len(),
            state@ == absorb_add(start, chunk@, i as nat),
            trit_state(state@),
        decreases chunk.len() - i,
    {
        let idx = i % HASH_LEN;
        proof {
            lemma_absorb_add_trits(start, chunk@, (i + 1) as nat);
        }
        state[idx] = trit_add(state[idx], chunk[i]);
        i += 1;
    }
    let ghost added = state@;
    for round in 0..3u8
        invariant
            state@ == mix_rounds(added, round as nat),
            trit_state(state@),
            trit_state(added),
    {
        mix(state, round);
    }
}

/// The state after absorbing the trits of the first `n` bytes of `data`, one byte at a time.
pub open spec fn absorb_bytes(state: Seq<i8>, data: Seq<u8>, n: nat) -> Seq<i8>
    decreases n,
{
    if n == 0 {
        state
    } else {
        spec_absorb(absorb_bytes(state, data, (n - 1) as nat), spec_byte_to_trits(data[n - 1]))
    }
}

/// The padding chunk absorbed last.
pub open spec fn hash_sentinel() -> Seq<i8> {
    seq![1i8, -1i8, 0i8, 1i8, -1i8]
}

/// The all-zero 27-trit state.
pub open spec fn zero_state() -> Seq<i8> {
    Seq::new(27, |i: int| 0i8)
}

/// The hash of `data`: absorb the trits of its length mod 256, then of each byte,
/// then the padding chunk.
pub open spec fn spec_ternary_hash(data: Seq<u8>) -> Seq<i8> {
    let s0 = spec_absorb(zero_state(), spec_byte_to_trits((data.len() % 256) as u8));
    spec_absorb(absorb_bytes(s0, data, data.len()), hash_sentinel())
}

proof fn lemma_byte_trits(b: u8)
    ensures
        all_trits(spec_byte_to_trits(b)),
        spec_byte_to_trits(b).len() == 5,
{
}

proof fn lemma_absorb_bytes_trits(state: Seq<i8>, data: Seq<u8>, n: nat)
    requires
        trit_state(state),
        n <= data.len(),
    ensures
        trit_state(absorb_bytes(state, data, n)),
    decreases n,
{
    if n > 0 {
        lemma_absorb_bytes_trits(state, data, (n - 1) as nat);
        lemma_byte_trits(data[n - 1]);
        lemma_absorb_trits(absorb_bytes(state, data, (n - 1) as nat), spec_byte_to_trits(data[n - 1]));
    }
}

/// Every hash is a 27-trit state of trits.
pub proof fn lemma_hash_is_trits(data: Seq<u8>)
    ensures
        trit_state(spec_ternary_hash(data)),
{
    let z = zero_state();
    assert(trit_state(z));
    lemma_byte_trits((data.len() % 256) as u8);
    lemma_absorb_trits(z, spec_byte_to_trits((data.len() % 256) as u8));
    let s0 = spec_absorb(z, spec_byte_to_trits((data.len() % 256) as u8));
    lemma_absorb_bytes_trits(s0, data, data.len());
    assert(all_trits(hash_sentinel()));
    lemma_absorb_trits(absorb_bytes(s0, data, data.len()), hash_sentinel());
}

/// Hash arbitrary bytes to a 27-trit hash.
pub fn ternary_hash(data: &[u8]) -> (h: TritHash)
    ensures
        h@ == spec_ternary_hash(data@),
        trit_state(h@),
{
    let mut state = [0i8; HASH_LEN];
    assert(state@ =~= zero_state());
    let n = data.len();
    let low = n & 0xFF;
    assert(n & 0xFF == n % 256) by (bit_vector);
    let len_trits = byte_to_trits(low as u8);
    absorb(&mut state, &len_trits);
    let ghost s0 = state@;
    let mut i: usize = 0;
    while i < n
        invariant
            n == data@.len(),
            i <= n,
            state@ == absorb_bytes(s0, data@, i as nat),
            trit_state(state@),
        decreases n - i,
    {
        let buf = byte_to_trits(data[i]);
        absorb(&mut state, &buf);
        i += 1;
    }
    let sentinel: [i8; 5] = [1, -1, 0, 1, -1];
    assert(sentinel@ =~= hash_sentinel());
    absorb(&mut state, &sentinel);
    state
}

/// A sequence of trits that can be shifted up by one without leaving the `i8` range.
pub open spec fn shiftable(s: Seq<i8>) -> bool {
    forall|i: int| 0 <= i < s.len() ==> #[trigger] s[i] != 127
}

/// Trits mapped to bytes by `t + 1` ({-1, 0, 1} to {0, 1, 2}).
pub open spec fn trit_bytes(s: Seq<i8>) -> Seq<u8> {
    Seq::new(s.len(), |i: int| (s[i] + 1) as u8)
}

/// The hash of two hashes, left then right.
pub open spec fn spec_hash_pair(left: Seq<i8>, right: Seq<i8>) -> Seq<i8> {
    spec_ternary_hash(trit_bytes(left + right))
}

/// Hash two trit hashes together (for Merkle).
pub fn hash_pair(left: &TritHash, right: &TritHash) -> (h: TritHash)
    requires
        shiftable(left@),
        shiftable(right@),
    ensures
        h@ == spec_hash_pair(left@, right@),
        trit_state(h@),
{
    let mut combined: Vec<u8> = Vec::new();
    let ghost both = left@ + right@;
    for i in 0..HASH_LEN
        invariant
            both == left@ + right@,
            shiftable(left@),
            combined@ == trit_bytes(both).take(i as int),
    {
        combined.push((left[i] + 1) as u8);
        assert(combined@ =~= trit_bytes(both).take(i + 1));
    }
    for i in 0..HASH_LEN
        invariant
            both == left@ + right@,
            shiftable(right@),
            combined@ == trit_bytes(both).take(27 + i),
    {
        combined.push((right[i] + 1) as u8);
        assert(combined@ =~= trit_bytes(both).take(27 + i + 1));
    }
    assert(combined@ =~= trit_bytes(both));
    ternary_hash(combined.as_slice())
}

/// The number `sum t[j] * 3^j` over the first `n` trits of `t`.
pub open spec fn trits_value(t: Seq<i8>, n: nat) -> int
    decreases n,
{
    if n == 0 {
        0
    } else {
        trits_value(t, (n - 1) as nat) + t[n - 1] * pow3((n - 1) as nat)
    }
}

proof fn lemma_bal_step(v: int)
    ensures
        v == bal_digit(v) + 3 * ((v - bal_digit(v)) / 3),
{
}

proof fn lemma_byte_trits_partial(b: u8, n: nat)
    requires
        n <= 5,
    ensures
        b == trits_value(spec_byte_to_trits(b), n) + pow3(n) * bal_carry(b as int, n),
        2 * trits_value(spec_byte_to_trits(b), n) <= pow3(n) - 1,
        2 * trits_value(spec_byte_to_trits(b), n) >= 1 - pow3(n),
    decreases n,
{
    if n == 0 {
        assert(pow3(0) == 1);
        assert(trits_value(spec_byte_to_trits(b), 0) == 0);
        assert(bal_carry(b as int, 0) == b);
    } else {
        let m = (n - 1) as nat;
        lemma_byte_trits_partial(b, m);
        let c = bal_carry(b as int, m);
        let d = bal_digit(c);
        let p = pow3(m);
        lemma_bal_step(c);
        assert(spec_byte_to_trits(b)[m as int] == d);
        assert(p * c == d * p + (p * 3) * bal_carry(b as int, n)) by (nonlinear_arith)
            requires
                c == d + 3 * bal_carry(b as int, n),
        ;
        assert(pow3(n) == p * 3);
        assert(bal_carry(b as int, n) == (c - d) / 3);
        assert(trits_value(spec_byte_to_trits(b), n) == trits_value(spec_byte_to_trits(b), m) + d * p);
        assert(-1 <= d <= 1);
        assert(-p <= d * p <= p) by (nonlinear_arith)
            requires
                -1 <= d <= 1,
                p >= 0,
        ;
    }
}

/// The five trits of a byte are its balanced ternary digits: the byte is their value
/// plus 243 times what is left over. Bytes up to 121 leave nothing over and are
/// recovered exactly; larger bytes are not (243 and 0 give the same trits).
pub proof fn lemma_byte_to_trits_value(b: u8)
    ensures
        b == trits_value(spec_byte_to_trits(b), 5) + 243 * bal_carry(b as int, 5),
        b <= 121 ==> trits_value(spec_byte_to_trits(b), 5) == b,
{
    lemma_byte_trits_partial(b, 5);
    assert(pow3(5) == 243) by {
        reveal_with_fuel(pow3, 6);
    }
}

} // verus!
