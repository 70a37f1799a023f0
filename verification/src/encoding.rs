//! Little-endian integers and trit-to-byte encodings used by the serializers.
use vstd::prelude::*;

use crate::hash::{shiftable, trit_bytes};

verus! {

/// `256` to the power `i`.
pub open spec fn pow256(i: nat) -> nat
    decreases i,
{
    if i == 0 {
        1
    } else {
        256 * pow256((i - 1) as nat)
    }
}

/// Byte `i` (from the least significant) of `x`.
pub open spec fn le_byte(x: u64, i: int) -> u8 {
    ((x as nat / pow256(i as nat)) % 256) as u8
}

/// The eight little-endian bytes of `x` (what `u64::to_le_bytes` gives).
pub open spec fn le_bytes(x: u64) -> Seq<u8> {
    Seq::new(8, |i: int| le_byte(x, i))
}

proof fn lemma_pow256_pos(i: nat)
    ensures
        pow256(i) > 0,
    decreases i,
{
    if i > 0 {
        lemma_pow256_pos((i - 1) as nat);
    }
}

/// Appends the little-endian bytes of `x` to `v`.
pub fn push_u64_le(v: &mut Vec<u8>, x: u64)
    ensures
        final(v)@ == old(v)@ + le_bytes(x),
{
    let mut val = x;
    assert(pow256(0) == 1);
    assert(x as nat / 1 == x as nat);
    for i in 0..8usize
        invariant
            val as nat == x as nat / pow256(i as nat),
            v@ == old(v)@ + le_bytes(x).take(i as int),
    {
        proof {
            lemma_pow256_pos(i as nat);
            vstd::arithmetic::div_mod::lemma_div_denominator(x as int, pow256(i as nat) as int, 256);
            assert(pow256((i + 1) as nat) == pow256(i as nat) * 256);
        }
        v.push((val % 256) as u8);
        val = val / 256;
        assert(v@ =~= old(v)@ + le_bytes(x).take(i + 1));
    }
    assert(le_bytes(x).take(8) =~= le_bytes(x));
}

/// Appends the bytes of `s` to `v`.
pub fn push_bytes(v: &mut Vec<u8>, s: &[u8])
    ensures
        final(v)@ == old(v)@ + s@,
{
    let mut i: usize = 0;
    while i < s.len()
        invariant
            i <= s@.len(),
            v@ == old(v)@ + s@.take(i as int),
        decreases s.len() - i,
    {
        v.push(s[i]);
        i += 1;
        assert(v@ =~= old(v)@ + s@.take(i as int));
    }
    assert(s@.take(s@.len() as int) =~= s@);
}

/// Appends each trit of `s`, shifted up by one, as a byte.
pub fn push_trit_bytes(v: &mut Vec<u8>, s: &[i8])
    requires
        shiftable(s@),
    ensures
        final(v)@ == old(v)@ + trit_bytes(s@),
{
    let mut i: usize = 0;
    while i < s.len()
        invariant
            i <= s@.len(),
            shiftable(s@),
            v@ == old(v)@ + trit_bytes(s@).take(i as int),
        decreases s.len() - i,
    {
        v.push((s[i] + 1) as u8);
        i += 1;
        assert(v@ =~= old(v)@ + trit_bytes(s@).take(i as int));
    }
    assert(trit_bytes(s@).take(s@.len() as int) =~= trit_bytes(s@));
}

} // verus!
