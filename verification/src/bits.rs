//! Arithmetic models of bit fields shared by the value types.

use vstd::prelude::*;
use vstd::arithmetic::power2::*;
use vstd::bits::*;

verus! {

/// The `dims`-bit field of `x` that starts at bit `start` (bit 0 being the
/// least significant), read as a natural number.
pub open spec fn bit_field(x: nat, start: nat, dims: nat) -> nat {
    (x / pow2(start)) % pow2(dims)
}

/// Whether bit `i` of `x` is set.
pub open spec fn bit_set(x: nat, i: nat) -> bool {
    (x / pow2(i)) % 2 == 1
}

/// The number of set bits of `x`.
pub open spec fn popcount(x: nat) -> nat
    decreases x,
{
    if x == 0 { 0 } else { x % 2 + popcount(x / 2) }
}

/// The indices below `n` of the set bits of `x`, in increasing order.
pub open spec fn set_bit_indices(x: nat, n: nat) -> Seq<usize>
    decreases n,
{
    if n == 0 {
        Seq::empty()
    } else if bit_set(x, (n - 1) as nat) {
        set_bit_indices(x, (n - 1) as nat).push((n - 1) as usize)
    } else {
        set_bit_indices(x, (n - 1) as nat)
    }
}

proof fn lemma_u64_low_bit(x: u64)
    ensures
        x & 1 == x % 2,
        x >> 1 == x / 2,
{
    assert(x & 1 == x % 2 && x >> 1 == x / 2) by (bit_vector);
}

/// A number below `2^n` has at most `n` set bits.
pub proof fn lemma_popcount_bound(x: nat, n: nat)
    requires
        x < pow2(n),
    ensures
        popcount(x) <= n,
    decreases n,
{
    if n == 0 {
        lemma2_to64();
    } else {
        lemma_pow2_unfold(n);
        if x > 0 {
            lemma_popcount_bound(x / 2, (n - 1) as nat);
        }
    }
}

/// The number of set bits of `x`.
pub fn popcount_u64(x: u64) -> (r: u32)
    ensures
        r as nat == popcount(x as nat),
{
    proof {
        lemma2_to64_rest();
        lemma_popcount_bound(x as nat, 64);
    }
    let mut y: u64 = x;
    let mut count: u32 = 0;
    while y != 0
        invariant
            count as nat + popcount(y as nat) == popcount(x as nat),
            popcount(x as nat) <= 64,
        decreases y,
    {
        proof { lemma_u64_low_bit(y); }
        count = count + (y & 1) as u32;
        y = y >> 1;
    }
    count
}

/// `x`'s bits read as the `u64` of the same value.
pub proof fn lemma_xor_widen_u8(a: u8, b: u8)
    ensures
        (a ^ b) as u64 == (a as u64) ^ (b as u64),
{
    assert((a ^ b) as u64 == (a as u64) ^ (b as u64));
}

pub proof fn lemma_xor_widen_u16(a: u16, b: u16)
    ensures
        (a ^ b) as u64 == (a as u64) ^ (b as u64),
{
    assert((a ^ b) as u64 == (a as u64) ^ (b as u64));
}

pub proof fn lemma_xor_widen_u32(a: u32, b: u32)
    ensures
        (a ^ b) as u64 == (a as u64) ^ (b as u64),
{
    assert((a ^ b) as u64 == (a as u64) ^ (b as u64));
}

/// Bit `i` of `x` read with shifts and masks.
pub proof fn lemma_u64_bit(x: u64, i: u64)
    requires
        i < 64,
    ensures
        (((1u64 << i) & x) != 0) == bit_set(x as nat, i as nat),
{
    assert((((1u64 << i) & x) != 0) == (((x >> i) & 1) == 1)) by (bit_vector)
        requires i < 64;
    lemma_u64_shr_is_div(x, i);
    lemma_u64_low_bit(x >> i);
}


proof fn lemma_low_bit_facts(p: u64, q: u64)
    ensures
        (p ^ q) % 2 == (p % 2 + q % 2) % 2,
        (p | q) % 2 <= p % 2 + q % 2,
        (p ^ q) / 2 == (p / 2) ^ (q / 2),
        (p | q) / 2 == (p / 2) | (q / 2),
        (p & q) / 2 == (p / 2) & (q / 2),
        (p & q) % 2 == (p % 2) * (q % 2),
        (!q) / 2 == !(q / 2) & 0x7fff_ffff_ffff_ffffu64,
        (!q) % 2 == 1 - q % 2,
{
    assert((p ^ q) % 2 == (p % 2 + q % 2) % 2 && (p | q) % 2 <= p % 2 + q % 2
        && (p ^ q) / 2 == (p / 2) ^ (q / 2) && (p | q) / 2 == (p / 2) | (q / 2)
        && (p & q) / 2 == (p / 2) & (q / 2) && (p & q) % 2 == (p % 2) * (q % 2)
        && (!q) / 2 == !(q / 2) & 0x7fff_ffff_ffff_ffffu64 && (!q) % 2 == 1 - q % 2) by (bit_vector);
}

/// The set bits of `p ^ q` are set in `p` or in `q`.
pub proof fn lemma_popcount_xor(p: u64, q: u64)
    ensures
        popcount((p ^ q) as nat) <= popcount(p as nat) + popcount(q as nat),
    decreases p + q,
{
    if p == 0 && q == 0 {
        assert(p ^ q == 0) by (bit_vector)
            requires p == 0 && q == 0;
    } else {
        lemma_low_bit_facts(p, q);
        lemma_popcount_xor(p / 2, q / 2);
    }
}

/// The set bits of `p | q` are set in `p` or in `q`.
pub proof fn lemma_popcount_or(p: u64, q: u64)
    ensures
        popcount((p | q) as nat) <= popcount(p as nat) + popcount(q as nat),
    decreases p + q,
{
    if p == 0 && q == 0 {
        assert(p | q == 0) by (bit_vector)
            requires p == 0 && q == 0;
    } else {
        lemma_low_bit_facts(p, q);
        lemma_popcount_or(p / 2, q / 2);
    }
}

/// A value whose set bits are all set in `q` has at most as many.
pub proof fn lemma_popcount_subset(p: u64, q: u64)
    requires
        p & q == p,
    ensures
        popcount(p as nat) <= popcount(q as nat),
    decreases q,
{
    if q == 0 {
        assert(p == 0) by (bit_vector)
            requires p & q == p, q == 0;
    } else {
        lemma_low_bit_facts(p, q);
        assert((p / 2) & (q / 2) == p / 2 && p % 2 <= q % 2) by (bit_vector)
            requires p & q == p;
        lemma_popcount_subset(p / 2, q / 2);
    }
}

/// The triangle inequality for the bit distance `popcount(x ^ y)`.
pub proof fn lemma_popcount_triangle(x: u64, y: u64, z: u64)
    ensures
        popcount((x ^ z) as nat) <= popcount((x ^ y) as nat) + popcount((y ^ z) as nat),
{
    assert(x ^ z == (x ^ y) ^ (y ^ z)) by (bit_vector);
    lemma_popcount_xor(x ^ y, y ^ z);
}

/// The bit distance is symmetric.
pub proof fn lemma_popcount_symmetric(x: u64, y: u64)
    ensures
        popcount((x ^ y) as nat) == popcount((y ^ x) as nat),
{
    assert(x ^ y == y ^ x) by (bit_vector);
}

/// A single set bit.
pub proof fn lemma_popcount_one_bit(i: u64)
    requires
        i < 64,
    ensures
        popcount((1u64 << i) as nat) == 1,
    decreases i,
{
    if i == 0 {
        assert(1u64 << 0u64 == 1u64) by (bit_vector);
        assert(popcount(0) == 0);
    } else {
        assert((1u64 << i) % 2 == 0 && (1u64 << i) / 2 == 1u64 << ((i - 1) as u64) && (1u64 << i) != 0) by (bit_vector)
            requires 0 < i < 64;
        lemma_popcount_one_bit((i - 1) as u64);
    }
}

} // verus!
