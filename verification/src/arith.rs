//! Small integer helpers shared by the converter: powers of two and
//! binary lengths of machine integers.
use vstd::prelude::*;

verus! {

use vstd::arithmetic::power2::{
    pow2,
    lemma_pow2_adds,
    lemma_pow2_strictly_increases,
    lemma_pow2_unfold,
    lemma_pow2_pos,
    lemma2_to64,
    lemma2_to64_rest,
};

/// Number of binary digits of `n`: the smallest `b` with `n < pow2(b)`.
pub open spec fn bit_len(n: nat) -> nat
    decreases n,
{
    if n == 0 {
        0
    } else {
        bit_len(n / 2) + 1
    }
}

/// A positive number lies between the two powers of two that its binary
/// length names.
pub proof fn lemma_bit_len_bounds(n: nat)
    requires
        n > 0,
    ensures
        bit_len(n) >= 1,
        pow2((bit_len(n) - 1) as nat) <= n < pow2(bit_len(n)),
    decreases n,
{
    if n == 1 {
        assert(bit_len(0nat) == 0);
        assert(bit_len(1nat) == 1);
        lemma2_to64();
    } else {
        lemma_bit_len_bounds(n / 2);
        let b = bit_len(n / 2);
        lemma_pow2_unfold(b + 1);
        if b >= 1 {
            lemma_pow2_unfold(b);
        }
    }
}

/// `bit_len` never exceeds the exponent of a power of two above `n`.
pub proof fn lemma_bit_len_le(n: nat, k: nat)
    requires
        n < pow2(k),
    ensures
        bit_len(n) <= k,
{
    if n > 0 {
        lemma_bit_len_bounds(n);
        let b = bit_len(n);
        if b > k {
            if k < b - 1 {
                lemma_pow2_strictly_increases(k, (b - 1) as nat);
            }
            assert(pow2(k) <= pow2((b - 1) as nat));
            assert(false);
        }
    }
}

/// Compute `pow2(e)` as a machine word.
pub fn pow2_u64(e: u32) -> (r: u64)
    requires
        e <= 63,
    ensures
        r == pow2(e as nat),
{
    proof {
        lemma2_to64();
    }
    let mut r: u64 = 1;
    let mut i: u32 = 0;
    while i < e
        invariant
            i <= e <= 63,
            r == pow2(i as nat),
        decreases e - i,
    {
        proof {
            lemma_pow2_strictly_increases(i as nat, 63);
            lemma2_to64_rest();
        }
        r = r * 2;
        proof {
            lemma_pow2_unfold((i + 1) as nat);
        }
        i = i + 1;
    }
    r
}

/// Compute the binary length of `n`.
pub fn bit_length_u64(n: u64) -> (r: u32)
    ensures
        r == bit_len(n as nat),
        r <= 64,
{
    proof {
        lemma2_to64_rest();
        lemma_bit_len_le(n as nat, 64);
    }
    let mut t: u64 = n;
    let mut bl: u32 = 0;
    while t > 0
        invariant
            bit_len(n as nat) == bit_len(t as nat) + bl,
            bl <= bit_len(n as nat) <= 64,
        decreases t,
    {
        t = t / 2;
        bl = bl + 1;
    }
    bl
}

} // verus!
