//! Counting the set bits of an integer.

use vstd::prelude::*;
use vstd::arithmetic::power2::{lemma2_to64, lemma_pow2_adds, lemma_pow2_unfold, pow2};

verus! {

/// The number of ones in the binary representation of `n`.
pub open spec fn popcount(n: nat) -> nat
    decreases n,
{
    if n == 0 {
        0
    } else {
        (n % 2) + popcount(n / 2)
    }
}

/// A number below `2^bits` has at most `bits` ones.
pub proof fn lemma_popcount_le_width(n: nat, bits: nat)
    requires
        n < pow2(bits),
    ensures
        popcount(n) <= bits,
    decreases bits,
{
    if n != 0 {
        if bits == 0 {
            lemma2_to64();
        } else {
            lemma_pow2_unfold(bits);
            lemma_popcount_le_width(n / 2, (bits - 1) as nat);
        }
    }
}

/// `2^32` and `2^128` as numbers.
pub proof fn lemma_pow2_widths()
    ensures
        pow2(32) == 0x1_0000_0000,
        pow2(128) == 0x1_0000_0000_0000_0000_0000_0000_0000_0000,
{
    lemma2_to64();
    lemma_pow2_adds(64, 64);
}

/// The number of ones in a 32-bit word.
pub fn count_ones_u32(x: u32) -> (count: u32)
    ensures
        count == popcount(x as nat),
        count <= 32,
{
    proof {
        lemma_pow2_widths();
        lemma_popcount_le_width(x as nat, 32);
    }
    let mut rest: u32 = x;
    let mut count: u32 = 0;
    while rest != 0
        invariant
            count + popcount(rest as nat) == popcount(x as nat),
            popcount(x as nat) <= 32,
        decreases rest,
    {
        count = count + rest % 2;
        rest = rest / 2;
    }
    count
}

/// The number of ones in a 128-bit word.
pub fn count_ones_u128(x: u128) -> (count: u32)
    ensures
        count == popcount(x as nat),
        count <= 128,
{
    proof {
        lemma_pow2_widths();
        lemma_popcount_le_width(x as nat, 128);
    }
    let mut rest: u128 = x;
    let mut count: u32 = 0;
    while rest != 0
        invariant
            count + popcount(rest as nat) == popcount(x as nat),
            popcount(x as nat) <= 128,
        decreases rest,
    {
        count = count + (rest % 2) as u32;
        rest = rest / 2;
    }
    count
}

} // verus!
