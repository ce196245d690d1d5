//! Bit lengths and powers of two.

use vstd::prelude::*;
use vstd::arithmetic::power2::{lemma_pow2_unfold, pow2};

verus! {

/// The number of binary digits of `n`: zero for zero, and otherwise the
/// position of the highest set bit plus one.
pub open spec fn bit_length(n: nat) -> nat
    decreases n,
{
    if n == 0 {
        0
    } else {
        1 + bit_length(n / 2)
    }
}

/// A positive number lies between the two powers of two that its bit
/// length names.
pub proof fn lemma_bit_length_bounds(n: nat)
    requires
        n >= 1,
    ensures
        bit_length(n) >= 1,
        pow2((bit_length(n) - 1) as nat) <= n < pow2(bit_length(n)),
    decreases n,
{
    if n == 1 {
        assert(bit_length(1) == 1) by {
            reveal_with_fuel(bit_length, 3);
        };
        vstd::arithmetic::power2::lemma2_to64();
    } else {
        lemma_bit_length_bounds(n / 2);
        let k = bit_length(n / 2);
        lemma_pow2_unfold(k);
        lemma_pow2_unfold((k + 1) as nat);
    }
}

/// A number below two to the power of `k` has at most `k` binary digits,
/// and no other number has.
pub proof fn lemma_bit_length_below(n: nat, k: nat)
    ensures
        n < pow2(k) <==> bit_length(n) <= k,
{
    if n >= 1 {
        lemma_bit_length_bounds(n);
        let b = bit_length(n);
        if b <= k {
            if b < k {
                vstd::arithmetic::power2::lemma_pow2_strictly_increases(b, k);
            }
        } else {
            if k < b - 1 {
                vstd::arithmetic::power2::lemma_pow2_strictly_increases(k, (b - 1) as nat);
            }
        }
    } else {
        vstd::arithmetic::power2::lemma_pow2_pos(k);
    }
}

/// A larger number has no fewer binary digits.
pub proof fn lemma_bit_length_monotonic(a: nat, b: nat)
    requires
        a <= b,
    ensures
        bit_length(a) <= bit_length(b),
{
    lemma_bit_length_below(b, bit_length(b));
    lemma_bit_length_below(a, bit_length(b));
}

/// A number from `2^(k-1)` up to, not including, `2^k` has `k` binary digits.
pub proof fn lemma_bit_length_is(n: nat, k: nat)
    requires
        k >= 1,
        pow2((k - 1) as nat) <= n < pow2(k),
    ensures
        bit_length(n) == k,
{
    lemma_bit_length_below(n, k);
    lemma_bit_length_below(n, (k - 1) as nat);
}

/// Computes the bit length of a 64-bit number.
pub fn bit_length_u64(x: u64) -> (length: u32)
    ensures
        length == bit_length(x as nat),
        length <= 64,
{
    let mut rest: u64 = x;
    let mut length: u32 = 0;
    proof {
        vstd::arithmetic::power2::lemma2_to64_rest();
        lemma_bit_length_below(x as nat, 64);
    }
    while rest > 0
        invariant
            length + bit_length(rest as nat) == bit_length(x as nat),
            bit_length(x as nat) <= 64,
        decreases rest,
    {
        rest = rest / 2;
        length = length + 1;
    }
    length
}

} // verus!
