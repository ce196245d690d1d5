//! Division that rounds up, and the facts about it that the bucket
//! mapping and the statistics rest on.

use vstd::prelude::*;
use vstd::arithmetic::div_mod::{lemma_fundamental_div_mod, lemma_mod_bound};

verus! {

/// `a / b` rounded up, for `a >= 0` and `b > 0`.
pub open spec fn ceil_div(a: int, b: int) -> int {
    (a + b - 1) / b
}

/// The quotient of a division by a positive number, times that number,
/// falls short of the dividend by less than the divisor.
pub proof fn lemma_floor_bounds(a: int, b: int)
    requires
        b > 0,
    ensures
        (a / b) * b <= a < (a / b) * b + b,
{
    lemma_fundamental_div_mod(a, b);
    lemma_mod_bound(a, b);
    assert(b * (a / b) == (a / b) * b) by (nonlinear_arith);
}

/// A quotient that rounds up, times the divisor, exceeds the dividend by
/// less than the divisor.
pub proof fn lemma_ceil_bounds(a: int, b: int)
    requires
        b > 0,
    ensures
        a <= ceil_div(a, b) * b < a + b,
{
    lemma_floor_bounds(a + b - 1, b);
}

/// `q` is the quotient of `a` by `b` where `q * b <= a < (q + 1) * b`.
pub proof fn lemma_floor_unique(a: int, b: int, q: int)
    requires
        b > 0,
        q * b <= a < q * b + b,
    ensures
        a / b == q,
{
    lemma_floor_bounds(a, b);
    let p = a / b;
    assert(p == q) by (nonlinear_arith)
        requires
            b > 0,
            q * b <= a < q * b + b,
            p * b <= a < p * b + b,
    ;
}

/// `q` is the quotient of `a` by `b`, rounded up, where
/// `(q - 1) * b < a <= q * b`.
pub proof fn lemma_ceil_unique(a: int, b: int, q: int)
    requires
        b > 0,
        q * b - b < a <= q * b,
    ensures
        ceil_div(a, b) == q,
{
    lemma_floor_unique(a + b - 1, b, q);
}

/// Rounding down is monotonic in the dividend.
pub proof fn lemma_floor_monotonic(a: int, c: int, b: int)
    requires
        b > 0,
        a <= c,
    ensures
        a / b <= c / b,
{
    vstd::arithmetic::div_mod::lemma_div_is_ordered(a, c, b);
}

} // verus!

verus! {

/// The square root of `n`, rounded up: the least number whose square is
/// at least `n`.
pub open spec fn ceil_sqrt(n: nat) -> nat
    decreases n,
{
    if n == 0 {
        0
    } else {
        let below = ceil_sqrt((n - 1) as nat);
        if below * below >= n {
            below
        } else {
            below + 1
        }
    }
}

/// Whether `root` is the least number whose square is at least `n`.
pub open spec fn is_ceil_sqrt(n: nat, root: nat) -> bool {
    root * root >= n && (root == 0 || (root - 1) * (root - 1) < n)
}

/// `ceil_sqrt(n)` is the least number whose square is at least `n`.
pub proof fn lemma_ceil_sqrt_is_least(n: nat)
    ensures
        is_ceil_sqrt(n, ceil_sqrt(n)),
    decreases n,
{
    if n > 0 {
        lemma_ceil_sqrt_is_least((n - 1) as nat);
        let below = ceil_sqrt((n - 1) as nat);
        if below * below >= n {
            assert(below != 0) by (nonlinear_arith)
                requires
                    below * below >= n,
                    n > 0,
            ;
        } else {
            assert((below + 1) * (below + 1) >= n) by (nonlinear_arith)
                requires
                    below * below >= n - 1,
            ;
        }
    }
}

/// Only one number is the least whose square is at least `n`.
pub proof fn lemma_ceil_sqrt_unique(n: nat, root: nat)
    requires
        is_ceil_sqrt(n, root),
    ensures
        root == ceil_sqrt(n),
{
    lemma_ceil_sqrt_is_least(n);
    let other = ceil_sqrt(n);
    assert(root == other) by (nonlinear_arith)
        requires
            root * root >= n,
            root == 0 || (root - 1) * (root - 1) < n,
            other * other >= n,
            other == 0 || (other - 1) * (other - 1) < n,
            root >= 0,
            other >= 0,
    ;
}

/// Computes the square root of `n`, rounded up.
pub fn ceil_sqrt_u64(n: u64) -> (root: u64)
    ensures
        root == ceil_sqrt(n as nat),
        root <= 0x1_0000_0000,
{
    let mut low: u64 = 0;
    let mut high: u64 = 0x1_0000_0000;
    while low < high
        invariant
            low <= high <= 0x1_0000_0000,
            low == 0 || (low - 1) * (low - 1) < n,
            high * high >= n,
        decreases high - low,
    {
        let middle: u64 = low + (high - low) / 2;
        assert(middle * middle <= 0xffff_ffff * 0xffff_ffff) by (nonlinear_arith)
            requires
                middle <= 0xffff_ffff,
        ;
        if middle * middle >= n {
            high = middle;
        } else {
            low = middle + 1;
        }
    }
    proof {
        lemma_ceil_sqrt_unique(n as nat, low as nat);
    }
    low
}

} // verus!
