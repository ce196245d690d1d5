//! The bucket layout that a configuration gives rise to.
//!
//! Samples up to `linear_max` have a bucket each. Above that, every range
//! from one power of two to the next is cut into `buckets_inner` buckets of
//! equal width.

use vstd::prelude::*;
use vstd::arithmetic::power::{lemma_pow_increases, pow};
use vstd::arithmetic::power2::{lemma2_to64, lemma2_to64_rest, lemma_pow2_strictly_increases, pow2};
use crate::bits::{
    bit_length,
    bit_length_u64,
    lemma_bit_length_below,
    lemma_bit_length_bounds,
    lemma_bit_length_is,
};
use crate::config::HistogramConfig;

verus! {

/// The bytes that one bucket is accounted with.
pub const RECORD_SIZE: u32 = 24;

/// The number of buckets per power-of-two range: `radix` to the power of `precision`.
pub open spec fn buckets_inner(radix: nat, precision: nat) -> nat {
    pow(radix as int, precision) as nat
}

/// The bit length of `inner`: samples below two to this power have a bucket each.
pub open spec fn linear_power(inner: nat) -> nat {
    bit_length(inner)
}

/// The largest sample that has a bucket of its own.
pub open spec fn linear_max(inner: nat) -> nat {
    (pow2(linear_power(inner)) - 1) as nat
}

/// The number of power-of-two ranges between `linear_max` and `max_value`.
pub open spec fn buckets_outer(inner: nat, max_value: nat) -> nat {
    if bit_length(max_value) > linear_power(inner) {
        (bit_length(max_value) - linear_power(inner)) as nat
    } else {
        0
    }
}

/// The number of buckets in all.
pub open spec fn buckets_total(inner: nat, max_value: nat) -> nat {
    inner * buckets_outer(inner, max_value) + linear_max(inner)
}

/// The bytes that the buckets are accounted with.
pub open spec fn memory_used(inner: nat, max_value: nat) -> nat {
    buckets_total(inner, max_value) * (RECORD_SIZE as nat)
}

impl HistogramConfig {
    /// The number of buckets per power-of-two range under these settings.
    pub open spec fn inner(self) -> nat {
        buckets_inner(self.radix as nat, self.precision as nat)
    }

    /// The number of buckets under these settings.
    pub open spec fn total(self) -> nat {
        buckets_total(self.inner(), self.max_value as nat)
    }

    /// The bytes that the buckets take under these settings.
    pub open spec fn memory(self) -> nat {
        memory_used(self.inner(), self.max_value as nat)
    }

    /// Whether `max_memory` allows the buckets that these settings ask for.
    pub open spec fn within_budget(self) -> bool {
        self.max_memory == 0 || self.memory() <= self.max_memory
    }

    /// Whether a histogram can be laid out: there is at least one bucket per
    /// power-of-two range, and the byte count fits in 32 bits.
    pub open spec fn valid(self) -> bool {
        self.inner() >= 1 && self.memory() <= u32::MAX
    }
}

/// The layout of a histogram, derived from its configuration when it is built.
#[derive(Clone, Copy, Debug)]
pub struct HistogramProperties {
    /// The number of buckets per power-of-two range.
    pub buckets_inner: u32,
    /// The number of power-of-two ranges above the linear region.
    pub buckets_outer: u32,
    /// The number of buckets in all.
    pub buckets_total: u32,
    /// The bytes that the buckets are accounted with.
    pub memory_used: u32,
    /// The largest sample with a bucket of its own.
    pub linear_max: u64,
    /// The bit length of `buckets_inner`.
    pub linear_power: u32,
}

impl HistogramProperties {
    /// Whether this is the layout that `config` gives rise to.
    pub open spec fn describes(self, config: HistogramConfig) -> bool {
        let inner = config.inner();
        let max = config.max_value as nat;
        &&& self.buckets_inner == inner
        &&& self.buckets_outer == buckets_outer(inner, max)
        &&& self.buckets_total == buckets_total(inner, max)
        &&& self.memory_used == memory_used(inner, max)
        &&& self.linear_max == linear_max(inner)
        &&& self.linear_power == linear_power(inner)
    }

    /// Whether the fields agree with each other and every power-of-two range
    /// has at least one bucket.
    pub open spec fn wf(self) -> bool {
        let inner = self.buckets_inner as nat;
        &&& inner >= 1
        &&& self.linear_power == linear_power(inner)
        &&& self.linear_max == linear_max(inner)
        &&& self.linear_power + self.buckets_outer <= 64
        &&& self.buckets_total == inner * self.buckets_outer + self.linear_max
        &&& self.memory_used == self.buckets_total * RECORD_SIZE
    }

    /// The layout of a valid configuration is well formed.
    pub proof fn lemma_describes_wf(self, config: HistogramConfig)
        requires
            self.describes(config),
            config.inner() >= 1,
        ensures
            self.wf(),
    {
        let inner = config.inner();
        lemma2_to64();
        lemma2_to64_rest();
        lemma_bit_length_below(inner, 32);
        lemma_bit_length_below(config.max_value as nat, 64);
    }

    /// Derives the layout for `config`, or nothing where its byte count
    /// does not fit in 32 bits.
    pub fn derive(config: &HistogramConfig) -> (layout: Option<HistogramProperties>)
        ensures
            match layout {
                Some(p) => p.describes(*config),
                None => config.memory() > u32::MAX,
            },
    {
        let ghost inner = config.inner();
        let ghost max = config.max_value as nat;
        proof {
            lemma_linear_max_covers(inner);
            lemma_total_bounds(inner, max);
            lemma2_to64();
        }
        let buckets_inner: u32 = match checked_power(config.radix, config.precision) {
            Some(p) => p,
            None => {
                return None;
            },
        };
        let linear_power: u32 = bit_length_u64(buckets_inner as u64);
        proof {
            lemma_bit_length_below(inner, 32);
            vstd::bits::lemma_u64_shl_is_mul(1, linear_power as u64);
            lemma_pow2_strictly_increases(linear_power as nat, 33);
            vstd::arithmetic::power2::lemma_pow2_pos(linear_power as nat);
        }
        let linear_max: u64 = (1u64 << linear_power) - 1;
        let max_value_power: u32 = bit_length_u64(config.max_value);
        let buckets_outer: u32 = if max_value_power > linear_power {
            max_value_power - linear_power
        } else {
            0
        };
        assert(buckets_inner * buckets_outer <= 0xffff_ffff * 64) by (nonlinear_arith)
            requires
                buckets_inner <= 0xffff_ffff,
                buckets_outer <= 64,
        ;
        let buckets_total: u64 = (buckets_inner as u64) * (buckets_outer as u64) + linear_max;
        let memory_used: u64 = buckets_total * (RECORD_SIZE as u64);
        if memory_used > u32::MAX as u64 {
            return None;
        }
        Some(
            HistogramProperties {
                buckets_inner,
                buckets_outer,
                buckets_total: buckets_total as u32,
                memory_used: memory_used as u32,
                linear_max,
                linear_power,
            },
        )
    }
}

/// The linear region holds at least as many buckets as one power-of-two range.
pub proof fn lemma_linear_max_covers(inner: nat)
    ensures
        inner <= linear_max(inner),
{
    if inner >= 1 {
        lemma_bit_length_bounds(inner);
    } else {
        vstd::arithmetic::power2::lemma_pow2_pos(linear_power(inner));
    }
}

/// There are at least as many buckets as one power-of-two range holds, and
/// at least one.
pub proof fn lemma_total_bounds(inner: nat, max_value: nat)
    ensures
        buckets_total(inner, max_value) >= inner,
        inner >= 1 ==> buckets_total(inner, max_value) >= 1,
        memory_used(inner, max_value) >= buckets_total(inner, max_value),
{
    lemma_linear_max_covers(inner);
    assert(inner * buckets_outer(inner, max_value) >= 0) by (nonlinear_arith);
}

/// The standard settings ask for 27023 buckets, which fit.
pub proof fn lemma_standard_is_valid()
    ensures
        HistogramConfig::standard().inner() == 1000,
        HistogramConfig::standard().total() == 27023,
        HistogramConfig::standard().valid(),
{
    reveal_with_fuel(pow, 4);
    lemma2_to64();
    lemma2_to64_rest();
    lemma_bit_length_is(1000, 10);
    lemma_bit_length_is(60_000_000_000, 36);
}

/// Raises `radix` to the power of `precision` where the result fits in 32 bits.
pub fn checked_power(radix: u32, precision: u32) -> (power: Option<u32>)
    ensures
        match power {
            Some(p) => p == pow(radix as int, precision as nat),
            None => pow(radix as int, precision as nat) > u32::MAX,
        },
{
    if precision == 0 {
        proof {
            vstd::arithmetic::power::lemma_pow0(radix as int);
        }
        return Some(1);
    }
    if radix <= 1 {
        proof {
            if radix == 0 {
                vstd::arithmetic::power::lemma0_pow(precision as nat);
            } else {
                vstd::arithmetic::power::lemma1_pow(precision as nat);
            }
        }
        return Some(radix);
    }
    let mut power: u64 = 1;
    let mut done: u32 = 0;
    proof {
        vstd::arithmetic::power::lemma_pow0(radix as int);
    }
    while done < precision
        invariant
            radix >= 2,
            done <= precision,
            power == pow(radix as int, done as nat),
            power <= u32::MAX,
        decreases precision - done,
    {
        proof {
            reveal(pow);
            assert(power * radix <= 0xffff_ffff * 0xffff_ffff) by (nonlinear_arith)
                requires
                    power <= 0xffff_ffff,
                    radix <= 0xffff_ffff,
            ;
            assert(radix * power == power * radix) by (nonlinear_arith);
        }
        power = power * (radix as u64);
        done = done + 1;
        if power > u32::MAX as u64 {
            proof {
                lemma_pow_increases(radix as nat, done as nat, precision as nat);
            }
            return None;
        }
    }
    Some(power as u32)
}

} // verus!
