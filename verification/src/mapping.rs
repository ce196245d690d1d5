//! The mapping between samples and bucket indices.
//!
//! A sample up to `linear_max` has index `sample - 1`. A larger sample lies
//! in one power-of-two range `[2^k, 2^(k+1))`, which is cut into
//! `buckets_inner` buckets of equal width; the bucket's representative is
//! its smallest whole sample.

use vstd::prelude::*;
use vstd::arithmetic::power2::{
    lemma2_to64,
    lemma2_to64_rest,
    lemma_pow2_pos,
    lemma_pow2_strictly_increases,
    lemma_pow2_unfold,
    pow2,
};
use crate::bits::{
    bit_length,
    bit_length_u64,
    lemma_bit_length_below,
    lemma_bit_length_bounds,
    lemma_bit_length_monotonic,
};
use crate::geometry::{
    buckets_outer,
    buckets_total,
    lemma_linear_max_covers,
    linear_max,
    linear_power,
    HistogramProperties,
};
use crate::rounding::{
    ceil_div,
    lemma_ceil_bounds,
    lemma_floor_bounds,
    lemma_floor_monotonic,
    lemma_floor_unique,
};

verus! {

/// The power of two whose range holds `value`: the position of its highest
/// set bit.
pub open spec fn octave(value: nat) -> nat {
    (bit_length(value) - 1) as nat
}

/// The index of the bucket that counts `value`, for `value >= 1`.
pub open spec fn bucket_index(inner: nat, value: nat) -> nat {
    if value <= linear_max(inner) {
        (value - 1) as nat
    } else {
        let outer = octave(value);
        let base = pow2(outer);
        let sub = (inner * (value - base)) / (base as int);
        (linear_max(inner) + inner * (outer - linear_power(inner)) + sub) as nat
    }
}

/// The sample that stands for the bucket at `index`.
pub open spec fn bucket_value(inner: nat, index: nat) -> nat {
    if index < linear_max(inner) {
        index + 1
    } else {
        let log_index = index - linear_max(inner);
        let outer = log_index / (inner as int);
        let sub = log_index % (inner as int);
        let base = pow2((outer + linear_power(inner)) as nat);
        (base + ceil_div(sub * base, inner as int)) as nat
    }
}

/// A sample lies in the power-of-two range that `octave` names.
pub proof fn lemma_octave_bounds(value: nat)
    requires
        value >= 1,
    ensures
        pow2(octave(value)) <= value < 2 * pow2(octave(value)),
{
    lemma_bit_length_bounds(value);
    lemma_pow2_unfold(bit_length(value));
}

/// A sample between `2^k` and `2^(k+1)` has octave `k`.
pub proof fn lemma_octave_unique(value: nat, k: nat)
    requires
        pow2(k) <= value < 2 * pow2(k),
    ensures
        octave(value) == k,
{
    lemma_pow2_unfold(k + 1);
    lemma_bit_length_below(value, k + 1);
    lemma_bit_length_below(value, k);
}

/// A sample above the linear region lies in an octave at or above
/// `linear_power`, and falls into one of the `inner` buckets of that octave.
pub proof fn lemma_log_region(inner: nat, value: nat)
    requires
        inner >= 1,
        value > linear_max(inner),
    ensures
        octave(value) >= linear_power(inner),
        pow2(octave(value)) <= value < 2 * pow2(octave(value)),
        0 <= (inner * (value - pow2(octave(value)))) / (pow2(octave(value)) as int) < inner,
        bucket_index(inner, value) >= linear_max(inner),
{
    lemma_pow2_pos(linear_power(inner));
    lemma_bit_length_below(value, linear_power(inner));
    lemma_octave_bounds(value);
    let base = pow2(octave(value)) as int;
    let remain = value - base;
    let product = inner * remain;
    assert(0 <= product < inner * base) by (nonlinear_arith)
        requires
            0 <= remain < base,
            inner >= 1,
            product == inner * remain,
    ;
    lemma_floor_bounds(product, base);
    let sub = product / base;
    assert(0 <= sub < inner) by (nonlinear_arith)
        requires
            sub * base <= product < sub * base + base,
            0 <= product < inner * base,
            base > 0,
    ;
    assert(inner * (octave(value) - linear_power(inner)) >= 0) by (nonlinear_arith)
        requires
            octave(value) >= linear_power(inner),
    ;
}

/// The parts of an index above the linear region: its octave above
/// `linear_power` and its bucket within the octave.
pub proof fn lemma_split_index(inner: nat, above: nat, sub: nat)
    requires
        inner >= 1,
        sub < inner,
    ensures
        ((inner * above + sub) as int) / (inner as int) == above,
        ((inner * above + sub) as int) % (inner as int) == sub,
{
    let n = (inner * above + sub) as int;
    assert(above * inner == inner * above) by (nonlinear_arith);
    lemma_floor_unique(n, inner as int, above as int);
    vstd::arithmetic::div_mod::lemma_fundamental_div_mod(n, inner as int);
}

/// The representative of a bucket above the linear region lies in the
/// bucket's octave.
pub proof fn lemma_representative_in_octave(inner: nat, index: nat)
    requires
        inner >= 1,
        index >= linear_max(inner),
    ensures
        ({
            let log_index = index - linear_max(inner);
            let base = pow2((log_index / (inner as int) + linear_power(inner)) as nat);
            &&& base <= bucket_value(inner, index) < 2 * base
            &&& base > linear_max(inner)
            &&& base > inner
        }),
{
    let log_index = index - linear_max(inner);
    let outer = log_index / (inner as int);
    let sub = log_index % (inner as int);
    lemma_floor_bounds(log_index, inner as int);
    vstd::arithmetic::div_mod::lemma_mod_bound(log_index, inner as int);
    assert(outer >= 0) by (nonlinear_arith)
        requires
            outer * inner + inner > log_index,
            log_index >= 0,
            inner >= 1,
    ;
    let k = (outer + linear_power(inner)) as nat;
    let base = pow2(k) as int;
    lemma_linear_max_covers(inner);
    lemma_pow2_pos(linear_power(inner));
    if outer > 0 {
        lemma_pow2_strictly_increases(linear_power(inner), k);
    }
    assert(base > inner);
    let product = sub * base;
    lemma_ceil_bounds(product, inner as int);
    let c = ceil_div(product, inner as int);
    assert(0 <= product <= inner * base - base) by (nonlinear_arith)
        requires
            0 <= sub <= inner - 1,
            base > 0,
            product == sub * base,
    ;
    assert(0 <= c < base) by (nonlinear_arith)
        requires
            product <= c * inner < product + inner,
            0 <= product <= inner * base - base,
            base > inner,
            inner >= 1,
    ;
}

/// In the linear region the mapping is exact: a sample `v` has index
/// `v - 1`, and that bucket's representative is `v`.
pub proof fn lemma_linear_round_trip(inner: nat, value: nat)
    requires
        1 <= value <= linear_max(inner),
    ensures
        bucket_index(inner, value) == value - 1,
        bucket_value(inner, (value - 1) as nat) == value,
{
}

/// Every bucket counts its own representative: the index of the sample
/// that stands for a bucket is that bucket's index.
pub proof fn lemma_index_of_representative(inner: nat, index: nat)
    requires
        inner >= 1,
    ensures
        bucket_value(inner, index) >= 1,
        bucket_index(inner, bucket_value(inner, index)) == index,
{
    if index >= linear_max(inner) {
        let log_index = index - linear_max(inner);
        let outer = log_index / (inner as int);
        let sub = log_index % (inner as int);
        let k = (outer + linear_power(inner)) as nat;
        let base = pow2(k) as int;
        let r = bucket_value(inner, index);
        lemma_representative_in_octave(inner, index);
        lemma_floor_bounds(log_index, inner as int);
        vstd::arithmetic::div_mod::lemma_mod_bound(log_index, inner as int);
        vstd::arithmetic::div_mod::lemma_fundamental_div_mod(log_index, inner as int);
        assert(outer >= 0) by (nonlinear_arith)
            requires
                outer * inner + inner > log_index,
                log_index >= 0,
                inner >= 1,
        ;
        lemma_octave_unique(r, k);
        let c = ceil_div(sub * base, inner as int);
        lemma_ceil_bounds(sub * base, inner as int);
        assert(r - base == c);
        let product = inner * c;
        assert(sub * base <= product < sub * base + base) by (nonlinear_arith)
            requires
                sub * base <= c * inner < sub * base + inner,
                inner < base,
                product == inner * c,
        ;
        lemma_floor_unique(product, base, sub);
        assert(inner * (k - linear_power(inner)) == inner * outer);
    }
}

/// Above the linear region, the representative of a sample's bucket lies in
/// the sample's octave, is no larger than the sample, and falls short of it
/// by less than the width of a bucket: the octave's base divided by `inner`.
pub proof fn lemma_representative_is_close(inner: nat, value: nat)
    requires
        inner >= 1,
        value > linear_max(inner),
    ensures
        ({
            let base = pow2(octave(value));
            let r = bucket_value(inner, bucket_index(inner, value));
            &&& base <= r <= value < 2 * base
            &&& octave(r) == octave(value)
            &&& inner * (value - r) < base
            &&& value - r <= ceil_div(base as int, inner as int)
        }),
{
    lemma_log_region(inner, value);
    let outer = octave(value);
    let base = pow2(outer) as int;
    let remain = value - base;
    let sub = (inner * remain) / base;
    let above = (outer - linear_power(inner)) as nat;
    let index = bucket_index(inner, value);
    assert(index - linear_max(inner) == inner * above + sub);
    lemma_split_index(inner, above, sub as nat);
    let c = ceil_div(sub * base, inner as int);
    let r = bucket_value(inner, index);
    assert(r == base + c);
    lemma_floor_bounds(inner * remain, base);
    lemma_ceil_bounds(sub * base, inner as int);
    assert(0 <= c <= remain && inner * (remain - c) < base) by (nonlinear_arith)
        requires
            sub * base <= inner * remain < sub * base + base,
            sub * base <= c * inner < sub * base + inner,
            inner >= 1,
            sub >= 0,
            base > 0,
    ;
    lemma_octave_unique(r, outer);
    lemma_ceil_bounds(base, inner as int);
    let w = ceil_div(base, inner as int);
    let d = value - r;
    assert(d <= w) by (nonlinear_arith)
        requires
            inner * d < base,
            base <= w * inner,
            inner >= 1,
    ;
}

/// A sample and the representative of its bucket are counted in the same
/// bucket.
pub proof fn lemma_representative_shares_bucket(inner: nat, value: nat)
    requires
        inner >= 1,
        value >= 1,
    ensures
        bucket_index(inner, bucket_value(inner, bucket_index(inner, value))) == bucket_index(
            inner,
            value,
        ),
{
    lemma_index_of_representative(inner, bucket_index(inner, value));
}

/// A larger sample is counted in the same bucket or in a later one.
pub proof fn lemma_index_monotonic(inner: nat, low: nat, high: nat)
    requires
        inner >= 1,
        1 <= low <= high,
    ensures
        bucket_index(inner, low) <= bucket_index(inner, high),
{
    if high > linear_max(inner) {
        lemma_log_region(inner, high);
        if low > linear_max(inner) {
            lemma_log_region(inner, low);
            lemma_bit_length_monotonic(low, high);
            let lower = octave(low);
            let upper = octave(high);
            let power = linear_power(inner);
            if lower == upper {
                let base = pow2(lower) as int;
                assert(inner * (low - base) <= inner * (high - base)) by (nonlinear_arith)
                    requires
                        low <= high,
                        inner >= 1,
                ;
                lemma_floor_monotonic(inner * (low - base), inner * (high - base), base);
            } else {
                assert(inner * (lower - power) + inner <= inner * (upper - power))
                    by (nonlinear_arith)
                    requires
                        lower + 1 <= upper,
                        inner >= 1,
                ;
            }
        }
    }
}

/// A later bucket stands for a larger sample.
pub proof fn lemma_value_strictly_increases(inner: nat, low: nat, high: nat)
    requires
        inner >= 1,
        low < high,
    ensures
        bucket_value(inner, low) < bucket_value(inner, high),
{
    lemma_index_of_representative(inner, low);
    lemma_index_of_representative(inner, high);
    if bucket_value(inner, low) >= bucket_value(inner, high) {
        lemma_index_monotonic(inner, bucket_value(inner, high), bucket_value(inner, low));
    }
}

/// Every sample from one up to `max_value` has a bucket.
pub proof fn lemma_in_range_has_bucket(inner: nat, max_value: nat, value: nat)
    requires
        inner >= 1,
        1 <= value <= max_value,
    ensures
        bucket_index(inner, value) < buckets_total(inner, max_value),
{
    assert(inner * buckets_outer(inner, max_value) >= 0) by (nonlinear_arith);
    if value > linear_max(inner) {
        lemma_log_region(inner, value);
        lemma_bit_length_bounds(value);
        lemma_bit_length_below(value, bit_length(max_value));
        lemma_bit_length_bounds(max_value);
        let outer = octave(value);
        let above = outer - linear_power(inner);
        let ranges = buckets_outer(inner, max_value);
        assert(above + 1 <= ranges);
        assert(inner * above + inner <= inner * ranges) by (nonlinear_arith)
            requires
                above + 1 <= ranges,
                inner >= 1,
        ;
    }
}

/// In a well-formed layout the sample that stands for a bucket fits in 64
/// bits.
pub proof fn lemma_representative_fits(layout: HistogramProperties, index: int)
    requires
        layout.wf(),
        0 <= index < layout.buckets_total,
    ensures
        1 <= bucket_value(layout.buckets_inner as nat, index as nat) <= u64::MAX,
{
    let inner = layout.buckets_inner as nat;
    lemma_index_of_representative(inner, index as nat);
    if index >= layout.linear_max {
        let log_index = index - layout.linear_max;
        let outer = log_index / (inner as int);
        lemma_representative_in_octave(inner, index as nat);
        lemma_floor_bounds(log_index, inner as int);
        assert(outer < layout.buckets_outer) by (nonlinear_arith)
            requires
                outer * inner <= log_index,
                log_index < inner * layout.buckets_outer,
                inner >= 1,
        ;
        lemma2_to64_rest();
        let k = (outer + layout.linear_power) as nat;
        if k < 63 {
            lemma_pow2_strictly_increases(k, 63);
        }
    } else {
        lemma2_to64();
        lemma_bit_length_below(inner, 32);
        lemma_pow2_strictly_increases(layout.linear_power as nat, 33);
        lemma2_to64_rest();
    }
}

impl HistogramProperties {
    /// The bucket that counts `value`: none for zero, and none for a sample
    /// beyond the last bucket.
    pub open spec fn index_of(self, value: u64) -> Option<usize> {
        let index = bucket_index(self.buckets_inner as nat, value as nat);
        if value >= 1 && index < self.buckets_total {
            Some(index as usize)
        } else {
            None
        }
    }

    /// Finds the bucket that counts `value`.
    pub fn get_index(&self, value: u64) -> (found: Option<usize>)
        requires
            self.wf(),
        ensures
            found == self.index_of(value),
    {
        if value < 1 {
            return None;
        }
        if value <= self.linear_max {
            let index: u64 = value - 1;
            if index < self.buckets_total as u64 {
                return Some(index as usize);
            }
            return None;
        }
        let ghost inner = self.buckets_inner as nat;
        let length: u32 = bit_length_u64(value);
        proof {
            lemma_log_region(inner, value as nat);
            lemma2_to64();
            lemma2_to64_rest();
        }
        let outer: u32 = length - 1;
        proof {
            vstd::bits::lemma_u64_shl_is_mul(1, outer as u64);
        }
        let base: u64 = 1u64 << outer;
        let remain: u64 = value - base;
        assert(self.buckets_inner * remain <= 0xffff_ffff * 0xffff_ffff_ffff_ffff) by (nonlinear_arith)
            requires
                self.buckets_inner <= 0xffff_ffff,
                remain <= 0xffff_ffff_ffff_ffff,
        ;
        let product: u128 = (self.buckets_inner as u128) * (remain as u128);
        let sub: u64 = (product / (base as u128)) as u64;
        let above: u32 = outer - self.linear_power;
        assert(self.buckets_inner * above <= 0xffff_ffff * 64) by (nonlinear_arith)
            requires
                self.buckets_inner <= 0xffff_ffff,
                above <= 64,
        ;
        let index: u64 = self.linear_max + (self.buckets_inner as u64) * (above as u64) + sub;
        if index < self.buckets_total as u64 {
            Some(index as usize)
        } else {
            None
        }
    }

    /// Returns the sample that stands for the bucket at `index`.
    pub fn index_value(&self, index: usize) -> (value: u64)
        requires
            self.wf(),
            index < self.buckets_total,
        ensures
            value == bucket_value(self.buckets_inner as nat, index as nat),
    {
        let position: u64 = index as u64;
        if position < self.linear_max {
            return position + 1;
        }
        let ghost inner = self.buckets_inner as nat;
        let log_index: u64 = position - self.linear_max;
        let outer: u64 = log_index / (self.buckets_inner as u64);
        let sub: u64 = log_index % (self.buckets_inner as u64);
        proof {
            lemma_representative_in_octave(inner, index as nat);
            lemma_floor_bounds(log_index as int, inner as int);
            assert(outer < self.buckets_outer) by (nonlinear_arith)
                requires
                    outer * inner <= log_index,
                    log_index < inner * self.buckets_outer,
                    inner >= 1,
            ;
            lemma2_to64();
            lemma2_to64_rest();
            let k = (outer + self.linear_power) as nat;
            if k < 63 {
                lemma_pow2_strictly_increases(k, 63);
            }
            vstd::bits::lemma_u64_shl_is_mul(1, (outer + self.linear_power as u64) as u64);
        }
        let base: u64 = 1u64 << (outer + self.linear_power as u64);
        assert(sub * base <= 0xffff_ffff * 0x8000_0000_0000_0000) by (nonlinear_arith)
            requires
                sub <= 0xffff_ffff,
                base <= 0x8000_0000_0000_0000,
        ;
        let product: u128 = (sub as u128) * (base as u128);
        let step: u128 = (product + (self.buckets_inner as u128 - 1)) / (self.buckets_inner as u128);
        base + (step as u64)
    }
}

} // verus!
