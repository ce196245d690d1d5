//! Sums of counters weighted by what their buckets stand for, and their
//! exact division by the number of entries.

use vstd::prelude::*;
use vstd::arithmetic::div_mod::{lemma_fundamental_div_mod, lemma_mod_bound};
use crate::geometry::HistogramProperties;
use crate::mapping::bucket_value;
use crate::rounding::{ceil_div, lemma_ceil_unique};
use crate::tally::{saturate, sum_between};

verus! {

/// The sum, over the buckets below `upto`, of each counter times the
/// sample that stands for its bucket.
pub open spec fn weighted_sum(inner: nat, counts: Seq<u64>, upto: int) -> int
    decreases upto,
{
    if upto <= 0 {
        0
    } else {
        weighted_sum(inner, counts, upto - 1) + counts[upto - 1] * bucket_value(
            inner,
            (upto - 1) as nat,
        )
    }
}

/// The square of the distance between two samples.
pub open spec fn squared_distance(value: int, center: int) -> int {
    (value - center) * (value - center)
}

/// The sum, over the buckets below `upto`, of each counter times the
/// squared distance of its bucket's sample from `center`.
pub open spec fn squared_deviations(inner: nat, counts: Seq<u64>, center: int, upto: int) -> int
    decreases upto,
{
    if upto <= 0 {
        0
    } else {
        squared_deviations(inner, counts, center, upto - 1) + counts[upto - 1] * squared_distance(
            bucket_value(inner, (upto - 1) as nat) as int,
            center,
        )
    }
}

/// The mean of the bucketed samples among `total` entries, rounded up.
pub open spec fn mean_of_counts(inner: nat, counts: Seq<u64>, total: u64) -> u64 {
    saturate(ceil_div(weighted_sum(inner, counts, counts.len() as int), total as int))
}

/// The variance of the bucketed samples about `center` among `total`
/// entries, rounded up.
pub open spec fn variance_of_counts(inner: nat, counts: Seq<u64>, center: u64, total: u64) -> u64 {
    saturate(
        ceil_div(squared_deviations(inner, counts, center as int, counts.len() as int), total as int),
    )
}

/// The sum, over the buckets below `upto`, of each counter times the square
/// of the sample that stands for its bucket.
pub open spec fn weighted_squares(inner: nat, counts: Seq<u64>, upto: int) -> int
    decreases upto,
{
    if upto <= 0 {
        0
    } else {
        let value = bucket_value(inner, (upto - 1) as nat);
        weighted_squares(inner, counts, upto - 1) + counts[upto - 1] * (value * value)
    }
}

/// The squared deviations about `m` are the expanded sum: over all
/// buckets, `c * v^2 - 2 * c * m * v + c * m^2`, for a counter `c` and the
/// sample `v` that stands for its bucket.
pub proof fn lemma_squared_deviations_expand(inner: nat, counts: Seq<u64>, center: int, upto: int)
    requires
        0 <= upto <= counts.len(),
    ensures
        squared_deviations(inner, counts, center, upto) == weighted_squares(inner, counts, upto) - 2
            * center * weighted_sum(inner, counts, upto) + center * center * sum_between(
            counts,
            0,
            upto,
        ),
    decreases upto,
{
    if upto > 0 {
        lemma_squared_deviations_expand(inner, counts, center, upto - 1);
        let c = counts[upto - 1] as int;
        let v = bucket_value(inner, (upto - 1) as nat) as int;
        let squares = weighted_squares(inner, counts, upto - 1);
        let weighted = weighted_sum(inner, counts, upto - 1);
        let count = sum_between(counts, 0, upto - 1);
        assert(squares + c * (v * v) - 2 * center * (weighted + c * v) + center * center * (count
            + c) == squares - 2 * center * weighted + center * center * count + c * ((v - center)
            * (v - center))) by (nonlinear_arith);
    }
}

/// Where every occupied bucket stands for a sample from `low` to `high`,
/// the weighted sum lies between `low` and `high` times the sum of the
/// counters.
pub proof fn lemma_weighted_sum_bounds(
    inner: nat,
    counts: Seq<u64>,
    upto: int,
    low: int,
    high: int,
)
    requires
        0 <= upto <= counts.len(),
        forall|i: int|
            0 <= i < upto && counts[i] > 0 ==> low <= #[trigger] bucket_value(inner, i as nat)
                <= high,
    ensures
        low * sum_between(counts, 0, upto) <= weighted_sum(inner, counts, upto),
        weighted_sum(inner, counts, upto) <= high * sum_between(counts, 0, upto),
    decreases upto,
{
    if upto > 0 {
        lemma_weighted_sum_bounds(inner, counts, upto - 1, low, high);
        let c = counts[upto - 1] as int;
        let v = bucket_value(inner, (upto - 1) as nat) as int;
        let before = sum_between(counts, 0, upto - 1);
        assert(low * (before + c) == low * before + low * c && high * (before + c) == high * before
            + high * c) by (nonlinear_arith);
        if c > 0 {
            assert(low * c <= c * v <= high * c) by (nonlinear_arith)
                requires
                    low <= v <= high,
                    c > 0,
            ;
        } else {
            assert(low * c == 0 && c * v == 0 && high * c == 0) by (nonlinear_arith)
                requires
                    c == 0,
            ;
        }
    } else {
        assert(low * 0 == 0 && high * 0 == 0) by (nonlinear_arith);
    }
}

/// A sum divided by a fixed number of entries, kept as a whole part and a
/// rest. Once the whole part is beyond 64 bits only that is remembered.
#[derive(Clone, Copy, Debug)]
pub struct RunningQuotient {
    /// The sum divided by the number of entries, rounded down.
    pub whole: u64,
    /// What the division leaves over.
    pub rest: u64,
    /// Whether the whole part no longer fits in 64 bits.
    pub saturated: bool,
}

impl RunningQuotient {
    /// Whether this is `sum` divided by `total`.
    pub open spec fn holds(self, sum: int, total: u64) -> bool {
        if self.saturated {
            sum >= (u64::MAX + 1) * total
        } else {
            sum == self.whole * total + self.rest && self.rest < total
        }
    }

    /// Zero divided by anything.
    pub fn zero() -> (quotient: RunningQuotient)
        ensures
            quotient == (RunningQuotient { whole: 0, rest: 0, saturated: false }),
            forall|total: u64| total >= 1 ==> #[trigger] quotient.holds(0, total),
    {
        let quotient = RunningQuotient { whole: 0, rest: 0, saturated: false };
        assert forall|total: u64| total >= 1 implies #[trigger] quotient.holds(0, total) by {
            assert(0 * total == 0) by (nonlinear_arith);
        }
        quotient
    }

    /// Adds `count * weight` to the sum that is divided by `total`.
    pub fn add_weighted(self, total: u64, count: u64, weight: u128) -> (quotient: RunningQuotient)
        requires
            total >= 1,
        ensures
            forall|sum: int| #[trigger]
                self.holds(sum, total) ==> quotient.holds(sum + count * weight, total),
    {
        let saturated = RunningQuotient { whole: 0, rest: 0, saturated: true };
        if self.saturated {
            assert(count * weight >= 0) by (nonlinear_arith);
            return self;
        }
        if count == 0 {
            assert(count * weight == 0) by (nonlinear_arith)
                requires
                    count == 0,
            ;
            return self;
        }
        let weight_whole: u128 = weight / (total as u128);
        let weight_rest: u128 = weight % (total as u128);
        proof {
            lemma_fundamental_div_mod(weight as int, total as int);
            lemma_mod_bound(weight as int, total as int);
            assert(self.whole * total >= 0) by (nonlinear_arith);
        }
        if weight_whole > u64::MAX as u128 {
            assert(count * weight >= (u64::MAX + 1) * total) by (nonlinear_arith)
                requires
                    weight == total * weight_whole + weight_rest,
                    weight_rest >= 0,
                    weight_whole >= u64::MAX + 1,
                    count >= 1,
                    total >= 1,
            ;
            return saturated;
        }
        assert(count * weight_rest <= 0xffff_ffff_ffff_ffff * 0xffff_ffff_ffff_ffff)
            by (nonlinear_arith)
            requires
                count <= 0xffff_ffff_ffff_ffff,
                weight_rest <= 0xffff_ffff_ffff_ffff,
        ;
        let spread: u128 = (count as u128) * weight_rest;
        let spread_whole: u128 = spread / (total as u128);
        let spread_rest: u128 = spread % (total as u128);
        proof {
            lemma_fundamental_div_mod(spread as int, total as int);
            lemma_mod_bound(spread as int, total as int);
        }
        assert(count * weight_whole <= 0xffff_ffff_ffff_ffff * 0xffff_ffff_ffff_ffff)
            by (nonlinear_arith)
            requires
                count <= 0xffff_ffff_ffff_ffff,
                weight_whole <= 0xffff_ffff_ffff_ffff,
        ;
        assert(spread_whole <= 0xffff_ffff_ffff_ffff) by (nonlinear_arith)
            requires
                spread == total * spread_whole + spread_rest,
                spread_rest >= 0,
                spread == count * weight_rest,
                weight_rest < total,
                count <= 0xffff_ffff_ffff_ffff,
                total >= 1,
                spread_whole >= 0,
        ;
        let gain: u128 = (count as u128) * weight_whole + spread_whole;
        assert(count * weight == gain * total + spread_rest) by (nonlinear_arith)
            requires
                weight == total * weight_whole + weight_rest,
                spread == total * spread_whole + spread_rest,
                spread == count * weight_rest,
                gain == count * weight_whole + spread_whole,
        ;
        if gain > u64::MAX as u128 {
            assert(gain * total >= (u64::MAX + 1) * total) by (nonlinear_arith)
                requires
                    gain >= u64::MAX + 1,
                    total >= 1,
            ;
            return saturated;
        }
        let rest_sum: u128 = self.rest as u128 + spread_rest;
        let carried: bool = rest_sum >= total as u128;
        let rest: u128 = if carried {
            rest_sum - total as u128
        } else {
            rest_sum
        };
        let whole: u128 = self.whole as u128 + gain + if carried {
            1u128
        } else {
            0u128
        };
        assert(self.whole * total + self.rest + gain * total + spread_rest == whole * total + rest)
            by (nonlinear_arith)
            requires
                whole == self.whole + gain + if carried {
                    1int
                } else {
                    0int
                },
                rest == self.rest + spread_rest - if carried {
                    total as int
                } else {
                    0int
                },
        ;
        if whole > u64::MAX as u128 {
            assert(whole * total >= (u64::MAX + 1) * total) by (nonlinear_arith)
                requires
                    whole >= u64::MAX + 1,
                    total >= 1,
            ;
            return saturated;
        }
        RunningQuotient { whole: whole as u64, rest: rest as u64, saturated: false }
    }

    /// The quotient rounded up, and no more than the largest 64-bit number.
    pub fn ceiling(self, total: u64) -> (rounded: u64)
        requires
            total >= 1,
        ensures
            forall|sum: int| #[trigger]
                self.holds(sum, total) ==> rounded == saturate(ceil_div(sum, total as int)),
    {
        if self.saturated {
            assert forall|sum: int| #[trigger] self.holds(sum, total) implies u64::MAX == saturate(
                ceil_div(sum, total as int),
            ) by {
                crate::rounding::lemma_ceil_bounds(sum, total as int);
                let c = ceil_div(sum, total as int);
                assert(c > u64::MAX) by (nonlinear_arith)
                    requires
                        sum <= c * total,
                        sum >= (u64::MAX + 1) * total,
                        total >= 1,
                ;
            }
            return u64::MAX;
        }
        if self.rest == 0 {
            assert forall|sum: int| #[trigger] self.holds(sum, total) implies self.whole
                == saturate(ceil_div(sum, total as int)) by {
                lemma_ceil_unique(sum, total as int, self.whole as int);
            }
            return self.whole;
        }
        assert forall|sum: int| #[trigger] self.holds(sum, total) implies ceil_div(
            sum,
            total as int,
        ) == self.whole + 1 by {
            assert((self.whole + 1) * total == self.whole * total + total) by (nonlinear_arith);
            lemma_ceil_unique(sum, total as int, self.whole + 1);
        }
        if self.whole == u64::MAX {
            u64::MAX
        } else {
            self.whole + 1
        }
    }
}

/// Computes the mean of the bucketed samples among `total` entries.
pub fn mean_of(layout: &HistogramProperties, counts: &Vec<u64>, total: u64) -> (mean: u64)
    requires
        layout.wf(),
        counts.len() == layout.buckets_total,
        total >= 1,
    ensures
        mean == mean_of_counts(layout.buckets_inner as nat, counts@, total),
{
    let ghost inner = layout.buckets_inner as nat;
    let mut quotient = RunningQuotient::zero();
    let mut at: usize = 0;
    while at < counts.len()
        invariant
            layout.wf(),
            counts.len() == layout.buckets_total,
            total >= 1,
            inner == layout.buckets_inner,
            at <= counts.len(),
            quotient.holds(weighted_sum(inner, counts@, at as int), total),
        decreases counts.len() - at,
    {
        let value: u64 = layout.index_value(at);
        quotient = quotient.add_weighted(total, counts[at], value as u128);
        at = at + 1;
    }
    quotient.ceiling(total)
}

/// Computes the variance of the bucketed samples about `center` among
/// `total` entries.
pub fn variance_of(layout: &HistogramProperties, counts: &Vec<u64>, center: u64, total: u64) -> (variance: u64)
    requires
        layout.wf(),
        counts.len() == layout.buckets_total,
        total >= 1,
    ensures
        variance == variance_of_counts(layout.buckets_inner as nat, counts@, center, total),
{
    let ghost inner = layout.buckets_inner as nat;
    let mut quotient = RunningQuotient::zero();
    let mut at: usize = 0;
    while at < counts.len()
        invariant
            layout.wf(),
            counts.len() == layout.buckets_total,
            total >= 1,
            inner == layout.buckets_inner,
            at <= counts.len(),
            quotient.holds(squared_deviations(inner, counts@, center as int, at as int), total),
        decreases counts.len() - at,
    {
        let value: u64 = layout.index_value(at);
        let distance: u64 = if value >= center {
            value - center
        } else {
            center - value
        };
        assert(distance * distance <= 0xffff_ffff_ffff_ffff * 0xffff_ffff_ffff_ffff)
            by (nonlinear_arith)
            requires
                distance <= 0xffff_ffff_ffff_ffff,
        ;
        assert(distance * distance == squared_distance(value as int, center as int))
            by (nonlinear_arith)
            requires
                distance == value - center || distance == center - value,
        ;
        let square: u128 = (distance as u128) * (distance as u128);
        quotient = quotient.add_weighted(total, counts[at], square);
        at = at + 1;
    }
    quotient.ceiling(total)
}

} // verus!
