//! What holds of a histogram across several of its operations.

use vstd::prelude::*;
use vstd::arithmetic::power2::pow2;
use crate::error::HistogramError;
use crate::geometry::lemma_total_bounds;
use crate::mapping::{
    bucket_value,
    lemma_representative_fits,
    lemma_value_strictly_increases,
    lemma_representative_is_close,
    lemma_representative_shares_bucket,
    octave,
};
use crate::model::{lemma_outcome, lemma_record_wf, HistogramView};
use crate::rank::{
    below_median,
    climb,
    descend,
    is_percentage,
    lemma_climb_crosses,
    lemma_climb_monotonic,
    lemma_descend_crosses,
    lemma_descend_monotonic,
    rank,
};
use crate::moments::{lemma_weighted_sum_bounds, weighted_sum};
use crate::rounding::{ceil_div, lemma_ceil_bounds, lemma_ceil_unique};
use crate::tally::{
    lemma_sum_between_first,
    lemma_sum_between_nonnegative,
    lemma_sum_bounds_each,
    lemma_sum_zero,
    saturate,
    sum,
    sum_between,
};

verus! {

/// What was lost can be told from the outside: until the number of
/// entries reaches its limit, it exceeds the sum of the buckets by exactly
/// the entries that were missed.
pub proof fn lemma_loss_is_observable(h: HistogramView)
    requires
        h.wf(),
        h.counters.entries_total < u64::MAX,
    ensures
        h.counters.entries_total - sum(h.counts) == h.counters.missed(),
        sum(h.counts) <= h.counters.entries_total,
{
}

/// Recording the buckets of one histogram in another keeps the other well
/// formed, with its settings and layout, and adds each recorded counter to
/// its number of entries.
pub proof fn lemma_absorbed(a: HistogramView, b: HistogramView, upto: nat)
    requires
        a.wf(),
        upto <= b.counts.len(),
    ensures
        a.absorbed(b, upto).wf(),
        a.absorbed(b, upto).config == a.config,
        a.absorbed(b, upto).properties == a.properties,
        a.absorbed(b, upto).counts.len() == a.counts.len(),
        a.absorbed(b, upto).cursor == a.cursor,
        a.absorbed(b, upto).counters.entries_total == saturate(
            a.counters.entries_total + sum_between(b.counts, 0, upto as int),
        ),
    decreases upto,
{
    if upto > 0 {
        let before = a.absorbed(b, (upto - 1) as nat);
        lemma_absorbed(a, b, (upto - 1) as nat);
        lemma_record_wf(before, b.bucket(upto - 1).value, b.counts[upto - 1]);
        lemma_sum_between_nonnegative(b.counts, 0, upto - 1);
    }
}

/// Merging keeps the total: where no entry of `b` was missed, the merged
/// histogram has the entries of `a` and of `b` together, up to the largest
/// number that a counter holds.
pub proof fn lemma_merge_adds_entries(a: HistogramView, b: HistogramView)
    requires
        a.wf(),
        b.wf(),
        b.counters.missed() == 0,
    ensures
        a.merged(b).wf(),
        a.merged(b).counters.entries_total == saturate(
            a.counters.entries_total + b.counters.entries_total,
        ),
        a.counters.entries_total + b.counters.entries_total <= u64::MAX ==> a.merged(
            b,
        ).counters.entries_total == a.counters.entries_total + b.counters.entries_total,
{
    lemma_absorbed(a, b, b.counts.len());
}

/// Whether every occupied bucket of `b` stands for a sample that `a` stores.
pub open spec fn covers(a: HistogramView, b: HistogramView) -> bool {
    forall|i: int|
        0 <= i < b.counts.len() && b.counts[i] > 0 ==> #[trigger] bucket_value(b.inner(), i as nat)
            <= a.config.max_value
}

/// Recording the first `upto` buckets of `b` in `a` misses nothing where
/// `a` stores what the occupied buckets of `b` stand for.
pub proof fn lemma_absorbed_misses_nothing(a: HistogramView, b: HistogramView, upto: nat)
    requires
        a.wf(),
        b.wf(),
        upto <= b.counts.len(),
        covers(a, b),
    ensures
        a.absorbed(b, upto).counters.missed_small == a.counters.missed_small,
        a.absorbed(b, upto).counters.missed_large == a.counters.missed_large,
        a.absorbed(b, upto).counters.missed_unknown == a.counters.missed_unknown,
    decreases upto,
{
    if upto > 0 {
        let before = a.absorbed(b, (upto - 1) as nat);
        lemma_absorbed_misses_nothing(a, b, (upto - 1) as nat);
        lemma_absorbed(a, b, (upto - 1) as nat);
        let value = b.bucket(upto - 1).value;
        lemma_outcome(before, value);
        b.properties.lemma_describes_wf(b.config);
        lemma_representative_fits(b.properties, upto - 1);
        assert(value == bucket_value(b.inner(), (upto - 1) as nat));
    }
}

/// Where every occupied bucket of `b` stands for a sample that `a` stores,
/// merging `b` into `a` misses nothing: the counters of missed entries of
/// `a` stay as they were.
pub proof fn lemma_merge_misses_nothing(a: HistogramView, b: HistogramView)
    requires
        a.wf(),
        b.wf(),
        covers(a, b),
    ensures
        a.merged(b).counters.missed_small == a.counters.missed_small,
        a.merged(b).counters.missed_large == a.counters.missed_large,
        a.merged(b).counters.missed_unknown == a.counters.missed_unknown,
{
    lemma_absorbed_misses_nothing(a, b, b.counts.len());
}

/// In the linear region the histogram is exact: a sample `v` up to
/// `linear_max` is counted at index `v - 1`, and `v` stands for that bucket.
pub proof fn lemma_linear_region_is_exact(h: HistogramView, value: u64)
    requires
        h.wf(),
        1 <= value <= h.properties.linear_max,
    ensures
        h.properties.index_of(value) == Some((value - 1) as usize),
        bucket_value(h.inner(), (value - 1) as nat) == value,
{
    lemma_total_bounds(h.inner(), h.config.max_value as nat);
    assert(h.inner() * h.properties.buckets_outer >= 0) by (nonlinear_arith);
}

/// Above the linear region the histogram is close: a sample `v` up to the
/// configured maximum has a bucket, and the sample that stands for it lies
/// in the same power-of-two range, is no larger than `v`, and falls short
/// of `v` by no more than the base of that range divided by the number of
/// buckets per range, rounded up.
pub proof fn lemma_log_region_is_close(h: HistogramView, value: u64)
    requires
        h.wf(),
        h.properties.linear_max < value <= h.config.max_value,
    ensures
        h.properties.index_of(value) is Some,
        ({
            let index = h.properties.index_of(value).unwrap();
            let base = pow2(octave(value as nat));
            let r = bucket_value(h.inner(), index as nat);
            &&& base <= r <= value < 2 * base
            &&& value - r <= ceil_div(base as int, h.inner() as int)
            &&& h.properties.index_of(r as u64) == Some(index)
        }),
{
    lemma_outcome(h, value);
    lemma_representative_is_close(h.inner(), value as nat);
    lemma_representative_shares_bucket(h.inner(), value as nat);
}

/// A traversal from the first bucket hands out every bucket once, in the
/// order of their indices, then nothing, and after that starts again.
pub proof fn lemma_traversal_visits_each_bucket(h: HistogramView, steps: nat)
    requires
        h.cursor == 0,
        steps <= h.counts.len(),
    ensures
        h.advanced_by(steps) == (HistogramView { cursor: steps, ..h }),
        steps < h.counts.len() ==> h.advanced_by(steps).current() == Some(h.bucket(steps as int)),
        steps == h.counts.len() ==> h.advanced_by(steps).current() is None,
        steps == h.counts.len() ==> h.advanced_by(steps + 1) == h,
    decreases steps,
{
    if steps > 0 {
        lemma_traversal_visits_each_bucket(h, (steps - 1) as nat);
    }
    if steps == h.counts.len() {
        assert(h.advanced_by(steps + 1) == h.advanced_by(steps).advanced());
    }
}

/// A search from the bottom for the first entry stops at the first bucket
/// that is not empty.
pub proof fn lemma_climb_first_occupied(counts: Seq<u64>, from: int, first: int)
    requires
        0 <= from <= first < counts.len(),
        forall|i: int| from <= i < first ==> counts[i] == 0,
        counts[first] > 0,
    ensures
        climb(counts, from, 0, 1) == Some(first),
    decreases first - from,
{
    if from < first {
        lemma_climb_first_occupied(counts, from + 1, first);
    }
}

/// A search from the top for the first entry stops at the last bucket that
/// is not empty.
pub proof fn lemma_descend_last_occupied(counts: Seq<u64>, from: int, last: int)
    requires
        0 <= last <= from < counts.len(),
        forall|i: int| last < i <= from ==> counts[i] == 0,
        counts[last] > 0,
    ensures
        descend(counts, from, 0, 1) == Some(last),
    decreases from - last,
{
    if last < from {
        lemma_descend_last_occupied(counts, from - 1, last);
    }
}

/// Where no entry was too small, the percentile 0 is the sample that
/// stands for the first bucket that is not empty.
pub proof fn lemma_minimum_is_first_occupied(h: HistogramView, first: int)
    requires
        h.wf(),
        h.counters.entries_total >= 1,
        h.counters.missed_small == 0,
        0 <= first < h.counts.len(),
        forall|i: int| 0 <= i < first ==> h.counts[i] == 0,
        h.counts[first] > 0,
    ensures
        h.percentile(0, 1) == Ok::<u64, HistogramError>(bucket_value(h.inner(), first as nat) as u64),
{
    let total = h.counters.entries_total;
    assert(total * 0 == 0) by (nonlinear_arith);
    assert(ceil_div(0, 100) == 0);
    lemma_climb_first_occupied(h.counts, 0, first);
}

/// Where no entry was too large, the percentile 100 is the sample that
/// stands for the last bucket that is not empty.
pub proof fn lemma_maximum_is_last_occupied(h: HistogramView, last: int)
    requires
        h.wf(),
        h.counters.entries_total >= 1,
        h.counters.missed_large == 0,
        0 <= last < h.counts.len(),
        forall|i: int| last < i < h.counts.len() ==> h.counts[i] == 0,
        h.counts[last] > 0,
    ensures
        h.percentile(100, 1) == Ok::<u64, HistogramError>(
            bucket_value(h.inner(), last as nat) as u64,
        ),
{
    let total = h.counters.entries_total;
    lemma_ceil_unique(total * 100, 100, total as int);
    lemma_descend_last_occupied(h.counts, h.counts.len() - 1, last);
}

/// A percentile sought from the bottom is found at the bucket where the
/// count of what lies below, the entries that were too small included,
/// crosses the rank.
pub proof fn lemma_percentile_from_below_crosses_rank(h: HistogramView, rank: u64)
    requires
        h.wf(),
        1 <= rank <= h.counters.entries_total,
        h.percentile_at_rank(rank, true) is Ok,
    ensures
        exists|index: int|
            {
                &&& 0 <= index < h.counts.len()
                &&& h.percentile_at_rank(rank, true) == Ok::<u64, HistogramError>(
                    #[trigger] bucket_value(h.inner(), index as nat) as u64,
                )
                &&& h.counters.missed_small + sum_between(h.counts, 0, index) < rank
                &&& rank <= h.counters.missed_small + sum_between(h.counts, 0, index + 1)
            },
{
    let have = h.counters.missed_small as int;
    lemma_climb_crosses(h.counts, 0, have, rank as int);
    let index = climb(h.counts, 0, have, rank as int).unwrap();
    assert(h.percentile_at_rank(rank, true) == Ok::<u64, HistogramError>(
        bucket_value(h.inner(), index as nat) as u64,
    ));
}

/// A percentile sought from the top is found at the bucket where the count
/// of what lies above, the entries that were too large included, crosses
/// the number of entries above the rank.
pub proof fn lemma_percentile_from_above_crosses_rank(h: HistogramView, rank: u64)
    requires
        h.wf(),
        rank < h.counters.entries_total,
        h.percentile_at_rank(rank, false) is Ok,
    ensures
        exists|index: int|
            {
                &&& 0 <= index < h.counts.len()
                &&& h.percentile_at_rank(rank, false) == Ok::<u64, HistogramError>(
                    #[trigger] bucket_value(h.inner(), index as nat) as u64,
                )
                &&& h.counters.missed_large + sum_between(
                    h.counts,
                    index + 1,
                    h.counts.len() as int,
                ) < h.counters.entries_total - rank
                &&& h.counters.entries_total - rank <= h.counters.missed_large + sum_between(
                    h.counts,
                    index,
                    h.counts.len() as int,
                )
            },
{
    let have = h.counters.missed_large as int;
    let need = h.counters.entries_total - rank;
    let top = h.counts.len() - 1;
    lemma_descend_crosses(h.counts, top, have, need);
    let index = descend(h.counts, top, have, need).unwrap();
    assert(h.percentile_at_rank(rank, false) == Ok::<u64, HistogramError>(
        bucket_value(h.inner(), index as nat) as u64,
    ));
}

/// A percentile that can be told is the sample that stands for a bucket
/// that is not empty.
pub proof fn lemma_percentile_names_occupied_bucket(h: HistogramView, rank: u64, ascending: bool)
    requires
        h.wf(),
        h.percentile_at_rank(rank, ascending) is Ok,
    ensures
        exists|index: int|
            0 <= index < h.counts.len() && h.counts[index] > 0 && h.percentile_at_rank(
                rank,
                ascending,
            ) == Ok::<u64, HistogramError>(#[trigger] bucket_value(h.inner(), index as nat) as u64),
{
    let total = h.counters.entries_total as int;
    let below: int = if rank > total {
        total
    } else {
        rank as int
    };
    if ascending {
        let need = if below == 0 {
            1
        } else {
            below
        };
        let have = h.counters.missed_small as int;
        lemma_climb_crosses(h.counts, 0, have, need);
        let index = climb(h.counts, 0, have, need).unwrap();
        assert(sum_between(h.counts, 0, index + 1) == sum_between(h.counts, 0, index)
            + h.counts[index]);
        assert(h.percentile_at_rank(rank, ascending) == Ok::<u64, HistogramError>(
            bucket_value(h.inner(), index as nat) as u64,
        ));
    } else {
        let need = if total - below == 0 {
            1
        } else {
            total - below
        };
        let have = h.counters.missed_large as int;
        let top = h.counts.len() - 1;
        lemma_descend_crosses(h.counts, top, have, need);
        let index = descend(h.counts, top, have, need).unwrap();
        lemma_sum_between_first(h.counts, index, top + 1);
        assert(h.percentile_at_rank(rank, ascending) == Ok::<u64, HistogramError>(
            bucket_value(h.inner(), index as nat) as u64,
        ));
    }
}

/// Percentiles keep the order of their ranks: sought in the same
/// direction, a higher rank gives no smaller sample.
pub proof fn lemma_percentile_monotonic(h: HistogramView, low: u64, high: u64, ascending: bool)
    requires
        h.wf(),
        low <= high,
        h.percentile_at_rank(low, ascending) is Ok,
        h.percentile_at_rank(high, ascending) is Ok,
    ensures
        h.percentile_at_rank(low, ascending).unwrap() <= h.percentile_at_rank(
            high,
            ascending,
        ).unwrap(),
{
    let total = h.counters.entries_total as int;
    let below_low: int = if low > total {
        total
    } else {
        low as int
    };
    let below_high: int = if high > total {
        total
    } else {
        high as int
    };
    let top = h.counts.len() - 1;
    h.properties.lemma_describes_wf(h.config);
    if ascending {
        let need_low = if below_low == 0 {
            1
        } else {
            below_low
        };
        let need_high = if below_high == 0 {
            1
        } else {
            below_high
        };
        let have = h.counters.missed_small as int;
        lemma_climb_monotonic(h.counts, have, need_low, need_high);
        lemma_climb_crosses(h.counts, 0, have, need_low);
        lemma_climb_crosses(h.counts, 0, have, need_high);
        let first = climb(h.counts, 0, have, need_low).unwrap();
        let second = climb(h.counts, 0, have, need_high).unwrap();
        lemma_representative_fits(h.properties, first);
        lemma_representative_fits(h.properties, second);
        if first < second {
            lemma_value_strictly_increases(h.inner(), first as nat, second as nat);
        }
    } else {
        let need_low = if total - below_low == 0 {
            1
        } else {
            total - below_low
        };
        let need_high = if total - below_high == 0 {
            1
        } else {
            total - below_high
        };
        let have = h.counters.missed_large as int;
        lemma_descend_monotonic(h.counts, have, need_high, need_low);
        lemma_descend_crosses(h.counts, top, have, need_low);
        lemma_descend_crosses(h.counts, top, have, need_high);
        let first = descend(h.counts, top, have, need_low).unwrap();
        let second = descend(h.counts, top, have, need_high).unwrap();
        lemma_representative_fits(h.properties, first);
        lemma_representative_fits(h.properties, second);
        if first < second {
            lemma_value_strictly_increases(h.inner(), first as nat, second as nat);
        }
    }
}

/// Where no entry was missed, the mean lies among the samples that were
/// stored: between any two samples that enclose what the occupied buckets
/// stand for.
pub proof fn lemma_mean_within_range(h: HistogramView, low: u64, high: u64)
    requires
        h.wf(),
        1 <= h.counters.entries_total < u64::MAX,
        h.counters.missed() == 0,
        forall|i: int|
            0 <= i < h.counts.len() && h.counts[i] > 0 ==> low <= #[trigger] bucket_value(
                h.inner(),
                i as nat,
            ) <= high,
    ensures
        h.mean() is Ok,
        low <= h.mean().unwrap() <= high,
{
    let total = h.counters.entries_total as int;
    let len = h.counts.len() as int;
    let weighted = weighted_sum(h.inner(), h.counts, len);
    lemma_weighted_sum_bounds(h.inner(), h.counts, len, low as int, high as int);
    lemma_ceil_bounds(weighted, total);
    let mean = ceil_div(weighted, total);
    assert(low <= mean <= high) by (nonlinear_arith)
        requires
            low * total <= weighted <= high * total,
            weighted <= mean * total < weighted + total,
            total >= 1,
    ;
}

/// While every entry of a histogram was too large, no percentile can be
/// told: from 50 up the query fails because the missed entries cover the
/// rank, and below 50 because no bucket reaches it.
pub proof fn lemma_only_too_large_hides_percentiles(
    h: HistogramView,
    numerator: u64,
    denominator: u64,
)
    requires
        h.wf(),
        1 <= h.counters.entries_total < u64::MAX,
        h.counters.missed_large == h.counters.entries_total,
        is_percentage(numerator, denominator),
    ensures
        h.percentile(numerator, denominator) == Err::<u64, HistogramError>(
            if below_median(numerator, denominator) {
                HistogramError::UnknownFailure
            } else if h.counts.len() == 1 {
                HistogramError::Underflow
            } else {
                HistogramError::Overflow
            },
        ),
{
    let total = h.counters.entries_total;
    let len = h.counts.len() as int;
    lemma_sum_between_nonnegative(h.counts, 0, len);
    assert(sum(h.counts) == 0);
    assert forall|i: int| 0 <= i < len implies h.counts[i] == 0 by {
        lemma_sum_bounds_each(h.counts, i);
    }
    let need = rank(total, numerator, denominator);
    lemma_ceil_bounds(total * numerator, 100 * denominator);
    assert(total * numerator >= 0) by (nonlinear_arith);
    assert(ceil_div(total * numerator, 100 * denominator) >= 0) by (nonlinear_arith)
        requires
            ceil_div(total * numerator, 100 * denominator) * (100 * denominator) >= total
                * numerator,
            total * numerator >= 0,
            100 * denominator > 0,
    ;
    if below_median(numerator, denominator) {
        let wanted = if need == 0 {
            1
        } else {
            need
        };
        lemma_climb_crosses(h.counts, 0, 0, wanted);
        if climb(h.counts, 0, 0, wanted) is Some {
            let at = climb(h.counts, 0, 0, wanted).unwrap();
            lemma_sum_zero(h.counts, 0, at + 1);
        }
    }
}

} // verus!
