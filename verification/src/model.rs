//! A histogram as a mathematical value, and what each operation makes of it.

use vstd::prelude::*;
use crate::config::HistogramConfig;
use crate::counters::{HistogramBucket, HistogramCounters};
use crate::error::HistogramError;
use crate::geometry::HistogramProperties;
use crate::mapping::{bucket_index, bucket_value, lemma_in_range_has_bucket};
use crate::moments::{mean_of_counts, variance_of_counts};
use crate::rank::{below_median, climb, descend, is_percentage, rank};
use crate::rounding::ceil_sqrt;
use crate::tally::{
    lemma_sum_between_nonnegative,
    lemma_sum_bounds_each,
    lemma_sum_update,
    lemma_sum_zero,
    saturate,
    sum,
};

verus! {

/// What a histogram is: its settings, its layout, one counter per bucket,
/// the counters beside them, and the position of its traversal.
pub struct HistogramView {
    /// The settings that the histogram was built from.
    pub config: HistogramConfig,
    /// The layout derived from the settings.
    pub properties: HistogramProperties,
    /// One counter per bucket, by index.
    pub counts: Seq<u64>,
    /// The counters beside the buckets.
    pub counters: HistogramCounters,
    /// The index of the bucket that the traversal hands out next.
    pub cursor: nat,
}

impl HistogramView {
    /// The number of buckets per power-of-two range.
    pub open spec fn inner(self) -> nat {
        self.properties.buckets_inner as nat
    }

    /// Whether the counters account for every entry: the buckets and the
    /// missed entries together hold exactly the entries recorded, or at
    /// least that many once the number of entries has reached its limit.
    pub open spec fn accounted(self) -> bool {
        let stored = sum(self.counts) + self.counters.missed();
        &&& stored >= self.counters.entries_total
        &&& self.counters.entries_total < u64::MAX ==> stored == self.counters.entries_total
    }

    /// Whether this is a histogram that the operations can have produced.
    pub open spec fn wf(self) -> bool {
        &&& self.config.valid()
        &&& self.properties.describes(self.config)
        &&& self.counts.len() == self.properties.buckets_total
        &&& self.cursor <= self.counts.len()
        &&& self.accounted()
    }

    /// Whether this is the histogram that is built from `config`: laid out
    /// for it, with every counter at zero.
    pub open spec fn is_fresh(self, config: HistogramConfig) -> bool {
        &&& self.config == config
        &&& self.properties.describes(config)
        &&& self.counts.len() == config.total()
        &&& forall|i: int| 0 <= i < self.counts.len() ==> self.counts[i] == 0
        &&& self.counters == HistogramCounters::zero()
        &&& self.cursor == 0
    }

    /// What recording `value` reports.
    pub open spec fn outcome(self, value: u64) -> Result<(), HistogramError> {
        if value < 1 {
            Err(HistogramError::ValueTooSmall)
        } else if value > self.config.max_value {
            Err(HistogramError::ValueTooLarge)
        } else if self.properties.index_of(value) is None {
            Err(HistogramError::UnknownError)
        } else {
            Ok(())
        }
    }

    /// The histogram after `count` entries of `value` were recorded. The
    /// number of entries grows in any case; then either the sample's bucket
    /// grows or one of the counters of missed entries. No counter goes
    /// beyond its largest value.
    pub open spec fn record(self, value: u64, count: u64) -> HistogramView {
        let entries_total = saturate(self.counters.entries_total + count);
        match self.outcome(value) {
            Err(HistogramError::ValueTooSmall) => HistogramView {
                counters: HistogramCounters {
                    entries_total,
                    missed_small: saturate(self.counters.missed_small + count),
                    ..self.counters
                },
                ..self
            },
            Err(HistogramError::ValueTooLarge) => HistogramView {
                counters: HistogramCounters {
                    entries_total,
                    missed_large: saturate(self.counters.missed_large + count),
                    ..self.counters
                },
                ..self
            },
            Err(_) => HistogramView {
                counters: HistogramCounters {
                    entries_total,
                    missed_unknown: saturate(self.counters.missed_unknown + count),
                    ..self.counters
                },
                ..self
            },
            Ok(_) => {
                let index = self.properties.index_of(value).unwrap() as int;
                HistogramView {
                    counts: self.counts.update(index, saturate(self.counts[index] + count)),
                    counters: HistogramCounters { entries_total, ..self.counters },
                    ..self
                }
            },
        }
    }

    /// The histogram with every counter back at zero. Settings, layout and
    /// the number of buckets stay.
    pub open spec fn cleared(self) -> HistogramView {
        HistogramView {
            counts: Seq::new(self.counts.len(), |i: int| 0u64),
            counters: HistogramCounters::zero(),
            ..self
        }
    }

    /// The counter of the bucket of `value`; none for a sample outside the
    /// configured range.
    pub open spec fn get(self, value: u64) -> Option<u64> {
        if value < 1 || value > self.config.max_value {
            None
        } else {
            match self.properties.index_of(value) {
                Some(index) => Some(self.counts[index as int]),
                None => None,
            }
        }
    }

    /// The bucket at `index` as a traversal hands it out.
    pub open spec fn bucket(self, index: int) -> HistogramBucket {
        HistogramBucket {
            value: bucket_value(self.inner(), index as nat) as u64,
            count: self.counts[index],
            id: index as u64,
        }
    }

    /// What the traversal hands out next: the bucket under the cursor, or
    /// nothing once every bucket was handed out.
    pub open spec fn current(self) -> Option<HistogramBucket> {
        if self.cursor < self.counts.len() {
            Some(self.bucket(self.cursor as int))
        } else {
            None
        }
    }

    /// The histogram after one step of the traversal: the cursor has moved
    /// on, or back to the first bucket where it had passed the last.
    pub open spec fn advanced(self) -> HistogramView {
        if self.cursor < self.counts.len() {
            HistogramView { cursor: self.cursor + 1, ..self }
        } else {
            HistogramView { cursor: 0, ..self }
        }
    }

    /// The histogram after `steps` steps of the traversal.
    pub open spec fn advanced_by(self, steps: nat) -> HistogramView
        decreases steps,
    {
        if steps == 0 {
            self
        } else {
            self.advanced_by((steps - 1) as nat).advanced()
        }
    }

    /// The sample at or below which `rank` of the entries lie, found from
    /// the bottom where `ascending` holds and from the top where not.
    ///
    /// From the bottom, the entries that were too small come first, and the
    /// first bucket is sought at which the running count reaches `rank`.
    /// From the top, the entries that were too large come first, and the
    /// last bucket is sought at which the running count reaches the
    /// entries above `rank`. A rank of zero counts as one.
    pub open spec fn percentile_at_rank(self, rank: u64, ascending: bool) -> Result<
        u64,
        HistogramError,
    > {
        let total = self.counters.entries_total;
        let below: int = if rank > total {
            total as int
        } else {
            rank as int
        };
        if total < 1 {
            Err(HistogramError::NoData)
        } else if ascending {
            let need = if below == 0 {
                1
            } else {
                below
            };
            if self.counters.missed_small >= need {
                Err(HistogramError::Underflow)
            } else {
                match climb(self.counts, 0, self.counters.missed_small as int, need) {
                    Some(index) => Ok(bucket_value(self.inner(), index as nat) as u64),
                    None => Err(HistogramError::UnknownFailure),
                }
            }
        } else {
            let need = if total - below == 0 {
                1
            } else {
                total - below
            };
            if self.counters.missed_large >= need {
                if self.counts.len() == 1 {
                    Err(HistogramError::Underflow)
                } else {
                    Err(HistogramError::Overflow)
                }
            } else {
                match descend(
                    self.counts,
                    self.counts.len() - 1,
                    self.counters.missed_large as int,
                    need,
                ) {
                    Some(index) => Ok(bucket_value(self.inner(), index as nat) as u64),
                    None => Err(HistogramError::UnknownFailure),
                }
            }
        }
    }

    /// The sample at the percentile `numerator / denominator`. Percentiles
    /// below 50 are sought from the bottom, the others from the top.
    pub open spec fn percentile(self, numerator: u64, denominator: u64) -> Result<
        u64,
        HistogramError,
    > {
        if self.counters.entries_total < 1 {
            Err(HistogramError::NoData)
        } else if !is_percentage(numerator, denominator) {
            Err(HistogramError::UnknownFailure)
        } else {
            self.percentile_at_rank(
                rank(self.counters.entries_total, numerator, denominator) as u64,
                below_median(numerator, denominator),
            )
        }
    }

    /// The mean of the stored samples, each taken as the sample that stands
    /// for its bucket, over all entries; rounded up.
    pub open spec fn mean(self) -> Result<u64, HistogramError> {
        if self.counters.entries_total < 1 {
            Err(HistogramError::NoData)
        } else {
            Ok(mean_of_counts(self.inner(), self.counts, self.counters.entries_total))
        }
    }

    /// The variance of the stored samples about the rounded mean, over all
    /// entries; rounded up.
    pub open spec fn stdvar(self) -> Result<u64, HistogramError> {
        match self.mean() {
            Ok(mean) => Ok(
                variance_of_counts(self.inner(), self.counts, mean, self.counters.entries_total),
            ),
            Err(e) => Err(e),
        }
    }

    /// The square root of the variance, rounded up; none without entries.
    pub open spec fn stddev(self) -> Option<u64> {
        match self.stdvar() {
            Ok(variance) => Some(ceil_sqrt(variance as nat) as u64),
            Err(_) => None,
        }
    }

    /// The histogram after the first `upto` buckets of `other` were recorded
    /// in it, each with the sample that stands for it and with its counter.
    pub open spec fn absorbed(self, other: HistogramView, upto: nat) -> HistogramView
        decreases upto,
    {
        if upto == 0 {
            self
        } else {
            let index = (upto - 1) as int;
            self.absorbed(other, (upto - 1) as nat).record(
                other.bucket(index).value,
                other.counts[index],
            )
        }
    }

    /// The histogram after every bucket of `other` was recorded in it.
    pub open spec fn merged(self, other: HistogramView) -> HistogramView {
        self.absorbed(other, other.counts.len())
    }
}

/// In a well-formed histogram every sample from one up to the configured
/// maximum has a bucket: recording it succeeds, and no entry is ever
/// counted as unknown.
pub proof fn lemma_outcome(h: HistogramView, value: u64)
    requires
        h.wf(),
    ensures
        h.outcome(value) == if value < 1 {
            Err::<(), HistogramError>(HistogramError::ValueTooSmall)
        } else if value > h.config.max_value {
            Err(HistogramError::ValueTooLarge)
        } else {
            Ok(())
        },
        h.outcome(value) is Ok ==> h.properties.index_of(value) == Some(
            bucket_index(h.inner(), value as nat) as usize,
        ) && bucket_index(h.inner(), value as nat) < h.counts.len(),
{
    if 1 <= value <= h.config.max_value {
        lemma_in_range_has_bucket(h.inner(), h.config.max_value as nat, value as nat);
    }
}

/// Recording keeps a histogram well formed, with its settings, layout,
/// number of buckets and cursor.
pub proof fn lemma_record_wf(h: HistogramView, value: u64, count: u64)
    requires
        h.wf(),
    ensures
        h.record(value, count).wf(),
        h.record(value, count).config == h.config,
        h.record(value, count).properties == h.properties,
        h.record(value, count).counts.len() == h.counts.len(),
        h.record(value, count).cursor == h.cursor,
{
    lemma_outcome(h, value);
    lemma_sum_between_nonnegative(h.counts, 0, h.counts.len() as int);
    if h.outcome(value) is Ok {
        let index = h.properties.index_of(value).unwrap() as int;
        lemma_sum_update(h.counts, index, saturate(h.counts[index] + count));
        lemma_sum_bounds_each(h.counts, index);
    }
}

/// Recording adds `count` to the number of entries, whatever the sample,
/// and stops at the largest number.
pub proof fn lemma_record_counts_entry(h: HistogramView, value: u64, count: u64)
    ensures
        h.record(value, count).counters.entries_total == saturate(
            h.counters.entries_total + count,
        ),
{
}

/// Recording a sample above the configured maximum fails as too large, adds
/// to the entries that were too large, and leaves every bucket as it was.
pub proof fn lemma_record_too_large(h: HistogramView, value: u64, count: u64)
    requires
        value > h.config.max_value,
        value >= 1,
    ensures
        h.outcome(value) == Err::<(), HistogramError>(HistogramError::ValueTooLarge),
        h.record(value, count).counters.missed_large == saturate(h.counters.missed_large + count),
        h.record(value, count).counts == h.counts,
{
}

/// After a sample inside the range was recorded, its bucket holds `count`
/// more than before, and no more than the largest number.
pub proof fn lemma_record_then_get(h: HistogramView, value: u64, count: u64)
    requires
        h.wf(),
        1 <= value <= h.config.max_value,
    ensures
        h.get(value) is Some,
        h.record(value, count).get(value) == Some(saturate(h.get(value).unwrap() + count)),
{
    lemma_outcome(h, value);
}

/// Clearing sets the number of entries and every counter to zero, and
/// leaves settings, layout and the number of buckets as they were.
pub proof fn lemma_cleared(h: HistogramView)
    requires
        h.wf(),
    ensures
        h.cleared().wf(),
        h.cleared().counters.entries_total == 0,
        h.cleared().counters.missed() == 0,
        forall|i: int| 0 <= i < h.counts.len() ==> h.cleared().counts[i] == 0,
        h.cleared().counts.len() == h.counts.len(),
        h.cleared().config == h.config,
        h.cleared().properties == h.properties,
{
    lemma_sum_zero(h.cleared().counts, 0, h.counts.len() as int);
}

/// A histogram that was just built is well formed.
pub proof fn lemma_fresh_wf(h: HistogramView, config: HistogramConfig)
    requires
        config.valid(),
        h.is_fresh(config),
    ensures
        h.wf(),
{
    lemma_sum_zero(h.counts, 0, h.counts.len() as int);
}

} // verus!
