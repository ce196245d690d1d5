//! The histogram: a fixed array of counters, filled by recording samples
//! and read by statistics.

use vstd::prelude::*;
use crate::config::HistogramConfig;
use crate::counters::{HistogramBucket, HistogramCounters, HistogramData};
use crate::error::HistogramError;
use crate::geometry::{lemma_standard_is_valid, HistogramProperties};
use crate::laws::{lemma_linear_region_is_exact, lemma_merge_adds_entries};
use crate::mapping::{bucket_value, lemma_index_of_representative};
use crate::model::{lemma_fresh_wf, lemma_outcome, lemma_record_wf, HistogramView};
use crate::moments::{mean_of, variance_of};
use crate::rank::{
    first_reaching_down,
    first_reaching_up,
    lemma_climb_crosses,
    lemma_descend_crosses,
    rank_of,
};
use crate::rounding::ceil_sqrt_u64;
use crate::tally::saturate;

verus! {

/// A histogram of samples from one up to a configured maximum. Small
/// samples are counted exactly, larger ones with a fixed relative
/// resolution. The buckets are allocated once, when it is built.
#[derive(Debug)]
pub struct Histogram {
    config: HistogramConfig,
    data: HistogramData,
    properties: HistogramProperties,
}

impl View for Histogram {
    type V = HistogramView;

    closed spec fn view(&self) -> HistogramView {
        HistogramView {
            config: self.config,
            properties: self.properties,
            counts: self.data.data@,
            counters: self.data.counters,
            cursor: self.data.iterator as nat,
        }
    }
}

impl Clone for Histogram {
    fn clone(&self) -> (copy: Self)
        ensures
            copy@ == self@,
    {
        Histogram { config: self.config, data: self.data.clone(), properties: self.properties }
    }
}

impl Histogram {
    /// Whether the histogram is one that its operations can have produced.
    pub open spec fn wf(&self) -> bool {
        self@.wf()
    }

    /// Builds a histogram with the standard settings.
    pub fn new() -> (made: Option<Histogram>)
        ensures
            made matches Some(h) && h.wf() && h@.is_fresh(HistogramConfig::standard()),
    {
        proof {
            lemma_standard_is_valid();
        }
        let config = HistogramConfig::new();
        Histogram::configured(config)
    }

    /// Builds a histogram with the settings `config`, unless its buckets
    /// would take more bytes than `max_memory` allows.
    pub fn configured(config: HistogramConfig) -> (made: Option<Histogram>)
        requires
            config.inner() >= 1,
            config.max_memory == 0 ==> config.memory() <= u32::MAX,
        ensures
            match made {
                Some(h) => h.wf() && h@.is_fresh(config) && config.within_budget(),
                None => !config.within_budget(),
            },
    {
        let properties = match HistogramProperties::derive(&config) {
            Some(p) => p,
            None => {
                return None;
            },
        };
        if config.max_memory > 0 && config.max_memory < properties.memory_used {
            return None;
        }
        let data: Vec<u64> = vec![0u64; properties.buckets_total as usize];
        let counters = HistogramCounters::new();
        let made = Histogram {
            config,
            data: HistogramData { data, counters, iterator: 0 },
            properties,
        };
        proof {
            lemma_fresh_wf(made@, config);
        }
        Some(made)
    }

    /// The number of entries recorded, stored or not.
    pub fn entries(&self) -> (entries: u64)
        ensures
            entries == self@.counters.entries_total,
    {
        self.data.counters.entries_total
    }

    /// The number of buckets.
    pub fn buckets_total(&self) -> (total: u64)
        requires
            self.wf(),
        ensures
            total == self@.counts.len(),
            total == self@.config.total(),
    {
        self.properties.buckets_total as u64
    }

    /// The layout of the buckets.
    pub fn properties(&self) -> (layout: HistogramProperties)
        ensures
            layout == self@.properties,
    {
        self.properties
    }

    /// The settings that the histogram was built from.
    pub fn config(&self) -> (config: HistogramConfig)
        ensures
            config == self@.config,
    {
        self.config
    }

    /// The number of entries, and how many of them no bucket holds.
    pub fn counters(&self) -> (counters: HistogramCounters)
        ensures
            counters == self@.counters,
    {
        self.data.counters
    }

    /// Finds the bucket that counts `value`: none for zero, and none for a
    /// sample beyond the last bucket.
    pub fn get_index(&self, value: u64) -> (found: Option<usize>)
        requires
            self.wf(),
        ensures
            found == self@.properties.index_of(value),
            1 <= value <= self@.properties.linear_max ==> found == Some((value - 1) as usize),
            1 <= value <= self@.config.max_value ==> found is Some,
    {
        proof {
            self.properties.lemma_describes_wf(self.config);
            lemma_outcome(self@, value);
            if 1 <= value <= self.properties.linear_max {
                lemma_linear_region_is_exact(self@, value);
            }
        }
        self.properties.get_index(value)
    }

    /// Returns the sample that stands for the bucket at `index`.
    pub fn index_value(&self, index: usize) -> (value: u64)
        requires
            self.wf(),
            index < self@.counts.len(),
        ensures
            value == bucket_value(self@.inner(), index as nat),
            index < self@.properties.linear_max ==> value == index + 1,
            self@.properties.index_of(value) == Some(index),
    {
        proof {
            self.properties.lemma_describes_wf(self.config);
            lemma_index_of_representative(self@.inner(), index as nat);
        }
        self.properties.index_value(index)
    }

    /// Sets every counter back to zero. The buckets stay allocated.
    pub fn clear(&mut self) -> (done: Result<(), HistogramError>)
        requires
            old(self).wf(),
        ensures
            done is Ok,
            final(self).wf(),
            final(self)@ == old(self)@.cleared(),
            final(self)@.counters == HistogramCounters::zero(),
            final(self)@.counts.len() == old(self)@.counts.len(),
            forall|i: int| 0 <= i < final(self)@.counts.len() ==> final(self)@.counts[i] == 0,
            final(self)@.config == old(self)@.config,
            final(self)@.properties == old(self)@.properties,
    {
        self.data.counters.clear();
        let mut at: usize = 0;
        while at < self.data.data.len()
            invariant
                at <= self.data.data.len(),
                self.data.data.len() == old(self).data.data.len(),
                self.config == old(self).config,
                self.properties == old(self).properties,
                self.data.iterator == old(self).data.iterator,
                self.data.counters == HistogramCounters::zero(),
                forall|i: int| 0 <= i < at ==> self.data.data[i] == 0,
            decreases self.data.data.len() - at,
        {
            self.data.data[at] = 0;
            at = at + 1;
        }
        proof {
            assert(self@.counts =~= old(self)@.cleared().counts);
            crate::model::lemma_cleared(old(self)@);
        }
        Ok(())
    }

    /// Records one entry of `value`.
    pub fn increment(&mut self, value: u64) -> (done: Result<(), HistogramError>)
        requires
            old(self).wf(),
        ensures
            final(self).wf(),
            final(self)@ == old(self)@.record(value, 1),
            done == old(self)@.outcome(value),
    {
        self.record(value, 1u64)
    }

    /// Records `count` entries of `value`. The number of entries grows in
    /// any case. A sample from one up to the configured maximum is counted
    /// in its bucket; any other is counted as missed and reported.
    pub fn record(&mut self, value: u64, count: u64) -> (done: Result<(), HistogramError>)
        requires
            old(self).wf(),
        ensures
            final(self).wf(),
            final(self)@ == old(self)@.record(value, count),
            done == old(self)@.outcome(value),
            done == if value < 1 {
                Err::<(), HistogramError>(HistogramError::ValueTooSmall)
            } else if value > old(self)@.config.max_value {
                Err(HistogramError::ValueTooLarge)
            } else {
                Ok(())
            },
            final(self)@.counters.entries_total == saturate(
                old(self)@.counters.entries_total + count,
            ),
            value > old(self)@.config.max_value ==> final(self)@.counters.missed_large == saturate(
                old(self)@.counters.missed_large + count,
            ) && final(self)@.counts == old(self)@.counts,
    {
        proof {
            lemma_outcome(old(self)@, value);
            lemma_record_wf(old(self)@, value, count);
            self.properties.lemma_describes_wf(self.config);
        }
        self.data.counters.entries_total = self.data.counters.entries_total.saturating_add(count);
        if value < 1 {
            self.data.counters.missed_small = self.data.counters.missed_small.saturating_add(count);
            Err(HistogramError::ValueTooSmall)
        } else if value > self.config.max_value {
            self.data.counters.missed_large = self.data.counters.missed_large.saturating_add(count);
            Err(HistogramError::ValueTooLarge)
        } else {
            match self.properties.get_index(value) {
                Some(index) => {
                    let stored: u64 = self.data.data[index];
                    self.data.data[index] = stored.saturating_add(count);
                    Ok(())
                },
                None => {
                    self.data.counters.missed_unknown = self.data.counters.missed_unknown.saturating_add(
                        count,
                    );
                    Err(HistogramError::UnknownError)
                },
            }
        }
    }

    /// The counter of the bucket of `value`; none for a sample outside the
    /// configured range.
    pub fn get(&self, value: u64) -> (count: Option<u64>)
        requires
            self.wf(),
        ensures
            count == self@.get(value),
            count is Some <==> 1 <= value <= self@.config.max_value,
    {
        proof {
            lemma_outcome(self@, value);
            self.properties.lemma_describes_wf(self.config);
        }
        if value < 1 || value > self.config.max_value {
            return None;
        }
        match self.properties.get_index(value) {
            Some(index) => Some(self.data.data[index]),
            None => None,
        }
    }

    /// Hands out the bucket under the cursor and moves the cursor on. Once
    /// every bucket was handed out it returns nothing and moves the cursor
    /// back to the first bucket.
    pub fn next(&mut self) -> (bucket: Option<HistogramBucket>)
        requires
            old(self).wf(),
        ensures
            final(self).wf(),
            bucket == old(self)@.current(),
            final(self)@ == old(self)@.advanced(),
    {
        proof {
            self.properties.lemma_describes_wf(self.config);
        }
        let current: usize = self.data.iterator;
        if current == self.properties.buckets_total as usize {
            self.data.iterator = 0;
            None
        } else {
            self.data.iterator = current + 1;
            Some(
                HistogramBucket {
                    id: current as u64,
                    value: self.properties.index_value(current),
                    count: self.data.data[current],
                },
            )
        }
    }

    /// The sample at or below which `rank` of the entries lie, sought from
    /// the first bucket upwards where `ascending` holds and from the last
    /// bucket downwards where not.
    pub fn percentile_at_rank(&self, rank: u64, ascending: bool) -> (found: Result<
        u64,
        HistogramError,
    >)
        requires
            self.wf(),
        ensures
            found == self@.percentile_at_rank(rank, ascending),
    {
        proof {
            self.properties.lemma_describes_wf(self.config);
        }
        let total: u64 = self.data.counters.entries_total;
        if total < 1 {
            return Err(HistogramError::NoData);
        }
        let below: u64 = if rank > total {
            total
        } else {
            rank
        };
        if ascending {
            let need: u64 = if below == 0 {
                1
            } else {
                below
            };
            let have: u64 = self.data.counters.missed_small;
            if have >= need {
                return Err(HistogramError::Underflow);
            }
            match first_reaching_up(&self.data.data, have, need) {
                Some(index) => {
                    proof {
                        lemma_climb_crosses(self@.counts, 0, have as int, need as int);
                    }
                    Ok(self.properties.index_value(index))
                },
                None => Err(HistogramError::UnknownFailure),
            }
        } else {
            let need: u64 = if total - below == 0 {
                1
            } else {
                total - below
            };
            let have: u64 = self.data.counters.missed_large;
            if have >= need {
                if self.properties.buckets_total == 1 {
                    return Err(HistogramError::Underflow);
                }
                return Err(HistogramError::Overflow);
            }
            match first_reaching_down(&self.data.data, have, need) {
                Some(index) => {
                    proof {
                        lemma_descend_crosses(
                            self@.counts,
                            self@.counts.len() - 1,
                            have as int,
                            need as int,
                        );
                    }
                    Ok(self.properties.index_value(index))
                },
                None => Err(HistogramError::UnknownFailure),
            }
        }
    }

    /// The sample at the percentile `numerator / denominator`, a fraction
    /// from 0 to 100.
    pub fn percentile(&self, numerator: u64, denominator: u64) -> (found: Result<
        u64,
        HistogramError,
    >)
        requires
            self.wf(),
        ensures
            found == self@.percentile(numerator, denominator),
    {
        let total: u64 = self.data.counters.entries_total;
        if total < 1 {
            return Err(HistogramError::NoData);
        }
        if denominator == 0 || numerator as u128 > 100 * (denominator as u128) {
            return Err(HistogramError::UnknownFailure);
        }
        let need: u64 = rank_of(total, numerator, denominator);
        let ascending: bool = (numerator as u128) < 50 * (denominator as u128);
        self.percentile_at_rank(need, ascending)
    }

    /// The smallest sample: the percentile 0.
    pub fn minimum(&self) -> (found: Result<u64, HistogramError>)
        requires
            self.wf(),
        ensures
            found == self@.percentile(0, 1),
    {
        self.percentile(0, 1)
    }

    /// The largest sample: the percentile 100.
    pub fn maximum(&self) -> (found: Result<u64, HistogramError>)
        requires
            self.wf(),
        ensures
            found == self@.percentile(100, 1),
    {
        self.percentile(100, 1)
    }

    /// The mean of the stored samples over all entries, rounded up.
    pub fn mean(&self) -> (mean: Result<u64, HistogramError>)
        requires
            self.wf(),
        ensures
            mean == self@.mean(),
    {
        proof {
            self.properties.lemma_describes_wf(self.config);
        }
        let total: u64 = self.data.counters.entries_total;
        if total < 1 {
            return Err(HistogramError::NoData);
        }
        Ok(mean_of(&self.properties, &self.data.data, total))
    }

    /// The variance of the stored samples about the mean, rounded up.
    pub fn stdvar(&self) -> (variance: Result<u64, HistogramError>)
        requires
            self.wf(),
        ensures
            variance == self@.stdvar(),
    {
        proof {
            self.properties.lemma_describes_wf(self.config);
        }
        let total: u64 = self.data.counters.entries_total;
        if total < 1 {
            return Err(HistogramError::NoData);
        }
        let center: u64 = mean_of(&self.properties, &self.data.data, total);
        Ok(variance_of(&self.properties, &self.data.data, center, total))
    }

    /// The standard deviation of the stored samples, rounded up; none
    /// without entries.
    pub fn stddev(&self) -> (deviation: Option<u64>)
        requires
            self.wf(),
        ensures
            deviation == self@.stddev(),
    {
        match self.stdvar() {
            Ok(variance) => Some(ceil_sqrt_u64(variance)),
            Err(_) => None,
        }
    }

    /// Records every bucket of `other` in this histogram, each with the
    /// sample that stands for it and with its counter. The traversal of
    /// `other` is left at its first bucket.
    pub fn merge(&mut self, other: &mut Histogram)
        requires
            old(self).wf(),
            old(other).wf(),
        ensures
            final(self).wf(),
            final(self)@ == old(self)@.merged(old(other)@),
            old(other)@.counters.missed() == 0 ==> final(self)@.counters.entries_total == saturate(
                old(self)@.counters.entries_total + old(other)@.counters.entries_total,
            ),
            final(other).wf(),
            final(other)@ == (HistogramView { cursor: 0, ..old(other)@ }),
    {
        proof {
            other.properties.lemma_describes_wf(other.config);
            if other@.counters.missed() == 0 {
                lemma_merge_adds_entries(self@, other@);
            }
        }
        other.data.iterator = 0;
        let mut at: usize = 0;
        while at < other.data.data.len()
            invariant
                at <= other.data.data.len(),
                other.wf(),
                other.properties.wf(),
                other@ == (HistogramView { cursor: 0, ..old(other)@ }),
                self.wf(),
                self@ == old(self)@.absorbed(old(other)@, at as nat),
            decreases other.data.data.len() - at,
        {
            let value: u64 = other.properties.index_value(at);
            let count: u64 = other.data.data[at];
            let _ = self.record(value, count);
            at = at + 1;
        }
    }
}

} // verus!
