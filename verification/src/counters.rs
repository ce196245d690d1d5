//! The counters of a histogram beside its buckets, and what a traversal
//! hands out.

use vstd::prelude::*;

verus! {

/// The number of entries recorded, and how many of them no bucket holds.
#[derive(Clone, Copy, Debug)]
pub struct HistogramCounters {
    /// Every entry that was recorded, stored or not.
    pub entries_total: u64,
    /// Entries inside the configured range for which no bucket was found.
    pub missed_unknown: u64,
    /// Entries whose sample was smaller than one.
    pub missed_small: u64,
    /// Entries whose sample was larger than the configured maximum.
    pub missed_large: u64,
}

impl Default for HistogramCounters {
    fn default() -> (counters: HistogramCounters)
        ensures
            counters == HistogramCounters::zero(),
    {
        HistogramCounters { entries_total: 0, missed_unknown: 0, missed_small: 0, missed_large: 0 }
    }
}

impl HistogramCounters {
    /// Counters that have counted nothing.
    pub open spec fn zero() -> HistogramCounters {
        HistogramCounters { entries_total: 0, missed_unknown: 0, missed_small: 0, missed_large: 0 }
    }

    /// The entries that no bucket holds.
    pub open spec fn missed(self) -> int {
        self.missed_unknown + self.missed_small + self.missed_large
    }

    /// Counters that have counted nothing.
    pub fn new() -> (counters: HistogramCounters)
        ensures
            counters == HistogramCounters::zero(),
    {
        HistogramCounters { entries_total: 0, missed_unknown: 0, missed_small: 0, missed_large: 0 }
    }

    /// Sets every counter back to zero.
    pub fn clear(&mut self) -> (counters: &mut Self)
        ensures
            *counters == HistogramCounters::zero(),
            *final(self) == *final(counters),
    {
        self.entries_total = 0;
        self.missed_unknown = 0;
        self.missed_small = 0;
        self.missed_large = 0;
        self
    }
}

/// What a histogram holds beside its settings: the buckets, the counters
/// and the position of its traversal.
#[derive(Debug)]
pub struct HistogramData {
    /// One counter per bucket.
    pub data: Vec<u64>,
    /// The counters beside the buckets.
    pub counters: HistogramCounters,
    /// The index of the bucket that the traversal hands out next.
    pub iterator: usize,
}

impl Clone for HistogramData {
    fn clone(&self) -> (copy: Self)
        ensures
            copy.data@ == self.data@,
            copy.counters == self.counters,
            copy.iterator == self.iterator,
    {
        let data = self.data.clone();
        HistogramData { data, counters: self.counters, iterator: self.iterator }
    }
}

/// One bucket as a traversal hands it out.
#[derive(Clone, Copy, Debug)]
pub struct HistogramBucket {
    /// The sample that stands for the bucket.
    pub value: u64,
    /// The bucket's counter.
    pub count: u64,
    /// The bucket's index.
    pub id: u64,
}

impl HistogramBucket {
    /// The sample that stands for the bucket.
    pub fn value(self) -> (value: u64)
        ensures
            value == self.value,
    {
        self.value
    }

    /// The bucket's counter.
    pub fn count(self) -> (count: u64)
        ensures
            count == self.count,
    {
        self.count
    }

    /// The bucket's index.
    pub fn id(self) -> (id: u64)
        ensures
            id == self.id,
    {
        self.id
    }
}

} // verus!
