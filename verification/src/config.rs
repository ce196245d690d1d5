//! What a histogram is built from.

use vstd::prelude::*;

verus! {

/// The settings of a histogram. They are fixed once the histogram is built.
#[derive(Clone, Copy, Debug)]
pub struct HistogramConfig {
    /// How many digits of a sample, in base `radix`, are kept exact.
    pub precision: u32,
    /// The most bytes that the buckets may take; zero sets no limit.
    pub max_memory: u32,
    /// The largest sample that is stored.
    pub max_value: u64,
    /// The base in which `precision` counts digits.
    pub radix: u32,
}

impl Default for HistogramConfig {
    fn default() -> (config: HistogramConfig)
        ensures
            config == HistogramConfig::standard(),
    {
        HistogramConfig { precision: 3, max_memory: 0, max_value: 60_000_000_000, radix: 10 }
    }
}

impl HistogramConfig {
    /// Three decimal digits, samples up to sixty billion, no memory limit.
    pub open spec fn standard() -> HistogramConfig {
        HistogramConfig { precision: 3, max_memory: 0, max_value: 60_000_000_000, radix: 10 }
    }

    /// The standard settings.
    pub fn new() -> (config: HistogramConfig)
        ensures
            config == HistogramConfig::standard(),
    {
        HistogramConfig { precision: 3, max_memory: 0, max_value: 60_000_000_000, radix: 10 }
    }

    /// Sets the number of exact digits.
    pub fn precision(&mut self, precision: u32) -> (config: &mut Self)
        ensures
            *config == (HistogramConfig { precision, ..*old(self) }),
            *final(self) == *final(config),
    {
        self.precision = precision;
        self
    }

    /// Sets the memory limit in bytes; zero sets none.
    pub fn max_memory(&mut self, bytes: u32) -> (config: &mut Self)
        ensures
            *config == (HistogramConfig { max_memory: bytes, ..*old(self) }),
            *final(self) == *final(config),
    {
        self.max_memory = bytes;
        self
    }

    /// Sets the largest sample that is stored.
    pub fn max_value(&mut self, max: u64) -> (config: &mut Self)
        ensures
            *config == (HistogramConfig { max_value: max, ..*old(self) }),
            *final(self) == *final(config),
    {
        self.max_value = max;
        self
    }
}

} // verus!
