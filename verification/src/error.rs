//! The failures that recording and querying can report.

use vstd::prelude::*;

verus! {

/// Why an operation on a histogram did not produce a result.
#[derive(Clone, Copy, Debug, PartialEq, Eq, Structural)]
pub enum HistogramError {
    /// A recorded sample was smaller than one.
    ValueTooSmall,
    /// A recorded sample was larger than the configured maximum.
    ValueTooLarge,
    /// No bucket could be found for a sample inside the configured range.
    UnknownError,
    /// A statistic was requested of a histogram without entries.
    NoData,
    /// The samples that were too small to store already cover the requested rank.
    Underflow,
    /// The samples that were too large to store already cover the requested rank.
    Overflow,
    /// The requested percentile is not a percentage, or no bucket reached the rank.
    UnknownFailure,
}

impl HistogramError {
    /// A short description of the failure.
    pub fn message(self) -> (text: &'static str)
        ensures
            text@ == self.message_text(),
    {
        match self {
            HistogramError::ValueTooSmall => "sample value too small",
            HistogramError::ValueTooLarge => "sample value too large",
            HistogramError::UnknownError => "sample unknown error",
            HistogramError::NoData => "no data",
            HistogramError::Underflow => "underflow",
            HistogramError::Overflow => "overflow",
            HistogramError::UnknownFailure => "unknown failure",
        }
    }

    /// The characters of [`HistogramError::message`].
    pub open spec fn message_text(self) -> Seq<char> {
        match self {
            HistogramError::ValueTooSmall => "sample value too small"@,
            HistogramError::ValueTooLarge => "sample value too large"@,
            HistogramError::UnknownError => "sample unknown error"@,
            HistogramError::NoData => "no data"@,
            HistogramError::Underflow => "underflow"@,
            HistogramError::Overflow => "overflow"@,
            HistogramError::UnknownFailure => "unknown failure"@,
        }
    }
}

} // verus!
