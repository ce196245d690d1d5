//! A histogram in fixed memory. It counts whole samples from one up to a
//! configured maximum, the small ones exactly and the large ones with a
//! fixed relative resolution, and answers questions about percentiles, the
//! mean and the standard deviation.
//!
//! The layout of the buckets is derived in `geometry`, and `mapping` takes
//! samples to bucket indices and back. `model` says what a histogram is and
//! what each operation makes of it; `histogram` holds the operations
//! themselves. `rank` and `moments` compute the statistics, and `laws`
//! states what holds across operations.

pub mod bits;
pub mod config;
pub mod counters;
pub mod error;
pub mod geometry;
pub mod histogram;
pub mod laws;
pub mod mapping;
pub mod model;
pub mod moments;
pub mod rank;
pub mod rounding;
pub mod tally;

pub use crate::config::HistogramConfig;
pub use crate::counters::{HistogramBucket, HistogramCounters, HistogramData};
pub use crate::error::HistogramError;
pub use crate::geometry::HistogramProperties;
pub use crate::histogram::Histogram;
