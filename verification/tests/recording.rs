use histogram::{Histogram, HistogramConfig, HistogramCounters, HistogramError};

#[test]
fn test_increment_0() {
    let mut h = Histogram::new().unwrap();

    for op in 1..1000000 {
        h.increment(1).unwrap();
        assert_eq!(h.entries(), op);
    }
}

#[test]
fn test_increment_1() {
    let mut c = HistogramConfig::new();
    c.max_value(10).precision(3);
    let mut h = Histogram::configured(c).unwrap();

    // increment values across the entire range
    // including 0 and > max_value
    for v in 1..11 {
        h.increment(v).unwrap();
        assert_eq!(h.entries(), v);
    }
}

#[test]
fn test_get() {
    let mut h = Histogram::new().unwrap();

    h.increment(1).unwrap();
    assert_eq!(h.get(1), Some(1));

    h.increment(1).unwrap();
    assert_eq!(h.get(1), Some(2));

    h.increment(2).unwrap();
    assert_eq!(h.get(2), Some(1));

    assert_eq!(h.get(3), Some(0));
}

#[test]
fn test_iterator() {
    let mut c = HistogramConfig::new();
    c.max_value(100).precision(1);
    let mut h = Histogram::configured(c).unwrap();

    loop {
        match h.next() {
            Some(bucket) => {
                match h.increment(bucket.value) {
                    Ok(_) => {}
                    Err(_) => {}
                }
            }
            None => {
                break;
            }
        }
    }
}

#[test]
fn record_adds_counts() {
    let mut h = Histogram::new().unwrap();

    h.record(1, 1).unwrap();
    assert_eq!(h.get(1).unwrap(), 1);

    h.record(2, 2).unwrap();
    assert_eq!(h.get(2).unwrap(), 2);

    h.record(10, 10).unwrap();
    assert_eq!(h.get(10).unwrap(), 10);

    assert_eq!(h.entries(), 13);
}

#[test]
fn record_too_small() {
    let mut h = Histogram::new().unwrap();
    assert_eq!(h.record(0, 3), Err(HistogramError::ValueTooSmall));
    assert_eq!(h.entries(), 3);
    let counters = h.counters();
    assert_eq!(counters.entries_total, 3);
    assert_eq!(counters.missed_small, 3);
    assert_eq!(counters.missed_large, 0);
    assert_eq!(counters.missed_unknown, 0);
    assert_eq!(h.get(0), None);
}

#[test]
fn record_too_large() {
    let mut c = HistogramConfig::new();
    c.max_value(1_000).precision(4);
    let mut h = Histogram::configured(c).unwrap();
    assert_eq!(h.increment(1_001), Err(HistogramError::ValueTooLarge));
    assert_eq!(h.record(5_000, 4), Err(HistogramError::ValueTooLarge));
    assert_eq!(h.entries(), 5);
    let counters = h.counters();
    assert_eq!(counters.missed_large, 5);
    assert_eq!(counters.missed_small, 0);
    assert_eq!(counters.missed_unknown, 0);
    assert_eq!(h.get(5_000), None);
    assert_eq!(h.get(1_001), None);
    assert_eq!(h.get(1_000), Some(0));
    for index in 0..h.buckets_total() as usize {
        assert_eq!(h.get(h.index_value(index)).unwrap_or(0), 0);
    }
}

#[test]
fn record_at_the_edges_of_the_range() {
    let mut c = HistogramConfig::new();
    c.max_value(1_000).precision(2);
    let mut h = Histogram::configured(c).unwrap();
    assert_eq!(h.increment(1), Ok(()));
    assert_eq!(h.increment(1_000), Ok(()));
    assert_eq!(h.get(1), Some(1));
    assert_eq!(h.get(1_000), Some(1));
    assert_eq!(h.counters().missed_large, 0);
    assert_eq!(h.counters().missed_small, 0);
}

#[test]
fn samples_of_one_bucket_share_a_counter() {
    let mut c = HistogramConfig::new();
    c.max_value(100).precision(1);
    let mut h = Histogram::configured(c).unwrap();
    h.increment(16).unwrap();
    h.increment(17).unwrap();
    h.increment(18).unwrap();
    assert_eq!(h.get(16), Some(2));
    assert_eq!(h.get(17), Some(2));
    assert_eq!(h.get(18), Some(1));
    assert_eq!(h.get(19), Some(1));
}

#[test]
fn counters_stop_at_their_largest_value() {
    let mut h = Histogram::new().unwrap();
    h.record(7, u64::MAX - 1).unwrap();
    assert_eq!(h.entries(), u64::MAX - 1);
    h.record(7, 5).unwrap();
    assert_eq!(h.entries(), u64::MAX);
    assert_eq!(h.get(7), Some(u64::MAX));
    h.record(8, 2).unwrap();
    assert_eq!(h.entries(), u64::MAX);
    assert_eq!(h.get(8), Some(2));
    let _ = h.record(0, u64::MAX);
    let _ = h.record(0, u64::MAX);
    assert_eq!(h.counters().missed_small, u64::MAX);
}

#[test]
fn clear_resets_counters_and_keeps_layout() {
    let mut h = Histogram::new().unwrap();
    h.increment(1).unwrap();
    h.record(5_000, 7).unwrap();
    let _ = h.increment(0);
    let _ = h.increment(u64::MAX);
    assert_eq!(h.entries(), 10);
    let layout = h.properties();

    assert_eq!(h.clear(), Ok(()));

    assert_eq!(h.entries(), 0);
    assert_eq!(h.buckets_total(), 27023);
    assert_eq!(h.properties().buckets_total, layout.buckets_total);
    assert_eq!(h.properties().buckets_inner, layout.buckets_inner);
    assert_eq!(h.properties().linear_max, layout.linear_max);
    assert_eq!(h.config().max_value, 60_000_000_000);
    let counters = h.counters();
    assert_eq!(counters.missed_small, 0);
    assert_eq!(counters.missed_large, 0);
    assert_eq!(counters.missed_unknown, 0);
    assert_eq!(h.get(1), Some(0));
    assert_eq!(h.get(5_000), Some(0));
    loop {
        match h.next() {
            Some(bucket) => assert_eq!(bucket.count(), 0),
            None => break,
        }
    }
}

#[test]
fn counters_clear() {
    let mut counters = HistogramCounters::new();
    counters.entries_total = 9;
    counters.missed_small = 1;
    counters.missed_large = 2;
    counters.missed_unknown = 3;
    counters.clear();
    assert_eq!(counters.entries_total, 0);
    assert_eq!(counters.missed_small, 0);
    assert_eq!(counters.missed_large, 0);
    assert_eq!(counters.missed_unknown, 0);
}

#[test]
fn traversal_hands_out_every_bucket_and_restarts() {
    let mut c = HistogramConfig::new();
    c.max_value(100).precision(1);
    let mut h = Histogram::configured(c).unwrap();
    h.record(20, 3).unwrap();

    for round in 0..2 {
        let mut seen = 0u64;
        loop {
            match h.next() {
                Some(bucket) => {
                    assert_eq!(bucket.id(), seen);
                    assert_eq!(bucket.value(), h.index_value(seen as usize));
                    assert_eq!(bucket.count(), if seen == 17 { 3 } else { 0 });
                    seen += 1;
                }
                None => break,
            }
        }
        assert_eq!(seen, 45, "round {}", round);
    }

    let first = h.next().unwrap();
    assert_eq!((first.id(), first.value(), first.count()), (0, 1, 0));
}

#[test]
fn merge_adds_the_entries() {
    let mut a = Histogram::new().unwrap();
    let mut b = Histogram::new().unwrap();

    assert_eq!(a.entries(), 0);
    assert_eq!(b.entries(), 0);

    a.increment(1).unwrap();
    b.increment(2).unwrap();

    assert_eq!(a.entries(), 1);
    assert_eq!(b.entries(), 1);

    a.merge(&mut b);

    assert_eq!(a.entries(), 2);
    assert_eq!(a.get(1).unwrap(), 1);
    assert_eq!(a.get(2).unwrap(), 1);
    assert_eq!(b.entries(), 1);
    assert_eq!(b.get(2).unwrap(), 1);
}

#[test]
fn merge_between_different_layouts() {
    let mut c = HistogramConfig::new();
    c.max_value(100).precision(1);
    let mut coarse = Histogram::configured(c).unwrap();
    c.max_value(1_000).precision(3);
    let mut fine = Histogram::configured(c).unwrap();

    for v in 1..=100 {
        coarse.increment(v).unwrap();
    }
    fine.record(500, 2).unwrap();

    // the traversal of `coarse` is under way; merging takes every bucket all the same
    coarse.next();
    coarse.next();
    fine.merge(&mut coarse);

    assert_eq!(fine.entries(), 102);
    assert_eq!(fine.counters().missed_large, 0);
    assert_eq!(fine.get(16), Some(2));
    assert_eq!(fine.get(17), Some(0));
    assert_eq!(fine.get(96), Some(5));
    assert_eq!(fine.get(500), Some(2));
    assert_eq!(coarse.next().unwrap().id(), 0);

    // the other way, samples above the maximum of `coarse` are missed
    coarse.clear().unwrap();
    coarse.merge(&mut fine);
    assert_eq!(coarse.entries(), 102);
    assert_eq!(coarse.counters().missed_large, 2);
    assert_eq!(coarse.get(96), Some(5));
}

#[test]
fn merge_stops_at_the_largest_count() {
    let mut a = Histogram::new().unwrap();
    let mut b = Histogram::new().unwrap();
    a.record(3, u64::MAX - 1).unwrap();
    b.record(3, 1).unwrap();
    b.record(4, 1).unwrap();
    a.merge(&mut b);
    assert_eq!(a.entries(), u64::MAX);
    assert_eq!(a.get(3), Some(u64::MAX));
    assert_eq!(a.get(4), Some(1));
}

#[test]
fn clone_is_independent() {
    let mut a = Histogram::new().unwrap();
    a.increment(5).unwrap();
    let mut b = a.clone();
    b.increment(5).unwrap();
    assert_eq!(a.get(5), Some(1));
    assert_eq!(b.get(5), Some(2));
    assert_eq!(a.entries(), 1);
    assert_eq!(b.entries(), 2);
}

#[test]
fn error_messages() {
    assert_eq!(HistogramError::ValueTooSmall.message(), "sample value too small");
    assert_eq!(HistogramError::ValueTooLarge.message(), "sample value too large");
    assert_eq!(HistogramError::UnknownError.message(), "sample unknown error");
    assert_eq!(HistogramError::NoData.message(), "no data");
    assert_eq!(HistogramError::Underflow.message(), "underflow");
    assert_eq!(HistogramError::Overflow.message(), "overflow");
    assert_eq!(HistogramError::UnknownFailure.message(), "unknown failure");
}
