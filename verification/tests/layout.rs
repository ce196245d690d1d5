use histogram::{Histogram, HistogramConfig};

#[test]
fn test_new_0() {
    // this histogram has only a linear region which runs 1-15

    let mut c = HistogramConfig::new();
    c.max_value(10).precision(1);
    let h = Histogram::configured(c).unwrap();

    assert_eq!(h.properties().buckets_inner, 10); // 10 ^ precision
    assert_eq!(h.properties().buckets_outer, 0); // max <= 2 * buckets_inner
    assert_eq!(h.properties().buckets_total, 15); // only linear region
}

#[test]
fn test_new_1() {
    // this histogram has linear and log regions

    let mut c = HistogramConfig::new();
    c.max_value(31).precision(1);
    let h = Histogram::configured(c).unwrap();

    assert_eq!(h.properties().buckets_inner, 10); // 10 ^ precision
    assert_eq!(h.properties().buckets_outer, 1); // max <= 2 * buckets_inner
    assert_eq!(h.properties().buckets_total, 25); // only linear region
}

#[test]
fn test_new_2() {
    let mut c = HistogramConfig::new();
    c.max_value(32).precision(1);
    let h = Histogram::configured(c).unwrap();

    assert_eq!(h.properties().buckets_inner, 10); // 10 ^ precision
    assert_eq!(h.properties().buckets_outer, 2); // max <= 2 * buckets_inner
    assert_eq!(h.properties().buckets_total, 35); // only linear region
}

#[test]
fn test_new_3() {
    let mut c = HistogramConfig::new();
    c.max_value(10_000).precision(3);
    let h = Histogram::configured(c).unwrap();

    assert_eq!(h.properties().buckets_inner, 1000); // 10 ^ precision
    assert_eq!(h.properties().buckets_outer, 4); // max <= 2 * buckets_inner
    assert_eq!(h.properties().buckets_total, 5023); // only linear region
}

#[test]
fn test_get_index_0() {
    let mut c = HistogramConfig::new();
    c.max_value(32).precision(3);
    let h = Histogram::configured(c).unwrap();

    // all values should index directly to (value - 1)
    // no estimated buckets are needed given the precision and max

    assert_eq!(h.get_index(1), Some(0));
    assert_eq!(h.index_value(0), 1);

    assert_eq!(h.get_index(2), Some(1));
    assert_eq!(h.index_value(1), 2);

    assert_eq!(h.get_index(3), Some(2));
    assert_eq!(h.index_value(2), 3);

    assert_eq!(h.get_index(4), Some(3));
    assert_eq!(h.index_value(3), 4);

    assert_eq!(h.get_index(5), Some(4));
    assert_eq!(h.index_value(4), 5);

    assert_eq!(h.get_index(16), Some(15));
    assert_eq!(h.index_value(15), 16);

    assert_eq!(h.get_index(32), Some(31));
    assert_eq!(h.index_value(31), 32);
}

#[test]
fn test_get_index_1() {
    let mut c = HistogramConfig::new();
    c.max_value(100).precision(1);
    let h = Histogram::configured(c).unwrap();

    assert_eq!(h.get_index(1), Some(0));
    assert_eq!(h.get_index(2), Some(1));
    assert_eq!(h.get_index(15), Some(14));

    // powers of two are 10 apart from value = 16 and up
    assert_eq!(h.get_index(16), Some(15));
    assert_eq!(h.get_index(32), Some(25));
    assert_eq!(h.get_index(64), Some(35));

    // this tests that rounding up within inner bucket works
    assert_eq!(h.get_index(16), Some(15));
    assert_eq!(h.get_index(17), Some(15));
    assert_eq!(h.get_index(18), Some(16));
    assert_eq!(h.get_index(19), Some(16));

    // these values prove roll-up into next outer bucket works
    assert_eq!(h.get_index(62), Some(34));
    assert_eq!(h.get_index(63), Some(34));
    assert_eq!(h.get_index(64), Some(35));

    assert_eq!(h.get_index(65), Some(35));
}

#[test]
fn test_get_index_2() {
    // extensive test from precomputed table
    let mut c = HistogramConfig::new();
    c.max_value(100).precision(1);
    let h = Histogram::configured(c).unwrap();

    let v = vec![1, 2, 3, 4, 5, 6, 7, 8, 9, 10, 11, 12, 13, 14, 15, 16, 18, 20, 21, 23, 24,
                 26, 28, 29, 31, 32, 36, 39, 42, 45, 48, 52, 55, 58, 61, 64, 71, 77, 84, 90,
                 96, 103, 109, 116, 122];

    for index in 0..45 {
        let got = h.get_index(v[index]).unwrap();
        assert!(got == index,
                "Value: {} Got: {} Want: {}",
                v[index],
                got,
                index);
    }

    for index in 0..45 {
        let got = h.index_value(index);
        assert!(got == v[index],
                "Index: {} Got: {} Want: {}",
                index,
                got,
                v[index]);
    }
}

#[test]
fn test_get_index_3() {
    // extensive test from precomputed table
    let mut c = HistogramConfig::new();
    c.max_value(250).precision(1);
    let h = Histogram::configured(c).unwrap();

    let v = vec![1, 2, 3, 4, 5, 6, 7, 8, 9, 10, 11, 12, 13, 14, 15, 16, 18, 20, 21, 23, 24,
                 26, 28, 29, 31, 32, 36, 39, 42, 45, 48, 52, 55, 58, 61, 64, 71, 77, 84, 90,
                 96, 103, 109, 116, 122, 128, 141, 154, 167, 180, 192, 205, 218, 231, 244];

    for index in 0..55 {
        let got = h.get_index(v[index]).unwrap();
        assert!(got == index,
                "Value: {} Got: {} Want: {}",
                v[index],
                got,
                index);
    }

    for index in 0..55 {
        let got = h.index_value(index);
        assert!(got == v[index],
                "Index: {} Got: {} Want: {}",
                index,
                got,
                v[index]);
    }
}

#[test]
fn test_index_value_0() {
    let mut c = HistogramConfig::new();
    c.max_value(100).precision(1);
    let h = Histogram::configured(c).unwrap();

    assert_eq!(h.index_value(0), 1);
    assert_eq!(h.index_value(1), 2);
    assert_eq!(h.index_value(14), 15);

    assert_eq!(h.index_value(15), 16);
    assert_eq!(h.index_value(25), 32);
    assert_eq!(h.index_value(35), 64);
}

#[test]
fn test_index_value_1() {
    let mut c = HistogramConfig::new();
    c.max_value(1_000).precision(2);
    let h = Histogram::configured(c).unwrap();

    assert_eq!(h.index_value(0), 1);
    assert_eq!(h.index_value(1), 2);
    assert_eq!(h.index_value(126), 127);

    assert_eq!(h.index_value(127), 128);
    assert_eq!(h.index_value(227), 256);
    assert_eq!(h.index_value(327), 512);
}

#[test]
fn test_index_value_2() {
    let mut c = HistogramConfig::new();
    c.max_value(10_000).precision(3);
    let h = Histogram::configured(c).unwrap();

    assert_eq!(h.index_value(0), 1);
    assert_eq!(h.index_value(1), 2);
    assert_eq!(h.index_value(1022), 1023);

    assert_eq!(h.index_value(1023), 1024);
    assert_eq!(h.index_value(2023), 2048);
    assert_eq!(h.index_value(3023), 4096);
    assert_eq!(h.index_value(4023), 8192);
}

#[test]
fn standard_settings() {
    let c = HistogramConfig::new();
    assert_eq!(c.precision, 3);
    assert_eq!(c.max_memory, 0);
    assert_eq!(c.max_value, 60_000_000_000);
    assert_eq!(c.radix, 10);

    let d = HistogramConfig::default();
    assert_eq!(d.precision, 3);
    assert_eq!(d.max_memory, 0);
    assert_eq!(d.max_value, 60_000_000_000);
    assert_eq!(d.radix, 10);
}

#[test]
fn setters_change_one_field_each() {
    let mut c = HistogramConfig::new();
    c.precision(4);
    assert_eq!((c.precision, c.max_memory, c.max_value, c.radix), (4, 0, 60_000_000_000, 10));
    c.max_memory(1024 * 1024);
    assert_eq!((c.precision, c.max_memory, c.max_value, c.radix), (4, 1024 * 1024, 60_000_000_000, 10));
    c.max_value(1000);
    assert_eq!((c.precision, c.max_memory, c.max_value, c.radix), (4, 1024 * 1024, 1000, 10));
}

#[test]
fn buckets_total_of_known_settings() {
    let h = Histogram::new().unwrap();
    assert_eq!(h.buckets_total(), 27023);

    let mut c = HistogramConfig::new();
    c.max_value(1_000_000_000);
    let h = Histogram::configured(c).unwrap();
    assert_eq!(h.buckets_total(), 21023);

    c.precision(4);
    let h = Histogram::configured(c).unwrap();
    assert_eq!(h.buckets_total(), 176383);

    c.precision(2);
    let h = Histogram::configured(c).unwrap();
    assert_eq!(h.buckets_total(), 2427);
}

#[test]
fn layout_of_standard_settings() {
    let h = Histogram::new().unwrap();
    let p = h.properties();
    assert_eq!(p.buckets_inner, 1000);
    assert_eq!(p.linear_power, 10);
    assert_eq!(p.linear_max, 1023);
    assert_eq!(p.buckets_outer, 26);
    assert_eq!(p.buckets_total, 27023);
    assert_eq!(p.memory_used, 648552);
    assert_eq!(h.config().max_value, 60_000_000_000);
}

#[test]
fn layout_with_other_radix() {
    let mut c = HistogramConfig::new();
    c.max_value(1000).precision(4);
    c.radix = 2;
    let p = Histogram::configured(c).unwrap().properties();
    assert_eq!(p.buckets_inner, 16);
    assert_eq!(p.linear_power, 5);
    assert_eq!(p.linear_max, 31);
    assert_eq!(p.buckets_outer, 5);
    assert_eq!(p.buckets_total, 111);
    assert_eq!(p.memory_used, 2664);

    c.radix = 3;
    c.precision(2).max_value(500);
    let p = Histogram::configured(c).unwrap().properties();
    assert_eq!(p.buckets_inner, 9);
    assert_eq!(p.linear_power, 4);
    assert_eq!(p.linear_max, 15);
    assert_eq!(p.buckets_outer, 5);
    assert_eq!(p.buckets_total, 60);
}

#[test]
fn layout_with_precision_zero() {
    let mut c = HistogramConfig::new();
    c.max_value(1).precision(0);
    let p = Histogram::configured(c).unwrap().properties();
    assert_eq!(p.buckets_inner, 1);
    assert_eq!(p.linear_max, 1);
    assert_eq!(p.buckets_outer, 0);
    assert_eq!(p.buckets_total, 1);

    c.max_value(100);
    let p = Histogram::configured(c).unwrap().properties();
    assert_eq!(p.buckets_outer, 6);
    assert_eq!(p.buckets_total, 7);
}

#[test]
fn layout_for_the_largest_maximum() {
    let mut c = HistogramConfig::new();
    c.max_value(u64::MAX);
    let h = Histogram::configured(c).unwrap();
    assert_eq!(h.properties().buckets_outer, 54);
    assert_eq!(h.buckets_total(), 55023);
    assert_eq!(h.get_index(u64::MAX), Some(55022));
    assert_eq!(h.index_value(55022), 18437520701672696841);
}

#[test]
fn memory_limit_decides_construction() {
    // 27023 buckets of 24 bytes
    let mut c = HistogramConfig::new();
    c.max_memory(648552);
    assert!(Histogram::configured(c).is_some());
    c.max_memory(648551);
    assert!(Histogram::configured(c).is_none());
    c.max_memory(1);
    assert!(Histogram::configured(c).is_none());
    c.max_memory(0);
    assert!(Histogram::configured(c).is_some());
    c.max_memory(u32::MAX);
    assert!(Histogram::configured(c).is_some());
}

#[test]
fn memory_limit_refuses_what_does_not_fit_in_32_bits() {
    let mut c = HistogramConfig::new();
    c.precision(9).max_memory(u32::MAX);
    assert!(Histogram::configured(c).is_none());
    c.precision(40);
    assert!(Histogram::configured(c).is_none());
}

#[test]
fn linear_region_is_exact() {
    let mut c = HistogramConfig::new();
    c.max_value(100_000).precision(2);
    let h = Histogram::configured(c).unwrap();
    let linear_max = h.properties().linear_max;
    assert_eq!(linear_max, 127);
    for v in 1..=linear_max {
        assert_eq!(h.get_index(v), Some((v - 1) as usize));
        assert_eq!(h.index_value((v - 1) as usize), v);
    }
}

#[test]
fn representative_stays_close_above_the_linear_region() {
    let mut c = HistogramConfig::new();
    c.max_value(100_000).precision(2);
    let h = Histogram::configured(c).unwrap();
    let p = h.properties();
    for v in (p.linear_max + 1)..=100_000 {
        let index = h.get_index(v).unwrap();
        let r = h.index_value(index);
        let outer = 63 - v.leading_zeros();
        let base = 1u64 << outer;
        assert!(base <= r && r <= v && v < 2 * base);
        let width = (base + p.buckets_inner as u64 - 1) / p.buckets_inner as u64;
        assert!(v - r <= width);
        assert!((v - r) * (p.buckets_inner as u64) < base);
        assert_eq!(h.get_index(r), Some(index));
    }
}

#[test]
fn every_bucket_counts_its_own_representative() {
    let mut c = HistogramConfig::new();
    c.max_value(1_000_000).precision(3);
    let h = Histogram::configured(c).unwrap();
    for index in 0..h.buckets_total() as usize {
        assert_eq!(h.get_index(h.index_value(index)), Some(index));
    }
}

#[test]
fn no_index_for_zero_or_beyond_the_last_bucket() {
    let mut c = HistogramConfig::new();
    c.max_value(100).precision(1);
    let h = Histogram::configured(c).unwrap();
    assert_eq!(h.get_index(0), None);
    assert_eq!(h.get_index(127), Some(44));
    assert_eq!(h.get_index(128), None);
    assert_eq!(h.get_index(u64::MAX), None);
}

#[test]
fn larger_samples_fall_in_later_buckets() {
    let mut c = HistogramConfig::new();
    c.max_value(50_000).precision(2);
    let h = Histogram::configured(c).unwrap();
    let mut last = h.get_index(1).unwrap();
    for v in 2..=50_000 {
        let index = h.get_index(v).unwrap();
        assert!(last <= index && index <= last + 1);
        last = index;
    }
}

#[test]
fn later_buckets_stand_for_larger_samples() {
    let mut c = HistogramConfig::new();
    c.max_value(u64::MAX).precision(2);
    let h = Histogram::configured(c).unwrap();
    let mut last = h.index_value(0);
    for index in 1..h.buckets_total() as usize {
        let value = h.index_value(index);
        assert!(last < value);
        last = value;
    }
}
