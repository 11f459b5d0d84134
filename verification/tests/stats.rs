use gyroflow_bench::binary64::Binary64;
use gyroflow_bench::result::{Derived, Summary};
use gyroflow_bench::stats::{percentile, summarize, Quantile};

fn value(q: &Quantile) -> f64 {
    let frac = q.hundredths as f64 / 100.0;
    q.below as f64 * (1.0 - frac) + q.above as f64 * frac
}

/// Linear interpolation between the closest ranks, in floating point.
fn interpolated(sorted: &[u64], pct: f64) -> f64 {
    let rank = (pct / 100.0) * (sorted.len() - 1) as f64;
    let lo = rank.floor() as usize;
    let hi = rank.ceil() as usize;
    if lo == hi {
        return sorted[lo] as f64;
    }
    let frac = rank - lo as f64;
    sorted[lo] as f64 * (1.0 - frac) + sorted[hi] as f64 * frac
}

#[test]
fn median_of_even_count_lies_halfway() {
    let s = summarize(&[40, 10, 30, 20]);
    assert_eq!(s.sorted, vec![10, 20, 30, 40]);
    assert_eq!(s.median, Quantile { rank: 1, below: 20, above: 30, hundredths: 50 });
    assert_eq!(value(&s.median), 25.0);
    assert_eq!(s.total_us, 100);
    assert_eq!(s.min_us, 10);
    assert_eq!(s.max_us, 40);
    assert_eq!(s.samples, 4);
}

#[test]
fn median_of_odd_count_is_a_sample() {
    let s = summarize(&[5, 1, 9]);
    assert_eq!(s.median, Quantile { rank: 1, below: 5, above: 5, hundredths: 0 });
}

#[test]
fn upper_quantiles_interpolate() {
    let samples: Vec<u64> = (1..=10).map(|x| x * 100).collect();
    let s = summarize(&samples);
    assert_eq!(s.p95, Quantile { rank: 8, below: 900, above: 1000, hundredths: 55 });
    assert_eq!(s.p99, Quantile { rank: 8, below: 900, above: 1000, hundredths: 91 });
    assert_eq!(value(&s.p95), 955.0);
}

#[test]
fn no_samples_give_zeros() {
    let s = summarize(&[]);
    assert_eq!(s.samples, 0);
    assert_eq!(s.total_us, 0);
    assert_eq!(s.min_us, 0);
    assert_eq!(s.max_us, 0);
    assert_eq!(s.median, Quantile { rank: 0, below: 0, above: 0, hundredths: 0 });
    assert_eq!(percentile(&[], 95), Quantile { rank: 0, below: 0, above: 0, hundredths: 0 });
}

#[test]
fn one_sample_is_every_statistic() {
    let s = summarize(&[7]);
    assert_eq!(s.p99, Quantile { rank: 0, below: 7, above: 7, hundredths: 0 });
    assert_eq!((s.min_us, s.max_us), (7, 7));
}

#[test]
fn total_exceeds_64_bits() {
    let s = summarize(&[u64::MAX, u64::MAX]);
    assert_eq!(s.total_us, 2 * u64::MAX as u128);
}

#[test]
fn ranks_agree_with_floating_point() {
    for n in 1..400usize {
        let sorted: Vec<u64> = (0..n as u64).map(|i| i * i).collect();
        for pct in [50u64, 95, 99] {
            let q = percentile(&sorted, pct);
            let expected = interpolated(&sorted, pct as f64);
            assert_eq!(q.rank, ((pct as f64 / 100.0) * (n - 1) as f64).floor() as usize);
            assert!((value(&q) - expected).abs() <= 1e-9 * (1.0 + expected));
        }
    }
}

#[test]
fn quantiles_are_ordered() {
    let s = summarize(&[3, 1, 4, 1, 5, 9, 2, 6, 5, 3, 5]);
    assert!(s.min_us as f64 <= value(&s.median));
    assert!(value(&s.median) <= value(&s.p95));
    assert!(value(&s.p95) <= value(&s.p99));
    assert!(value(&s.p99) <= s.max_us as f64);
}

#[test]
fn order_of_samples_does_not_matter() {
    let a = summarize(&[8, 3, 5, 3]);
    let b = summarize(&[3, 3, 8, 5]);
    assert_eq!(a.sorted, b.sorted);
    assert_eq!(a.median, b.median);
    assert_eq!(a.total_us, b.total_us);
}

#[test]
fn summary_joins_counted_and_derived_statistics() {
    let stats = summarize(&[2, 1]);
    let bits = |x: f64| Binary64 { bits: x.to_bits() };
    let derived = Derived {
        mean_us: bits(1.5),
        median_us: bits(1.5),
        p95_us: bits(1.95),
        p99_us: bits(1.99),
        stddev_us: bits(0.5),
    };
    let s = Summary::new(&stats, derived);
    assert_eq!(s.mean_us, bits(1.5));
    assert_eq!(s.stddev_us, bits(0.5));
    assert_eq!((s.min_us, s.max_us, s.samples), (1, 2, 2));
    assert_eq!(Summary::empty().samples, 0);
    assert_eq!(Summary::empty().p99_us, bits(0.0));
}
