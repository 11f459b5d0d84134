use gyroflow_bench::bootstrap::{bootstrap_ci_pct, median, pool, Change, Interval, SimpleRng};
use gyroflow_bench::result::{Cell, IterationData, Summary};

fn cell(iterations: Vec<Vec<u64>>) -> Cell {
    Cell {
        backend: "cpu".to_string(),
        pixel_format: "rgba8".to_string(),
        iterations: iterations.into_iter().map(|frame_us| IterationData { frame_us }).collect(),
        summary: Summary::empty(),
        actual_backend: None,
        note: None,
    }
}

fn percent(c: Change) -> f64 {
    let bm = c.base as f64 / 2.0;
    let cm = c.cand as f64 / 2.0;
    (cm - bm) / bm * 100.0
}

fn float_median(v: &mut [u64]) -> f64 {
    v.sort_unstable();
    let n = v.len();
    if n % 2 == 1 {
        v[n / 2] as f64
    } else {
        (v[n / 2 - 1] as f64 + v[n / 2] as f64) / 2.0
    }
}

/// The same bootstrap with floating-point medians and changes.
fn float_bootstrap(b: &[u64], c: &[u64], iters: usize) -> (f64, f64) {
    let mut state: u64 = 0xC0FFEE | 1;
    let mut next = |bound: usize| {
        let mut x = state;
        x ^= x >> 12;
        x ^= x << 25;
        x ^= x >> 27;
        state = x;
        (x.wrapping_mul(0x2545F4914F6CDD1D) as usize) % bound
    };
    let mut deltas = Vec::new();
    for _ in 0..iters {
        let mut bb: Vec<u64> = (0..b.len()).map(|_| b[next(b.len())]).collect();
        let mut cc: Vec<u64> = (0..c.len()).map(|_| c[next(c.len())]).collect();
        let bm = float_median(&mut bb);
        let cm = float_median(&mut cc);
        if bm > 0.0 {
            deltas.push((cm - bm) / bm * 100.0);
        }
    }
    deltas.sort_by(|a, b| a.partial_cmp(b).unwrap());
    let lo = ((deltas.len() as f64) * 0.025) as usize;
    let hi = (((deltas.len() as f64) * 0.975) as usize).min(deltas.len() - 1);
    (deltas[lo], deltas[hi])
}

#[test]
fn generator_yields_the_known_sequence() {
    let mut rng = SimpleRng::new(0);
    assert_eq!(rng.next_u64(), 0x47e4ce4b896cdd1d);
    assert_eq!(rng.next_u64(), 0xabcfa6a8e079651d);
    let mut a = SimpleRng::new(6);
    let mut b = SimpleRng::new(7);
    assert_eq!(a.next_u64(), b.next_u64());
    assert!(SimpleRng::new(1).next_usize(10) < 10);
    assert_eq!(SimpleRng::new(99).next_usize(1), 0);
}

#[test]
fn doubled_medians() {
    let mut v = vec![9, 1, 5];
    assert_eq!(median(&mut v), 10);
    assert_eq!(v, vec![1, 5, 9]);
    assert_eq!(median(&mut vec![4, 1]), 5);
    assert_eq!(median(&mut vec![]), 0);
    assert_eq!(median(&mut vec![u64::MAX, u64::MAX]), 2 * u64::MAX as u128);
}

#[test]
fn pool_joins_iterations_in_order() {
    let c = cell(vec![vec![3, 1], vec![], vec![2]]);
    assert_eq!(pool(&c.iterations), vec![3, 1, 2]);
}

#[test]
fn interval_agrees_with_floating_point() {
    let b: Vec<u64> = (0..60).map(|i| 1000 + (i * 37) % 101).collect();
    let c: Vec<u64> = (0..45).map(|i| 1040 + (i * 53) % 97).collect();
    for iters in [1usize, 39, 40, 41, 200, 1000] {
        let ci = bootstrap_ci_pct(&cell(vec![b.clone()]), &cell(vec![c.clone()]), iters).unwrap();
        assert_eq!((percent(ci.lo), percent(ci.hi)), float_bootstrap(&b, &c, iters));
    }
}

#[test]
fn rounds_with_a_zero_baseline_are_left_out() {
    let b = vec![0, 0, 0, 5, 7];
    let c = vec![3, 4, 5];
    let ci = bootstrap_ci_pct(&cell(vec![b.clone()]), &cell(vec![c.clone()]), 300).unwrap();
    assert_eq!((percent(ci.lo), percent(ci.hi)), float_bootstrap(&b, &c, 300));
    assert_eq!(bootstrap_ci_pct(&cell(vec![vec![0, 0]]), &cell(vec![vec![1]]), 50), None);
}

#[test]
fn no_samples_give_no_interval() {
    assert_eq!(bootstrap_ci_pct(&cell(vec![]), &cell(vec![vec![1]]), 10), None);
    assert_eq!(bootstrap_ci_pct(&cell(vec![vec![1]]), &cell(vec![vec![]]), 10), None);
    assert_eq!(bootstrap_ci_pct(&cell(vec![vec![1]]), &cell(vec![vec![1]]), 0), None);
}

#[test]
fn constant_frame_times_give_the_change_itself() {
    let ci = bootstrap_ci_pct(&cell(vec![vec![100; 8]]), &cell(vec![vec![110; 5]]), 1000);
    let change = Change { base: 200, cand: 220 };
    assert_eq!(ci, Some(Interval { lo: change, hi: change }));
}

#[test]
fn interval_is_ordered_for_huge_frame_times() {
    let b = cell(vec![vec![u64::MAX, u64::MAX - 1, u64::MAX - 5]]);
    let c = cell(vec![vec![u64::MAX - 2, u64::MAX, 1 << 63]]);
    let ci = bootstrap_ci_pct(&b, &c, 500).unwrap();
    assert!(percent(ci.lo) <= percent(ci.hi));
}

#[test]
fn generator_does_not_get_stuck() {
    for seed in [0u64, 1, 0xC0FFEE, u64::MAX] {
        let mut rng = SimpleRng::new(seed);
        for _ in 0..10_000 {
            assert_ne!(rng.next_u64(), 0);
        }
    }
}

#[test]
fn equal_samples_give_equal_intervals() {
    let b: Vec<u64> = (0..20).map(|i| 500 + i * i % 17).collect();
    let c: Vec<u64> = (0..20).map(|i| 480 + i * i % 23).collect();
    let once = bootstrap_ci_pct(&cell(vec![b.clone()]), &cell(vec![c.clone()]), 1000);
    let split = vec![b[..7].to_vec(), b[7..].to_vec()];
    assert_eq!(bootstrap_ci_pct(&cell(split), &cell(vec![c]), 1000), once);
}

#[test]
fn clear_differences_are_found() {
    let fast = cell(vec![vec![100, 90, 101], vec![95]]);
    let slow = cell(vec![vec![102, 150], vec![200]]);
    let up = bootstrap_ci_pct(&fast, &slow, 1000).unwrap();
    assert!(up.lo.cand > up.lo.base && up.hi.cand > up.hi.base);
    let down = bootstrap_ci_pct(&slow, &fast, 1000).unwrap();
    assert!(down.lo.cand < down.lo.base && down.hi.cand < down.hi.base);
}
