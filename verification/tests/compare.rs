use gyroflow_bench::binary64::Binary64;
use gyroflow_bench::bootstrap::{Change, Interval};
use gyroflow_bench::compare::{
    bare_line, compare, judge, measured_line, short, side_line, table_header, table_rule, verdict, Outcome,
    Row, Side, Verdict,
};
use gyroflow_bench::result::{Cell, GitInfo, IterationData, Summary};

fn cell(backend: &str, format: &str, times: Vec<u64>, note: Option<&str>) -> Cell {
    let mut summary = Summary::empty();
    summary.samples = times.len();
    Cell {
        backend: backend.to_string(),
        pixel_format: format.to_string(),
        iterations: vec![IterationData { frame_us: times }],
        summary,
        actual_backend: None,
        note: note.map(|n| n.to_string()),
    }
}

fn b(x: f64) -> Binary64 {
    Binary64 { bits: x.to_bits() }
}

fn interval(lo: (u128, u128), hi: (u128, u128)) -> Option<Interval> {
    Some(Interval {
        lo: Change { base: lo.0, cand: lo.1 },
        hi: Change { base: hi.0, cand: hi.1 },
    })
}

#[test]
fn verdicts() {
    let up = interval((100, 104), (100, 120));
    let down = interval((100, 80), (100, 96));
    let across = interval((100, 99), (100, 120));
    assert_eq!(verdict(b(10.0), b(5.0), up), Verdict::Regression);
    assert_eq!(verdict(b(-10.0), b(5.0), down), Verdict::Win);
    assert_eq!(verdict(b(10.0), b(5.0), across), Verdict::Noise);
    assert_eq!(verdict(b(5.0), b(5.0), up), Verdict::Noise);
    assert_eq!(verdict(b(-5.0), b(5.0), down), Verdict::Noise);
    assert_eq!(verdict(b(f64::NAN), b(5.0), up), Verdict::Noise);
    assert_eq!(verdict(b(f64::INFINITY), b(5.0), up), Verdict::Regression);
    assert_eq!(verdict(b(10.0), b(5.0), None), Verdict::Noise);
    assert_eq!(verdict(b(10.0), b(5.0), interval((100, 100), (100, 110))), Verdict::Noise);
    assert_eq!(Verdict::Regression.name(), "REGRESSION");
    assert_eq!(Verdict::Win.name(), "WIN");
    assert_eq!(Verdict::Noise.name(), "noise");
}

#[test]
fn no_change_is_noise_and_opposite_changes_mirror() {
    let up = interval((100, 104), (100, 120));
    let mirrored = interval((120, 100), (104, 100));
    assert_eq!(verdict(b(0.0), b(0.0), up), Verdict::Noise);
    assert_eq!(verdict(b(-0.0), b(0.0), up), Verdict::Noise);
    assert_eq!(verdict(b(-10.0), b(5.0), mirrored), Verdict::Win);
}

fn with_median(times: Vec<u64>, median: f64) -> Cell {
    let mut c = cell("cpu", "rgba8", times, None);
    c.summary.median_us = b(median);
    c
}

fn change(base: f64, cand: f64) -> f64 {
    (cand - base) / base * 100.0
}

#[test]
fn equal_medians_have_the_change_that_arithmetic_gives() {
    for m in [1.0, 0.5, -3.0, 0.0, -0.0, f64::MAX, 5e-324, f64::INFINITY, f64::NEG_INFINITY, f64::NAN] {
        let c = with_median(vec![1], m);
        let r = judge(&c, &c, b(77.0), b(5.0), None);
        let (got, expected) = (f64::from_bits(r.change.bits), change(m, m));
        assert_eq!(got.is_nan(), expected.is_nan());
        assert!(got.is_nan() || r.change == b(expected));
    }
    let r = judge(&with_median(vec![1], 0.0), &with_median(vec![1], -0.0), b(77.0), b(5.0), None);
    assert!(f64::from_bits(r.change.bits).is_nan());
    let r = judge(&with_median(vec![1], 1.0), &with_median(vec![1], f64::NAN), b(77.0), b(5.0), None);
    assert!(f64::from_bits(r.change.bits).is_nan());
}

#[test]
fn different_medians_are_judged_by_the_computed_change() {
    let (fast, slow) = (with_median(vec![100, 110], 105.0), with_median(vec![120, 130], 125.0));
    let judged = |x: &Cell, y: &Cell| {
        let rows = compare(std::slice::from_ref(x), std::slice::from_ref(y));
        let ci = match &rows[0].outcome {
            Outcome::Measured { ci, .. } => *ci,
            other => panic!("{other:?}"),
        };
        let delta = change(f64::from_bits(x.summary.median_us.bits), f64::from_bits(y.summary.median_us.bits));
        let r = judge(x, y, b(delta), b(5.0), ci);
        assert_eq!(r.change, b(delta));
        r.verdict
    };
    assert_eq!(judged(&fast, &slow), Verdict::Regression);
    assert_eq!(judged(&slow, &fast), Verdict::Win);
    assert_eq!(judged(&fast, &with_median(vec![120, 130], 106.0)), Verdict::Noise);
}

#[test]
fn a_run_against_itself_is_noise() {
    let mut skipped = cell("cuda", "rgba8", vec![], Some("no device"));
    skipped.summary.median_us = b(0.0);
    let cells = vec![
        with_median(vec![100, 300, 200], 200.0),
        cell("opencl", "rgba8", vec![0, 0], None),
        skipped,
    ];
    let rows = compare(&cells, &cells);
    assert_eq!(rows.len(), 3);
    for row in &rows {
        match &row.outcome {
            Outcome::Measured { base, cand, ci } => {
                assert_eq!(base, cand);
                for threshold in [0.0, -0.0, 5.0] {
                    let r = judge(&cells[*base], &cells[*cand], b(50.0), b(threshold), *ci);
                    assert_eq!(r.verdict, Verdict::Noise);
                }
            }
            Outcome::Unmeasured { reason } => assert_eq!(reason, "no device"),
            other => panic!("{other:?}"),
        }
    }
}

#[test]
fn rows_are_sorted_and_complete() {
    let base = vec![
        cell("opencl", "rgba8", vec![10, 10], None),
        cell("cpu", "rgba8", vec![5], None),
        cell("cpu", "rgba16", vec![5], None),
        cell("cuda", "rgba8", vec![], Some("no device")),
    ];
    let cand = vec![
        cell("metal", "rgba8", vec![1], None),
        cell("opencl", "rgba8", vec![11, 11], None),
        cell("cuda", "rgba8", vec![1], None),
        cell("cpu", "rgba8", vec![], None),
    ];
    let rows = compare(&base, &cand);
    let keys: Vec<(&str, &str)> =
        rows.iter().map(|r| (r.backend.as_str(), r.pixel_format.as_str())).collect();
    assert_eq!(
        keys,
        vec![
            ("cpu", "rgba16"),
            ("cpu", "rgba8"),
            ("cuda", "rgba8"),
            ("metal", "rgba8"),
            ("opencl", "rgba8"),
        ]
    );
    assert!(matches!(rows[0].outcome, Outcome::OnlyBaseline));
    assert!(matches!(&rows[1].outcome, Outcome::Unmeasured { reason } if reason == "(no samples)"));
    assert!(matches!(&rows[2].outcome, Outcome::Unmeasured { reason } if reason == "no device"));
    assert!(matches!(rows[3].outcome, Outcome::OnlyCandidate));
    match &rows[4].outcome {
        Outcome::Measured { base, cand, ci } => {
            assert_eq!((*base, *cand), (0, 1));
            assert_eq!(*ci, interval((20, 22), (20, 22)));
        }
        _ => panic!("not measured"),
    }
}

#[test]
fn swapped_runs_swap_their_rows() {
    let base = vec![cell("cpu", "a", vec![1], None)];
    let cand = vec![cell("cpu", "b", vec![1], None)];
    assert!(matches!(compare(&base, &cand)[0].outcome, Outcome::OnlyBaseline));
    assert!(matches!(compare(&cand, &base)[0].outcome, Outcome::OnlyCandidate));
}

#[test]
fn the_last_of_equal_cells_counts() {
    let base = vec![cell("cpu", "a", vec![1], None), cell("cpu", "a", vec![2], None)];
    let rows = compare(&base, &base);
    assert_eq!(rows.len(), 1);
    assert!(matches!(rows[0].outcome, Outcome::Measured { base: 1, cand: 1, .. }));
}

#[test]
fn candidate_notes_are_given_too() {
    let base = vec![cell("cpu", "a", vec![1], None)];
    let cand = vec![cell("cpu", "a", vec![], Some("gone"))];
    assert!(matches!(&compare(&base, &cand)[0].outcome, Outcome::Unmeasured { reason } if reason == "gone"));
}

#[test]
fn keys_sort_by_bytes() {
    let base = vec![
        cell("b", "x", vec![1], None),
        cell("B", "x", vec![1], None),
        cell("a", "\u{1f600}", vec![1], None),
        cell("a", "\u{ffff}", vec![1], None),
    ];
    let rows = compare(&base, &[]);
    let mut expected: Vec<(&str, &str)> =
        base.iter().map(|c| (c.backend.as_str(), c.pixel_format.as_str())).collect();
    expected.sort();
    let keys: Vec<(&str, &str)> =
        rows.iter().map(|r| (r.backend.as_str(), r.pixel_format.as_str())).collect();
    assert_eq!(keys, expected);
}

#[test]
fn revisions_are_shortened() {
    assert_eq!(short("0123456789"), "0123456");
    assert_eq!(short("0123456"), "0123456");
    assert_eq!(short(""), "");
    assert_eq!(short("12345\u{e9}8"), "12345\u{e9}");
    assert_eq!(short("\u{e9}\u{e9}\u{e9}"), "\u{e9}\u{e9}\u{e9}");
}

#[test]
fn table_text() {
    assert_eq!(
        table_header(),
        format!(
            "{:<8} {:<8} {:>12} {:>12} {:>10} {:>20} {}",
            "backend", "format", "base_med_us", "cand_med_us", "delta_%", "ci95_pct", "verdict"
        )
    );
    assert_eq!(table_rule(), "-".repeat(90));
}

#[test]
fn row_text() {
    let mut row = Row {
        backend: "cpu".to_string(),
        pixel_format: "rgba8".to_string(),
        outcome: Outcome::OnlyBaseline,
    };
    let dashes = |tail: &str| {
        format!(
            "{:<8} {:<8} {:>12} {:>12} {:>10} {:>20} {}",
            "cpu", "rgba8", "-", "-", "-", "-", tail
        )
    };
    assert_eq!(bare_line(&row), Some(dashes("only in baseline")));
    row.outcome = Outcome::OnlyCandidate;
    assert_eq!(bare_line(&row), Some(dashes("only in candidate")));
    row.outcome = Outcome::Unmeasured { reason: "why".to_string() };
    assert_eq!(bare_line(&row), Some(dashes("why")));
    row.outcome = Outcome::Measured { base: 0, cand: 0, ci: None };
    assert_eq!(bare_line(&row), None);
    assert_eq!(
        measured_line(&row, "1234.5", "1300.0", "+5.31", "+4.00", "+6.50", Verdict::Regression),
        format!(
            "{:<8} {:<8} {:>12.1} {:>12.1} {:>+9.2}% {:>+9.2}..{:>+6.2}% {}",
            "cpu", "rgba8", 1234.5, 1300.0, 5.31, 4.0, 6.5, "REGRESSION"
        )
    );
}

#[test]
fn sides_are_introduced() {
    let git = GitInfo { plugin_rev: "aaaaaaaaaa".to_string(), core_rev: "bb".to_string() };
    assert_eq!(
        side_line(Side::Baseline, "x.json", &git),
        "baseline:  x.json  (plugin aaaaaaa, core bb)"
    );
    assert_eq!(
        side_line(Side::Candidate, "y.json", &git),
        "candidate: y.json  (plugin aaaaaaa, core bb)"
    );
}
