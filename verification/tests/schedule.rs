use gyroflow_bench::binary64::Binary64;
use gyroflow_bench::result::Derived;
use gyroflow_bench::runner::{Backend, PixelFormat};
use gyroflow_bench::schedule::{actual_backend_label, pick_ts, CellRun, Schedule, Step};

fn derived() -> Derived {
    let x = Binary64 { bits: 1.0f64.to_bits() };
    Derived { mean_us: x, median_us: x, p95_us: x, p99_us: x, stddev_us: x }
}

#[test]
fn timestamps_wrap_at_the_duration() {
    assert_eq!(pick_ts(3, 40, 100), 20);
    assert_eq!(pick_ts(5, 40, 100), 0);
    assert_eq!(pick_ts(3, 40, 0), 120);
    assert_eq!(pick_ts(3, 40, -1), 120);
    assert_eq!(pick_ts(-1, 40, 100), 60);
    assert_eq!(pick_ts(i64::MIN, 1, i64::MAX), i64::MAX - 1);
}

#[test]
fn schedules_that_overflow_do_not_fit() {
    let s = |warmup, frames, step_us| {
        Schedule { warmup, frames, iterations: 1, step_us, duration_us: 0 }.fits()
    };
    assert!(s(0, 0, i64::MAX));
    assert!(s(2, 1, i64::MAX));
    assert!(!s(3, 1, i64::MAX));
    assert!(s(1, 2, i64::MIN));
    assert!(!s(1, 3, i64::MIN));
    assert!(s(30, 1_000_000, 33_333));
    assert!(!s(0, usize::MAX, 1));
}

#[test]
fn frames_of_no_iteration_need_no_timestamp() {
    let s = |warmup, iterations| {
        Schedule { warmup, frames: usize::MAX, iterations, step_us: i64::MAX, duration_us: 0 }
            .fits()
    };
    assert!(s(2, 0));
    assert!(!s(2, 1));
    assert!(!s(3, 0));
}

#[test]
fn a_cell_runs_its_course() {
    let schedule = Schedule { warmup: 2, frames: 3, iterations: 2, step_us: 40, duration_us: 100 };
    let mut run = CellRun::start(Backend::Opencl, PixelFormat::Rgba16, schedule);
    let mut course = Vec::new();
    let mut clock = 10;
    loop {
        let step = run.next();
        course.push(step);
        match step {
            Step::Probe { .. } => run.probed("OpenCL"),
            Step::Warmup { .. } => run.warmed(),
            Step::Frame { .. } => {
                run.timed(clock);
                clock += 1;
            }
            Step::CloseIteration { index } => {
                let stats = run.close_iteration();
                assert_eq!(stats.samples, 3);
                assert_eq!(stats.min_us, 10 + 3 * index as u64);
            }
            Step::Finish => break,
        }
    }
    let frames = [Step::Frame { ts_us: 0 }, Step::Frame { ts_us: 40 }, Step::Frame { ts_us: 80 }];
    let mut expected = vec![
        Step::Probe { ts_us: 0 },
        Step::Warmup { ts_us: 0 },
        Step::Warmup { ts_us: 40 },
    ];
    for index in 0..2 {
        expected.extend_from_slice(&frames);
        expected.push(Step::CloseIteration { index });
    }
    expected.push(Step::Finish);
    assert_eq!(course, expected);

    assert_eq!(run.stats().sorted, vec![10, 11, 12, 13, 14, 15]);
    let cell = run.finish(derived());
    assert_eq!((cell.backend.as_str(), cell.pixel_format.as_str()), ("opencl", "rgba16"));
    assert_eq!(cell.iterations.len(), 2);
    assert_eq!(cell.iterations[1].frame_us, vec![13, 14, 15]);
    assert_eq!(cell.summary.samples, 6);
    assert_eq!((cell.summary.min_us, cell.summary.max_us), (10, 15));
    assert_eq!(cell.actual_backend.as_deref(), Some("OpenCL"));
    assert!(cell.note.is_none());
}

#[test]
fn iterations_without_frames_are_closed_at_once() {
    let schedule = Schedule { warmup: 0, frames: 0, iterations: 2, step_us: 1, duration_us: 0 };
    let mut run = CellRun::start(Backend::Cpu, PixelFormat::Rgba8, schedule);
    run.probed("");
    for index in 0..2 {
        assert_eq!(run.next(), Step::CloseIteration { index });
        assert_eq!(run.close_iteration().samples, 0);
    }
    assert_eq!(run.next(), Step::Finish);
    let cell = run.finish(derived());
    assert_eq!(cell.iterations.len(), 2);
    assert_eq!(cell.summary.samples, 0);
    assert_eq!(cell.actual_backend.as_deref(), Some(""));
}

#[test]
fn backends_without_a_name_are_shown_as_the_cpu() {
    assert_eq!(actual_backend_label(""), "cpu-software");
    assert_eq!(actual_backend_label("wgpu"), "wgpu");
}

#[test]
fn frames_whole_durations_apart_share_a_timestamp() {
    assert_eq!(pick_ts(2, 40, 100), pick_ts(7, 40, 100));
    assert_eq!(pick_ts(0, 40, 100), pick_ts(5, 40, 100));
}
