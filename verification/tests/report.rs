use gyroflow_bench::binary64::Binary64;
use gyroflow_bench::cli::RunArgs;
use gyroflow_bench::lookup::{has_json_extension, resolve, Resolved, ResultFile};
use gyroflow_bench::report::{
    cell_summary_line, cell_title, finish_run, frame_source_text, frames_line, host_line, input_line,
    iteration_line, output_line, result_filename, run_config, sanitize, skip_line, stamp,
};
use gyroflow_bench::result::{GitInfo, HostInfo};
use gyroflow_bench::runner::{skip_cell, Backend, EffectiveConfig, PixelFormat};

fn args(label: &str) -> RunArgs {
    RunArgs {
        project: "p.gyroflow".to_string(),
        width: None,
        height: None,
        pixel_format: vec![],
        frames: None,
        warmup: 30,
        iterations: 3,
        backend: vec![],
        video: None,
        label: label.to_string(),
        output: "out".to_string(),
    }
}

fn eff() -> EffectiveConfig {
    EffectiveConfig {
        size_override: None,
        input_size: (1920, 1080),
        output_size: (1280, 720),
        frames: 100,
        warmup: 30,
        iterations: 3,
        fps: Binary64 { bits: 30.0f64.to_bits() },
    }
}

fn host() -> HostInfo {
    HostInfo {
        hostname: "box".to_string(),
        os: "linux".to_string(),
        arch: "x86_64".to_string(),
        cpu_model: "Z80".to_string(),
        cpu_cores: 8,
    }
}

fn git() -> GitInfo {
    GitInfo { plugin_rev: "0123456789abcdef".to_string(), core_rev: "c".to_string() }
}

#[test]
fn stamps_are_written_out() {
    let s = stamp(1_431_648_000, 0).unwrap();
    assert_eq!(s.timestamp, "2015-05-15T00:00:00+00:00");
    assert_eq!(s.compact, "20150515T000000Z");
    let s = stamp(1_700_000_000, 123_000_000).unwrap();
    assert_eq!(s.timestamp, "2023-11-14T22:13:20.123+00:00");
    assert_eq!(s.compact, "20231114T221320Z");
}

#[test]
fn only_representable_times_have_stamps() {
    assert!(stamp(8_210_266_876_799, 999_999_999).is_some());
    assert!(stamp(8_210_266_876_799, 1_999_999_999).is_some());
    assert!(stamp(8_210_266_876_800, 0).is_none());
    assert!(stamp(-8_334_601_228_800, 0).is_some());
    assert!(stamp(-8_334_601_228_801, 0).is_none());
    assert!(stamp(0, 1_000_000_000).is_none());
    assert!(stamp(59, 1_000_000_000).is_some());
    assert!(stamp(-1, 1_000_000_000).is_some());
    assert!(stamp(59, 2_000_000_000).is_none());
    assert!(stamp(i64::MIN, 0).is_none());
    assert!(stamp(i64::MAX, 0).is_none());
}

#[test]
fn labels_are_sanitized() {
    assert_eq!(sanitize("perf-branch"), "perf-branch");
    assert_eq!(sanitize("a/b c\u{e9}_Z9"), "a_b_c__Z9");
    assert_eq!(sanitize(&sanitize("x y")), sanitize("x y"));
    assert_eq!(sanitize(""), "");
}

#[test]
fn result_files_are_named() {
    assert_eq!(result_filename("20240101T000000Z", "0123456789", ""), "20240101T000000Z_0123456.json");
    assert_eq!(result_filename("T", "ab", "my run"), "T_ab_my_run.json");
}

#[test]
fn stored_results_are_found_again() {
    let name = result_filename("T", "unknown", "base-1");
    assert!(has_json_extension(name.as_bytes()));
    let files = [ResultFile { name: Some(name), label: None, modified: None }];
    assert_eq!(resolve("base-1", false, true, &files), Ok(Resolved::File { index: 0, matches: 1 }));
}

#[test]
fn frame_sources_are_recorded() {
    assert_eq!(frame_source_text(&None), "synthetic");
    assert_eq!(frame_source_text(&Some("v.mp4".to_string())), "video:v.mp4");
}

#[test]
fn workloads_are_recorded() {
    let c = run_config(&args(""), &eff());
    assert_eq!(c.project, "p.gyroflow");
    assert_eq!((c.input_size, c.output_size), ([1920, 1080], [1280, 720]));
    assert_eq!((c.frames, c.warmup, c.iterations), (100, 30, 3));
    assert_eq!(c.frame_source, "synthetic");
}

#[test]
fn finished_runs_are_stored() {
    let cells = vec![skip_cell(Backend::Cuda, PixelFormat::Rgba8, "no")];
    let s = finish_run(1_431_648_000, 0, &args("l 1"), &eff(), host(), git(), cells).unwrap();
    assert_eq!(s.filename, "20150515T000000Z_0123456_l_1.json");
    assert_eq!(s.result.schema_version, 1);
    assert_eq!(s.result.timestamp, "2015-05-15T00:00:00+00:00");
    assert_eq!(s.result.label, "l 1");
    assert_eq!(s.result.host.hostname, "box");
    assert_eq!(s.result.git.core_rev, "c");
    assert_eq!(s.result.config.frames, 100);
    assert_eq!(s.result.cells.len(), 1);
    assert!(finish_run(i64::MAX, 0, &args(""), &eff(), host(), git(), vec![]).is_none());
}

#[test]
fn runs_are_introduced() {
    assert_eq!(host_line(&host()), "host:    box (linux x86_64, 8 cores) \u{2014} Z80");
    assert_eq!(input_line(&eff()), "input:   1920x1080 (from project)");
    assert_eq!(output_line(&eff()), "output:  1280x720 (from project)");
    let mut e = eff();
    e.size_override = Some((1920, 1080));
    assert_eq!(input_line(&e), "input:   1920x1080 (CLI override)");
    let mut a = args("");
    assert_eq!(
        frames_line(&a, &e, "29.970"),
        "frames:  100 (from project) x 3 iters (warmup 30, fps 29.970)"
    );
    a.frames = Some(100);
    assert_eq!(frames_line(&a, &e, "30.000"), "frames:  100 (CLI) x 3 iters (warmup 30, fps 30.000)");
}

#[test]
fn cells_are_reported() {
    assert_eq!(cell_title(Backend::Cpu, PixelFormat::Rgbaf), "==> cpu / rgbaf");
    assert_eq!(
        iteration_line(2, "10.0", "11.5", 40),
        "    iter 2: median 10.0 us, p95 11.5 us, n=40"
    );
    assert_eq!(skip_line("no"), "    SKIP: no");
    let mut cell = skip_cell(Backend::Cpu, PixelFormat::Rgba8, "because");
    assert_eq!(cell_summary_line(&cell, "1", "2", "3", "4"), "    SKIP: because");
    cell.note = None;
    cell.summary.samples = 5;
    assert_eq!(
        cell_summary_line(&cell, "1.0", "2.0", "3.0", "4.0"),
        "    summary: mean 1.0 us, median 2.0 us, p95 3.0 us, p99 4.0 us, n=5"
    );
}
