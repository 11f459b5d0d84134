use gyroflow_bench::binary64::Binary64;
use gyroflow_bench::cli::{BackendArg, PixelFormatArg, RunArgs};
use gyroflow_bench::runner::{
    buffer_layout, read_shape, resolve_backends, resolve_config, resolve_pixel_formats, run,
    select_device, size_override, skip_cell, video_refusal, Backend, BufferLayout, DeviceError,
    PixelFormat, Platform, ProjectShape, RunError,
};

fn args(backend: Vec<BackendArg>, pixel_format: Vec<PixelFormatArg>) -> RunArgs {
    RunArgs {
        project: "p.gyroflow".to_string(),
        width: None,
        height: None,
        pixel_format,
        frames: None,
        warmup: 30,
        iterations: 3,
        backend,
        video: None,
        label: String::new(),
        output: "bench/results".to_string(),
    }
}

fn shape() -> ProjectShape {
    read_shape((640, 480), (320, 240), 0, Binary64 { bits: 25.0f64.to_bits() }, 1_000)
}

#[test]
fn argument_words() {
    assert_eq!(PixelFormatArg::Rgbaf16.name(), "rgbaf16");
    assert_eq!(PixelFormatArg::All.name(), "all");
    assert_eq!(BackendArg::Opencl.name(), "opencl");
    assert_eq!(BackendArg::Cuda.name(), "cuda");
}

#[test]
fn formats_have_names_and_sizes() {
    assert_eq!(PixelFormat::Rgba8.name(), "rgba8");
    assert_eq!(PixelFormat::Rgbaf.name(), "rgbaf");
    let sizes: Vec<usize> = resolve_pixel_formats(&[PixelFormatArg::All]).iter().map(|p| p.bpp()).collect();
    assert_eq!(sizes, vec![4, 8, 8, 16]);
    assert_eq!(Backend::Metal.name(), "metal");
}

#[test]
fn all_formats_once_all_is_among_the_arguments() {
    let all = vec![PixelFormat::Rgba8, PixelFormat::Rgba16, PixelFormat::Rgbaf16, PixelFormat::Rgbaf];
    assert_eq!(resolve_pixel_formats(&[PixelFormatArg::All]), all);
    assert_eq!(resolve_pixel_formats(&[PixelFormatArg::Rgbaf, PixelFormatArg::All]), all);
}

#[test]
fn formats_keep_their_order_and_appear_once() {
    let picked = resolve_pixel_formats(&[
        PixelFormatArg::Rgbaf,
        PixelFormatArg::Rgba8,
        PixelFormatArg::Rgbaf,
        PixelFormatArg::Rgba16,
    ]);
    assert_eq!(picked, vec![PixelFormat::Rgbaf, PixelFormat::Rgba8, PixelFormat::Rgba16]);
    assert_eq!(resolve_pixel_formats(&[]), vec![]);
}

#[test]
fn all_backends_depend_on_the_platform() {
    let all = [BackendArg::Metal, BackendArg::All];
    assert_eq!(
        resolve_backends(&all, Platform::Apple),
        vec![Backend::Cpu, Backend::Metal, Backend::Opencl]
    );
    assert_eq!(
        resolve_backends(&all, Platform::WindowsOrLinux),
        vec![Backend::Cpu, Backend::Opencl, Backend::Cuda]
    );
    assert_eq!(resolve_backends(&all, Platform::Other), vec![Backend::Cpu, Backend::Opencl]);
}

#[test]
fn backends_keep_their_order_and_appear_once() {
    let picked = resolve_backends(
        &[BackendArg::Cuda, BackendArg::Cpu, BackendArg::Cuda, BackendArg::Metal],
        Platform::Other,
    );
    assert_eq!(picked, vec![Backend::Cuda, Backend::Cpu, Backend::Metal]);
}

#[test]
fn devices_are_picked_by_their_tag() {
    let devices: Vec<String> =
        vec!["[wgpu] A".to_string(), "[OpenCL] B".to_string(), "[OpenCL] C".to_string()];
    let cpu = select_device(&devices, Backend::Cpu, Platform::Other).unwrap();
    assert_eq!((cpu.index, cpu.label.as_str()), (-1, "cpu (software)"));
    let ocl = select_device(&devices, Backend::Opencl, Platform::Other).unwrap();
    assert_eq!((ocl.index, ocl.label.as_str()), (1, "[OpenCL] B"));
    let metal = select_device(&devices, Backend::Metal, Platform::Apple).unwrap();
    assert_eq!((metal.index, metal.label.as_str()), (0, "[wgpu] A"));
}

#[test]
fn missing_devices_are_refused() {
    let none: Vec<String> = vec!["x [OpenCL]".to_string()];
    let refused = |b, p| select_device(&none, b, p).unwrap_err();
    assert_eq!(refused(Backend::Opencl, Platform::Other), DeviceError::NoOpencl);
    assert_eq!(refused(Backend::Metal, Platform::WindowsOrLinux), DeviceError::MetalNeedsApple);
    assert_eq!(refused(Backend::Metal, Platform::Apple), DeviceError::NoMetal);
    assert_eq!(refused(Backend::Cuda, Platform::WindowsOrLinux), DeviceError::CudaNotStandalone);
    assert_eq!(DeviceError::NoOpencl.message(), "no OpenCL device available on this host");
    assert_eq!(DeviceError::MetalNeedsApple.message(), "Metal backend only available on macOS/iOS");
    assert_eq!(DeviceError::NoMetal.message(), "no wgpu/Metal device available on this host");
    assert_eq!(
        DeviceError::CudaNotStandalone.message(),
        "CUDA backend requires zero-copy CUDABuffer setup; not implemented standalone"
    );
}

#[test]
fn frame_rate_falls_back_to_thirty() {
    let rate = |fps: f64| {
        let s = read_shape((1, 2), (3, 4), 5, Binary64 { bits: fps.to_bits() }, -6);
        assert_eq!((s.input_size, s.output_size, s.frame_count, s.duration_us), ((1, 2), (3, 4), 5, -6));
        f64::from_bits(s.fps.bits)
    };
    assert_eq!(rate(59.94), 59.94);
    assert_eq!(rate(0.0), 30.0);
    assert_eq!(rate(-1.0), 30.0);
    assert_eq!(rate(f64::NAN), 30.0);
    assert_eq!(rate(f64::INFINITY), f64::INFINITY);
}

#[test]
fn width_and_height_come_together() {
    assert_eq!(size_override(Some(4), Some(3)), Ok(Some((4, 3))));
    assert_eq!(size_override(None, None), Ok(None));
    assert_eq!(size_override(Some(4), None), Err(RunError::IncompleteSize));
    assert_eq!(size_override(None, Some(3)), Err(RunError::IncompleteSize));
    assert_eq!(RunError::IncompleteSize.message(), "--width and --height must be set together");
}

#[test]
fn config_merges_arguments_and_project() {
    let mut a = args(vec![], vec![]);
    let eff = resolve_config(&a, &shape()).unwrap();
    assert_eq!(eff.frames, 1);
    assert_eq!((eff.warmup, eff.iterations), (30, 3));
    assert_eq!(eff.size_override, None);
    assert_eq!((eff.input_size, eff.output_size), ((640, 480), (320, 240)));
    assert_eq!(f64::from_bits(eff.fps.bits), 25.0);
    a.frames = Some(0);
    a.width = Some(8);
    a.height = Some(9);
    let eff = resolve_config(&a, &shape()).unwrap();
    assert_eq!(eff.frames, 0);
    assert_eq!(eff.size_override, Some((8, 9)));
    a.height = None;
    assert_eq!(resolve_config(&a, &shape()).unwrap_err(), RunError::IncompleteSize);
}

#[test]
fn skipped_cells_hold_their_reason() {
    let c = skip_cell(Backend::Cuda, PixelFormat::Rgba16, "why");
    assert_eq!((c.backend.as_str(), c.pixel_format.as_str()), ("cuda", "rgba16"));
    assert_eq!(c.note.as_deref(), Some("why"));
    assert!(c.iterations.is_empty());
    assert!(c.actual_backend.is_none());
    assert_eq!(c.summary.samples, 0);
}

#[test]
fn buffers_have_no_padding() {
    assert_eq!(
        buffer_layout(PixelFormat::Rgbaf, (10, 3), (7, 0)),
        BufferLayout { in_stride: 160, in_bytes: 480, out_stride: 112, out_bytes: 0 }
    );
}

#[test]
fn videos_are_decoded_to_one_format() {
    assert_eq!(video_refusal(true, PixelFormat::Rgba8), None);
    assert_eq!(
        video_refusal(true, PixelFormat::Rgbaf),
        Some("video source only supports rgba8 in v1")
    );
    assert_eq!(video_refusal(false, PixelFormat::Rgbaf), None);
    assert_eq!(video_refusal(false, PixelFormat::Rgba8), None);
}

#[test]
fn run_goes_through_every_pair() {
    let a = args(
        vec![BackendArg::Opencl, BackendArg::Cpu],
        vec![PixelFormatArg::Rgba16, PixelFormatArg::Rgba8],
    );
    let mut r = run(&a, Platform::Other).ok().unwrap();
    let mut seen = Vec::new();
    while let Some((b, f)) = r.next() {
        seen.push((b, f));
        r.record(skip_cell(b, f, "x"));
    }
    assert_eq!(
        seen,
        vec![
            (Backend::Opencl, PixelFormat::Rgba16),
            (Backend::Opencl, PixelFormat::Rgba8),
            (Backend::Cpu, PixelFormat::Rgba16),
            (Backend::Cpu, PixelFormat::Rgba8),
        ]
    );
    let cells = r.into_cells();
    assert_eq!(cells.len(), 4);
    assert_eq!((cells[1].backend.as_str(), cells[1].pixel_format.as_str()), ("opencl", "rgba8"));
}

#[test]
fn run_needs_backends_and_formats() {
    let e = run(&args(vec![], vec![PixelFormatArg::All]), Platform::Other).err().unwrap();
    assert_eq!(e, RunError::NoBackends);
    assert_eq!(e.message(), "no backends selected");
    let e = run(&args(vec![BackendArg::Cpu], vec![]), Platform::Other).err().unwrap();
    assert_eq!(e, RunError::NoPixelFormats);
    assert_eq!(e.message(), "no pixel formats selected");
    let e = run(&args(vec![], vec![]), Platform::Other).err().unwrap();
    assert_eq!(e, RunError::NoBackends);
}

#[test]
fn argument_words_are_distinct() {
    let formats = [
        PixelFormatArg::Rgba8,
        PixelFormatArg::Rgba16,
        PixelFormatArg::Rgbaf16,
        PixelFormatArg::Rgbaf,
        PixelFormatArg::All,
    ];
    for p in formats {
        for q in formats {
            assert_eq!(p.name() == q.name(), p == q);
        }
    }
}
