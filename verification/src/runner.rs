//! What a benchmark run measures, and in which order.

use crate::binary64::Binary64;
use crate::cli::{BackendArg, PixelFormatArg, RunArgs};
use crate::result::{Cell, Summary};
use crate::text::starts_with;
use vstd::prelude::*;

verus! {

/// A pixel format that frames are processed in.
#[derive(Clone, Copy, Debug, PartialEq, Eq, Structural)]
pub enum PixelFormat {
    Rgba8,
    Rgba16,
    Rgbaf16,
    Rgbaf,
}

impl PixelFormat {
    pub open spec fn text(self) -> Seq<char> {
        match self {
            PixelFormat::Rgba8 => "rgba8"@,
            PixelFormat::Rgba16 => "rgba16"@,
            PixelFormat::Rgbaf16 => "rgbaf16"@,
            PixelFormat::Rgbaf => "rgbaf"@,
        }
    }

    /// Bytes that one pixel takes: four channels of one, two, two or four bytes.
    pub open spec fn pixel_bytes(self) -> int {
        match self {
            PixelFormat::Rgba8 => 4,
            PixelFormat::Rgba16 => 8,
            PixelFormat::Rgbaf16 => 8,
            PixelFormat::Rgbaf => 16,
        }
    }

    /// The name that the format is recorded under.
    pub fn name(self) -> (r: &'static str)
        ensures
            r@ == self.text(),
    {
        match self {
            PixelFormat::Rgba8 => "rgba8",
            PixelFormat::Rgba16 => "rgba16",
            PixelFormat::Rgbaf16 => "rgbaf16",
            PixelFormat::Rgbaf => "rgbaf",
        }
    }

    /// Bytes per pixel.
    pub fn bpp(self) -> (r: usize)
        ensures
            r == self.pixel_bytes(),
    {
        match self {
            PixelFormat::Rgba8 => 4,
            PixelFormat::Rgba16 => 8,
            PixelFormat::Rgbaf16 => 8,
            PixelFormat::Rgbaf => 16,
        }
    }
}

/// A backend that frames are processed by.
#[derive(Clone, Copy, Debug, PartialEq, Eq, Structural)]
pub enum Backend {
    Cpu,
    Opencl,
    Metal,
    Cuda,
}

impl Backend {
    pub open spec fn text(self) -> Seq<char> {
        match self {
            Backend::Cpu => "cpu"@,
            Backend::Opencl => "opencl"@,
            Backend::Metal => "metal"@,
            Backend::Cuda => "cuda"@,
        }
    }

    /// The name that the backend is recorded under.
    pub fn name(self) -> (r: &'static str)
        ensures
            r@ == self.text(),
    {
        match self {
            Backend::Cpu => "cpu",
            Backend::Opencl => "opencl",
            Backend::Metal => "metal",
            Backend::Cuda => "cuda",
        }
    }
}

/// The family of operating systems that the harness runs on.
#[derive(Clone, Copy, Debug, PartialEq, Eq, Structural)]
pub enum Platform {
    /// macOS or iOS.
    Apple,
    /// Windows or Linux.
    WindowsOrLinux,
    Other,
}

/// The elements of `s` in order, each only where it occurs first.
pub open spec fn first_occurrences<T>(s: Seq<T>) -> Seq<T>
    decreases s.len(),
{
    if s.len() == 0 {
        Seq::empty()
    } else {
        let rest = first_occurrences(s.drop_last());
        if rest.contains(s.last()) {
            rest
        } else {
            rest.push(s.last())
        }
    }
}

/// The format that one argument other than `All` asks for.
pub open spec fn format_of(a: PixelFormatArg) -> PixelFormat {
    match a {
        PixelFormatArg::Rgba8 => PixelFormat::Rgba8,
        PixelFormatArg::Rgba16 => PixelFormat::Rgba16,
        PixelFormatArg::Rgbaf16 => PixelFormat::Rgbaf16,
        _ => PixelFormat::Rgbaf,
    }
}

/// The formats that the arguments ask for: every one where `All` is among them,
/// else each requested one once, in the order of the first requests.
pub open spec fn formats_of(args: Seq<PixelFormatArg>) -> Seq<PixelFormat> {
    if args.contains(PixelFormatArg::All) {
        seq![PixelFormat::Rgba8, PixelFormat::Rgba16, PixelFormat::Rgbaf16, PixelFormat::Rgbaf]
    } else {
        first_occurrences(args.map_values(|a: PixelFormatArg| format_of(a)))
    }
}

/// The backend that one argument other than `All` asks for.
pub open spec fn backend_of(a: BackendArg) -> Backend {
    match a {
        BackendArg::Cpu => Backend::Cpu,
        BackendArg::Opencl => Backend::Opencl,
        BackendArg::Metal => Backend::Metal,
        _ => Backend::Cuda,
    }
}

/// Every backend that the platform may have, in the order of measurement.
pub open spec fn platform_backends(platform: Platform) -> Seq<Backend> {
    match platform {
        Platform::Apple => seq![Backend::Cpu, Backend::Metal, Backend::Opencl],
        Platform::WindowsOrLinux => seq![Backend::Cpu, Backend::Opencl, Backend::Cuda],
        Platform::Other => seq![Backend::Cpu, Backend::Opencl],
    }
}

/// The backends that the arguments ask for: every one of the platform where `All`
/// is among them, else each requested one once, in the order of the first requests.
pub open spec fn backends_of(args: Seq<BackendArg>, platform: Platform) -> Seq<Backend> {
    if args.contains(BackendArg::All) {
        platform_backends(platform)
    } else {
        first_occurrences(args.map_values(|a: BackendArg| backend_of(a)))
    }
}

/// The pixel formats to measure.
pub fn resolve_pixel_formats(args: &[PixelFormatArg]) -> (r: Vec<PixelFormat>)
    ensures
        r@ == formats_of(args@),
{
    let mut out: Vec<PixelFormat> = Vec::new();
    let ghost wanted = args@.map_values(|a: PixelFormatArg| format_of(a));
    for i in 0..args.len()
        invariant
            wanted == args@.map_values(|a: PixelFormatArg| format_of(a)),
            forall|j: int| 0 <= j < i ==> args@[j] != PixelFormatArg::All,
            out@ == first_occurrences(wanted.take(i as int)),
    {
        let p = match args[i] {
            PixelFormatArg::Rgba8 => PixelFormat::Rgba8,
            PixelFormatArg::Rgba16 => PixelFormat::Rgba16,
            PixelFormatArg::Rgbaf16 => PixelFormat::Rgbaf16,
            PixelFormatArg::Rgbaf => PixelFormat::Rgbaf,
            PixelFormatArg::All => {
                assert(args@.contains(PixelFormatArg::All));
                return vec![
                    PixelFormat::Rgba8,
                    PixelFormat::Rgba16,
                    PixelFormat::Rgbaf16,
                    PixelFormat::Rgbaf,
                ];
            },
        };
        proof {
            assert(wanted.take(i as int + 1).drop_last() =~= wanted.take(i as int));
            assert(wanted.take(i as int + 1).last() == p);
        }
        if !contains_format(&out, p) {
            out.push(p);
        }
    }
    assert(wanted.take(args@.len() as int) =~= wanted);
    out
}

fn contains_format(v: &Vec<PixelFormat>, p: PixelFormat) -> (r: bool)
    ensures
        r == v@.contains(p),
{
    for i in 0..v.len()
        invariant
            forall|j: int| 0 <= j < i ==> v@[j] != p,
    {
        if v[i] == p {
            return true;
        }
    }
    false
}

/// The backends to measure on the platform.
pub fn resolve_backends(args: &[BackendArg], platform: Platform) -> (r: Vec<Backend>)
    ensures
        r@ == backends_of(args@, platform),
{
    let mut out: Vec<Backend> = Vec::new();
    let ghost wanted = args@.map_values(|a: BackendArg| backend_of(a));
    for i in 0..args.len()
        invariant
            wanted == args@.map_values(|a: BackendArg| backend_of(a)),
            forall|j: int| 0 <= j < i ==> args@[j] != BackendArg::All,
            out@ == first_occurrences(wanted.take(i as int)),
    {
        let b = match args[i] {
            BackendArg::Cpu => Backend::Cpu,
            BackendArg::Opencl => Backend::Opencl,
            BackendArg::Metal => Backend::Metal,
            BackendArg::Cuda => Backend::Cuda,
            BackendArg::All => {
                assert(args@.contains(BackendArg::All));
                return all_backends(platform);
            },
        };
        proof {
            assert(wanted.take(i as int + 1).drop_last() =~= wanted.take(i as int));
            assert(wanted.take(i as int + 1).last() == b);
        }
        if !contains_backend(&out, b) {
            out.push(b);
        }
    }
    assert(wanted.take(args@.len() as int) =~= wanted);
    out
}

fn all_backends(platform: Platform) -> (r: Vec<Backend>)
    ensures
        r@ == platform_backends(platform),
{
    match platform {
        Platform::Apple => vec![Backend::Cpu, Backend::Metal, Backend::Opencl],
        Platform::WindowsOrLinux => vec![Backend::Cpu, Backend::Opencl, Backend::Cuda],
        Platform::Other => vec![Backend::Cpu, Backend::Opencl],
    }
}

fn contains_backend(v: &Vec<Backend>, b: Backend) -> (r: bool)
    ensures
        r == v@.contains(b),
{
    for i in 0..v.len()
        invariant
            forall|j: int| 0 <= j < i ==> v@[j] != b,
    {
        if v[i] == b {
            return true;
        }
    }
    false
}

/// Resolved selections hold nothing twice. Unless `All` is among the arguments,
/// they hold exactly what the arguments name.
pub proof fn law_selections_hold_each_once(
    formats: Seq<PixelFormatArg>,
    backends: Seq<BackendArg>,
    platform: Platform,
)
    ensures
        formats_of(formats).no_duplicates(),
        backends_of(backends, platform).no_duplicates(),
        !formats.contains(PixelFormatArg::All) ==> forall|p: PixelFormat|
            #[trigger] formats_of(formats).contains(p) <==> exists|i: int|
                0 <= i < formats.len() && format_of(#[trigger] formats[i]) == p,
        !backends.contains(BackendArg::All) ==> forall|b: Backend|
            #[trigger] backends_of(backends, platform).contains(b) <==> exists|i: int|
                0 <= i < backends.len() && backend_of(#[trigger] backends[i]) == b,
{
    let fs = formats.map_values(|a: PixelFormatArg| format_of(a));
    let bs = backends.map_values(|a: BackendArg| backend_of(a));
    lemma_first_occurrences(fs);
    lemma_first_occurrences(bs);
    assert forall|p: PixelFormat| #[trigger] fs.contains(p) <==> exists|i: int|
        0 <= i < formats.len() && format_of(#[trigger] formats[i]) == p by {
        if fs.contains(p) {
            let i = choose|i: int| 0 <= i < fs.len() && fs[i] == p;
            assert(format_of(formats[i]) == p);
        }
        if exists|i: int| 0 <= i < formats.len() && format_of(#[trigger] formats[i]) == p {
            let i = choose|i: int| 0 <= i < formats.len() && format_of(#[trigger] formats[i]) == p;
            assert(fs[i] == p);
        }
    }
    assert forall|b: Backend| #[trigger] bs.contains(b) <==> exists|i: int|
        0 <= i < backends.len() && backend_of(#[trigger] backends[i]) == b by {
        if bs.contains(b) {
            let i = choose|i: int| 0 <= i < bs.len() && bs[i] == b;
            assert(backend_of(backends[i]) == b);
        }
        if exists|i: int| 0 <= i < backends.len() && backend_of(#[trigger] backends[i]) == b {
            let i = choose|i: int| 0 <= i < backends.len() && backend_of(#[trigger] backends[i]) == b;
            assert(bs[i] == b);
        }
    }
}

proof fn lemma_first_occurrences<T>(s: Seq<T>)
    ensures
        first_occurrences(s).no_duplicates(),
        forall|x: T| #[trigger] first_occurrences(s).contains(x) <==> s.contains(x),
    decreases s.len(),
{
    if s.len() > 0 {
        let rest = first_occurrences(s.drop_last());
        lemma_first_occurrences(s.drop_last());
        assert forall|x: T| #[trigger] first_occurrences(s).contains(x) <==> s.contains(x) by {
            if s.contains(x) {
                let i = choose|i: int| 0 <= i < s.len() && s[i] == x;
                if i < s.len() - 1 {
                    assert(s.drop_last()[i] == x);
                    assert(rest.contains(x));
                    let k = choose|k: int| 0 <= k < rest.len() && rest[k] == x;
                    assert(first_occurrences(s)[k] == x);
                } else if !rest.contains(x) {
                    assert(first_occurrences(s)[rest.len() as int] == x);
                }
            }
            if first_occurrences(s).contains(x) {
                if rest.contains(x) {
                    let i = choose|i: int| 0 <= i < s.drop_last().len() && s.drop_last()[i] == x;
                    assert(s[i] == x);
                } else {
                    assert(s[s.len() - 1] == x);
                }
            }
        }
    }
}

/// A device that was picked for a backend.
#[derive(Debug)]
pub struct Device {
    /// Index into the device list, or -1 for the CPU.
    pub index: isize,
    /// How the device is called.
    pub label: String,
}

/// Why no device was picked.
#[derive(Clone, Copy, Debug, PartialEq, Eq, Structural)]
pub enum DeviceError {
    NoOpencl,
    MetalNeedsApple,
    NoMetal,
    CudaNotStandalone,
}

impl DeviceError {
    pub open spec fn text(self) -> Seq<char> {
        match self {
            DeviceError::NoOpencl => "no OpenCL device available on this host"@,
            DeviceError::MetalNeedsApple => "Metal backend only available on macOS/iOS"@,
            DeviceError::NoMetal => "no wgpu/Metal device available on this host"@,
            DeviceError::CudaNotStandalone =>
                "CUDA backend requires zero-copy CUDABuffer setup; not implemented standalone"@,
        }
    }

    /// The reason in words.
    pub fn message(self) -> (r: &'static str)
        ensures
            r@ == self.text(),
    {
        match self {
            DeviceError::NoOpencl => "no OpenCL device available on this host",
            DeviceError::MetalNeedsApple => "Metal backend only available on macOS/iOS",
            DeviceError::NoMetal => "no wgpu/Metal device available on this host",
            DeviceError::CudaNotStandalone =>
                "CUDA backend requires zero-copy CUDABuffer setup; not implemented standalone",
        }
    }
}

/// Whether `i` is the first device whose name starts with `tag`.
pub open spec fn is_first_tagged(devices: Seq<String>, tag: Seq<char>, i: int) -> bool {
    &&& 0 <= i < devices.len()
    &&& tag.is_prefix_of(devices[i]@)
    &&& forall|j: int| 0 <= j < i ==> !tag.is_prefix_of(#[trigger] devices[j]@)
}

/// Whether the name of no device starts with `tag`.
pub open spec fn none_tagged(devices: Seq<String>, tag: Seq<char>) -> bool {
    forall|j: int| 0 <= j < devices.len() ==> !tag.is_prefix_of(#[trigger] devices[j]@)
}

/// Whether `r` is the right pick for a backend. The CPU is always there; OpenCL
/// and, on Apple platforms, Metal take the first device with their tag; CUDA cannot
/// be picked from a list.
pub open spec fn is_right_device(
    r: Result<Device, DeviceError>,
    devices: Seq<String>,
    backend: Backend,
    platform: Platform,
) -> bool {
    match backend {
        Backend::Cpu => r matches Ok(d) && d.index == -1 && d.label@ == "cpu (software)"@,
        Backend::Opencl => match r {
            Ok(d) => is_first_tagged(devices, "[OpenCL]"@, d.index as int) && d.label@
                == devices[d.index as int]@,
            Err(e) => none_tagged(devices, "[OpenCL]"@) && e == DeviceError::NoOpencl,
        },
        Backend::Metal => if platform == Platform::Apple {
            match r {
                Ok(d) => is_first_tagged(devices, "[wgpu]"@, d.index as int) && d.label@
                    == devices[d.index as int]@,
                Err(e) => none_tagged(devices, "[wgpu]"@) && e == DeviceError::NoMetal,
            }
        } else {
            r matches Err(e) && e == DeviceError::MetalNeedsApple
        },
        Backend::Cuda => r matches Err(e) && e == DeviceError::CudaNotStandalone,
    }
}

fn first_tagged(devices: &[String], tag: &str) -> (r: Option<usize>)
    ensures
        match r {
            Some(i) => is_first_tagged(devices@, tag@, i as int),
            None => none_tagged(devices@, tag@),
        },
{
    for i in 0..devices.len()
        invariant
            forall|j: int| 0 <= j < i ==> !tag@.is_prefix_of(#[trigger] devices@[j]@),
    {
        if starts_with(devices[i].as_str(), tag) {
            return Some(i);
        }
    }
    None
}

/// Picks the device of a backend from the names of the devices at hand.
pub fn select_device(devices: &[String], backend: Backend, platform: Platform) -> (r: Result<
    Device,
    DeviceError,
>)
    requires
        devices@.len() <= isize::MAX,
    ensures
        is_right_device(r, devices@, backend, platform),
{
    match backend {
        Backend::Cpu => Ok(Device { index: -1, label: "cpu (software)".to_owned() }),
        Backend::Opencl => match first_tagged(devices, "[OpenCL]") {
            Some(i) => Ok(Device { index: i as isize, label: devices[i].clone() }),
            None => Err(DeviceError::NoOpencl),
        },
        Backend::Metal => if platform == Platform::Apple {
            match first_tagged(devices, "[wgpu]") {
                Some(i) => Ok(Device { index: i as isize, label: devices[i].clone() }),
                None => Err(DeviceError::NoMetal),
            }
        } else {
            Err(DeviceError::MetalNeedsApple)
        },
        Backend::Cuda => Err(DeviceError::CudaNotStandalone),
    }
}

/// What a run needs to know of a project.
#[derive(Clone, Copy, Debug)]
pub struct ProjectShape {
    pub input_size: (usize, usize),
    pub output_size: (usize, usize),
    pub frame_count: usize,
    pub fps: Binary64,
    pub duration_us: i64,
}

/// The bit pattern of 30 frames per second.
pub const FPS_30: u64 = 0x403e_0000_0000_0000;

/// The shape of a project from its recorded parameters. A frame rate that is not
/// positive is taken for 30 frames per second.
pub fn read_shape(
    size: (usize, usize),
    output_size: (usize, usize),
    frame_count: usize,
    fps: Binary64,
    duration_us: i64,
) -> (r: ProjectShape)
    ensures
        r.input_size == size,
        r.output_size == output_size,
        r.frame_count == frame_count,
        r.fps == if Binary64::zero().below(fps) {
            fps
        } else {
            (Binary64 { bits: FPS_30 })
        },
        r.duration_us == duration_us,
{
    let positive = Binary64 { bits: 0 }.less(fps);
    ProjectShape {
        input_size: size,
        output_size,
        frame_count,
        fps: if positive { fps } else { Binary64 { bits: FPS_30 } },
        duration_us,
    }
}

/// What a run is going to measure, with overrides and project defaults merged.
#[derive(Clone, Copy, Debug)]
pub struct EffectiveConfig {
    pub size_override: Option<(usize, usize)>,
    pub input_size: (usize, usize),
    pub output_size: (usize, usize),
    pub frames: usize,
    pub warmup: usize,
    pub iterations: usize,
    pub fps: Binary64,
}

/// Why a run cannot be configured or started.
#[derive(Clone, Copy, Debug, PartialEq, Eq, Structural)]
pub enum RunError {
    /// Only one of width and height is overridden.
    IncompleteSize,
    NoBackends,
    NoPixelFormats,
}

impl RunError {
    pub open spec fn text(self) -> Seq<char> {
        match self {
            RunError::IncompleteSize => "--width and --height must be set together"@,
            RunError::NoBackends => "no backends selected"@,
            RunError::NoPixelFormats => "no pixel formats selected"@,
        }
    }

    /// The reason in words.
    pub fn message(self) -> (r: &'static str)
        ensures
            r@ == self.text(),
    {
        match self {
            RunError::IncompleteSize => "--width and --height must be set together",
            RunError::NoBackends => "no backends selected",
            RunError::NoPixelFormats => "no pixel formats selected",
        }
    }
}

/// The override of the frame size that width and height amount to: they come both
/// or not at all.
pub open spec fn size_override_of(width: Option<usize>, height: Option<usize>) -> Result<
    Option<(usize, usize)>,
    RunError,
> {
    match (width, height) {
        (Some(w), Some(h)) => Ok(Some((w, h))),
        (None, None) => Ok(None),
        _ => Err(RunError::IncompleteSize),
    }
}

/// The override of the frame size, if there is one.
pub fn size_override(width: Option<usize>, height: Option<usize>) -> (r: Result<
    Option<(usize, usize)>,
    RunError,
>)
    ensures
        r == size_override_of(width, height),
{
    match (width, height) {
        (Some(w), Some(h)) => Ok(Some((w, h))),
        (None, None) => Ok(None),
        _ => Err(RunError::IncompleteSize),
    }
}

/// Merges the arguments of a run with the shape of the project, which was read
/// with the size override in place. Without a frame count of its own the run takes
/// the project's, but at least one frame.
pub fn resolve_config(args: &RunArgs, shape: &ProjectShape) -> (r: Result<EffectiveConfig, RunError>)
    ensures
        match size_override_of(args.width, args.height) {
            Err(e) => r == Err::<EffectiveConfig, RunError>(e),
            Ok(size) => r == Ok::<EffectiveConfig, RunError>(
                EffectiveConfig {
                    size_override: size,
                    input_size: shape.input_size,
                    output_size: shape.output_size,
                    frames: match args.frames {
                        Some(n) => n,
                        None => if shape.frame_count == 0 {
                            1
                        } else {
                            shape.frame_count
                        },
                    },
                    warmup: args.warmup,
                    iterations: args.iterations,
                    fps: shape.fps,
                },
            ),
        },
{
    let size = match size_override(args.width, args.height) {
        Ok(size) => size,
        Err(e) => return Err(e),
    };
    let frames: usize = match args.frames {
        Some(n) => n,
        None => if shape.frame_count == 0 { 1 } else { shape.frame_count },
    };
    Ok(
        EffectiveConfig {
            size_override: size,
            input_size: shape.input_size,
            output_size: shape.output_size,
            frames,
            warmup: args.warmup,
            iterations: args.iterations,
            fps: shape.fps,
        },
    )
}

/// The record of a cell that was not measured, with the reason.
pub fn skip_cell(backend: Backend, fmt: PixelFormat, msg: &str) -> (r: Cell)
    ensures
        r.backend@ == backend.text(),
        r.pixel_format@ == fmt.text(),
        r.iterations@.len() == 0,
        r.summary.is_zero(),
        r.summary.mean_us.bits == 0 && r.summary.median_us.bits == 0,
        r.summary.stddev_us.bits == 0 && r.summary.p95_us.bits == 0,
        r.summary.p99_us.bits == 0 && r.summary.min_us == 0 && r.summary.max_us == 0,
        r.summary.samples == 0,
        r.actual_backend is None,
        r.note is Some,
        r.note->0@ == msg@,
{
    Cell {
        backend: backend.name().to_owned(),
        pixel_format: fmt.name().to_owned(),
        iterations: Vec::new(),
        summary: Summary::empty(),
        actual_backend: None,
        note: Some(msg.to_owned()),
    }
}

/// The frame buffers of a cell.
#[derive(Clone, Copy, Debug, PartialEq, Eq, Structural)]
pub struct BufferLayout {
    pub in_stride: usize,
    pub in_bytes: usize,
    pub out_stride: usize,
    pub out_bytes: usize,
}

/// Bytes of a frame of the given width and height.
pub open spec fn frame_bytes(fmt: PixelFormat, size: (usize, usize)) -> int {
    size.0 * fmt.pixel_bytes() * size.1
}

/// Whether a row and a frame of the given width and height have sizes that can be
/// computed.
pub open spec fn frame_fits(fmt: PixelFormat, size: (usize, usize)) -> bool {
    size.0 * fmt.pixel_bytes() <= usize::MAX && frame_bytes(fmt, size) <= usize::MAX
}

/// The strides and sizes of the frame buffers: rows of pixels without padding.
pub fn buffer_layout(fmt: PixelFormat, input: (usize, usize), output: (usize, usize)) -> (r:
    BufferLayout)
    requires
        frame_fits(fmt, input),
        frame_fits(fmt, output),
    ensures
        r.in_stride == input.0 * fmt.pixel_bytes(),
        r.in_bytes == frame_bytes(fmt, input),
        r.out_stride == output.0 * fmt.pixel_bytes(),
        r.out_bytes == frame_bytes(fmt, output),
{
    let bpp: usize = fmt.bpp();
    let in_stride: usize = input.0 * bpp;
    let out_stride: usize = output.0 * bpp;
    BufferLayout {
        in_stride,
        in_bytes: in_stride * input.1,
        out_stride,
        out_bytes: out_stride * output.1,
    }
}

/// Why a cell is not measured from the source of frames asked for: a video gives
/// frames in one format alone. `None` where it is measured.
pub fn video_refusal(has_video: bool, fmt: PixelFormat) -> (r: Option<&'static str>)
    ensures
        (r is Some) == (has_video && fmt != PixelFormat::Rgba8),
        r matches Some(msg) ==> msg@ == "video source only supports rgba8 in v1"@,
{
    if has_video && fmt != PixelFormat::Rgba8 {
        Some("video source only supports rgba8 in v1")
    } else {
        None
    }
}

/// Every backend with every format, backend by backend.
pub open spec fn pairs(backends: Seq<Backend>, formats: Seq<PixelFormat>) -> Seq<
    (Backend, PixelFormat),
>
    decreases backends.len(),
{
    if backends.len() == 0 {
        Seq::empty()
    } else {
        pairs(backends.drop_last(), formats) + formats.map_values(
            |f: PixelFormat| (backends.last(), f),
        )
    }
}

/// A benchmark run: the cells to measure, and those that are done.
pub struct Run {
    plan: Vec<(Backend, PixelFormat)>,
    cells: Vec<Cell>,
}

impl Run {
    /// The cells to measure, in order.
    pub closed spec fn plan(self) -> Seq<(Backend, PixelFormat)> {
        self.plan@
    }

    /// The cells that are done.
    pub closed spec fn cells(self) -> Seq<Cell> {
        self.cells@
    }

    /// Each cell that is done records the backend and format that were planned.
    pub open spec fn wf(self) -> bool {
        &&& self.cells().len() <= self.plan().len()
        &&& forall|i: int|
            0 <= i < self.cells().len() ==> records(#[trigger] self.cells()[i], self.plan()[i])
    }

    /// The backend and format of the next cell; `None` once all are done.
    pub fn next(&self) -> (r: Option<(Backend, PixelFormat)>)
        requires
            self.wf(),
        ensures
            match r {
                Some(p) => self.cells().len() < self.plan().len() && p
                    == self.plan()[self.cells().len() as int],
                None => self.cells().len() == self.plan().len(),
            },
    {
        let i: usize = self.cells.len();
        if i < self.plan.len() {
            Some(self.plan[i])
        } else {
            None
        }
    }

    /// Records the next cell.
    pub fn record(&mut self, cell: Cell)
        requires
            old(self).wf(),
            old(self).cells().len() < old(self).plan().len(),
            records(cell, old(self).plan()[old(self).cells().len() as int]),
        ensures
            final(self).wf(),
            final(self).plan() == old(self).plan(),
            final(self).cells() == old(self).cells().push(cell),
    {
        self.cells.push(cell);
    }

    /// The cells of a run that is over.
    pub fn into_cells(self) -> (r: Vec<Cell>)
        requires
            self.wf(),
            self.cells().len() == self.plan().len(),
        ensures
            r@ == self.cells(),
            r@.len() == self.plan().len(),
            forall|i: int| 0 <= i < r@.len() ==> records(#[trigger] r@[i], self.plan()[i]),
    {
        self.cells
    }
}

/// Whether the cell is of the given backend and format.
pub open spec fn records(cell: Cell, planned: (Backend, PixelFormat)) -> bool {
    cell.backend@ == planned.0.text() && cell.pixel_format@ == planned.1.text()
}

/// Starts a run over every requested backend with every requested format.
pub fn run(args: &RunArgs, platform: Platform) -> (r: Result<Run, RunError>)
    ensures
        match r {
            Ok(run) => {
                &&& run.wf()
                &&& run.cells().len() == 0
                &&& run.plan() == pairs(
                    backends_of(args.backend@, platform),
                    formats_of(args.pixel_format@),
                )
                &&& backends_of(args.backend@, platform).len() > 0
                &&& formats_of(args.pixel_format@).len() > 0
            },
            Err(e) => {
                ||| e == RunError::NoBackends && backends_of(args.backend@, platform).len() == 0
                ||| {
                    &&& e == RunError::NoPixelFormats
                    &&& backends_of(args.backend@, platform).len() > 0
                    &&& formats_of(args.pixel_format@).len() == 0
                }
            },
        },
{
    let backends: Vec<Backend> = resolve_backends(args.backend.as_slice(), platform);
    let formats: Vec<PixelFormat> = resolve_pixel_formats(args.pixel_format.as_slice());
    if backends.len() == 0 {
        return Err(RunError::NoBackends);
    }
    if formats.len() == 0 {
        return Err(RunError::NoPixelFormats);
    }
    let mut plan: Vec<(Backend, PixelFormat)> = Vec::new();
    for i in 0..backends.len()
        invariant
            plan@ == pairs(backends@.take(i as int), formats@),
    {
        let ghost before = plan@;
        let ghost row = formats@.map_values(|f: PixelFormat| (backends@[i as int], f));
        for j in 0..formats.len()
            invariant
                i < backends@.len(),
                row == formats@.map_values(|f: PixelFormat| (backends@[i as int], f)),
                plan@ == before + row.take(j as int),
        {
            assert(row.take(j as int + 1) =~= row.take(j as int).push(row[j as int]));
            plan.push((backends[i], formats[j]));
        }
        proof {
            assert(row.take(formats@.len() as int) =~= row);
            assert(backends@.take(i as int + 1).drop_last() =~= backends@.take(i as int));
            assert(backends@.take(i as int + 1).last() == backends@[i as int]);
        }
    }
    assert(backends@.take(backends@.len() as int) =~= backends@);
    Ok(Run { plan, cells: Vec::new() })
}

/// A run measures every requested backend with every requested format, and
/// nothing else.
pub proof fn law_plan_is_complete(backends: Seq<Backend>, formats: Seq<PixelFormat>)
    ensures
        forall|b: Backend, f: PixelFormat|
            #[trigger] pairs(backends, formats).contains((b, f)) <==> backends.contains(b)
                && formats.contains(f),
        pairs(backends, formats).len() == backends.len() * formats.len(),
    decreases backends.len(),
{
    if backends.len() > 0 {
        let rest = backends.drop_last();
        let row = formats.map_values(|f: PixelFormat| (backends.last(), f));
        law_plan_is_complete(rest, formats);
        let n = rest.len();
        assert((n + 1) * formats.len() == n * formats.len() + formats.len()) by (nonlinear_arith);
        let all = pairs(backends, formats);
        assert forall|b: Backend, f: PixelFormat| #[trigger]
            all.contains((b, f)) <==> backends.contains(b) && formats.contains(f) by {
            if all.contains((b, f)) {
                let i = choose|i: int| 0 <= i < all.len() && all[i] == (b, f);
                if i < pairs(rest, formats).len() {
                    assert(pairs(rest, formats)[i] == (b, f));
                    assert(pairs(rest, formats).contains((b, f)));
                    let k = choose|k: int| 0 <= k < rest.len() && rest[k] == b;
                    assert(backends[k] == b);
                } else {
                    let k = i - pairs(rest, formats).len();
                    assert(row[k] == (b, f));
                    assert(formats[k] == f);
                    assert(backends[backends.len() - 1] == b);
                }
            }
            if backends.contains(b) && formats.contains(f) {
                let i = choose|i: int| 0 <= i < backends.len() && backends[i] == b;
                if i < rest.len() {
                    assert(rest[i] == b);
                    assert(pairs(rest, formats).contains((b, f)));
                    let k = choose|k: int|
                        0 <= k < pairs(rest, formats).len() && pairs(rest, formats)[k] == (b, f);
                    assert(all[k] == (b, f));
                } else {
                    let k = choose|k: int| 0 <= k < formats.len() && formats[k] == f;
                    assert(row[k] == (b, f));
                    assert(all[pairs(rest, formats).len() + k] == (b, f));
                }
            }
        }
    } else {
        assert(0 * formats.len() == 0) by (nonlinear_arith);
    }
}

/// Each argument other than `All` selects what is recorded under the argument's own
/// word, so that different arguments select different formats and backends.
pub proof fn law_arguments_select_their_namesakes(
    f: PixelFormatArg,
    g: PixelFormatArg,
    a: BackendArg,
    b: BackendArg,
)
    ensures
        f != PixelFormatArg::All ==> format_of(f).text() == f.text(),
        a != BackendArg::All ==> backend_of(a).text() == a.text(),
        f != PixelFormatArg::All && g != PixelFormatArg::All && format_of(f) == format_of(g) ==> f
            == g,
        a != BackendArg::All && b != BackendArg::All && backend_of(a) == backend_of(b) ==> a == b,
{
    crate::cli::law_words_are_distinct(f, g, a, b);
}

/// No two formats are recorded under the same name, and no two backends are.
pub proof fn law_names_are_distinct(p: PixelFormat, q: PixelFormat, a: Backend, b: Backend)
    ensures
        p.text() == q.text() ==> p == q,
        a.text() == b.text() ==> a == b,
        p.text() != "all"@ && a.text() != "all"@,
{
    reveal_strlit("rgba8");
    reveal_strlit("rgba16");
    reveal_strlit("rgbaf16");
    reveal_strlit("rgbaf");
    reveal_strlit("all");
    reveal_strlit("cpu");
    reveal_strlit("opencl");
    reveal_strlit("metal");
    reveal_strlit("cuda");
    assert(p.text().len() >= 5 && "all"@.len() == 3);
    assert(a.text()[0] != "all"@[0]);
    if p.text() == q.text() {
        assert(p.text().len() == q.text().len());
        assert(p.text()[4] == q.text()[4]);
    }
    if a.text() == b.text() {
        assert(a.text().len() == b.text().len());
        assert(a.text()[0] == b.text()[0]);
        assert(a.text()[1] == b.text()[1]);
    }
}

proof fn lemma_first_occurrences_in_order<T>(s: Seq<T>, x: int, y: int, j: int)
    requires
        0 <= x < y < first_occurrences(s).len(),
        0 <= j < s.len(),
        s[j] == first_occurrences(s)[y],
    ensures
        exists|i: int| 0 <= i < j && #[trigger] s[i] == first_occurrences(s)[x],
    decreases s.len(),
{
    let r = first_occurrences(s);
    let rest = s.drop_last();
    let before = first_occurrences(rest);
    lemma_first_occurrences(s);
    lemma_first_occurrences(rest);
    if y < before.len() {
        if j < rest.len() {
            lemma_first_occurrences_in_order(rest, x, y, j);
            let i = choose|i: int| 0 <= i < j && #[trigger] rest[i] == before[x];
            assert(s[i] == r[x]);
        } else {
            assert(before.contains(before[x]));
            let i = choose|i: int| 0 <= i < rest.len() && rest[i] == before[x];
            assert(s[i] == r[x]);
        }
    } else {
        assert(!before.contains(s.last()));
        if j < rest.len() {
            assert(rest[j] == s.last());
            assert(rest.contains(s.last()));
        }
        assert(before.contains(before[x]));
        let i = choose|i: int| 0 <= i < rest.len() && rest[i] == before[x];
        assert(s[i] == r[x]);
    }
}

/// The formats to measure are, where `All` is asked for, all four from the smallest
/// type of channel on, and otherwise just those whose names are asked for, each once
/// and in the order in which they were first asked for.
pub proof fn law_selected_formats(
    args: Seq<PixelFormatArg>,
    p: PixelFormat,
    x: int,
    y: int,
    j: int,
)
    ensures
        args.contains(PixelFormatArg::All) ==> formats_of(args) == seq![
            PixelFormat::Rgba8,
            PixelFormat::Rgba16,
            PixelFormat::Rgbaf16,
            PixelFormat::Rgbaf,
        ],
        !args.contains(PixelFormatArg::All) ==> {
            let r = formats_of(args);
            &&& r.contains(p) <==> exists|i: int|
                0 <= i < args.len() && (#[trigger] args[i]).text() == p.text()
            &&& r.no_duplicates()
            &&& 0 <= x < y < r.len() && 0 <= j < args.len() && args[j].text() == r[y].text()
                ==> exists|i: int| 0 <= i < j && (#[trigger] args[i]).text() == r[x].text()
        },
{
    if !args.contains(PixelFormatArg::All) {
        let r = formats_of(args);
        let fs = args.map_values(|a: PixelFormatArg| format_of(a));
        lemma_first_occurrences(fs);
        assert forall|i: int| 0 <= i < args.len() implies (#[trigger] args[i]).text()
            == fs[i].text() by {
            assert(args.contains(args[i]));
            law_arguments_select_their_namesakes(
                args[i],
                args[i],
                BackendArg::Cpu,
                BackendArg::Cpu,
            );
        }
        if r.contains(p) {
            assert(fs.contains(p));
            let i = choose|i: int| 0 <= i < fs.len() && fs[i] == p;
            assert(args[i].text() == p.text());
        }
        if exists|i: int| 0 <= i < args.len() && (#[trigger] args[i]).text() == p.text() {
            let i = choose|i: int| 0 <= i < args.len() && (#[trigger] args[i]).text() == p.text();
            law_names_are_distinct(fs[i], p, Backend::Cpu, Backend::Cpu);
            assert(fs.contains(p));
            assert(r.contains(p));
        }
        if 0 <= x < y < r.len() && 0 <= j < args.len() && args[j].text() == r[y].text() {
            law_names_are_distinct(fs[j], r[y], Backend::Cpu, Backend::Cpu);
            lemma_first_occurrences_in_order(fs, x, y, j);
            let i = choose|i: int| 0 <= i < j && #[trigger] fs[i] == r[x];
            assert(args[i].text() == r[x].text());
        }
    }
}

/// The backends to measure are, where `All` is asked for, the CPU, Metal on Apple's
/// systems, OpenCL, and CUDA on Windows and Linux, in this order, and otherwise just
/// those whose names are asked for, on any platform, each once and in the order in
/// which they were first asked for.
pub proof fn law_selected_backends(
    args: Seq<BackendArg>,
    platform: Platform,
    b: Backend,
    x: int,
    y: int,
    j: int,
)
    ensures
        args.contains(BackendArg::All) ==> {
            let r = backends_of(args, platform);
            &&& r.contains(b) <==> (b == Backend::Metal ==> platform == Platform::Apple) && (b
                == Backend::Cuda ==> platform == Platform::WindowsOrLinux)
            &&& r.no_duplicates()
            &&& r[0] == Backend::Cpu
            &&& platform == Platform::Apple ==> r[1] == Backend::Metal
            &&& platform == Platform::WindowsOrLinux ==> r[2] == Backend::Cuda
        },
        !args.contains(BackendArg::All) ==> {
            let r = backends_of(args, platform);
            &&& r.contains(b) <==> exists|i: int|
                0 <= i < args.len() && (#[trigger] args[i]).text() == b.text()
            &&& r.no_duplicates()
            &&& 0 <= x < y < r.len() && 0 <= j < args.len() && args[j].text() == r[y].text()
                ==> exists|i: int| 0 <= i < j && (#[trigger] args[i]).text() == r[x].text()
        },
{
    let r = backends_of(args, platform);
    if args.contains(BackendArg::All) {
        assert(r[0] == Backend::Cpu);
        assert(r[1] == Backend::Metal || r[1] == Backend::Opencl);
        assert(platform != Platform::Other ==> r[2] == Backend::Opencl || r[2] == Backend::Cuda);
    } else {
        let bs = args.map_values(|a: BackendArg| backend_of(a));
        lemma_first_occurrences(bs);
        assert forall|i: int| 0 <= i < args.len() implies (#[trigger] args[i]).text()
            == bs[i].text() by {
            assert(args.contains(args[i]));
            law_arguments_select_their_namesakes(
                PixelFormatArg::Rgba8,
                PixelFormatArg::Rgba8,
                args[i],
                args[i],
            );
        }
        if r.contains(b) {
            assert(bs.contains(b));
            let i = choose|i: int| 0 <= i < bs.len() && bs[i] == b;
            assert(args[i].text() == b.text());
        }
        if exists|i: int| 0 <= i < args.len() && (#[trigger] args[i]).text() == b.text() {
            let i = choose|i: int| 0 <= i < args.len() && (#[trigger] args[i]).text() == b.text();
            law_names_are_distinct(PixelFormat::Rgba8, PixelFormat::Rgba8, bs[i], b);
            assert(bs.contains(b));
            assert(r.contains(b));
        }
        if 0 <= x < y < r.len() && 0 <= j < args.len() && args[j].text() == r[y].text() {
            law_names_are_distinct(PixelFormat::Rgba8, PixelFormat::Rgba8, bs[j], r[y]);
            lemma_first_occurrences_in_order(bs, x, y, j);
            let i = choose|i: int| 0 <= i < j && #[trigger] bs[i] == r[x];
            assert(args[i].text() == r[x].text());
        }
    }
}

/// The device of OpenCL on any platform, and of Metal on Apple's, is the first in the
/// list whose name starts with the backend's tag, wherever in the list that is, and
/// there is none only where no name does.
pub proof fn law_first_tagged_device_is_picked(
    r: Result<Device, DeviceError>,
    devices: Seq<String>,
    backend: Backend,
    platform: Platform,
    tag: Seq<char>,
    i: int,
)
    requires
        is_right_device(r, devices, backend, platform),
        backend == Backend::Opencl && tag == "[OpenCL]"@ || backend == Backend::Metal && platform
            == Platform::Apple && tag == "[wgpu]"@,
    ensures
        0 <= i < devices.len() && tag.is_prefix_of(devices[i]@) && (forall|j: int|
            0 <= j < i ==> !tag.is_prefix_of(#[trigger] devices[j]@)) ==> (r matches Ok(d)
            && d.index == i && d.label@ == devices[i]@),
        (forall|j: int| 0 <= j < devices.len() ==> !tag.is_prefix_of(#[trigger] devices[j]@))
            ==> r is Err,
        r matches Err(e) ==> e == if backend == Backend::Opencl {
            DeviceError::NoOpencl
        } else {
            DeviceError::NoMetal
        },
{
    if let Ok(d) = r {
        let k = d.index as int;
        assert(tag.is_prefix_of(devices[k]@));
    }
}

/// The CPU needs no device; Metal has none off Apple's systems, and CUDA none at all,
/// whatever is in the list.
pub proof fn law_backends_without_a_list(
    r: Result<Device, DeviceError>,
    devices: Seq<String>,
    backend: Backend,
    platform: Platform,
)
    requires
        is_right_device(r, devices, backend, platform),
    ensures
        backend == Backend::Cpu ==> (r matches Ok(d) && d.index == -1 && d.label@
            == "cpu (software)"@),
        backend == Backend::Metal && platform != Platform::Apple ==> (r matches Err(e) && e
            == DeviceError::MetalNeedsApple),
        backend == Backend::Cuda ==> (r matches Err(e) && e == DeviceError::CudaNotStandalone),
{
}

/// Width and height override the size together, as they are given; one alone is
/// refused.
pub proof fn law_size_override(w: usize, h: usize, width: Option<usize>, height: Option<usize>)
    ensures
        size_override_of(Some(w), Some(h)) == Ok::<Option<(usize, usize)>, RunError>(Some((w, h))),
        size_override_of(width, height) is Err <==> (width is Some) != (height is Some),
        size_override_of(width, height) matches Err(e) ==> e == RunError::IncompleteSize,
        size_override_of(width, height) matches Ok(size) ==> (size is Some) == (width is Some),
{
}

/// A frame holds as many pixels as width times height, each of four channels of one
/// byte, two or four; it fits where its size and that of a row can be counted.
pub proof fn law_frame_sizes(fmt: PixelFormat, width: usize, height: usize)
    ensures
        fmt.pixel_bytes() == 4 * if fmt == PixelFormat::Rgba8 {
            1int
        } else if fmt == PixelFormat::Rgbaf {
            4
        } else {
            2
        },
        frame_bytes(fmt, (width, height)) == (width * height) * fmt.pixel_bytes(),
        frame_fits(fmt, (width, height)) <==> width * fmt.pixel_bytes() <= usize::MAX && (width
            * height) * fmt.pixel_bytes() <= usize::MAX,
{
    let p = fmt.pixel_bytes();
    assert(width * p * height == (width * height) * p) by (nonlinear_arith);
}

/// The frame rate that stands in for one that is not positive is thirty per second.
pub proof fn law_fallback_frame_rate()
    ensures
        crate::binary64::number(FPS_30) == 30 * vstd::arithmetic::power2::pow2(1074),
{
    vstd::arithmetic::power2::lemma_pow2_adds(48, 1026);
    vstd::arithmetic::power2::lemma2_to64_rest();
    let p = vstd::arithmetic::power2::pow2(1026);
    assert(vstd::arithmetic::power2::pow2(48) == 0x1_0000_0000_0000int);
    assert(0x403e_0000_0000_0000int / 0x10_0000_0000_0000int == 1027);
    assert(crate::binary64::number(FPS_30) == 0x1e_0000_0000_0000int * p);
}

proof fn lemma_pairs_len(backends: Seq<Backend>, formats: Seq<PixelFormat>)
    ensures
        pairs(backends, formats).len() == backends.len() * formats.len(),
{
    law_plan_is_complete(backends, formats);
}

/// A run goes through the backends in order, and with each through all the formats
/// in order before it comes to the next.
pub proof fn law_plan_is_in_order(
    backends: Seq<Backend>,
    formats: Seq<PixelFormat>,
    b: int,
    f: int,
)
    requires
        0 <= b < backends.len(),
        0 <= f < formats.len(),
    ensures
        0 <= b * formats.len() + f < pairs(backends, formats).len(),
        pairs(backends, formats)[b * formats.len() + f] == (backends[b], formats[f]),
    decreases backends.len(),
{
    let rest = backends.drop_last();
    let n = formats.len() as int;
    lemma_pairs_len(rest, formats);
    lemma_pairs_len(backends, formats);
    let last = backends.len() - 1;
    if b < last {
        law_plan_is_in_order(rest, formats, b, f);
        assert(last * n <= (last + 1) * n) by (nonlinear_arith)
            requires
                n >= 0,
        ;
    } else {
        assert((last + 1) * n == last * n + n) by (nonlinear_arith);
        assert(last * n >= 0) by (nonlinear_arith)
            requires
                last >= 0,
                n >= 0,
        ;
        let row = formats.map_values(|f: PixelFormat| (backends.last(), f));
        assert(row[f] == (backends[b], formats[f]));
    }
}

/// A cell records a planned backend and format by their names.
pub proof fn law_cells_are_recorded_by_name(cell: Cell, backend: Backend, format: PixelFormat)
    ensures
        records(cell, (backend, format)) <==> cell.backend@ == backend.text() && cell.pixel_format@
            == format.text(),
{
}

} // verus!
