//! The arguments of the three commands.

use crate::binary64::Binary64;
use vstd::prelude::*;

verus! {

/// Untimed warmup frames, unless asked otherwise.
pub const DEFAULT_WARMUP: usize = 30;

/// Independent iterations, unless asked otherwise.
pub const DEFAULT_ITERATIONS: usize = 3;

/// The regression threshold, unless asked otherwise: the bit pattern of 5 percent.
pub const DEFAULT_THRESHOLD: u64 = 0x4014_0000_0000_0000;

/// The arguments of a benchmark run. Paths are held as they are displayed.
#[derive(Debug)]
pub struct RunArgs {
    /// Path to the .gyroflow project file.
    pub project: String,
    /// Override of the project's input and output frame width.
    pub width: Option<usize>,
    /// Override of the project's input and output frame height.
    pub height: Option<usize>,
    /// Pixel formats to measure.
    pub pixel_format: Vec<PixelFormatArg>,
    /// Frames to time per iteration; the project's frame count where absent.
    pub frames: Option<usize>,
    /// Untimed warmup frames before timing.
    pub warmup: usize,
    /// Number of independent iterations.
    pub iterations: usize,
    /// Backends to measure.
    pub backend: Vec<BackendArg>,
    /// Path to a video file to decode in place of synthetic frames.
    pub video: Option<String>,
    /// Human-readable label of the run; may be empty.
    pub label: String,
    /// Output directory for the result file.
    pub output: String,
}

/// The arguments of a comparison.
#[derive(Debug)]
pub struct CompareArgs {
    /// Path to a result file, or a label or filename substring to look up.
    pub baseline: String,
    /// Path to a result file, or a label or filename substring to look up.
    pub candidate: String,
    /// Directory to search for result files.
    pub dir: String,
    /// Regression threshold, in percent.
    pub threshold: Binary64,
}

/// The arguments of a listing.
#[derive(Debug)]
pub struct ListArgs {
    /// Directory to list.
    pub dir: String,
}

/// A pixel format as requested on the command line.
#[derive(Clone, Copy, Debug, PartialEq, Eq, Hash, Structural)]
pub enum PixelFormatArg {
    Rgba8,
    Rgba16,
    Rgbaf16,
    Rgbaf,
    All,
}

impl PixelFormatArg {
    pub open spec fn text(self) -> Seq<char> {
        match self {
            PixelFormatArg::Rgba8 => "rgba8"@,
            PixelFormatArg::Rgba16 => "rgba16"@,
            PixelFormatArg::Rgbaf16 => "rgbaf16"@,
            PixelFormatArg::Rgbaf => "rgbaf"@,
            PixelFormatArg::All => "all"@,
        }
    }

    /// The word that names the format on the command line.
    pub fn name(self) -> (r: &'static str)
        ensures
            r@ == self.text(),
    {
        match self {
            PixelFormatArg::Rgba8 => "rgba8",
            PixelFormatArg::Rgba16 => "rgba16",
            PixelFormatArg::Rgbaf16 => "rgbaf16",
            PixelFormatArg::Rgbaf => "rgbaf",
            PixelFormatArg::All => "all",
        }
    }
}

/// A backend as requested on the command line.
#[derive(Clone, Copy, Debug, PartialEq, Eq, Hash, Structural)]
pub enum BackendArg {
    Cpu,
    Opencl,
    Metal,
    Cuda,
    All,
}

impl BackendArg {
    pub open spec fn text(self) -> Seq<char> {
        match self {
            BackendArg::Cpu => "cpu"@,
            BackendArg::Opencl => "opencl"@,
            BackendArg::Metal => "metal"@,
            BackendArg::Cuda => "cuda"@,
            BackendArg::All => "all"@,
        }
    }

    /// The word that names the backend on the command line.
    pub fn name(self) -> (r: &'static str)
        ensures
            r@ == self.text(),
    {
        match self {
            BackendArg::Cpu => "cpu",
            BackendArg::Opencl => "opencl",
            BackendArg::Metal => "metal",
            BackendArg::Cuda => "cuda",
            BackendArg::All => "all",
        }
    }
}

/// No two pixel format words are the same, and no two backend words are.
pub proof fn law_words_are_distinct(p: PixelFormatArg, q: PixelFormatArg, a: BackendArg, b: BackendArg)
    ensures
        p.text() == q.text() ==> p == q,
        a.text() == b.text() ==> a == b,
{
    reveal_strlit("rgba8");
    reveal_strlit("rgba16");
    reveal_strlit("rgbaf16");
    reveal_strlit("rgbaf");
    reveal_strlit("all");
    reveal_strlit("cpu");
    reveal_strlit("opencl");
    reveal_strlit("metal");
    reveal_strlit("cuda");
    if p.text() == q.text() {
        assert(p.text().len() == q.text().len());
        assert(p.text()[4] == q.text()[4]);
    }
    if a.text() == b.text() {
        assert(a.text().len() == b.text().len());
        assert(a.text()[0] == b.text()[0]);
        assert(a.text()[1] == b.text()[1]);
    }
}

/// The words of the command line are the lower-case names of what they stand for.
pub proof fn law_words(p: PixelFormatArg, b: BackendArg)
    ensures
        p.text() == "rgba8"@ <==> p == PixelFormatArg::Rgba8,
        p.text() == "rgba16"@ <==> p == PixelFormatArg::Rgba16,
        p.text() == "rgbaf16"@ <==> p == PixelFormatArg::Rgbaf16,
        p.text() == "rgbaf"@ <==> p == PixelFormatArg::Rgbaf,
        p.text() == "all"@ <==> p == PixelFormatArg::All,
        b.text() == "cpu"@ <==> b == BackendArg::Cpu,
        b.text() == "opencl"@ <==> b == BackendArg::Opencl,
        b.text() == "metal"@ <==> b == BackendArg::Metal,
        b.text() == "cuda"@ <==> b == BackendArg::Cuda,
        b.text() == "all"@ <==> b == BackendArg::All,
{
    law_words_are_distinct(p, PixelFormatArg::Rgba8, b, BackendArg::Cpu);
    law_words_are_distinct(p, PixelFormatArg::Rgba16, b, BackendArg::Opencl);
    law_words_are_distinct(p, PixelFormatArg::Rgbaf16, b, BackendArg::Metal);
    law_words_are_distinct(p, PixelFormatArg::Rgbaf, b, BackendArg::Cuda);
    law_words_are_distinct(p, PixelFormatArg::All, b, BackendArg::All);
}

/// Unless asked otherwise, a run has thirty frames of warmup and three iterations,
/// and a comparison a threshold of five percent.
pub proof fn law_defaults()
    ensures
        DEFAULT_WARMUP == 30,
        DEFAULT_ITERATIONS == 3,
        crate::binary64::number(DEFAULT_THRESHOLD) == 5 * vstd::arithmetic::power2::pow2(1074),
{
    vstd::arithmetic::power2::lemma_pow2_adds(50, 1024);
    vstd::arithmetic::power2::lemma2_to64_rest();
    let p = vstd::arithmetic::power2::pow2(1024);
    assert(vstd::arithmetic::power2::pow2(50) == 0x4_0000_0000_0000int);
    assert(0x4014_0000_0000_0000int / 0x10_0000_0000_0000int == 1025);
    assert(crate::binary64::number(DEFAULT_THRESHOLD) == 0x14_0000_0000_0000int * p);
}

} // verus!
