//! What a benchmark run records, and the statistics of its frame times.

use crate::binary64::Binary64;
use crate::stats::{ascending, SampleStats};
use vstd::prelude::*;

verus! {

/// Version of the result layout.
pub const SCHEMA_VERSION: u32 = 1;

/// One benchmark run: where, on what and with what outcome.
#[derive(Debug)]
pub struct BenchResult {
    pub schema_version: u32,
    pub timestamp: String,
    pub label: String,
    pub host: HostInfo,
    pub git: GitInfo,
    pub config: RunConfig,
    pub cells: Vec<Cell>,
}

/// The machine that a run took place on.
#[derive(Debug)]
pub struct HostInfo {
    pub hostname: String,
    pub os: String,
    pub arch: String,
    pub cpu_model: String,
    pub cpu_cores: usize,
}

/// The revisions that a run was built from.
#[derive(Debug)]
pub struct GitInfo {
    pub plugin_rev: String,
    pub core_rev: String,
}

/// The workload of a run. Sizes are width, then height.
#[derive(Debug)]
pub struct RunConfig {
    pub project: String,
    pub input_size: [usize; 2],
    pub output_size: [usize; 2],
    pub frames: usize,
    pub warmup: usize,
    pub iterations: usize,
    pub frame_source: String,
}

/// The measurements of one backend with one pixel format.
#[derive(Debug)]
pub struct Cell {
    pub backend: String,
    pub pixel_format: String,
    pub iterations: Vec<IterationData>,
    pub summary: Summary,
    /// The backend that the frames were actually dispatched to, by the name that the
    /// engine reported, such as "OpenCL" or "wgpu"; it may be empty for the CPU. It
    /// may differ from the requested `backend`. `None` where the cell was skipped.
    pub actual_backend: Option<String>,
    /// Why the cell was skipped, if it was.
    pub note: Option<String>,
}

/// The frame times of one iteration, in microseconds and in frame order.
#[derive(Debug)]
pub struct IterationData {
    pub frame_us: Vec<u64>,
}

/// Statistics of frame times, in microseconds.
#[derive(Clone, Copy, Debug)]
pub struct Summary {
    pub mean_us: Binary64,
    pub median_us: Binary64,
    pub p95_us: Binary64,
    pub p99_us: Binary64,
    pub stddev_us: Binary64,
    pub min_us: u64,
    pub max_us: u64,
    pub samples: usize,
}

/// The statistics of frame times that take floating-point arithmetic.
#[derive(Clone, Copy, Debug)]
pub struct Derived {
    pub mean_us: Binary64,
    pub median_us: Binary64,
    pub p95_us: Binary64,
    pub p99_us: Binary64,
    pub stddev_us: Binary64,
}

impl Summary {
    /// Whether this summary of `samples` holds the given derived statistics and the
    /// extremes and count of the samples.
    pub open spec fn combines(self, samples: Seq<u64>, derived: Derived) -> bool {
        &&& self.mean_us == derived.mean_us
        &&& self.median_us == derived.median_us
        &&& self.p95_us == derived.p95_us
        &&& self.p99_us == derived.p99_us
        &&& self.stddev_us == derived.stddev_us
        &&& self.min_us == if samples.len() == 0 {
            0
        } else {
            ascending(samples).first()
        }
        &&& self.max_us == if samples.len() == 0 {
            0
        } else {
            ascending(samples).last()
        }
        &&& self.samples == samples.len()
    }

    /// Whether every statistic is zero, as of no samples.
    pub open spec fn is_zero(self) -> bool {
        &&& self.mean_us == Binary64::zero()
        &&& self.median_us == Binary64::zero()
        &&& self.p95_us == Binary64::zero()
        &&& self.p99_us == Binary64::zero()
        &&& self.stddev_us == Binary64::zero()
        &&& self.min_us == 0
        &&& self.max_us == 0
        &&& self.samples == 0
    }

    /// The summary of no samples.
    pub fn empty() -> (r: Summary)
        ensures
            r.is_zero(),
            r.mean_us.bits == 0 && r.median_us.bits == 0 && r.stddev_us.bits == 0,
            r.p95_us.bits == 0 && r.p99_us.bits == 0,
            r.min_us == 0 && r.max_us == 0 && r.samples == 0,
    {
        let zero = Binary64 { bits: 0 };
        Summary {
            mean_us: zero,
            median_us: zero,
            p95_us: zero,
            p99_us: zero,
            stddev_us: zero,
            min_us: 0,
            max_us: 0,
            samples: 0,
        }
    }

    /// The summary made of the statistics of some samples and of those derived from
    /// them.
    pub fn new(stats: &SampleStats, derived: Derived) -> (r: Summary)
        ensures
            r.mean_us == derived.mean_us,
            r.median_us == derived.median_us,
            r.p95_us == derived.p95_us,
            r.p99_us == derived.p99_us,
            r.stddev_us == derived.stddev_us,
            r.min_us == stats.min_us,
            r.max_us == stats.max_us,
            r.samples == stats.samples,
    {
        Summary {
            mean_us: derived.mean_us,
            median_us: derived.median_us,
            p95_us: derived.p95_us,
            p99_us: derived.p99_us,
            stddev_us: derived.stddev_us,
            min_us: stats.min_us,
            max_us: stats.max_us,
            samples: stats.samples,
        }
    }
}

/// A summary holds the derived statistics as they are, counts the samples, and gives
/// the least and the greatest of them; of no samples, both are zero.
pub proof fn law_summary(r: Summary, samples: Seq<u64>, derived: Derived)
    requires
        r.combines(samples, derived),
    ensures
        r.mean_us == derived.mean_us,
        r.median_us == derived.median_us,
        r.p95_us == derived.p95_us,
        r.p99_us == derived.p99_us,
        r.stddev_us == derived.stddev_us,
        r.samples == samples.len(),
        samples.len() > 0 ==> samples.contains(r.min_us) && samples.contains(r.max_us),
        forall|i: int| 0 <= i < samples.len() ==> r.min_us <= #[trigger] samples[i] <= r.max_us,
        samples.len() == 0 ==> r.min_us == 0 && r.max_us == 0,
{
    broadcast use vstd::seq_lib::group_to_multiset_ensures;

    crate::stats::lemma_ascending(samples);
    let t = ascending(samples);
    assert forall|i: int| 0 <= i < samples.len() implies t.contains(#[trigger] samples[i]) by {
        assert(samples.contains(samples[i]));
        assert(samples.to_multiset().count(samples[i]) > 0);
    }
    if samples.len() > 0 {
        assert(t.contains(t[0]) && t.contains(t[t.len() - 1]));
        assert(t.to_multiset().count(t[0]) > 0 && t.to_multiset().count(t[t.len() - 1]) > 0);
    }
}

} // verus!
