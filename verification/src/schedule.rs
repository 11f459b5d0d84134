//! The course of one cell: which frames are processed, at which timestamps, and
//! what is recorded of them.

use crate::bootstrap::pooled;
use crate::result::{Cell, Derived, IterationData, Summary};
use crate::runner::{Backend, PixelFormat};
use crate::stats::{summarize, SampleStats};
use vstd::prelude::*;

verus! {

/// The timestamp of a frame: `step_us` apart, starting over where the duration is
/// known and reached.
pub open spec fn timestamp(frame_idx: int, step_us: int, duration_us: int) -> int {
    if duration_us <= 0 {
        frame_idx * step_us
    } else {
        (frame_idx * step_us) % duration_us
    }
}

/// The timestamp of a frame, in microseconds.
pub fn pick_ts(frame_idx: i64, step_us: i64, duration_us: i64) -> (r: i64)
    requires
        i64::MIN <= frame_idx * step_us <= i64::MAX,
    ensures
        r == timestamp(frame_idx as int, step_us as int, duration_us as int),
{
    let t: i64 = frame_idx * step_us;
    if duration_us <= 0 {
        return t;
    }
    t.checked_rem_euclid(duration_us).unwrap()
}

/// Where the duration is known, every timestamp lies within it, and frames that
/// are a whole number of durations apart have the same one.
pub proof fn law_timestamps_stay_within_the_duration(f: int, g: int, step_us: int, duration_us: int)
    requires
        duration_us > 0,
    ensures
        0 <= timestamp(f, step_us, duration_us) < duration_us,
        ((g - f) * step_us) % duration_us == 0 ==> timestamp(f, step_us, duration_us) == timestamp(
            g,
            step_us,
            duration_us,
        ),
{
    if ((g - f) * step_us) % duration_us == 0 {
        let a = f * step_us;
        let d = (g - f) * step_us;
        assert(g * step_us == a + d) by (nonlinear_arith)
            requires
                a == f * step_us,
                d == (g - f) * step_us,
        ;
        vstd::arithmetic::div_mod::lemma_fundamental_div_mod(d, duration_us);
        vstd::arithmetic::div_mod::lemma_mod_multiples_vanish(d / duration_us, a, duration_us);
        assert(duration_us * (d / duration_us) + a == g * step_us);
    }
}

/// How much of a cell is processed.
#[derive(Clone, Copy, Debug)]
pub struct Schedule {
    /// Untimed frames before timing.
    pub warmup: usize,
    /// Frames timed per iteration.
    pub frames: usize,
    /// Number of iterations.
    pub iterations: usize,
    /// Time from one frame to the next, in microseconds.
    pub step_us: i64,
    /// Duration of the project, in microseconds; not known where it is not positive.
    pub duration_us: i64,
}

impl Schedule {
    /// Whether some frame of the warmup or of an iteration has the number `f`.
    pub open spec fn has_frame(self, f: int) -> bool {
        0 <= f < self.warmup || self.iterations > 0 && 0 <= f < self.frames
    }

    /// Whether every timestamp is computed without overflow.
    pub open spec fn in_range(self) -> bool {
        forall|f: int| #[trigger]
            self.has_frame(f) ==> f <= i64::MAX && i64::MIN <= f * self.step_us <= i64::MAX
    }

    /// The timestamp of frame `f` of the warmup or of an iteration.
    pub open spec fn ts(self, f: int) -> i64 {
        timestamp(f, self.step_us as int, self.duration_us as int) as i64
    }

    /// Number of steps up to the end.
    pub open spec fn length(self) -> int {
        1 + self.warmup + self.iterations * (self.frames + 1)
    }

    /// What is done at each position: one frame to see that processing works, the
    /// warmup, then each iteration's frames and its closing, then the end.
    pub open spec fn step_at(self, position: int) -> Step {
        if position <= 0 {
            Step::Probe { ts_us: self.ts(0) }
        } else if position <= self.warmup {
            Step::Warmup { ts_us: self.ts(position - 1) }
        } else {
            let m = position - 1 - self.warmup;
            let index = m / (self.frames + 1);
            let f = m % (self.frames + 1);
            if index >= self.iterations {
                Step::Finish
            } else if f < self.frames {
                Step::Frame { ts_us: self.ts(f) }
            } else {
                Step::CloseIteration { index: index as usize }
            }
        }
    }

    /// Whether every timestamp is computed without overflow.
    pub fn fits(&self) -> (r: bool)
        ensures
            r == self.in_range(),
    {
        let timed: usize = if self.iterations > 0 { self.frames } else { 0 };
        let n: usize = if self.warmup < timed { timed } else { self.warmup };
        if n == 0 {
            return true;
        }
        let last: usize = n - 1;
        assert(self.has_frame(last as int));
        if last as u128 > i64::MAX as u128 {
            return false;
        }
        let r = (last as i64).checked_mul(self.step_us);
        proof {
            let f = last as int;
            let s = self.step_us as int;
            if r.is_some() {
                assert forall|g: int| #[trigger] self.has_frame(g) implies g <= i64::MAX && i64::MIN
                    <= g * self.step_us <= i64::MAX by {
                    assert((s >= 0 ==> 0 <= g * s <= f * s) && (s <= 0 ==> f * s <= g * s <= 0))
                        by (nonlinear_arith)
                        requires
                            0 <= g <= f,
                    ;
                }
            }
        }
        r.is_some()
    }
}

/// One step of a cell.
#[derive(Clone, Copy, Debug, PartialEq, Eq, Structural)]
pub enum Step {
    /// Process one untimed frame, to see that processing works at all.
    Probe { ts_us: i64 },
    /// Process one untimed frame.
    Warmup { ts_us: i64 },
    /// Process and time one frame.
    Frame { ts_us: i64 },
    /// Report the iteration that has ended.
    CloseIteration { index: usize },
    /// Nothing is left to do.
    Finish,
}

/// How the backend that frames were dispatched to is shown.
pub open spec fn shown_backend(reported: Seq<char>) -> Seq<char> {
    if reported.len() == 0 {
        "cpu-software"@
    } else {
        reported
    }
}

/// How the backend that frames were dispatched to is shown: by the name reported for
/// it, or as the CPU's software where that is empty.
pub fn actual_backend_label(reported: &str) -> (r: String)
    ensures
        r@ == shown_backend(reported@),
{
    if reported.is_empty() {
        "cpu-software".to_owned()
    } else {
        reported.to_owned()
    }
}

/// A cell under measurement.
pub struct CellRun {
    backend: Backend,
    format: PixelFormat,
    schedule: Schedule,
    actual_backend: String,
    probed: bool,
    warmed: usize,
    frame_us: Vec<u64>,
    iterations: Vec<IterationData>,
    all: Vec<u64>,
}

impl CellRun {
    pub closed spec fn backend(self) -> Backend {
        self.backend
    }

    pub closed spec fn format(self) -> PixelFormat {
        self.format
    }

    pub closed spec fn schedule(self) -> Schedule {
        self.schedule
    }

    /// The name reported for the backend that the first frame was dispatched to.
    pub closed spec fn actual_backend(self) -> Seq<char> {
        self.actual_backend@
    }

    /// Number of steps done.
    pub closed spec fn position(self) -> int {
        if !self.probed {
            0
        } else {
            1 + self.warmed + self.iterations@.len() * (self.schedule.frames + 1)
                + self.frame_us@.len()
        }
    }

    /// The closed iterations.
    pub closed spec fn closed_iterations(self) -> Seq<IterationData> {
        self.iterations@
    }

    /// The frame times of the iteration that is under way.
    pub closed spec fn open_iteration(self) -> Seq<u64> {
        self.frame_us@
    }

    pub closed spec fn wf(self) -> bool {
        &&& self.schedule.in_range()
        &&& self.warmed <= self.schedule.warmup
        &&& !self.probed ==> self.warmed == 0
        &&& self.warmed < self.schedule.warmup || !self.probed ==> self.iterations@.len() == 0
            && self.frame_us@.len() == 0
        &&& self.iterations@.len() <= self.schedule.iterations
        &&& self.iterations@.len() == self.schedule.iterations ==> self.frame_us@.len() == 0
        &&& self.frame_us@.len() <= self.schedule.frames
        &&& self.all@ == pooled(self.iterations@)
        &&& forall|i: int|
            0 <= i < self.iterations@.len() ==> (#[trigger] self.iterations@[i]).frame_us@.len()
                == self.schedule.frames
    }

    /// The step that is due.
    pub open spec fn due(self) -> Step {
        self.schedule().step_at(self.position())
    }

    /// A cell of which nothing is measured yet.
    pub fn start(backend: Backend, format: PixelFormat, schedule: Schedule) -> (r: Self)
        requires
            schedule.in_range(),
        ensures
            r.wf(),
            r.backend() == backend,
            r.format() == format,
            r.schedule() == schedule,
            r.position() == 0,
            r.closed_iterations().len() == 0,
            r.open_iteration().len() == 0,
    {
        CellRun {
            backend,
            format,
            schedule,
            actual_backend: String::new(),
            probed: false,
            warmed: 0,
            frame_us: Vec::new(),
            iterations: Vec::new(),
            all: Vec::new(),
        }
    }

    proof fn lemma_due_in_iteration(self)
        requires
            self.wf(),
            self.probed,
            self.warmed == self.schedule.warmup,
        ensures
            self.due() == if self.iterations@.len() >= self.schedule.iterations {
                Step::Finish
            } else if self.frame_us@.len() < self.schedule.frames {
                Step::Frame { ts_us: self.schedule.ts(self.frame_us@.len() as int) }
            } else {
                Step::CloseIteration { index: self.iterations@.len() as usize }
            },
    {
        let d = self.schedule.frames + 1;
        let it = self.iterations@.len() as int;
        let f = self.frame_us@.len() as int;
        let m = self.position() - 1 - self.schedule.warmup;
        assert(m == it * d + f);
        vstd::arithmetic::div_mod::lemma_fundamental_div_mod_converse(m, d, it, f);
        assert(it * d >= 0) by (nonlinear_arith)
            requires
                it >= 0,
                d >= 0,
        ;
    }

    /// The step that is due.
    pub fn next(&self) -> (r: Step)
        requires
            self.wf(),
        ensures
            r == self.due(),
    {
        let s = self.schedule;
        if !self.probed {
            assert(0 * s.step_us == 0) by (nonlinear_arith);
            return Step::Probe { ts_us: pick_ts(0, s.step_us, s.duration_us) };
        }
        if self.warmed < s.warmup {
            assert(0 * (s.frames + 1) == 0) by (nonlinear_arith);
            assert(self.position() == 1 + self.warmed);
            assert(s.has_frame(self.warmed as int));
            return Step::Warmup { ts_us: pick_ts(self.warmed as i64, s.step_us, s.duration_us) };
        }
        proof {
            self.lemma_due_in_iteration();
        }
        if self.iterations.len() >= s.iterations {
            Step::Finish
        } else if self.frame_us.len() < s.frames {
            let f: usize = self.frame_us.len();
            assert(s.has_frame(f as int));
            Step::Frame { ts_us: pick_ts(f as i64, s.step_us, s.duration_us) }
        } else {
            Step::CloseIteration { index: self.iterations.len() }
        }
    }

    /// Records that the first frame was processed, by the backend named
    /// `reported`.
    pub fn probed(&mut self, reported: &str)
        requires
            old(self).wf(),
            old(self).due() is Probe,
        ensures
            final(self).wf(),
            final(self).backend() == old(self).backend(),
            final(self).format() == old(self).format(),
            final(self).schedule() == old(self).schedule(),
            final(self).position() == old(self).position() + 1,
            final(self).actual_backend() == reported@,
            final(self).closed_iterations() == old(self).closed_iterations(),
            final(self).open_iteration() == old(self).open_iteration(),
    {
        proof {
            if self.probed && self.warmed == self.schedule.warmup {
                self.lemma_due_in_iteration();
            }
            assert(0 * (self.schedule.frames + 1) == 0) by (nonlinear_arith);
        }
        self.actual_backend = reported.to_owned();
        self.probed = true;
    }

    /// Records that a warmup frame was processed.
    pub fn warmed(&mut self)
        requires
            old(self).wf(),
            old(self).due() is Warmup,
        ensures
            final(self).wf(),
            final(self).backend() == old(self).backend(),
            final(self).format() == old(self).format(),
            final(self).schedule() == old(self).schedule(),
            final(self).position() == old(self).position() + 1,
            final(self).actual_backend() == old(self).actual_backend(),
            final(self).closed_iterations() == old(self).closed_iterations(),
            final(self).open_iteration() == old(self).open_iteration(),
    {
        proof {
            if self.probed && self.warmed == self.schedule.warmup {
                self.lemma_due_in_iteration();
            }
        }
        self.warmed = self.warmed + 1;
    }

    /// Records that a frame was processed, in `us` microseconds.
    pub fn timed(&mut self, us: u64)
        requires
            old(self).wf(),
            old(self).due() is Frame,
        ensures
            final(self).wf(),
            final(self).backend() == old(self).backend(),
            final(self).format() == old(self).format(),
            final(self).schedule() == old(self).schedule(),
            final(self).position() == old(self).position() + 1,
            final(self).actual_backend() == old(self).actual_backend(),
            final(self).closed_iterations() == old(self).closed_iterations(),
            final(self).open_iteration() == old(self).open_iteration().push(us),
    {
        proof {
            self.lemma_timing_has_begun();
            self.lemma_due_in_iteration();
        }
        self.frame_us.push(us);
    }

    proof fn lemma_timing_has_begun(self)
        requires
            self.wf(),
            self.due() is Frame || self.due() is CloseIteration || self.due() is Finish,
        ensures
            self.probed,
            self.warmed == self.schedule.warmup,
    {
        if self.warmed < self.schedule.warmup || !self.probed {
            assert(0 * (self.schedule.frames + 1) == 0) by (nonlinear_arith);
        }
    }

    /// Closes the iteration whose frames are all timed, and gives its statistics.
    pub fn close_iteration(&mut self) -> (r: SampleStats)
        requires
            old(self).wf(),
            old(self).due() is CloseIteration,
        ensures
            final(self).wf(),
            final(self).backend() == old(self).backend(),
            final(self).format() == old(self).format(),
            final(self).schedule() == old(self).schedule(),
            final(self).position() == old(self).position() + 1,
            final(self).actual_backend() == old(self).actual_backend(),
            final(self).closed_iterations().len() == old(self).closed_iterations().len() + 1,
            final(self).closed_iterations().drop_last() == old(self).closed_iterations(),
            final(self).closed_iterations().last().frame_us@ == old(self).open_iteration(),
            final(self).open_iteration().len() == 0,
            r.describes(old(self).open_iteration()),
    {
        proof {
            self.lemma_timing_has_begun();
            self.lemma_due_in_iteration();
        }
        let ghost before = self.iterations@;
        let ghost times = self.frame_us@;
        let r = summarize(self.frame_us.as_slice());
        let ghost pool_before = self.all@;
        self.all.extend_from_slice(self.frame_us.as_slice());
        assert(self.all@ =~= pool_before + times);
        let mut frame_us: Vec<u64> = Vec::new();
        std::mem::swap(&mut frame_us, &mut self.frame_us);
        self.iterations.push(IterationData { frame_us });
        proof {
            assert(self.iterations@.drop_last() =~= before);
            let d = self.schedule.frames + 1;
            let it = before.len() as int;
            assert((it + 1) * d == it * d + d) by (nonlinear_arith);
        }
        r
    }

    /// The statistics of all timed frames.
    pub fn stats(&self) -> (r: SampleStats)
        requires
            self.wf(),
        ensures
            r.describes(pooled(self.closed_iterations())),
    {
        summarize(self.all.as_slice())
    }

    /// The measured cell. It holds as many iterations as scheduled, each of as many
    /// frames as scheduled, and summarizes them all.
    pub fn finish(self, derived: Derived) -> (r: Cell)
        requires
            self.wf(),
            self.due() is Finish,
        ensures
            r.backend@ == self.backend().text(),
            r.pixel_format@ == self.format().text(),
            r.iterations@ == self.closed_iterations(),
            r.iterations@.len() == self.schedule().iterations,
            forall|i: int|
                0 <= i < r.iterations@.len() ==> (#[trigger] r.iterations@[i]).frame_us@.len()
                    == self.schedule().frames,
            r.summary.combines(pooled(r.iterations@), derived),
            r.summary.samples == self.schedule().iterations * self.schedule().frames,
            r.actual_backend is Some,
            r.actual_backend->0@ == self.actual_backend(),
            r.note is None,
    {
        proof {
            self.lemma_timing_has_begun();
            self.lemma_due_in_iteration();
            lemma_pooled_len(self.iterations@, self.schedule.frames as nat);
        }
        let stats = summarize(self.all.as_slice());
        Cell {
            backend: self.backend.name().to_owned(),
            pixel_format: self.format.name().to_owned(),
            iterations: self.iterations,
            summary: Summary::new(&stats, derived),
            actual_backend: Some(self.actual_backend),
            note: None,
        }
    }
}

proof fn lemma_pooled_len(iterations: Seq<IterationData>, frames: nat)
    requires
        forall|i: int|
            0 <= i < iterations.len() ==> (#[trigger] iterations[i]).frame_us@.len() == frames,
    ensures
        pooled(iterations).len() == iterations.len() * frames,
    decreases iterations.len(),
{
    if iterations.len() > 0 {
        assert forall|i: int| 0 <= i < iterations.len() - 1 implies (
        #[trigger] iterations.drop_last()[i]).frame_us@.len() == frames by {
            assert(iterations.drop_last()[i] == iterations[i]);
        }
        lemma_pooled_len(iterations.drop_last(), frames);
        let n = iterations.len() - 1;
        assert((n + 1) * frames == n * frames + frames) by (nonlinear_arith);
    } else {
        assert(0 * frames == 0) by (nonlinear_arith);
    }
}

/// The course of a cell: one frame as a probe, `warmup` warmup frames at the
/// timestamps of the first frames, then, `iterations` times over, `frames` timed
/// frames at the timestamps of the first frames and the closing of the iteration;
/// it ends after exactly `length` steps.
pub proof fn law_course(s: Schedule, position: int, index: int, f: int)
    requires
        position >= 0,
    ensures
        s.step_at(0) == (Step::Probe { ts_us: s.ts(0) }),
        0 <= f < s.warmup ==> s.step_at(1 + f) == (Step::Warmup { ts_us: s.ts(f) }),
        0 <= index < s.iterations && 0 <= f < s.frames ==> s.step_at(
            1 + s.warmup + index * (s.frames + 1) + f,
        ) == (Step::Frame { ts_us: s.ts(f) }),
        0 <= index < s.iterations ==> s.step_at(
            1 + s.warmup + index * (s.frames + 1) + s.frames,
        ) == (Step::CloseIteration { index: index as usize }),
        (s.step_at(position) is Finish) == (position >= s.length()),
{
    let d = s.frames + 1;
    if 0 <= index < s.iterations {
        assert(index * d >= 0) by (nonlinear_arith)
            requires
                index >= 0,
                d >= 0,
        ;
        if 0 <= f < s.frames {
            vstd::arithmetic::div_mod::lemma_fundamental_div_mod_converse(
                index * d + f,
                d,
                index,
                f,
            );
        }
        vstd::arithmetic::div_mod::lemma_fundamental_div_mod_converse(
            index * d + s.frames,
            d,
            index,
            s.frames as int,
        );
    }
    let m = position - 1 - s.warmup;
    assert(s.iterations * d >= 0) by (nonlinear_arith)
        requires
            d >= 0,
    ;
    if m >= 0 {
        vstd::arithmetic::div_mod::lemma_fundamental_div_mod(m, d);
        let q = m / d;
        let n = s.iterations as int;
        if q >= n {
            assert(m >= n * d) by (nonlinear_arith)
                requires
                    m == d * q + m % d,
                    m % d >= 0,
                    q >= n,
                    d > 0,
            ;
        } else {
            assert(m < n * d) by (nonlinear_arith)
                requires
                    m == d * q + m % d,
                    m % d < d,
                    q + 1 <= n,
                    d > 0,
            ;
        }
    }
}

/// Frame `f` comes `f` steps after the start. Where the duration is known, the
/// timestamp is the one within it that is a whole number of durations before or
/// behind that.
pub proof fn law_timestamp(f: int, step_us: int, duration_us: int)
    ensures
        duration_us <= 0 ==> timestamp(f, step_us, duration_us) == f * step_us,
        duration_us > 0 ==> 0 <= timestamp(f, step_us, duration_us) < duration_us,
        duration_us > 0 ==> exists|k: int|
            timestamp(f, step_us, duration_us) == f * step_us - #[trigger] (k * duration_us),
{
    if duration_us > 0 {
        let a = f * step_us;
        let k = a / duration_us;
        vstd::arithmetic::div_mod::lemma_fundamental_div_mod(a, duration_us);
        assert(duration_us * k == k * duration_us) by (nonlinear_arith);
        assert(timestamp(f, step_us, duration_us) == a - k * duration_us);
    }
}

/// A schedule is in range exactly where the numbers of all its frames, of the warmup
/// and, if there are iterations, of each of them, can be multiplied by the step; the
/// frames are then at the timestamps of these products.
pub proof fn law_schedules_in_range(s: Schedule, f: int)
    ensures
        s.in_range() <==> (forall|g: int|
            0 <= g < s.warmup || s.iterations > 0 && 0 <= g < s.frames ==> g <= i64::MAX && i64::MIN
                <= #[trigger] (g * s.step_us) <= i64::MAX),
        s.in_range() && (0 <= f < s.warmup || s.iterations > 0 && 0 <= f < s.frames) ==> s.ts(f)
            == timestamp(f, s.step_us as int, s.duration_us as int),
        s.ts(0) == 0,
{
    assert(0 * s.step_us == 0) by (nonlinear_arith);
    if forall|g: int|
        0 <= g < s.warmup || s.iterations > 0 && 0 <= g < s.frames ==> g <= i64::MAX && i64::MIN
            <= #[trigger] (g * s.step_us) <= i64::MAX {
        assert forall|g: int| #[trigger] s.has_frame(g) implies g <= i64::MAX && i64::MIN <= g
            * s.step_us <= i64::MAX by {
            let p = g * s.step_us;
        }
    }
    if s.in_range() {
        assert forall|g: int|
            0 <= g < s.warmup || s.iterations > 0 && 0 <= g < s.frames implies g <= i64::MAX
            && i64::MIN <= #[trigger] (g * s.step_us) <= i64::MAX by {
            assert(s.has_frame(g));
        }
    }
    if s.in_range() && (0 <= f < s.warmup || s.iterations > 0 && 0 <= f < s.frames) {
        assert(s.has_frame(f));
        law_timestamp(f, s.step_us as int, s.duration_us as int);
    }
}

/// What is due follows from the number of steps done alone, and a cell is over after
/// the probe, the warmup, and for each iteration its frames and its closing.
pub proof fn law_due(run: CellRun)
    ensures
        run.due() == run.schedule().step_at(run.position()),
        run.schedule().length() == 1 + run.schedule().warmup + run.schedule().iterations
            * run.schedule().frames + run.schedule().iterations,
{
    let (n, f) = (run.schedule().iterations as int, run.schedule().frames as int);
    assert(n * (f + 1) == n * f + n) by (nonlinear_arith);
}

/// A backend is shown by the name that was reported for it, whatever that is, and as
/// the CPU's software only where there is none.
pub proof fn law_shown_backend(reported: Seq<char>)
    ensures
        reported.len() > 0 ==> shown_backend(reported) == reported,
        reported.len() == 0 ==> shown_backend(reported) == "cpu-software"@,
{
}

} // verus!
