//! Comparison of two runs, cell by cell.

use crate::binary64::{Binary64, INFINITY, NAN, SIGN};
use crate::bootstrap::{bootstrap_ci_pct, is_bootstrap_interval, pooled, Interval};
use crate::result::{Cell, GitInfo};
use crate::text::{comes_before, pad_left, pad_right, padded_left, padded_right, precedes};
use vstd::math::max;
use vstd::prelude::*;
use vstd::utf8::{decode_utf8, encode_utf8, is_char_boundary};

verus! {

/// Resamplings that a confidence interval is taken from.
pub const RESAMPLES: usize = 1000;

/// What a comparison says of a cell.
#[derive(Clone, Copy, Debug, PartialEq, Eq, Structural)]
pub enum Verdict {
    Regression,
    Win,
    Noise,
}

impl Verdict {
    pub open spec fn text(self) -> Seq<char> {
        match self {
            Verdict::Regression => "REGRESSION"@,
            Verdict::Win => "WIN"@,
            Verdict::Noise => "noise"@,
        }
    }

    /// The word for the verdict.
    pub fn name(self) -> (r: &'static str)
        ensures
            r@ == self.text(),
    {
        match self {
            Verdict::Regression => "REGRESSION",
            Verdict::Win => "WIN",
            Verdict::Noise => "noise",
        }
    }
}

/// The verdict on a change of `delta` percent with the given confidence interval: a
/// regression where the change exceeds the threshold and even the lower end of the
/// interval is an increase, a win where it falls below the negated threshold and
/// even the upper end is a decrease, and otherwise noise. Without an interval
/// neither end is a change.
pub open spec fn verdict_of(delta: Binary64, threshold: Binary64, ci: Option<Interval>) -> Verdict {
    if threshold.below(delta) && ci is Some && ci->0.lo.is_increase() {
        Verdict::Regression
    } else if delta.below(threshold.negated()) && ci is Some && ci->0.hi.is_decrease() {
        Verdict::Win
    } else {
        Verdict::Noise
    }
}

/// The verdict on a change.
pub fn verdict(delta: Binary64, threshold: Binary64, ci: Option<Interval>) -> (r: Verdict)
    ensures
        r == verdict_of(delta, threshold, ci),
{
    match ci {
        None => Verdict::Noise,
        Some(ci) => if threshold.less(delta) && ci.lo.cand > ci.lo.base {
            Verdict::Regression
        } else if delta.less(threshold.negate()) && ci.hi.cand < ci.hi.base {
            Verdict::Win
        } else {
            Verdict::Noise
        },
    }
}

/// Verdicts are symmetric: for the opposite change, from the candidate to the
/// baseline, a regression becomes a win, a win a regression, and noise stays noise.
pub proof fn law_verdicts_are_symmetric(delta: Binary64, threshold: Binary64, ci: Interval)
    requires
        ci.lo.base > 0,
        ci.hi.base > 0,
        !ci.hi.smaller(ci.lo),
    ensures
        verdict_of(
            delta.negated(),
            threshold,
            Some(Interval { lo: ci.hi.reversed(), hi: ci.lo.reversed() }),
        ) == match verdict_of(delta, threshold, Some(ci)) {
            Verdict::Regression => Verdict::Win,
            Verdict::Win => Verdict::Regression,
            Verdict::Noise => Verdict::Noise,
        },
{
    let (lb, lc) = (ci.lo.base as int, ci.lo.cand as int);
    let (hb, hc) = (ci.hi.base as int, ci.hi.cand as int);
    assert(!(lc > lb && hc < hb)) by (nonlinear_arith)
        requires
            lb > 0,
            hb > 0,
            lc * hb <= hc * lb,
    ;
}

/// A change of nothing is noise, as is one of unknown size, under any threshold
/// that is not negative.
pub proof fn law_no_change_is_noise(delta: Binary64, threshold: Binary64, ci: Option<Interval>)
    requires
        delta.rank() == 0 || delta.is_nan(),
        !threshold.below(Binary64::zero()),
    ensures
        verdict_of(delta, threshold, ci) == Verdict::Noise,
{
}

/// The change from the median `base` to the median `cand` in percent, which is
/// `(cand - base) / base * 100` as `computed` by the caller. Where the medians are
/// equal it is known without arithmetic: it is zero, with the sign of the medians,
/// or a NaN where they are zero or infinite. It is a NaN, too, where either is one.
pub open spec fn change_of(base: Binary64, cand: Binary64, computed: Binary64) -> Binary64 {
    if base.is_nan() || cand.is_nan() {
        Binary64::nan()
    } else if base.rank() != cand.rank() {
        computed
    } else if base.rank() == 0 || base.magnitude() == INFINITY {
        Binary64::nan()
    } else if base.rank() < 0 {
        Binary64::zero().negated()
    } else {
        Binary64::zero()
    }
}

/// What is said of two cells that were measured.
#[derive(Clone, Copy, Debug, PartialEq, Eq, Structural)]
pub struct Judgement {
    /// The change of the medians in percent.
    pub change: Binary64,
    pub verdict: Verdict,
}

/// Judges two measured cells by the change of their medians, which the caller has
/// computed as `(cand - base) / base * 100`, and by its confidence interval.
pub fn judge(
    base: &Cell,
    cand: &Cell,
    computed: Binary64,
    threshold: Binary64,
    ci: Option<Interval>,
) -> (r: Judgement)
    ensures
        r.change == change_of(base.summary.median_us, cand.summary.median_us, computed),
        r.verdict == verdict_of(r.change, threshold, ci),
{
    let b: Binary64 = base.summary.median_us;
    let c: Binary64 = cand.summary.median_us;
    let size: u64 = if b.bits >= SIGN { b.bits - SIGN } else { b.bits };
    let other: u64 = if c.bits >= SIGN { c.bits - SIGN } else { c.bits };
    let change: Binary64 = if size > INFINITY || other > INFINITY {
        Binary64 { bits: NAN }
    } else if b.less(c) || c.less(b) {
        computed
    } else if size == 0 || size == INFINITY {
        Binary64 { bits: NAN }
    } else if b.bits >= SIGN {
        Binary64 { bits: SIGN }
    } else {
        Binary64 { bits: 0 }
    };
    Judgement { change, verdict: verdict(change, threshold, ci) }
}

/// A candidate whose every frame is slower than any of the baseline is a regression
/// where its change exceeds the threshold, whatever the resampling draws. One whose
/// every frame is faster is a win where its change falls below the negated
/// threshold.
pub proof fn law_clear_changes_are_not_noise(
    ci: Option<Interval>,
    base: Seq<u64>,
    cand: Seq<u64>,
    delta: Binary64,
    threshold: Binary64,
)
    requires
        is_bootstrap_interval(ci, base, cand, RESAMPLES as nat),
        base.len() > 0,
        cand.len() > 0,
        forall|i: int| 0 <= i < base.len() ==> base[i] > 0,
    ensures
        threshold.below(delta) && (forall|i: int, j: int|
            0 <= i < base.len() && 0 <= j < cand.len() ==> #[trigger] base[i] < #[trigger] cand[j])
            ==> verdict_of(delta, threshold, ci) == Verdict::Regression,
        delta.below(threshold.negated()) && (forall|i: int, j: int|
            0 <= i < base.len() && 0 <= j < cand.len() ==> #[trigger] base[i] > #[trigger] cand[j])
            ==> verdict_of(delta, threshold, ci) == Verdict::Win,
{
    if forall|i: int, j: int|
        0 <= i < base.len() && 0 <= j < cand.len() ==> #[trigger] base[i] < #[trigger] cand[j] {
        crate::bootstrap::law_slower_on_every_frame(ci, base, cand, RESAMPLES as nat);
    }
    if forall|i: int, j: int|
        0 <= i < base.len() && 0 <= j < cand.len() ==> #[trigger] base[i] > #[trigger] cand[j] {
        crate::bootstrap::law_faster_on_every_frame(ci, base, cand, RESAMPLES as nat);
    }
}

/// What a cell is known by: its backend and its pixel format.
pub open spec fn key_of(cell: Cell) -> (Seq<char>, Seq<char>) {
    (cell.backend@, cell.pixel_format@)
}

/// The order of keys: by backend, then by pixel format.
pub open spec fn key_before(a: (Seq<char>, Seq<char>), b: (Seq<char>, Seq<char>)) -> bool {
    ||| comes_before(encode_utf8(a.0), encode_utf8(b.0))
    ||| a.0 == b.0 && comes_before(encode_utf8(a.1), encode_utf8(b.1))
}

/// The order of keys is a strict total order.
pub proof fn law_key_order(
    a: (Seq<char>, Seq<char>),
    b: (Seq<char>, Seq<char>),
    c: (Seq<char>, Seq<char>),
)
    ensures
        !key_before(a, a),
        key_before(a, b) ==> !key_before(b, a),
        key_before(a, b) || key_before(b, a) || a == b,
        key_before(a, b) && key_before(b, c) ==> key_before(a, c),
{
    broadcast use vstd::utf8::encode_utf8_decode_utf8;

    let (a0, b0, c0) = (encode_utf8(a.0), encode_utf8(b.0), encode_utf8(c.0));
    let (a1, b1, c1) = (encode_utf8(a.1), encode_utf8(b.1), encode_utf8(c.1));
    crate::text::law_dictionary_order(a0, b0, c0);
    crate::text::law_dictionary_order(a1, b1, c1);
    assert(decode_utf8(a0) == a.0 && decode_utf8(b0) == b.0);
    assert(decode_utf8(a1) == a.1 && decode_utf8(b1) == b.1);
}

/// Position of the last cell with the key; of several cells with one key, it alone
/// counts.
pub open spec fn last_with(cells: Seq<Cell>, key: (Seq<char>, Seq<char>)) -> Option<int>
    decreases cells.len(),
{
    if cells.len() == 0 {
        None
    } else if key_of(cells.last()) == key {
        Some(cells.len() - 1)
    } else {
        last_with(cells.drop_last(), key)
    }
}

/// What there is to say of one key.
#[derive(Debug)]
pub enum Outcome {
    /// Only the baseline has the cell.
    OnlyBaseline,
    /// Only the candidate has the cell.
    OnlyCandidate,
    /// Both have the cell, but it cannot be compared.
    Unmeasured { reason: String },
    /// Both have measured the cell: positions of the cells, and the confidence
    /// interval of the change.
    Measured { base: usize, cand: usize, ci: Option<Interval> },
}

/// One row of a comparison.
#[derive(Debug)]
pub struct Row {
    pub backend: String,
    pub pixel_format: String,
    pub outcome: Outcome,
}

impl Row {
    pub open spec fn key(self) -> (Seq<char>, Seq<char>) {
        (self.backend@, self.pixel_format@)
    }
}

/// Whether there is a row for the key.
pub open spec fn has_row(rows: Seq<Row>, key: (Seq<char>, Seq<char>)) -> bool {
    exists|i: int| 0 <= i < rows.len() && (#[trigger] rows[i]).key() == key
}

/// Whether two cells can be compared: neither was skipped, and both have samples.
pub open spec fn comparable(base: Cell, cand: Cell) -> bool {
    base.note is None && cand.note is None && base.summary.samples > 0 && cand.summary.samples > 0
}

/// Why two cells cannot be compared: the baseline's note, else the candidate's,
/// else that there are no samples.
pub open spec fn reason_of(base: Cell, cand: Cell) -> Seq<char> {
    match base.note {
        Some(n) => n@,
        None => match cand.note {
            Some(n) => n@,
            None => "(no samples)"@,
        },
    }
}

/// Whether `outcome` is what there is to say of the key.
pub open spec fn is_outcome(
    outcome: Outcome,
    base: Seq<Cell>,
    cand: Seq<Cell>,
    key: (Seq<char>, Seq<char>),
) -> bool {
    match (last_with(base, key), last_with(cand, key)) {
        (Some(b), Some(c)) => if comparable(base[b], cand[c]) {
            outcome matches Outcome::Measured { base: bi, cand: ci, ci: interval } && bi == b && ci
                == c && is_bootstrap_interval(
                interval,
                pooled(base[b].iterations@),
                pooled(cand[c].iterations@),
                RESAMPLES as nat,
            )
        } else {
            outcome matches Outcome::Unmeasured { reason } && reason@ == reason_of(base[b], cand[c])
        },
        (Some(_), None) => outcome is OnlyBaseline,
        (None, Some(_)) => outcome is OnlyCandidate,
        (None, None) => false,
    }
}

/// The key of a pair of names.
pub open spec fn pair_key(p: (String, String)) -> (Seq<char>, Seq<char>) {
    (p.0@, p.1@)
}

/// Whether the keys go up strictly.
pub open spec fn keys_ascend(keys: Seq<(String, String)>) -> bool {
    forall|i: int, j: int|
        0 <= i < j < keys.len() ==> key_before(pair_key(#[trigger] keys[i]), pair_key(#[trigger] keys[j]))
}

/// Whether the key is among the keys.
pub open spec fn has_key(keys: Seq<(String, String)>, key: (Seq<char>, Seq<char>)) -> bool {
    exists|i: int| 0 <= i < keys.len() && pair_key(#[trigger] keys[i]) == key
}

fn key_precedes(a0: &String, a1: &String, b0: &String, b1: &String) -> (r: bool)
    ensures
        r == key_before((a0@, a1@), (b0@, b1@)),
{
    if precedes(a0.as_str().as_bytes(), b0.as_str().as_bytes()) {
        return true;
    }
    *a0 == *b0 && precedes(a1.as_str().as_bytes(), b1.as_str().as_bytes())
}

/// Puts the key of a cell among the keys, unless it is there.
fn insert_key(keys: &mut Vec<(String, String)>, cell: &Cell)
    requires
        keys_ascend(old(keys)@),
    ensures
        keys_ascend(final(keys)@),
        forall|k: (Seq<char>, Seq<char>)| #[trigger]
            has_key(final(keys)@, k) <==> has_key(old(keys)@, k) || k == key_of(*cell),
{
    let ghost before = keys@;
    let ghost key = key_of(*cell);
    let mut at: usize = 0;
    while at < keys.len() && key_precedes(
        &keys[at].0,
        &keys[at].1,
        &cell.backend,
        &cell.pixel_format,
    )
        invariant
            keys@ == before,
            key == key_of(*cell),
            at <= before.len(),
            forall|i: int| 0 <= i < at ==> key_before(pair_key(#[trigger] before[i]), key),
        decreases before.len() - at,
    {
        at = at + 1;
    }
    if at < keys.len() && keys[at].0 == cell.backend && keys[at].1 == cell.pixel_format {
        assert(pair_key(before[at as int]) == key);
        assert(has_key(before, key));
        return;
    }
    keys.insert(at, (cell.backend.clone(), cell.pixel_format.clone()));
    proof {
        let now = keys@;
        assert(pair_key(now[at as int]) == key);
        assert forall|i: int| at <= i < before.len() implies key_before(
            key,
            pair_key(#[trigger] before[i]),
        ) by {
            let first = pair_key(before[at as int]);
            law_key_order(key, first, pair_key(before[i]));
        }
        assert forall|k: (Seq<char>, Seq<char>)| #[trigger]
            has_key(now, k) <==> has_key(before, k) || k == key by {
            if has_key(before, k) {
                let i = choose|i: int| 0 <= i < before.len() && pair_key(#[trigger] before[i]) == k;
                let j = if i < at {
                    i
                } else {
                    i + 1
                };
                assert(now[j] == before[i]);
            }
            if has_key(now, k) && k != key {
                let j = choose|j: int| 0 <= j < now.len() && pair_key(#[trigger] now[j]) == k;
                let i = if j < at {
                    j
                } else {
                    j - 1
                };
                assert(now[j] == before[i]);
            }
        }
    }
}

/// Position of the last cell with the key.
fn find_last(cells: &[Cell], backend: &String, pixel_format: &String) -> (r: Option<usize>)
    ensures
        match r {
            Some(i) => i < cells@.len() && last_with(cells@, (backend@, pixel_format@)) == Some(
                i as int,
            ),
            None => last_with(cells@, (backend@, pixel_format@)) is None,
        },
{
    let mut n: usize = cells.len();
    assert(cells@.take(n as int) =~= cells@);
    while n > 0
        invariant
            n <= cells@.len(),
            last_with(cells@, (backend@, pixel_format@)) == last_with(
                cells@.take(n as int),
                (backend@, pixel_format@),
            ),
        decreases n,
    {
        if cells[n - 1].backend == *backend && cells[n - 1].pixel_format == *pixel_format {
            return Some(n - 1);
        }
        assert(cells@.take(n as int).drop_last() =~= cells@.take(n - 1));
        n = n - 1;
    }
    None
}

proof fn lemma_last_with_some(cells: Seq<Cell>, i: int)
    requires
        0 <= i < cells.len(),
    ensures
        last_with(cells, key_of(cells[i])) is Some,
    decreases cells.len(),
{
    if i < cells.len() - 1 {
        lemma_last_with_some(cells.drop_last(), i);
    }
}

fn outcome_of(base: &[Cell], cand: &[Cell], backend: &String, pixel_format: &String) -> (r: Outcome)
    requires
        last_with(base@, (backend@, pixel_format@)) is Some || last_with(
            cand@,
            (backend@, pixel_format@),
        ) is Some,
    ensures
        is_outcome(r, base@, cand@, (backend@, pixel_format@)),
{
    match (find_last(base, backend, pixel_format), find_last(cand, backend, pixel_format)) {
        (Some(b), Some(c)) => {
            if let Some(n) = &base[b].note {
                return Outcome::Unmeasured { reason: n.clone() };
            }
            if let Some(n) = &cand[c].note {
                return Outcome::Unmeasured { reason: n.clone() };
            }
            if base[b].summary.samples == 0 || cand[c].summary.samples == 0 {
                return Outcome::Unmeasured { reason: "(no samples)".to_owned() };
            }
            Outcome::Measured {
                base: b,
                cand: c,
                ci: bootstrap_ci_pct(&base[b], &cand[c], RESAMPLES),
            }
        },
        (Some(_), None) => Outcome::OnlyBaseline,
        _ => Outcome::OnlyCandidate,
    }
}

/// Compares the cells of two runs: one row for each key that either run has, in
/// the order of the keys.
pub fn compare(base: &[Cell], cand: &[Cell]) -> (rows: Vec<Row>)
    ensures
        forall|i: int|
            0 <= i < rows@.len() ==> is_outcome(
                (#[trigger] rows@[i]).outcome,
                base@,
                cand@,
                rows@[i].key(),
            ),
        forall|i: int, j: int|
            0 <= i < j < rows@.len() ==> key_before(
                (#[trigger] rows@[i]).key(),
                (#[trigger] rows@[j]).key(),
            ),
        forall|b: int| 0 <= b < base@.len() ==> has_row(rows@, key_of(#[trigger] base@[b])),
        forall|c: int| 0 <= c < cand@.len() ==> has_row(rows@, key_of(#[trigger] cand@[c])),
{
    let mut keys: Vec<(String, String)> = Vec::new();
    for b in 0..base.len()
        invariant
            keys_ascend(keys@),
            forall|k: (Seq<char>, Seq<char>)| #[trigger]
                has_key(keys@, k) ==> last_with(base@, k) is Some,
            forall|i: int| 0 <= i < b ==> has_key(keys@, key_of(#[trigger] base@[i])),
    {
        insert_key(&mut keys, &base[b]);
        proof {
            lemma_last_with_some(base@, b as int);
        }
    }
    for c in 0..cand.len()
        invariant
            keys_ascend(keys@),
            forall|k: (Seq<char>, Seq<char>)| #[trigger]
                has_key(keys@, k) ==> last_with(base@, k) is Some || last_with(cand@, k) is Some,
            forall|i: int| 0 <= i < base@.len() ==> has_key(keys@, key_of(#[trigger] base@[i])),
            forall|i: int| 0 <= i < c ==> has_key(keys@, key_of(#[trigger] cand@[i])),
    {
        insert_key(&mut keys, &cand[c]);
        proof {
            lemma_last_with_some(cand@, c as int);
        }
    }
    let mut rows: Vec<Row> = Vec::new();
    for n in 0..keys.len()
        invariant
            forall|k: (Seq<char>, Seq<char>)| #[trigger]
                has_key(keys@, k) ==> last_with(base@, k) is Some || last_with(cand@, k) is Some,
            rows@.len() == n,
            forall|i: int| 0 <= i < n ==> (#[trigger] rows@[i]).key() == pair_key(keys@[i]),
            forall|i: int|
                0 <= i < n ==> is_outcome(
                    (#[trigger] rows@[i]).outcome,
                    base@,
                    cand@,
                    rows@[i].key(),
                ),
    {
        assert(has_key(keys@, pair_key(keys@[n as int])));
        let outcome = outcome_of(base, cand, &keys[n].0, &keys[n].1);
        rows.push(
            Row { backend: keys[n].0.clone(), pixel_format: keys[n].1.clone(), outcome },
        );
    }
    proof {
        assert forall|b: int| 0 <= b < base@.len() implies has_row(
            rows@,
            key_of(#[trigger] base@[b]),
        ) by {
            assert(has_key(keys@, key_of(base@[b])));
            let i = choose|i: int|
                0 <= i < keys@.len() && pair_key(#[trigger] keys@[i]) == key_of(base@[b]);
            assert(rows@[i].key() == key_of(base@[b]));
        }
        assert forall|c: int| 0 <= c < cand@.len() implies has_row(
            rows@,
            key_of(#[trigger] cand@[c]),
        ) by {
            assert(has_key(keys@, key_of(cand@[c])));
            let i = choose|i: int|
                0 <= i < keys@.len() && pair_key(#[trigger] keys@[i]) == key_of(cand@[c]);
            assert(rows@[i].key() == key_of(cand@[c]));
        }
    }
    rows
}

/// Swapping the two runs swaps what is said of each key: a cell that only the
/// baseline has becomes one that only the candidate has, and a cell is measured one
/// way round exactly where it is the other.
pub proof fn law_swapping_runs_swaps_rows(
    there: Outcome,
    back: Outcome,
    base: Seq<Cell>,
    cand: Seq<Cell>,
    key: (Seq<char>, Seq<char>),
)
    requires
        is_outcome(there, base, cand, key),
        is_outcome(back, cand, base, key),
    ensures
        there is OnlyBaseline <==> back is OnlyCandidate,
        there is OnlyCandidate <==> back is OnlyBaseline,
        there is Unmeasured <==> back is Unmeasured,
        there matches Outcome::Measured { base: b, cand: c, .. } ==> (back matches Outcome::Measured {
            base: d,
            cand: e,
            ..
        } && d == c && e == b),
{
}

proof fn lemma_same_keys_same_position(
    base: Seq<Cell>,
    cand: Seq<Cell>,
    key: (Seq<char>, Seq<char>),
)
    requires
        base.len() == cand.len(),
        forall|i: int| 0 <= i < base.len() ==> key_of(#[trigger] base[i]) == key_of(cand[i]),
    ensures
        last_with(base, key) == last_with(cand, key),
        last_with(base, key) matches Some(i) ==> 0 <= i < base.len(),
    decreases base.len(),
{
    if base.len() > 0 {
        assert(key_of(base[base.len() - 1]) == key_of(cand[base.len() - 1]));
        lemma_same_keys_same_position(base.drop_last(), cand.drop_last(), key);
    }
}

/// A run compared with itself, or with one of the same cells and medians, shows
/// noise: under any threshold that is not negative, each row judges a cell with its
/// equal to be noise or says why there is nothing to judge, and no cell is missing
/// on either side.
pub proof fn law_equal_runs_show_noise(
    outcome: Outcome,
    base: Seq<Cell>,
    cand: Seq<Cell>,
    key: (Seq<char>, Seq<char>),
    computed: Binary64,
    threshold: Binary64,
)
    requires
        base.len() == cand.len(),
        forall|i: int|
            0 <= i < base.len() ==> key_of(#[trigger] base[i]) == key_of(cand[i])
                && base[i].summary.median_us == cand[i].summary.median_us,
        is_outcome(outcome, base, cand, key),
        !threshold.below(Binary64::zero()),
    ensures
        outcome is Unmeasured || outcome is Measured,
        outcome matches Outcome::Measured { base: b, cand: c, ci } ==> b == c && b < base.len()
            && verdict_of(
            change_of(
                base[b as int].summary.median_us,
                cand[c as int].summary.median_us,
                computed,
            ),
            threshold,
            ci,
        ) == Verdict::Noise,
{
    lemma_same_keys_same_position(base, cand, key);
    if let Outcome::Measured { base: b, cand: c, ci } = outcome {
        let m = base[b as int].summary.median_us;
        assert(key_of(base[b as int]) == key_of(cand[c as int]));
        law_no_change_is_noise(change_of(m, m, computed), threshold, ci);
    }
}

/// Strictly ascending rows hold no key twice.
pub proof fn law_no_key_has_two_rows(rows: Seq<Row>, i: int, j: int)
    requires
        0 <= i < j < rows.len(),
        forall|i: int, j: int|
            0 <= i < j < rows.len() ==> key_before(
                (#[trigger] rows[i]).key(),
                (#[trigger] rows[j]).key(),
            ),
    ensures
        rows[i].key() != rows[j].key(),
{
    law_key_order(rows[i].key(), rows[j].key(), rows[i].key());
}

/// A cell that was skipped is never measured against another: where both runs have
/// the key, the row holds a note.
pub proof fn law_skipped_cells_are_not_compared(
    outcome: Outcome,
    base: Seq<Cell>,
    cand: Seq<Cell>,
    key: (Seq<char>, Seq<char>),
    b: int,
    c: int,
)
    requires
        is_outcome(outcome, base, cand, key),
        last_with(base, key) == Some(b),
        last_with(cand, key) == Some(c),
        base[b].note is Some || cand[c].note is Some,
    ensures
        outcome is Unmeasured,
        base[b].note is Some ==> outcome->reason@ == base[b].note->0@,
        base[b].note is None ==> outcome->reason@ == cand[c].note->0@,
{
}

/// Whether a revision can be cut after seven bytes, if it is longer: that does not
/// split a character.
pub open spec fn can_shorten(s: Seq<char>) -> bool {
    encode_utf8(s).len() > 7 ==> is_char_boundary(encode_utf8(s), 7)
}

/// A revision cut to at most seven bytes.
pub open spec fn shortened(s: Seq<char>) -> Seq<char> {
    if encode_utf8(s).len() > 7 {
        decode_utf8(encode_utf8(s).subrange(0, 7))
    } else {
        s
    }
}

/// A revision cut to at most seven bytes.
pub fn short(s: &str) -> (r: &str)
    requires
        can_shorten(s@),
    ensures
        r@ == shortened(s@),
{
    if s.as_bytes().len() > 7 {
        let (head, _) = s.split_at(7);
        proof {
            broadcast use vstd::utf8::encode_utf8_decode_utf8;

            assert(decode_utf8(encode_utf8(head@)) == head@);
            assert(encode_utf8(head@) =~= encode_utf8(s@).subrange(0, 7));
        }
        head
    } else {
        s
    }
}

/// An ASCII revision can be cut, to its first seven characters if it has more.
pub proof fn law_ascii_revisions_shorten(s: Seq<char>)
    requires
        vstd::utf8::is_ascii_chars(s),
    ensures
        can_shorten(s),
        shortened(s) == if s.len() > 7 {
            s.take(7)
        } else {
            s
        },
{
    vstd::utf8::is_ascii_chars_encode_utf8(s);
    if s.len() > 7 {
        lemma_ascii_prefix(s, 7);
        broadcast use vstd::utf8::encode_utf8_decode_utf8;

        assert(decode_utf8(encode_utf8(s.take(7))) == s.take(7));
    }
}

proof fn lemma_ascii_prefix(s: Seq<char>, n: int)
    requires
        vstd::utf8::is_ascii_chars(s),
        0 <= n <= s.len(),
    ensures
        is_char_boundary(encode_utf8(s), n),
        encode_utf8(s.take(n)) == encode_utf8(s).subrange(0, n),
    decreases n,
{
    broadcast use vstd::utf8::encode_utf8_valid_utf8;

    vstd::utf8::is_ascii_chars_encode_utf8(s);
    let t = s.take(n);
    assert(vstd::utf8::is_ascii_chars(t)) by {
        assert forall|i: int| 0 <= i < t.len() implies '\0' <= #[trigger] t[i] <= '\u{7f}' by {
            assert(t[i] == s[i]);
        }
    }
    vstd::utf8::is_ascii_chars_encode_utf8(t);
    assert(encode_utf8(t) =~= encode_utf8(s).subrange(0, n)) by {
        assert forall|i: int| 0 <= i < n implies encode_utf8(t)[i] == encode_utf8(s)[i] by {
            assert(t[i] == s[i]);
        }
    }
    if n > 0 {
        let rest = s.drop_first();
        assert(vstd::utf8::is_ascii_chars(rest)) by {
            assert forall|i: int| 0 <= i < rest.len() implies '\0' <= #[trigger] rest[i]
                <= '\u{7f}' by {
                assert(rest[i] == s[i + 1]);
            }
        }
        lemma_ascii_prefix(rest, n - 1);
        vstd::utf8::is_ascii_chars_encode_utf8(rest);
        vstd::utf8::encode_utf8_first_scalar(s);
        let bytes = encode_utf8(s);
        assert(bytes == vstd::utf8::encode_scalar(s[0] as u32) + encode_utf8(rest));
        assert(vstd::utf8::encode_scalar(s[0] as u32).len() == 1);
        assert(vstd::utf8::pop_first_scalar(bytes) =~= encode_utf8(rest));
    }
}

/// One row of the table of a comparison.
pub open spec fn table_row(
    backend: Seq<char>,
    format: Seq<char>,
    base: Seq<char>,
    cand: Seq<char>,
    delta: Seq<char>,
    ci: Seq<char>,
    verdict: Seq<char>,
) -> Seq<char> {
    padded_right(backend, 8) + " "@ + padded_right(format, 8) + " "@ + padded_left(base, 12) + " "@
        + padded_left(cand, 12) + " "@ + padded_left(delta, 10) + " "@ + padded_left(ci, 20) + " "@
        + verdict
}

fn row_text(
    backend: &str,
    format: &str,
    base: &str,
    cand: &str,
    delta: &str,
    ci: &str,
    verdict: &str,
) -> (r: String)
    ensures
        r@ == table_row(backend@, format@, base@, cand@, delta@, ci@, verdict@),
{
    let mut out = pad_right(backend, 8);
    out.append(" ");
    out.append(pad_right(format, 8).as_str());
    out.append(" ");
    out.append(pad_left(base, 12).as_str());
    out.append(" ");
    out.append(pad_left(cand, 12).as_str());
    out.append(" ");
    out.append(pad_left(delta, 10).as_str());
    out.append(" ");
    out.append(pad_left(ci, 20).as_str());
    out.append(" ");
    out.append(verdict);
    out
}

/// The heading of the table.
pub fn table_header() -> (r: String)
    ensures
        r@ == table_row(
            "backend"@,
            "format"@,
            "base_med_us"@,
            "cand_med_us"@,
            "delta_%"@,
            "ci95_pct"@,
            "verdict"@,
        ),
{
    row_text("backend", "format", "base_med_us", "cand_med_us", "delta_%", "ci95_pct", "verdict")
}

/// The line below the heading.
pub fn table_rule() -> (r: String)
    ensures
        r@ == Seq::new(90, |i: int| '-'),
{
    let mut out = String::new();
    for i in 0..90usize
        invariant
            out@ =~= Seq::new(i as nat, |k: int| '-'),
    {
        out.push('-');
    }
    out
}

/// What the last column says of a key that has no measurements to compare.
pub open spec fn remark(outcome: Outcome) -> Option<Seq<char>> {
    match outcome {
        Outcome::OnlyBaseline => Some("only in baseline"@),
        Outcome::OnlyCandidate => Some("only in candidate"@),
        Outcome::Unmeasured { reason } => Some(reason@),
        Outcome::Measured { .. } => None,
    }
}

/// The table row of a key that has no measurements to compare: dashes, and the
/// reason in the last column. `None` where there are measurements.
pub fn bare_line(row: &Row) -> (r: Option<String>)
    ensures
        match remark(row.outcome) {
            Some(why) => r is Some && r->0@ == table_row(
                row.backend@,
                row.pixel_format@,
                "-"@,
                "-"@,
                "-"@,
                "-"@,
                why,
            ),
            None => r is None,
        },
{
    let why: &str = match &row.outcome {
        Outcome::OnlyBaseline => "only in baseline",
        Outcome::OnlyCandidate => "only in candidate",
        Outcome::Unmeasured { reason } => reason.as_str(),
        Outcome::Measured { .. } => return None,
    };
    Some(
        row_text(row.backend.as_str(), row.pixel_format.as_str(), "-", "-", "-", "-", why),
    )
}

/// The table row of measurements, from numbers that are written out: the medians
/// with one decimal, the change and the ends of its interval with a sign and two.
pub fn measured_line(
    row: &Row,
    base: &str,
    cand: &str,
    delta: &str,
    lo: &str,
    hi: &str,
    verdict: Verdict,
) -> (r: String)
    ensures
        r@ == padded_right(row.backend@, 8) + " "@ + padded_right(row.pixel_format@, 8) + " "@
            + padded_left(base@, 12) + " "@ + padded_left(cand@, 12) + " "@ + padded_left(delta@, 9)
            + "% "@ + padded_left(lo@, 9) + ".."@ + padded_left(hi@, 6) + "% "@ + verdict.text(),
{
    let mut out = pad_right(row.backend.as_str(), 8);
    out.append(" ");
    out.append(pad_right(row.pixel_format.as_str(), 8).as_str());
    out.append(" ");
    out.append(pad_left(base, 12).as_str());
    out.append(" ");
    out.append(pad_left(cand, 12).as_str());
    out.append(" ");
    out.append(pad_left(delta, 9).as_str());
    out.append("% ");
    out.append(pad_left(lo, 9).as_str());
    out.append("..");
    out.append(pad_left(hi, 6).as_str());
    out.append("% ");
    out.append(verdict.name());
    out
}

/// One side of a comparison.
#[derive(Clone, Copy, Debug, PartialEq, Eq, Structural)]
pub enum Side {
    Baseline,
    Candidate,
}

impl Side {
    pub open spec fn title(self) -> Seq<char> {
        match self {
            Side::Baseline => "baseline:  "@,
            Side::Candidate => "candidate: "@,
        }
    }
}

/// The line that introduces one side of a comparison.
pub fn side_line(side: Side, path: &str, git: &GitInfo) -> (r: String)
    requires
        can_shorten(git.plugin_rev@),
        can_shorten(git.core_rev@),
    ensures
        r@ == side.title() + path@ + "  (plugin "@ + shortened(git.plugin_rev@) + ", core "@
            + shortened(git.core_rev@) + ")"@,
{
    let mut out = match side {
        Side::Baseline => "baseline:  ".to_owned(),
        Side::Candidate => "candidate: ".to_owned(),
    };
    out.append(path);
    out.append("  (plugin ");
    out.append(short(git.plugin_rev.as_str()));
    out.append(", core ");
    out.append(short(git.core_rev.as_str()));
    out.append(")");
    out
}

/// A regression takes both a change above the threshold and an interval of nothing
/// but increases; a win, unless it is a regression, both a change below the negated
/// threshold and an interval of nothing but decreases. However large the change, an
/// interval that has no change in it, or none at all, makes it noise.
pub proof fn law_verdict(delta: Binary64, threshold: Binary64, ci: Option<Interval>)
    ensures
        verdict_of(delta, threshold, ci) == Verdict::Regression <==> threshold.below(delta) && (
        ci matches Some(c) && c.lo.base < c.lo.cand),
        verdict_of(delta, threshold, ci) == Verdict::Win ==> delta.below(threshold.negated()) && (
        ci matches Some(c) && c.hi.cand < c.hi.base),
        delta.below(threshold.negated()) && (ci matches Some(c) && c.hi.cand < c.hi.base)
            ==> verdict_of(delta, threshold, ci) != Verdict::Noise,
        ci is None ==> verdict_of(delta, threshold, ci) == Verdict::Noise,
        (ci matches Some(c) && c.lo.cand <= c.lo.base && c.hi.base <= c.hi.cand) ==> verdict_of(
            delta,
            threshold,
            ci,
        ) == Verdict::Noise,
{
}

/// A larger change, a lower threshold or an interval further up never unmakes a
/// regression.
pub proof fn law_regressions_are_monotonic(
    delta: Binary64,
    threshold: Binary64,
    ci: Interval,
    larger: Binary64,
    lower: Binary64,
    above: Interval,
)
    requires
        verdict_of(delta, threshold, Some(ci)) == Verdict::Regression,
        delta == larger || delta.below(larger),
        lower == threshold || lower.below(threshold),
        ci.lo.base > 0,
        above.lo.base > 0,
        ci.lo.cand * above.lo.base <= above.lo.cand * ci.lo.base,
    ensures
        verdict_of(larger, lower, Some(above)) == Verdict::Regression,
{
    let (b, c) = (ci.lo.base as int, ci.lo.cand as int);
    let (d, e) = (above.lo.base as int, above.lo.cand as int);
    assert(d < e) by (nonlinear_arith)
        requires
            b > 0,
            d > 0,
            b < c,
            c * d <= e * b,
    ;
}

/// The change that is shown and judged is the computed one wherever the medians
/// differ. Equal medians have not changed, by whatever was computed: the change is
/// zero, of the sign of the medians, or a NaN where they are zero or infinite.
pub proof fn law_change(base: Binary64, cand: Binary64, computed: Binary64)
    ensures
        base.below(cand) || cand.below(base) ==> change_of(base, cand, computed) == computed,
        base.is_nan() || cand.is_nan() ==> change_of(base, cand, computed).is_nan(),
        base == cand && 0 < base.bits < 0x7ff0_0000_0000_0000 ==> change_of(
            base,
            cand,
            computed,
        ).bits == 0,
        base == cand && 0x8000_0000_0000_0000 < base.bits < 0xfff0_0000_0000_0000 ==> change_of(
            base,
            cand,
            computed,
        ).bits == 0x8000_0000_0000_0000u64,
        base.rank() == 0 && cand.rank() == 0 ==> change_of(base, cand, computed).is_nan(),
        base == cand && (base.bits == 0x7ff0_0000_0000_0000u64 || base.bits
            == 0xfff0_0000_0000_0000u64) ==> change_of(base, cand, computed).is_nan(),
{
}

/// Keys go by the bytes of the backend's name, and only between the formats of one
/// backend by those of the format's.
pub proof fn law_keys_go_by_backend_first(
    a: (Seq<char>, Seq<char>),
    b: (Seq<char>, Seq<char>),
)
    ensures
        a.0 != b.0 ==> (key_before(a, b) <==> comes_before(encode_utf8(a.0), encode_utf8(b.0))),
        a.0 == b.0 ==> (key_before(a, b) <==> comes_before(encode_utf8(a.1), encode_utf8(b.1))),
{
    crate::text::law_dictionary_order(encode_utf8(a.0), encode_utf8(a.0), encode_utf8(a.0));
}

proof fn lemma_last_with(cells: Seq<Cell>, key: (Seq<char>, Seq<char>), i: int)
    ensures
        last_with(cells, key) == Some(i) <==> 0 <= i < cells.len() && key_of(cells[i]) == key && (
        forall|j: int| i < j < cells.len() ==> key_of(#[trigger] cells[j]) != key),
        last_with(cells, key) is None <==> (forall|j: int|
            0 <= j < cells.len() ==> key_of(#[trigger] cells[j]) != key),
    decreases cells.len(),
{
    if cells.len() > 0 {
        let n = cells.len() - 1;
        let rest = cells.drop_last();
        lemma_last_with(rest, key, i);
        assert(key_of(cells[n]) == key_of(cells.last()));
        assert(forall|j: int| 0 <= j < n ==> key_of(#[trigger] rest[j]) == key_of(cells[j]));
        assert(forall|j: int| 0 <= j < n ==> key_of(#[trigger] cells[j]) == key_of(rest[j]));
    }
}

/// Where both runs have the cell, it is compared exactly where neither was skipped
/// and each has at least one sample, whatever the two numbers of samples are: the
/// last cells of that backend and format, by the interval of a thousand resamplings
/// of all their frame times. Otherwise the row gives the baseline's note, else the
/// candidate's; only where there is no note, and one of the two has no samples, it
/// says so.
pub proof fn law_cells_on_both_sides(
    outcome: Outcome,
    base: Seq<Cell>,
    cand: Seq<Cell>,
    backend: Seq<char>,
    format: Seq<char>,
    b: int,
    c: int,
)
    requires
        is_outcome(outcome, base, cand, (backend, format)),
        0 <= b < base.len() && base[b].backend@ == backend && base[b].pixel_format@ == format,
        forall|j: int|
            b < j < base.len() ==> (#[trigger] base[j]).backend@ != backend || base[j].pixel_format@
                != format,
        0 <= c < cand.len() && cand[c].backend@ == backend && cand[c].pixel_format@ == format,
        forall|j: int|
            c < j < cand.len() ==> (#[trigger] cand[j]).backend@ != backend || cand[j].pixel_format@
                != format,
    ensures
        base[b].note is None && cand[c].note is None && base[b].summary.samples >= 1
            && cand[c].summary.samples >= 1 ==> (outcome matches Outcome::Measured {
            base: i,
            cand: j,
            ci,
        } && i == b && j == c && is_bootstrap_interval(
            ci,
            pooled(base[b].iterations@),
            pooled(cand[c].iterations@),
            1000,
        )),
        base[b].note matches Some(n) ==> (outcome matches Outcome::Unmeasured { reason } && reason@
            == n@),
        base[b].note is None && cand[c].note is Some ==> (outcome matches Outcome::Unmeasured {
            reason,
        } && reason@ == cand[c].note->0@),
        base[b].note is None && cand[c].note is None && (base[b].summary.samples == 0
            || cand[c].summary.samples == 0) ==> (outcome matches Outcome::Unmeasured { reason }
            && reason@ == "(no samples)"@),
{
    let key = (backend, format);
    assert(key_of(base[b]) == key && key_of(cand[c]) == key);
    lemma_last_with(base, key, b);
    lemma_last_with(cand, key, c);
}

/// A cell that one of the runs lacks is reported as the other's alone, and there is
/// no row for a cell that both lack.
pub proof fn law_cells_on_one_side(
    outcome: Outcome,
    base: Seq<Cell>,
    cand: Seq<Cell>,
    backend: Seq<char>,
    format: Seq<char>,
)
    requires
        is_outcome(outcome, base, cand, (backend, format)),
    ensures
        outcome is OnlyBaseline <==> (forall|j: int|
            0 <= j < cand.len() ==> (#[trigger] cand[j]).backend@ != backend
                || cand[j].pixel_format@ != format),
        outcome is OnlyCandidate <==> (forall|j: int|
            0 <= j < base.len() ==> (#[trigger] base[j]).backend@ != backend
                || base[j].pixel_format@ != format),
{
    let key = (backend, format);
    lemma_last_with(base, key, 0);
    lemma_last_with(cand, key, 0);
    assert(forall|j: int|
        0 <= j < base.len() ==> (key_of(#[trigger] base[j]) == key <==> base[j].backend@ == backend
            && base[j].pixel_format@ == format));
    assert(forall|j: int|
        0 <= j < cand.len() ==> (key_of(#[trigger] cand[j]) == key <==> cand[j].backend@ == backend
            && cand[j].pixel_format@ == format));
}

/// The rows of a comparison stand for its cells by the names of backend and format:
/// a row for a cell's key is one with the cell's names.
pub proof fn law_rows_are_of_their_cells(rows: Seq<Row>, cell: Cell)
    ensures
        has_row(rows, key_of(cell)) <==> exists|i: int|
            0 <= i < rows.len() && (#[trigger] rows[i]).backend@ == cell.backend@
                && rows[i].pixel_format@ == cell.pixel_format@,
        forall|i: int|
            0 <= i < rows.len() ==> (#[trigger] rows[i]).key() == (
                rows[i].backend@,
                rows[i].pixel_format@,
            ),
{
    if exists|i: int|
        0 <= i < rows.len() && (#[trigger] rows[i]).backend@ == cell.backend@
            && rows[i].pixel_format@ == cell.pixel_format@ {
        let i = choose|i: int|
            0 <= i < rows.len() && (#[trigger] rows[i]).backend@ == cell.backend@
                && rows[i].pixel_format@ == cell.pixel_format@;
        assert(rows[i].key() == key_of(cell));
    }
}

/// A revision of at most seven bytes stays as it is; of a longer one that can be
/// cut, the first seven bytes are left.
pub proof fn law_revisions_are_cut_to_seven_bytes(s: Seq<char>)
    ensures
        encode_utf8(s).len() <= 7 ==> can_shorten(s) && shortened(s) == s,
        encode_utf8(s).len() > 7 ==> (can_shorten(s) <==> is_char_boundary(encode_utf8(s), 7)),
        encode_utf8(s).len() > 7 ==> shortened(s) == decode_utf8(encode_utf8(s).take(7)),
{
    if encode_utf8(s).len() > 7 {
        assert(encode_utf8(s).take(7) =~= encode_utf8(s).subrange(0, 7));
    }
}

/// What is said of a key without measurements: the side that has it alone, or why
/// there are none.
pub proof fn law_remark(outcome: Outcome)
    ensures
        remark(outcome) is None <==> outcome is Measured,
        outcome is OnlyBaseline ==> remark(outcome) == Some("only in baseline"@),
        outcome is OnlyCandidate ==> remark(outcome) == Some("only in candidate"@),
        outcome matches Outcome::Unmeasured { reason } ==> remark(outcome) == Some(reason@),
{
}

/// The words of the verdicts, and the titles of the two sides.
pub proof fn law_words(v: Verdict, s: Side)
    ensures
        v.text() == "REGRESSION"@ <==> v == Verdict::Regression,
        v.text() == "WIN"@ <==> v == Verdict::Win,
        v.text() == "noise"@ <==> v == Verdict::Noise,
        s == Side::Baseline ==> s.title() == "baseline:  "@,
        s == Side::Candidate ==> s.title() == "candidate: "@,
{
    reveal_strlit("REGRESSION");
    reveal_strlit("WIN");
    reveal_strlit("noise");
    assert("REGRESSION"@.len() == 10 && "WIN"@.len() == 3 && "noise"@.len() == 5);
}

/// What a column is preceded and followed by can be joined to either side of it.
proof fn lemma_regroup(front: Seq<char>, s: Seq<char>, behind: Seq<char>)
    ensures
        (front + " "@ + s) + behind == front + (" "@ + s + behind),
        (front + " "@ + s).len() == front.len() + 1 + s.len(),
        ((front + " "@ + s) + behind).subrange(
            front.len() as int + 1,
            (front + " "@ + s).len() as int,
        ) == s,
{
    reveal_strlit(" ");
    let n = front.len() as int;
    assert((front + " "@ + s) + behind =~= front + (" "@ + s + behind));
    assert(((front + " "@ + s) + behind).subrange(n + 1, n + 1 + s.len()) =~= s);
}

proof fn lemma_column_widths(s: Seq<char>, width: int)
    ensures
        padded_right(s, width).len() == max(width, s.len() as int),
        padded_left(s, width).len() == max(width, s.len() as int),
{
}

/// A text that is padded on the right stands at the left edge of its column.
proof fn lemma_left_column(t: Seq<char>, from: int, end: int, s: Seq<char>, width: int)
    requires
        0 <= from <= end <= t.len(),
        t.subrange(from, end) == padded_right(s, width),
    ensures
        t.subrange(from, from + s.len()) == s,
{
    let part = t.subrange(from, end);
    assert(part.len() == s.len() + crate::text::spaces(width - s.len()).len());
    assert forall|i: int| 0 <= i < s.len() implies t[from + i] == s[i] by {
        assert(part[i] == s[i]);
    }
    assert(t.subrange(from, from + s.len()) =~= s);
}

/// A text that is padded on the left stands at the right edge of its column.
proof fn lemma_right_column(t: Seq<char>, from: int, end: int, s: Seq<char>, width: int)
    requires
        0 <= from <= end <= t.len(),
        t.subrange(from, end) == padded_left(s, width),
    ensures
        t.subrange(end - s.len(), end) == s,
{
    let part = t.subrange(from, end);
    let gap = crate::text::spaces(width - s.len()).len();
    assert(part.len() == gap + s.len());
    assert forall|i: int| 0 <= i < s.len() implies t[end - s.len() + i] == s[i] by {
        assert(part[gap + i] == s[i]);
    }
    assert(t.subrange(end - s.len(), end) =~= s);
}

/// The table has its columns side by side, with a space between: texts stand at the
/// left edge of the first two and at the right edge of the next four, and the last
/// begins behind them all. A column is wider than its width only for a text that
/// does not fit.
#[verifier::spinoff_prover]
pub proof fn law_table_columns(
    backend: Seq<char>,
    format: Seq<char>,
    base: Seq<char>,
    cand: Seq<char>,
    delta: Seq<char>,
    ci: Seq<char>,
    verdict: Seq<char>,
)
    ensures
        ({
            let t = table_row(backend, format, base, cand, delta, ci, verdict);
            let e1 = max(8, backend.len() as int);
            let e2 = e1 + 1 + max(8, format.len() as int);
            let e3 = e2 + 1 + max(12, base.len() as int);
            let e4 = e3 + 1 + max(12, cand.len() as int);
            let e5 = e4 + 1 + max(10, delta.len() as int);
            let e6 = e5 + 1 + max(20, ci.len() as int);
            &&& t.len() == e6 + 1 + verdict.len()
            &&& t.subrange(0, backend.len() as int) == backend
            &&& t.subrange(e1 + 1, e1 + 1 + format.len()) == format
            &&& t.subrange(e3 - base.len(), e3) == base
            &&& t.subrange(e4 - cand.len(), e4) == cand
            &&& t.subrange(e5 - delta.len(), e5) == delta
            &&& t.subrange(e6 - ci.len(), e6) == ci
            &&& t.subrange(e6 + 1, t.len() as int) == verdict
        }),
{
    let t = table_row(backend, format, base, cand, delta, ci, verdict);
    let (c1, c2) = (padded_right(backend, 8), padded_right(format, 8));
    let (c3, c4) = (padded_left(base, 12), padded_left(cand, 12));
    let (c5, c6) = (padded_left(delta, 10), padded_left(ci, 20));
    let p2 = c1 + " "@ + c2;
    let p3 = p2 + " "@ + c3;
    let p4 = p3 + " "@ + c4;
    let p5 = p4 + " "@ + c5;
    let p6 = p5 + " "@ + c6;
    let r7 = Seq::<char>::empty();
    let r6 = " "@ + verdict + r7;
    let r5 = " "@ + c6 + r6;
    let r4 = " "@ + c5 + r5;
    let r3 = " "@ + c4 + r4;
    let r2 = " "@ + c3 + r3;
    assert(t + r7 =~= t);
    lemma_regroup(p6, verdict, r7);
    lemma_regroup(p5, c6, r6);
    lemma_regroup(p4, c5, r5);
    lemma_regroup(p3, c4, r4);
    lemma_regroup(p2, c3, r3);
    lemma_regroup(c1, c2, r2);
    assert(t.subrange(0, c1.len() as int) == c1) by {
        assert((c1 + (" "@ + c2 + r2)).subrange(0, c1.len() as int) =~= c1);
    }
    lemma_column_widths(backend, 8);
    lemma_column_widths(format, 8);
    lemma_column_widths(base, 12);
    lemma_column_widths(cand, 12);
    lemma_column_widths(delta, 10);
    lemma_column_widths(ci, 20);
    let e1 = c1.len() as int;
    let e2 = p2.len() as int;
    let e3 = p3.len() as int;
    let e4 = p4.len() as int;
    let e5 = p5.len() as int;
    let e6 = p6.len() as int;
    lemma_left_column(t, 0, e1, backend, 8);
    lemma_left_column(t, e1 + 1, e2, format, 8);
    lemma_right_column(t, e2 + 1, e3, base, 12);
    lemma_right_column(t, e3 + 1, e4, cand, 12);
    lemma_right_column(t, e4 + 1, e5, delta, 10);
    lemma_right_column(t, e5 + 1, e6, ci, 20);
}

} // verus!
