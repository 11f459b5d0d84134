//! Percentile bootstrap of the change of medians between two sets of frame times.

use crate::result::{Cell, IterationData};
use crate::stats::{ascending, lemma_ascending, sort};
use vstd::prelude::*;

verus! {

/// Seed of the resampling.
pub const SEED: u64 = 0xC0FFEE;

/// One step of the generator's state.
pub open spec fn xorshift(x: u64) -> u64 {
    let a = x ^ (x >> 12u64);
    let b = a ^ (a << 25u64);
    b ^ (b >> 27u64)
}

/// The number that the generator yields on reaching a state.
pub open spec fn yielded(x: u64) -> u64 {
    x.wrapping_mul(0x2545F4914F6CDD1D)
}

/// The state `n` steps on.
pub open spec fn advanced(x: u64, n: nat) -> u64
    decreases n,
{
    if n == 0 {
        x
    } else {
        xorshift(advanced(x, (n - 1) as nat))
    }
}

/// A small deterministic generator (xorshift64*).
pub struct SimpleRng {
    state: u64,
}

impl View for SimpleRng {
    type V = u64;

    closed spec fn view(&self) -> u64 {
        self.state
    }
}

impl SimpleRng {
    /// A generator started from `seed`, whose lowest bit is set so that the state
    /// is not zero.
    pub fn new(seed: u64) -> (r: Self)
        ensures
            r@ == seed | 1,
            r@ != 0,
    {
        assert(seed | 1 != 0) by (bit_vector);
        SimpleRng { state: seed | 1 }
    }

    /// The next number.
    pub fn next_u64(&mut self) -> (r: u64)
        ensures
            final(self)@ == xorshift(old(self)@),
            r == yielded(final(self)@),
    {
        let mut x: u64 = self.state;
        x = x ^ (x >> 12u64);
        x = x ^ (x << 25u64);
        x = x ^ (x >> 27u64);
        self.state = x;
        x.wrapping_mul(0x2545F4914F6CDD1D)
    }

    /// The next number, reduced to less than `bound`.
    pub fn next_usize(&mut self, bound: usize) -> (r: usize)
        requires
            bound > 0,
        ensures
            final(self)@ == xorshift(old(self)@),
            r == yielded(final(self)@) as usize % bound,
            r < bound,
    {
        (self.next_u64() as usize) % bound
    }
}

/// The generator's state is never zero, where it would be stuck: neither when it
/// is made nor after any number of steps.
pub proof fn law_state_is_never_zero(seed: u64, n: nat)
    ensures
        advanced(seed | 1, n) != 0,
    decreases n,
{
    if n == 0 {
        assert(seed | 1 != 0) by (bit_vector);
    } else {
        law_state_is_never_zero(seed, (n - 1) as nat);
        let x = advanced(seed | 1, (n - 1) as nat);
        let a = x ^ (x >> 12u64);
        let b = a ^ (a << 25u64);
        assert(x != 0 ==> x ^ (x >> 12u64) != 0) by (bit_vector);
        assert(a != 0 ==> a ^ (a << 25u64) != 0) by (bit_vector);
        assert(b != 0 ==> b ^ (b >> 27u64) != 0) by (bit_vector);
    }
}

proof fn lemma_advanced_adds(x: u64, m: nat, n: nat)
    ensures
        advanced(advanced(x, m), n) == advanced(x, m + n),
    decreases n,
{
    if n > 0 {
        lemma_advanced_adds(x, m, (n - 1) as nat);
    }
}

/// As many draws from `pool`, with replacement, as it has samples, by a generator
/// in the given state.
pub open spec fn draws(state: u64, pool: Seq<u64>) -> Seq<u64> {
    Seq::new(
        pool.len(),
        |i: int| pool[yielded(advanced(state, (i + 1) as nat)) as usize as int % pool.len() as int],
    )
}

/// Fills `buf` with draws from `pool`.
fn resample(rng: &mut SimpleRng, pool: &[u64], buf: &mut Vec<u64>)
    ensures
        final(buf)@ == draws(old(rng)@, pool@),
        final(rng)@ == advanced(old(rng)@, pool@.len()),
{
    let ghost start = rng@;
    buf.clear();
    for i in 0..pool.len()
        invariant
            rng@ == advanced(start, i as nat),
            buf@ == draws(start, pool@).take(i as int),
    {
        let k: usize = rng.next_usize(pool.len());
        assert(rng@ == advanced(start, (i + 1) as nat));
        buf.push(pool[k]);
        assert(draws(start, pool@).take(i as int + 1) =~= draws(start, pool@).take(i as int).push(
            draws(start, pool@)[i as int],
        ));
    }
    assert(draws(start, pool@).take(pool@.len() as int) =~= draws(start, pool@));
}

/// Twice the median: the sum of the two middle samples, or of the middle one with
/// itself. Zero where there are no samples.
pub open spec fn doubled_median(s: Seq<u64>) -> int {
    let sorted = ascending(s);
    let n = s.len();
    if n == 0 {
        0
    } else {
        sorted[(n - 1) / 2 as int] + sorted[n as int / 2]
    }
}

/// Twice the median of the samples, which are put in ascending order.
pub fn median(v: &mut Vec<u64>) -> (r: u128)
    ensures
        r == doubled_median(old(v)@),
        final(v)@ == ascending(old(v)@),
{
    proof {
        lemma_ascending(v@);
    }
    sort(v);
    let n: usize = v.len();
    if n == 0 {
        return 0;
    }
    v[(n - 1) / 2] as u128 + v[n / 2] as u128
}

/// A baseline and a candidate median, each doubled. It stands for the change from
/// the one to the other, `cand / base - 1`.
#[derive(Clone, Copy, Debug, PartialEq, Eq, Structural)]
pub struct Change {
    pub base: u128,
    pub cand: u128,
}

impl Change {
    /// Whether `self` is a smaller change than `other`: `cand / base` is smaller.
    pub open spec fn smaller(self, other: Self) -> bool {
        self.cand * other.base < other.cand * self.base
    }

    /// Whether the candidate takes longer.
    pub open spec fn is_increase(self) -> bool {
        self.cand > self.base
    }

    /// Whether the candidate takes less time.
    pub open spec fn is_decrease(self) -> bool {
        self.cand < self.base
    }

    /// The change the other way round.
    pub open spec fn reversed(self) -> Self {
        Change { base: self.cand, cand: self.base }
    }
}

/// Whether `n1 / d1 < n2 / d2`, by comparing whole parts and then, upside down,
/// what is left over them.
fn fraction_less(n1: u128, d1: u128, n2: u128, d2: u128) -> (r: bool)
    requires
        d1 > 0,
        d2 > 0,
    ensures
        r == (n1 * d2 < n2 * d1),
    decreases d1 + d2,
{
    let q1: u128 = n1 / d1;
    let q2: u128 = n2 / d2;
    let r1: u128 = n1 % d1;
    let r2: u128 = n2 % d2;
    proof {
        lemma_fraction_parts(n1 as int, d1 as int, n2 as int, d2 as int);
    }
    if q1 != q2 {
        q1 < q2
    } else if r2 == 0 {
        false
    } else if r1 == 0 {
        true
    } else {
        fraction_less(d2, r2, d1, r1)
    }
}

proof fn lemma_fraction_parts(n1: int, d1: int, n2: int, d2: int)
    requires
        n1 >= 0,
        n2 >= 0,
        d1 > 0,
        d2 > 0,
    ensures
        n1 / d1 < n2 / d2 ==> n1 * d2 < n2 * d1,
        n1 / d1 > n2 / d2 ==> n1 * d2 > n2 * d1,
        n1 / d1 == n2 / d2 ==> ((n1 * d2 < n2 * d1) == (d2 * (n1 % d1) < d1 * (n2 % d2))),
        n1 % d1 == 0 && n2 % d2 > 0 ==> d2 * (n1 % d1) < d1 * (n2 % d2),
        n2 % d2 == 0 ==> d2 * (n1 % d1) >= d1 * (n2 % d2),
{
    let q1 = n1 / d1;
    let q2 = n2 / d2;
    let r1 = n1 % d1;
    let r2 = n2 % d2;
    vstd::arithmetic::div_mod::lemma_fundamental_div_mod(n1, d1);
    vstd::arithmetic::div_mod::lemma_fundamental_div_mod(n2, d2);
    assert(0 <= r1 < d1 && 0 <= r2 < d2);
    assert(n1 * d2 == q1 * (d1 * d2) + d2 * r1) by (nonlinear_arith)
        requires
            n1 == d1 * q1 + r1,
    ;
    assert(n2 * d1 == q2 * (d1 * d2) + d1 * r2) by (nonlinear_arith)
        requires
            n2 == d2 * q2 + r2,
    ;
    assert(0 <= d2 * r1 < d1 * d2) by (nonlinear_arith)
        requires
            0 <= r1 < d1,
            d2 > 0,
    ;
    assert(0 <= d1 * r2 < d1 * d2) by (nonlinear_arith)
        requires
            0 <= r2 < d2,
            d1 > 0,
    ;
    assert(r2 > 0 ==> d1 * r2 > 0) by (nonlinear_arith)
        requires
            d1 > 0,
    ;
    assert(r1 == 0 ==> d2 * r1 == 0) by (nonlinear_arith);
    assert(r2 == 0 ==> d1 * r2 == 0) by (nonlinear_arith);
    let w = d1 * d2;
    if q1 < q2 {
        assert(q1 * w + w <= q2 * w) by (nonlinear_arith)
            requires
                q1 + 1 <= q2,
                w >= 0,
        ;
    } else if q1 > q2 {
        assert(q2 * w + w <= q1 * w) by (nonlinear_arith)
            requires
                q2 + 1 <= q1,
                w >= 0,
        ;
    }
}

/// Whether the changes have positive baselines and go from the smallest to the
/// largest.
pub open spec fn is_ranked(s: Seq<Change>) -> bool {
    &&& forall|i: int| 0 <= i < s.len() ==> (#[trigger] s[i]).base > 0
    &&& forall|i: int, j: int| 0 <= i <= j < s.len() ==> !s[j].smaller(s[i])
}

proof fn lemma_not_smaller_transitive(a: Change, b: Change, c: Change)
    requires
        a.base > 0,
        b.base > 0,
        c.base > 0,
        !b.smaller(a),
        !c.smaller(b),
    ensures
        !c.smaller(a),
{
    let (ab, ac) = (a.base as int, a.cand as int);
    let (bb, bc) = (b.base as int, b.cand as int);
    let (cb, cc) = (c.base as int, c.cand as int);
    assert(ac * cb * bb <= cc * ab * bb) by (nonlinear_arith)
        requires
            ac * bb <= bc * ab,
            bc * cb <= cc * bb,
            ab > 0,
            cb > 0,
    {
        assert((ac * bb) * cb <= (bc * ab) * cb);
        assert((bc * cb) * ab <= (cc * bb) * ab);
        assert((ac * bb) * cb == ac * cb * bb);
        assert((bc * ab) * cb == (bc * cb) * ab);
        assert((cc * bb) * ab == cc * ab * bb);
    }
    assert(ac * cb <= cc * ab) by (nonlinear_arith)
        requires
            (ac * cb) * bb <= (cc * ab) * bb,
            bb > 0,
    ;
}

/// Puts one change where it belongs among ranked ones, behind those that are
/// neither smaller nor larger.
fn insert_ranked(v: &mut Vec<Change>, x: Change)
    requires
        is_ranked(old(v)@),
        x.base > 0,
    ensures
        is_ranked(final(v)@),
        final(v)@.to_multiset() == old(v)@.to_multiset().insert(x),
{
    let ghost s = v@;
    let mut at: usize = v.len();
    while at > 0 && fraction_less(x.cand, x.base, v[at - 1].cand, v[at - 1].base)
        invariant
            v@ == s,
            is_ranked(s),
            x.base > 0,
            at <= s.len(),
            forall|k: int| at <= k < s.len() ==> x.smaller(#[trigger] s[k]),
        decreases at,
    {
        at = at - 1;
    }
    proof {
        if at > 0 {
            assert forall|k: int| 0 <= k < at implies !x.smaller(#[trigger] s[k]) by {
                lemma_not_smaller_transitive(s[k], s[at - 1], x);
            }
        }
        broadcast use vstd::seq_lib::group_to_multiset_ensures;

        let t = s.insert(at as int, x);
        assert forall|i: int, j: int| 0 <= i <= j < t.len() implies !t[j].smaller(t[i]) by {
            if i == at && j > at {
                assert(x.smaller(s[j - 1]));
            }
        }
    }
    v.insert(at, x);
}

/// An interval of changes.
#[derive(Clone, Copy, Debug, PartialEq, Eq, Structural)]
pub struct Interval {
    pub lo: Change,
    pub hi: Change,
}

/// The changes of the medians over `rounds` resamplings of both pools, by a
/// generator in the given state. A round whose baseline median is zero is left out.
pub open spec fn resampled_changes(state: u64, base: Seq<u64>, cand: Seq<u64>, rounds: nat) -> Seq<
    Change,
>
    decreases rounds,
{
    if rounds == 0 {
        Seq::empty()
    } else {
        let before = resampled_changes(state, base, cand, (rounds - 1) as nat);
        let at = advanced(state, ((rounds - 1) * (base.len() + cand.len())) as nat);
        let b = doubled_median(draws(at, base));
        let c = doubled_median(draws(advanced(at, base.len()), cand));
        if b > 0 {
            before.push(Change { base: b as u128, cand: c as u128 })
        } else {
            before
        }
    }
}

/// Whether `ci` cuts 2.5 percent of the changes off at either end: it lies between
/// the changes at these ranks once they are ranked. There is none where there are
/// no changes.
pub open spec fn is_central_interval(ci: Option<Interval>, changes: Seq<Change>) -> bool {
    match ci {
        None => changes.len() == 0,
        Some(ci) => changes.len() > 0 && exists|ranked: Seq<Change>|
            {
                &&& #[trigger] is_ranked(ranked)
                &&& ranked.to_multiset() == changes.to_multiset()
                &&& ci.lo == ranked[changes.len() as int * 25 / 1000]
                &&& ci.hi == ranked[changes.len() as int * 975 / 1000]
            },
    }
}

/// Whether `ci` is the bootstrap interval of the change from the median of `base`
/// to that of `cand`. There is none where either has no samples.
pub open spec fn is_bootstrap_interval(
    ci: Option<Interval>,
    base: Seq<u64>,
    cand: Seq<u64>,
    rounds: nat,
) -> bool {
    if base.len() == 0 || cand.len() == 0 {
        ci is None
    } else {
        is_central_interval(ci, resampled_changes(SEED | 1, base, cand, rounds))
    }
}

/// All frame times of some iterations, in order.
pub open spec fn pooled(iterations: Seq<IterationData>) -> Seq<u64>
    decreases iterations.len(),
{
    if iterations.len() == 0 {
        Seq::empty()
    } else {
        pooled(iterations.drop_last()) + iterations.last().frame_us@
    }
}

/// All frame times of some iterations, in order.
pub fn pool(iterations: &[IterationData]) -> (r: Vec<u64>)
    ensures
        r@ == pooled(iterations@),
{
    let mut out: Vec<u64> = Vec::new();
    for i in 0..iterations.len()
        invariant
            out@ == pooled(iterations@.take(i as int)),
    {
        assert(iterations@.take(i as int + 1).drop_last() =~= iterations@.take(i as int));
        let ghost before = out@;
        out.extend_from_slice(iterations[i].frame_us.as_slice());
        assert(out@ =~= before + iterations@[i as int].frame_us@);
    }
    assert(iterations@.take(iterations@.len() as int) =~= iterations@);
    out
}

/// Percentile bootstrap of the change of the medians, at 95 percent.
pub fn bootstrap_ci_pct(base: &Cell, cand: &Cell, iters: usize) -> (ci: Option<Interval>)
    ensures
        is_bootstrap_interval(
            ci,
            pooled(base.iterations@),
            pooled(cand.iterations@),
            iters as nat,
        ),
{
    let b: Vec<u64> = pool(base.iterations.as_slice());
    let c: Vec<u64> = pool(cand.iterations.as_slice());
    if b.len() == 0 || c.len() == 0 {
        return None;
    }
    let mut rng = SimpleRng::new(SEED);
    let ghost start = rng@;
    let ghost step = (b@.len() + c@.len()) as nat;
    let mut ranked: Vec<Change> = Vec::new();
    let mut buf_b: Vec<u64> = Vec::new();
    let mut buf_c: Vec<u64> = Vec::new();
    let ghost mut changes: Seq<Change> = Seq::empty();
    proof {
        broadcast use vstd::seq_lib::group_to_multiset_ensures;

        assert(ranked@ =~= changes);
        assert(0 * step == 0) by (nonlinear_arith);
    }
    for i in 0..iters
        invariant
            step == b@.len() + c@.len(),
            rng@ == advanced(start, (i * step) as nat),
            changes == resampled_changes(start, b@, c@, i as nat),
            is_ranked(ranked@),
            ranked@.to_multiset() == changes.to_multiset(),
    {
        let ghost at = rng@;
        resample(&mut rng, b.as_slice(), &mut buf_b);
        resample(&mut rng, c.as_slice(), &mut buf_c);
        let bm: u128 = median(&mut buf_b);
        let cm: u128 = median(&mut buf_c);
        proof {
            lemma_advanced_adds(at, b@.len(), c@.len());
            lemma_advanced_adds(start, (i * step) as nat, step);
            assert(i * step + step == (i + 1) * step) by (nonlinear_arith);
            assert(resampled_changes(start, b@, c@, (i + 1) as nat) == if bm > 0 {
                changes.push(Change { base: bm, cand: cm })
            } else {
                changes
            });
            broadcast use vstd::seq_lib::group_to_multiset_ensures;

        }
        if bm > 0 {
            let x = Change { base: bm, cand: cm };
            insert_ranked(&mut ranked, x);
            proof {
                changes = changes.push(x);
            }
        }
    }
    let n: usize = ranked.len();
    proof {
        broadcast use vstd::seq_lib::group_to_multiset_ensures;

        assert(ranked@.to_multiset().len() == changes.to_multiset().len());
        assert(n == changes.len());
    }
    if n == 0 {
        return None;
    }
    let lo: usize = (n as u128 * 25 / 1000) as usize;
    let hi: usize = (n as u128 * 975 / 1000) as usize;
    let r = Interval { lo: ranked[lo], hi: ranked[hi] };
    assert(is_ranked(ranked@));
    Some(r)
}

/// The ranked changes that an interval lies between two of.
proof fn lemma_ranking(ci: Interval, changes: Seq<Change>) -> (ranked: Seq<Change>)
    requires
        is_central_interval(Some(ci), changes),
    ensures
        is_ranked(ranked),
        ranked.to_multiset() == changes.to_multiset(),
        ranked.len() == changes.len(),
        changes.len() > 0,
        ci.lo == ranked[changes.len() as int * 25 / 1000],
        ci.hi == ranked[changes.len() as int * 975 / 1000],
        forall|i: int| 0 <= i < ranked.len() ==> changes.contains(#[trigger] ranked[i]),
{
    broadcast use vstd::seq_lib::group_to_multiset_ensures;

    let ranked = choose|ranked: Seq<Change>|
        {
            &&& #[trigger] is_ranked(ranked)
            &&& ranked.to_multiset() == changes.to_multiset()
            &&& ci.lo == ranked[changes.len() as int * 25 / 1000]
            &&& ci.hi == ranked[changes.len() as int * 975 / 1000]
        };
    assert(ranked.to_multiset().len() == changes.to_multiset().len());
    assert forall|i: int| 0 <= i < ranked.len() implies changes.contains(#[trigger] ranked[i]) by {
        assert(ranked.contains(ranked[i]));
        assert(ranked.to_multiset().count(ranked[i]) > 0);
    }
    ranked
}

/// The lower end of an interval is never the larger change, and both ends compare
/// with a positive baseline.
pub proof fn law_interval_is_ordered(ci: Interval, changes: Seq<Change>)
    requires
        is_central_interval(Some(ci), changes),
    ensures
        !ci.hi.smaller(ci.lo),
        ci.lo.base > 0,
        ci.hi.base > 0,
{
    let ranked = lemma_ranking(ci, changes);
}

/// How many of the changes are larger than `x`.
spec fn larger(s: Seq<Change>, x: Change) -> nat {
    s.to_multiset().filter(|c: Change| x.smaller(c)).len()
}

proof fn lemma_larger_push(s: Seq<Change>, a: Change, x: Change)
    ensures
        larger(s.push(a), x) == larger(s, x) + if x.smaller(a) {
            1nat
        } else {
            0
        },
{
    broadcast use {
        vstd::seq_lib::group_to_multiset_ensures,
        vstd::multiset::group_multiset_axioms,
    };

    let p = |c: Change| x.smaller(c);
    let m = s.to_multiset();
    assert(s.push(a).to_multiset() == m.insert(a));
    if p(a) {
        assert(m.insert(a).filter(p) =~= m.filter(p).insert(a));
    } else {
        assert(m.insert(a).filter(p) =~= m.filter(p));
    }
}

/// Where none of the first `skip` changes is larger than `x`, at most the others
/// are; where all others are, they are at least as many.
proof fn lemma_larger_bounds(s: Seq<Change>, x: Change, skip: int, n: int)
    requires
        0 <= skip <= s.len(),
        0 <= n <= s.len(),
    ensures
        (forall|i: int| 0 <= i < skip ==> !x.smaller(#[trigger] s[i])) ==> larger(s.take(n), x)
            <= if n < skip {
            0
        } else {
            n - skip
        },
        (forall|i: int| skip <= i < s.len() ==> x.smaller(#[trigger] s[i])) ==> larger(s.take(n), x)
            >= n - skip,
    decreases n,
{
    if n == 0 {
        broadcast use {
            vstd::seq_lib::group_to_multiset_ensures,
            vstd::multiset::group_multiset_axioms,
        };

        assert(s.take(0) =~= Seq::<Change>::empty());
        let m = s.take(0).to_multiset();
        assert(m.filter(|c: Change| x.smaller(c)) =~= vstd::multiset::Multiset::empty());
    } else {
        lemma_larger_bounds(s, x, skip, n - 1);
        assert(s.take(n) =~= s.take(n - 1).push(s[n - 1]));
        lemma_larger_push(s.take(n - 1), s[n - 1], x);
    }
}

proof fn lemma_ranks_agree(a: Seq<Change>, b: Seq<Change>, k: int)
    requires
        is_ranked(a),
        is_ranked(b),
        a.to_multiset() == b.to_multiset(),
        a.len() == b.len(),
        0 <= k < a.len(),
    ensures
        !a[k].smaller(b[k]),
{
    let x = a[k];
    if x.smaller(b[k]) {
        assert forall|i: int| k <= i < b.len() implies x.smaller(#[trigger] b[i]) by {
            if !x.smaller(b[i]) {
                lemma_not_smaller_transitive(b[k], b[i], x);
            }
        }
        lemma_larger_bounds(b, x, k, b.len() as int);
        lemma_larger_bounds(a, x, k + 1, a.len() as int);
        assert(a.take(a.len() as int) =~= a);
        assert(b.take(b.len() as int) =~= b);
    }
}

/// The interval is determined by the samples: of two intervals of the same change,
/// either both are there or neither, and at each end the two changes are equal,
/// neither being smaller than the other.
pub proof fn law_interval_is_determined(
    one: Option<Interval>,
    other: Option<Interval>,
    base: Seq<u64>,
    cand: Seq<u64>,
    rounds: nat,
)
    requires
        is_bootstrap_interval(one, base, cand, rounds),
        is_bootstrap_interval(other, base, cand, rounds),
    ensures
        (one is Some) == (other is Some),
        one is Some ==> !one->0.lo.smaller(other->0.lo) && !other->0.lo.smaller(one->0.lo),
        one is Some ==> !one->0.hi.smaller(other->0.hi) && !other->0.hi.smaller(one->0.hi),
{
    if one is Some && other is Some {
        let changes = resampled_changes(SEED | 1, base, cand, rounds);
        let n = changes.len() as int;
        let a = lemma_ranking(one->0, changes);
        let b = lemma_ranking(other->0, changes);
        lemma_ranks_agree(a, b, n * 25 / 1000);
        lemma_ranks_agree(a, b, n * 975 / 1000);
        lemma_ranks_agree(b, a, n * 25 / 1000);
        lemma_ranks_agree(b, a, n * 975 / 1000);
    }
}

/// Whether `v` is the sum of two samples, or of one with itself.
spec fn is_sum_of_two(v: int, pool: Seq<u64>) -> bool {
    exists|i: int, j: int|
        0 <= i < pool.len() && 0 <= j < pool.len() && v == #[trigger] pool[i] + #[trigger] pool[j]
}

/// Whether a change compares two samples of the baseline with two of the candidate.
spec fn compares_samples(x: Change, base: Seq<u64>, cand: Seq<u64>) -> bool {
    is_sum_of_two(x.base as int, base) && is_sum_of_two(x.cand as int, cand)
}

/// The doubled median of any resampling is the sum of two of the samples.
proof fn lemma_resampled_median(state: u64, pool: Seq<u64>)
    requires
        pool.len() > 0,
    ensures
        is_sum_of_two(doubled_median(draws(state, pool)), pool),
        0 <= doubled_median(draws(state, pool)) <= u128::MAX,
{
    broadcast use vstd::seq_lib::group_to_multiset_ensures;

    let s = draws(state, pool);
    let a = ascending(s);
    lemma_ascending(s);
    assert forall|i: int| 0 <= i < a.len() implies pool.contains(#[trigger] a[i]) by {
        assert(a.contains(a[i]));
        assert(a.to_multiset().count(a[i]) > 0);
        let k = s.index_of(a[i]);
        assert(s.contains(a[i]));
        assert(s[k] == pool[yielded(advanced(state, (k + 1) as nat)) as usize as int
            % pool.len() as int]);
    }
    let n = s.len() as int;
    let i = pool.index_of(a[(n - 1) / 2]);
    let j = pool.index_of(a[n / 2]);
    assert(pool.contains(a[(n - 1) / 2]) && pool.contains(a[n / 2]));
    assert(doubled_median(s) == pool[i] + pool[j]);
}

/// Every change compares two samples of the baseline with two of the candidate, and
/// no round is left out where the baseline's samples are positive.
proof fn lemma_resampled_changes(state: u64, base: Seq<u64>, cand: Seq<u64>, rounds: nat)
    requires
        base.len() > 0,
        cand.len() > 0,
    ensures
        forall|k: int|
            0 <= k < resampled_changes(state, base, cand, rounds).len() ==> compares_samples(
                #[trigger] resampled_changes(state, base, cand, rounds)[k],
                base,
                cand,
            ),
        (forall|i: int| 0 <= i < base.len() ==> base[i] > 0) ==> resampled_changes(
            state,
            base,
            cand,
            rounds,
        ).len() == rounds,
    decreases rounds,
{
    if rounds > 0 {
        lemma_resampled_changes(state, base, cand, (rounds - 1) as nat);
        let at = advanced(state, ((rounds - 1) * (base.len() + cand.len())) as nat);
        lemma_resampled_median(at, base);
        lemma_resampled_median(advanced(at, base.len()), cand);
        let before = resampled_changes(state, base, cand, (rounds - 1) as nat);
        let now = resampled_changes(state, base, cand, rounds);
        assert forall|k: int| 0 <= k < now.len() implies compares_samples(
            #[trigger] now[k],
            base,
            cand,
        ) by {
            if k < before.len() {
                assert(now[k] == before[k]);
            }
        }
    }
}

/// Each end of a bootstrap interval compares two samples of the baseline with two of
/// the candidate.
proof fn lemma_interval_ends(ci: Option<Interval>, base: Seq<u64>, cand: Seq<u64>, rounds: nat)
    requires
        is_bootstrap_interval(ci, base, cand, rounds),
        base.len() > 0,
        cand.len() > 0,
        rounds > 0,
        forall|i: int| 0 <= i < base.len() ==> base[i] > 0,
    ensures
        ci is Some,
        compares_samples(ci->0.lo, base, cand),
        compares_samples(ci->0.hi, base, cand),
{
    let changes = resampled_changes(SEED | 1, base, cand, rounds);
    lemma_resampled_changes(SEED | 1, base, cand, rounds);
    let ranked = lemma_ranking(ci->0, changes);
    let n = changes.len() as int;
    assert(changes.contains(ranked[n * 25 / 1000]));
    assert(changes.contains(ranked[n * 975 / 1000]));
}

/// Of frame times that never vary, the interval is the change itself: from `v` to
/// `w` at both ends, so that there is no change where `v` is `w`.
pub proof fn law_constant_frame_times(
    ci: Option<Interval>,
    base: Seq<u64>,
    cand: Seq<u64>,
    rounds: nat,
    v: u64,
    w: u64,
)
    requires
        is_bootstrap_interval(ci, base, cand, rounds),
        base.len() > 0,
        cand.len() > 0,
        rounds > 0,
        v > 0,
        forall|i: int| 0 <= i < base.len() ==> base[i] == v,
        forall|i: int| 0 <= i < cand.len() ==> cand[i] == w,
    ensures
        ci is Some,
        ci->0.lo == (Change { base: (2 * v) as u128, cand: (2 * w) as u128 }),
        ci->0.hi == ci->0.lo,
{
    lemma_interval_ends(ci, base, cand, rounds);
}

/// A candidate that is slower on every frame than the baseline on any is found to be
/// slower: both ends of the interval are increases.
pub proof fn law_slower_on_every_frame(
    ci: Option<Interval>,
    base: Seq<u64>,
    cand: Seq<u64>,
    rounds: nat,
)
    requires
        is_bootstrap_interval(ci, base, cand, rounds),
        base.len() > 0,
        cand.len() > 0,
        rounds > 0,
        forall|i: int| 0 <= i < base.len() ==> base[i] > 0,
        forall|i: int, j: int|
            0 <= i < base.len() && 0 <= j < cand.len() ==> #[trigger] base[i] < #[trigger] cand[j],
    ensures
        ci is Some,
        ci->0.lo.is_increase(),
        ci->0.hi.is_increase(),
{
    lemma_interval_ends(ci, base, cand, rounds);
}

/// A candidate that is faster on every frame than the baseline on any is found to be
/// faster: both ends of the interval are decreases.
pub proof fn law_faster_on_every_frame(
    ci: Option<Interval>,
    base: Seq<u64>,
    cand: Seq<u64>,
    rounds: nat,
)
    requires
        is_bootstrap_interval(ci, base, cand, rounds),
        base.len() > 0,
        cand.len() > 0,
        rounds > 0,
        forall|i: int, j: int|
            0 <= i < base.len() && 0 <= j < cand.len() ==> #[trigger] base[i] > #[trigger] cand[j],
    ensures
        ci is Some,
        ci->0.lo.is_decrease(),
        ci->0.hi.is_decrease(),
{
    assert forall|i: int| 0 <= i < base.len() implies base[i] > 0 by {
        assert(base[i] > cand[0]);
    }
    lemma_interval_ends(ci, base, cand, rounds);
}

/// The generator is xorshift64*: a step shifts the state by 12 to the right, 25 to
/// the left and 27 to the right, each time combining the two by exclusive or, and the
/// number that it yields is the new state times a constant, modulo 2^64. Any number
/// of steps is made of single ones.
pub proof fn law_generator(x: u64, n: nat)
    ensures
        advanced(x, 0) == x,
        ({
            let x0 = advanced(x, n);
            let x1 = x0 ^ (x0 >> 12u64);
            let x2 = x1 ^ (x1 << 25u64);
            advanced(x, n + 1) == x2 ^ (x2 >> 27u64)
        }),
        xorshift(x) == advanced(x, 1),
        yielded(x) as int == (x * 2685821657736338717) % 18446744073709551616,
{
    reveal_with_fuel(advanced, 2);
}

/// Every value of a resampling is drawn anew, for pools of any size: the `i`th is
/// the sample at the `i`th number that the generator yields, modulo the number of
/// samples.
pub proof fn law_every_sample_is_drawn(state: u64, pool: Seq<u64>, i: int)
    requires
        0 <= i < pool.len(),
    ensures
        draws(state, pool).len() == pool.len(),
        ({
            let g = yielded(advanced(state, (i + 1) as nat)) as usize;
            draws(state, pool)[i] == pool[g as int % pool.len() as int]
        }),
{
}

/// Which samples are drawn does not depend on what they are: drawing from a pool that
/// holds its own positions gives the positions that are drawn from any pool of that
/// size.
pub proof fn law_draws_are_positions(state: u64, pool: Seq<u64>, positions: Seq<u64>, i: int)
    requires
        positions.len() == pool.len(),
        forall|k: int| 0 <= k < positions.len() ==> positions[k] == k,
        0 <= i < pool.len(),
    ensures
        draws(state, pool)[i] == pool[draws(state, positions)[i] as int],
{
    let n = pool.len() as int;
    let k = yielded(advanced(state, (i + 1) as nat)) as usize as int % n;
    assert(0 <= k < n);
    assert(positions[k] == k);
}

/// The median is the middle one of the samples in ascending order, or half way
/// between the two middle ones where their number is even, and zero where there are
/// none.
pub proof fn law_median(s: Seq<u64>, t: Seq<u64>)
    requires
        t.to_multiset() == s.to_multiset(),
        forall|i: int, j: int| 0 <= i <= j < t.len() ==> t[i] <= t[j],
    ensures
        s.len() == 0 ==> doubled_median(s) == 0,
        s.len() % 2 == 1 ==> doubled_median(s) == 2 * t[s.len() as int / 2],
        s.len() > 0 && s.len() % 2 == 0 ==> doubled_median(s) == t[s.len() as int / 2 - 1]
            + t[s.len() as int / 2],
{
    assert(crate::stats::is_ascending(t));
    crate::stats::lemma_ascending_unique(s, t);
}

/// Changes are ordered as the fractions that they stand for: by the candidates over
/// a common baseline, and an increase or a decrease is told by the candidate being
/// above or below its baseline.
pub proof fn law_changes_are_fractions(a: Change, b: Change)
    ensures
        a.smaller(b) <==> a.cand * b.base < b.cand * a.base,
        a.base == b.base && a.base > 0 ==> (a.smaller(b) <==> a.cand < b.cand),
        a.is_increase() <==> a.base < a.cand,
        a.is_decrease() <==> a.cand < a.base,
        a.is_increase() ==> !a.is_decrease(),
        a.reversed().base == a.cand && a.reversed().cand == a.base,
{
    let (x, y, d) = (a.cand as int, b.cand as int, a.base as int);
    assert(d > 0 ==> (x * d < y * d <==> x < y)) by (nonlinear_arith);
}

/// The change that round `k` gives: the baseline is resampled first, then the
/// candidate, each as often as it has samples, by the numbers that the generator has
/// not yielded before.
pub open spec fn round_change(state: u64, base: Seq<u64>, cand: Seq<u64>, k: int) -> Change {
    let from = k * (base.len() + cand.len());
    Change {
        base: doubled_median(draws(advanced(state, from as nat), base)) as u128,
        cand: doubled_median(draws(advanced(state, (from + base.len()) as nat), cand)) as u128,
    }
}

proof fn lemma_median_fits(state: u64, pool: Seq<u64>)
    ensures
        0 <= doubled_median(draws(state, pool)) <= u128::MAX,
{
    if pool.len() > 0 {
        lemma_resampled_median(state, pool);
    }
}

/// Each round adds its change behind those of the rounds before it, except one with
/// a baseline of zero, which adds nothing. No rounds give no changes.
pub proof fn law_each_round_adds_its_change(
    state: u64,
    base: Seq<u64>,
    cand: Seq<u64>,
    k: nat,
)
    ensures
        resampled_changes(state, base, cand, 0).len() == 0,
        ({
            let from = k * (base.len() + cand.len());
            let b = doubled_median(draws(advanced(state, from), base));
            let c = doubled_median(draws(advanced(state, from + base.len()), cand));
            let before = resampled_changes(state, base, cand, k);
            let now = resampled_changes(state, base, cand, k + 1);
            &&& b == 0 ==> now == before
            &&& b > 0 ==> now == before.push(Change { base: b as u128, cand: c as u128 })
            &&& 0 <= b <= u128::MAX && 0 <= c <= u128::MAX
        }),
{
    let from = k * (base.len() + cand.len());
    assert(from >= 0) by (nonlinear_arith)
        requires
            from == k * (base.len() + cand.len()),
    ;
    lemma_advanced_adds(state, from as nat, base.len());
    lemma_median_fits(advanced(state, from as nat), base);
    lemma_median_fits(advanced(state, (from + base.len()) as nat), cand);
}

/// Where every sample of the baseline is positive, round `k` of any number of rounds
/// gives the change at `k`.
pub proof fn law_rounds_are_in_order(
    state: u64,
    base: Seq<u64>,
    cand: Seq<u64>,
    rounds: nat,
)
    requires
        base.len() > 0,
        cand.len() > 0,
        forall|i: int| 0 <= i < base.len() ==> base[i] > 0,
    ensures
        resampled_changes(state, base, cand, rounds) == Seq::new(
            rounds,
            |k: int| round_change(state, base, cand, k),
        ),
    decreases rounds,
{
    let all = Seq::new(rounds, |k: int| round_change(state, base, cand, k));
    if rounds > 0 {
        let k = (rounds - 1) as nat;
        law_rounds_are_in_order(state, base, cand, k);
        law_each_round_adds_its_change(state, base, cand, k);
        let at = advanced(state, (k * (base.len() + cand.len())) as nat);
        lemma_resampled_median(at, base);
        assert(round_change(state, base, cand, k as int).base > 0);
    }
    assert(resampled_changes(state, base, cand, rounds) =~= all);
}

/// An interval leaves out 25 of a thousand changes at either end: with the changes
/// in order from the smallest to the largest, in whatever way equal ones are put, its
/// ends are the changes at these places, and both are among the changes. There is
/// one exactly where there are changes.
pub proof fn law_interval_cuts_off_both_ends(
    ci: Option<Interval>,
    changes: Seq<Change>,
    t: Seq<Change>,
)
    requires
        is_central_interval(ci, changes),
        t.to_multiset() == changes.to_multiset(),
        forall|i: int| 0 <= i < t.len() ==> (#[trigger] t[i]).base > 0,
        forall|i: int, j: int|
            0 <= i <= j < t.len() ==> (#[trigger] t[i]).cand * (#[trigger] t[j]).base <= t[j].cand
                * t[i].base,
    ensures
        ci is Some <==> changes.len() > 0,
        ci matches Some(c) ==> {
            let lo = t[changes.len() as int * 25 / 1000];
            let hi = t[changes.len() as int * 975 / 1000];
            &&& c.lo.cand * lo.base == lo.cand * c.lo.base
            &&& c.hi.cand * hi.base == hi.cand * c.hi.base
            &&& c.lo.base > 0 && c.hi.base > 0
            &&& changes.contains(c.lo)
            &&& changes.contains(c.hi)
        },
{
    broadcast use vstd::seq_lib::group_to_multiset_ensures;

    if let Some(c) = ci {
        let n = changes.len() as int;
        let ranked = lemma_ranking(c, changes);
        assert(t.to_multiset().len() == t.len() && changes.to_multiset().len() == n);
        assert(is_ranked(t)) by {
            assert forall|i: int, j: int| 0 <= i <= j < t.len() implies !t[j].smaller(t[i]) by {
                law_changes_are_fractions(t[j], t[i]);
            }
        }
        assert(ranked.to_multiset() == t.to_multiset());
        lemma_ranks_agree(ranked, t, n * 25 / 1000);
        lemma_ranks_agree(t, ranked, n * 25 / 1000);
        lemma_ranks_agree(ranked, t, n * 975 / 1000);
        lemma_ranks_agree(t, ranked, n * 975 / 1000);
        assert(changes.contains(ranked[n * 25 / 1000]) && changes.contains(ranked[n * 975 / 1000]));
    }
}

/// The interval of two sets of frame times is that of the changes of all rounds, by
/// the generator started from the seed: with `t` these changes in order from the
/// smallest to the largest, it lies between those 25 and 975 thousandths of the way.
/// There is none without frame times on either side, or without changes.
pub proof fn law_interval_of_the_rounds(
    ci: Option<Interval>,
    base: Seq<u64>,
    cand: Seq<u64>,
    rounds: nat,
    t: Seq<Change>,
)
    requires
        is_bootstrap_interval(ci, base, cand, rounds),
        t.to_multiset() == resampled_changes(0xC0FFEF, base, cand, rounds).to_multiset(),
        forall|i: int| 0 <= i < t.len() ==> (#[trigger] t[i]).base > 0,
        forall|i: int, j: int|
            0 <= i <= j < t.len() ==> (#[trigger] t[i]).cand * (#[trigger] t[j]).base <= t[j].cand
                * t[i].base,
    ensures
        ci is Some <==> base.len() > 0 && cand.len() > 0 && t.len() > 0,
        ci matches Some(c) ==> {
            let lo = t[t.len() as int * 25 / 1000];
            let hi = t[t.len() as int * 975 / 1000];
            &&& c.lo.cand * lo.base == lo.cand * c.lo.base
            &&& c.hi.cand * hi.base == hi.cand * c.hi.base
            &&& t.contains(c.lo) && t.contains(c.hi)
        },
{
    broadcast use vstd::seq_lib::group_to_multiset_ensures;

    assert(SEED | 1 == 0xC0FFEF) by (bit_vector)
        requires
            SEED == 0xC0FFEEu64,
    ;
    let changes = resampled_changes(0xC0FFEF, base, cand, rounds);
    assert(t.to_multiset().len() == t.len() && changes.to_multiset().len() == changes.len());
    if base.len() > 0 && cand.len() > 0 {
        law_interval_cuts_off_both_ends(ci, changes, t);
        if let Some(c) = ci {
            assert(changes.to_multiset().count(c.lo) > 0 && changes.to_multiset().count(c.hi) > 0);
        }
    }
}

/// The frame times of two runs of iterations are those of the first, then those of
/// the second; those of one iteration are its own.
pub proof fn law_pooling_joins(a: Seq<IterationData>, b: Seq<IterationData>, x: IterationData)
    ensures
        pooled(a + b) == pooled(a) + pooled(b),
        pooled(seq![x]) == x.frame_us@,
        pooled(Seq::<IterationData>::empty()).len() == 0,
    decreases b.len(),
{
    reveal_with_fuel(pooled, 2);
    assert(pooled(seq![x]) =~= x.frame_us@);
    if b.len() == 0 {
        assert(a + b =~= a);
        assert(pooled(a) + pooled(b) =~= pooled(a));
    } else {
        law_pooling_joins(a, b.drop_last(), x);
        assert((a + b).drop_last() =~= a + b.drop_last());
        assert(pooled(a + b) =~= pooled(a) + pooled(b));
    }
}

} // verus!
