//! Order statistics of frame times.

use vstd::prelude::*;
use vstd::relations::total_ordering;
use vstd::seq_lib::lemma_sorted_unique;

verus! {

/// The samples in ascending order.
pub open spec fn ascending(s: Seq<u64>) -> Seq<u64> {
    s.sort_by(|a: u64, b: u64| a <= b)
}

/// Whether the samples are in ascending order.
pub open spec fn is_ascending(s: Seq<u64>) -> bool {
    forall|i: int, j: int| 0 <= i <= j < s.len() ==> s[i] <= s[j]
}

/// The sum of the samples.
pub open spec fn total(s: Seq<u64>) -> nat
    decreases s.len(),
{
    if s.len() == 0 {
        0
    } else {
        total(s.drop_last()) + s.last() as nat
    }
}

/// `slice::sort_unstable` puts the elements of the slice in ascending order: none
/// is added, none is lost.
#[verifier::external_body]
fn sort_unstable(v: &mut Vec<u64>)
    ensures
        final(v)@.to_multiset() == old(v)@.to_multiset(),
        is_ascending(final(v)@),
{
    v.sort_unstable();
}

/// `ascending` is a rearrangement of the samples, in ascending order.
pub proof fn lemma_ascending(s: Seq<u64>)
    ensures
        ascending(s).to_multiset() == s.to_multiset(),
        ascending(s).len() == s.len(),
        is_ascending(ascending(s)),
{
    broadcast use vstd::seq_lib::group_to_multiset_ensures;

    let leq = |a: u64, b: u64| a <= b;
    assert(total_ordering(leq));
    s.lemma_sort_by_ensures(leq);
    let a = ascending(s);
    assert(s.to_multiset().len() == s.len() && a.to_multiset().len() == a.len());
    assert forall|i: int, j: int| 0 <= i <= j < a.len() implies a[i] <= a[j] by {
        if i < j {
            assert(leq(a[i], a[j]));
        }
    }
}

/// Only `ascending` is both a rearrangement of the samples and in ascending order.
pub proof fn lemma_ascending_unique(s: Seq<u64>, t: Seq<u64>)
    requires
        t.to_multiset() == s.to_multiset(),
        is_ascending(t),
    ensures
        t == ascending(s),
{
    let leq = |a: u64, b: u64| a <= b;
    lemma_ascending(s);
    assert(total_ordering(leq));
    lemma_sorted_unique(t, ascending(s), leq);
}

/// Puts the samples in ascending order.
pub fn sort(v: &mut Vec<u64>)
    ensures
        final(v)@ == ascending(old(v)@),
{
    let ghost s = v@;
    sort_unstable(v);
    proof {
        lemma_ascending_unique(s, v@);
    }
}

/// A quantile of ascending samples: the point that lies `hundredths` hundredths of
/// the way from the sample at `rank`, which is `below`, to the next one, `above`.
/// Where the quantile falls on a sample, `hundredths` is 0 and `above` is `below`.
#[derive(Clone, Copy, Debug, PartialEq, Eq, Structural)]
pub struct Quantile {
    pub rank: usize,
    pub below: u64,
    pub above: u64,
    pub hundredths: u64,
}

impl Quantile {
    /// The quantile itself, times 100.
    pub open spec fn times_100(self) -> int {
        self.below * (100 - self.hundredths) + self.above * self.hundredths
    }

    pub open spec fn zero() -> Self {
        Quantile { rank: 0, below: 0, above: 0, hundredths: 0 }
    }
}

/// The point `pct` percent of the way from the first to the last of ascending
/// samples, and zero where there are none.
pub open spec fn quantile(sorted: Seq<u64>, pct: int) -> Quantile {
    if sorted.len() == 0 {
        Quantile::zero()
    } else {
        let way = pct * (sorted.len() - 1);
        let lo = way / 100;
        let hi = (way + 99) / 100;
        Quantile {
            rank: lo as usize,
            below: sorted[lo],
            above: sorted[hi],
            hundredths: (way % 100) as u64,
        }
    }
}

/// The `pct` percent quantile of ascending samples, between samples where it
/// falls between two.
pub fn percentile(sorted: &[u64], pct: u64) -> (q: Quantile)
    requires
        pct <= 100,
    ensures
        q == quantile(sorted@, pct as int),
{
    if sorted.len() == 0 {
        return Quantile { rank: 0, below: 0, above: 0, hundredths: 0 };
    }
    let last: u128 = (sorted.len() - 1) as u128;
    proof {
        assert(pct * last <= 100 * last) by (nonlinear_arith)
            requires
                pct <= 100,
        ;
    }
    let way: u128 = pct as u128 * last;
    let lo: usize = (way / 100) as usize;
    let hi: usize = ((way + 99) / 100) as usize;
    Quantile { rank: lo, below: sorted[lo], above: sorted[hi], hundredths: (way % 100) as u64 }
}

/// The statistics of some frame times, in microseconds.
#[derive(Debug)]
pub struct SampleStats {
    /// The samples, ascending.
    pub sorted: Vec<u64>,
    /// Their sum.
    pub total_us: u128,
    pub median: Quantile,
    pub p95: Quantile,
    pub p99: Quantile,
    pub min_us: u64,
    pub max_us: u64,
    pub samples: usize,
}

impl SampleStats {
    /// Whether these are the statistics of `s`. Of no samples, every statistic is 0.
    pub open spec fn describes(self, s: Seq<u64>) -> bool {
        let sorted = ascending(s);
        &&& self.sorted@ == sorted
        &&& self.total_us == total(sorted)
        &&& self.median == quantile(sorted, 50)
        &&& self.p95 == quantile(sorted, 95)
        &&& self.p99 == quantile(sorted, 99)
        &&& self.min_us == if s.len() == 0 {
            0
        } else {
            sorted.first()
        }
        &&& self.max_us == if s.len() == 0 {
            0
        } else {
            sorted.last()
        }
        &&& self.samples == s.len()
    }
}

proof fn lemma_total_bound(s: Seq<u64>)
    ensures
        total(s) <= s.len() * u64::MAX,
    decreases s.len(),
{
    if s.len() > 0 {
        lemma_total_bound(s.drop_last());
        assert((s.len() - 1) * u64::MAX + u64::MAX == s.len() * u64::MAX) by (nonlinear_arith);
    }
}

fn sum(v: &[u64]) -> (r: u128)
    ensures
        r == total(v@),
{
    let mut acc: u128 = 0;
    for i in 0..v.len()
        invariant
            acc == total(v@.take(i as int)),
    {
        proof {
            lemma_total_bound(v@.take(i as int));
            assert(i * u64::MAX + u64::MAX <= u128::MAX) by (nonlinear_arith)
                requires
                    0 <= i < usize::MAX,
            ;
            assert(v@.take(i as int + 1).drop_last() =~= v@.take(i as int));
        }
        acc = acc + v[i] as u128;
    }
    assert(v@.take(v@.len() as int) =~= v@);
    acc
}

/// The statistics of the samples.
pub fn summarize(samples: &[u64]) -> (r: SampleStats)
    ensures
        r.describes(samples@),
{
    let mut sorted: Vec<u64> = Vec::new();
    sorted.extend_from_slice(samples);
    assert(sorted@ =~= samples@);
    sort(&mut sorted);
    proof {
        lemma_ascending(samples@);
    }
    let n: usize = sorted.len();
    SampleStats {
        total_us: sum(sorted.as_slice()),
        median: percentile(sorted.as_slice(), 50),
        p95: percentile(sorted.as_slice(), 95),
        p99: percentile(sorted.as_slice(), 99),
        min_us: if n == 0 { 0 } else { sorted[0] },
        max_us: if n == 0 { 0 } else { sorted[n - 1] },
        samples: n,
        sorted,
    }
}

/// The quantile that lies `way` hundredths of a sample from the first, times 100.
spec fn interpolated(s: Seq<u64>, way: int) -> int {
    s[way / 100] * (100 - way % 100) + s[(way + 99) / 100] * (way % 100)
}

proof fn lemma_interpolated_step(s: Seq<u64>, way: int)
    requires
        is_ascending(s),
        0 <= way < 100 * (s.len() - 1),
    ensures
        interpolated(s, way) <= interpolated(s, way + 1),
{
    let k = way / 100;
    let r = way % 100;
    let a = s[k] as int;
    let b = s[k + 1] as int;
    assert(a <= b);
    if r < 99 {
        assert((way + 1) / 100 == k && (way + 1) % 100 == r + 1 && (way + 100) / 100 == k + 1);
        if r == 0 {
            assert((way + 99) / 100 == k);
            assert(a * 100 + a * 0 <= a * 99 + b * 1);
        } else {
            assert((way + 99) / 100 == k + 1);
            assert(a * (100 - r) + b * r <= a * (99 - r) + b * (r + 1)) by (nonlinear_arith)
                requires
                    a <= b,
            ;
        }
    } else {
        assert((way + 99) / 100 == k + 1);
        assert((way + 1) / 100 == k + 1 && (way + 1) % 100 == 0 && (way + 100) / 100 == k + 1);
        assert(a * 1 + b * 99 <= b * 100 + b * 0);
    }
}

proof fn lemma_interpolated_ascends(s: Seq<u64>, from: int, to: int)
    requires
        is_ascending(s),
        0 <= from <= to <= 100 * (s.len() - 1),
    ensures
        interpolated(s, from) <= interpolated(s, to),
    decreases to - from,
{
    if from < to {
        lemma_interpolated_ascends(s, from, to - 1);
        lemma_interpolated_step(s, to - 1);
    }
}

/// Quantiles of the same samples lie in the order of their percentages, and
/// between the smallest and the largest sample.
pub proof fn law_quantiles_are_ordered(s: Seq<u64>, p: int, q: int)
    requires
        0 <= p <= q <= 100,
        s.len() <= usize::MAX,
    ensures
        quantile(ascending(s), p).times_100() <= quantile(ascending(s), q).times_100(),
        s.len() > 0 ==> 100 * ascending(s).first() <= quantile(ascending(s), p).times_100(),
        s.len() > 0 ==> quantile(ascending(s), q).times_100() <= 100 * ascending(s).last(),
{
    let t = ascending(s);
    lemma_ascending(s);
    if s.len() > 0 {
        let last = t.len() - 1;
        assert(0 <= p * last <= q * last <= 100 * last) by (nonlinear_arith)
            requires
                0 <= p <= q <= 100,
                last >= 0,
        ;
        lemma_interpolated_ascends(t, p * last, q * last);
        lemma_interpolated_ascends(t, 0, p * last);
        lemma_interpolated_ascends(t, q * last, 100 * last);
        assert(interpolated(t, 0) == t[0] * 100 + t[0] * 0);
        assert((100 * last) / 100 == last && (100 * last) % 100 == 0 && (100 * last + 99) / 100
            == last);
        assert(interpolated(t, 100 * last) == t[last] * 100 + t[last] * 0);
        assert(quantile(t, p).times_100() == interpolated(t, p * last));
        assert(quantile(t, q).times_100() == interpolated(t, q * last));
    }
}

/// The statistics do not depend on the order in which the frames were timed.
pub proof fn law_order_of_samples_is_irrelevant(a: SampleStats, s: Seq<u64>, t: Seq<u64>)
    requires
        s.to_multiset() == t.to_multiset(),
    ensures
        a.describes(s) == a.describes(t),
{
    broadcast use vstd::seq_lib::group_to_multiset_ensures;

    lemma_ascending(s);
    lemma_ascending(t);
    lemma_ascending_unique(s, ascending(t));
    assert(s.to_multiset().len() == s.len() && t.to_multiset().len() == t.len());
}

/// The total of some samples is the sum of the totals of any two parts of them, and
/// that of one sample is the sample.
pub proof fn law_total_adds_up(s: Seq<u64>, t: Seq<u64>, x: u64)
    ensures
        total(s + t) == total(s) + total(t),
        total(seq![x]) == x,
        total(Seq::<u64>::empty()) == 0,
    decreases t.len(),
{
    reveal_with_fuel(total, 2);
    if t.len() == 0 {
        assert(s + t =~= s);
    } else {
        law_total_adds_up(s, t.drop_last(), x);
        assert((s + t).drop_last() =~= s + t.drop_last());
    }
}

/// A quantile lies exactly `pct` percent of the way from the first of the samples
/// to the last, however many there are, between the two samples that it falls
/// between or on the one that it falls on. Of no samples it is zero.
pub proof fn law_quantile_is_in_its_place(sorted: Seq<u64>, pct: int)
    requires
        0 <= pct <= 100,
        sorted.len() <= usize::MAX,
    ensures
        sorted.len() == 0 ==> quantile(sorted, pct).rank == 0 && quantile(sorted, pct).below == 0
            && quantile(sorted, pct).above == 0 && quantile(sorted, pct).hundredths == 0,
        sorted.len() > 0 ==> {
            let q = quantile(sorted, pct);
            &&& 100 * q.rank + q.hundredths == pct * (sorted.len() - 1)
            &&& q.hundredths < 100
            &&& q.rank < sorted.len()
            &&& q.below == sorted[q.rank as int]
            &&& q.hundredths == 0 ==> q.above == q.below
            &&& q.hundredths > 0 ==> q.rank + 1 < sorted.len() && q.above == sorted[q.rank + 1]
        },
{
    if sorted.len() > 0 {
        let last = sorted.len() - 1;
        assert(0 <= pct * last <= 100 * last) by (nonlinear_arith)
            requires
                0 <= pct <= 100,
                last >= 0,
        ;
    }
}

/// Of ascending samples, those at or before the place of a quantile are at most the
/// quantile, and those at or behind it at least: the 0 percent quantile is the
/// smallest sample, the 100 percent quantile the largest, and half of the samples
/// lie on either side of the median.
pub proof fn law_quantile_divides_the_samples(sorted: Seq<u64>, pct: int, i: int)
    requires
        0 <= pct <= 100,
        sorted.len() <= usize::MAX,
        forall|i: int, j: int| 0 <= i <= j < sorted.len() ==> sorted[i] <= sorted[j],
        0 <= i < sorted.len(),
    ensures
        ({
            let q = quantile(sorted, pct);
            let v = q.below * (100 - q.hundredths) + q.above * q.hundredths;
            &&& 100 * i <= pct * (sorted.len() - 1) ==> 100 * sorted[i] <= v
            &&& 100 * i >= pct * (sorted.len() - 1) ==> 100 * sorted[i] >= v
        }),
{
    law_quantile_is_in_its_place(sorted, pct);
    let q = quantile(sorted, pct);
    let x = sorted[i] as int;
    let a = q.below as int;
    let b = q.above as int;
    let h = q.hundredths as int;
    assert(x <= a && a <= b ==> 100 * x <= a * (100 - h) + b * h) by (nonlinear_arith)
        requires
            0 <= h < 100,
    ;
    assert(x >= b && b >= a ==> 100 * x >= a * (100 - h) + b * h) by (nonlinear_arith)
        requires
            0 <= h < 100,
    ;
}

/// What the statistics of some samples say of them: how many there are, the least
/// and the greatest, their sum, and where in them the median and the 95 and 99
/// percent quantiles lie. Of no samples, all of it is zero.
pub proof fn law_statistics(a: SampleStats, s: Seq<u64>)
    requires
        a.describes(s),
    ensures
        a.samples == s.len(),
        a.sorted@.to_multiset() == s.to_multiset(),
        forall|i: int, j: int| 0 <= i <= j < a.sorted@.len() ==> a.sorted@[i] <= a.sorted@[j],
        a.total_us == total(s),
        s.len() > 0 ==> s.contains(a.min_us) && s.contains(a.max_us),
        forall|i: int| 0 <= i < s.len() ==> a.min_us <= #[trigger] s[i] <= a.max_us,
        s.len() == 0 ==> a.min_us == 0 && a.max_us == 0 && a.total_us == 0,
        a.median == quantile(a.sorted@, 50),
        a.p95 == quantile(a.sorted@, 95),
        a.p99 == quantile(a.sorted@, 99),
{
    broadcast use vstd::seq_lib::group_to_multiset_ensures;

    lemma_ascending(s);
    let t = ascending(s);
    lemma_total_of_rearranged(s, t);
    assert forall|i: int| 0 <= i < s.len() implies t.contains(#[trigger] s[i]) by {
        assert(s.contains(s[i]));
        assert(s.to_multiset().count(s[i]) > 0);
    }
    if s.len() > 0 {
        assert(t.contains(t[0]) && t.contains(t[t.len() - 1]));
        assert(t.to_multiset().count(t[0]) > 0 && t.to_multiset().count(t[t.len() - 1]) > 0);
    }
}

proof fn lemma_total_of_rearranged(s: Seq<u64>, t: Seq<u64>)
    requires
        s.to_multiset() == t.to_multiset(),
    ensures
        total(s) == total(t),
    decreases s.len(),
{
    broadcast use vstd::seq_lib::group_to_multiset_ensures;

    assert(s.to_multiset().len() == s.len() && t.to_multiset().len() == t.len());
    if s.len() > 0 {
        let x = s.last();
        assert(s.contains(x));
        assert(t.to_multiset().count(x) > 0);
        let k = t.index_of(x);
        assert(t.contains(x));
        let rest = t.remove(k);
        assert(s =~= s.drop_last().push(x));
        assert(s.drop_last().to_multiset() =~= s.to_multiset().remove(x));
        assert(rest.to_multiset() =~= t.to_multiset().remove(x));
        lemma_total_of_rearranged(s.drop_last(), rest);
        let (a, b) = (t.take(k), t.skip(k + 1));
        assert(t =~= a + seq![x] + b);
        assert(rest =~= a + b);
        law_total_adds_up(a + seq![x], b, x);
        law_total_adds_up(a, seq![x], x);
        law_total_adds_up(a, b, x);
    }
}

} // verus!
