//! Summary statistics over the elapsed times of successful calls: count,
//! mean, population standard deviation, minimum and maximum, all computed
//! exactly in integer nanoseconds.

use vstd::prelude::*;
use crate::outcome::Measurement;
use vstd::arithmetic::div_mod::lemma_fundamental_div_mod;

verus! {

pub open spec fn sum(s: Seq<int>) -> int
    decreases s.len(),
{
    if s.len() == 0 { 0 } else { sum(s.drop_last()) + s.last() }
}

pub open spec fn sum_sq(s: Seq<int>) -> int
    decreases s.len(),
{
    if s.len() == 0 { 0 } else { sum_sq(s.drop_last()) + s.last() * s.last() }
}

pub open spec fn seq_min(s: Seq<int>) -> int
    decreases s.len(),
{
    if s.len() <= 1 {
        s[0]
    } else {
        let m = seq_min(s.drop_last());
        if s.last() < m { s.last() } else { m }
    }
}

pub open spec fn seq_max(s: Seq<int>) -> int
    decreases s.len(),
{
    if s.len() <= 1 {
        s[0]
    } else {
        let m = seq_max(s.drop_last());
        if s.last() > m { s.last() } else { m }
    }
}

/// n² times the population variance: `n * Σx² - (Σx)²`.
pub open spec fn spread(s: Seq<int>) -> int {
    s.len() * sum_sq(s) - sum(s) * sum(s)
}

/// `r` is the square root of `v / d`, rounded down (`d > 0`).
pub open spec fn is_floor_sqrt_of_ratio(r: int, v: int, d: int) -> bool {
    r * r * d <= v < (r + 1) * (r + 1) * d
}

/// The elapsed times of the measurements, in nanoseconds.
pub open spec fn durations(ms: Seq<Measurement>) -> Seq<int> {
    ms.map_values(|m: Measurement| m.elapsed_nanos as int)
}

/// Sum of squared deviations from `c`.
spec fn dev_sq(s: Seq<int>, c: int) -> int
    decreases s.len(),
{
    if s.len() == 0 { 0 } else { dev_sq(s.drop_last(), c) + (s.last() - c) * (s.last() - c) }
}

proof fn lemma_min_max_bounds(s: Seq<int>)
    requires
        s.len() > 0,
    ensures
        s.len() * seq_min(s) <= sum(s) <= s.len() * seq_max(s),
        seq_min(s) <= seq_max(s),
        forall|i: int| 0 <= i < s.len() ==> seq_min(s) <= #[trigger] s[i] <= seq_max(s),
    decreases s.len(),
{
    if s.len() == 1 {
        assert(sum(s.drop_last()) == 0);
        assert(s[0] == s.last());
    } else {
        let p = s.drop_last();
        lemma_min_max_bounds(p);
        let n = p.len();
        let (lo, hi, plo, phi) = (seq_min(s), seq_max(s), seq_min(p), seq_max(p));
        assert(n * lo <= n * plo) by (nonlinear_arith)
            requires lo <= plo, n >= 0;
        assert(n * phi <= n * hi) by (nonlinear_arith)
            requires phi <= hi, n >= 0;
        assert(s.len() * lo == n * lo + lo) by (nonlinear_arith)
            requires s.len() == n + 1;
        assert(s.len() * hi == n * hi + hi) by (nonlinear_arith)
            requires s.len() == n + 1;
        assert forall|i: int| 0 <= i < s.len() implies seq_min(s) <= #[trigger] s[i] <= seq_max(s) by {
            if i < n {
                assert(s[i] == p[i]);
            }
        }
    }
}

proof fn lemma_dev_sq_expand(s: Seq<int>, c: int)
    ensures
        dev_sq(s, c) == sum_sq(s) - 2 * c * sum(s) + s.len() * c * c,
    decreases s.len(),
{
    if s.len() > 0 {
        let p = s.drop_last();
        lemma_dev_sq_expand(p, c);
        let (x, n, q, t) = (s.last(), p.len() as int, sum_sq(p), sum(p));
        assert((x - c) * (x - c) + q - 2 * c * t + n * c * c
            == (q + x * x) - 2 * c * (t + x) + (n + 1) * c * c) by (nonlinear_arith);
    }
}

/// `(Σ(x - c))² <= n * Σ(x - c)²`.
proof fn lemma_dev_cauchy(s: Seq<int>, c: int)
    ensures
        (sum(s) - s.len() * c) * (sum(s) - s.len() * c) <= s.len() * dev_sq(s, c),
    decreases s.len(),
{
    if s.len() > 0 {
        let p = s.drop_last();
        lemma_dev_cauchy(p, c);
        let n = p.len() as int;
        let dd = sum(p) - n * c;
        let d = s.last() - c;
        let t = dev_sq(p, c);
        assert(sum(s) - s.len() * c == dd + d) by (nonlinear_arith)
            requires sum(s) == sum(p) + s.last(), s.len() == n + 1, dd == sum(p) - n * c, d == s.last() - c;
        if n == 0 {
            assert(dd == 0 && t == 0);
            assert((dd + d) * (dd + d) == (n + 1) * (t + d * d)) by (nonlinear_arith)
                requires dd == 0, n == 0, t == 0;
        } else {
            assert((dd - n * d) * (dd - n * d) >= 0) by (nonlinear_arith);
            assert(n * (2 * dd * d) <= dd * dd + n * n * d * d) by (nonlinear_arith)
                requires (dd - n * d) * (dd - n * d) >= 0;
            assert(n * (2 * dd * d) <= n * (t + n * d * d)) by (nonlinear_arith)
                requires n * (2 * dd * d) <= dd * dd + n * n * d * d, dd * dd <= n * t;
            assert(2 * dd * d <= t + n * d * d) by (nonlinear_arith)
                requires n * (2 * dd * d) <= n * (t + n * d * d), n > 0;
            assert((dd + d) * (dd + d) <= (n + 1) * (t + d * d)) by (nonlinear_arith)
                requires 2 * dd * d <= t + n * d * d, dd * dd <= n * t;
        }
    }
}

/// `spread` rewritten around a centre `c`: with `T` the squared deviations
/// from `c` and `r = Σx - n·c`, `n·Σx² - (Σx)² == n·T - r²`.
proof fn lemma_spread_around(s: Seq<int>, c: int)
    ensures
        spread(s) == s.len() * dev_sq(s, c) - (sum(s) - s.len() * c) * (sum(s) - s.len() * c),
        spread(s) >= 0,
{
    lemma_dev_sq_expand(s, c);
    lemma_dev_cauchy(s, c);
    let (n, q, t, ds) = (s.len() as int, sum_sq(s), sum(s), dev_sq(s, c));
    assert(n * q - t * t == n * ds - (t - n * c) * (t - n * c)) by (nonlinear_arith)
        requires ds == q - 2 * c * t + n * c * c;
}

/// Largest `r` with `r * r <= v`.
fn isqrt(v: u128) -> (r: u64)
    ensures
        r * r <= v < (r + 1) * (r + 1),
{
    let mut lo: u128 = 0;
    let mut hi: u128 = 0x1_0000_0000_0000_0000;
    assert(hi * hi > u128::MAX) by (nonlinear_arith)
        requires hi == 0x1_0000_0000_0000_0000u128;
    while hi - lo > 1
        invariant
            lo < hi <= 0x1_0000_0000_0000_0000u128,
            lo * lo <= v < hi * hi,
        decreases hi - lo,
    {
        let mid = lo + (hi - lo) / 2;
        assert(mid * mid < 0x1_0000_0000_0000_0000u128 * 0x1_0000_0000_0000_0000u128) by (nonlinear_arith)
            requires mid < 0x1_0000_0000_0000_0000u128;
        assert(mid * mid <= u128::MAX) by (nonlinear_arith)
            requires mid <= 0xffff_ffff_ffff_ffffu128;
        if mid * mid <= v {
            lo = mid;
        } else {
            hi = mid;
        }
    }
    lo as u64
}

/// Total, minimum and maximum of the elapsed times of a non-empty sample.
fn scan_extremes(ms: &Vec<Measurement>) -> (r: (u128, u64, u64))
    requires
        ms.len() > 0,
    ensures
        r.0 == sum(durations(ms@)),
        r.1 == seq_min(durations(ms@)),
        r.2 == seq_max(durations(ms@)),
{
    let ghost d = durations(ms@);
    let n = ms.len();
    let mut total: u128 = ms[0].elapsed_nanos as u128;
    let mut lo: u64 = ms[0].elapsed_nanos;
    let mut hi: u64 = lo;
    proof {
        let d1 = d.take(1);
        assert(d1.drop_last() == Seq::<int>::empty());
        assert(d1.last() == d[0]);
        assert(d[0] == ms@[0].elapsed_nanos as int);
        assert(sum(d1.drop_last()) == 0);
        assert(sum(d1) == d[0]);
    }
    let mut i: usize = 1;
    while i < n
        invariant
            1 <= i <= n,
            n == ms.len(),
            d == durations(ms@),
            total == sum(d.take(i as int)),
            lo == seq_min(d.take(i as int)),
            hi == seq_max(d.take(i as int)),
            total <= i * 0xffff_ffff_ffff_ffffu128,
        decreases n - i,
    {
        let x = ms[i].elapsed_nanos;
        assert(d.take(i + 1).drop_last() == d.take(i as int));
        assert(d.take(i + 1).last() == x);
        assert(total + x <= (i + 1) * 0xffff_ffff_ffff_ffffu128 <= u128::MAX) by (nonlinear_arith)
            requires total <= i * 0xffff_ffff_ffff_ffffu128, x <= 0xffff_ffff_ffff_ffffu128,
                i < 0xffff_ffff_ffff_ffffu128;
        total = total + x as u128;
        if x < lo {
            lo = x;
        }
        if x > hi {
            hi = x;
        }
        i = i + 1;
    }
    assert(d.take(n as int) == d);
    (total, lo, hi)
}

/// The sum of squared deviations of the elapsed times from `c`, returned as
/// quotient and remainder of its division by the sample size.
fn deviation_quot_rem(ms: &Vec<Measurement>, c: u64) -> (r: (u128, u128))
    requires
        ms.len() > 0,
    ensures
        r.0 * ms.len() + r.1 == dev_sq(durations(ms@), c as int),
        r.1 < ms.len(),
{
    let ghost d = durations(ms@);
    let n = ms.len();
    let nn = n as u128;
    let ghost big: int = 0xffff_ffff_ffff_ffffint * 0xffff_ffff_ffff_ffffint;
    let mut q: u128 = 0;
    let mut rem: u128 = 0;
    let mut j: usize = 0;
    assert(d.take(0) == Seq::<int>::empty());
    while j < n
        invariant
            j <= n,
            n == ms.len(),
            nn == n,
            d == durations(ms@),
            big == 0xffff_ffff_ffff_ffff * 0xffff_ffff_ffff_ffff,
            q * nn + rem == dev_sq(d.take(j as int), c as int),
            rem < nn,
            dev_sq(d.take(j as int), c as int) <= j * big,
        decreases n - j,
    {
        let x = ms[j].elapsed_nanos;
        assert(d.take(j + 1).drop_last() == d.take(j as int));
        assert(d.take(j + 1).last() == x);
        let dev: u64 = if x >= c { x - c } else { c - x };
        assert(dev * dev == (x - c) * (x - c)) by (nonlinear_arith)
            requires dev == x - c || dev == c - x;
        assert(dev * dev <= big) by (nonlinear_arith)
            requires dev <= 0xffff_ffff_ffff_ffffu64, big == 0xffff_ffff_ffff_ffff * 0xffff_ffff_ffff_ffff;
        let sq: u128 = dev as u128 * dev as u128;
        let qa = sq / nn;
        let ra = sq % nn;
        let rs = rem + ra;
        let ghost t = dev_sq(d.take(j + 1), c as int);
        assert(t == dev_sq(d.take(j as int), c as int) + sq);
        assert(sq == qa * nn + ra) by {
            lemma_fundamental_div_mod(sq as int, nn as int);
        }
        assert(t == q * nn + rem + qa * nn + ra);
        assert(t <= (j + 1) * big) by (nonlinear_arith)
            requires t == dev_sq(d.take(j as int), c as int) + sq, sq <= big,
                dev_sq(d.take(j as int), c as int) <= j * big;
        assert(t <= nn * big) by (nonlinear_arith)
            requires t <= (j + 1) * big, j + 1 <= nn, big >= 0;
        let carry: u128 = if rs >= nn { 1 } else { 0 };
        let ghost nq = q + qa + carry;
        assert(nq * nn + (rs - carry * nn) == t) by (nonlinear_arith)
            requires nq == q + qa + carry, t == q * nn + rem + qa * nn + ra, rs == rem + ra;
        assert(nq <= big) by (nonlinear_arith)
            requires nq * nn + (rs - carry * nn) == t, t <= nn * big, rs - carry * nn >= 0, nn > 0;
        q = q + qa + carry;
        rem = rs - carry * nn;
        j = j + 1;
    }
    assert(d.take(n as int) == d);
    (q, rem)
}

/// Statistics of a non-empty sample, in nanoseconds. `mean_nanos` is the
/// mean rounded down and `stddev_nanos` the population standard deviation
/// (divisor n) rounded down.
pub struct Stats {
    pub total_nanos: u128,
    pub mean_nanos: u64,
    pub stddev_nanos: u64,
    pub min_nanos: u64,
    pub max_nanos: u64,
}

/// The summary of one run: how many measurements were kept and, when there
/// was at least one, their statistics.
pub struct Summary {
    pub sample_count: usize,
    pub stats: Option<Stats>,
}

/// What `st` must hold for the non-empty sample `d`.
pub open spec fn describes(st: Stats, d: Seq<int>) -> bool {
    let n = d.len() as int;
    &&& st.total_nanos == sum(d)
    &&& st.mean_nanos == sum(d) / n
    &&& st.min_nanos == seq_min(d)
    &&& st.max_nanos == seq_max(d)
    &&& is_floor_sqrt_of_ratio(st.stddev_nanos as int, spread(d), n * n)
}

/// Summarises the measurements. An empty sample is a valid input: it gives
/// a count of zero and no statistics.
pub fn summarize(ms: &Vec<Measurement>) -> (r: Summary)
    ensures
        r.sample_count == ms.len(),
        r.stats is None <==> ms.len() == 0,
        r.stats matches Some(st) ==> describes(st, durations(ms@)),
        r.stats matches Some(st) ==> st.min_nanos <= st.mean_nanos <= st.max_nanos,
{
    let n = ms.len();
    if n == 0 {
        return Summary { sample_count: 0, stats: None };
    }
    let ghost d = durations(ms@);
    let (total, lo, hi) = scan_extremes(ms);
    let nn = n as u128;
    let mean = total / nn;
    let r = total % nn;
    proof {
        lemma_min_max_bounds(d);
        lemma_fundamental_div_mod(total as int, nn as int);
        assert(lo <= mean <= hi) by (nonlinear_arith)
            requires nn * lo <= total <= nn * hi, total == nn * mean + r, 0 <= r < nn;
    }
    let c = mean as u64;
    let (q, rem) = deviation_quot_rem(ms, c);
    let ghost t = dev_sq(d, c as int);
    proof {
        lemma_spread_around(d, c as int);
        assert(sum(d) - n * c == r);
        assert(nn * rem < nn * nn) by (nonlinear_arith)
            requires rem < nn;
        assert(r * r < nn * nn) by (nonlinear_arith)
            requires r < nn;
        assert(nn * nn <= 0xffff_ffff_ffff_ffffu128 * 0xffff_ffff_ffff_ffffu128) by (nonlinear_arith)
            requires nn <= 0xffff_ffff_ffff_ffffu128;
    }
    let a = nn * rem;
    let b = r * r;
    let ghost v = spread(d);
    let ghost n2 = nn * nn;
    assert(v == q * n2 + a - b) by (nonlinear_arith)
        requires v == nn * t - r * r, t == q * nn + rem, a == nn * rem, b == r * r, n2 == nn * nn;
    let vf: u128 = if a >= b {
        q
    } else {
        assert(q >= 1) by (nonlinear_arith)
            requires v == q * n2 + a - b, v >= 0, a < b, q >= 0;
        q - 1
    };
    assert(vf * n2 <= v < (vf + 1) * n2) by (nonlinear_arith)
        requires v == q * n2 + a - b, a < n2, b < n2, a >= 0, b >= 0,
            (a >= b ==> vf == q), (a < b ==> vf == q - 1);
    let sd = isqrt(vf);
    assert(is_floor_sqrt_of_ratio(sd as int, v, n2)) by (nonlinear_arith)
        requires vf * n2 <= v < (vf + 1) * n2, sd * sd <= vf < (sd + 1) * (sd + 1), n2 > 0;
    let st = Stats { total_nanos: total, mean_nanos: c, stddev_nanos: sd, min_nanos: lo, max_nanos: hi };
    Summary { sample_count: n, stats: Some(st) }
}

} // verus!
