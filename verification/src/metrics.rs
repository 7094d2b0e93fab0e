//! Resource and availability metrics, in fixed-point integers.
//!
//! Usages and scores are carried in milli-percent (100_000 = 100%); probe
//! response times in microseconds. The availability score follows the
//! best-case-relative formula: a power-1.5 ratio of the best to the
//! effective response time, an exponential-decay penalty above a dynamic
//! threshold, and a trend adjustment, smoothed by an exponential moving
//! average. The power and the decay are evaluated by integer square root
//! and a rational approximation of the exponential.
use vstd::prelude::*;
use crate::worker::SCORE_MAX_MILLI;

verus! {

/// Bound on the kept probe history, per worker.
pub const HISTORY_SIZE: usize = 20;

/// Bound on the kept best-time samples, per worker.
pub const BEST_TIME_WINDOW: usize = 10;

/// Probes time out after five seconds, so no sample is larger.
pub const MAX_SAMPLE_MICROS: u64 = 5_000_000;

/// Floor of the dynamic threshold (0.5 s).
pub const MIN_THRESHOLD_MICROS: u64 = 500_000;

/// Starting dynamic threshold (1 s).
pub const INIT_THRESHOLD_MICROS: u64 = 1_000_000;

/// The dynamic threshold never exceeds 1.5 times the largest sample.
pub const MAX_THRESHOLD_MICROS: u64 = 7_500_000;

/// Micro scale used by the exponential approximation.
pub const MICRO: u64 = 1_000_000;

/// Sum of a sample sequence.
pub open spec fn spec_sum(s: Seq<u64>) -> int
    decreases s.len(),
{
    if s.len() == 0 {
        0
    } else {
        s[0] + spec_sum(s.drop_first())
    }
}

/// Mean of a sample sequence (zero when empty).
pub open spec fn spec_mean(s: Seq<u64>) -> int {
    if s.len() == 0 {
        0
    } else {
        spec_sum(s) / (s.len() as int)
    }
}

/// A bounded push: the oldest element leaves when the bound is reached.
pub open spec fn spec_push_bounded(s: Seq<u64>, x: u64, cap: int) -> Seq<u64> {
    (if s.len() >= cap {
        s.drop_first()
    } else {
        s
    }).push(x)
}

/// Appending adds to the sum.
pub proof fn lemma_sum_push(s: Seq<u64>, x: u64)
    ensures
        spec_sum(s.push(x)) == spec_sum(s) + x,
    decreases s.len(),
{
    assert(spec_sum(Seq::<u64>::empty()) == 0);
    if s.len() == 0 {
        assert(s.push(x)[0] == x);
        assert(s.push(x).drop_first() =~= Seq::<u64>::empty());
    } else {
        assert(s.push(x)[0] == s[0]);
        assert(s.push(x).drop_first() =~= s.drop_first().push(x));
        lemma_sum_push(s.drop_first(), x);
    }
}

/// A sum is bounded by the largest element times the length.
pub proof fn lemma_sum_bound(s: Seq<u64>, bound: u64)
    requires
        forall|i: int| 0 <= i < s.len() ==> s[i] <= bound,
    ensures
        0 <= spec_sum(s) <= s.len() * bound,
    decreases s.len(),
{
    if s.len() > 0 {
        let t = s.drop_first();
        assert(forall|i: int| 0 <= i < t.len() ==> t[i] == s[i + 1]);
        lemma_sum_bound(t, bound);
        assert(s.len() * bound == bound + (s.len() - 1) * bound) by (nonlinear_arith);
    }
}

/// Multiplication keeps bounds: a product of bounded factors is bounded by
/// the product of the bounds.
pub proof fn lemma_mul_le(a: int, b: int, bound_a: int, bound_b: int)
    requires
        0 <= a <= bound_a,
        0 <= b <= bound_b,
    ensures
        0 <= a * b <= bound_a * bound_b,
{
    assert(a * b <= bound_a * bound_b) by (nonlinear_arith)
        requires
            0 <= a <= bound_a,
            0 <= b <= bound_b,
    ;
    assert(a * b >= 0) by (nonlinear_arith)
        requires
            a >= 0,
            b >= 0,
    ;
}

/// Sums a slice of the samples.
fn sum_range(v: &Vec<u64>, from: usize, to: usize) -> (r: u64)
    requires
        from <= to <= v@.len(),
        forall|i: int| 0 <= i < v@.len() ==> v@[i] <= MAX_SAMPLE_MICROS,
        to - from <= HISTORY_SIZE,
    ensures
        r == spec_sum(v@.subrange(from as int, to as int)),
        r <= (to - from) * MAX_SAMPLE_MICROS,
{
    let mut sum: u64 = 0;
    let mut i: usize = from;
    proof {
        assert(v@.subrange(from as int, from as int) =~= Seq::<u64>::empty());
    }
    while i < to
        invariant
            from <= i <= to <= v@.len(),
            to - from <= HISTORY_SIZE,
            forall|j: int| 0 <= j < v@.len() ==> v@[j] <= MAX_SAMPLE_MICROS,
            sum == spec_sum(v@.subrange(from as int, i as int)),
            sum <= (i - from) * MAX_SAMPLE_MICROS,
        decreases to - i,
    {
        proof {
            assert(v@.subrange(from as int, i + 1) =~= v@.subrange(from as int, i as int).push(
                v@[i as int],
            ));
            lemma_sum_push(v@.subrange(from as int, i as int), v@[i as int]);
            assert((i + 1 - from) * MAX_SAMPLE_MICROS == (i - from) * MAX_SAMPLE_MICROS
                + MAX_SAMPLE_MICROS) by (nonlinear_arith);
        }
        sum = sum + v[i];
        i += 1;
    }
    sum
}

/// The largest whole number whose square does not exceed `x`.
pub open spec fn spec_isqrt(x: int) -> int
    decreases x,
{
    if x <= 0 {
        0
    } else {
        let p = spec_isqrt(x - 1);
        if (p + 1) * (p + 1) <= x {
            p + 1
        } else {
            p
        }
    }
}

/// The square root is bracketed by its defining squares.
pub proof fn lemma_isqrt_bracket(x: int)
    requires
        x >= 0,
    ensures
        spec_isqrt(x) >= 0,
        spec_isqrt(x) * spec_isqrt(x) <= x,
        (spec_isqrt(x) + 1) * (spec_isqrt(x) + 1) > x,
    decreases x,
{
    if x > 0 {
        lemma_isqrt_bracket(x - 1);
        let p = spec_isqrt(x - 1);
        if (p + 1) * (p + 1) <= x {
            assert((p + 2) * (p + 2) > x) by (nonlinear_arith)
                requires
                    p >= 0,
                    (p + 1) * (p + 1) > x - 1,
            ;
        }
    }
}

/// Two numbers bracketed the same way are the same number.
pub proof fn lemma_isqrt_unique(x: int, a: int, b: int)
    requires
        a >= 0,
        b >= 0,
        a * a <= x < (a + 1) * (a + 1),
        b * b <= x < (b + 1) * (b + 1),
    ensures
        a == b,
{
    if a < b {
        assert((a + 1) * (a + 1) <= b * b) by (nonlinear_arith)
            requires
                0 <= a < b,
        ;
    }
    if b < a {
        assert((b + 1) * (b + 1) <= a * a) by (nonlinear_arith)
            requires
                0 <= b < a,
        ;
    }
}

/// Integer square root by bisection.
pub fn isqrt_u128(x: u128) -> (r: u128)
    requires
        x < (1u128 << 126),
    ensures
        r == spec_isqrt(x as int),
        r * r <= x < (r + 1) * (r + 1),
{
    proof {
        lemma_isqrt_bracket(x as int);
    }
    if x == 0 {
        return 0;
    }
    let mut lo: u128 = 0;
    let mut hi: u128 = 1u128 << 63;
    proof {
        assert((1u128 << 63) as int * (1u128 << 63) as int == (1u128 << 126) as int)
            by (bit_vector);
        assert(hi * hi > x);
    }
    while lo + 1 < hi
        invariant
            lo < hi,
            hi <= (1u128 << 63),
            lo * lo <= x,
            hi * hi > x,
            x < (1u128 << 126),
            (1u128 << 63) as int * (1u128 << 63) as int == (1u128 << 126) as int,
        decreases hi - lo,
    {
        let mid: u128 = lo + (hi - lo) / 2;
        proof {
            assert(hi as int * hi as int <= (1u128 << 63) as int * (1u128 << 63) as int)
                by (nonlinear_arith)
                requires
                    0 <= hi <= (1u128 << 63),
            ;
            assert(mid as int * mid as int <= hi as int * hi as int) by (nonlinear_arith)
                requires
                    0 <= mid < hi,
            ;
            assert((1u128 << 126) < u128::MAX) by (bit_vector);
        }
        if mid * mid <= x {
            lo = mid;
        } else {
            hi = mid;
        }
    }
    proof {
        assert(hi == lo + 1);
        lemma_isqrt_unique(x as int, lo as int, spec_isqrt(x as int));
    }
    lo
}

/// The rational stand-in for exponential decay: `e^(-over/MICRO)` in MICRO
/// fixed point, evaluated as the reciprocal of the series
/// `1 + x + x^2/2 + x^3/6`.
pub open spec fn spec_expneg_micro(over: int) -> int {
    let m = MICRO as int;
    let d = m + over + (over * over) / (2 * m) + (over * over * over) / (6 * m * m);
    (m * m) / d
}

/// Evaluates the decay approximation.
pub fn expneg_micro(over: u64) -> (r: u64)
    requires
        over <= MAX_SAMPLE_MICROS * 2,
    ensures
        r == spec_expneg_micro(over as int),
        r <= MICRO,
{
    let m: u128 = MICRO as u128;
    let o: u128 = over as u128;
    proof {
        assert(o as int * o as int <= 100_000_000_000_000) by (nonlinear_arith)
            requires
                0 <= o <= 10_000_000,
        ;
        assert(o as int * o as int * o as int <= 1_000_000_000_000_000_000_000)
            by (nonlinear_arith)
            requires
                0 <= o <= 10_000_000,
        ;
    }
    let d: u128 = m + o + (o * o) / (2 * m) + (o * o * o) / (6 * m * m);
    let r: u128 = (m * m) / d;
    proof {
        assert(d >= m);
        assert((m as int * m as int) / (d as int) <= m as int) by (nonlinear_arith)
            requires
                d >= m > 0,
        ;
    }
    r as u64
}

/// The trend of the probe history, in milli: how much the mean of the five
/// samples before the latest five exceeds the mean of the latest five,
/// relative to the former. Positive when times are improving; zero when
/// fewer than two samples or when the older window sums to zero.
pub open spec fn spec_trend_milli(s: Seq<u64>) -> int {
    if s.len() < 2 {
        0
    } else {
        let len = s.len() as int;
        let r_from = if len - 5 >= 0 {
            len - 5
        } else {
            0
        };
        let o_from = if len - 10 >= 0 {
            len - 10
        } else {
            0
        };
        let recent = spec_sum(s.subrange(r_from, len));
        let older = spec_sum(s.subrange(o_from, r_from));
        if older == 0 {
            0
        } else if older >= recent {
            ((older - recent) * 1000) / older
        } else {
            -(((recent - older) * 1000) / older)
        }
    }
}

/// Per-worker probe metrics: bounded history, bounded best times, smoothed
/// availability score, dynamic threshold.
pub struct ResponseTimeMetrics {
    history: Vec<u64>,
    best_times: Vec<u64>,
    ema_score_milli: i64,
    dynamic_threshold_micros: u64,
}

impl ResponseTimeMetrics {
    /// Internal consistency of the metrics record.
    pub open spec fn wf(&self) -> bool {
        &&& self.history_spec().len() <= HISTORY_SIZE
        &&& self.best_times_spec().len() <= BEST_TIME_WINDOW
        &&& forall|i: int|
            0 <= i < self.history_spec().len() ==> self.history_spec()[i] <= MAX_SAMPLE_MICROS
        &&& forall|i: int|
            0 <= i < self.best_times_spec().len() ==> self.best_times_spec()[i]
                <= MAX_SAMPLE_MICROS
        &&& self.history_spec().len() > 0 ==> self.best_times_spec().len() > 0
        &&& 0 <= self.ema_spec() <= SCORE_MAX_MILLI
        &&& MIN_THRESHOLD_MICROS <= self.threshold_spec() <= MAX_THRESHOLD_MICROS
    }

    pub closed spec fn history_spec(&self) -> Seq<u64> {
        self.history@
    }

    pub closed spec fn best_times_spec(&self) -> Seq<u64> {
        self.best_times@
    }

    pub closed spec fn ema_spec(&self) -> int {
        self.ema_score_milli as int
    }

    pub closed spec fn threshold_spec(&self) -> int {
        self.dynamic_threshold_micros as int
    }

    /// Fresh metrics: empty history, full starting score, starting
    /// threshold.
    pub fn new() -> (r: ResponseTimeMetrics)
        ensures
            r.wf(),
            r.history_spec() == Seq::<u64>::empty(),
            r.best_times_spec() == Seq::<u64>::empty(),
            r.ema_spec() == SCORE_MAX_MILLI,
            r.threshold_spec() == INIT_THRESHOLD_MICROS,
    {
        ResponseTimeMetrics {
            history: Vec::new(),
            best_times: Vec::new(),
            ema_score_milli: SCORE_MAX_MILLI,
            dynamic_threshold_micros: INIT_THRESHOLD_MICROS,
        }
    }

    /// The new threshold after seeing an average: nine tenths of the old
    /// threshold plus one tenth of one-and-a-half times the average, floored
    /// at the minimum.
    pub open spec fn spec_new_threshold(thr: int, avg: int) -> int {
        let cand = (18 * thr + 3 * avg) / 20;
        if cand < MIN_THRESHOLD_MICROS {
            MIN_THRESHOLD_MICROS as int
        } else {
            cand
        }
    }

    /// Records one probe sample: appends to the bounded history, keeps it as
    /// a best time when it beats the latest best, and moves the dynamic
    /// threshold toward one-and-a-half times the current average.
    pub fn add_measurement(&mut self, rt_micros: u64)
        requires
            old(self).wf(),
            rt_micros <= MAX_SAMPLE_MICROS,
        ensures
            final(self).wf(),
            final(self).history_spec() == spec_push_bounded(
                old(self).history_spec(),
                rt_micros,
                HISTORY_SIZE as int,
            ),
            final(self).best_times_spec() == (if old(self).best_times_spec().len() == 0
                || rt_micros < old(self).best_times_spec().last() {
                spec_push_bounded(old(self).best_times_spec(), rt_micros, BEST_TIME_WINDOW as int)
            } else {
                old(self).best_times_spec()
            }),
            final(self).threshold_spec() == Self::spec_new_threshold(
                old(self).threshold_spec(),
                spec_mean(final(self).history_spec()),
            ),
            final(self).ema_spec() == old(self).ema_spec(),
    {
        if self.history.len() >= HISTORY_SIZE {
            self.history.remove(0);
            proof {
                assert(self.history@ =~= old(self).history@.drop_first());
            }
        }
        self.history.push(rt_micros);
        let push_best = self.best_times.len() == 0 || rt_micros < self.best_times[
            self.best_times.len() - 1
        ];
        if push_best {
            if self.best_times.len() >= BEST_TIME_WINDOW {
                self.best_times.remove(0);
                proof {
                    assert(self.best_times@ =~= old(self).best_times@.drop_first());
                }
            }
            self.best_times.push(rt_micros);
        }
        let avg = self.calculate_average();
        proof {
            lemma_sum_bound(self.history@, MAX_SAMPLE_MICROS);
            assert(spec_sum(self.history@) / (self.history@.len() as int) <= MAX_SAMPLE_MICROS) by {
                let s = spec_sum(self.history@);
                let n = self.history@.len() as int;
                assert(s <= n * MAX_SAMPLE_MICROS);
                assert(s / n <= MAX_SAMPLE_MICROS) by (nonlinear_arith)
                    requires
                        n > 0,
                        0 <= s <= n * MAX_SAMPLE_MICROS,
                ;
            }
        }
        let cand: u64 = (18 * self.dynamic_threshold_micros + 3 * avg) / 20;
        self.dynamic_threshold_micros = if cand < MIN_THRESHOLD_MICROS {
            MIN_THRESHOLD_MICROS
        } else {
            cand
        };
    }

    /// Mean of the probe history, in microseconds; zero when empty.
    pub fn calculate_average(&self) -> (r: u64)
        requires
            self.wf(),
        ensures
            r == spec_mean(self.history_spec()),
            r <= MAX_SAMPLE_MICROS,
    {
        if self.history.len() == 0 {
            return 0;
        }
        let n = self.history.len();
        let sum = sum_range(&self.history, 0, n);
        proof {
            assert(self.history@.subrange(0, n as int) =~= self.history@);
            lemma_sum_bound(self.history@, MAX_SAMPLE_MICROS);
            let s = spec_sum(self.history@);
            assert(s / (n as int) <= MAX_SAMPLE_MICROS) by (nonlinear_arith)
                requires
                    n > 0,
                    0 <= s <= (n as int) * MAX_SAMPLE_MICROS,
            ;
        }
        sum / (n as u64)
    }

    /// Mean of the kept best times, in microseconds.
    pub fn get_best_time(&self) -> (r: u64)
        requires
            self.wf(),
            self.best_times_spec().len() > 0,
        ensures
            r == spec_mean(self.best_times_spec()),
            r <= MAX_SAMPLE_MICROS,
    {
        let n = self.best_times.len();
        let sum = sum_range(&self.best_times, 0, n);
        proof {
            assert(self.best_times@.subrange(0, n as int) =~= self.best_times@);
            lemma_sum_bound(self.best_times@, MAX_SAMPLE_MICROS);
            let s = spec_sum(self.best_times@);
            assert(s / (n as int) <= MAX_SAMPLE_MICROS) by (nonlinear_arith)
                requires
                    n > 0,
                    0 <= s <= (n as int) * MAX_SAMPLE_MICROS,
            ;
        }
        sum / (n as u64)
    }

    /// The trend of the probe history, in milli.
    pub fn calculate_trend(&self) -> (r: i64)
        requires
            self.wf(),
        ensures
            r == spec_trend_milli(self.history_spec()),
            -1000 * (HISTORY_SIZE as int) * (MAX_SAMPLE_MICROS as int) <= r <= 1000,
    {
        let len = self.history.len();
        if len < 2 {
            return 0;
        }
        let r_from: usize = if len >= 5 {
            len - 5
        } else {
            0
        };
        let o_from: usize = if len >= 10 {
            len - 10
        } else {
            0
        };
        let recent = sum_range(&self.history, r_from, len);
        let older = sum_range(&self.history, o_from, r_from);
        if older == 0 {
            0
        } else if older >= recent {
            let diff = older - recent;
            proof {
                let d = diff as int;
                let o = older as int;
                assert(d * 1000 <= o * 1000) by (nonlinear_arith)
                    requires
                        0 <= d <= o,
                ;
                assert((d * 1000) / o <= 1000) by (nonlinear_arith)
                    requires
                        o > 0,
                        0 <= d * 1000 <= o * 1000,
                ;
            }
            ((diff * 1000) / older) as i64
        } else {
            let diff = recent - older;
            proof {
                let d = diff as int;
                let o = older as int;
                assert((d * 1000) / o >= 0) by (nonlinear_arith)
                    requires
                        o > 0,
                        d >= 0,
                ;
                assert((d * 1000) / o <= d * 1000);
            }
            -(((diff * 1000) / older) as i64)
        }
    }
}


/// CPU usage in milli-percent from two stats samples: the CPU-time delta
/// over the system delta, times the number of CPUs, as a percentage.
pub open spec fn spec_cpu_usage_milli(cpu_delta: u64, system_delta: u64, online_cpus: u32) -> int {
    if system_delta > 0 && cpu_delta > 0 {
        let v = ((cpu_delta as int) * (online_cpus as int) * 100_000) / (system_delta as int);
        if v > u64::MAX {
            u64::MAX as int
        } else {
            v
        }
    } else {
        0
    }
}

/// Computes CPU usage in milli-percent.
pub fn calculate_cpu_usage(cpu_delta: u64, system_delta: u64, online_cpus: u32) -> (r: u64)
    ensures
        r == spec_cpu_usage_milli(cpu_delta, system_delta, online_cpus),
{
    if system_delta > 0 && cpu_delta > 0 {
        proof {
            lemma_mul_le(cpu_delta as int, online_cpus as int, u64::MAX as int, u32::MAX as int);
            lemma_mul_le(
                cpu_delta as int * online_cpus as int,
                100_000,
                u64::MAX as int * u32::MAX as int,
                100_000,
            );
        }
        let v: u128 = (cpu_delta as u128 * online_cpus as u128 * 100_000) / (system_delta as u128);
        if v > u64::MAX as u128 {
            u64::MAX
        } else {
            v as u64
        }
    } else {
        0
    }
}

/// Memory usage in milli-percent: usage over limit as a percentage.
pub open spec fn spec_memory_usage_milli(usage: u64, limit: u64) -> int {
    let v = ((usage as int) * 100_000) / (limit as int);
    if v > u64::MAX {
        u64::MAX as int
    } else {
        v
    }
}

/// Computes memory usage in milli-percent.
pub fn calculate_memory_usage(usage: u64, limit: u64) -> (r: u64)
    requires
        limit >= 1,
    ensures
        r == spec_memory_usage_milli(usage, limit),
{
    proof {
        lemma_mul_le(usage as int, 100_000, u64::MAX as int, 100_000);
    }
    let v: u128 = (usage as u128 * 100_000) / (limit as u128);
    if v > u64::MAX as u128 {
        u64::MAX
    } else {
        v as u64
    }
}

/// The transfer rate in milli-megabytes per second: bytes over the sample
/// window length.
pub open spec fn spec_net_rate_milli(total_bytes: u64, duration_micros: u64) -> int {
    let v = ((total_bytes as int) * 1000) / (duration_micros as int);
    if v > u64::MAX {
        u64::MAX as int
    } else {
        v
    }
}

/// Network usage in milli-percent: how much the rate grew relative to the
/// previous rate, clamped to 0..=100%; zero when there is no previous rate.
pub open spec fn spec_net_usage_milli(prev_rate: u64, rate: int) -> int {
    if prev_rate > 0 {
        if rate <= prev_rate {
            0
        } else {
            let v = (((rate - prev_rate) as int) * 100_000) / (prev_rate as int);
            if v > 100_000 {
                100_000
            } else {
                v
            }
        }
    } else {
        0
    }
}

/// Computes network usage in milli-percent and the new remembered rate.
pub fn calculate_network_usage(prev_rate: u64, total_bytes: u64, duration_micros: u64) -> (r: (
    u64,
    u64,
))
    requires
        duration_micros >= 1,
    ensures
        r.1 == spec_net_rate_milli(total_bytes, duration_micros),
        r.0 == spec_net_usage_milli(prev_rate, r.1 as int),
{
    proof {
        lemma_mul_le(total_bytes as int, 1000, u64::MAX as int, 1000);
    }
    let vr: u128 = (total_bytes as u128 * 1000) / (duration_micros as u128);
    let rate: u64 = if vr > u64::MAX as u128 {
        u64::MAX
    } else {
        vr as u64
    };
    let percent: u64;
    if prev_rate > 0 {
        if rate <= prev_rate {
            percent = 0;
        } else {
            proof {
                lemma_mul_le((rate - prev_rate) as int, 100_000, u64::MAX as int, 100_000);
            }
            let v: u128 = ((rate - prev_rate) as u128 * 100_000) / (prev_rate as u128);
            percent = if v > 100_000 {
                100_000
            } else {
                v as u64
            };
        }
    } else {
        percent = 0;
    }
    (percent, rate)
}

/// A usage turned into a score: 100% minus the usage; a usage beyond what
/// a score can hold leaves the lowest representable score.
pub open spec fn spec_usage_to_score(usage_milli: u64) -> int {
    SCORE_MAX_MILLI - (if usage_milli > i64::MAX as u64 {
        i64::MAX as int
    } else {
        usage_milli as int
    })
}

/// Turns a usage into a score.
pub fn usage_to_score(usage_milli: u64) -> (r: i64)
    ensures
        r == spec_usage_to_score(usage_milli),
{
    let capped: i64 = if usage_milli > i64::MAX as u64 {
        i64::MAX
    } else {
        usage_milli as i64
    };
    SCORE_MAX_MILLI - capped
}

/// The composite score: 35% CPU, 25% memory, 15% network, 25% availability,
/// clamped to the valid score range.
pub open spec fn spec_overall_score(c: int, m: int, n: int, a: int) -> int {
    let sum = 35 * c + 25 * m + 15 * n + 25 * a;
    let clamped = if sum < 0 {
        0
    } else if sum > 100 * (SCORE_MAX_MILLI as int) {
        100 * (SCORE_MAX_MILLI as int)
    } else {
        sum
    };
    clamped / 100
}

/// Computes the composite score.
pub fn calculate_score(
    cpu_score: i64,
    memory_score: i64,
    network_score: i64,
    availability_score: i64,
) -> (r: i64)
    ensures
        r == spec_overall_score(
            cpu_score as int,
            memory_score as int,
            network_score as int,
            availability_score as int,
        ),
        0 <= r <= SCORE_MAX_MILLI,
{
    let sum: i128 = 35 * (cpu_score as i128) + 25 * (memory_score as i128) + 15 * (network_score
        as i128) + 25 * (availability_score as i128);
    let clamped: i128 = if sum < 0 {
        0
    } else if sum > 100 * (SCORE_MAX_MILLI as i128) {
        100 * (SCORE_MAX_MILLI as i128)
    } else {
        sum
    };
    (clamped / 100) as i64
}

/// The blend of the newest sample with the running average: 30% current,
/// 70% average.
pub open spec fn spec_effective(current: int, avg: int) -> int {
    (3 * current + 7 * avg) / 10
}

/// The best-relative base score in milli: 100 times the ratio of best to
/// effective time raised to the power 1.5. A zero best time gives zero; a
/// zero effective time caps at the top score.
pub open spec fn spec_base_milli(best: int, eff: int) -> int {
    if best == 0 {
        0
    } else if eff == 0 {
        SCORE_MAX_MILLI as int
    } else {
        spec_isqrt((10_000_000_000 * ((best * best) * best)) / ((eff * eff) * eff))
    }
}

/// The penalty in milli for exceeding the dynamic threshold: up to 20
/// points, scaled by the decay approximation of how far the threshold is
/// exceeded.
pub open spec fn spec_penalty_milli(eff: int, thr: int) -> int {
    if eff > thr {
        (20_000 * (MICRO - spec_expneg_micro(eff - thr))) / (MICRO as int)
    } else {
        0
    }
}

/// The raw availability score before smoothing: base minus penalty plus ten
/// times the trend, clamped to the valid range.
pub open spec fn spec_raw_milli(base: int, penalty: int, trend: int) -> int {
    let v = base - penalty + 10 * trend;
    if v < 0 {
        0
    } else if v > SCORE_MAX_MILLI {
        SCORE_MAX_MILLI as int
    } else {
        v
    }
}

/// One smoothing step: one fifth of the raw score, four fifths of the
/// previous smoothed score.
pub open spec fn spec_ema_next(ema: int, raw: int) -> int {
    (2 * raw + 8 * ema) / 10
}

impl ResponseTimeMetrics {
    /// The availability score: full marks with no samples; otherwise the
    /// smoothed best-relative score described by the spec functions, with
    /// the smoothed state updated in place.
    pub fn calculate_availability_score(&mut self) -> (r: i64)
        requires
            old(self).wf(),
        ensures
            final(self).wf(),
            final(self).history_spec() == old(self).history_spec(),
            final(self).best_times_spec() == old(self).best_times_spec(),
            final(self).threshold_spec() == old(self).threshold_spec(),
            old(self).history_spec().len() == 0 ==> r == SCORE_MAX_MILLI && final(self).ema_spec()
                == old(self).ema_spec(),
            old(self).history_spec().len() > 0 ==> {
                let current = old(self).history_spec().last() as int;
                let avg = spec_mean(old(self).history_spec());
                let best = spec_mean(old(self).best_times_spec());
                let eff = spec_effective(current, avg);
                let raw = spec_raw_milli(
                    spec_base_milli(best, eff),
                    spec_penalty_milli(eff, old(self).threshold_spec()),
                    spec_trend_milli(old(self).history_spec()),
                );
                r == spec_ema_next(old(self).ema_spec(), raw) && final(self).ema_spec() == r
            },
    {
        if self.history.len() == 0 {
            return SCORE_MAX_MILLI;
        }
        let current: u64 = self.history[self.history.len() - 1];
        let avg: u64 = self.calculate_average();
        let best: u64 = self.get_best_time();
        let trend: i64 = self.calculate_trend();
        let eff: u64 = (3 * current + 7 * avg) / 10;
        proof {
            assert(self.history@.last() == self.history@[self.history@.len() - 1]);
        }
        let base: i64;
        if best == 0 {
            base = 0;
        } else if eff == 0 {
            base = SCORE_MAX_MILLI;
        } else {
            let b: u128 = best as u128;
            let e: u128 = eff as u128;
            proof {
                assert(b as int * b as int * b as int <= 125_000_000_000_000_000_000)
                    by (nonlinear_arith)
                    requires
                        0 <= b <= 5_000_000,
                ;
                assert((1u128 << 126) == 85_070_591_730_234_615_865_843_651_857_942_052_864u128)
                    by (bit_vector);
                assert(10_000_000_000int * (b as int * b as int * b as int) <= 10_000_000_000int
                    * 125_000_000_000_000_000_000) by (nonlinear_arith)
                    requires
                        0 <= b as int * b as int * b as int <= 125_000_000_000_000_000_000,
                ;
                assert(e as int * e as int * e as int >= 1) by (nonlinear_arith)
                    requires
                        e >= 1,
                ;
                let num = 10_000_000_000int * (b as int * b as int * b as int);
                let den = e as int * e as int * e as int;
                assert(num / den <= num) by (nonlinear_arith)
                    requires
                        den >= 1,
                        num >= 0,
                ;
            }
            proof {
                lemma_mul_le(b as int, b as int, 5_000_000, 5_000_000);
                lemma_mul_le(b as int * b as int, b as int, 25_000_000_000_000, 5_000_000);
                lemma_mul_le(e as int, e as int, 5_000_000, 5_000_000);
                lemma_mul_le(e as int * e as int, e as int, 25_000_000_000_000, 5_000_000);
            }
            let x: u128 = (10_000_000_000u128 * (b * b * b)) / (e * e * e);
            let root = isqrt_u128(x);
            proof {
                let num = 10_000_000_000int * (b as int * b as int * b as int);
                assert(spec_isqrt(x as int) * spec_isqrt(x as int) <= (x as int)) by {
                    lemma_isqrt_bracket(x as int);
                }
                assert(root as int <= 2_000_000_000_000_000) by {
                    if root as int > 2_000_000_000_000_000 {
                        assert(root as int * root as int > 2_000_000_000_000_000int
                            * 2_000_000_000_000_000) by (nonlinear_arith)
                            requires
                                root as int > 2_000_000_000_000_000,
                        ;
                    }
                }
            }
            base = root as i64;
        }
        let penalty: i64;
        if eff > self.dynamic_threshold_micros {
            let over: u64 = eff - self.dynamic_threshold_micros;
            let decay: u64 = expneg_micro(over);
            penalty = ((20_000 * (MICRO - decay)) / MICRO) as i64;
        } else {
            penalty = 0;
        }
        let v: i128 = (base as i128) - (penalty as i128) + 10 * (trend as i128);
        let raw: i64 = if v < 0 {
            0
        } else if v > SCORE_MAX_MILLI as i128 {
            SCORE_MAX_MILLI
        } else {
            v as i64
        };
        let ema: i64 = (2 * raw + 8 * self.ema_score_milli) / 10;
        self.ema_score_milli = ema;
        ema
    }
}


/// The full status of one worker, all scores in milli-points.
pub struct ContainerStatus {
    pub id: Vec<u8>,
    pub name: Vec<u8>,
    pub cpu_score_milli: i64,
    pub memory_score_milli: i64,
    pub network_score_milli: i64,
    pub availability_score_milli: i64,
    pub overall_score_milli: i64,
    pub category: crate::worker::Category,
}

/// Assembles a worker's status from its measured usages and availability:
/// each usage becomes a score, the composite is their weighted clamp, and
/// the category classifies the composite.
pub fn get_single_container_status(
    id: Vec<u8>,
    name: Vec<u8>,
    cpu_usage_milli: u64,
    memory_usage_milli: u64,
    network_usage_milli: u64,
    availability_score_milli: i64,
) -> (r: ContainerStatus)
    ensures
        r.id@ == id@,
        r.name@ == name@,
        r.cpu_score_milli == spec_usage_to_score(cpu_usage_milli),
        r.memory_score_milli == spec_usage_to_score(memory_usage_milli),
        r.network_score_milli == spec_usage_to_score(network_usage_milli),
        r.availability_score_milli == availability_score_milli,
        r.overall_score_milli == spec_overall_score(
            spec_usage_to_score(cpu_usage_milli),
            spec_usage_to_score(memory_usage_milli),
            spec_usage_to_score(network_usage_milli),
            availability_score_milli as int,
        ),
        0 <= r.overall_score_milli <= SCORE_MAX_MILLI,
        r.category == crate::worker::spec_categorize(r.overall_score_milli as int),
{
    let cpu_score_milli = usage_to_score(cpu_usage_milli);
    let memory_score_milli = usage_to_score(memory_usage_milli);
    let network_score_milli = usage_to_score(network_usage_milli);
    let overall_score_milli = calculate_score(
        cpu_score_milli,
        memory_score_milli,
        network_score_milli,
        availability_score_milli,
    );
    let category = crate::worker::categorize_utilization(overall_score_milli);
    ContainerStatus {
        id,
        name,
        cpu_score_milli,
        memory_score_milli,
        network_score_milli,
        availability_score_milli,
        overall_score_milli,
        category,
    }
}

/// The availability score for one probe outcome: a missed probe scores
/// zero; a sample is recorded and the smoothed score recomputed.
pub fn calculate_availability_score(
    metrics: &mut ResponseTimeMetrics,
    response_time_micros: Option<u64>,
) -> (r: i64)
    requires
        old(metrics).wf(),
        response_time_micros matches Some(t) ==> t <= MAX_SAMPLE_MICROS,
    ensures
        final(metrics).wf(),
        response_time_micros is None ==> r == 0 && *final(metrics) == *old(metrics),
        response_time_micros matches Some(t) ==> final(metrics).history_spec()
            == spec_push_bounded(old(metrics).history_spec(), t, HISTORY_SIZE as int) && r == final(metrics).ema_spec() && 0 <= r <= SCORE_MAX_MILLI,
{
    match response_time_micros {
        Some(t) => {
            metrics.add_measurement(t);
            metrics.calculate_availability_score()
        },
        None => 0,
    }
}

} // verus!
