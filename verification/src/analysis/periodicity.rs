//! Finding a repeat period by autocorrelation.
//!
//! The Landscape Signal repeats every 109.5 seconds or so. The series has about one value a
//! second, and its autocorrelation one per frame of lag, so the peak is refined by parabolic
//! interpolation. Levels, correlations, frame rates and times are in millionths.
use crate::arith::{capped_share, floor_div, ONE};
use crate::order::{sorted, values};
use crate::rank;
use vstd::prelude::*;

verus! {

#[derive(Clone, Copy, Debug, PartialEq, Eq, Structural)]
pub struct PeriodicityResult {
    pub period_seconds: i128,
    /// Autocorrelation at the peak, between nothing and one.
    pub confidence: u64,
    /// How far the peak stands above the median of the searched range. This is what
    /// separates a genuine repeat from a broad, slowly-decaying curve.
    pub prominence: i64,
    /// The selected fundamental lag in frames, before interpolation.
    pub peak_lag_frames: usize,
}

/// The number of frames nearest a time.
pub open spec fn lag_of(seconds: int, fps: int) -> int {
    (seconds * fps + 500_000_000_000) / 1_000_000_000_000
}

pub open spec fn first_lag(min_period: int, fps: int) -> int {
    if lag_of(min_period, fps) > 1 {
        lag_of(min_period, fps)
    } else {
        1
    }
}

/// Never trust a lag beyond half the series: fewer than two repeats is not evidence of a
/// period.
pub open spec fn last_lag(max_period: int, fps: int, n: int) -> int {
    if lag_of(max_period, fps) < n / 2 {
        lag_of(max_period, fps)
    } else {
        n / 2
    }
}

/// The last of the highest lags from `first` to `last`.
pub open spec fn highest(curve: Seq<i32>, first: int, last: int) -> int
    decreases last - first,
{
    if last <= first {
        first
    } else {
        let before = highest(curve, first, last - 1);
        if curve[last] >= curve[before] {
            last
        } else {
            before
        }
    }
}

/// The lag is a local maximum nearly as tall as the best.
pub open spec fn is_fundamental(curve: Seq<i32>, lag: int, first: int, last: int, top: int) -> bool {
    &&& 10 * curve[lag] >= 9 * top
    &&& lag == first || curve[lag] >= curve[lag - 1]
    &&& lag == last || curve[lag] >= curve[lag + 1]
}

/// The first lag from `lag` on that is a local maximum nearly as tall as the best, or `or`.
pub open spec fn fundamental(
    curve: Seq<i32>,
    lag: int,
    first: int,
    last: int,
    top: int,
    or: int,
) -> int
    decreases last + 1 - lag,
{
    if lag > last {
        or
    } else if is_fundamental(curve, lag, first, last, top) {
        lag
    } else {
        fundamental(curve, lag + 1, first, last, top, or)
    }
}

/// The lag selected. Autocorrelation peaks just as strongly at every multiple of the true
/// period, so the global maximum would report two periods as readily as one: the first local
/// maximum that is nearly as tall is the fundamental, not one of its harmonics.
pub open spec fn selected(curve: Seq<i32>, first: int, last: int) -> int {
    let best = highest(curve, first, last);
    if curve[best] > 0 {
        fundamental(curve, first, first, last, curve[best] as int, best)
    } else {
        best
    }
}

pub open spec fn searched(curve: Seq<i32>, first: int, last: int) -> Seq<int> {
    Seq::new((last - first + 1) as nat, |i: int| curve[first + i] as int)
}

/// Where the top of a parabola through a peak and its two neighbours lies, from the peak, in
/// millionths of a frame, within half a frame either way.
pub open spec fn offset(curve: Seq<i32>, peak: int) -> int {
    if peak <= 0 || peak + 1 >= curve.len() {
        0
    } else {
        let a = curve[peak - 1] as int;
        let b = curve[peak] as int;
        let c = curve[peak + 1] as int;
        let denom = a - 2 * b + c;
        let t = if denom > 0 {
            (a - c) * ONE / (2 * denom)
        } else {
            (c - a) * ONE / (2 * (-denom))
        };
        if denom == 0 {
            0
        } else if t < -500_000 {
            -500_000
        } else if t > 500_000 {
            500_000
        } else {
            t
        }
    }
}

/// `r` is what a search of a curve finds.
pub open spec fn is_period(
    curve: Seq<i32>,
    fps: int,
    min_period: int,
    max_period: int,
    r: Option<PeriodicityResult>,
) -> bool {
    let n = curve.len() as int;
    let first = first_lag(min_period, fps);
    let last = last_lag(max_period, fps, n);
    let peak = selected(curve, first, last);
    let range = searched(curve, first, last);
    match r {
        None => fps == 0 || min_period == 0 || max_period <= min_period || n == 0 || last <= first,
        Some(p) => {
            &&& fps > 0
            &&& 0 < min_period < max_period
            &&& n > 0
            &&& first < last
            &&& p.peak_lag_frames == peak
            &&& p.period_seconds == (peak * ONE + offset(curve, peak)) * ONE / fps
            &&& p.confidence == if curve[peak] < 0 {
                0
            } else if curve[peak] > ONE {
                ONE as int
            } else {
                curve[peak] as int
            }
            &&& p.prominence == curve[peak] - rank::median(range)
        },
    }
}

proof fn lemma_highest_bounds(curve: Seq<i32>, first: int, last: int)
    requires
        first <= last,
    ensures
        first <= highest(curve, first, last) <= last,
    decreases last - first,
{
    if first < last {
        lemma_highest_bounds(curve, first, last - 1);
    }
}

fn parabolic_offset(curve: &[i32], peak: usize) -> (r: i64)
    requires
        peak < curve.len(),
    ensures
        r == offset(curve@, peak as int),
        -500_000 <= r <= 500_000,
{
    if peak == 0 || peak >= curve.len() - 1 {
        return 0;
    }
    let a: i128 = curve[peak - 1] as i128;
    let b: i128 = curve[peak] as i128;
    let c: i128 = curve[peak + 1] as i128;
    let denom: i128 = a - 2 * b + c;
    if denom == 0 {
        return 0;
    }
    let t: i128 = if denom > 0 {
        floor_div((a - c) * 1_000_000, 2 * denom)
    } else {
        floor_div((c - a) * 1_000_000, 2 * (-denom))
    };
    if t < -500_000 {
        -500_000
    } else if t > 500_000 {
        500_000
    } else {
        t as i64
    }
}

fn nearest_lag(seconds: u64, fps: u64) -> (r: u128)
    ensures
        r == lag_of(seconds as int, fps as int),
{
    proof {
        assert(0 <= seconds * fps <= 0xffff_ffff_ffff_ffff * 0xffff_ffff_ffff_ffff)
            by (nonlinear_arith)
            requires
                0 <= seconds <= 0xffff_ffff_ffff_ffff,
                0 <= fps <= 0xffff_ffff_ffff_ffff,
        ;
    }
    (seconds as u128 * fps as u128 + 500_000_000_000) / 1_000_000_000_000
}

/// Search an autocorrelation curve for a dominant repeat period within a window of lags.
///
/// `None` when the curve is too short to contain the requested lags.
pub fn period_of_curve(curve: &[i32], fps: u64, min_period_seconds: u64, max_period_seconds: u64) -> (r:
    Option<PeriodicityResult>)
    ensures
        is_period(
            curve@,
            fps as int,
            min_period_seconds as int,
            max_period_seconds as int,
            r,
        ),
        r matches Some(p) ==> p.peak_lag_frames * 1_000_000_000_000 - 500_000_000_000 - fps
            < p.period_seconds * fps <= p.peak_lag_frames * 1_000_000_000_000 + 500_000_000_000,
{
    if fps == 0 || min_period_seconds == 0 || max_period_seconds <= min_period_seconds {
        return None;
    }
    let n: usize = curve.len();
    if n == 0 {
        return None;
    }
    let low: u128 = nearest_lag(min_period_seconds, fps);
    let high: u128 = nearest_lag(max_period_seconds, fps);
    let start: u128 = if low > 1 {
        low
    } else {
        1
    };
    let last: usize = if high < (n / 2) as u128 {
        high as usize
    } else {
        n / 2
    };
    if last as u128 <= start {
        return None;
    }
    let first: usize = start as usize;
    let mut best: usize = first;
    let mut lag: usize = first + 1;
    let mut keys: Vec<i128> = Vec::new();
    keys.push(curve[first] as i128);
    while lag <= last
        invariant
            1 <= first < last,
            last < n,
            n == curve.len(),
            first < lag <= last + 1,
            first <= best < lag,
            best == highest(curve@, first as int, lag - 1),
            keys.len() == lag - first,
            forall|k: int| 0 <= k < keys.len() ==> #[trigger] keys[k] == curve@[first + k],
        decreases last + 1 - lag,
    {
        if curve[lag] >= curve[best] {
            best = lag;
        }
        keys.push(curve[lag] as i128);
        lag = lag + 1;
    }
    let top: i32 = curve[best];
    let mut peak: usize = best;
    if top > 0 {
        lag = first;
        let mut found: bool = false;
        while lag <= last && !found
            invariant
                1 <= first < last,
                last < n,
                n == curve.len(),
                first <= lag <= last + 1,
                first <= best <= last,
                first <= peak <= last,
                !found ==> peak == best && fundamental(
                    curve@,
                    first as int,
                    first as int,
                    last as int,
                    top as int,
                    best as int,
                ) == fundamental(
                    curve@,
                    lag as int,
                    first as int,
                    last as int,
                    top as int,
                    best as int,
                ),
                found ==> peak == fundamental(
                    curve@,
                    first as int,
                    first as int,
                    last as int,
                    top as int,
                    best as int,
                ),
            decreases last + 1 - lag, (if found {
                0int
            } else {
                1int
            }),
        {
            let here: i32 = curve[lag];
            let rising: bool = lag == first || here >= curve[lag - 1];
            let falling: bool = lag == last || here >= curve[lag + 1];
            if 10 * (here as i64) >= 9 * (top as i64) && rising && falling {
                peak = lag;
                found = true;
            } else {
                lag = lag + 1;
            }
        }
    }
    assert(peak == selected(curve@, first as int, last as int));
    let ordered = sorted(keys.as_slice());
    let median: i128 = ordered[ordered.len() / 2];
    proof {
        let range = searched(curve@, first as int, last as int);
        assert(values(keys@) =~= range);
        assert forall|i: int| 0 <= i < range.len() implies -0x8000_0000 <= #[trigger] range[i]
            < 0x8000_0000 by {}
        rank::lemma_extremes(range, -0x8000_0000, 0x8000_0000);
        if median < -0x8000_0000 {
            rank::lemma_monotone(range, median as int + 1, -0x8000_0000);
        }
        if median >= 0x8000_0000 {
            rank::lemma_monotone(range, 0x8000_0000, median as int);
        }
    }
    let value: i32 = curve[peak];
    let refined: i128 = peak as i128 * 1_000_000 + parabolic_offset(curve, peak) as i128;
    let found: Option<PeriodicityResult> = Some(
        PeriodicityResult {
            period_seconds: floor_div(refined * 1_000_000, fps as i128),
            confidence: if value < 0 {
                0
            } else if value as u64 > ONE {
                ONE
            } else {
                value as u64
            },
            prominence: value as i64 - median as i64,
            peak_lag_frames: peak,
        },
    );
    proof {
        law_the_period_is_the_lag_over_the_rate(
            curve@,
            fps as int,
            min_period_seconds as int,
            max_period_seconds as int,
            found->Some_0,
        );
    }
    found
}

/// A correlation of no more than this with itself, in square millionths, is that of a flat
/// series.
pub const FLAT: u128 = 119_209;

pub open spec fn total(series: Seq<i32>) -> int
    decreases series.len(),
{
    if series.len() == 0 {
        0
    } else {
        total(series.drop_last()) + series.last()
    }
}

/// The mean of a series, rounded down.
pub open spec fn mean(series: Seq<i32>) -> int {
    total(series) / (series.len() as int)
}

/// The first `m` values by those `lag` frames on, both as they stand above `mean`, summed.
pub open spec fn products(series: Seq<i32>, mean: int, lag: int, m: int) -> int
    decreases m,
{
    if m <= 0 {
        0
    } else {
        products(series, mean, lag, m - 1) + (series[m - 1] - mean) * (series[m - 1 + lag] - mean)
    }
}

/// A series by itself `lag` frames on. The mean is taken off first, so that the constant
/// offset that every series of levels has does not swamp the result.
pub open spec fn correlation(series: Seq<i32>, lag: int) -> int {
    products(series, mean(series), lag, series.len() - lag)
}

/// The least power of two from `p` on that reaches `n`.
pub open spec fn reaching(n: int, p: int) -> int
    decreases (if n > p {
        n - p
    } else {
        0
    }),
{
    if p <= 0 || p >= n {
        p
    } else {
        reaching(n, 2 * p)
    }
}

/// There is no variation to speak of.
pub open spec fn is_flat(series: Seq<i32>) -> bool {
    series.len() < 2 || correlation(series, 0) * reaching(2 * series.len() as int, 1) <= FLAT
}

/// A quotient in millionths, rounded toward zero, between minus one and one.
pub open spec fn quotient(a: int, b: int) -> int {
    let size = if a < 0 {
        -a
    } else {
        a
    };
    let share = if size >= b {
        ONE as int
    } else {
        size * ONE / b
    };
    if a < 0 {
        -share
    } else {
        share
    }
}

/// The autocorrelation at a lag: one at lag zero. It is taken per overlapping frame, since
/// long lags would otherwise be penalized purely for having fewer of them.
pub open spec fn correlation_at(series: Seq<i32>, lag: int) -> int {
    let n = series.len() as int;
    quotient(correlation(series, lag) * n, correlation(series, 0) * (n - lag))
}

/// The autocorrelation of a series, or nothing where it is flat.
pub open spec fn curve_of(series: Seq<i32>) -> Seq<i32> {
    if is_flat(series) {
        Seq::empty()
    } else {
        Seq::new(series.len(), |lag: int| correlation_at(series, lag) as i32)
    }
}

proof fn lemma_total_bounds(series: Seq<i32>)
    ensures
        -0x8000_0000 * series.len() <= total(series) <= 0x7fff_ffff * series.len(),
    decreases series.len(),
{
    if series.len() > 0 {
        lemma_total_bounds(series.drop_last());
    }
}

fn sum_up(series: &[i32]) -> (r: i128)
    ensures
        r == total(series@),
{
    let mut sum: i128 = 0;
    let mut i: usize = 0;
    assert(series@.take(0) =~= Seq::<i32>::empty());
    while i < series.len()
        invariant
            i <= series.len(),
            sum == total(series@.take(i as int)),
        decreases series.len() - i,
    {
        proof {
            lemma_total_bounds(series@.take(i as int));
            assert(series@.take(i + 1).drop_last() =~= series@.take(i as int));
        }
        sum = sum + series[i] as i128;
        i = i + 1;
    }
    assert(series@.take(series.len() as int) =~= series@);
    sum
}

/// The largest product of two levels above a mean.
pub const PRODUCT_MAX: u128 = 0xffff_fffe_0000_0001;

proof fn lemma_product(a: int, b: int)
    requires
        -0xffff_ffff <= a <= 0xffff_ffff,
        -0xffff_ffff <= b <= 0xffff_ffff,
    ensures
        -PRODUCT_MAX <= a * b <= PRODUCT_MAX,
{
    assert(-0xffff_ffff * 0xffff_ffff <= a * b <= 0xffff_ffff * 0xffff_ffff) by (nonlinear_arith)
        requires
            -0xffff_ffff <= a <= 0xffff_ffff,
            -0xffff_ffff <= b <= 0xffff_ffff,
    ;
}

/// A sum of products, as its size and whether it is negative. The terms of either sign are
/// summed apart, so that neither sum leaves its type.
fn correlate(series: &[i32], mean: i64, lag: usize) -> (r: (bool, u128))
    requires
        lag <= series.len(),
        -0x8000_0000 <= mean <= 0x7fff_ffff,
    ensures
        products(series@, mean as int, lag as int, series.len() - lag) == if r.0 {
            -(r.1 as int)
        } else {
            r.1 as int
        },
        r.0 ==> r.1 > 0,
{
    let m: usize = series.len() - lag;
    let mut above: u128 = 0;
    let mut below: u128 = 0;
    let mut i: usize = 0;
    while i < m
        invariant
            m == series.len() - lag,
            lag <= series.len(),
            -0x8000_0000 <= mean <= 0x7fff_ffff,
            i <= m,
            above - below == products(series@, mean as int, lag as int, i as int),
            above <= PRODUCT_MAX * i,
            below <= PRODUCT_MAX * i,
        decreases m - i,
    {
        let a: i64 = series[i] as i64 - mean;
        let b: i64 = series[i + lag] as i64 - mean;
        proof {
            lemma_product(a as int, b as int);
        }
        let term: i128 = a as i128 * b as i128;
        if term >= 0 {
            above = above + term as u128;
        } else {
            below = below + (-term) as u128;
        }
        i = i + 1;
    }
    if above >= below {
        (false, above - below)
    } else {
        (true, below - above)
    }
}

fn padded(n: usize) -> (r: u128)
    requires
        2 <= n,
    ensures
        r == reaching(2 * n, 1),
        1 <= r < 4 * n,
{
    let goal: u128 = 2 * n as u128;
    let mut p: u128 = 1;
    while p < goal
        invariant
            goal == 2 * n,
            2 <= n,
            1 <= p < 2 * goal,
            reaching(goal as int, p as int) == reaching(goal as int, 1),
        decreases (if goal > p {
            goal - p
        } else {
            0
        }),
    {
        p = 2 * p;
    }
    p
}

/// Whether a correlation with itself is that of a flat series.
fn is_slight(zero: u128, wide: u128) -> (r: bool)
    requires
        1 <= wide <= 0x4_0000_0000_0000_0000,
    ensures
        r == (zero * wide <= FLAT),
{
    if zero > FLAT {
        assert(zero <= zero * wide) by (nonlinear_arith)
            requires
                zero >= 0,
                wide >= 1,
        ;
        false
    } else {
        assert(zero * wide <= 119_209 * 0x4_0000_0000_0000_0000) by (nonlinear_arith)
            requires
                0 <= zero <= 119_209,
                0 <= wide <= 0x4_0000_0000_0000_0000,
        ;
        zero * wide <= FLAT
    }
}

/// Normalized autocorrelation, by lag in frames. A series that is flat or too short has
/// none.
pub fn autocorrelation(series: &[i32]) -> (r: Vec<i32>)
    ensures
        r@ == curve_of(series@),
{
    let n: usize = series.len();
    let mut curve: Vec<i32> = Vec::new();
    if n < 2 {
        assert(curve@ =~= curve_of(series@));
        return curve;
    }
    let sum: i128 = sum_up(series);
    proof {
        lemma_total_bounds(series@);
        assert(-0x8000_0000 <= sum as int / n as int <= 0x7fff_ffff) by (nonlinear_arith)
            requires
                n > 0,
                -0x8000_0000 * n <= sum <= 0x7fff_ffff * n,
        ;
    }
    let mean: i64 = floor_div(sum, n as i128) as i64;
    let whole: (bool, u128) = correlate(series, mean, 0);
    let zero: u128 = whole.1;
    proof {
        lemma_squares(series@, mean as int, n as int);
    }
    if is_slight(zero, padded(n)) {
        assert(curve@ =~= curve_of(series@));
        return curve;
    }
    proof {
        lemma_reaching(2 * n, 1);
        assert(zero > 0) by (nonlinear_arith)
            requires
                zero * reaching(2 * n, 1) > 0,
                zero >= 0,
        ;
    }
    let mut lag: usize = 0;
    while lag < n
        invariant
            n == series.len(),
            2 <= n,
            mean == self::mean(series@),
            -0x8000_0000 <= mean <= 0x7fff_ffff,
            zero == correlation(series@, 0),
            0 < zero,
            lag <= n,
            curve.len() == lag,
            forall|k: int| 0 <= k < lag ==> #[trigger] curve[k] == correlation_at(series@, k) as i32,
        decreases n - lag,
    {
        let (negative, size) = correlate(series, mean, lag);
        let part: u64 = capped_share(size, n as u64, zero, (n - lag) as u64);
        proof {
            lemma_quotient(negative, size as int, n as int, zero as int, n - lag);
        }
        curve.push(
            if negative {
                -(part as i32)
            } else {
                part as i32
            },
        );
        lag = lag + 1;
    }
    assert(curve@ =~= curve_of(series@));
    curve
}

/// A sum of squares is not negative.
proof fn lemma_squares(series: Seq<i32>, mean: int, m: int)
    ensures
        products(series, mean, 0, m) >= 0,
    decreases m,
{
    if m > 0 {
        lemma_squares(series, mean, m - 1);
        let d = series[m - 1] - mean;
        assert(d * d >= 0) by (nonlinear_arith);
    }
}

proof fn lemma_quotient(negative: bool, size: int, n: int, zero: int, m: int)
    requires
        size >= 0,
        negative ==> size > 0,
        n > 0,
        zero > 0,
        m > 0,
    ensures
        ({
            let a = if negative {
                -size
            } else {
                size
            };
            let share = if size * n >= zero * m {
                ONE as int
            } else {
                size * n * ONE / (zero * m)
            };
            quotient(a * n, zero * m) == if negative {
                -share
            } else {
                share
            }
        }),
{
    assert(-size * n == -(size * n)) by (nonlinear_arith);
    assert(size * n >= 0 && (size > 0 ==> size * n > 0)) by (nonlinear_arith)
        requires
            size >= 0,
            n > 0,
    ;
}

/// A series is as much like itself as it can be: the autocorrelation is one at lag zero, and
/// never exceeds it.
pub proof fn law_nothing_exceeds_lag_zero(series: Seq<i32>, lag: int)
    requires
        0 <= lag < curve_of(series).len(),
    ensures
        curve_of(series)[0] == ONE,
        -ONE <= curve_of(series)[lag] <= ONE,
{
    let n = series.len() as int;
    let zero = correlation(series, 0);
    lemma_reaching(2 * n, 1);
    assert(zero > 0) by (nonlinear_arith)
        requires
            zero * reaching(2 * n, 1) > 0,
            reaching(2 * n, 1) >= 1,
    ;
    assert(zero * n >= 0) by (nonlinear_arith)
        requires
            zero > 0,
            n >= 0,
    ;
    assert(0 < zero * (n - lag)) by (nonlinear_arith)
        requires
            zero > 0,
            n - lag > 0,
    ;
    let a = correlation(series, lag) * n;
    let b = zero * (n - lag);
    let size = if a < 0 {
        -a
    } else {
        a
    };
    if size < b {
        assert(0 <= size * 1_000_000 / b <= 1_000_000) by (nonlinear_arith)
            requires
                0 <= size < b,
        ;
    }
}

proof fn lemma_reaching(n: int, p: int)
    requires
        p >= 1,
    ensures
        reaching(n, p) >= 1,
    decreases (if n > p {
        n - p
    } else {
        0
    }),
{
    if p < n {
        lemma_reaching(n, 2 * p);
    }
}

proof fn lemma_offset_total(series: Seq<i32>, raised: Seq<i32>, c: int)
    requires
        raised.len() == series.len(),
        forall|i: int| 0 <= i < series.len() ==> #[trigger] raised[i] == series[i] + c,
    ensures
        total(raised) == total(series) + series.len() * c,
    decreases series.len(),
{
    if series.len() > 0 {
        let n = series.len() as int;
        lemma_offset_total(series.drop_last(), raised.drop_last(), c);
        assert(raised[n - 1] == series[n - 1] + c);
        assert((n - 1) * c + c == n * c) by (nonlinear_arith);
    } else {
        assert(series.len() * c == 0) by (nonlinear_arith)
            requires
                series.len() == 0,
        ;
    }
}

proof fn lemma_offset_products(
    series: Seq<i32>,
    raised: Seq<i32>,
    c: int,
    mean: int,
    lag: int,
    m: int,
)
    requires
        raised.len() == series.len(),
        forall|i: int| 0 <= i < series.len() ==> #[trigger] raised[i] == series[i] + c,
        0 <= lag,
        m + lag <= series.len(),
    ensures
        products(raised, mean + c, lag, m) == products(series, mean, lag, m),
    decreases m,
{
    if m > 0 {
        lemma_offset_products(series, raised, c, mean, lag, m - 1);
        assert(raised[m - 1] - (mean + c) == series[m - 1] - mean);
        assert(raised[m - 1 + lag] - (mean + c) == series[m - 1 + lag] - mean);
    }
}

/// A constant offset changes nothing: what repeats in a series repeats just as it does a few
/// decibels up or down.
pub proof fn law_an_offset_changes_nothing(series: Seq<i32>, raised: Seq<i32>, c: int)
    requires
        raised.len() == series.len(),
        forall|i: int| 0 <= i < series.len() ==> #[trigger] raised[i] == series[i] + c,
    ensures
        curve_of(raised) == curve_of(series),
{
    let n = series.len() as int;
    if n >= 2 {
        lemma_offset_total(series, raised, c);
        vstd::arithmetic::div_mod::lemma_hoist_over_denominator(total(series), c, n as nat);
        assert(c * n == n * c) by (nonlinear_arith);
        assert(mean(raised) == mean(series) + c);
        assert forall|lag: int| 0 <= lag < n implies #[trigger] correlation(raised, lag)
            == correlation(series, lag) by {
            lemma_offset_products(series, raised, c, mean(series), lag, n - lag);
        }
        assert(correlation(raised, 0) == correlation(series, 0));
        assert forall|lag: int| 0 <= lag < n implies #[trigger] correlation_at(raised, lag)
            == correlation_at(series, lag) by {
            assert(correlation(raised, lag) == correlation(series, lag));
        }
    }
    assert(curve_of(raised) =~= curve_of(series));
}

/// A lag is searched: it lies within half a frame of the window of periods, and the series
/// holds it twice.
pub open spec fn in_window(lag: int, fps: int, min_period: int, max_period: int, n: int) -> bool {
    &&& 1 <= lag
    &&& 2 * lag <= n
    &&& min_period * fps < lag * 1_000_000_000_000 + 500_000_000_000
    &&& lag * 1_000_000_000_000 <= max_period * fps + 500_000_000_000
}

proof fn lemma_window(lag: int, fps: int, min_period: int, max_period: int, n: int)
    ensures
        in_window(lag, fps, min_period, max_period, n) <==> first_lag(min_period, fps) <= lag
            <= last_lag(max_period, fps, n),
{
}

proof fn lemma_highest(curve: Seq<i32>, first: int, last: int, lag: int)
    requires
        first <= lag <= last,
    ensures
        first <= highest(curve, first, last) <= last,
        curve[lag] <= curve[highest(curve, first, last)],
        lag > highest(curve, first, last) ==> curve[lag] < curve[highest(curve, first, last)],
    decreases last - first,
{
    if first < last {
        lemma_highest(curve, first, last - 1, if lag < last {
            lag
        } else {
            first
        });
    }
}

proof fn lemma_fundamental(
    curve: Seq<i32>,
    from: int,
    first: int,
    last: int,
    top: int,
    or: int,
    lag: int,
)
    requires
        first <= from <= or <= last,
        is_fundamental(curve, or, first, last, top),
    ensures
        ({
            let f = fundamental(curve, from, first, last, top, or);
            &&& from <= f <= or
            &&& is_fundamental(curve, f, first, last, top)
            &&& from <= lag < f ==> !is_fundamental(curve, lag, first, last, top)
        }),
    decreases or - from,
{
    if !is_fundamental(curve, from, first, last, top) {
        lemma_fundamental(curve, from + 1, first, last, top, or, lag);
    }
}

/// The lag has, of the lags searched, none beside it that is higher.
pub open spec fn is_crest(
    curve: Seq<i32>,
    lag: int,
    fps: int,
    min_period: int,
    max_period: int,
) -> bool {
    let n = curve.len() as int;
    &&& in_window(lag - 1, fps, min_period, max_period, n) ==> curve[lag - 1] <= curve[lag]
    &&& in_window(lag + 1, fps, min_period, max_period, n) ==> curve[lag + 1] <= curve[lag]
}

/// The lag selected is the fundamental and not a multiple of it: of the lags searched it is
/// the first crest that reaches nine tenths of every other. Where none is above nothing it is
/// the last of the highest.
pub proof fn law_the_fundamental_is_selected(
    curve: Seq<i32>,
    fps: int,
    min_period: int,
    max_period: int,
    p: PeriodicityResult,
    lag: int,
)
    requires
        is_period(curve, fps, min_period, max_period, Some(p)),
        in_window(lag, fps, min_period, max_period, curve.len() as int),
    ensures
        ({
            let n = curve.len() as int;
            let peak = p.peak_lag_frames as int;
            &&& in_window(peak, fps, min_period, max_period, n)
            &&& is_crest(curve, peak, fps, min_period, max_period)
            &&& curve[peak] > 0 ==> 10 * curve[peak] >= 9 * curve[lag]
            &&& curve[peak] > 0 && lag < peak && is_crest(curve, lag, fps, min_period, max_period)
                ==> exists|other: int| #[trigger]
                in_window(other, fps, min_period, max_period, n) && 10 * curve[lag] < 9
                    * curve[other]
            &&& curve[peak] <= 0 ==> curve[lag] <= curve[peak]
            &&& curve[peak] <= 0 && lag > peak ==> curve[lag] < curve[peak]
        }),
{
    let n = curve.len() as int;
    let first = first_lag(min_period, fps);
    let last = last_lag(max_period, fps, n);
    let best = highest(curve, first, last);
    let peak = selected(curve, first, last);
    lemma_window(lag, fps, min_period, max_period, n);
    lemma_window(lag - 1, fps, min_period, max_period, n);
    lemma_window(lag + 1, fps, min_period, max_period, n);
    lemma_highest(curve, first, last, lag);
    if best > first {
        lemma_highest(curve, first, last, best - 1);
    }
    if best < last {
        lemma_highest(curve, first, last, best + 1);
    }
    if curve[best] > 0 {
        assert(is_fundamental(curve, best, first, last, curve[best] as int));
        lemma_fundamental(curve, first, first, last, curve[best] as int, best, lag);
    }
    lemma_window(best, fps, min_period, max_period, n);
    lemma_window(peak, fps, min_period, max_period, n);
    lemma_window(peak - 1, fps, min_period, max_period, n);
    lemma_window(peak + 1, fps, min_period, max_period, n);
}

/// The period is the time that the selected lag takes: at every frame rate the frames that
/// pass in a period are the lag, to within half a frame and the last millionth of a second.
pub proof fn law_the_period_is_the_lag_over_the_rate(
    curve: Seq<i32>,
    fps: int,
    min_period: int,
    max_period: int,
    p: PeriodicityResult,
)
    requires
        is_period(curve, fps, min_period, max_period, Some(p)),
    ensures
        p.peak_lag_frames * 1_000_000_000_000 - 500_000_000_000 - fps < p.period_seconds * fps,
        p.period_seconds * fps <= p.peak_lag_frames * 1_000_000_000_000 + 500_000_000_000,
{
    law_the_peak_is_the_top_of_a_parabola(curve, fps, min_period, max_period, p);
}

/// `off` millionths of a frame from the middle of three values a frame apart is where the
/// parabola through them has its top, or its bottom, to the last millionth; no further than
/// half a frame, and nothing where the three lie on a line.
pub open spec fn is_top(a: int, b: int, c: int, off: int) -> bool {
    let bend = 2 * b - a - c;
    &&& -500_000 <= off <= 500_000
    &&& bend == 0 ==> off == 0
    &&& bend > 0 ==> (2 * bend * off <= (c - a) * 1_000_000 || off == -500_000) && ((c - a)
        * 1_000_000 < 2 * bend * (off + 1) || off == 500_000)
    &&& bend < 0 ==> (2 * -bend * off <= (a - c) * 1_000_000 || off == -500_000) && ((a - c)
        * 1_000_000 < 2 * -bend * (off + 1) || off == 500_000)
}

/// The period is where a parabola through the peak and its two neighbours tops, over the
/// frame rate.
pub proof fn law_the_peak_is_the_top_of_a_parabola(
    curve: Seq<i32>,
    fps: int,
    min_period: int,
    max_period: int,
    p: PeriodicityResult,
)
    requires
        is_period(curve, fps, min_period, max_period, Some(p)),
    ensures
        0 < p.peak_lag_frames,
        p.peak_lag_frames + 1 < curve.len(),
        exists|off: int|
            {
                &&& #[trigger] is_top(
                    curve[p.peak_lag_frames - 1] as int,
                    curve[p.peak_lag_frames as int] as int,
                    curve[p.peak_lag_frames + 1] as int,
                    off,
                )
                &&& p.period_seconds * fps <= p.peak_lag_frames * 1_000_000_000_000 + off
                    * 1_000_000
                &&& p.peak_lag_frames * 1_000_000_000_000 + off * 1_000_000 < p.period_seconds * fps
                    + fps
            },
{
    let n = curve.len() as int;
    let first = first_lag(min_period, fps);
    let last = last_lag(max_period, fps, n);
    let peak = p.peak_lag_frames as int;
    lemma_window(first, fps, min_period, max_period, n);
    law_the_fundamental_is_selected(curve, fps, min_period, max_period, p, first);
    let a = curve[peak - 1] as int;
    let b = curve[peak] as int;
    let c = curve[peak + 1] as int;
    let denom = a - 2 * b + c;
    let off = offset(curve, peak);
    if denom > 0 {
        vstd::arithmetic::div_mod::lemma_fundamental_div_mod((a - c) * ONE, 2 * denom);
        let t = (a - c) * ONE / (2 * denom);
        assert(2 * denom * t <= (a - c) * 1_000_000 < 2 * denom * (t + 1)) by (nonlinear_arith)
            requires
                (a - c) * 1_000_000 == (2 * denom) * t + (a - c) * 1_000_000 % (2 * denom),
                0 <= (a - c) * 1_000_000 % (2 * denom) < 2 * denom,
        ;
        lemma_kept_within(t, denom, (a - c) * 1_000_000);
    } else if denom < 0 {
        vstd::arithmetic::div_mod::lemma_fundamental_div_mod((c - a) * ONE, 2 * (-denom));
        let w = -denom;
        let t = (c - a) * ONE / (2 * w);
        assert(2 * w * t <= (c - a) * 1_000_000 < 2 * w * (t + 1)) by (nonlinear_arith)
            requires
                (c - a) * 1_000_000 == (2 * w) * t + (c - a) * 1_000_000 % (2 * w),
                0 <= (c - a) * 1_000_000 % (2 * w) < 2 * w,
        ;
        lemma_kept_within(t, w, (c - a) * 1_000_000);
    }
    assert(is_top(a, b, c, off));
    let x = (peak * ONE + off) * ONE;
    vstd::arithmetic::div_mod::lemma_fundamental_div_mod(x, fps);
    assert(fps * (x / fps) == (x / fps) * fps) by (nonlinear_arith);
}

/// Keeping a quotient within half a million either way keeps it below or above where it was.
proof fn lemma_kept_within(t: int, w: int, v: int)
    requires
        w > 0,
        2 * w * t <= v < 2 * w * (t + 1),
    ensures
        t < -500_000 ==> v < 2 * w * (-500_000 + 1),
        t > 500_000 ==> 2 * w * 500_000 <= v,
{
    if t < -500_000 {
        assert(2 * w * (t + 1) <= 2 * w * (-500_000 + 1)) by (nonlinear_arith)
            requires
                w > 0,
                t + 1 <= -500_000 + 1,
        ;
    }
    if t > 500_000 {
        assert(2 * w * 500_000 <= 2 * w * t) by (nonlinear_arith)
            requires
                w > 0,
                t >= 500_000,
        ;
    }
}

/// The same curve at `k` times the frame rate, searched for periods of a `k`-th of the
/// length, has the same lag, as surely, and a `k`-th of the period.
pub proof fn law_a_faster_rate_is_a_shorter_period(
    curve: Seq<i32>,
    fps: int,
    min_period: int,
    max_period: int,
    k: int,
    slow: Option<PeriodicityResult>,
    fast: Option<PeriodicityResult>,
)
    requires
        k > 0,
        is_period(curve, fps, k * min_period, k * max_period, slow),
        is_period(curve, k * fps, min_period, max_period, fast),
        fps >= 0,
        min_period >= 0,
    ensures
        slow is Some <==> fast is Some,
        slow matches Some(p) ==> fast matches Some(q) ==> {
            &&& p.peak_lag_frames == q.peak_lag_frames
            &&& p.confidence == q.confidence
            &&& p.prominence == q.prominence
            &&& k * q.period_seconds <= p.period_seconds < k * q.period_seconds + k
        },
{
    assert((k * min_period) * fps == min_period * (k * fps) && (k * max_period) * fps == max_period
        * (k * fps)) by (nonlinear_arith);
    assert(k * fps == 0 <==> fps == 0) by (nonlinear_arith)
        requires
            k > 0,
    ;
    assert(k * min_period == 0 <==> min_period == 0) by (nonlinear_arith)
        requires
            k > 0,
    ;
    assert(k * min_period > 0 <==> min_period > 0) by (nonlinear_arith)
        requires
            k > 0,
    ;
    assert(k * fps > 0 <==> fps > 0) by (nonlinear_arith)
        requires
            k > 0,
    ;
    assert(k * max_period <= k * min_period <==> max_period <= min_period) by (nonlinear_arith)
        requires
            k > 0,
    ;
    let n = curve.len() as int;
    assert(first_lag(k * min_period, fps) == first_lag(min_period, k * fps));
    assert(last_lag(k * max_period, fps, n) == last_lag(max_period, k * fps, n));
    if slow is Some && fast is Some {
        let peak = slow->Some_0.peak_lag_frames as int;
        let x = (peak * ONE + offset(curve, peak)) * ONE;
        vstd::arithmetic::div_mod::lemma_div_denominator(x, fps, k);
        assert(fps * k == k * fps) by (nonlinear_arith);
        vstd::arithmetic::div_mod::lemma_fundamental_div_mod(x / fps, k);
    }
}

/// The confidence is the correlation at the lag selected, kept between nothing and one, and
/// the prominence is how far that stands above the middle of the lags searched: no more than
/// half of them lie on either side of what is left when it is taken off.
pub proof fn law_a_peak_is_measured_against_the_middle(
    curve: Seq<i32>,
    fps: int,
    min_period: int,
    max_period: int,
    p: PeriodicityResult,
    first: int,
    last: int,
)
    requires
        is_period(curve, fps, min_period, max_period, Some(p)),
        in_window(first, fps, min_period, max_period, curve.len() as int),
        !in_window(first - 1, fps, min_period, max_period, curve.len() as int),
        in_window(last, fps, min_period, max_period, curve.len() as int),
        !in_window(last + 1, fps, min_period, max_period, curve.len() as int),
    ensures
        ({
            let here = curve[p.peak_lag_frames as int] as int;
            let all = Seq::new((last - first + 1) as nat, |i: int| curve[first + i] as int);
            let middle = here - p.prominence;
            &&& 0 <= here <= ONE ==> p.confidence == here
            &&& here < 0 ==> p.confidence == 0
            &&& here > ONE ==> p.confidence == ONE
            &&& all.contains(middle)
            &&& 2 * all.filter(|x: int| x < middle).len() <= all.len()
            &&& 2 * all.filter(|x: int| x <= middle).len() > all.len()
        }),
{
    let n = curve.len() as int;
    lemma_window(first, fps, min_period, max_period, n);
    lemma_window(first - 1, fps, min_period, max_period, n);
    lemma_window(last, fps, min_period, max_period, n);
    lemma_window(last + 1, fps, min_period, max_period, n);
    let here = curve[p.peak_lag_frames as int] as int;
    let all = Seq::new((last - first + 1) as nat, |i: int| curve[first + i] as int);
    let middle = here - p.prominence;
    assert(all =~= searched(curve, first, last));
    rank::law_half_lie_either_side_of_the_median(all);
    assert((|x: int| x < rank::median(all)) =~= (|x: int| x < middle));
    assert((|x: int| x <= rank::median(all)) =~= (|x: int| x <= middle));
}

/// A period is reported exactly where it was asked for sensibly and two neighbouring lags can
/// be searched.
pub proof fn law_a_period_needs_lags_to_search(
    curve: Seq<i32>,
    fps: int,
    min_period: int,
    max_period: int,
    r: Option<PeriodicityResult>,
)
    requires
        is_period(curve, fps, min_period, max_period, r),
        fps >= 0,
        min_period >= 0,
    ensures
        r is Some <==> fps > 0 && 0 < min_period < max_period && exists|lag: int|
            #[trigger] in_window(lag, fps, min_period, max_period, curve.len() as int) && in_window(
                lag + 1,
                fps,
                min_period,
                max_period,
                curve.len() as int,
            ),
{
    let n = curve.len() as int;
    let first = first_lag(min_period, fps);
    lemma_window(first, fps, min_period, max_period, n);
    lemma_window(first + 1, fps, min_period, max_period, n);
    assert forall|lag: int| #[trigger]
        in_window(lag, fps, min_period, max_period, n) && in_window(
            lag + 1,
            fps,
            min_period,
            max_period,
            n,
        ) implies first < last_lag(max_period, fps, n) by {
        lemma_window(lag, fps, min_period, max_period, n);
        lemma_window(lag + 1, fps, min_period, max_period, n);
    }
    if r is Some {
        assert(in_window(first, fps, min_period, max_period, n));
        assert(in_window(first + 1, fps, min_period, max_period, n));
    }
}

/// Every value is found again `k` frames on.
pub open spec fn repeats(series: Seq<i32>, k: int) -> bool {
    forall|i: int| 0 <= i && i + k < series.len() ==> series[i + k] == #[trigger] series[i]
}

proof fn lemma_repeats(series: Seq<i32>, k: int, j: int, i: int)
    requires
        repeats(series, k),
        k > 0,
        0 <= j,
        0 <= i,
        i + j * k < series.len(),
    ensures
        j * k >= 0,
        series[i + j * k] == series[i],
    decreases j,
{
    assert(j * k >= 0) by (nonlinear_arith)
        requires
            j >= 0,
            k > 0,
    ;
    if j > 0 {
        assert((j - 1) * k + k == j * k) by (nonlinear_arith);
        lemma_repeats(series, k, j - 1, i);
        assert(series[i + (j - 1) * k + k] == series[i + (j - 1) * k]);
    } else {
        assert(0 * k == 0);
    }
}

/// A repeating series by itself some repeats on is the series by itself.
proof fn lemma_shifted_products(series: Seq<i32>, mean: int, k: int, j: int, m: int)
    requires
        repeats(series, k),
        k > 0,
        0 <= j,
        0 <= m,
        m + j * k <= series.len(),
    ensures
        products(series, mean, j * k, m) == products(series, mean, 0, m),
    decreases m,
{
    if m > 0 {
        lemma_shifted_products(series, mean, k, j, m - 1);
        lemma_repeats(series, k, j, m - 1);
    }
}

proof fn lemma_next_round(series: Seq<i32>, mean: int, k: int, start: int, m: int)
    requires
        repeats(series, k),
        k > 0,
        0 <= m <= k,
        exists|t: int| t >= 0 && start == #[trigger] (t * k),
        start + m <= series.len(),
    ensures
        products(series, mean, 0, start + m) == products(series, mean, 0, start) + products(
            series,
            mean,
            0,
            m,
        ),
    decreases m,
{
    if m > 0 {
        lemma_next_round(series, mean, k, start, m - 1);
        let t = choose|t: int| t >= 0 && start == #[trigger] (t * k);
        lemma_repeats(series, k, t, m - 1);
        assert(start >= 0);
    }
}

/// The products of `t` repeats are `t` times those of one.
proof fn lemma_rounds(series: Seq<i32>, mean: int, k: int, t: int)
    requires
        repeats(series, k),
        k > 0,
        0 <= t,
        t * k <= series.len(),
    ensures
        products(series, mean, 0, t * k) == t * products(series, mean, 0, k),
    decreases t,
{
    if t > 0 {
        assert((t - 1) * k + k == t * k) by (nonlinear_arith);
        lemma_rounds(series, mean, k, t - 1);
        lemma_next_round(series, mean, k, (t - 1) * k, k);
        let one = products(series, mean, 0, k);
        assert((t - 1) * one + one == t * one) by (nonlinear_arith);
    } else {
        assert(0 * k == 0);
        assert(0 * products(series, mean, 0, k) == 0);
    }
}

/// A series made of whole repeats is wholly like itself a repeat on, and any number of them:
/// the autocorrelation is one there.
pub proof fn law_a_repeat_correlates_fully(series: Seq<i32>, k: int, rounds: int, j: int)
    requires
        k > 0,
        series.len() == rounds * k,
        repeats(series, k),
        0 <= j < rounds,
        curve_of(series).len() > 0,
    ensures
        0 <= j * k < series.len(),
        curve_of(series).len() == series.len(),
        curve_of(series)[j * k] == ONE,
{
    let n = series.len() as int;
    let m = mean(series);
    let lag = j * k;
    let left = rounds - j;
    assert(lag + left * k == n && 0 <= lag < n && left * k > 0) by (nonlinear_arith)
        requires
            lag == j * k,
            left == rounds - j,
            n == rounds * k,
            0 <= j < rounds,
            k > 0,
    ;
    let one = products(series, m, 0, k);
    lemma_shifted_products(series, m, k, j, left * k);
    lemma_rounds(series, m, k, left);
    lemma_rounds(series, m, k, rounds);
    assert(correlation(series, lag) == left * one);
    assert(correlation(series, 0) == rounds * one);
    law_nothing_exceeds_lag_zero(series, 0);
    lemma_reaching(2 * n, 1);
    assert((left * one) * n == (rounds * one) * (n - lag)) by (nonlinear_arith)
        requires
            n == rounds * k,
            n - lag == left * k,
    ;
    assert(correlation(series, 0) >= 0) by {
        lemma_squares(series, m, n);
    }
    assert((left * one) * n >= 0) by (nonlinear_arith)
        requires
            rounds * one >= 0,
            rounds > 0,
            left > 0,
            n >= 0,
    ;
}

/// A series made of whole repeats of `k` frames, of which the search can see one, is found to
/// repeat within them; and where no shorter time is nearly as much of a repeat it is found to
/// repeat every `k` frames, for certain, so that the frames that pass in its period are `k`.
pub proof fn law_a_repeating_series_has_its_period(
    series: Seq<i32>,
    k: int,
    rounds: int,
    fps: int,
    min_period: int,
    max_period: int,
    p: PeriodicityResult,
)
    requires
        k > 0,
        series.len() == rounds * k,
        repeats(series, k),
        is_period(curve_of(series), fps, min_period, max_period, Some(p)),
        in_window(k, fps, min_period, max_period, series.len() as int),
    ensures
        p.peak_lag_frames <= k,
        p.confidence >= 900_000,
        (forall|lag: int|
            0 < lag < k ==> 10 * #[trigger] curve_of(series)[lag] < 9 * ONE) ==> {
            &&& p.peak_lag_frames == k
            &&& p.confidence == ONE
            &&& k * 1_000_000_000_000 - 500_000_000_000 - fps < p.period_seconds * fps
            &&& p.period_seconds * fps <= k * 1_000_000_000_000 + 500_000_000_000
        },
{
    let curve = curve_of(series);
    let n = series.len() as int;
    let peak = p.peak_lag_frames as int;
    assert(rounds >= 2) by (nonlinear_arith)
        requires
            2 * k <= n,
            n == rounds * k,
            k > 0,
    ;
    law_a_repeat_correlates_fully(series, k, rounds, 1);
    assert(1 * k == k);
    law_the_fundamental_is_selected(curve, fps, min_period, max_period, p, k);
    assert(curve[peak] > 0);
    law_nothing_exceeds_lag_zero(series, peak);
    assert(is_crest(curve, k, fps, min_period, max_period)) by {
        if in_window(k - 1, fps, min_period, max_period, n) {
            law_nothing_exceeds_lag_zero(series, k - 1);
        }
        if in_window(k + 1, fps, min_period, max_period, n) {
            law_nothing_exceeds_lag_zero(series, k + 1);
        }
    }
    if k < peak {
        let other = choose|other: int| #[trigger]
            in_window(other, fps, min_period, max_period, n) && 10 * curve[k] < 9 * curve[other];
        law_nothing_exceeds_lag_zero(series, other);
    }
    law_the_period_is_the_lag_over_the_rate(curve, fps, min_period, max_period, p);
}

proof fn lemma_total_folds(series: Seq<i32>, f: spec_fn(int, i32) -> int)
    requires
        forall|a: int, b: i32| #[trigger] f(a, b) == a + b,
    ensures
        total(series) == series.fold_left(0int, f),
    decreases series.len(),
{
    if series.len() > 0 {
        lemma_total_folds(series.drop_last(), f);
    }
}

proof fn lemma_products_fold(
    series: Seq<i32>,
    mean: int,
    lag: int,
    terms: Seq<int>,
    f: spec_fn(int, int) -> int,
)
    requires
        forall|a: int, b: int| #[trigger] f(a, b) == a + b,
        forall|i: int|
            0 <= i < terms.len() ==> #[trigger] terms[i] == (series[i] - mean) * (series[i + lag]
                - mean),
    ensures
        products(series, mean, lag, terms.len() as int) == terms.fold_left(0int, f),
    decreases terms.len(),
{
    if terms.len() > 0 {
        let rest = terms.drop_last();
        assert forall|i: int| 0 <= i < rest.len() implies #[trigger] rest[i] == (series[i] - mean)
            * (series[i + lag] - mean) by {
            assert(terms[i] == rest[i]);
        }
        lemma_products_fold(series, mean, lag, rest, f);
        assert(terms[terms.len() - 1] == terms.last());
    }
}

/// The autocorrelation at a lag is the covariance of the series with itself that many frames
/// on, for each frame that overlaps, over the same at lag zero: taken about the mean, rounded
/// toward nothing, and between minus one and one.
pub proof fn law_the_curve_is_a_ratio_of_covariances(series: Seq<i32>, mean: int, lag: int)
    requires
        0 <= lag < curve_of(series).len(),
        mean * series.len() <= series.fold_left(0int, |a: int, b: i32| a + b) < (mean + 1)
            * series.len(),
    ensures
        ({
            let n = series.len() as int;
            let terms = Seq::new(
                (n - lag) as nat,
                |i: int| (series[i] - mean) * (series[i + lag] - mean),
            );
            let squares = Seq::new(n as nat, |i: int| (series[i] - mean) * (series[i] - mean));
            let here = terms.fold_left(0int, |a: int, b: int| a + b) * n;
            let whole = squares.fold_left(0int, |a: int, b: int| a + b) * (n - lag);
            let v = curve_of(series)[lag] as int;
            &&& whole > 0
            &&& here >= whole ==> v == ONE
            &&& here <= -whole ==> v == -ONE
            &&& 0 <= here < whole ==> v * whole <= here * ONE < (v + 1) * whole
            &&& -whole < here <= 0 ==> (v - 1) * whole < here * ONE <= v * whole
        }),
{
    let n = series.len() as int;
    lemma_total_folds(series, |a: int, b: i32| a + b);
    let sum = total(series);
    assert((mean + 1) * n == mean * n + n) by (nonlinear_arith);
    vstd::arithmetic::div_mod::lemma_fundamental_div_mod_converse(sum, n, mean, sum - mean * n);
    let terms = Seq::new(
        (n - lag) as nat,
        |i: int| (series[i] - mean) * (series[i + lag] - mean),
    );
    let squares = Seq::new(n as nat, |i: int| (series[i] - mean) * (series[i] - mean));
    lemma_products_fold(series, mean, lag, terms, |a: int, b: int| a + b);
    lemma_products_fold(series, mean, 0, squares, |a: int, b: int| a + b);
    let zero = correlation(series, 0);
    lemma_reaching(2 * n, 1);
    lemma_squares(series, mean, n);
    assert(zero > 0) by (nonlinear_arith)
        requires
            zero * reaching(2 * n, 1) > 0,
            reaching(2 * n, 1) >= 1,
    ;
    let a = correlation(series, lag) * n;
    let b = zero * (n - lag);
    assert(b > 0) by (nonlinear_arith)
        requires
            zero > 0,
            n - lag > 0,
            b == zero * (n - lag),
    ;
    let size = if a < 0 {
        -a
    } else {
        a
    };
    if size < b {
        vstd::arithmetic::div_mod::lemma_fundamental_div_mod(size * ONE, b);
        let q = size * ONE / b;
        assert(0 <= q <= 1_000_000) by (nonlinear_arith)
            requires
                0 <= size < b,
                q == size * 1_000_000 / b,
        ;
        assert(b * q == q * b && (q + 1) * b == q * b + b && -q * b == -(q * b) && (-q - 1) * b
            == -(q * b) - b) by (nonlinear_arith);
    }
}

proof fn lemma_square_in_sum(series: Seq<i32>, mean: int, i: int, j: int, m: int)
    requires
        0 <= i < j,
    ensures
        i < m ==> products(series, mean, 0, m) >= (series[i] - mean) * (series[i] - mean),
        j < m ==> products(series, mean, 0, m) >= (series[i] - mean) * (series[i] - mean) + (
        series[j] - mean) * (series[j] - mean),
    decreases m,
{
    if m > 0 {
        lemma_square_in_sum(series, mean, i, j, m - 1);
        lemma_squares(series, mean, m - 1);
        let d = series[m - 1] - mean;
        assert(d * d >= 0) by (nonlinear_arith);
    }
}

/// What varies has an autocorrelation, one value for each lag: it is enough that two values
/// differ by a four-thousandth of a decibel. What does not vary at all has none.
pub proof fn law_what_varies_is_correlated(series: Seq<i32>, i: int, j: int)
    requires
        0 <= i < j < series.len(),
    ensures
        series[j] - series[i] >= 250 || series[i] - series[j] >= 250 ==> curve_of(series).len()
            == series.len(),
        (forall|k: int| 0 <= k < series.len() ==> #[trigger] series[k] == series[0]) ==> curve_of(
            series,
        ).len() == 0,
{
    let n = series.len() as int;
    let m = mean(series);
    let zero = correlation(series, 0);
    lemma_reaching(2 * n, 1);
    let wide = reaching(2 * n, 1);
    if series[j] - series[i] >= 250 || series[i] - series[j] >= 250 {
        lemma_square_in_sum(series, m, i, j, n);
        lemma_reaching_reaches(2 * n, 1);
        let x = series[i] - m;
        let y = series[j] - m;
        assert(2 * (x * x + y * y) >= 62_500) by (nonlinear_arith)
            requires
                y - x >= 250 || x - y >= 250,
        ;
        assert(zero * wide >= 31_250 * 4) by (nonlinear_arith)
            requires
                zero >= 31_250,
                wide >= 4,
        ;
    }
    if forall|k: int| 0 <= k < series.len() ==> #[trigger] series[k] == series[0] {
        lemma_constant_total(series, series[0] as int);
        assert(n * series[0] == series[0] * n) by (nonlinear_arith);
        vstd::arithmetic::div_mod::lemma_fundamental_div_mod_converse(
            total(series),
            n,
            series[0] as int,
            0,
        );
        assert(m == series[0]);
        lemma_constant_products(series, n);
        assert(0 * wide == 0);
    }
}

proof fn lemma_reaching_reaches(n: int, p: int)
    requires
        p >= 1,
    ensures
        reaching(n, p) >= n,
    decreases (if n > p {
        n - p
    } else {
        0
    }),
{
    if p < n {
        lemma_reaching_reaches(n, 2 * p);
    }
}

proof fn lemma_constant_total(series: Seq<i32>, v: int)
    requires
        forall|k: int| 0 <= k < series.len() ==> #[trigger] series[k] == v,
    ensures
        total(series) == series.len() * v,
    decreases series.len(),
{
    let n = series.len() as int;
    if n > 0 {
        let rest = series.drop_last();
        assert forall|k: int| 0 <= k < rest.len() implies #[trigger] rest[k] == v by {
            assert(series[k] == v);
        }
        lemma_constant_total(rest, v);
        assert(series[n - 1] == v);
        assert((n - 1) * v + v == n * v) by (nonlinear_arith);
    } else {
        assert(series.len() * v == 0) by (nonlinear_arith)
            requires
                series.len() == 0,
        ;
    }
}

proof fn lemma_constant_products(series: Seq<i32>, m: int)
    requires
        0 <= m <= series.len(),
        forall|k: int| 0 <= k < series.len() ==> #[trigger] series[k] == series[0],
    ensures
        products(series, series[0] as int, 0, m) == 0,
    decreases m,
{
    if m > 0 {
        lemma_constant_products(series, m - 1);
        assert(series[m - 1] == series[0]);
        assert(0int * 0int == 0);
    }
}

/// Search for a dominant repeat period within a window of lags.
///
/// `fps` is the frame rate of the series. `None` when the series is too short to contain the
/// requested lags, or holds no usable variation.
pub fn estimate_period(series: &[i32], fps: u64, min_period_seconds: u64, max_period_seconds: u64) -> (r:
    Option<PeriodicityResult>)
    ensures
        is_period(
            curve_of(series@),
            fps as int,
            min_period_seconds as int,
            max_period_seconds as int,
            r,
        ),
        r matches Some(p) ==> p.peak_lag_frames * 1_000_000_000_000 - 500_000_000_000 - fps
            < p.period_seconds * fps <= p.peak_lag_frames * 1_000_000_000_000 + 500_000_000_000,
{
    if fps == 0 || min_period_seconds == 0 || max_period_seconds <= min_period_seconds {
        return None;
    }
    let curve: Vec<i32> = autocorrelation(series);
    period_of_curve(curve.as_slice(), fps, min_period_seconds, max_period_seconds)
}

/// The Landscape Signal's documented repeat period.
pub const LANDSCAPE_PERIOD_SECONDS: i128 = 109_500_000;

/// Minimum autocorrelation confidence for a period to be believed. Ship ambience produces
/// periods at confidences around a half, the genuine signal at nearly one.
pub const LANDSCAPE_MIN_CONFIDENCE: u64 = 800_000;

/// Minimum prominence: how far the peak stands above the rest of the curve. Ambient loops
/// sit far lower even when they do repeat, because their curve is a broad hill rather than a
/// spike.
pub const LANDSCAPE_MIN_PROMINENCE: i64 = 500_000;

/// A result is consistent with the Landscape Signal.
pub open spec fn is_landscape(result: PeriodicityResult, tolerance: int) -> bool {
    &&& LANDSCAPE_PERIOD_SECONDS - tolerance <= result.period_seconds <= LANDSCAPE_PERIOD_SECONDS
        + tolerance
    &&& result.confidence >= LANDSCAPE_MIN_CONFIDENCE
    &&& result.prominence >= LANDSCAPE_MIN_PROMINENCE
}

/// Whether a result is consistent with the Landscape Signal.
pub fn matches_landscape(result: &PeriodicityResult, tolerance_seconds: u64) -> (r: bool)
    ensures
        r == {
            &&& LANDSCAPE_PERIOD_SECONDS - tolerance_seconds <= result.period_seconds
                <= LANDSCAPE_PERIOD_SECONDS + tolerance_seconds
            &&& result.confidence >= LANDSCAPE_MIN_CONFIDENCE
            &&& result.prominence >= LANDSCAPE_MIN_PROMINENCE
        },
        r == is_landscape(*result, tolerance_seconds as int),
{
    let slack: i128 = tolerance_seconds as i128;
    LANDSCAPE_PERIOD_SECONDS - slack <= result.period_seconds && result.period_seconds
        <= LANDSCAPE_PERIOD_SECONDS + slack && result.confidence >= LANDSCAPE_MIN_CONFIDENCE
        && result.prominence >= LANDSCAPE_MIN_PROMINENCE
}

/// The Landscape Signal is what repeats every 109.5 seconds, to within the tolerance, with a
/// confidence of 0.8 and a prominence of 0.5: all three are needed, a clearer repeat is never less
/// of a match, and neither is one under a wider tolerance.
pub proof fn law_the_landscape_repeats_clearly(
    p: PeriodicityResult,
    q: PeriodicityResult,
    tolerance: int,
    wider: int,
)
    requires
        0 <= tolerance <= wider,
        p.period_seconds == q.period_seconds,
        p.confidence <= q.confidence,
        p.prominence <= q.prominence,
    ensures
        is_landscape(p, tolerance) <==> {
            &&& -tolerance <= p.period_seconds - 109_500_000 <= tolerance
            &&& p.confidence >= 800_000
            &&& p.prominence >= 500_000
        },
        is_landscape(p, tolerance) ==> is_landscape(q, wider),
{
}

} // verus!
