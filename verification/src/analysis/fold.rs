//! Epoch folding: averaging a spectrogram against its own period.
//!
//! Fold a recording at some period, that is cut it into strips of that length and average
//! them on top of one another, and anything that repeats at the period adds coherently while
//! everything else adds in quadrature. Folding at a wrong period smears any real repetition
//! across phase, so folding at many candidates and keeping the sharpest is itself a search
//! for the period.
//!
//! Frame rates and periods are in millionths.
use crate::analysis::spectrogram::{DbRange, SpectrogramHistory};
use crate::arith::{at_most, capped_share, floor_div, ONE};
use crate::order::{sorted, values};
use crate::rank;
use vstd::prelude::*;

verus! {

/// Millionths of millionths.
pub const SCALE: u128 = 1_000_000_000_000;

/// Frames in one cycle, times [`SCALE`].
pub open spec fn cycle(fps: int, period: int) -> int {
    fps * period
}

/// There is enough history for two complete cycles: one cycle cannot evidence its own
/// repetition.
pub open spec fn can_fold(frames: int, fps: int, period: int, phases: int) -> bool {
    &&& frames > 0
    &&& fps > 0
    &&& period > 0
    &&& phases >= 4
    &&& frames * SCALE >= 2 * cycle(fps, period)
}

/// How many columns a cycle is drawn in: never more than it has frames to fill them, or the
/// fold comes out as a comb of stripes that is purely an artefact of the sampling.
pub open spec fn phase_count(phases: int, fps: int, period: int) -> int {
    let whole = cycle(fps, period) / (SCALE as int);
    let fit = if phases < whole {
        phases
    } else {
        whole
    };
    if fit > 4 {
        fit
    } else {
        4
    }
}

/// The column of a frame: where it lies within its cycle.
pub open spec fn phase_of(index: int, fps: int, period: int, columns: int) -> int {
    (index * SCALE) % cycle(fps, period) * columns / cycle(fps, period)
}

/// The levels of a band, summed over the first `n` frames that fall in a column.
pub open spec fn slot_sum(
    history: Seq<Seq<u8>>,
    range: DbRange,
    fps: int,
    period: int,
    columns: int,
    band: int,
    column: int,
    n: int,
) -> int
    decreases n,
{
    if n <= 0 {
        0
    } else {
        slot_sum(history, range, fps, period, columns, band, column, n - 1) + if phase_of(
            n - 1,
            fps,
            period,
            columns,
        ) == column {
            range.level_of(history[n - 1][band] as int)
        } else {
            0
        }
    }
}

/// How many of the first `n` frames fall in a column.
pub open spec fn slot_count(fps: int, period: int, columns: int, column: int, n: int) -> int
    decreases n,
{
    if n <= 0 {
        0
    } else {
        slot_count(fps, period, columns, column, n - 1) + if phase_of(n - 1, fps, period, columns)
            == column {
            1int
        } else {
            0
        }
    }
}

/// The mean level of a band in a column, rounded down, if any frame falls there.
pub open spec fn slot_mean(
    history: Seq<Seq<u8>>,
    range: DbRange,
    fps: int,
    period: int,
    columns: int,
    band: int,
    column: int,
) -> Option<int> {
    let n = history.len() as int;
    let count = slot_count(fps, period, columns, column, n);
    if count == 0 {
        None
    } else {
        Some(slot_sum(history, range, fps, period, columns, band, column, n) / count)
    }
}

/// One cycle, averaged over however many were available.
#[derive(Debug)]
pub struct Folded {
    /// Frequency rows, matching the history's frame width.
    pub bands: usize,
    /// Columns across one cycle.
    pub phases: usize,
    /// Mean levels, row-major, row 0 first; none where no frame fell.
    pub mean_db: Vec<Option<i32>>,
    /// How many cycles went into it, in millionths. The improvement over a single cycle is
    /// roughly the square root of this.
    pub cycles: u128,
    /// The period folded at.
    pub period_seconds: u64,
}

/// The values among `n` places from `start` on, those that are there.
pub open spec fn present(mean: Seq<Option<i32>>, start: int, n: int) -> Seq<int>
    decreases n,
{
    if n <= 0 {
        Seq::empty()
    } else {
        let before = present(mean, start, n - 1);
        match mean[start + n - 1] {
            None => before,
            Some(v) => before.push(v as int),
        }
    }
}

pub open spec fn total(s: Seq<int>) -> int
    decreases s.len(),
{
    if s.len() == 0 {
        0
    } else {
        total(s.drop_last()) + s.last()
    }
}

pub open spec fn squares(s: Seq<int>) -> int
    decreases s.len(),
{
    if s.len() == 0 {
        0
    } else {
        squares(s.drop_last()) + s.last() * s.last()
    }
}

/// The squared differences of neighbours.
pub open spec fn jumps(s: Seq<int>) -> int
    decreases s.len(),
{
    if s.len() <= 1 {
        0
    } else {
        let d = s.last() - s[s.len() - 2];
        jumps(s.drop_last()) + d * d
    }
}

/// The variance of some values, rounded down.
pub open spec fn variance(s: Seq<int>) -> int {
    let n = s.len() as int;
    (n * squares(s) - total(s) * total(s)) / (n * n)
}

/// The noise left after folding: half the mean squared difference of neighbours, rounded
/// down.
pub open spec fn noise(s: Seq<int>) -> int {
    jumps(s) / (2 * (s.len() - 1))
}

/// The variances of the first `n` bands together, of those with four values at least.
pub open spec fn between(mean: Seq<Option<i32>>, phases: int, n: int) -> int
    decreases n,
{
    if n <= 0 {
        0
    } else {
        let row = present(mean, (n - 1) * phases, phases);
        between(mean, phases, n - 1) + if row.len() < 4 {
            0
        } else {
            variance(row)
        }
    }
}

/// The noise of the first `n` bands together, of those with four values at least.
pub open spec fn within(mean: Seq<Option<i32>>, phases: int, n: int) -> int
    decreases n,
{
    if n <= 0 {
        0
    } else {
        let row = present(mean, (n - 1) * phases, phases);
        within(mean, phases, n - 1) + if row.len() < 4 {
            0
        } else {
            noise(row)
        }
    }
}

/// How much a fold stands out from a flat one, in millionths: the spread along phase over
/// the spread between neighbours, less one, which is what noise gives. What a `u128` cannot
/// hold is its largest value.
pub open spec fn sharpness_of(mean: Seq<Option<i32>>, bands: int, phases: int) -> int {
    let b = between(mean, phases, bands);
    let w = within(mean, phases, bands);
    if bands == 0 || phases < 4 || w <= 0 || b * ONE / w <= ONE {
        0
    } else if b * ONE / w - ONE > u128::MAX {
        u128::MAX as int
    } else {
        b * ONE / w - ONE
    }
}

/// The executable form of the last step of [`sharpness_of`].
fn excess(between: u128, within: u128) -> (r: u128)
    requires
        within > 0,
    ensures
        r == {
            let ratio = between * ONE / (within as int);
            if ratio <= ONE {
                0
            } else if ratio - ONE > u128::MAX {
                u128::MAX as int
            } else {
                ratio - ONE
            }
        },
{
    let whole: u128 = between / within;
    let rest: u128 = between % within;
    let part: u64 = capped_share(rest, 1, within, 1);
    proof {
        let b = between as int;
        let w = within as int;
        vstd::arithmetic::div_mod::lemma_fundamental_div_mod(b, w);
        vstd::arithmetic::div_mod::lemma_fundamental_div_mod(rest * ONE, w);
        let left = rest * ONE % (w as int);
        assert(b * 1_000_000 == w * (whole * 1_000_000 + part) + left) by (nonlinear_arith)
            requires
                b == w * whole + rest,
                rest * 1_000_000 == w * part + left,
        ;
        assert((whole * 1_000_000 + part) * w == w * (whole * 1_000_000 + part))
            by (nonlinear_arith);
        vstd::arithmetic::div_mod::lemma_fundamental_div_mod_converse(
            b * 1_000_000,
            w,
            whole * 1_000_000 + part,
            left,
        );
        assert(part < 1_000_000) by (nonlinear_arith)
            requires
                rest * 1_000_000 == w * part + left,
                left >= 0,
                rest < w,
        ;
    }
    if whole == 0 {
        return 0;
    }
    let beyond: u128 = whole - 1;
    if beyond > u128::MAX / 1_000_000 || (beyond == u128::MAX / 1_000_000 && part as u128
        > u128::MAX % 1_000_000) {
        u128::MAX
    } else {
        beyond * 1_000_000 + part as u128
    }
}

/// The byte of a level on a scale from `low` on.
pub open spec fn shade(v: int, low: int, span: int) -> int {
    if v <= low {
        0
    } else if v - low >= span {
        255
    } else {
        (v - low) * 255 / span
    }
}

impl Folded {
    pub open spec fn wf(&self) -> bool {
        self.mean_db.len() == self.bands * self.phases
    }

    /// Where the scale of the picture begins and how far it reaches: from the first to the
    /// last percentile, so that one hot cell cannot set the scale, and a thousandth of a
    /// decibel at least.
    pub open spec fn scale(&self) -> (int, int) {
        let all = present(self.mean_db@, 0, self.mean_db.len() as int);
        let n = all.len() as int;
        let low = rank::ranked(all, n / 100);
        let high = rank::ranked(all, n - 1 - n / 100);
        (
            low,
            if high - low > 1_000 {
                high - low
            } else {
                1_000
            },
        )
    }

    /// Quantize to the byte image the structure detector consumes.
    ///
    /// Scaled by the fold's own range rather than an absolute window: what survives folding
    /// is faint, and a fixed window would throw away exactly the contrast that was just
    /// bought.
    pub fn to_image(&self) -> (r: Vec<u8>)
        requires
            self.wf(),
        ensures
            r.len() == self.mean_db.len(),
            forall|i: int|
                0 <= i < r.len() ==> #[trigger] r[i] == match self.mean_db[i] {
                    None => 0,
                    Some(v) => shade(v as int, self.scale().0, self.scale().1),
                },
    {
        let n: usize = self.mean_db.len();
        let mut keys: Vec<i128> = Vec::new();
        let mut i: usize = 0;
        while i < n
            invariant
                n == self.mean_db.len(),
                i <= n,
                keys.len() <= i,
                values(keys@) =~= present(self.mean_db@, 0, i as int),
                forall|k: int| 0 <= k < keys.len() ==> -0x8000_0000 <= #[trigger] keys[k] < 0x8000_0000,
            decreases n - i,
        {
            if let Some(v) = self.mean_db[i] {
                keys.push(v as i128);
            }
            i = i + 1;
        }
        let m: usize = keys.len();
        let mut out: Vec<u8> = Vec::with_capacity(n);
        if m == 0 {
            proof {
                lemma_present_empty(self.mean_db@, n as int);
            }
            i = 0;
            while i < n
                invariant
                    n == self.mean_db.len(),
                    forall|k: int| 0 <= k < n ==> #[trigger] self.mean_db[k] is None,
                    i <= n,
                    out.len() == i,
                    forall|k: int| 0 <= k < i ==> #[trigger] out[k] == 0,
                decreases n - i,
            {
                out.push(0);
                i = i + 1;
            }
            return out;
        }
        let ordered = sorted(keys.as_slice());
        let low: i128 = ordered[m / 100];
        let high: i128 = ordered[m - 1 - m / 100];
        proof {
            lemma_among(keys@, m as int / 100, low as int);
            lemma_among(keys@, m - 1 - m as int / 100, high as int);
        }
        let span: i128 = if high - low > 1_000 {
            high - low
        } else {
            1_000
        };
        i = 0;
        while i < n
            invariant
                n == self.mean_db.len(),
                low == self.scale().0,
                span == self.scale().1,
                -0x8000_0000 <= low < 0x8000_0000,
                1_000 <= span <= 0x1_0000_0000,
                i <= n,
                out.len() == i,
                forall|k: int|
                    0 <= k < i ==> #[trigger] out[k] == match self.mean_db[k] {
                        None => 0,
                        Some(v) => shade(v as int, self.scale().0, self.scale().1),
                    },
            decreases n - i,
        {
            match self.mean_db[i] {
                None => {
                    out.push(0);
                },
                Some(v) => {
                    let above: i128 = v as i128 - low;
                    if above <= 0 {
                        out.push(0);
                    } else if above >= span {
                        out.push(255);
                    } else {
                        proof {
                            assert(0 <= above * 255 / (span as int) <= 255) by (nonlinear_arith)
                                requires
                                    0 < above < span,
                            ;
                        }
                        out.push((above * 255 / span) as u8);
                    }
                },
            }
            i = i + 1;
        }
        out
    }

    /// How much the folded image stands out from a flat one.
    ///
    /// The statistic an epoch-folding search maximises. A real period produces a fold where
    /// the phase axis carries structure; a wrong one smears it flat. A band that is simply
    /// loud contributes nothing.
    pub fn sharpness(&self) -> (r: u128)
        requires
            self.wf(),
        ensures
            r == sharpness_of(self.mean_db@, self.bands as int, self.phases as int),
    {
        if self.bands == 0 || self.phases < 4 {
            return 0;
        }
        let mut between_sum: u128 = 0;
        let mut within_sum: u128 = 0;
        let mut band: usize = 0;
        proof {
            assert(4 * self.bands <= self.bands * self.phases) by (nonlinear_arith)
                requires
                    self.bands >= 0,
                    self.phases >= 4,
            ;
        }
        while band < self.bands
            invariant
                self.wf(),
                self.phases >= 4,
                4 * self.bands <= usize::MAX,
                band <= self.bands,
                between_sum == between(self.mean_db@, self.phases as int, band as int),
                within_sum == within(self.mean_db@, self.phases as int, band as int),
                between_sum <= band * 0x4000_0000_0000_0000,
                within_sum <= band * 0x8000_0000_0000_0000,
            decreases self.bands - band,
        {
            proof {
                assert(band * self.phases + self.phases <= self.bands * self.phases)
                    by (nonlinear_arith)
                    requires
                        band + 1 <= self.bands,
                        self.phases >= 0,
                ;
            }
            let spread = row_spread(&self.mean_db, band * self.phases, self.phases);
            between_sum = between_sum + spread.0;
            within_sum = within_sum + spread.1;
            band = band + 1;
        }
        if within_sum == 0 {
            return 0;
        }
        excess(between_sum, within_sum)
    }
}

proof fn lemma_present_empty(mean: Seq<Option<i32>>, n: int)
    requires
        0 <= n <= mean.len(),
        present(mean, 0, n).len() == 0,
    ensures
        forall|k: int| 0 <= k < n ==> #[trigger] mean[k] is None,
    decreases n,
{
    if n > 0 {
        lemma_present_empty(mean, n - 1);
    }
}

/// A ranked key lies among the keys.
proof fn lemma_among(keys: Seq<i128>, k: int, v: int)
    requires
        forall|k: int| 0 <= k < keys.len() ==> -0x8000_0000 <= #[trigger] keys[k] < 0x8000_0000,
        rank::is_rank(values(keys), k, v),
        0 <= k < keys.len(),
    ensures
        -0x8000_0000 <= v < 0x8000_0000,
{
    let s = values(keys);
    assert forall|i: int| 0 <= i < s.len() implies -0x8000_0000 <= #[trigger] s[i] < 0x8000_0000 by {
        assert(-0x8000_0000 <= keys[i] < 0x8000_0000);
    }
    rank::lemma_extremes(s, -0x8000_0000, 0x8000_0000);
    if v < -0x8000_0000 {
        rank::lemma_monotone(s, v + 1, -0x8000_0000);
    }
    if v >= 0x8000_0000 {
        rank::lemma_monotone(s, 0x8000_0000, v);
    }
}

/// The variance and the noise of one row, or nothing where it has fewer than four values.
fn row_spread(mean: &Vec<Option<i32>>, start: usize, n: usize) -> (r: (u128, u128))
    requires
        start + n <= mean.len(),
    ensures
        ({
            let row = present(mean@, start as int, n as int);
            &&& row.len() < 4 ==> r == (0u128, 0u128)
            &&& row.len() >= 4 ==> r.0 == variance(row) && r.1 == noise(row)
        }),
        r.0 <= 0x4000_0000_0000_0000,
        r.1 <= 0x8000_0000_0000_0000,
{
    let mut count: i128 = 0;
    let mut sum: i128 = 0;
    let mut square_sum: i128 = 0;
    let mut jump_sum: u128 = 0;
    let mut last: i128 = 0;
    let mut i: usize = 0;
    while i < n
        invariant
            start + n <= mean.len(),
            i <= n,
            0 <= count <= i,
            count == present(mean@, start as int, i as int).len(),
            sum == total(present(mean@, start as int, i as int)),
            square_sum == squares(present(mean@, start as int, i as int)),
            jump_sum == jumps(present(mean@, start as int, i as int)),
            count > 0 ==> last == present(mean@, start as int, i as int).last(),
            -0x8000_0000 <= last < 0x8000_0000,
            -(count * 0x8000_0000) <= sum <= count * 0x8000_0000,
            0 <= square_sum <= count * 0x4000_0000_0000_0000,
            count > 0 ==> jump_sum <= (count - 1) * 0xffff_fffe_0000_0001,
            count == 0 ==> jump_sum == 0,
        decreases n - i,
    {
        let ghost before = present(mean@, start as int, i as int);
        if let Some(v) = mean[start + i] {
            let x: i128 = v as i128;
            let ghost after = before.push(x as int);
            proof {
                assert(after.drop_last() =~= before);
                assert(0 <= x * x <= 0x4000_0000_0000_0000) by (nonlinear_arith)
                    requires
                        -0x8000_0000 <= x <= 0x8000_0000,
                ;
                let d = x - last;
                assert(0 <= d * d <= 0xffff_ffff * 0xffff_ffff) by (nonlinear_arith)
                    requires
                        -0xffff_ffff <= d <= 0xffff_ffff,
                ;
            }
            sum = sum + x;
            square_sum = square_sum + x * x;
            if count > 0 {
                let d: i128 = x - last;
                jump_sum = jump_sum + (d * d) as u128;
            }
            last = x;
            count = count + 1;
        }
        i = i + 1;
    }
    let ghost row = present(mean@, start as int, n as int);
    if count < 4 {
        return (0, 0);
    }
    proof {
        assert(0 <= count * square_sum <= count * (count * 0x4000_0000_0000_0000) && 0 <= sum * sum
            <= (count * 0x8000_0000) * (count * 0x8000_0000)) by (nonlinear_arith)
            requires
                count >= 0,
                0 <= square_sum <= count * 0x4000_0000_0000_0000,
                -(count * 0x8000_0000) <= sum <= count * 0x8000_0000,
        ;
        assert(count * (count * 0x4000_0000_0000_0000) == (count * count) * 0x4000_0000_0000_0000 && (
        count * 0x8000_0000) * (count * 0x8000_0000) == (count * count) * 0x4000_0000_0000_0000)
            by (nonlinear_arith);
        assert(0 < count * count) by (nonlinear_arith)
            requires
                0 < count,
        ;
        lemma_spread_nonnegative(row);
        let num = count * square_sum - sum * sum;
        assert(0 <= num / (count * count) <= 0x4000_0000_0000_0000) by (nonlinear_arith)
            requires
                0 <= num <= (count * count) * 0x4000_0000_0000_0000,
                count * count > 0,
        ;
        let d = 2 * (count - 1);
        assert(0 <= jump_sum as int / d <= 0x8000_0000_0000_0000) by (nonlinear_arith)
            requires
                0 <= jump_sum <= (count - 1) * 0xffff_fffe_0000_0001,
                d == 2 * (count - 1),
                count > 1,
        ;
        assert(-0x8000_0000 <= sum as int / count as int <= 0x8000_0000) by (nonlinear_arith)
            requires
                -(count * 0x8000_0000) <= sum <= count * 0x8000_0000,
                count > 0,
        ;
    }
    // About the mean rather than about nothing: the products then stay within their type.
    let mean_level: i128 = floor_div(sum, count);
    proof {
        vstd::arithmetic::div_mod::lemma_fundamental_div_mod(sum as int, count as int);
        assert(-(0x8000_0000 * (count * 0x8000_0000)) <= mean_level * sum <= 0x8000_0000 * (count
            * 0x8000_0000)) by (nonlinear_arith)
            requires
                -0x8000_0000 <= mean_level <= 0x8000_0000,
                -(count * 0x8000_0000) <= sum <= count * 0x8000_0000,
        ;
        assert(-(0x8000_0000 * count) <= mean_level * count <= 0x8000_0000 * count)
            by (nonlinear_arith)
            requires
                -0x8000_0000 <= mean_level <= 0x8000_0000,
                count >= 0,
        ;
        assert(count * mean_level == mean_level * count) by (nonlinear_arith);
    }
    let over: i128 = sum - mean_level * count;
    proof {
        assert(0 <= over < count);
        assert(-(0x8000_0000 * count) <= mean_level * over <= 0x8000_0000 * count)
            by (nonlinear_arith)
            requires
                -0x8000_0000 <= mean_level <= 0x8000_0000,
                0 <= over <= count,
        ;
        assert(mean_level * sum >= 0) by (nonlinear_arith)
            requires
                sum == mean_level * count + over,
                0 <= over < count,
        ;
        assert(0 <= over * over <= 0xffff_ffff_ffff_ffff * 0xffff_ffff_ffff_fffe)
            by (nonlinear_arith)
            requires
                0 <= over <= 0xffff_ffff_ffff_fffe,
        ;
        lemma_about_mean(
            count as int,
            square_sum as int,
            sum as int,
            mean_level as int,
            over as int,
        );
    }
    let about: i128 = square_sum - mean_level * sum - mean_level * over;
    let off: u128 = (over as u128 * over as u128 + count as u128 - 1) / count as u128;
    let spread: u128 = (about as u128 - off) / count as u128;
    let left: u128 = jump_sum / (2 * (count as u128 - 1));
    (spread, left)
}

/// A variance from the squared distances about the mean rounded down: `over` is what the
/// rounding left.
proof fn lemma_about_mean(n: int, squares: int, total: int, mean: int, over: int)
    requires
        n > 0,
        total == mean * n + over,
        0 <= over < n,
        n * squares - total * total >= 0,
    ensures
        ({
            let about = squares - mean * total - mean * over;
            let off = (over * over + n - 1) / n;
            &&& 0 <= off <= about
            &&& (about - off) / n == (n * squares - total * total) / (n * n)
        }),
{
    let about = squares - mean * total - mean * over;
    let off = (over * over + n - 1) / n;
    let num = n * squares - total * total;
    assert(n * about - over * over == num) by (nonlinear_arith)
        requires
            total == mean * n + over,
            about == squares - mean * total - mean * over,
            num == n * squares - total * total,
    ;
    assert(over * over >= 0) by (nonlinear_arith);
    vstd::arithmetic::div_mod::lemma_fundamental_div_mod(over * over + n - 1, n);
    let short = n * off - over * over;
    assert(0 <= short < n);
    assert(off >= 0) by (nonlinear_arith)
        requires
            n * off >= 0,
            n > 0,
    ;
    assert(n * (about - off) == n * about - n * off) by (nonlinear_arith);
    assert(num == n * (about - off) + short);
    assert(about - off >= 0) by (nonlinear_arith)
        requires
            n * (about - off) + short >= 0,
            short < n,
            n > 0,
    ;
    assert((about - off) * n == n * (about - off)) by (nonlinear_arith);
    vstd::arithmetic::div_mod::lemma_fundamental_div_mod_converse(num, n, about - off, short);
    vstd::arithmetic::div_mod::lemma_div_denominator(num, n, n);
}

/// The sum of the squares of `n` values, `n` times, is no less than the square of their sum.
proof fn lemma_spread_nonnegative(s: Seq<int>)
    ensures
        s.len() * squares(s) - total(s) * total(s) >= 0,
    decreases s.len(),
{
    if s.len() > 0 {
        let t = s.drop_last();
        lemma_spread_nonnegative(t);
        lemma_cross_nonnegative(t, s.last());
        let n = t.len() as int;
        let x = s.last();
        let q = squares(t);
        let m = total(t);
        assert((n + 1) * (q + x * x) - (m + x) * (m + x) == (n * q - m * m) + (q - 2 * (m * x) + n
            * (x * x))) by (nonlinear_arith);
    }
}

/// The squared distances of some values from `x` add up to no less than nothing.
proof fn lemma_cross_nonnegative(s: Seq<int>, x: int)
    ensures
        squares(s) - 2 * (total(s) * x) + s.len() * (x * x) >= 0,
    decreases s.len(),
{
    if s.len() > 0 {
        let t = s.drop_last();
        lemma_cross_nonnegative(t, x);
        let y = s.last();
        let n = t.len() as int;
        assert((y - x) * (y - x) >= 0) by (nonlinear_arith);
        assert((y - x) * (y - x) == y * y - 2 * (y * x) + x * x) by (nonlinear_arith);
        assert((total(t) + y) * x == total(t) * x + y * x) by (nonlinear_arith);
        assert((n + 1) * (x * x) == n * (x * x) + x * x) by (nonlinear_arith);
    } else {
        assert(0 * (x * x) == 0);
        assert(0 * x == 0);
    }
}

/// `f` is a history folded at a period.
pub open spec fn is_fold(
    history: Seq<Seq<u8>>,
    width: int,
    range: DbRange,
    fps: int,
    period: int,
    phases: int,
    f: Folded,
) -> bool {
    let columns = phase_count(phases, fps, period);
    &&& f.bands == width
    &&& f.phases == columns
    &&& f.mean_db.len() == width * columns
    &&& f.mean_db@ == folded_means(history, width, range, fps, period, columns)
    &&& f.cycles == history.len() * SCALE * ONE / cycle(fps, period)
    &&& f.period_seconds == period
}

/// The mean levels of a fold, row by row.
pub open spec fn folded_means(
    history: Seq<Seq<u8>>,
    width: int,
    range: DbRange,
    fps: int,
    period: int,
    columns: int,
) -> Seq<Option<i32>> {
    Seq::new(
        (width * columns) as nat,
        |i: int|
            match slot_mean(history, range, fps, period, columns, i / columns, i % columns) {
                None => None,
                Some(v) => Some(v as i32),
            },
    )
}

proof fn lemma_slot(band: int, column: int, columns: int, bands: int)
    requires
        0 <= band < bands,
        0 <= column < columns,
    ensures
        0 <= band * columns + column < bands * columns,
        (band * columns + column) / columns == band,
        (band * columns + column) % columns == column,
{
    vstd::arithmetic::div_mod::lemma_fundamental_div_mod_converse(
        band * columns + column,
        columns,
        band,
        column,
    );
    assert(0 <= band * columns && band * columns + column < bands * columns) by (nonlinear_arith)
        requires
            0 <= band <= bands - 1,
            0 <= column < columns,
    ;
}

proof fn lemma_slot_of(i: int, columns: int, bands: int)
    requires
        0 <= i < bands * columns,
        columns > 0,
    ensures
        0 <= i / columns < bands,
        0 <= i % columns < columns,
        i == (i / columns) * columns + i % columns,
{
    vstd::arithmetic::div_mod::lemma_fundamental_div_mod(i, columns);
    let q = i / columns;
    assert(q < bands) by (nonlinear_arith)
        requires
            columns * q <= i,
            i < bands * columns,
            columns > 0,
    ;
    assert(columns * q == q * columns) by (nonlinear_arith);
}

proof fn lemma_phase_bounds(index: int, fps: int, period: int, columns: int)
    requires
        cycle(fps, period) > 0,
        columns > 0,
    ensures
        0 <= phase_of(index, fps, period, columns) < columns,
{
    let p = cycle(fps, period);
    let x = (index * SCALE) % p;
    assert(0 <= x * columns / p < columns) by (nonlinear_arith)
        requires
            0 <= x < p,
            columns > 0,
    ;
}

proof fn lemma_slot_bounds(
    history: Seq<Seq<u8>>,
    range: DbRange,
    fps: int,
    period: int,
    columns: int,
    band: int,
    column: int,
    n: int,
)
    requires
        0 <= n,
        range.min < range.max,
    ensures
        0 <= slot_count(fps, period, columns, column, n) <= n,
        slot_count(fps, period, columns, column, n) * range.min <= slot_sum(
            history,
            range,
            fps,
            period,
            columns,
            band,
            column,
            n,
        ) <= slot_count(fps, period, columns, column, n) * range.max,
    decreases n,
{
    if n > 0 {
        lemma_slot_bounds(history, range, fps, period, columns, band, column, n - 1);
        let c = slot_count(fps, period, columns, column, n - 1);
        let q = history[n - 1][band] as int;
        let span = range.max - range.min;
        assert(0 <= q * span <= 255 * span) by (nonlinear_arith)
            requires
                0 <= q <= 255,
                span > 0,
        ;
        assert((c + 1) * range.min == c * range.min + range.min) by (nonlinear_arith);
        assert((c + 1) * range.max == c * range.max + range.max) by (nonlinear_arith);
    } else {
        assert(0 * range.min == 0 && 0 * range.max == 0);
    }
}

/// The sums of a fold over the first `n` frames, row by row.
spec fn sums_hold(
    sums: Seq<i128>,
    history: Seq<Seq<u8>>,
    range: DbRange,
    fps: int,
    period: int,
    columns: int,
    bands: int,
    n: int,
) -> bool {
    &&& sums.len() == bands * columns
    &&& forall|b: int, c: int|
        0 <= b < bands && 0 <= c < columns ==> #[trigger] sums[b * columns + c] == slot_sum(
            history,
            range,
            fps,
            period,
            columns,
            b,
            c,
            n,
        )
}

/// The column, of so many, of what lies `along` a span.
fn column_of(along: u128, columns: usize, span: u128) -> (r: usize)
    requires
        along < span,
        columns > 0,
    ensures
        r == along * columns / (span as int),
        r < columns,
{
    proof {
        let a = along as int;
        let c = columns as int;
        assert(0 <= a * c / (span as int) < c) by (nonlinear_arith)
            requires
                0 <= a < span,
                c > 0,
        ;
    }
    if along <= u128::MAX / columns as u128 {
        proof {
            vstd::arithmetic::div_mod::lemma_fundamental_div_mod(
                u128::MAX as int,
                columns as int,
            );
            let most = u128::MAX as int / columns as int;
            assert(along * columns <= most * columns) by (nonlinear_arith)
                requires
                    0 <= along <= most,
                    columns >= 0,
            ;
            assert(most * columns == columns * most) by (nonlinear_arith);
        }
        return (along * columns as u128 / span) as usize;
    }
    // The product leaves its type: the column is found by halving instead.
    let ghost product = along * columns;
    let mut lo: usize = 0;
    let mut hi: usize = columns;
    proof {
        assert(0 * span == 0);
        assert(0 <= product < columns * span) by (nonlinear_arith)
            requires
                product == along * columns,
                0 <= along < span,
                columns > 0,
        ;
    }
    while hi - lo > 1
        invariant
            0 < along < span,
            product == along * columns,
            lo < hi <= columns,
            lo * span <= product < hi * span,
        decreases hi - lo,
    {
        let mid: usize = lo + (hi - lo) / 2;
        assert(span * mid == mid * span) by (nonlinear_arith);
        if at_most(span, mid as u128, along, columns as u128) {
            lo = mid;
        } else {
            hi = mid;
        }
    }
    proof {
        assert((lo + 1) * span == lo * span + span) by (nonlinear_arith);
        vstd::arithmetic::div_mod::lemma_fundamental_div_mod_converse(
            product,
            span as int,
            lo as int,
            product - lo * span,
        );
    }
    lo
}

/// Add one frame to the sums of a fold.
fn add_frame(
    sums: &mut Vec<i128>,
    frame: &[u8],
    range: DbRange,
    column: usize,
    columns: usize,
    Ghost(history): Ghost<Seq<Seq<u8>>>,
    Ghost(fps): Ghost<int>,
    Ghost(period): Ghost<int>,
    Ghost(n): Ghost<int>,
)
    requires
        range.min < range.max,
        0 <= n < history.len(),
        frame@ == history[n],
        columns > 0,
        n <= usize::MAX,
        column == phase_of(n, fps, period, columns as int),
        column < columns,
        sums_hold(
            old(sums)@,
            history,
            range,
            fps,
            period,
            columns as int,
            frame.len() as int,
            n,
        ),
    ensures
        sums_hold(
            final(sums)@,
            history,
            range,
            fps,
            period,
            columns as int,
            frame.len() as int,
            n + 1,
        ),
{
    let ghost cols = columns as int;
    let ghost bands = frame.len() as int;
    let size: usize = sums.len();
    let mut band: usize = 0;
    while band < frame.len()
        invariant
            range.min < range.max,
            0 <= n < history.len(),
            n <= usize::MAX,
            frame@ == history[n],
            columns > 0,
            cols == columns,
            bands == frame.len(),
            column == phase_of(n, fps, period, cols),
            column < columns,
            band <= frame.len(),
            size == bands * cols,
            sums.len() == bands * cols,
            forall|b: int, c: int|
                0 <= b < bands && 0 <= c < cols ==> #[trigger] sums@[b * cols + c] == slot_sum(
                    history,
                    range,
                    fps,
                    period,
                    cols,
                    b,
                    c,
                    if b < band {
                        n + 1
                    } else {
                        n
                    },
                ),
        decreases frame.len() - band,
    {
        proof {
            lemma_slot(band as int, column as int, cols, bands);
            lemma_slot_bounds(
                history,
                range,
                fps,
                period,
                cols,
                band as int,
                column as int,
                n,
            );
            let k = slot_count(fps, period, cols, column as int, n);
            assert(-(0x8000_0000 * 0x1_0000_0000_0000_0000) <= k * range.min && k * range.max
                <= 0x8000_0000 * 0x1_0000_0000_0000_0000) by (nonlinear_arith)
                requires
                    0 <= k <= 0x1_0000_0000_0000_0000,
                    -0x8000_0000 <= range.min,
                    range.max <= 0x8000_0000,
            ;
            assert(sums@[band as int * cols + column as int] == slot_sum(
                history,
                range,
                fps,
                period,
                cols,
                band as int,
                column as int,
                n,
            ));
        }
        let at: usize = band * columns + column;
        let level: i32 = range.dequantize(frame[band]);
        let ghost before = sums@;
        let was: i128 = sums[at];
        sums.set(at, was + level as i128);
        proof {
            assert forall|b: int, c: int| 0 <= b < bands && 0 <= c < cols implies #[trigger] sums@[b
                * cols + c] == slot_sum(
                history,
                range,
                fps,
                period,
                cols,
                b,
                c,
                if b < band + 1 {
                    n + 1
                } else {
                    n
                },
            ) by {
                lemma_slot(b, c, cols, bands);
                assert(before[b * cols + c] == slot_sum(
                    history,
                    range,
                    fps,
                    period,
                    cols,
                    b,
                    c,
                    if b < band {
                        n + 1
                    } else {
                        n
                    },
                ));
                if b * cols + c == at {
                    assert(b == band && c == column);
                }
            }
        }
        band = band + 1;
    }
}

/// Fold a history at a period.
///
/// `None` when there is not enough history for at least two complete cycles: one cycle
/// cannot evidence its own repetition, and folding it would simply return the recording.
pub fn fold(history: &SpectrogramHistory, fps: u64, period_seconds: u64, phases: usize) -> (r: Option<
    Folded,
>)
    requires
        history.wf(),
        history.width() * phase_count(phases as int, fps as int, period_seconds as int)
            <= usize::MAX,
    ensures
        r is Some == can_fold(
            history.held().len() as int,
            fps as int,
            period_seconds as int,
            phases as int,
        ),
        r matches Some(f) ==> is_fold(
            history.held(),
            history.width(),
            history.scale(),
            fps as int,
            period_seconds as int,
            phases as int,
            f,
        ),
{
    let frames: usize = history.len();
    if frames == 0 || fps == 0 || period_seconds == 0 || phases < 4 {
        return None;
    }
    let ghost f = fps as int;
    let ghost p = period_seconds as int;
    proof {
        assert(0 < f * p <= 0xffff_ffff_ffff_ffff * 0xffff_ffff_ffff_ffff) by (nonlinear_arith)
            requires
                0 < f <= 0xffff_ffff_ffff_ffff,
                0 < p <= 0xffff_ffff_ffff_ffff,
        ;
        history.lemma_shape();
    }
    let span: u128 = fps as u128 * period_seconds as u128;
    if span > (frames as u128) * SCALE / 2 {
        return None;
    }
    let whole: u128 = span / SCALE;
    let fit: usize = if (phases as u128) < whole {
        phases
    } else {
        whole as usize
    };
    let columns: usize = if fit > 4 {
        fit
    } else {
        4
    };
    let ghost cols = columns as int;
    let bands: usize = history.frame_width();
    let range: DbRange = history.range();
    let ghost held = history.held();
    let mut sums: Vec<i128> = vec![0i128; bands * columns];
    let mut counts: Vec<u64> = vec![0u64; columns];
    proof {
        assert forall|b: int, c: int| 0 <= b < bands && 0 <= c < cols implies #[trigger] sums@[b
            * cols + c] == slot_sum(held, range, f, p, cols, b, c, 0) by {
            lemma_slot(b, c, cols, bands as int);
        }
    }
    let mut t: usize = 0;
    while t < frames
        invariant
            history.wf(),
            held == history.held(),
            frames == held.len(),
            bands == history.width(),
            range == history.scale(),
            range.min < range.max,
            f == fps,
            p == period_seconds,
            span == cycle(f, p),
            span > 0,
            cols == columns,
            4 <= columns,
            t <= frames,
            sums_hold(sums@, held, range, f, p, cols, bands as int, t as int),
            counts.len() == columns,
            forall|c: int|
                0 <= c < cols ==> #[trigger] counts[c] == slot_count(f, p, cols, c, t as int),
        decreases frames - t,
    {
        let along: u128 = (t as u128 * SCALE) % span;
        proof {
            lemma_phase_bounds(t as int, f, p, cols);
        }
        let column: usize = column_of(along, columns, span);
        assert(column == phase_of(t as int, f, p, cols));
        match history.frame_at(t) {
            None => {},
            Some(frame) => {
                proof {
                    history.lemma_shape();
                    assert(held[t as int].len() == history.width());
                    lemma_slot_bounds(held, range, f, p, cols, 0, column as int, t as int);
                }
                add_frame(
                    &mut sums,
                    frame,
                    range,
                    column,
                    columns,
                    Ghost(held),
                    Ghost(f),
                    Ghost(p),
                    Ghost(t as int),
                );
                let c: u64 = counts[column];
                counts.set(column, c + 1);
            },
        }
        t = t + 1;
    }
    let mut mean_db: Vec<Option<i32>> = Vec::with_capacity(bands * columns);
    let mut i: usize = 0;
    let ghost want = folded_means(held, bands as int, range, f, p, cols);
    while i < sums.len()
        invariant
            held == history.held(),
            frames == held.len(),
            range.min < range.max,
            cols == columns,
            4 <= columns,
            want == folded_means(held, bands as int, range, f, p, cols),
            sums_hold(sums@, held, range, f, p, cols, bands as int, frames as int),
            counts.len() == columns,
            forall|c: int|
                0 <= c < cols ==> #[trigger] counts[c] == slot_count(f, p, cols, c, frames as int),
            i <= sums.len(),
            mean_db.len() == i,
            forall|k: int| 0 <= k < i ==> #[trigger] mean_db[k] == want[k],
        decreases sums.len() - i,
    {
        proof {
            lemma_slot_of(i as int, cols, bands as int);
            let b = i as int / cols;
            let c = i as int % cols;
            assert(sums@[b * cols + c] == slot_sum(held, range, f, p, cols, b, c, frames as int));
            lemma_slot_bounds(held, range, f, p, cols, b, c, frames as int);
            let k = slot_count(f, p, cols, c, frames as int);
            let v = slot_sum(held, range, f, p, cols, b, c, frames as int);
            assert(-(0x8000_0000 * 0x1_0000_0000_0000_0000) <= k * range.min && k * range.max
                <= 0x8000_0000 * 0x1_0000_0000_0000_0000) by (nonlinear_arith)
                requires
                    0 <= k <= 0x1_0000_0000_0000_0000,
                    -0x8000_0000 <= range.min,
                    range.max <= 0x8000_0000,
            ;
            if k > 0 {
                assert(range.min <= v / k <= range.max) by (nonlinear_arith)
                    requires
                        k > 0,
                        k * range.min <= v <= k * range.max,
                ;
            }
        }
        let count: u64 = counts[i % columns];
        if count == 0 {
            mean_db.push(None);
        } else {
            mean_db.push(Some(floor_div(sums[i], count as i128) as i32));
        }
        i = i + 1;
    }
    assert(mean_db@ =~= want);
    let cycles: u128 = (frames as u128) * SCALE * 1_000_000 / span;
    Some(Folded { bands, phases: columns, mean_db, cycles, period_seconds })
}

/// The longest period worth trying: half of the time there is a history of.
pub open spec fn longest_period(frames: int, fps: int, max_period: int) -> int {
    let half = frames * SCALE / fps / 2;
    if max_period < half {
        max_period
    } else {
        half
    }
}

/// How far one period tried lies from the next: fine enough that a cycle does not drift by
/// more than one column across the whole observation, and a twentieth of a second at least.
pub open spec fn period_step(frames: int, fps: int, longest: int, phases: int) -> int {
    let fine = longest * longest / (frames * SCALE / fps) / phases;
    if fine > 50_000 {
        fine
    } else {
        50_000
    }
}

/// How sharp a history is when folded at a period.
pub open spec fn sharpness_at(
    history: Seq<Seq<u8>>,
    width: int,
    range: DbRange,
    fps: int,
    period: int,
    phases: int,
) -> int {
    let columns = phase_count(phases, fps, period);
    sharpness_of(folded_means(history, width, range, fps, period, columns), width, columns)
}

/// Period number `k` of a search.
pub open spec fn period_at(min_period: int, step: int, k: int) -> int {
    min_period + k * step
}

/// `r` is the sharpest fold of a search from `min_period` to `longest`, the first of equal
/// ones, if there is any.
pub open spec fn is_sharpest(
    history: Seq<Seq<u8>>,
    width: int,
    range: DbRange,
    fps: int,
    min_period: int,
    longest: int,
    step: int,
    phases: int,
    n: int,
    r: Option<Folded>,
) -> bool {
    let frames = history.len() as int;
    match r {
        None => forall|k: int|
            0 <= k < n ==> !can_fold(
                frames,
                fps,
                #[trigger] period_at(min_period, step, k),
                phases,
            ),
        Some(f) => exists|j: int|
            {
                let best = sharpness_at(
                    history,
                    width,
                    range,
                    fps,
                    period_at(min_period, step, j),
                    phases,
                );
                &&& 0 <= j < n
                &&& can_fold(frames, fps, #[trigger] period_at(min_period, step, j), phases)
                &&& is_fold(
                    history,
                    width,
                    range,
                    fps,
                    period_at(min_period, step, j),
                    phases,
                    f,
                )
                &&& forall|k: int|
                    0 <= k < n && can_fold(
                        frames,
                        fps,
                        #[trigger] period_at(min_period, step, k),
                        phases,
                    ) ==> {
                        let other = sharpness_at(
                            history,
                            width,
                            range,
                            fps,
                            period_at(min_period, step, k),
                            phases,
                        );
                        other < best || (other == best && j <= k)
                    }
            },
    }
}

/// Search a range of periods and keep the sharpest fold.
///
/// Folding at a wrong period smears any real repetition across phase, so sharpness peaks at
/// the true period.
pub fn search(
    history: &SpectrogramHistory,
    fps: u64,
    min_period: u64,
    max_period: u64,
    phases: usize,
) -> (r: Option<Folded>)
    requires
        history.wf(),
        history.width() * 4 <= usize::MAX,
        history.width() * phases <= usize::MAX,
    ensures
        ({
            let frames = history.held().len() as int;
            let longest = longest_period(frames, fps as int, max_period as int);
            let step = period_step(frames, fps as int, longest, phases as int);
            if frames == 0 || fps == 0 || phases < 4 || longest <= min_period {
                r is None
            } else {
                is_sharpest(
                    history.held(),
                    history.width(),
                    history.scale(),
                    fps as int,
                    min_period as int,
                    longest,
                    step,
                    phases as int,
                    (longest - min_period) / step + 1,
                    r,
                )
            }
        }),
        r matches Some(f) ==> f.wf(),
{
    let frames: usize = history.len();
    if frames == 0 || fps == 0 || phases < 4 {
        return None;
    }
    let span: u128 = (frames as u128) * SCALE / fps as u128;
    let half: u128 = span / 2;
    let longest: u64 = if (max_period as u128) < half {
        max_period
    } else {
        half as u64
    };
    assert(longest == longest_period(frames as int, fps as int, max_period as int));
    if longest <= min_period {
        return None;
    }
    proof {
        assert(0 <= longest * longest <= 0xffff_ffff_ffff_ffff * 0xffff_ffff_ffff_ffff)
            by (nonlinear_arith)
            requires
                0 <= longest <= 0xffff_ffff_ffff_ffff,
        ;
        assert(span > 0);
    }
    let fine: u128 = (longest as u128) * (longest as u128) / span / phases as u128;
    let step: u64 = if fine > 50_000 {
        proof {
            lemma_quotient_small(longest as int, span as int, phases as int);
        }
        fine as u64
    } else {
        50_000
    };
    let ghost f = fps as int;
    let ghost held = history.held();
    let ghost width = history.width();
    let ghost range = history.scale();
    assert(step == period_step(frames as int, f, longest as int, phases as int));
    let mut best: Option<Folded> = None;
    let mut best_sharp: u128 = 0;
    let mut period: u128 = min_period as u128;
    let ghost mut n: int = 0;
    assert(period_at(min_period as int, step as int, 0) == min_period) by {
        assert(0 * (step as int) == 0);
    }
    while period <= longest as u128
        invariant
            history.wf(),
            held == history.held(),
            width == history.width(),
            range == history.scale(),
            4 <= phases,
            width * 4 <= usize::MAX,
            width * phases <= usize::MAX,
            f == fps,
            fps > 0,
            min_period < longest,
            50_000 <= step,
            n >= 0,
            period == period_at(min_period as int, step as int, n),
            period <= longest + step,
            is_sharpest(
                held,
                width,
                range,
                f,
                min_period as int,
                longest as int,
                step as int,
                phases as int,
                n,
                best,
            ),
            best matches Some(b) ==> b.wf() && best_sharp == sharpness_of(
                b.mean_db@,
                b.bands as int,
                b.phases as int,
            ),
        decreases longest + step - period,
    {
        let p: u64 = period as u64;
        let ghost before = best;
        proof {
            history.lemma_shape();
            lemma_columns_small(phases as int, f, p as int, width);
        }
        let folded = fold(history, fps, p, phases);
        match folded {
            None => {},
            Some(candidate) => {
                let sharp: u128 = candidate.sharpness();
                assert(sharp == sharpness_at(held, width, range, f, p as int, phases as int));
                if best.is_none() || sharp > best_sharp {
                    best_sharp = sharp;
                    best = Some(candidate);
                }
            },
        }
        proof {
            assert((n + 1) * step == n * step + step) by (nonlinear_arith);
            lemma_sharpest_step(
                held,
                width,
                range,
                f,
                min_period as int,
                longest as int,
                step as int,
                phases as int,
                n,
                before,
                folded,
                best,
            );
            n = n + 1;
        }
        period = period + step as u128;
    }
    proof {
        let d = longest - min_period;
        let s = step as int;
        assert(n == d / s + 1) by {
            let q = n - 1;
            assert(n * s == q * s + s) by (nonlinear_arith)
                requires
                    q == n - 1,
            ;
            assert(q >= 0) by {
                if n == 0 {
                    assert(0 * s == 0);
                }
            }
            assert(d == q * s + (d - q * s));
            vstd::arithmetic::div_mod::lemma_fundamental_div_mod_converse(d, s, q, d - q * s);
        }
    }
    best
}

proof fn lemma_quotient_small(longest: int, span: int, phases: int)
    requires
        0 < longest <= 0xffff_ffff_ffff_ffff,
        longest <= span,
        phases >= 4,
    ensures
        0 <= longest * longest / span / phases <= 0xffff_ffff_ffff_ffff,
{
    let a = longest * longest / span;
    assert(0 <= a <= longest) by (nonlinear_arith)
        requires
            0 < longest <= span,
            a == longest * longest / span,
    ;
    assert(0 <= a / phases <= a) by (nonlinear_arith)
        requires
            0 <= a,
            phases >= 4,
    ;
}

proof fn lemma_columns_small(phases: int, fps: int, period: int, width: int)
    requires
        4 <= phases,
        0 <= width,
        width * 4 <= usize::MAX,
        width * phases <= usize::MAX,
    ensures
        4 <= phase_count(phases, fps, period),
        width * phase_count(phases, fps, period) <= usize::MAX,
{
    let c = phase_count(phases, fps, period);
    assert(c == 4 || (4 < c <= phases));
    if c != 4 {
        assert(width * c <= width * phases) by (nonlinear_arith)
            requires
                c <= phases,
                width >= 0,
        ;
    }
}

/// One more period tried keeps the sharpest fold the sharpest.
proof fn lemma_sharpest_step(
    history: Seq<Seq<u8>>,
    width: int,
    range: DbRange,
    fps: int,
    min_period: int,
    longest: int,
    step: int,
    phases: int,
    n: int,
    before: Option<Folded>,
    folded: Option<Folded>,
    after: Option<Folded>,
)
    requires
        n >= 0,
        is_sharpest(history, width, range, fps, min_period, longest, step, phases, n, before),
        folded is Some == can_fold(
            history.len() as int,
            fps,
            period_at(min_period, step, n),
            phases,
        ),
        folded matches Some(g) ==> is_fold(
            history,
            width,
            range,
            fps,
            period_at(min_period, step, n),
            phases,
            g,
        ),
        after == (match (before, folded) {
            (_, None) => before,
            (None, Some(g)) => folded,
            (Some(b), Some(g)) => if sharpness_of(g.mean_db@, g.bands as int, g.phases as int)
                > sharpness_of(b.mean_db@, b.bands as int, b.phases as int) {
                folded
            } else {
                before
            },
        }),
    ensures
        is_sharpest(history, width, range, fps, min_period, longest, step, phases, n + 1, after),
{
    let here = period_at(min_period, step, n);
    if let Some(b) = before {
        let frames = history.len() as int;
        let j = choose|j: int|
            {
                let best = sharpness_at(
                    history,
                    width,
                    range,
                    fps,
                    period_at(min_period, step, j),
                    phases,
                );
                &&& 0 <= j < n
                &&& can_fold(frames, fps, #[trigger] period_at(min_period, step, j), phases)
                &&& is_fold(
                    history,
                    width,
                    range,
                    fps,
                    period_at(min_period, step, j),
                    phases,
                    b,
                )
                &&& forall|k: int|
                    0 <= k < n && can_fold(
                        frames,
                        fps,
                        #[trigger] period_at(min_period, step, k),
                        phases,
                    ) ==> {
                        let other = sharpness_at(
                            history,
                            width,
                            range,
                            fps,
                            period_at(min_period, step, k),
                            phases,
                        );
                        other < best || (other == best && j <= k)
                    }
            };
        assert(can_fold(frames, fps, period_at(min_period, step, j), phases));
        assert(sharpness_of(b.mean_db@, b.bands as int, b.phases as int) == sharpness_at(
            history,
            width,
            range,
            fps,
            period_at(min_period, step, j),
            phases,
        ));
        if let Some(g) = folded {
            assert(sharpness_of(g.mean_db@, g.bands as int, g.phases as int) == sharpness_at(
                history,
                width,
                range,
                fps,
                here,
                phases,
            ));
        }
    } else {
        if let Some(g) = folded {
            assert(can_fold(history.len() as int, fps, here, phases));
        }
    }
}

/// Frames in the first `c` columns of a fold of `n` frames, together.
pub open spec fn frames_upto(fps: int, period: int, columns: int, c: int, n: int) -> int
    decreases c,
{
    if c <= 0 {
        0
    } else {
        frames_upto(fps, period, columns, c - 1, n) + slot_count(fps, period, columns, c - 1, n)
    }
}

proof fn lemma_phase_in_range(index: int, fps: int, period: int, columns: int)
    requires
        fps > 0,
        period > 0,
        columns > 0,
        index >= 0,
    ensures
        0 <= phase_of(index, fps, period, columns) < columns,
{
    let cyc = cycle(fps, period);
    assert(cyc > 0) by (nonlinear_arith)
        requires
            cyc == fps * period,
            fps > 0,
            period > 0,
    ;
    let within = (index * SCALE) % cyc;
    vstd::arithmetic::div_mod::lemma_mod_bound(index * SCALE, cyc);
    assert(0 <= within * columns / cyc < columns) by (nonlinear_arith)
        requires
            0 <= within < cyc,
            columns > 0,
            cyc > 0,
    ;
}

proof fn lemma_one_more_frame(fps: int, period: int, columns: int, c: int, n: int)
    requires
        fps > 0,
        period > 0,
        columns > 0,
        0 <= c <= columns,
        n > 0,
    ensures
        frames_upto(fps, period, columns, c, n) == frames_upto(fps, period, columns, c, n - 1)
            + if phase_of(n - 1, fps, period, columns) < c {
            1int
        } else {
            0
        },
    decreases c,
{
    lemma_phase_in_range(n - 1, fps, period, columns);
    if c > 0 {
        lemma_one_more_frame(fps, period, columns, c - 1, n);
    }
}

proof fn lemma_no_frames(fps: int, period: int, columns: int, c: int)
    ensures
        frames_upto(fps, period, columns, c, 0) == 0,
    decreases c,
{
    if c > 0 {
        lemma_no_frames(fps, period, columns, c - 1);
    }
}

/// Every frame of the history is folded into one column, and into no other.
pub proof fn law_every_frame_is_folded_once(fps: int, period: int, columns: int, n: int)
    requires
        fps > 0,
        period > 0,
        columns > 0,
        n >= 0,
    ensures
        frames_upto(fps, period, columns, columns, n) == n,
    decreases n,
{
    if n == 0 {
        lemma_no_frames(fps, period, columns, columns);
    } else {
        law_every_frame_is_folded_once(fps, period, columns, n - 1);
        lemma_one_more_frame(fps, period, columns, columns, n);
        lemma_phase_in_range(n - 1, fps, period, columns);
    }
}

/// Frames a whole cycle apart fall in one column: where a cycle is a whole number of frames, a
/// frame and the one `k` cycles on are folded onto each other.
pub proof fn law_a_cycle_folds_onto_itself(
    index: int,
    k: int,
    frames: int,
    fps: int,
    period: int,
    columns: int,
)
    requires
        index >= 0,
        k >= 0,
        frames > 0,
        columns > 0,
        // `frames` frames pass in a period.
        fps * period == frames * SCALE,
    ensures
        phase_of(index + k * frames, fps, period, columns) == phase_of(index, fps, period, columns),
        index < frames ==> phase_of(index, fps, period, columns) == index * columns / frames,
{
    let c = frames * SCALE;
    assert((index + k * frames) * SCALE == k * c + index * SCALE) by (nonlinear_arith)
        requires
            c == frames * SCALE,
    ;
    vstd::arithmetic::div_mod::lemma_mod_multiples_vanish(k, index * SCALE, c);
    assert(c * k == k * c) by (nonlinear_arith);
    if index < frames {
        vstd::arithmetic::div_mod::lemma_small_mod((index * SCALE) as nat, c as nat);
        let x = index * columns;
        assert((index * SCALE) * columns == SCALE * x) by (nonlinear_arith)
            requires
                x == index * columns,
        ;
        assert(c == SCALE * frames);
        assert((SCALE * x) / (SCALE * frames) == x / frames) by {
            vstd::arithmetic::div_mod::lemma_fundamental_div_mod(x, frames);
            let q = x / frames;
            let t = x % frames;
            assert(SCALE * x == q * (SCALE * frames) + SCALE * t) by (nonlinear_arith)
                requires
                    x == frames * q + t,
            ;
            vstd::arithmetic::div_mod::lemma_fundamental_div_mod_converse(
                SCALE * x,
                SCALE * frames,
                q,
                SCALE * t,
            );
        }
    }
}

/// There is a fold exactly where two whole cycles were heard, four columns at least were asked
/// for, and neither the rate nor the period is nothing; and it has as many columns as were asked
/// for, but no more than a cycle has frames, and never fewer than four.
pub proof fn law_a_fold_needs_two_cycles(frames: int, fps: int, period: int, phases: int)
    requires
        frames >= 0,
        fps >= 0,
        period >= 0,
    ensures
        can_fold(frames, fps, period, phases) <==> fps > 0 && period > 0 && frames > 0 && phases >= 4
            && 2 * (fps * period) <= frames * 1_000_000_000_000,
        4 <= phase_count(phases, fps, period),
        phase_count(phases, fps, period) > 4 ==> phase_count(phases, fps, period) <= phases
            && phase_count(phases, fps, period) * 1_000_000_000_000 <= fps * period,
        phases >= 4 && phases * 1_000_000_000_000 <= fps * period ==> phase_count(
            phases,
            fps,
            period,
        ) == phases,
{
}

proof fn lemma_slot_sum_within(
    history: Seq<Seq<u8>>,
    range: DbRange,
    fps: int,
    period: int,
    columns: int,
    band: int,
    column: int,
    n: int,
    low: int,
    high: int,
)
    requires
        0 <= n <= history.len(),
        forall|t: int|
            0 <= t < n && #[trigger] phase_of(t, fps, period, columns) == column ==> low
                <= range.level_of(history[t][band] as int) <= high,
    ensures
        slot_count(fps, period, columns, column, n) >= 0,
        low * slot_count(fps, period, columns, column, n) <= slot_sum(
            history,
            range,
            fps,
            period,
            columns,
            band,
            column,
            n,
        ) <= high * slot_count(fps, period, columns, column, n),
    decreases n,
{
    if n > 0 {
        lemma_slot_sum_within(
            history,
            range,
            fps,
            period,
            columns,
            band,
            column,
            n - 1,
            low,
            high,
        );
        let c = slot_count(fps, period, columns, column, n - 1);
        assert(low * (c + 1) == low * c + low && high * (c + 1) == high * c + high)
            by (nonlinear_arith);
    } else {
        assert(low * 0 == 0 && high * 0 == 0);
    }
}

/// A column of a fold lies among the frames that fall in it: where all of them have a band
/// between two levels, so has the fold. So what repeats at the period keeps its level, however
/// many cycles are laid on one another, and a column that no frame falls in has none.
pub proof fn law_a_column_lies_among_its_frames(
    history: Seq<Seq<u8>>,
    range: DbRange,
    fps: int,
    period: int,
    columns: int,
    band: int,
    column: int,
    low: int,
    high: int,
)
    requires
        forall|t: int|
            0 <= t < history.len() && #[trigger] phase_of(t, fps, period, columns) == column ==> low
                <= range.level_of(history[t][band] as int) <= high,
    ensures
        match slot_mean(history, range, fps, period, columns, band, column) {
            Some(v) => low <= v <= high,
            None => forall|t: int|
                0 <= t < history.len() ==> #[trigger] phase_of(t, fps, period, columns) != column,
        },
{
    let n = history.len() as int;
    let c = slot_count(fps, period, columns, column, n);
    let s = slot_sum(history, range, fps, period, columns, band, column, n);
    lemma_slot_sum_within(history, range, fps, period, columns, band, column, n, low, high);
    if c > 0 {
        assert(low <= s / c <= high) by (nonlinear_arith)
            requires
                low * c <= s <= high * c,
                c > 0,
        ;
    } else {
        assert forall|t: int| 0 <= t < n implies #[trigger] phase_of(t, fps, period, columns)
            != column by {
            lemma_slot_counted(fps, period, columns, column, n, t);
        }
    }
}

proof fn lemma_slot_counted(fps: int, period: int, columns: int, column: int, n: int, t: int)
    requires
        0 <= t < n,
    ensures
        slot_count(fps, period, columns, column, n) >= 0,
        phase_of(t, fps, period, columns) == column ==> slot_count(
            fps,
            period,
            columns,
            column,
            n,
        ) >= 1,
    decreases n,
{
    if t < n - 1 {
        lemma_slot_counted(fps, period, columns, column, n - 1, t);
    } else if n > 1 {
        lemma_slot_counted(fps, period, columns, column, n - 1, 0);
    } else {
        assert(slot_count(fps, period, columns, column, n - 1) == 0);
    }
}

/// What carries nothing along the phase is not sharp: where every band of a fold has one level
/// throughout, however loud, the sharpness is nothing.
pub proof fn law_a_flat_fold_is_not_sharp(mean: Seq<Option<i32>>, bands: int, phases: int)
    requires
        0 <= bands,
        phases >= 0,
        mean.len() == bands * phases,
        forall|b: int, i: int, j: int|
            0 <= b < bands && 0 <= i < phases && 0 <= j < phases ==> #[trigger] mean[b * phases + i]
                == #[trigger] mean[b * phases + j],
    ensures
        sharpness_of(mean, bands, phases) == 0,
{
    lemma_flat_within(mean, bands, phases, bands);
}

proof fn lemma_flat_within(mean: Seq<Option<i32>>, bands: int, phases: int, n: int)
    requires
        0 <= n <= bands,
        phases >= 0,
        forall|b: int, i: int, j: int|
            0 <= b < bands && 0 <= i < phases && 0 <= j < phases ==> #[trigger] mean[b * phases + i]
                == #[trigger] mean[b * phases + j],
    ensures
        within(mean, phases, n) == 0,
    decreases n,
{
    if n > 0 {
        lemma_flat_within(mean, bands, phases, n - 1);
        let row = present(mean, (n - 1) * phases, phases);
        lemma_flat_jumps(mean, n - 1, phases, phases);
        if row.len() >= 4 {
            vstd::arithmetic::div_mod::lemma_fundamental_div_mod_converse(
                0,
                2 * (row.len() - 1),
                0,
                0,
            );
        }
    }
}

proof fn lemma_flat_jumps(mean: Seq<Option<i32>>, b: int, phases: int, n: int)
    requires
        0 <= n <= phases,
        forall|i: int, j: int|
            0 <= i < phases && 0 <= j < phases ==> #[trigger] mean[b * phases + i]
                == #[trigger] mean[b * phases + j],
    ensures
        jumps(present(mean, b * phases, n)) == 0,
        forall|k: int|
            0 <= k < present(mean, b * phases, n).len() ==> Some(
                #[trigger] present(mean, b * phases, n)[k],
            ) == level_int(mean[b * phases]),
    decreases n,
{
    if n > 0 {
        lemma_flat_jumps(mean, b, phases, n - 1);
        let before = present(mean, b * phases, n - 1);
        assert(mean[b * phases + (n - 1)] == mean[b * phases + 0]);
        match mean[b * phases + n - 1] {
            None => {},
            Some(v) => {
                let after = before.push(v as int);
                assert(after.drop_last() =~= before);
                if before.len() > 0 {
                    assert(Some(before[before.len() - 1]) == level_int(mean[b * phases]));
                    assert(after[after.len() - 2] == before[before.len() - 1]);
                    assert(0int * 0int == 0);
                }
            },
        }
    }
}

spec fn level_int(v: Option<i32>) -> Option<int> {
    match v {
        None => None,
        Some(x) => Some(x as int),
    }
}

proof fn lemma_row_folds(
    s: Seq<int>,
    plus: spec_fn(int, int) -> int,
    square: spec_fn(int, int) -> int,
)
    requires
        forall|a: int, b: int| #[trigger] plus(a, b) == a + b,
        forall|a: int, b: int| #[trigger] square(a, b) == a + b * b,
    ensures
        total(s) == s.fold_left(0int, plus),
        squares(s) == s.fold_left(0int, square),
    decreases s.len(),
{
    if s.len() > 0 {
        lemma_row_folds(s.drop_last(), plus, square);
    }
}

proof fn lemma_jumps_fold(s: Seq<int>, steps: Seq<int>, square: spec_fn(int, int) -> int)
    requires
        s.len() > 0,
        steps.len() == s.len() - 1,
        forall|i: int| 0 <= i < steps.len() ==> #[trigger] steps[i] == s[i + 1] - s[i],
        forall|a: int, b: int| #[trigger] square(a, b) == a + b * b,
    ensures
        jumps(s) == steps.fold_left(0int, square),
    decreases s.len(),
{
    if s.len() > 1 {
        let rest = s.drop_last();
        let before = steps.drop_last();
        assert forall|i: int| 0 <= i < before.len() implies #[trigger] before[i] == rest[i + 1]
            - rest[i] by {
            assert(steps[i] == before[i]);
        }
        lemma_jumps_fold(rest, before, square);
        assert(steps[steps.len() - 1] == s.last() - s[s.len() - 2]);
    }
}

/// The spread along phase is the variance of a row, and the noise left in it half the mean
/// squared step from one value to the next, both rounded down: noise alone makes the two alike.
pub proof fn law_spread_and_noise_of_a_row(s: Seq<int>, steps: Seq<int>)
    requires
        s.len() >= 2,
        steps.len() == s.len() - 1,
        forall|i: int| 0 <= i < steps.len() ==> #[trigger] steps[i] == s[i + 1] - s[i],
    ensures
        ({
            let n = s.len() as int;
            let sum = s.fold_left(0int, |a: int, b: int| a + b);
            let squared = s.fold_left(0int, |a: int, b: int| a + b * b);
            let stepped = steps.fold_left(0int, |a: int, b: int| a + b * b);
            &&& variance(s) * (n * n) <= n * squared - sum * sum < (variance(s) + 1) * (n * n)
            &&& noise(s) * (2 * (n - 1)) <= stepped < (noise(s) + 1) * (2 * (n - 1))
        }),
{
    let n = s.len() as int;
    let square = |a: int, b: int| a + b * b;
    lemma_row_folds(s, |a: int, b: int| a + b, square);
    lemma_jumps_fold(s, steps, square);
    assert(n * n > 0) by (nonlinear_arith)
        requires
            n > 0,
    ;
    lemma_rounds_down(n * squares(s) - total(s) * total(s), n * n);
    lemma_rounds_down(jumps(s), 2 * (n - 1));
}

proof fn lemma_rounds_down(x: int, y: int)
    requires
        y > 0,
    ensures
        (x / y) * y <= x < (x / y + 1) * y,
{
    vstd::arithmetic::div_mod::lemma_fundamental_div_mod(x, y);
    let q = x / y;
    assert(y * q == q * y && (q + 1) * y == q * y + y) by (nonlinear_arith);
}

/// Sharpness is how many times the spread along phase is the noise, over one: nothing where it
/// is no more, and otherwise that ratio less one, rounded down.
pub proof fn law_sharpness_is_spread_over_noise(mean: Seq<Option<i32>>, bands: int, phases: int)
    requires
        bands > 0,
        phases >= 4,
        within(mean, phases, bands) > 0,
    ensures
        ({
            let s = sharpness_of(mean, bands, phases);
            let b = between(mean, phases, bands);
            let w = within(mean, phases, bands);
            &&& s >= 0
            &&& b <= w ==> s == 0
            &&& 0 < s < u128::MAX ==> (s + ONE) * w <= b * ONE < (s + ONE + 1) * w
            &&& s == 0 ==> b * ONE < (ONE + 1) * w
        }),
{
    let b = between(mean, phases, bands);
    let w = within(mean, phases, bands);
    lemma_rounds_down(b * ONE, w);
    let q = b * ONE / w;
    if b <= w {
        assert(q <= 1_000_000) by (nonlinear_arith)
            requires
                q * w <= b * 1_000_000,
                b <= w,
                w > 0,
        ;
    }
    if q <= 1_000_000 {
        assert((q + 1) * w <= 1_000_001 * w) by (nonlinear_arith)
            requires
                q <= 1_000_000,
                w > 0,
        ;
    }
}

/// The picture of a fold runs from dark to bright: the lower end of its scale and below is black,
/// the upper end and above is white, and a louder level is never darker.
pub proof fn law_louder_is_never_darker(a: int, b: int, low: int, span: int)
    requires
        span > 0,
        a <= b,
    ensures
        0 <= shade(a, low, span) <= shade(b, low, span) <= 255,
        b <= low ==> shade(b, low, span) == 0,
        a >= low + span ==> shade(a, low, span) == 255,
{
    if low < a && a - low < span {
        assert(0 <= (a - low) * 255 / span <= 255) by (nonlinear_arith)
            requires
                0 < a - low < span,
        ;
    }
    if low < b && b - low < span {
        assert(0 <= (b - low) * 255 / span <= 255) by (nonlinear_arith)
            requires
                0 < b - low < span,
        ;
        if low < a {
            assert((a - low) * 255 / span <= (b - low) * 255 / span) by (nonlinear_arith)
                requires
                    a <= b,
                    span > 0,
            ;
        }
    }
}

/// The periods tried lie close enough: over the whole observation one step more or less shifts
/// the last cycle by a column at most, unless the steps are at their smallest, a twentieth of a
/// second; and none is longer than half of what was heard.
pub proof fn law_periods_are_tried_a_column_apart(
    frames: int,
    fps: int,
    max_period: int,
    phases: int,
)
    requires
        frames > 0,
        fps > 0,
        phases > 0,
        max_period >= 0,
        frames * SCALE >= fps,
    ensures
        ({
            let longest = longest_period(frames, fps, max_period);
            let heard = frames * SCALE / fps;
            let step = period_step(frames, fps, longest, phases);
            &&& 2 * longest <= heard
            &&& longest <= max_period
            &&& 2 * max_period <= heard ==> longest == max_period
            &&& step >= 50_000
            &&& step > 50_000 ==> step * phases * heard <= longest * longest
            &&& longest * longest < (step + 1) * phases * heard
        }),
{
    let longest = longest_period(frames, fps, max_period);
    let heard = frames * SCALE / fps;
    assert(heard > 0) by (nonlinear_arith)
        requires
            heard == frames * SCALE / fps,
            frames * SCALE >= fps,
            fps > 0,
    ;
    let a = longest * longest / heard;
    let f = a / phases;
    lemma_rounds_down(longest * longest, heard);
    lemma_rounds_down(a, phases);
    let step = period_step(frames, fps, longest, phases);
    assert(f <= step);
    assert(f * phases * heard <= a * heard) by (nonlinear_arith)
        requires
            f * phases <= a,
            heard > 0,
    ;
    assert((a + 1) * heard <= (f + 1) * phases * heard) by (nonlinear_arith)
        requires
            a + 1 <= (f + 1) * phases,
            heard > 0,
    ;
    assert((f + 1) * phases * heard <= (step + 1) * phases * heard) by (nonlinear_arith)
        requires
            f <= step,
            phases > 0,
            heard > 0,
    ;
}

/// One hot cell cannot set the scale of a picture: no more than one in a hundred of the levels
/// lies below its lower end, and more than ninety-eight in a hundred reach no further than its
/// upper end.
pub proof fn law_one_hot_cell_cannot_set_the_scale(f: &Folded)
    requires
        present(f.mean_db@, 0, f.mean_db.len() as int).len() > 0,
    ensures
        ({
            let all = present(f.mean_db@, 0, f.mean_db.len() as int);
            let (low, span) = f.scale();
            &&& 100 * all.filter(|x: int| x < low).len() <= all.len()
            &&& 100 * all.filter(|x: int| x <= low + span).len() >= 99 * all.len()
            &&& span >= 1_000
        }),
{
    let all = present(f.mean_db@, 0, f.mean_db.len() as int);
    let n = all.len() as int;
    let (low, span) = f.scale();
    let high = rank::ranked(all, n - 1 - n / 100);
    rank::law_a_rank_is_a_count(all, n / 100);
    rank::law_a_rank_is_a_count(all, n - 1 - n / 100);
    assert((|x: int| x < rank::ranked(all, n / 100)) =~= (|x: int| x < low));
    lemma_filter_grows(
        all,
        |x: int| x <= rank::ranked(all, n - 1 - n / 100),
        |x: int| x <= low + span,
    );
}

proof fn lemma_filter_grows(s: Seq<int>, p: spec_fn(int) -> bool, q: spec_fn(int) -> bool)
    requires
        forall|x: int| #[trigger] p(x) ==> q(x),
    ensures
        s.filter(p).len() <= s.filter(q).len(),
    decreases s.len(),
{
    reveal(Seq::filter);
    if s.len() > 0 {
        lemma_filter_grows(s.drop_last(), p, q);
    }
}

} // verus!
