//! Generic novelty detection in the time-frequency plane.
//!
//! There is no template here: the detector learns what the background looks like,
//! flags sustained departures from it, groups them into blobs, and scores them by how
//! structured they are.
use crate::analysis::background::{frames_in, BackgroundModel};
use crate::arith::{floor_div, ONE};
use crate::config::{Config, IgnoreBand};
use vstd::prelude::*;

verus! {

/// How a stream is cut into frames.
#[derive(Clone, Copy, Debug, PartialEq, Eq, Structural)]
pub struct FrameGeometry {
    pub sample_rate: u32,
    pub fft_size: usize,
    pub hop: usize,
}

impl FrameGeometry {
    pub open spec fn bin_count(&self) -> int {
        self.fft_size as int / 2 + 1
    }

    /// The frequency of a bin, in millionths of a hertz, rounded down.
    pub open spec fn hz_of(&self, bin: int) -> int {
        bin * self.sample_rate * ONE / (self.fft_size as int)
    }

    /// The bin lies below `hz` millionths of a hertz.
    pub open spec fn is_below(&self, bin: int, hz: int) -> bool {
        bin * self.sample_rate * ONE < hz * self.fft_size
    }

    /// The bin lies above `hz` millionths of a hertz.
    pub open spec fn is_above(&self, bin: int, hz: int) -> bool {
        bin * self.sample_rate * ONE > hz * self.fft_size
    }

    /// `seconds` millionths of a second in whole frames, to the nearest, never none.
    pub open spec fn frames_of(&self, seconds: int) -> int {
        let frames = (2 * (seconds * self.sample_rate) + self.hop * ONE) / (2 * (self.hop * ONE));
        if seconds <= 0 || frames < 1 {
            1
        } else if frames > usize::MAX {
            usize::MAX as int
        } else {
            frames
        }
    }

    pub fn bins(&self) -> (r: usize)
        ensures
            r == self.bin_count(),
    {
        self.fft_size / 2 + 1
    }

    /// The frequency of a bin, in millionths of a hertz.
    pub fn bin_hz(&self, bin: usize) -> (r: u64)
        requires
            self.fft_size > 0,
            self.hz_of(bin as int) <= u64::MAX,
        ensures
            r == self.hz_of(bin as int),
    {
        proof {
            assert(0 <= bin * self.sample_rate <= 0x1_0000_0000_0000_0000 * 0x1_0000_0000)
                by (nonlinear_arith)
                requires
                    0 <= bin <= 0x1_0000_0000_0000_0000,
                    0 <= self.sample_rate <= 0x1_0000_0000,
            ;
        }
        (bin as u128 * self.sample_rate as u128 * ONE as u128 / self.fft_size as u128) as u64
    }

    /// The time from one frame to the next, in millionths of a second, rounded down.
    pub fn frame_seconds(&self) -> (r: u128)
        requires
            self.sample_rate > 0,
        ensures
            r == self.hop * ONE / (self.sample_rate as int),
    {
        self.hop as u128 * ONE as u128 / self.sample_rate as u128
    }

    /// The highest frequency the stream can hold, in millionths of a hertz.
    pub fn nyquist_hz(&self) -> (r: u64)
        ensures
            r == self.sample_rate * ONE / 2,
    {
        self.sample_rate as u64 * ONE / 2
    }

    pub fn seconds_to_frames(&self, seconds: i64) -> (r: usize)
        requires
            self.hop > 0,
        ensures
            r == self.frames_of(seconds as int),
            r >= 1,
    {
        if seconds <= 0 {
            return 1;
        }
        proof {
            assert(0 <= seconds * self.sample_rate <= 0x8000_0000_0000_0000 * 0x1_0000_0000)
                by (nonlinear_arith)
                requires
                    0 <= seconds <= 0x8000_0000_0000_0000,
                    0 <= self.sample_rate <= 0x1_0000_0000,
            ;
        }
        let step: u128 = self.hop as u128 * ONE as u128;
        let frames: u128 = (2 * (seconds as u128 * self.sample_rate as u128) + step) / (2 * step);
        if frames < 1 {
            1
        } else if frames > usize::MAX as u128 {
            usize::MAX
        } else {
            frames as usize
        }
    }

    /// Whether a bin lies outside a band.
    pub fn is_outside(&self, bin: usize, low: i64, high: i64) -> (r: bool)
        ensures
            r == (self.is_below(bin as int, low as int) || self.is_above(bin as int, high as int)),
    {
        proof {
            let limit = 0x8000_0000_0000_0000int;
            let n = self.fft_size as int;
            assert(0 <= bin * self.sample_rate <= 0x1_0000_0000_0000_0000 * 0x1_0000_0000)
                by (nonlinear_arith)
                requires
                    0 <= bin <= 0x1_0000_0000_0000_0000,
                    0 <= self.sample_rate <= 0x1_0000_0000,
            ;
            assert(-(limit * (2 * limit)) <= low * n < limit * (2 * limit)) by (nonlinear_arith)
                requires
                    -limit <= low < limit,
                    0 <= n < 2 * limit,
                    limit > 0,
            ;
            assert(-(limit * (2 * limit)) <= high * n < limit * (2 * limit)) by (nonlinear_arith)
                requires
                    -limit <= high < limit,
                    0 <= n < 2 * limit,
                    limit > 0,
            ;
        }
        let base: i128 = bin as i128 * self.sample_rate as i128;
        let hz: i128 = base * 1_000_000;
        hz < low as i128 * self.fft_size as i128 || hz > high as i128 * self.fft_size as i128
    }
}

/// An event still going on.
#[derive(Clone, Copy, Debug, PartialEq, Eq, Structural)]
pub struct OpenEvent {
    pub start_frame: u64,
    pub last_active_frame: u64,
    pub low_bin: usize,
    pub high_bin: usize,
    pub first_peak_bin: usize,
    pub last_peak_bin: usize,
    pub peak_bin: usize,
    pub peak_excess: i64,
    pub excess_sum: i128,
    pub excess_count: u64,
    pub flatness_sum: u128,
    pub flatness_count: u64,
    pub active_frames: u64,
}

/// An event that is over. Times, frequencies, levels and ratios are in millionths.
#[derive(Clone, Copy, Debug, PartialEq, Eq, Structural)]
pub struct DetectionEvent {
    pub start_frame: u64,
    pub end_frame: u64,
    pub start_seconds: u128,
    pub duration_seconds: u128,
    pub low_hz: u64,
    pub high_hz: u64,
    pub peak_hz: u64,
    pub low_bin: usize,
    pub high_bin: usize,
    pub peak_excess_db: i64,
    pub mean_excess_db: i64,
    pub drift_hz: i64,
    pub mean_flatness: u64,
    pub score: u64,
}

impl DetectionEvent {
    pub open spec fn bandwidth(&self) -> int {
        self.high_hz - self.low_hz
    }

    pub fn bandwidth_hz(&self) -> (r: i128)
        ensures
            r == self.bandwidth(),
    {
        self.high_hz as i128 - self.low_hz as i128
    }
}

/// A share of a whole, in millionths, kept between none and all of it.
pub open spec fn share(part: int, whole: int) -> int {
    if part <= 0 {
        0
    } else if part >= whole {
        ONE as int
    } else {
        part * ONE / whole
    }
}

fn share_of(part: i128, whole: i128) -> (r: u64)
    requires
        0 < whole <= 0x100_0000_0000_0000_0000,
    ensures
        r == share(part as int, whole as int),
        r <= ONE,
{
    if part <= 0 {
        0
    } else if part >= whole {
        ONE
    } else {
        proof {
            assert(0 <= part * 1_000_000 / (whole as int) <= 1_000_000) by (nonlinear_arith)
                requires
                    0 < part < whole,
            ;
        }
        (part * 1_000_000 / whole) as u64
    }
}

/// How interesting an event is: mostly how far it stands out and how tonal it is, then
/// how long it lasts, then how narrow it is and how much it drifts.
pub open spec fn score_of(e: DetectionEvent, nyquist: int) -> int {
    let excess = share(e.peak_excess_db as int, 24 * ONE);
    let duration = share(e.duration_seconds as int, 10 * ONE);
    let tonality = ONE - share(e.mean_flatness as int, ONE as int);
    let narrowness = if nyquist > 0 {
        ONE - share(4 * e.bandwidth(), nyquist)
    } else {
        0
    };
    let drift = share(
        if e.drift_hz < 0 {
            -e.drift_hz as int
        } else {
            e.drift_hz as int
        },
        1_000 * ONE,
    );
    (35 * excess + 20 * duration + 25 * tonality + 10 * narrowness + 10 * drift) / 100
}

/// Score an event between nothing and one, in millionths.
pub fn score_event(event: &DetectionEvent, nyquist_hz: u64) -> (r: u64)
    ensures
        r == score_of(*event, nyquist_hz as int),
        r <= ONE,
{
    let excess: u64 = share_of(event.peak_excess_db as i128, 24_000_000);
    let length: i128 = if event.duration_seconds >= 10_000_000 {
        10_000_000
    } else {
        event.duration_seconds as i128
    };
    let duration: u64 = share_of(length, 10_000_000);
    let tonality: u64 = ONE - share_of(event.mean_flatness as i128, 1_000_000);
    let narrowness: u64 = if nyquist_hz > 0 {
        ONE - share_of(4 * event.bandwidth_hz(), nyquist_hz as i128)
    } else {
        0
    };
    let moved: i128 = if event.drift_hz < 0 {
        -(event.drift_hz as i128)
    } else {
        event.drift_hz as i128
    };
    let drift: u64 = share_of(moved, 1_000_000_000);
    (35 * excess + 20 * duration + 25 * tonality + 10 * narrowness + 10 * drift) / 100
}

/// The runs of hot bins among the first `n`: those that have ended, and where one that
/// has not began.
pub open spec fn runs_upto(hot: Seq<bool>, n: int) -> (Seq<(usize, usize)>, Option<usize>)
    decreases n,
{
    if n <= 0 {
        (Seq::empty(), None)
    } else {
        let (runs, start) = runs_upto(hot, n - 1);
        match start {
            None => if hot[n - 1] {
                (runs, Some((n - 1) as usize))
            } else {
                (runs, None)
            },
            Some(s) => if hot[n - 1] {
                (runs, Some(s))
            } else {
                (runs.push((s, (n - 1) as usize)), None)
            },
        }
    }
}

/// The maximal runs of hot bins, from low to high, each from its first bin up to but
/// not including the bin after its last.
pub open spec fn runs_of(hot: Seq<bool>) -> Seq<(usize, usize)> {
    let (runs, start) = runs_upto(hot, hot.len() as int);
    match start {
        None => runs,
        Some(s) => runs.push((s, hot.len() as usize)),
    }
}

/// How far an event may drift between frames, in bins.
pub const DRIFT_TOLERANCE_BINS: usize = 2;

/// A run, with the drift tolerance either side, meets an event.
pub open spec fn meets(e: OpenEvent, run: (usize, usize)) -> bool {
    &&& e.low_bin < run.1 + DRIFT_TOLERANCE_BINS
    &&& run.0 - DRIFT_TOLERANCE_BINS <= e.high_bin
}

/// Two events found to be one.
pub open spec fn joined(a: OpenEvent, b: OpenEvent) -> OpenEvent {
    OpenEvent {
        start_frame: if b.start_frame < a.start_frame {
            b.start_frame
        } else {
            a.start_frame
        },
        last_active_frame: if b.last_active_frame > a.last_active_frame {
            b.last_active_frame
        } else {
            a.last_active_frame
        },
        low_bin: if b.low_bin < a.low_bin {
            b.low_bin
        } else {
            a.low_bin
        },
        high_bin: if b.high_bin > a.high_bin {
            b.high_bin
        } else {
            a.high_bin
        },
        first_peak_bin: a.first_peak_bin,
        last_peak_bin: a.last_peak_bin,
        peak_bin: if b.peak_excess > a.peak_excess {
            b.peak_bin
        } else {
            a.peak_bin
        },
        peak_excess: if b.peak_excess > a.peak_excess {
            b.peak_excess
        } else {
            a.peak_excess
        },
        excess_sum: (a.excess_sum + b.excess_sum) as i128,
        excess_count: (a.excess_count + b.excess_count) as u64,
        flatness_sum: (a.flatness_sum + b.flatness_sum) as u128,
        flatness_count: (a.flatness_count + b.flatness_count) as u64,
        active_frames: if b.active_frames > a.active_frames {
            b.active_frames
        } else {
            a.active_frames
        },
    }
}

/// An event joined with every event of `others` that a run meets, the last of them
/// first.
pub open spec fn gathered(e: OpenEvent, others: Seq<OpenEvent>, run: (usize, usize)) -> OpenEvent
    decreases others.len(),
{
    if others.len() == 0 {
        e
    } else {
        let rest = gathered(e, others.drop_first(), run);
        if meets(others.first(), run) {
            joined(rest, others.first())
        } else {
            rest
        }
    }
}

/// The events of `others` that a run does not meet.
pub open spec fn unmet(others: Seq<OpenEvent>, run: (usize, usize)) -> Seq<OpenEvent>
    decreases others.len(),
{
    if others.len() == 0 {
        Seq::empty()
    } else {
        let rest = unmet(others.drop_first(), run);
        if meets(others.first(), run) {
            rest
        } else {
            seq![others.first()] + rest
        }
    }
}

/// The place of the first event from `i` on that a run meets.
pub open spec fn first_met(open: Seq<OpenEvent>, run: (usize, usize), i: int) -> int
    decreases open.len() - i,
{
    if i >= open.len() || meets(open[i], run) {
        i
    } else {
        first_met(open, run, i + 1)
    }
}

/// The first of the highest bins of a run.
pub open spec fn peak_of(excess: Seq<i64>, start: int, end: int) -> int
    decreases end - start,
{
    if end <= start + 1 {
        start
    } else {
        let before = peak_of(excess, start, end - 1);
        if excess[end - 1] > excess[before] {
            end - 1
        } else {
            before
        }
    }
}

pub open spec fn total_excess(excess: Seq<i64>, start: int, end: int) -> int
    decreases end - start,
{
    if end <= start {
        0
    } else {
        total_excess(excess, start, end - 1) + excess[end - 1]
    }
}

/// The mean excess of a run, rounded down.
pub open spec fn mean_of(excess: Seq<i64>, run: (usize, usize)) -> int {
    total_excess(excess, run.0 as int, run.1 as int) / (run.1 - run.0)
}

/// An event that a run starts, before the run itself is counted.
pub open spec fn started(frame: u64, run: (usize, usize), peak_bin: usize) -> OpenEvent {
    OpenEvent {
        start_frame: frame,
        last_active_frame: frame,
        low_bin: run.0,
        high_bin: run.1,
        first_peak_bin: peak_bin,
        last_peak_bin: peak_bin,
        peak_bin,
        peak_excess: i64::MIN,
        excess_sum: 0,
        excess_count: 0,
        flatness_sum: 0,
        flatness_count: 0,
        active_frames: 0,
    }
}

/// An event with one more run counted. A flatness of nothing is no evidence of
/// tonality, and is left out.
pub open spec fn extended(
    e: OpenEvent,
    frame: u64,
    run: (usize, usize),
    excess: Seq<i64>,
    flatness: u64,
) -> OpenEvent {
    let peak = peak_of(excess, run.0 as int, run.1 as int);
    let higher = excess[peak] > e.peak_excess;
    OpenEvent {
        low_bin: if run.0 < e.low_bin {
            run.0
        } else {
            e.low_bin
        },
        high_bin: if run.1 > e.high_bin {
            run.1
        } else {
            e.high_bin
        },
        last_peak_bin: peak as usize,
        peak_bin: if higher {
            peak as usize
        } else {
            e.peak_bin
        },
        peak_excess: if higher {
            excess[peak]
        } else {
            e.peak_excess
        },
        excess_sum: (e.excess_sum + mean_of(excess, run)) as i128,
        excess_count: (e.excess_count + 1) as u64,
        flatness_sum: if flatness > 0 {
            (e.flatness_sum + flatness) as u128
        } else {
            e.flatness_sum
        },
        flatness_count: if flatness > 0 {
            (e.flatness_count + 1) as u64
        } else {
            e.flatness_count
        },
        last_active_frame: frame,
        active_frames: if e.last_active_frame != frame {
            (e.active_frames + 1) as u64
        } else if e.active_frames == 0 {
            1
        } else {
            e.active_frames
        },
        start_frame: e.start_frame,
        first_peak_bin: e.first_peak_bin,
    }
}

/// The open events once a run is counted: to the first event that it meets, which all
/// the others that it meets are joined to, or to a new one.
pub open spec fn absorbed(
    open: Seq<OpenEvent>,
    frame: u64,
    run: (usize, usize),
    excess: Seq<i64>,
    flatness: u64,
) -> Seq<OpenEvent> {
    let at = first_met(open, run, 0);
    if at >= open.len() {
        let peak = peak_of(excess, run.0 as int, run.1 as int) as usize;
        open.push(extended(started(frame, run, peak), frame, run, excess, flatness))
    } else {
        let others = open.skip(at + 1);
        open.take(at).push(
            extended(gathered(open[at], others, run), frame, run, excess, flatness),
        ) + unmet(others, run)
    }
}

/// The open events once the first `n` runs of a frame are counted.
pub open spec fn absorbed_all(
    open: Seq<OpenEvent>,
    frame: u64,
    runs: Seq<(usize, usize)>,
    excess: Seq<i64>,
    flatness: Seq<u64>,
    n: int,
) -> Seq<OpenEvent>
    decreases n,
{
    if n <= 0 {
        open
    } else {
        absorbed(
            absorbed_all(open, frame, runs, excess, flatness, n - 1),
            frame,
            runs[n - 1],
            excess,
            flatness[n - 1],
        )
    }
}

/// How many runs the events have counted together.
pub open spec fn runs_counted(open: Seq<OpenEvent>) -> int
    decreases open.len(),
{
    if open.len() == 0 {
        0
    } else {
        open.first().excess_count + runs_counted(open.drop_first())
    }
}

/// The bounds that every open event keeps, for bins below `bins` and frames below
/// `frames`.
pub open spec fn event_ok(e: OpenEvent, bins: int, frames: int) -> bool {
    &&& e.low_bin < e.high_bin <= bins
    &&& e.first_peak_bin < bins
    &&& e.last_peak_bin < bins
    &&& e.peak_bin < bins
    &&& e.start_frame <= e.last_active_frame < frames
    &&& 1 <= e.active_frames <= e.last_active_frame - e.start_frame + 1
    &&& 1 <= e.excess_count
    &&& sums_ok(e)
}

pub open spec fn sums_ok(e: OpenEvent) -> bool {
    &&& e.flatness_count <= e.excess_count
    &&& -(e.excess_count * EXCESS_MAX) <= e.excess_sum <= e.excess_count * EXCESS_MAX
    &&& e.flatness_sum <= e.flatness_count * u64::MAX
    &&& -EXCESS_MAX <= e.peak_excess <= EXCESS_MAX || e.excess_count == 0
}

/// More than any excess.
pub const EXCESS_MAX: i64 = 0x1_0000_0000;

pub open spec fn events_ok(open: Seq<OpenEvent>, bins: int, frames: int) -> bool {
    forall|i: int| 0 <= i < open.len() ==> event_ok(#[trigger] open[i], bins, frames)
}

pub open spec fn excess_ok(excess: Seq<i64>) -> bool {
    forall|i: int| 0 <= i < excess.len() ==> -EXCESS_MAX <= #[trigger] excess[i] <= EXCESS_MAX
}

proof fn lemma_joined_ok(a: OpenEvent, b: OpenEvent, bins: int, frames: int)
    requires
        event_ok(a, bins, frames),
        event_ok(b, bins, frames),
        a.excess_count + b.excess_count <= u64::MAX,
    ensures
        event_ok(joined(a, b), bins, frames),
        joined(a, b).excess_count == a.excess_count + b.excess_count,
        i128::MIN <= a.excess_sum + b.excess_sum <= i128::MAX,
        a.flatness_sum + b.flatness_sum <= u128::MAX,
        a.flatness_count + b.flatness_count <= u64::MAX,
{
    let c = a.excess_count + b.excess_count;
    assert(a.excess_count * EXCESS_MAX + b.excess_count * EXCESS_MAX == c * EXCESS_MAX)
        by (nonlinear_arith)
        requires
            c == a.excess_count + b.excess_count,
    ;
    let f = a.flatness_count + b.flatness_count;
    assert(a.flatness_count * u64::MAX + b.flatness_count * u64::MAX == f * u64::MAX)
        by (nonlinear_arith)
        requires
            f == a.flatness_count + b.flatness_count,
    ;
    assert(f * u64::MAX <= u64::MAX * u64::MAX) by (nonlinear_arith)
        requires
            0 <= f <= u64::MAX,
    ;
    assert(u64::MAX * u64::MAX <= u128::MAX) by (nonlinear_arith);
}

/// Joining events loses no counted run.
proof fn lemma_gathered_ok(
    e: OpenEvent,
    others: Seq<OpenEvent>,
    run: (usize, usize),
    bins: int,
    frames: int,
)
    requires
        event_ok(e, bins, frames),
        events_ok(others, bins, frames),
        e.excess_count + runs_counted(others) <= u64::MAX,
    ensures
        event_ok(gathered(e, others, run), bins, frames),
        events_ok(unmet(others, run), bins, frames),
        gathered(e, others, run).excess_count + runs_counted(unmet(others, run)) == e.excess_count
            + runs_counted(others),
        0 <= runs_counted(unmet(others, run)),
    decreases others.len(),
{
    if others.len() > 0 {
        let first = others.first();
        let tail = others.drop_first();
        assert(event_ok(others[0], bins, frames));
        assert forall|i: int| 0 <= i < tail.len() implies event_ok(#[trigger] tail[i], bins, frames) by {
            assert(tail[i] == others[i + 1]);
        }
        lemma_gathered_ok(e, tail, run, bins, frames);
        let rest = gathered(e, tail, run);
        if meets(first, run) {
            lemma_joined_ok(rest, first, bins, frames);
        } else {
            let kept = unmet(tail, run);
            let all = seq![first] + kept;
            assert(all.drop_first() =~= kept);
            assert(all.first() == first);
            assert forall|i: int| 0 <= i < all.len() implies event_ok(#[trigger] all[i], bins, frames) by {
                if i > 0 {
                    assert(all[i] == kept[i - 1]);
                }
            }
        }
    }
}

proof fn lemma_runs_counted_split(open: Seq<OpenEvent>, at: int)
    requires
        0 <= at <= open.len(),
    ensures
        runs_counted(open) == runs_counted(open.take(at)) + runs_counted(open.skip(at)),
        0 <= runs_counted(open.take(at)),
        0 <= runs_counted(open.skip(at)),
    decreases open.len(),
{
    lemma_runs_counted_nonnegative(open.take(at));
    lemma_runs_counted_nonnegative(open.skip(at));
    if at == 0 {
        assert(open.take(0) =~= Seq::empty());
        assert(open.skip(0) =~= open);
    } else {
        let tail = open.drop_first();
        lemma_runs_counted_split(tail, at - 1);
        assert(open.take(at).drop_first() =~= tail.take(at - 1));
        assert(open.skip(at) =~= tail.skip(at - 1));
    }
}

proof fn lemma_runs_counted_nonnegative(open: Seq<OpenEvent>)
    ensures
        0 <= runs_counted(open),
    decreases open.len(),
{
    if open.len() > 0 {
        lemma_runs_counted_nonnegative(open.drop_first());
    }
}

proof fn lemma_peak_bounds(excess: Seq<i64>, start: int, end: int)
    requires
        start < end,
    ensures
        start <= peak_of(excess, start, end) < end,
    decreases end - start,
{
    if end > start + 1 {
        lemma_peak_bounds(excess, start, end - 1);
    }
}

proof fn lemma_total_bounds(excess: Seq<i64>, start: int, end: int)
    requires
        0 <= start <= end <= excess.len(),
        excess_ok(excess),
    ensures
        -((end - start) * EXCESS_MAX) <= total_excess(excess, start, end) <= (end - start)
            * EXCESS_MAX,
    decreases end - start,
{
    if start < end {
        lemma_total_bounds(excess, start, end - 1);
        assert((end - start) * EXCESS_MAX == (end - 1 - start) * EXCESS_MAX + EXCESS_MAX)
            by (nonlinear_arith);
        assert(-EXCESS_MAX <= excess[end - 1] <= EXCESS_MAX);
    }
}

proof fn lemma_mean_bounds(excess: Seq<i64>, run: (usize, usize))
    requires
        run.0 < run.1 <= excess.len(),
        excess_ok(excess),
    ensures
        -EXCESS_MAX <= mean_of(excess, run) <= EXCESS_MAX,
{
    lemma_total_bounds(excess, run.0 as int, run.1 as int);
    let n = run.1 - run.0;
    let t = total_excess(excess, run.0 as int, run.1 as int);
    assert(-EXCESS_MAX <= t / n <= EXCESS_MAX) by (nonlinear_arith)
        requires
            n > 0,
            -(n * EXCESS_MAX) <= t <= n * EXCESS_MAX,
    ;
}

proof fn lemma_extended_ok(
    e: OpenEvent,
    frame: u64,
    run: (usize, usize),
    excess: Seq<i64>,
    flatness: u64,
    frames: int,
)
    requires
        run.0 < run.1 <= excess.len(),
        excess_ok(excess),
        frame < frames,
        event_ok(e, excess.len() as int, frames) || e == started(
            frame,
            run,
            peak_of(excess, run.0 as int, run.1 as int) as usize,
        ),
        e.last_active_frame <= frame,
        e.excess_count < u64::MAX,
        frame < u64::MAX,
        excess.len() <= usize::MAX,
    ensures
        event_ok(extended(e, frame, run, excess, flatness), excess.len() as int, frames),
        extended(e, frame, run, excess, flatness).excess_count == e.excess_count + 1,
        i128::MIN <= e.excess_sum + mean_of(excess, run) <= i128::MAX,
        e.flatness_sum + flatness <= u128::MAX,
        e.flatness_count < u64::MAX,
        e.active_frames < u64::MAX || e.last_active_frame == frame,
{
    lemma_peak_bounds(excess, run.0 as int, run.1 as int);
    lemma_mean_bounds(excess, run);
    assert(sums_ok(e));
    let peak = peak_of(excess, run.0 as int, run.1 as int);
    assert(-EXCESS_MAX <= excess[peak] <= EXCESS_MAX);
    let c = e.excess_count + 1;
    assert(e.excess_count * EXCESS_MAX + EXCESS_MAX == c * EXCESS_MAX) by (nonlinear_arith)
        requires
            c == e.excess_count + 1,
    ;
    let f = e.flatness_count + 1;
    assert(e.flatness_count * u64::MAX + u64::MAX == f * u64::MAX) by (nonlinear_arith)
        requires
            f == e.flatness_count + 1,
    ;
    assert(f * u64::MAX <= u64::MAX * u64::MAX) by (nonlinear_arith)
        requires
            0 <= f <= u64::MAX,
    ;
    assert(u64::MAX * u64::MAX <= u128::MAX) by (nonlinear_arith);
}

fn is_met(e: &OpenEvent, run: (usize, usize)) -> (r: bool)
    ensures
        r == meets(*e, run),
{
    let lo: usize = run.0.saturating_sub(DRIFT_TOLERANCE_BINS);
    let near: bool = e.low_bin < DRIFT_TOLERANCE_BINS || e.low_bin - DRIFT_TOLERANCE_BINS < run.1;
    near && lo <= e.high_bin
}

fn join(a: &OpenEvent, b: &OpenEvent) -> (r: OpenEvent)
    requires
        a.excess_count + b.excess_count <= u64::MAX,
        i128::MIN <= a.excess_sum + b.excess_sum <= i128::MAX,
        a.flatness_sum + b.flatness_sum <= u128::MAX,
        a.flatness_count + b.flatness_count <= u64::MAX,
    ensures
        r == joined(*a, *b),
{
    let higher: bool = b.peak_excess > a.peak_excess;
    OpenEvent {
        start_frame: if b.start_frame < a.start_frame {
            b.start_frame
        } else {
            a.start_frame
        },
        last_active_frame: if b.last_active_frame > a.last_active_frame {
            b.last_active_frame
        } else {
            a.last_active_frame
        },
        low_bin: if b.low_bin < a.low_bin {
            b.low_bin
        } else {
            a.low_bin
        },
        high_bin: if b.high_bin > a.high_bin {
            b.high_bin
        } else {
            a.high_bin
        },
        first_peak_bin: a.first_peak_bin,
        last_peak_bin: a.last_peak_bin,
        peak_bin: if higher {
            b.peak_bin
        } else {
            a.peak_bin
        },
        peak_excess: if higher {
            b.peak_excess
        } else {
            a.peak_excess
        },
        excess_sum: a.excess_sum + b.excess_sum,
        excess_count: a.excess_count + b.excess_count,
        flatness_sum: a.flatness_sum + b.flatness_sum,
        flatness_count: a.flatness_count + b.flatness_count,
        active_frames: if b.active_frames > a.active_frames {
            b.active_frames
        } else {
            a.active_frames
        },
    }
}

/// Count a run to the open events.
fn absorb_run(
    open: &mut Vec<OpenEvent>,
    frame: u64,
    run: (usize, usize),
    excess: &Vec<i64>,
    flatness: u64,
)
    requires
        run.0 < run.1 <= excess.len(),
        excess_ok(excess@),
        frame < u64::MAX,
        events_ok(old(open)@, excess.len() as int, frame + 1),
        runs_counted(old(open)@) < u64::MAX,
    ensures
        final(open)@ == absorbed(old(open)@, frame, run, excess@, flatness),
        events_ok(final(open)@, excess.len() as int, frame + 1),
        runs_counted(final(open)@) == runs_counted(old(open)@) + 1,
{
    let ghost orig = open@;
    let ghost bins = excess.len() as int;
    let mut at: usize = 0;
    while at < open.len() && !is_met(&open[at], run)
        invariant
            at <= open.len(),
            open@ == orig,
            first_met(orig, run, 0) == first_met(orig, run, at as int),
        decreases open.len() - at,
    {
        at = at + 1;
    }
    assert(at == first_met(orig, run, 0));
    let mut peak: usize = run.0;
    let mut total: i128 = excess[run.0] as i128;
    let mut b: usize = run.0 + 1;
    proof {
        reveal_with_fuel(total_excess, 2);
    }
    while b < run.1
        invariant
            run.0 < b <= run.1 <= excess.len(),
            excess_ok(excess@),
            run.0 <= peak < b,
            peak == peak_of(excess@, run.0 as int, b as int),
            total == total_excess(excess@, run.0 as int, b as int),
        decreases run.1 - b,
    {
        proof {
            lemma_total_bounds(excess@, run.0 as int, b as int);
            assert((b - run.0) * EXCESS_MAX <= 0x1_0000_0000_0000_0000 * EXCESS_MAX)
                by (nonlinear_arith)
                requires
                    0 <= b - run.0 <= 0x1_0000_0000_0000_0000,
            ;
        }
        if excess[b] > excess[peak] {
            peak = b;
        }
        total = total + excess[b] as i128;
        b = b + 1;
    }
    proof {
        lemma_total_bounds(excess@, run.0 as int, run.1 as int);
        assert((run.1 - run.0) * EXCESS_MAX <= 0x1_0000_0000_0000_0000 * EXCESS_MAX)
            by (nonlinear_arith)
            requires
                0 <= run.1 - run.0 <= 0x1_0000_0000_0000_0000,
        ;
        lemma_mean_bounds(excess@, run);
    }
    let mean: i128 = floor_div(total, (run.1 - run.0) as i128);
    if at == open.len() {
        let first = OpenEvent {
            start_frame: frame,
            last_active_frame: frame,
            low_bin: run.0,
            high_bin: run.1,
            first_peak_bin: peak,
            last_peak_bin: peak,
            peak_bin: peak,
            peak_excess: i64::MIN,
            excess_sum: 0,
            excess_count: 0,
            flatness_sum: 0,
            flatness_count: 0,
            active_frames: 0,
        };
        proof {
            lemma_extended_ok(first, frame, run, excess@, flatness, frame + 1);
        }
        let e = extend(&first, frame, run, peak, excess[peak], mean, flatness, Ghost(excess@));
        open.push(e);
        proof {
            lemma_runs_counted_split(open@, orig.len() as int);
            assert(open@.take(orig.len() as int) =~= orig);
            assert(open@.skip(orig.len() as int) =~= seq![e]);
            assert(seq![e].drop_first() =~= Seq::empty());
            assert(runs_counted(seq![e]) == 1) by {
                reveal_with_fuel(runs_counted, 2);
            }
        }
        return;
    }
    let mut e: OpenEvent = open[at];
    let mut k: usize = open.len();
    proof {
        assert(event_ok(orig[at as int], bins, frame + 1));
        lemma_runs_counted_split(orig, at as int);
        assert(orig.skip(at as int).drop_first() =~= orig.skip(at + 1));
        assert(orig.skip(at as int).first() == orig[at as int]);
        assert(orig.skip(k as int) =~= Seq::empty());
        assert(orig.take(k as int) + Seq::<OpenEvent>::empty() =~= orig);
    }
    while k > at + 1
        invariant
            frame < u64::MAX,
            bins == excess.len(),
            events_ok(orig, bins, frame + 1),
            runs_counted(orig) < u64::MAX,
            at < orig.len(),
            event_ok(orig[at as int], bins, frame + 1),
            orig[at as int].excess_count + runs_counted(orig.skip(at + 1)) <= runs_counted(orig),
            at + 1 <= k <= orig.len(),
            open@ == orig.take(k as int) + unmet(orig.skip(k as int), run),
            e == gathered(orig[at as int], orig.skip(k as int), run),
        decreases k,
    {
        let ghost x = orig[k - 1];
        proof {
            let here = orig.skip(k - 1);
            assert(here.drop_first() =~= orig.skip(k as int));
            assert(here.first() == x);
            lemma_runs_counted_split(orig.skip(at + 1), k - 1 - (at + 1));
            assert(orig.skip(at + 1).skip(k - 1 - (at + 1)) =~= here);
            assert forall|i: int| 0 <= i < here.drop_first().len() implies event_ok(
                #[trigger] here.drop_first()[i],
                bins,
                frame + 1,
            ) by {
                assert(here.drop_first()[i] == orig[i + k]);
            }
            lemma_runs_counted_nonnegative(here.drop_first());
            lemma_gathered_ok(orig[at as int], here.drop_first(), run, bins, frame + 1);
            assert(event_ok(orig[k - 1], bins, frame + 1));
            lemma_joined_ok(e, x, bins, frame + 1);
            assert(open@[k - 1] == x);
        }
        if is_met(&open[k - 1], run) {
            let other = open.remove(k - 1);
            e = join(&e, &other);
            assert(open@ =~= orig.take(k - 1) + unmet(orig.skip(k - 1), run));
        } else {
            assert(open@ =~= orig.take(k - 1) + unmet(orig.skip(k - 1), run));
        }
        k = k - 1;
    }
    proof {
        let others = orig.skip(at + 1);
        assert forall|i: int| 0 <= i < others.len() implies event_ok(
            #[trigger] others[i],
            bins,
            frame + 1,
        ) by {
            assert(others[i] == orig[i + at + 1]);
        }
        lemma_gathered_ok(orig[at as int], others, run, bins, frame + 1);
        lemma_runs_counted_nonnegative(unmet(others, run));
        lemma_extended_ok(e, frame, run, excess@, flatness, frame + 1);
    }
    let e2 = extend(&e, frame, run, peak, excess[peak], mean, flatness, Ghost(excess@));
    open.set(at, e2);
    proof {
        let others = orig.skip(at + 1);
        let left = orig.take(at as int);
        let right = unmet(others, run);
        assert(open@ =~= left.push(e2) + right);
        lemma_runs_counted_split(open@, at as int);
        assert(open@.take(at as int) =~= left);
        assert(open@.skip(at as int).drop_first() =~= right);
        assert(open@.skip(at as int).first() == e2);
        assert forall|i: int| 0 <= i < open@.len() implies event_ok(#[trigger] open@[i], bins, frame + 1) by {
            if i < at {
                assert(open@[i] == orig[i]);
            } else if i > at {
                assert(open@[i] == right[i - at - 1]);
            }
        }
    }
}

/// Count a run to one event; `peak` is its highest bin, `high` the excess there and
/// `mean` its mean excess.
fn extend(
    e: &OpenEvent,
    frame: u64,
    run: (usize, usize),
    peak: usize,
    high: i64,
    mean: i128,
    flatness: u64,
    Ghost(excess): Ghost<Seq<i64>>,
) -> (r: OpenEvent)
    requires
        run.0 < run.1 <= excess.len(),
        peak == peak_of(excess, run.0 as int, run.1 as int),
        high == excess[peak as int],
        mean == mean_of(excess, run),
        e.excess_count < u64::MAX,
        i128::MIN <= e.excess_sum + mean <= i128::MAX,
        e.flatness_sum + flatness <= u128::MAX,
        e.flatness_count < u64::MAX,
        e.active_frames < u64::MAX || e.last_active_frame == frame,
    ensures
        r == extended(*e, frame, run, excess, flatness),
{
    let higher: bool = high > e.peak_excess;
    OpenEvent {
        low_bin: if run.0 < e.low_bin {
            run.0
        } else {
            e.low_bin
        },
        high_bin: if run.1 > e.high_bin {
            run.1
        } else {
            e.high_bin
        },
        last_peak_bin: peak,
        peak_bin: if higher {
            peak
        } else {
            e.peak_bin
        },
        peak_excess: if higher {
            high
        } else {
            e.peak_excess
        },
        excess_sum: e.excess_sum + mean,
        excess_count: e.excess_count + 1,
        flatness_sum: if flatness > 0 {
            e.flatness_sum + flatness as u128
        } else {
            e.flatness_sum
        },
        flatness_count: if flatness > 0 {
            e.flatness_count + 1
        } else {
            e.flatness_count
        },
        last_active_frame: frame,
        active_frames: if e.last_active_frame != frame {
            e.active_frames + 1
        } else if e.active_frames == 0 {
            1
        } else {
            e.active_frames
        },
        start_frame: e.start_frame,
        first_peak_bin: e.first_peak_bin,
    }
}

/// The event `e` has been quiet for longer than `gap` frames.
pub open spec fn is_stale(e: OpenEvent, frame: u64, gap: usize) -> bool {
    frame - e.last_active_frame > gap
}

/// The events that go on after a frame.
pub open spec fn lasting(open: Seq<OpenEvent>, frame: u64, gap: usize) -> Seq<OpenEvent>
    decreases open.len(),
{
    if open.len() == 0 {
        Seq::empty()
    } else {
        let rest = lasting(open.drop_last(), frame, gap);
        if is_stale(open.last(), frame, gap) {
            rest
        } else {
            rest.push(open.last())
        }
    }
}

/// What an event amounts to once it is over.
pub open spec fn finished(e: OpenEvent, g: FrameGeometry) -> DetectionEvent {
    let plain = DetectionEvent {
        start_frame: e.start_frame,
        end_frame: e.last_active_frame,
        start_seconds: (e.start_frame * g.hop * ONE / (g.sample_rate as int)) as u128,
        duration_seconds: (e.active_frames * g.hop * ONE / (g.sample_rate as int)) as u128,
        low_hz: g.hz_of(e.low_bin as int) as u64,
        high_hz: g.hz_of(e.high_bin as int) as u64,
        peak_hz: g.hz_of(e.peak_bin as int) as u64,
        low_bin: e.low_bin,
        high_bin: e.high_bin,
        peak_excess_db: e.peak_excess,
        mean_excess_db: (e.excess_sum as int / e.excess_count as int) as i64,
        drift_hz: (g.hz_of(e.last_peak_bin as int) - g.hz_of(e.first_peak_bin as int)) as i64,
        // Without evidence of tonality, the least interesting case.
        mean_flatness: if e.flatness_count > 0 {
            (e.flatness_sum as int / e.flatness_count as int) as u64
        } else {
            ONE
        },
        score: 0,
    };
    DetectionEvent { score: score_of(plain, g.sample_rate * ONE / 2) as u64, ..plain }
}

/// The reports on the events that a frame ends, in order: events shorter than
/// `min_frames` go unreported.
pub open spec fn ended(
    open: Seq<OpenEvent>,
    frame: u64,
    gap: usize,
    min_frames: usize,
    g: FrameGeometry,
) -> Seq<DetectionEvent>
    decreases open.len(),
{
    if open.len() == 0 {
        Seq::empty()
    } else {
        let rest = ended(open.drop_last(), frame, gap, min_frames, g);
        let e = open.last();
        if is_stale(e, frame, gap) && e.active_frames >= min_frames {
            rest.push(finished(e, g))
        } else {
            rest
        }
    }
}

/// The reports on all the events that have lasted long enough.
pub open spec fn flushed(open: Seq<OpenEvent>, min_frames: usize, g: FrameGeometry) -> Seq<
    DetectionEvent,
>
    decreases open.len(),
{
    if open.len() == 0 {
        Seq::empty()
    } else {
        let rest = flushed(open.drop_last(), min_frames, g);
        if open.last().active_frames >= min_frames {
            rest.push(finished(open.last(), g))
        } else {
            rest
        }
    }
}

proof fn lemma_hz_bound(g: FrameGeometry, bin: int)
    requires
        g.fft_size > 0,
        0 <= bin <= g.bin_count(),
    ensures
        0 <= g.hz_of(bin) <= 0x20_0000_0000_0000,
{
    let top = bin * g.sample_rate * ONE;
    assert(0 <= bin * g.sample_rate <= 2 * g.fft_size * 0x1_0000_0000) by (nonlinear_arith)
        requires
            0 <= bin <= 2 * g.fft_size,
            0 <= g.sample_rate <= 0x1_0000_0000,
    ;
    assert(0 <= top / (g.fft_size as int) <= 0x20_0000_0000_0000) by (nonlinear_arith)
        requires
            0 <= top <= g.fft_size * 0x20_0000_0000_0000,
            g.fft_size > 0,
    ;
}

/// Report on an event that is over.
fn finish(e: &OpenEvent, g: FrameGeometry) -> (r: DetectionEvent)
    requires
        g.fft_size > 0,
        g.sample_rate > 0,
        event_ok(*e, g.bin_count(), u64::MAX as int),
        e.start_frame * g.hop <= u64::MAX,
        e.active_frames * g.hop <= u64::MAX,
    ensures
        r == finished(*e, g),
{
    proof {
        lemma_hz_bound(g, e.low_bin as int);
        lemma_hz_bound(g, e.high_bin as int);
        lemma_hz_bound(g, e.peak_bin as int);
        lemma_hz_bound(g, e.last_peak_bin as int);
        lemma_hz_bound(g, e.first_peak_bin as int);
        let s = e.excess_sum as int;
        let c = e.excess_count as int;
        assert(-EXCESS_MAX <= s / c <= EXCESS_MAX) by (nonlinear_arith)
            requires
                c > 0,
                -(c * EXCESS_MAX) <= s <= c * EXCESS_MAX,
        ;
        assert(c * EXCESS_MAX <= 0x1_0000_0000_0000_0000 * EXCESS_MAX) by (nonlinear_arith)
            requires
                0 <= c <= 0x1_0000_0000_0000_0000,
        ;
        if e.flatness_count > 0 {
            let f = e.flatness_sum as int;
            let d = e.flatness_count as int;
            assert(f / d <= u64::MAX) by (nonlinear_arith)
                requires
                    d > 0,
                    0 <= f <= d * u64::MAX,
            ;
        }
    }
    let mean_excess_db: i64 = floor_div(e.excess_sum, e.excess_count as i128) as i64;
    let mean_flatness: u64 = if e.flatness_count > 0 {
        (e.flatness_sum / e.flatness_count as u128) as u64
    } else {
        ONE
    };
    let mut event = DetectionEvent {
        start_frame: e.start_frame,
        end_frame: e.last_active_frame,
        start_seconds: frame_time(e.start_frame, g),
        duration_seconds: frame_time(e.active_frames, g),
        low_hz: g.bin_hz(e.low_bin),
        high_hz: g.bin_hz(e.high_bin),
        peak_hz: g.bin_hz(e.peak_bin),
        low_bin: e.low_bin,
        high_bin: e.high_bin,
        peak_excess_db: e.peak_excess,
        mean_excess_db,
        drift_hz: g.bin_hz(e.last_peak_bin) as i64 - g.bin_hz(e.first_peak_bin) as i64,
        mean_flatness,
        score: 0,
    };
    let score: u64 = score_event(&event, g.nyquist_hz());
    event.score = score;
    event
}

/// The time `frames` frames take, in millionths of a second.
fn frame_time(frames: u64, g: FrameGeometry) -> (r: u128)
    requires
        g.sample_rate > 0,
        frames * g.hop <= u64::MAX,
    ensures
        r == frames * g.hop * ONE / (g.sample_rate as int),
{
    let samples: u128 = frames as u128 * g.hop as u128;
    samples * ONE as u128 / g.sample_rate as u128
}

proof fn lemma_runs_bounds(hot: Seq<bool>, n: int)
    requires
        0 <= n <= hot.len() <= usize::MAX,
    ensures
        ({
            let (runs, start) = runs_upto(hot, n);
            &&& forall|k: int| 0 <= k < runs.len() ==> (#[trigger] runs[k]).0 < runs[k].1 <= n
            &&& start matches Some(s) ==> s < n
            &&& runs.len() + (if start is Some {
                1int
            } else {
                0
            }) <= n
        }),
    decreases n,
{
    if n > 0 {
        lemma_runs_bounds(hot, n - 1);
    }
}

pub struct NoveltyDetector {
    geometry: FrameGeometry,
    background: BackgroundModel,
    threshold_db: i64,
    noise_sigmas: i64,
    min_frames: usize,
    gap_frames: usize,
    ignored: Vec<bool>,
    detect_min_hz: i64,
    detect_max_hz: i64,
    open: Vec<OpenEvent>,
    frame_index: u64,
    excess: Vec<i64>,
}

/// What a detector is set to.
pub struct NoveltySettings {
    pub geometry: FrameGeometry,
    pub threshold_db: i64,
    pub noise_sigmas: i64,
    pub min_frames: usize,
    pub gap_frames: usize,
    pub detect_min_hz: i64,
    pub detect_max_hz: i64,
}

impl NoveltyDetector {
    pub closed spec fn settings(&self) -> NoveltySettings {
        NoveltySettings {
            geometry: self.geometry,
            threshold_db: self.threshold_db,
            noise_sigmas: self.noise_sigmas,
            min_frames: self.min_frames,
            gap_frames: self.gap_frames,
            detect_min_hz: self.detect_min_hz,
            detect_max_hz: self.detect_max_hz,
        }
    }

    pub closed spec fn model(&self) -> BackgroundModel {
        self.background
    }

    /// The bins that are left alone.
    pub closed spec fn ignored(&self) -> Seq<bool> {
        self.ignored@
    }

    /// The events going on.
    pub closed spec fn open(&self) -> Seq<OpenEvent> {
        self.open@
    }

    /// How many frames have been heard.
    pub closed spec fn frame(&self) -> int {
        self.frame_index as int
    }

    /// How far each bin of the last frame stood above its background.
    pub closed spec fn excess(&self) -> Seq<i64> {
        self.excess@
    }

    pub closed spec fn wf(&self) -> bool {
        let bins = self.geometry.bin_count();
        &&& self.geometry.fft_size > 0
        &&& self.geometry.hop > 0
        &&& self.geometry.sample_rate > 0
        &&& self.background.wf()
        &&& self.background.bins() == bins
        &&& self.background.spreads().len() == bins
        &&& self.ignored.len() == bins
        &&& self.excess.len() == bins
        &&& excess_ok(self.excess@)
        &&& self.noise_sigmas >= 0
        &&& events_ok(self.open@, bins, self.frame_index as int)
        &&& runs_counted(self.open@) <= self.frame_index * bins
        &&& self.frame_index * bins <= u64::MAX
        &&& self.frame_index * self.geometry.hop <= u64::MAX
    }

    /// What holds of every detector.
    pub proof fn lemma_shape(&self)
        requires
            self.wf(),
        ensures
            self.excess().len() == self.settings().geometry.bin_count(),
            self.ignored().len() == self.settings().geometry.bin_count(),
            self.model().bins() == self.settings().geometry.bin_count(),
            0 <= self.frame() <= u64::MAX,
            self.frame() * self.settings().geometry.hop <= u64::MAX,
            events_ok(self.open(), self.settings().geometry.bin_count(), self.frame()),
    {
    }

    /// Another frame still fits: neither its samples nor its bins, counted from the
    /// first frame on, leave the range of a `u64`.
    pub open spec fn has_room(&self) -> bool {
        &&& (self.frame() + 1) * self.settings().geometry.bin_count() <= u64::MAX
        &&& (self.frame() + 1) * self.settings().geometry.hop <= u64::MAX
    }

    /// The bar a bin has to clear is the configured level, or a few times its own
    /// scatter, whichever is higher. Noise in decibels is wide, and how wide it is
    /// differs from band to band, so a single fixed number cannot serve both a quiet bin
    /// and a busy one.
    ///
    /// The scatter is the range between the bin's quartiles over 1.349, which for normal
    /// noise is its standard deviation.
    pub open spec fn is_hot(&self, bin: int) -> bool {
        &&& !self.ignored()[bin]
        &&& self.excess()[bin] >= self.settings().threshold_db
        &&& self.excess()[bin] * 1_349 >= self.settings().noise_sigmas
            * self.model().spreads()[bin] * 500
    }

    pub open spec fn hot_bins(&self) -> Seq<bool> {
        Seq::new(
            self.settings().geometry.bin_count() as nat,
            |bin: int| self.is_hot(bin),
        )
    }

    /// A bin is ignored where it lies outside the band that the detector is told to
    /// watch, or inside one of `bands`.
    pub open spec fn is_ignored_by(&self, bin: int, bands: Seq<IgnoreBand>) -> bool {
        let s = self.settings();
        s.geometry.is_below(bin, s.detect_min_hz as int) || s.geometry.is_above(
            bin,
            s.detect_max_hz as int,
        ) || exists|k: int|
            0 <= k < bands.len() && !s.geometry.is_below(
                bin,
                (#[trigger] bands[k]).low_hz as int,
            ) && !s.geometry.is_above(bin, bands[k].high_hz as int)
    }

    pub open spec fn ignores(&self, bands: Seq<IgnoreBand>) -> bool {
        forall|bin: int|
            0 <= bin < self.ignored().len() ==> #[trigger] self.ignored()[bin]
                == self.is_ignored_by(bin, bands)
    }

    /// This is the detector `before` once it has heard a frame, and `r` the reports on the
    /// events that the frame ended. While the background is still being learned nothing is
    /// counted or ended.
    pub open spec fn follows<F: Fn(usize, usize) -> u64>(
        &self,
        before: &Self,
        frame_db: Seq<Option<i32>>,
        flatness: F,
        r: Seq<DetectionEvent>,
    ) -> bool {
        &&& self.settings() == before.settings()
        &&& self.ignored() == before.ignored()
        &&& self.frame() == before.frame() + 1
        &&& self.model().follows(&before.model(), frame_db)
        &&& self.model().is_excess(&before.model(), frame_db, self.excess())
        &&& self.model().seen() < self.model().warmup() ==> self.open() == before.open() && r
            == Seq::<DetectionEvent>::empty()
        &&& self.model().seen() >= self.model().warmup() ==> exists|flat: Seq<u64>|
            #![trigger answers(flatness, runs_of(self.hot_bins()), flat)]
            {
                let frame = before.frame() as u64;
                let s = before.settings();
                let runs = runs_of(self.hot_bins());
                let all = absorbed_all(
                    before.open(),
                    frame,
                    runs,
                    self.excess(),
                    flat,
                    runs.len() as int,
                );
                &&& answers(flatness, runs, flat)
                &&& self.open() == lasting(all, frame, s.gap_frames)
                &&& r == ended(all, frame, s.gap_frames, s.min_frames, s.geometry)
            }
    }

    /// A detector that has heard nothing yet, set as a configuration says.
    pub open spec fn is_fresh(
        &self,
        geometry: FrameGeometry,
        cfg: Config,
        noise_sigmas: i64,
    ) -> bool {
        &&& self.settings() == (NoveltySettings {
            geometry,
            threshold_db: cfg.novelty_threshold_db,
            noise_sigmas: if noise_sigmas > 0 {
                noise_sigmas
            } else {
                0
            },
            min_frames: geometry.frames_of(cfg.min_event_seconds as int) as usize,
            gap_frames: geometry.frames_of(cfg.event_gap_tolerance_seconds as int) as usize,
            detect_min_hz: cfg.detect_min_hz,
            detect_max_hz: cfg.detect_max_hz,
        })
        &&& self.ignores(cfg.ignore_bands@)
        &&& self.open() == Seq::<OpenEvent>::empty()
        &&& self.frame() == 0
        &&& self.excess() == Seq::new(geometry.bin_count() as nat, |i: int| 0i64)
        &&& self.model().is_fresh(
            geometry.bin_count(),
            geometry.hop as int,
            geometry.sample_rate as int,
            cfg.background_time_constant_seconds as int,
        )
    }

    /// A detector for frames of a geometry, with `noise_sigmas` the number of times its
    /// own scatter that a bin has to clear.
    pub fn new(geometry: FrameGeometry, cfg: &Config, noise_sigmas: i64) -> (r: Self)
        requires
            geometry.fft_size > 0,
            geometry.hop > 0,
            geometry.sample_rate > 0,
            cfg.background_time_constant_seconds > 0,
            frames_in(
                4 * cfg.background_time_constant_seconds,
                geometry.hop as int,
                geometry.sample_rate as int,
            ) < usize::MAX,
        ensures
            r.wf(),
            r.is_fresh(geometry, *cfg, noise_sigmas),
    {
        let bins: usize = geometry.bins();
        let mut r = NoveltyDetector {
            geometry,
            background: BackgroundModel::new(
                bins,
                geometry.hop,
                geometry.sample_rate,
                cfg.background_time_constant_seconds as u64,
            ),
            threshold_db: cfg.novelty_threshold_db,
            noise_sigmas: if noise_sigmas > 0 {
                noise_sigmas
            } else {
                0
            },
            min_frames: geometry.seconds_to_frames(cfg.min_event_seconds),
            gap_frames: geometry.seconds_to_frames(cfg.event_gap_tolerance_seconds),
            ignored: vec![false; bins],
            detect_min_hz: cfg.detect_min_hz,
            detect_max_hz: cfg.detect_max_hz,
            open: Vec::new(),
            frame_index: 0,
            excess: vec![0i64; bins],
        };
        proof {
            assert(0 * r.geometry.bin_count() == 0);
            assert(0 * r.geometry.hop == 0);
        }
        r.set_ignore_bands(&cfg.ignore_bands);
        assert(r.excess() =~= Seq::new(geometry.bin_count() as nat, |i: int| 0i64));
        r
    }

    pub fn geometry(&self) -> (r: FrameGeometry)
        ensures
            r == self.settings().geometry,
    {
        self.geometry
    }

    pub fn background(&self) -> (r: &BackgroundModel)
        ensures
            *r == self.model(),
            self.wf() ==> r.wf(),
    {
        &self.background
    }

    pub fn excess_db(&self) -> (r: &Vec<i64>)
        ensures
            r@ == self.excess(),
    {
        &self.excess
    }

    pub fn open_event_count(&self) -> (r: usize)
        ensures
            r == self.open().len(),
    {
        self.open.len()
    }

    /// The band that the open events cover between them.
    pub fn open_event_band(&self) -> (r: Option<(u64, u64)>)
        requires
            self.wf(),
        ensures
            match r {
                None => self.open().len() == 0 || self.settings().geometry.hz_of(
                    highest_bin(self.open()),
                ) <= self.settings().geometry.hz_of(lowest_bin(self.open())),
                Some((low, high)) => {
                    &&& self.open().len() > 0
                    &&& low == self.settings().geometry.hz_of(lowest_bin(self.open()))
                    &&& high == self.settings().geometry.hz_of(highest_bin(self.open()))
                    &&& low < high
                },
            },
    {
        if self.open.len() == 0 {
            return None;
        }
        let mut low: usize = self.open[0].low_bin;
        let mut high: usize = self.open[0].high_bin;
        let mut i: usize = 1;
        proof {
            assert(event_ok(self.open[0], self.geometry.bin_count(), self.frame_index as int));
            assert(self.open@.take(1).drop_last() =~= Seq::empty());
            assert(self.open@.take(1).last() == self.open[0]);
        }
        while i < self.open.len()
            invariant
                self.wf(),
                1 <= i <= self.open.len(),
                low == lowest_bin(self.open@.take(i as int)),
                high == highest_bin(self.open@.take(i as int)),
                low <= self.geometry.bin_count(),
                high <= self.geometry.bin_count(),
            decreases self.open.len() - i,
        {
            proof {
                assert(event_ok(
                    self.open[i as int],
                    self.geometry.bin_count(),
                    self.frame_index as int,
                ));
                assert(self.open@.take(i + 1).drop_last() =~= self.open@.take(i as int));
                assert(self.open@.take(i + 1).last() == self.open[i as int]);
            }
            if self.open[i].low_bin < low {
                low = self.open[i].low_bin;
            }
            if self.open[i].high_bin > high {
                high = self.open[i].high_bin;
            }
            i = i + 1;
        }
        proof {
            assert(self.open@.take(self.open.len() as int) =~= self.open@);
            lemma_hz_bound(self.geometry, low as int);
            lemma_hz_bound(self.geometry, high as int);
        }
        let low_hz: u64 = self.geometry.bin_hz(low);
        let high_hz: u64 = self.geometry.bin_hz(high);
        if high_hz > low_hz {
            Some((low_hz, high_hz))
        } else {
            None
        }
    }

    /// Leave these bands alone from now on, and no others.
    pub fn set_ignore_bands(&mut self, bands: &Vec<IgnoreBand>)
        requires
            old(self).wf(),
        ensures
            final(self).wf(),
            final(self).settings() == old(self).settings(),
            final(self).model() == old(self).model(),
            final(self).open() == old(self).open(),
            final(self).frame() == old(self).frame(),
            final(self).excess() == old(self).excess(),
            final(self).ignored().len() == old(self).ignored().len(),
            final(self).ignores(bands@),
    {
        let mut ignored: Vec<bool> = Vec::with_capacity(self.ignored.len());
        let mut bin: usize = 0;
        while bin < self.ignored.len()
            invariant
                *self == *old(self),
                self.wf(),
                bin <= self.ignored.len(),
                ignored.len() == bin,
                forall|b: int|
                    0 <= b < bin ==> #[trigger] ignored[b] == self.is_ignored_by(b, bands@),
            decreases self.ignored.len() - bin,
        {
            let mut out: bool = self.geometry.is_outside(
                bin,
                self.detect_min_hz,
                self.detect_max_hz,
            );
            let mut k: usize = 0;
            let ghost outside = out;
            while k < bands.len()
                invariant
                    *self == *old(self),
                    k <= bands.len(),
                    outside == (self.geometry.is_below(bin as int, self.detect_min_hz as int)
                        || self.geometry.is_above(bin as int, self.detect_max_hz as int)),
                    out == (outside || exists|j: int|
                        0 <= j < k && !self.geometry.is_below(
                            bin as int,
                            (#[trigger] bands[j]).low_hz as int,
                        ) && !self.geometry.is_above(bin as int, bands[j].high_hz as int)),
                decreases bands.len() - k,
            {
                if !self.geometry.is_outside(bin, bands[k].low_hz, bands[k].high_hz) {
                    out = true;
                }
                k = k + 1;
            }
            ignored.push(out);
            bin = bin + 1;
        }
        self.ignored = ignored;
    }

    /// The maximal runs of bins that clear their bar.
    pub fn active_runs(&self) -> (r: Vec<(usize, usize)>)
        requires
            self.wf(),
        ensures
            r@ == runs_of(self.hot_bins()),
            forall|k: int|
                0 <= k < r.len() ==> (#[trigger] r[k]).0 < r[k].1 <= self.settings().geometry.bin_count(),
            r.len() <= self.settings().geometry.bin_count(),
    {
        let ghost hot = self.hot_bins();
        let mut runs: Vec<(usize, usize)> = Vec::new();
        let mut start: Option<usize> = None;
        let mut bin: usize = 0;
        while bin < self.excess.len()
            invariant
                self.wf(),
                hot == self.hot_bins(),
                bin <= self.excess.len(),
                (runs@, start) == runs_upto(hot, bin as int),
            decreases self.excess.len() - bin,
        {
            let above: i64 = self.excess[bin];
            let spread: u8 = self.background.spread_buckets(bin);
            proof {
                assert(0 <= self.noise_sigmas * spread <= 0x8000_0000_0000_0000 * 255)
                    by (nonlinear_arith)
                    requires
                        0 <= self.noise_sigmas <= 0x8000_0000_0000_0000,
                        0 <= spread <= 255,
                ;
            }
            let bar: i128 = self.noise_sigmas as i128 * spread as i128 * 500;
            let is_hot: bool = !self.ignored[bin] && above >= self.threshold_db && above as i128
                * 1_349 >= bar;
            assert(is_hot == hot[bin as int]);
            match start {
                None => {
                    if is_hot {
                        start = Some(bin);
                    }
                },
                Some(s) => {
                    if !is_hot {
                        runs.push((s, bin));
                        start = None;
                    }
                },
            }
            bin = bin + 1;
        }
        proof {
            lemma_runs_bounds(hot, hot.len() as int);
        }
        if let Some(s) = start {
            runs.push((s, self.excess.len()));
        }
        runs
    }

    /// Hear one frame: learn its background, and note how far each bin stands above it.
    fn hear(&mut self, frame_db: &[Option<i32>])
        requires
            old(self).wf(),
            old(self).has_room(),
            frame_db.len() == old(self).settings().geometry.bin_count(),
        ensures
            final(self).wf(),
            final(self).settings() == old(self).settings(),
            final(self).ignored() == old(self).ignored(),
            final(self).open() == old(self).open(),
            final(self).frame() == old(self).frame() + 1,
            final(self).model().follows(&old(self).model(), frame_db@),
            final(self).model().is_excess(&old(self).model(), frame_db@, final(self).excess()),
    {
        proof {
            let b = self.geometry.bin_count();
            assert((self.frame_index + 1) * b == self.frame_index * b + b) by (nonlinear_arith);
            assert(self.frame_index < u64::MAX) by (nonlinear_arith)
                requires
                    (self.frame_index + 1) * b <= u64::MAX,
                    b >= 1,
            ;
        }
        self.excess = self.background.update(frame_db);
        self.frame_index = self.frame_index + 1;
        proof {
            assert forall|i: int| 0 <= i < self.open@.len() implies event_ok(
                #[trigger] self.open@[i],
                self.geometry.bin_count(),
                self.frame_index as int,
            ) by {
                assert(event_ok(old(self).open@[i], self.geometry.bin_count(), old(self).frame_index as int));
            }
        }
    }

    /// Count the runs of the last frame to the open events, each with its flatness, and
    /// report the events that are then over.
    pub fn absorb_runs(&mut self, runs: &Vec<(usize, usize)>, flatness: &Vec<u64>) -> (r: Vec<
        DetectionEvent,
    >)
        requires
            old(self).wf(),
            old(self).frame() > 0,
            runs.len() == flatness.len(),
            forall|k: int|
                0 <= k < runs.len() ==> (#[trigger] runs[k]).0 < runs[k].1
                    <= old(self).settings().geometry.bin_count(),
            runs_counted(old(self).open()) + runs.len() <= old(self).frame() * old(
                self,
            ).settings().geometry.bin_count(),
            old(self).frame() * old(self).settings().geometry.bin_count() <= u64::MAX,
        ensures
            final(self).wf(),
            final(self).settings() == old(self).settings(),
            final(self).ignored() == old(self).ignored(),
            final(self).model() == old(self).model(),
            final(self).frame() == old(self).frame(),
            final(self).excess() == old(self).excess(),
            ({
                let frame = (old(self).frame() - 1) as u64;
                let s = old(self).settings();
                let all = absorbed_all(
                    old(self).open(),
                    frame,
                    runs@,
                    old(self).excess(),
                    flatness@,
                    runs.len() as int,
                );
                &&& final(self).open() == lasting(all, frame, s.gap_frames)
                &&& r@ == ended(all, frame, s.gap_frames, s.min_frames, s.geometry)
            }),
    {
        let frame: u64 = self.frame_index - 1;
        let ghost first = self.open@;
        let mut k: usize = 0;
        while k < runs.len()
            invariant
                frame == old(self).frame_index - 1,
                first == old(self).open@,
                old(self).wf(),
                runs.len() == flatness.len(),
                forall|k: int|
                    0 <= k < runs.len() ==> (#[trigger] runs[k]).0 < runs[k].1
                        <= old(self).geometry.bin_count(),
                runs_counted(first) + runs.len() <= old(self).frame_index * old(
                    self,
                ).geometry.bin_count(),
                *self == (NoveltyDetector { open: self.open, ..*old(self) }),
                events_ok(self.open@, self.geometry.bin_count(), self.frame_index as int),
                k <= runs.len(),
                self.open@ == absorbed_all(first, frame, runs@, self.excess@, flatness@, k as int),
                runs_counted(self.open@) == runs_counted(first) + k,
            decreases runs.len() - k,
        {
            absorb_run(&mut self.open, frame, runs[k], &self.excess, flatness[k]);
            k = k + 1;
        }
        let closed = self.close_stale(frame);
        closed
    }

    /// Take out the events that have been quiet for too long, and report on those that
    /// lasted.
    fn close_stale(&mut self, frame: u64) -> (closed: Vec<DetectionEvent>)
        requires
            old(self).wf(),
            frame < old(self).frame(),
        ensures
            final(self).wf(),
            *final(self) == (NoveltyDetector { open: final(self).open, ..*old(self) }),
            final(self).open@ == lasting(old(self).open@, frame, old(self).gap_frames),
            closed@ == ended(
                old(self).open@,
                frame,
                old(self).gap_frames,
                old(self).min_frames,
                old(self).geometry,
            ),
    {
        let mut closed: Vec<DetectionEvent> = Vec::new();
        let mut kept: Vec<OpenEvent> = Vec::new();
        let ghost all = self.open@;
        let mut i: usize = 0;
        proof {
            assert(all.take(0) =~= Seq::empty());
        }
        while i < self.open.len()
            invariant
                *self == *old(self),
                self.wf(),
                all == self.open@,
                frame < self.frame_index,
                i <= self.open.len(),
                kept@ == lasting(all.take(i as int), frame, self.gap_frames),
                closed@ == ended(
                    all.take(i as int),
                    frame,
                    self.gap_frames,
                    self.min_frames,
                    self.geometry,
                ),
                events_ok(kept@, self.geometry.bin_count(), self.frame_index as int),
                0 <= runs_counted(kept@) <= runs_counted(all.take(i as int)),
            decreases self.open.len() - i,
        {
            let e: OpenEvent = self.open[i];
            proof {
                assert(event_ok(
                    all[i as int],
                    self.geometry.bin_count(),
                    self.frame_index as int,
                ));
                let upto = all.take(i + 1);
                assert(upto.drop_last() =~= all.take(i as int));
                assert(upto.last() == e);
                lemma_runs_counted_push(all.take(i as int), e);
                assert(upto =~= all.take(i as int).push(e));
                lemma_runs_counted_push(kept@, e);
                lemma_event_times(e, self.geometry, self.frame_index as int);
            }
            if frame > e.last_active_frame && frame - e.last_active_frame > self.gap_frames as u64 {
                if e.active_frames >= self.min_frames as u64 {
                    closed.push(finish(&e, self.geometry));
                }
            } else {
                kept.push(e);
            }
            i = i + 1;
        }
        assert(all.take(all.len() as int) =~= all);
        self.open = kept;
        closed
    }

    /// Feed one frame, level by bin, and get the events that it ends.
    ///
    /// `flatness` says how noise-like the frame's power is between two bins, in
    /// millionths: it is asked once of every run of bins that clears its bar. While the
    /// background is still being learned nothing is counted or ended.
    pub fn push_frame<F: Fn(usize, usize) -> u64>(
        &mut self,
        frame_db: &[Option<i32>],
        flatness: F,
    ) -> (r: Vec<DetectionEvent>)
        requires
            old(self).wf(),
            old(self).has_room(),
            frame_db.len() == old(self).settings().geometry.bin_count(),
            forall|start: usize, end: usize|
                start < end <= old(self).settings().geometry.bin_count()
                    ==> #[trigger] flatness.requires((start, end)),
        ensures
            final(self).wf(),
            final(self).follows(old(self), frame_db@, flatness, r@),
    {
        self.hear(frame_db);
        if !self.background.is_warm() {
            return Vec::new();
        }
        let runs = self.active_runs();
        let mut flat: Vec<u64> = Vec::with_capacity(runs.len());
        let mut k: usize = 0;
        while k < runs.len()
            invariant
                self.wf(),
                forall|start: usize, end: usize|
                    start < end <= self.geometry.bin_count() ==> #[trigger] flatness.requires(
                        (start, end),
                    ),
                forall|k: int|
                    0 <= k < runs.len() ==> (#[trigger] runs[k]).0 < runs[k].1
                        <= self.geometry.bin_count(),
                k <= runs.len(),
                flat.len() == k,
                forall|j: int| 0 <= j < k ==> flatness.ensures(runs[j], #[trigger] flat[j]),
            decreases runs.len() - k,
        {
            let run: (usize, usize) = runs[k];
            flat.push(flatness(run.0, run.1));
            k = k + 1;
        }
        proof {
            let b = self.geometry.bin_count();
            let n = old(self).frame_index as int;
            assert((n + 1) * b == n * b + b) by (nonlinear_arith);
            assert(answers(flatness, runs@, flat@));
        }
        let ghost hot = self.hot_bins();
        let r = self.absorb_runs(&runs, &flat);
        assert(self.hot_bins() =~= hot);
        r
    }

    /// Report on the events still open, and forget them.
    pub fn flush(&mut self) -> (r: Vec<DetectionEvent>)
        requires
            old(self).wf(),
        ensures
            final(self).wf(),
            final(self).settings() == old(self).settings(),
            final(self).ignored() == old(self).ignored(),
            final(self).model() == old(self).model(),
            final(self).frame() == old(self).frame(),
            final(self).excess() == old(self).excess(),
            final(self).open() == Seq::<OpenEvent>::empty(),
            r@ == flushed(
                old(self).open(),
                old(self).settings().min_frames,
                old(self).settings().geometry,
            ),
    {
        let mut r: Vec<DetectionEvent> = Vec::new();
        let ghost all = self.open@;
        let mut i: usize = 0;
        assert(all.take(0) =~= Seq::empty());
        while i < self.open.len()
            invariant
                *self == *old(self),
                self.wf(),
                all == self.open@,
                i <= self.open.len(),
                r@ == flushed(all.take(i as int), self.min_frames, self.geometry),
            decreases self.open.len() - i,
        {
            let e: OpenEvent = self.open[i];
            proof {
                assert(event_ok(
                    all[i as int],
                    self.geometry.bin_count(),
                    self.frame_index as int,
                ));
                assert(all.take(i + 1).drop_last() =~= all.take(i as int));
                lemma_event_times(e, self.geometry, self.frame_index as int);
            }
            if e.active_frames >= self.min_frames as u64 {
                r.push(finish(&e, self.geometry));
            }
            i = i + 1;
        }
        assert(all.take(all.len() as int) =~= all);
        self.reset_events();
        r
    }

    /// Forget the open events without reporting on them.
    pub fn reset_events(&mut self)
        requires
            old(self).wf(),
        ensures
            final(self).wf(),
            final(self).settings() == old(self).settings(),
            final(self).ignored() == old(self).ignored(),
            final(self).model() == old(self).model(),
            final(self).frame() == old(self).frame(),
            final(self).excess() == old(self).excess(),
            final(self).open() == Seq::<OpenEvent>::empty(),
    {
        proof {
            lemma_runs_counted_nonnegative(self.open@);
        }
        self.open.clear();
    }
}

/// `flat` holds an answer of `flatness` for each of the runs.
pub open spec fn answers<F: Fn(usize, usize) -> u64>(
    flatness: F,
    runs: Seq<(usize, usize)>,
    flat: Seq<u64>,
) -> bool {
    &&& flat.len() == runs.len()
    &&& forall|k: int| 0 <= k < runs.len() ==> flatness.ensures(runs[k], #[trigger] flat[k])
}

pub open spec fn lowest_bin(open: Seq<OpenEvent>) -> int
    decreases open.len(),
{
    if open.len() <= 1 {
        open.last().low_bin as int
    } else if open.last().low_bin < lowest_bin(open.drop_last()) {
        open.last().low_bin as int
    } else {
        lowest_bin(open.drop_last())
    }
}

pub open spec fn highest_bin(open: Seq<OpenEvent>) -> int
    decreases open.len(),
{
    if open.len() <= 1 {
        open.last().high_bin as int
    } else if open.last().high_bin > highest_bin(open.drop_last()) {
        open.last().high_bin as int
    } else {
        highest_bin(open.drop_last())
    }
}

proof fn lemma_runs_counted_push(open: Seq<OpenEvent>, e: OpenEvent)
    ensures
        runs_counted(open.push(e)) == runs_counted(open) + e.excess_count,
{
    lemma_runs_counted_split(open.push(e), open.len() as int);
    assert(open.push(e).take(open.len() as int) =~= open);
    assert(open.push(e).skip(open.len() as int) =~= seq![e]);
    assert(seq![e].drop_first() =~= Seq::empty());
    reveal_with_fuel(runs_counted, 2);
}

proof fn lemma_event_times(e: OpenEvent, g: FrameGeometry, frames: int)
    requires
        event_ok(e, g.bin_count(), frames),
        frames * g.hop <= u64::MAX,
        frames <= u64::MAX,
    ensures
        e.start_frame * g.hop <= u64::MAX,
        e.active_frames * g.hop <= u64::MAX,
        event_ok(e, g.bin_count(), u64::MAX as int),
{
    assert(e.start_frame * g.hop <= frames * g.hop && e.active_frames * g.hop <= frames * g.hop)
        by (nonlinear_arith)
        requires
            0 <= e.start_frame <= frames,
            0 <= e.active_frames <= frames,
            0 <= g.hop,
    ;
}

/// What holds of the runs among the first `n` bins, and of the one still going on there.
spec fn runs_hold(
    hot: Seq<bool>,
    n: int,
    runs: Seq<(usize, usize)>,
    start: Option<usize>,
) -> bool {
    &&& forall|k: int| 0 <= k < runs.len() ==> is_run(hot, #[trigger] runs[k]) && runs[k].1 < n
    &&& lie_apart(runs)
    &&& forall|b: int|
        0 <= b < n && #[trigger] hot[b] ==> is_covered(runs, b) || (start matches Some(s) && s <= b)
    &&& start matches Some(s) ==> {
        &&& s < n
        &&& forall|b: int| s <= b < n ==> #[trigger] hot[b]
        &&& s > 0 ==> !hot[s - 1]
        &&& forall|k: int| 0 <= k < runs.len() ==> (#[trigger] runs[k]).1 < s
    }
    &&& start is None && n > 0 ==> !hot[n - 1]
}

proof fn lemma_runs_upto(hot: Seq<bool>, n: int)
    requires
        0 <= n <= hot.len() <= usize::MAX,
    ensures
        runs_hold(hot, n, runs_upto(hot, n).0, runs_upto(hot, n).1),
    decreases n,
{
    if n > 0 {
        lemma_runs_upto(hot, n - 1);
        let (before, open) = runs_upto(hot, n - 1);
        match open {
            None => {
                assert forall|b: int| 0 <= b < n && #[trigger] hot[b] implies is_covered(before, b)
                    || (hot[n - 1] && n - 1 <= b) by {}
                assert(forall|k: int| 0 <= k < before.len() ==> (#[trigger] before[k]).1 < n - 1);
            },
            Some(s) => {
                if !hot[n - 1] {
                    lemma_one_more_run(hot, n, before, s);
                }
            },
        }
    }
}

proof fn lemma_one_more_run(hot: Seq<bool>, n: int, before: Seq<(usize, usize)>, s: usize)
    requires
        0 < n <= hot.len() <= usize::MAX,
        runs_hold(hot, n - 1, before, Some(s)),
        !hot[n - 1],
    ensures
        runs_hold(hot, n, before.push((s, (n - 1) as usize)), None),
{
    let runs = before.push((s, (n - 1) as usize));
    assert(is_run(hot, (s, (n - 1) as usize)));
    assert forall|k: int| 0 <= k < runs.len() implies is_run(hot, #[trigger] runs[k])
        && runs[k].1 < n by {
        if k < before.len() {
            assert(runs[k] == before[k]);
        }
    }
    assert forall|j: int, k: int| 0 <= j < k < runs.len() implies (#[trigger] runs[j]).1 < (
    #[trigger] runs[k]).0 by {
        assert(runs[j] == before[j]);
        if k < before.len() {
            assert(runs[k] == before[k]);
        }
    }
    assert forall|b: int| 0 <= b < n && #[trigger] hot[b] implies is_covered(runs, b) by {
        if is_covered(before, b) {
            let k = choose|k: int| 0 <= k < before.len() && (#[trigger] before[k]).0 <= b
                < before[k].1;
            assert(runs[k] == before[k]);
        } else {
            let k = before.len() as int;
            assert(runs[k].0 <= b < runs[k].1);
        }
    }
}

/// The runs stand in order, with a gap between any two.
pub open spec fn lie_apart(runs: Seq<(usize, usize)>) -> bool {
    forall|j: int, k: int|
        0 <= j < k < runs.len() ==> (#[trigger] runs[j]).1 < (#[trigger] runs[k]).0
}

/// A run of hot bins that could not be longer.
pub open spec fn is_run(hot: Seq<bool>, run: (usize, usize)) -> bool {
    &&& run.0 < run.1 <= hot.len()
    &&& forall|b: int| run.0 <= b < run.1 ==> #[trigger] hot[b]
    &&& run.0 > 0 ==> !hot[run.0 - 1]
    &&& run.1 < hot.len() ==> !hot[run.1 as int]
}

/// Some run holds the bin.
pub open spec fn is_covered(runs: Seq<(usize, usize)>, bin: int) -> bool {
    exists|k: int| 0 <= k < runs.len() && (#[trigger] runs[k]).0 <= bin < runs[k].1
}

/// The active runs are the hot bins and nothing else: each is as long as it can be, they lie
/// apart and in order, and every hot bin is in one of them.
pub proof fn law_runs_hold_the_hot_bins(hot: Seq<bool>)
    requires
        hot.len() <= usize::MAX,
    ensures
        forall|k: int| 0 <= k < runs_of(hot).len() ==> is_run(hot, #[trigger] runs_of(hot)[k]),
        lie_apart(runs_of(hot)),
        forall|b: int| 0 <= b < hot.len() ==> (#[trigger] hot[b] <==> is_covered(runs_of(hot), b)),
{
    let n = hot.len() as int;
    lemma_runs_upto(hot, n);
    let (before, start) = runs_upto(hot, n);
    let runs = runs_of(hot);
    assert forall|k: int| 0 <= k < runs.len() implies is_run(hot, #[trigger] runs[k]) by {
        if k < before.len() {
            assert(runs[k] == before[k]);
        }
    }
    assert forall|j: int, k: int| 0 <= j < k < runs.len() implies (#[trigger] runs[j]).1 < (
    #[trigger] runs[k]).0 by {
        assert(runs[j] == before[j]);
        if k < before.len() {
            assert(runs[k] == before[k]);
        }
    }
    assert forall|b: int| 0 <= b < n && #[trigger] hot[b] implies is_covered(runs, b) by {
        if is_covered(before, b) {
            let k = choose|k: int| 0 <= k < before.len() && (#[trigger] before[k]).0 <= b
                < before[k].1;
            assert(runs[k] == before[k]);
        } else {
            assert(runs[runs.len() - 1].0 <= b < runs[runs.len() - 1].1);
        }
    }
    assert forall|b: int| 0 <= b < n && is_covered(runs, b) implies #[trigger] hot[b] by {
        let k = choose|k: int| 0 <= k < runs.len() && (#[trigger] runs[k]).0 <= b < runs[k].1;
        assert(is_run(hot, runs[k]));
    }
}

/// Only the band that the detector is told to watch is ever hot, and of that only what no
/// ignored band covers.
pub proof fn law_detection_keeps_to_its_band(
    detector: &NoveltyDetector,
    bands: Seq<IgnoreBand>,
    bin: int,
)
    requires
        detector.wf(),
        detector.ignores(bands),
        0 <= bin < detector.settings().geometry.bin_count(),
        detector.is_hot(bin),
    ensures
        !detector.settings().geometry.is_below(bin, detector.settings().detect_min_hz as int),
        !detector.settings().geometry.is_above(bin, detector.settings().detect_max_hz as int),
        forall|k: int|
            0 <= k < bands.len() ==> detector.settings().geometry.is_below(
                bin,
                (#[trigger] bands[k]).low_hz as int,
            ) || detector.settings().geometry.is_above(bin, bands[k].high_hz as int),
{
    detector.lemma_shape();
    assert(!detector.ignored()[bin]);
}

/// The events that a run meets, with the runs they have counted, against those it does not
/// meet.
proof fn lemma_gathering_counts(e: OpenEvent, others: Seq<OpenEvent>, run: (usize, usize))
    requires
        e.excess_count + runs_counted(others) <= u64::MAX,
    ensures
        gathered(e, others, run).excess_count + runs_counted(unmet(others, run)) == e.excess_count
            + runs_counted(others),
    decreases others.len(),
{
    if others.len() > 0 {
        let rest = others.drop_first();
        lemma_runs_counted_nonnegative(rest);
        lemma_gathering_counts(e, rest, run);
        lemma_runs_counted_nonnegative(unmet(rest, run));
        if !meets(others.first(), run) {
            let all = seq![others.first()] + unmet(rest, run);
            assert(all.drop_first() =~= unmet(rest, run));
            assert(all.first() == others.first());
        }
    }
}

/// No run is lost when events are joined: each run of a frame is counted once, whatever it
/// joins.
pub proof fn law_every_run_is_counted_once(
    open: Seq<OpenEvent>,
    frame: u64,
    run: (usize, usize),
    excess: Seq<i64>,
    flatness: u64,
)
    requires
        runs_counted(open) < u64::MAX,
    ensures
        runs_counted(absorbed(open, frame, run, excess, flatness)) == runs_counted(open) + 1,
{
    let at = first_met(open, run, 0);
    lemma_first_met(open, run, 0);
    if at >= open.len() {
        let peak = peak_of(excess, run.0 as int, run.1 as int) as usize;
        lemma_runs_counted_push(
            open,
            extended(started(frame, run, peak), frame, run, excess, flatness),
        );
    } else {
        let others = open.skip(at + 1);
        lemma_runs_counted_split(open, at);
        lemma_runs_counted_nonnegative(open.take(at));
        lemma_runs_counted_nonnegative(others);
        assert(open.skip(at).drop_first() =~= others);
        lemma_gathering_counts(open[at], others, run);
        lemma_runs_counted_nonnegative(unmet(others, run));
        let grown = extended(gathered(open[at], others, run), frame, run, excess, flatness);
        let after = open.take(at).push(grown) + unmet(others, run);
        lemma_runs_counted_split(after, at);
        assert(after.take(at) =~= open.take(at));
        assert(after.skip(at).first() == grown);
        assert(after.skip(at).drop_first() =~= unmet(others, run));
    }
}

proof fn lemma_first_met(open: Seq<OpenEvent>, run: (usize, usize), i: int)
    requires
        0 <= i <= open.len(),
    ensures
        i <= first_met(open, run, i) <= open.len(),
    decreases open.len() - i,
{
    if i < open.len() && !meets(open[i], run) {
        lemma_first_met(open, run, i + 1);
    }
}

/// No event outlives its gap: those that go on after a frame have been quiet no longer than
/// the gap allows, and each was open before.
pub proof fn law_a_quiet_event_ends(open: Seq<OpenEvent>, frame: u64, gap: usize, e: OpenEvent)
    ensures
        lasting(open, frame, gap).contains(e) <==> open.contains(e) && !is_stale(e, frame, gap),
    decreases open.len(),
{
    if open.len() > 0 {
        let rest = open.drop_last();
        law_a_quiet_event_ends(rest, frame, gap, e);
        let kept = lasting(open, frame, gap);
        let shorter = lasting(rest, frame, gap);
        assert(open =~= rest.push(open.last()));
        if open.contains(e) {
            let k = choose|k: int| 0 <= k < open.len() && open[k] == e;
            if k < rest.len() {
                assert(rest[k] == e);
            }
        }
        if rest.contains(e) {
            let k = choose|k: int| 0 <= k < rest.len() && rest[k] == e;
            assert(open[k] == e);
        }
        if !is_stale(open.last(), frame, gap) {
            assert(kept.last() == open.last());
            if shorter.contains(e) {
                let k = choose|k: int| 0 <= k < shorter.len() && shorter[k] == e;
                assert(kept[k] == e);
            }
            if kept.contains(e) {
                let k = choose|k: int| 0 <= k < kept.len() && kept[k] == e;
                if k < shorter.len() {
                    assert(shorter[k] == e);
                }
            }
            assert(open[open.len() - 1] == open.last());
        }
    }
}

proof fn lemma_share_grows(a: int, b: int, whole: int)
    requires
        whole > 0,
        a <= b,
    ensures
        0 <= share(a, whole) <= share(b, whole) <= ONE,
{
    if 0 < a && b < whole {
        assert(a * 1_000_000 / whole <= b * 1_000_000 / whole) by (nonlinear_arith)
            requires
                a <= b,
                whole > 0,
        ;
    }
    if 0 < a < whole {
        assert(0 <= a * 1_000_000 / whole <= 1_000_000) by (nonlinear_arith)
            requires
                0 < a < whole,
        ;
    }
    if 0 < b < whole {
        assert(0 <= b * 1_000_000 / whole <= 1_000_000) by (nonlinear_arith)
            requires
                0 < b < whole,
        ;
    }
}

/// The size of a drift, whichever way it goes.
pub open spec fn drift_size(e: DetectionEvent) -> int {
    if e.drift_hz < 0 {
        -e.drift_hz as int
    } else {
        e.drift_hz as int
    }
}

/// An event that stands out as much, lasts as long, is as tonal, as narrow, and drifts as far,
/// scores as high at least; and a score lies between nothing and one.
pub proof fn law_more_of_a_signal_scores_higher(a: DetectionEvent, b: DetectionEvent, nyquist: int)
    requires
        nyquist >= 0,
        a.peak_excess_db <= b.peak_excess_db,
        a.duration_seconds <= b.duration_seconds,
        a.mean_flatness >= b.mean_flatness,
        a.high_hz - a.low_hz >= b.high_hz - b.low_hz,
        drift_size(a) <= drift_size(b),
    ensures
        0 <= score_of(a, nyquist) <= score_of(b, nyquist) <= ONE,
{
    lemma_share_grows(a.peak_excess_db as int, b.peak_excess_db as int, 24_000_000);
    lemma_share_grows(a.duration_seconds as int, b.duration_seconds as int, 10_000_000);
    lemma_share_grows(b.mean_flatness as int, a.mean_flatness as int, 1_000_000);
    lemma_share_grows(drift_size(a), drift_size(b), 1_000_000_000);
    if nyquist > 0 {
        lemma_share_grows(4 * b.bandwidth(), 4 * a.bandwidth(), nyquist);
    }
}

/// What each part of a score is worth: 24 decibels of excess over none are 0.35, ten seconds
/// over none 0.20, a tone over noise 0.25, a line over a quarter of the band 0.10, and a drift
/// of a kilohertz over none 0.10, whatever the other parts are.
pub proof fn law_what_each_part_of_a_score_is_worth(
    a: DetectionEvent,
    b: DetectionEvent,
    nyquist: int,
)
    requires
        nyquist > 0,
    ensures
        b == (DetectionEvent { peak_excess_db: b.peak_excess_db, ..a }) && a.peak_excess_db <= 0
            && b.peak_excess_db >= 24_000_000 ==> score_of(b, nyquist) == score_of(a, nyquist)
            + 350_000,
        b == (DetectionEvent { duration_seconds: b.duration_seconds, ..a }) && a.duration_seconds
            == 0 && b.duration_seconds >= 10_000_000 ==> score_of(b, nyquist) == score_of(
            a,
            nyquist,
        ) + 200_000,
        b == (DetectionEvent { mean_flatness: b.mean_flatness, ..a }) && a.mean_flatness
            >= 1_000_000 && b.mean_flatness == 0 ==> score_of(b, nyquist) == score_of(a, nyquist)
            + 250_000,
        b == (DetectionEvent { low_hz: b.low_hz, high_hz: b.high_hz, ..a }) && 4 * (a.high_hz
            - a.low_hz) >= nyquist && b.high_hz <= b.low_hz ==> score_of(b, nyquist) == score_of(
            a,
            nyquist,
        ) + 100_000,
        b == (DetectionEvent { drift_hz: b.drift_hz, ..a }) && a.drift_hz == 0 && (b.drift_hz
            >= 1_000_000_000 || b.drift_hz <= -1_000_000_000) ==> score_of(b, nyquist) == score_of(
            a,
            nyquist,
        ) + 100_000,
{
}

/// A part of a score grows in proportion: `x` decibels of excess, of 24, are worth that share
/// of 0.35, and `x` seconds of ten that share of 0.20, to within two millionths.
pub proof fn law_a_score_grows_in_proportion(a: DetectionEvent, b: DetectionEvent, nyquist: int)
    requires
        nyquist > 0,
    ensures
        b == (DetectionEvent { peak_excess_db: b.peak_excess_db, ..a }) && a.peak_excess_db == 0
            && 0 <= b.peak_excess_db <= 24_000_000 ==> 35 * b.peak_excess_db - 4_800 <= 2_400 * (
        score_of(b, nyquist) - score_of(a, nyquist)) <= 35 * b.peak_excess_db + 4_800,
        b == (DetectionEvent { duration_seconds: b.duration_seconds, ..a }) && a.duration_seconds
            == 0 && b.duration_seconds <= 10_000_000 ==> 20 * b.duration_seconds - 2_000 <= 1_000 * (
        score_of(b, nyquist) - score_of(a, nyquist)) <= 20 * b.duration_seconds + 2_000,
{
}

proof fn lemma_peak_of(excess: Seq<i64>, start: int, end: int, i: int)
    requires
        start <= i < end,
    ensures
        start <= peak_of(excess, start, end) < end,
        excess[i] <= excess[peak_of(excess, start, end)],
        i < peak_of(excess, start, end) ==> excess[i] < excess[peak_of(excess, start, end)],
    decreases end - start,
{
    if end > start + 1 {
        lemma_peak_of(excess, start, end - 1, if i < end - 1 {
            i
        } else {
            start
        });
    }
}

proof fn lemma_first_met_is_met(open: Seq<OpenEvent>, run: (usize, usize), i: int)
    requires
        0 <= i <= open.len(),
    ensures
        ({
            let at = first_met(open, run, i);
            &&& i <= at <= open.len()
            &&& at < open.len() ==> meets(open[at], run)
            &&& forall|k: int| i <= k < at ==> !meets(#[trigger] open[k], run)
        }),
    decreases open.len() - i,
{
    if i < open.len() && !meets(open[i], run) {
        lemma_first_met_is_met(open, run, i + 1);
    }
}

/// One event holds all that another did: its frames, its bins, and a peak as high.
pub open spec fn holds_event(e: OpenEvent, part: OpenEvent) -> bool {
    &&& e.start_frame <= part.start_frame
    &&& e.last_active_frame >= part.last_active_frame
    &&& e.low_bin <= part.low_bin
    &&& e.high_bin >= part.high_bin
    &&& e.peak_excess >= part.peak_excess
    &&& e.active_frames >= part.active_frames
}

proof fn lemma_gathered_holds(e: OpenEvent, others: Seq<OpenEvent>, run: (usize, usize), k: int)
    requires
        0 <= k < others.len(),
    ensures
        holds_event(gathered(e, others, run), e),
        gathered(e, others, run).first_peak_bin == e.first_peak_bin,
        meets(others[k], run) ==> holds_event(gathered(e, others, run), others[k]),
        !meets(others[k], run) ==> unmet(others, run).contains(others[k]),
    decreases others.len(),
{
    let rest = others.drop_first();
    let kept = unmet(rest, run);
    if rest.len() > 0 {
        lemma_gathered_holds(e, rest, run, if k > 0 {
            k - 1
        } else {
            0
        });
    } else {
        assert(gathered(e, rest, run) == e);
    }
    if k > 0 {
        assert(rest[k - 1] == others[k]);
        if !meets(others[k], run) && !meets(others[0], run) {
            let j = choose|j: int| 0 <= j < kept.len() && kept[j] == others[k];
            assert((seq![others.first()] + kept)[j + 1] == others[k]);
        }
    } else if !meets(others[0], run) {
        assert((seq![others.first()] + kept)[0] == others[0]);
    }
}

/// Nothing heard is lost when a run is counted: every event that was open is still there or
/// held by one that is, one that lies more than two bins from the run just as it was, and the
/// run itself is held by an event that was active in this frame and peaks as high as it does.
pub proof fn law_nothing_heard_is_lost(
    open: Seq<OpenEvent>,
    frame: u64,
    run: (usize, usize),
    excess: Seq<i64>,
    flatness: u64,
    k: int,
    bin: int,
)
    requires
        run.0 <= bin < run.1 <= excess.len(),
        forall|i: int|
            0 <= i < open.len() ==> (#[trigger] open[i]).last_active_frame <= frame
                && open[i].active_frames < u64::MAX,
    ensures
        ({
            let after = absorbed(open, frame, run, excess, flatness);
            &&& exists|j: int|
                {
                    &&& 0 <= j < after.len()
                    &&& (#[trigger] after[j]).low_bin <= run.0
                    &&& after[j].high_bin >= run.1
                    &&& after[j].last_active_frame == frame
                    &&& after[j].peak_excess >= excess[bin]
                    &&& after[j].last_peak_bin < run.1
                    &&& excess[after[j].last_peak_bin as int] >= excess[bin]
                }
            &&& 0 <= k < open.len() ==> exists|j: int|
                0 <= j < after.len() && holds_event(#[trigger] after[j], open[k])
            &&& 0 <= k < open.len() && (open[k].low_bin >= run.1 + 2 || open[k].high_bin + 2
                < run.0) ==> after.contains(open[k])
            &&& after.len() <= open.len() + 1
        }),
{
    let after = absorbed(open, frame, run, excess, flatness);
    let at = first_met(open, run, 0);
    lemma_first_met_is_met(open, run, 0);
    let peak = peak_of(excess, run.0 as int, run.1 as int);
    lemma_peak_of(excess, run.0 as int, run.1 as int, bin);
    if at >= open.len() {
        assert(after[open.len() as int].low_bin <= run.0);
        if 0 <= k < open.len() {
            assert(after[k] == open[k]);
            assert(holds_event(after[k], open[k]));
        }
    } else {
        let others = open.skip(at + 1);
        let whole = gathered(open[at], others, run);
        let grown = extended(whole, frame, run, excess, flatness);
        assert(after[at] == grown);
        lemma_unmet_fewer(others, run);
        assert forall|i: int| 0 <= i < others.len() implies (#[trigger] others[i]).last_active_frame
            <= frame && others[i].active_frames < u64::MAX by {
            assert(others[i] == open[at + 1 + i]);
        }
        lemma_gathered_frames(open[at], others, run, frame);
        if others.len() > 0 {
            lemma_gathered_holds(open[at], others, run, 0);
        }
        assert(holds_event(grown, whole));
        if 0 <= k < open.len() {
            if k < at {
                assert(after[k] == open[k]);
                assert(holds_event(after[k], open[k]));
            } else if k == at {
                assert(holds_event(after[at], open[k]));
            } else {
                let i = k - at - 1;
                assert(others[i] == open[k]);
                lemma_gathered_holds(open[at], others, run, i);
                if meets(open[k], run) {
                    assert(holds_event(after[at], open[k]));
                } else {
                    let left = unmet(others, run);
                    let j = choose|j: int| 0 <= j < left.len() && left[j] == open[k];
                    assert(after[at + 1 + j] == open[k]);
                    assert(holds_event(after[at + 1 + j], open[k]));
                }
            }
        }
    }
}

proof fn lemma_unmet_fewer(others: Seq<OpenEvent>, run: (usize, usize))
    ensures
        unmet(others, run).len() <= others.len(),
    decreases others.len(),
{
    if others.len() > 0 {
        lemma_unmet_fewer(others.drop_first(), run);
    }
}

proof fn lemma_gathered_frames(
    e: OpenEvent,
    others: Seq<OpenEvent>,
    run: (usize, usize),
    frame: u64,
)
    requires
        e.last_active_frame <= frame,
        e.active_frames < u64::MAX,
        forall|i: int|
            0 <= i < others.len() ==> (#[trigger] others[i]).last_active_frame <= frame
                && others[i].active_frames < u64::MAX,
    ensures
        gathered(e, others, run).last_active_frame <= frame,
        gathered(e, others, run).active_frames < u64::MAX,
        holds_event(gathered(e, others, run), e),
    decreases others.len(),
{
    if others.len() > 0 {
        let rest = others.drop_first();
        assert(others[0].last_active_frame <= frame);
        assert forall|i: int| 0 <= i < rest.len() implies (#[trigger] rest[i]).last_active_frame
            <= frame && rest[i].active_frames < u64::MAX by {
            assert(rest[i] == others[i + 1]);
        }
        lemma_gathered_frames(e, rest, run, frame);
    }
}

/// A run that lies more than two bins from every open event starts one of its own, at this
/// frame, on its own bins.
pub proof fn law_a_run_apart_is_an_event_of_its_own(
    open: Seq<OpenEvent>,
    frame: u64,
    run: (usize, usize),
    excess: Seq<i64>,
    flatness: u64,
)
    requires
        run.0 < run.1 <= excess.len(),
        forall|i: int|
            0 <= i < open.len() ==> (#[trigger] open[i]).low_bin >= run.1 + 2 || open[i].high_bin + 2
                < run.0,
    ensures
        ({
            let after = absorbed(open, frame, run, excess, flatness);
            let new = after.last();
            &&& after == open.push(new)
            &&& new.start_frame == frame
            &&& new.last_active_frame == frame
            &&& new.low_bin == run.0
            &&& new.high_bin == run.1
            &&& new.first_peak_bin == new.last_peak_bin
            &&& new.active_frames == 1
            &&& new.excess_count == 1
        }),
{
    lemma_first_met_is_met(open, run, 0);
    let at = first_met(open, run, 0);
    if at < open.len() {
        assert(meets(open[at], run));
    }
}

/// Every event that has been quiet for longer than the gap, and was active for long enough, is
/// reported once, and no other is.
pub proof fn law_what_ends_is_reported(
    open: Seq<OpenEvent>,
    frame: u64,
    gap: usize,
    min_frames: usize,
    g: FrameGeometry,
)
    requires
        forall|i: int| 0 <= i < open.len() ==> (#[trigger] open[i]).last_active_frame <= frame,
    ensures
        ended(open, frame, gap, min_frames, g) == open.filter(
            |e: OpenEvent| frame - e.last_active_frame > gap && e.active_frames >= min_frames,
        ).map_values(|e: OpenEvent| finished(e, g)),
        flushed(open, min_frames, g) == open.filter(
            |e: OpenEvent| e.active_frames >= min_frames,
        ).map_values(|e: OpenEvent| finished(e, g)),
        lasting(open, frame, gap) == open.filter(
            |e: OpenEvent| frame - e.last_active_frame <= gap,
        ),
    decreases open.len(),
{
    reveal(Seq::filter);
    let over = |e: OpenEvent| frame - e.last_active_frame > gap && e.active_frames >= min_frames;
    let long = |e: OpenEvent| e.active_frames >= min_frames;
    let on = |e: OpenEvent| frame - e.last_active_frame <= gap;
    let f = |e: OpenEvent| finished(e, g);
    if open.len() > 0 {
        let rest = open.drop_last();
        assert forall|i: int| 0 <= i < rest.len() implies (#[trigger] rest[i]).last_active_frame
            <= frame by {
            assert(rest[i] == open[i]);
        }
        law_what_ends_is_reported(rest, frame, gap, min_frames, g);
        assert(open[open.len() - 1] == open.last());
        assert(rest.filter(over).push(open.last()).map_values(f) =~= rest.filter(over).map_values(
            f,
        ).push(f(open.last())));
        assert(rest.filter(long).push(open.last()).map_values(f) =~= rest.filter(long).map_values(
            f,
        ).push(f(open.last())));
        assert(ended(open, frame, gap, min_frames, g) =~= open.filter(over).map_values(f));
        assert(flushed(open, min_frames, g) =~= open.filter(long).map_values(f));
    } else {
        assert(open.filter(over).map_values(f) =~= Seq::empty());
        assert(open.filter(long).map_values(f) =~= Seq::empty());
        assert(open.filter(on) =~= Seq::empty());
    }
}

/// A quotient rounded down, and what it is a quotient of.
proof fn lemma_rounded_down(x: int, y: int)
    requires
        y > 0,
    ensures
        (x / y) * y <= x < (x / y + 1) * y,
{
    vstd::arithmetic::div_mod::lemma_fundamental_div_mod(x, y);
    let q = x / y;
    assert(y * q == q * y && (q + 1) * y == q * y + y) by (nonlinear_arith);
}

proof fn lemma_hz_rounds(g: FrameGeometry, bin: int)
    requires
        g.fft_size > 0,
        0 <= bin <= g.bin_count(),
    ensures
        0 <= g.hz_of(bin) <= u64::MAX,
        g.hz_of(bin) * g.fft_size <= bin * g.sample_rate * ONE < (g.hz_of(bin) + 1) * g.fft_size,
{
    lemma_hz_bound(g, bin);
    lemma_rounded_down(bin * g.sample_rate * ONE, g.fft_size as int);
}

/// A report says where and when an event was: its bins and its peak as frequencies, its frames
/// as times, rounded down; what it stood above the background at its highest and on average; and
/// how far its peak moved, upward where that is positive.
pub proof fn law_a_report_says_where_and_when(e: OpenEvent, g: FrameGeometry, frames: int)
    requires
        g.fft_size > 0,
        g.sample_rate > 0,
        event_ok(e, g.bin_count(), frames),
        e.start_frame * g.hop <= u64::MAX,
        e.active_frames * g.hop <= u64::MAX,
    ensures
        ({
            let r = finished(e, g);
            &&& r.start_frame == e.start_frame
            &&& r.end_frame == e.last_active_frame
            &&& r.low_bin == e.low_bin
            &&& r.high_bin == e.high_bin
            &&& r.start_seconds * g.sample_rate <= e.start_frame * g.hop * ONE < (r.start_seconds
                + 1) * g.sample_rate
            &&& r.duration_seconds * g.sample_rate <= e.active_frames * g.hop * ONE < (
            r.duration_seconds + 1) * g.sample_rate
            &&& r.low_hz * g.fft_size <= e.low_bin * g.sample_rate * ONE < (r.low_hz + 1)
                * g.fft_size
            &&& r.high_hz * g.fft_size <= e.high_bin * g.sample_rate * ONE < (r.high_hz + 1)
                * g.fft_size
            &&& r.peak_hz * g.fft_size <= e.peak_bin * g.sample_rate * ONE < (r.peak_hz + 1)
                * g.fft_size
            &&& r.peak_excess_db == e.peak_excess
            &&& r.mean_excess_db * e.excess_count <= e.excess_sum < (r.mean_excess_db + 1)
                * e.excess_count
            &&& e.flatness_count == 0 ==> r.mean_flatness == ONE
            &&& e.flatness_count > 0 ==> r.mean_flatness * e.flatness_count <= e.flatness_sum < (
            r.mean_flatness + 1) * e.flatness_count
            &&& (e.last_peak_bin - e.first_peak_bin) * g.sample_rate * ONE - g.fft_size < r.drift_hz
                * g.fft_size < (e.last_peak_bin - e.first_peak_bin) * g.sample_rate * ONE
                + g.fft_size
        }),
{
    let r = finished(e, g);
    let rate = g.sample_rate as int;
    lemma_hz_rounds(g, e.low_bin as int);
    lemma_hz_rounds(g, e.high_bin as int);
    lemma_hz_rounds(g, e.peak_bin as int);
    lemma_hz_rounds(g, e.last_peak_bin as int);
    lemma_hz_rounds(g, e.first_peak_bin as int);
    lemma_hz_bound(g, e.last_peak_bin as int);
    lemma_hz_bound(g, e.first_peak_bin as int);
    let s = e.start_frame * g.hop * ONE;
    let d = e.active_frames * g.hop * ONE;
    lemma_time_fits(e.start_frame as int, g.hop as int, rate);
    lemma_time_fits(e.active_frames as int, g.hop as int, rate);
    lemma_rounded_down(s, rate);
    lemma_rounded_down(d, rate);
    let n = e.excess_count as int;
    lemma_rounded_down(e.excess_sum as int, n);
    let mean = e.excess_sum as int / n;
    assert(-EXCESS_MAX <= mean <= EXCESS_MAX) by (nonlinear_arith)
        requires
            -(n * EXCESS_MAX) <= e.excess_sum <= n * EXCESS_MAX,
            mean == e.excess_sum as int / n,
            n > 0,
    ;
    if e.flatness_count > 0 {
        let c = e.flatness_count as int;
        lemma_rounded_down(e.flatness_sum as int, c);
        assert(0 <= e.flatness_sum as int / c <= u64::MAX) by (nonlinear_arith)
            requires
                0 <= e.flatness_sum <= c * u64::MAX,
                c > 0,
        ;
    }
    let x = g.hz_of(e.last_peak_bin as int);
    let y = g.hz_of(e.first_peak_bin as int);
    let fft = g.fft_size as int;
    assert((x - y) * fft == x * fft - y * fft && (x + 1) * fft == x * fft + fft && (y + 1) * fft == y
        * fft + fft) by (nonlinear_arith);
    let a = e.last_peak_bin as int;
    let b = e.first_peak_bin as int;
    assert((a - b) * rate * 1_000_000 == a * rate * 1_000_000 - b * rate * 1_000_000)
        by (nonlinear_arith);
}

proof fn lemma_time_fits(frames: int, hop: int, rate: int)
    requires
        0 <= frames,
        0 <= hop,
        frames * hop <= u64::MAX,
        rate > 0,
    ensures
        0 <= frames * hop * ONE / rate <= u128::MAX,
{
    let x = frames * hop * ONE;
    assert(0 <= frames * hop) by (nonlinear_arith)
        requires
            0 <= frames,
            0 <= hop,
    ;
    assert(0 <= x / rate <= x) by (nonlinear_arith)
        requires
            0 <= x,
            rate > 0,
    ;
}

/// A bin is hot exactly where nobody asked for it to be ignored, it reaches the threshold, and
/// it clears its own noise: the scatter of a bin is its quartile range, of half a decibel a
/// bucket, over 1.349, and it has to stand above the background by the number of times that
/// the detector is set to.
pub proof fn law_a_hot_bin_clears_its_own_noise(d: &NoveltyDetector, bin: int)
    ensures
        d.is_hot(bin) <==> {
            let range = d.model().spreads()[bin] * 500_000;
            &&& !d.ignored()[bin]
            &&& d.excess()[bin] >= d.settings().threshold_db
            &&& d.excess()[bin] * 1_349_000_000 >= d.settings().noise_sigmas * range * 1_000
        },
{
    let spread = d.model().spreads()[bin] as int;
    let s = d.settings().noise_sigmas as int;
    assert(s * (spread * 500_000) * 1_000 == (s * spread * 500) * 1_000_000) by (nonlinear_arith);
    let x = d.excess()[bin] as int;
    assert(x * 1_349_000_000 == (x * 1_349) * 1_000_000);
}

/// A time in frames is to the nearest: within half a frame, but for a time too short to be one
/// frame or too long to count.
pub proof fn law_a_time_is_the_nearest_frames(g: FrameGeometry, seconds: int)
    requires
        g.hop > 0,
    ensures
        1 <= g.frames_of(seconds) <= usize::MAX,
        1 < g.frames_of(seconds) < usize::MAX ==> -(g.hop * ONE) <= 2 * (g.frames_of(seconds) * (
        g.hop * ONE) - seconds * g.sample_rate) <= g.hop * ONE,
        2 * (seconds * g.sample_rate) >= 3 * (g.hop * ONE) ==> g.frames_of(seconds) >= 2 || seconds
            <= 0,
{
    let step = g.hop * ONE;
    let x = 2 * (seconds * g.sample_rate) + step;
    vstd::arithmetic::div_mod::lemma_fundamental_div_mod(x, 2 * step);
    let q = x / (2 * step);
    assert((2 * step) * q == 2 * (q * step)) by (nonlinear_arith);
    if x >= 4 * step {
        assert(q >= 2) by (nonlinear_arith)
            requires
                q == x / (2 * step),
                x >= 4 * step,
                step > 0,
        ;
    }
}

proof fn lemma_total_folds(excess: Seq<i64>, start: int, end: int, f: spec_fn(int, i64) -> int)
    requires
        0 <= start <= end <= excess.len(),
        forall|a: int, b: i64| #[trigger] f(a, b) == a + b,
    ensures
        total_excess(excess, start, end) == excess.subrange(start, end).fold_left(0int, f),
    decreases end - start,
{
    let part = excess.subrange(start, end);
    if start < end {
        lemma_total_folds(excess, start, end - 1, f);
        assert(part.drop_last() =~= excess.subrange(start, end - 1));
        assert(part.last() == excess[end - 1]);
    }
}

/// A run counts by its mean: an event it is counted to gains one run, the mean excess of the run,
/// rounded down, and its flatness, unless that is nothing; one more active frame, unless this
/// frame had been counted; and keeps where it began and where its peak was at first.
pub proof fn law_a_run_counts_by_its_mean(
    e: OpenEvent,
    frame: u64,
    run: (usize, usize),
    excess: Seq<i64>,
    flatness: u64,
)
    requires
        run.0 < run.1 <= excess.len(),
        excess_ok(excess),
        sums_ok(e),
        e.excess_count < u64::MAX,
        e.active_frames < u64::MAX,
    ensures
        ({
            let r = extended(e, frame, run, excess, flatness);
            let n = run.1 - run.0;
            let sum = excess.subrange(run.0 as int, run.1 as int).fold_left(
                0int,
                |a: int, b: i64| a + b,
            );
            let gain = r.excess_sum - e.excess_sum;
            &&& gain * n <= sum < (gain + 1) * n
            &&& r.excess_count == e.excess_count + 1
            &&& flatness > 0 ==> r.flatness_sum == e.flatness_sum + flatness && r.flatness_count
                == e.flatness_count + 1
            &&& flatness == 0 ==> r.flatness_sum == e.flatness_sum && r.flatness_count
                == e.flatness_count
            &&& e.last_active_frame != frame ==> r.active_frames == e.active_frames + 1
            &&& e.last_active_frame == frame && e.active_frames > 0 ==> r.active_frames
                == e.active_frames
            &&& r.start_frame == e.start_frame
            &&& r.first_peak_bin == e.first_peak_bin
            &&& r.last_active_frame == frame
        }),
{
    let n = run.1 - run.0;
    let total = total_excess(excess, run.0 as int, run.1 as int);
    lemma_total_folds(excess, run.0 as int, run.1 as int, |a: int, b: i64| a + b);
    lemma_total_bounds(excess, run.0 as int, run.1 as int);
    lemma_rounded_down(total, n);
    let mean = total / n;
    assert(-EXCESS_MAX <= mean <= EXCESS_MAX) by (nonlinear_arith)
        requires
            -(n * EXCESS_MAX) <= total <= n * EXCESS_MAX,
            mean == total / n,
            n > 0,
    ;
    let c = e.excess_count as int;
    assert(c * EXCESS_MAX <= 0x1_0000_0000_0000_0000 * EXCESS_MAX) by (nonlinear_arith)
        requires
            0 <= c <= 0x1_0000_0000_0000_0000,
    ;
    let f = e.flatness_count as int;
    assert(f * u64::MAX <= (u64::MAX - 1) * u64::MAX) by (nonlinear_arith)
        requires
            0 <= f <= u64::MAX - 1,
    ;
}

} // verus!
