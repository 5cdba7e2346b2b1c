//! On/off keying: is a single tone being switched on and off deliberately?
//!
//! One tone, switched on and off, slowly. Any tone keyed into two well-populated,
//! resolvable lengths counts; the ratio of the lengths is reported as evidence rather than
//! used as a gate.
use crate::arith::{floor_div, ONE};
use crate::order::{sorted, values};
use crate::rank;
use std::collections::VecDeque;
use vstd::prelude::*;

verus! {

/// How much history an assessment covers, in seconds.
pub const MORSE_HISTORY_SECONDS: u64 = 60;

/// Shortest run counted as a mark or gap rather than a flicker.
pub const MIN_RUN_FRAMES: u64 = 2;

/// Marks needed before two clusters mean anything.
pub const MIN_MARKS: usize = 12;

/// A dot must be this many frames long before its duration is a measurement. Ambience
/// crossing the on/off threshold produces runs of two or three frames, and clustering those
/// manufactures a textbook ratio out of frame quantisation.
pub const MIN_DOT_FRAMES: u64 = 6;

/// How far above the band's own quiet level counts as on, in millionths of a decibel.
pub const ON_THRESHOLD_DB: i64 = 6_000_000;

/// The level that stands for an infinite one. No finite level that a spectrum can hold comes
/// near it.
pub const INFINITE_DB: i32 = 0x7fff_ffff;

/// Parts of a millionth of a decibel in which the quiet level is held: it rises by so little
/// at a time that whole millionths would hold it back.
pub const FLOOR_PARTS: i64 = 1_000_000;

/// How often the two classes are drawn afresh, at most.
pub const MAX_ROUNDS: usize = 50;

/// A completed run of frames, on or off.
#[derive(Clone, Copy, Debug, PartialEq, Eq, Structural)]
pub struct Run {
    pub on: bool,
    pub frames: u64,
}

/// What the detector currently believes. Ratios, times and frequencies are in millionths.
#[derive(Clone, Copy, Debug, PartialEq, Eq, Structural)]
pub struct MorseDetection {
    pub confidence: u64,
    /// Where in the band the marks were loudest.
    pub tone_hz: u128,
    pub dot_seconds: u128,
    pub dash_seconds: u128,
    /// Dash divided by dot. Morse is three.
    pub ratio: u128,
    pub marks: usize,
    /// Share of marks in the smaller of the two classes.
    pub balance: u64,
}

impl MorseDetection {
    pub fn is_present(&self, threshold: u64) -> (r: bool)
        ensures
            r == (self.confidence >= threshold),
    {
        self.confidence >= threshold
    }
}

/// What a detector remembers.
pub struct MorseMemory {
    pub runs: Seq<Run>,
    pub current: Option<Run>,
    /// Slowly-learned quiet level, so that a loud ship does not read as one endless mark.
    /// It falls quickly and rises slowly, so a long mark cannot drag it up and silence its
    /// own detection. In parts of a millionth of a decibel.
    pub floor: Option<int>,
    /// Bin that was loudest while a mark was on.
    pub loud_bin: int,
}

pub open spec fn frames_of(runs: Seq<Run>) -> int
    decreases runs.len(),
{
    if runs.len() == 0 {
        0
    } else {
        runs.first().frames + frames_of(runs.drop_first())
    }
}

/// The runs left once the oldest are let go, down to `capacity` frames.
pub open spec fn recent(runs: Seq<Run>, capacity: int) -> Seq<Run>
    decreases runs.len(),
{
    if runs.len() > 0 && frames_of(runs) > capacity {
        recent(runs.drop_first(), capacity)
    } else {
        runs
    }
}

/// The quiet level after a frame with its loudest at `peak`, in the parts it is held in.
pub open spec fn floor_after(floor: Option<int>, peak: int) -> int {
    match floor {
        None => peak,
        Some(f) => if peak < f {
            f + (peak - f) / 4
        } else {
            f + (peak - f) / 500
        },
    }
}

impl MorseMemory {
    /// After a frame whose band was loudest in `bin`, at `peak`.
    pub open spec fn after(self, bin: int, peak: int, capacity: int) -> MorseMemory {
        let floor = floor_after(self.floor, peak * FLOOR_PARTS);
        let on = peak * FLOOR_PARTS - floor >= ON_THRESHOLD_DB * FLOOR_PARTS;
        let (runs, current) = match self.current {
            None => (self.runs, Run { on, frames: 1 }),
            Some(run) => if run.on == on {
                (self.runs, Run { on, frames: (run.frames + 1) as u64 })
            } else {
                (
                    if run.frames >= MIN_RUN_FRAMES {
                        self.runs.push(run)
                    } else {
                        self.runs
                    },
                    Run { on, frames: 1 },
                )
            },
        };
        MorseMemory {
            runs: recent(runs, capacity),
            current: Some(current),
            floor: Some(floor),
            loud_bin: if on {
                bin
            } else {
                self.loud_bin
            },
        }
    }
}

/// The first of the loudest bins from `lo` up to but not including `hi`; none where no
/// level is a number.
pub open spec fn loudest(db: Seq<Option<i32>>, lo: int, hi: int) -> Option<int>
    decreases hi - lo,
{
    if hi <= lo {
        None
    } else {
        let before = loudest(db, lo, hi - 1);
        match (before, db[hi - 1]) {
            (None, Some(_)) => Some(hi - 1),
            (Some(b), Some(v)) => if v > db[b]->Some_0 {
                Some(hi - 1)
            } else {
                before
            },
            (_, None) => before,
        }
    }
}

/// The lengths of the marks.
pub open spec fn marks_of(runs: Seq<Run>) -> Seq<u64>
    decreases runs.len(),
{
    if runs.len() == 0 {
        Seq::empty()
    } else if runs.last().on {
        marks_of(runs.drop_last()).push(runs.last().frames)
    } else {
        marks_of(runs.drop_last())
    }
}

pub open spec fn as_ints(s: Seq<u64>) -> Seq<int> {
    s.map_values(|v: u64| v as int)
}

/// The same lengths, shortest first.
pub open spec fn in_order(s: Seq<u64>) -> Seq<u64> {
    Seq::new(s.len(), |k: int| rank::ranked(as_ints(s), k) as u64)
}

pub open spec fn distance(a: int, b: int) -> int {
    if a < b {
        b - a
    } else {
        a - b
    }
}

/// Which values lie nearer the upper centre than the lower.
pub open spec fn picks(s: Seq<u64>, low: u64, high: u64) -> Seq<bool> {
    s.map_values(|v: u64| distance(v as int, high as int) < distance(v as int, low as int))
}

/// The values with a given label.
pub open spec fn members(s: Seq<u64>, labels: Seq<bool>, class: bool) -> Seq<u64>
    decreases s.len(),
{
    if s.len() == 0 {
        Seq::empty()
    } else {
        let before = members(s.drop_last(), labels, class);
        if labels[s.len() - 1] == class {
            before.push(s.last())
        } else {
            before
        }
    }
}

/// The middle of a class, or where its centre was while it is empty.
pub open spec fn centre(s: Seq<u64>, labels: Seq<bool>, class: bool, or: u64) -> u64 {
    let m = members(s, labels, class);
    if m.len() == 0 {
        or
    } else {
        m[m.len() as int / 2]
    }
}

/// The labels once they no longer change, or once `rounds` rounds are over.
pub open spec fn settled(s: Seq<u64>, low: u64, high: u64, labels: Seq<bool>, rounds: nat) -> Seq<
    bool,
>
    decreases rounds,
{
    if rounds == 0 {
        labels
    } else {
        let next = picks(s, low, high);
        if next == labels {
            next
        } else {
            settled(
                s,
                centre(s, next, false, low),
                centre(s, next, true, high),
                next,
                (rounds - 1) as nat,
            )
        }
    }
}

/// Two classes of lengths: the shorter and the longer middle, and how many there are of
/// each label.
pub open spec fn classes(s: Seq<u64>) -> Option<(u64, u64, usize, usize)> {
    let low = s[(s.len() - 1) / 10];
    let high = s[(s.len() - 1) * 9 / 10];
    let labels = settled(s, low, high, Seq::new(s.len(), |i: int| false), MAX_ROUNDS as nat);
    let a = members(s, labels, false);
    let b = members(s, labels, true);
    if s.len() < 2 || low == high || a.len() == 0 || b.len() == 0 {
        None
    } else {
        let x = a[a.len() as int / 2];
        let y = b[b.len() as int / 2];
        if x <= y {
            Some((x, y, a.len() as usize, b.len() as usize))
        } else {
            Some((y, x, a.len() as usize, b.len() as usize))
        }
    }
}

fn picks_high(v: u64, low: u64, high: u64) -> (r: bool)
    ensures
        r == (distance(v as int, high as int) < distance(v as int, low as int)),
{
    let to_high: u64 = if v < high {
        high - v
    } else {
        v - high
    };
    let to_low: u64 = if v < low {
        low - v
    } else {
        v - low
    };
    to_high < to_low
}

fn collect_members(s: &Vec<u64>, labels: &Vec<bool>, class: bool) -> (r: Vec<u64>)
    requires
        s.len() == labels.len(),
    ensures
        r@ == members(s@, labels@, class),
        r.len() <= s.len(),
{
    let mut r: Vec<u64> = Vec::new();
    let mut i: usize = 0;
    assert(s@.take(0) =~= Seq::empty());
    while i < s.len()
        invariant
            s.len() == labels.len(),
            i <= s.len(),
            r.len() <= i,
            r@ == members(s@.take(i as int), labels@, class),
        decreases s.len() - i,
    {
        assert(s@.take(i + 1).drop_last() =~= s@.take(i as int));
        if labels[i] == class {
            r.push(s[i]);
        }
        i = i + 1;
    }
    assert(s@.take(s.len() as int) =~= s@);
    r
}

fn find_centre(s: &Vec<u64>, labels: &Vec<bool>, class: bool, or: u64) -> (r: u64)
    requires
        s.len() == labels.len(),
    ensures
        r == centre(s@, labels@, class, or),
{
    let m = collect_members(s, labels, class);
    if m.len() == 0 {
        or
    } else {
        m[m.len() / 2]
    }
}

fn settle(s: &Vec<u64>, low: u64, high: u64) -> (r: Vec<bool>)
    ensures
        r@ == settled(s@, low, high, Seq::new(s@.len(), |i: int| false), MAX_ROUNDS as nat),
        r.len() == s.len(),
{
    let mut labels: Vec<bool> = vec![false; s.len()];
    let mut c0: u64 = low;
    let mut c1: u64 = high;
    let mut rounds: usize = MAX_ROUNDS;
    let ghost goal = settled(
        s@,
        low,
        high,
        Seq::new(s@.len(), |i: int| false),
        MAX_ROUNDS as nat,
    );
    assert(labels@ =~= Seq::new(s@.len(), |i: int| false));
    while rounds > 0
        invariant
            labels.len() == s.len(),
            goal == settled(
                s@,
                low,
                high,
                Seq::new(s@.len(), |i: int| false),
                MAX_ROUNDS as nat,
            ),
            goal == settled(s@, c0, c1, labels@, rounds as nat),
        decreases rounds,
    {
        let mut next: Vec<bool> = Vec::with_capacity(s.len());
        let mut moved: bool = false;
        let mut i: usize = 0;
        while i < s.len()
            invariant
                labels.len() == s.len(),
                i <= s.len(),
                next@ =~= picks(s@, c0, c1).take(i as int),
                moved == exists|k: int| 0 <= k < i && #[trigger] next@[k] != labels@[k],
            decreases s.len() - i,
        {
            let pick: bool = picks_high(s[i], c0, c1);
            let ghost prior = next@;
            next.push(pick);
            proof {
                assert(forall|k: int| 0 <= k < i ==> #[trigger] next@[k] == prior[k]);
                if moved {
                    let k = choose|k: int| 0 <= k < i && #[trigger] prior[k] != labels@[k];
                    assert(next@[k] != labels@[k]);
                }
            }
            if labels[i] != pick {
                assert(next@[i as int] != labels@[i as int]);
                moved = true;
            }
            i = i + 1;
        }
        assert(next@ =~= picks(s@, c0, c1));
        if !moved {
            assert(next@ =~= labels@);
            return labels;
        }
        proof {
            let k = choose|k: int| 0 <= k < i && #[trigger] next@[k] != labels@[k];
            assert(next@ != labels@);
        }
        let d0: u64 = find_centre(s, &next, false, c0);
        let d1: u64 = find_centre(s, &next, true, c1);
        c0 = d0;
        c1 = d1;
        labels = next;
        rounds = rounds - 1;
    }
    labels
}

/// Split sorted durations into two classes, returning their medians and sizes.
///
/// Two medians, seeded at the 10th and 90th percentiles: not the ends of the range, which
/// one long opening tone would spoil, and not the quartiles, which fall on the same value
/// where most marks are dots. Equal seeds mean every mark is the same length, a metronome
/// rather than an alphabet.
pub fn cluster_two(s: &Vec<u64>) -> (r: Option<(u64, u64, usize, usize)>)
    ensures
        r == classes(s@),
{
    let n: usize = s.len();
    if n < 2 {
        return None;
    }
    let low: u64 = s[(n - 1) / 10];
    let upper: usize = (n - 1) / 10 * 9 + (n - 1) % 10 * 9 / 10;
    assert(upper == (n - 1) * 9 / 10);
    let high: u64 = s[upper];
    if low == high {
        return None;
    }
    let labels = settle(s, low, high);
    let a = collect_members(s, &labels, false);
    let b = collect_members(s, &labels, true);
    if a.len() == 0 || b.len() == 0 {
        return None;
    }
    let x: u64 = a[a.len() / 2];
    let y: u64 = b[b.len() / 2];
    if x <= y {
        Some((x, y, a.len(), b.len()))
    } else {
        Some((y, x, a.len(), b.len()))
    }
}

/// What the marks are evidence of, if of anything.
pub open spec fn assessed(
    m: MorseMemory,
    hop: int,
    sample_rate: int,
    fft_size: int,
    r: Option<MorseDetection>,
) -> bool {
    let marks = marks_of(m.runs);
    let found = classes(in_order(marks));
    match r {
        None => marks.len() < MIN_MARKS || match found {
            None => true,
            Some((dot, dash, _, _)) => dash <= dot || dot < MIN_DOT_FRAMES,
        },
        Some(d) => {
            &&& marks.len() >= MIN_MARKS
            &&& found is Some
            &&& ({
                let (dot, dash, short, long) = found->Some_0;
                let few = if short < long {
                    short
                } else {
                    long
                };
                &&& dash > dot >= MIN_DOT_FRAMES
                &&& d.tone_hz == m.loud_bin * sample_rate * ONE / fft_size
                &&& d.dot_seconds == dot * hop * ONE / sample_rate
                &&& d.dash_seconds == dash * hop * ONE / sample_rate
                &&& d.ratio == dash * ONE / (dot as int)
                &&& d.marks == marks.len()
                &&& d.balance == few * ONE / (marks.len() as int)
                &&& d.confidence == certainty(
                    dot as int,
                    dash as int,
                    few as int,
                    marks.len() as int,
                )
            })
        },
    }
}

/// The confidence in two lengths: they differ by half at least, and both are there in
/// quantity. One dash among fifty dots is a glitch, not an alphabet, so the rarer of the
/// two should be 8% of the marks.
pub open spec fn certainty(dot: int, dash: int, few: int, marks: int) -> int {
    if 2 * dash < 3 * dot {
        0
    } else if few * 100 >= marks * 8 {
        ONE as int
    } else {
        few * 100 * ONE / (marks * 8)
    }
}

/// Watches one narrow low band for a tone being switched on and off.
pub struct MorseDetector {
    hop: usize,
    sample_rate: u32,
    fft_size: usize,
    lo_bin: usize,
    hi_bin: usize,
    capacity: u64,
    runs: VecDeque<Run>,
    current: Option<Run>,
    floor_db: Option<i64>,
    loud_bin: usize,
}

impl MorseDetector {
    pub closed spec fn memory(&self) -> MorseMemory {
        MorseMemory {
            runs: self.runs@,
            current: self.current,
            floor: match self.floor_db {
                None => None,
                Some(f) => Some(f as int),
            },
            loud_bin: self.loud_bin as int,
        }
    }

    /// Frames between analyses, samples a second, and samples an analysis spans.
    pub closed spec fn shape(&self) -> (int, int, int) {
        (self.hop as int, self.sample_rate as int, self.fft_size as int)
    }

    /// The bins watched, from the first up to but not including the second.
    pub closed spec fn band(&self) -> (int, int) {
        (self.lo_bin as int, self.hi_bin as int)
    }

    /// How many frames of runs are kept.
    pub closed spec fn kept(&self) -> int {
        self.capacity as int
    }

    pub closed spec fn wf(&self) -> bool {
        &&& self.hop > 0
        &&& self.sample_rate > 0
        &&& self.fft_size > 0
        &&& self.lo_bin < self.hi_bin
        &&& self.capacity == MORSE_HISTORY_SECONDS * self.sample_rate / (self.hop as int)
        &&& 0 <= frames_of(self.runs@) <= self.capacity
        &&& self.floor_db matches Some(f) ==> -0x8000_0000 * 1_000_000 <= f <= 0x7fff_ffff * 1_000_000
    }

    /// This is the detector `before` once it has heard a frame.
    pub open spec fn follows(&self, before: &Self, spectrum: Seq<Option<i32>>) -> bool {
        let (lo, hi) = before.band();
        let end = if hi < spectrum.len() {
            hi
        } else {
            spectrum.len() as int
        };
        &&& self.shape() == before.shape()
        &&& self.band() == before.band()
        &&& self.kept() == before.kept()
        &&& match loudest(spectrum, lo, end) {
            None => self.memory() == before.memory(),
            Some(bin) => self.memory() == if spectrum[bin] == Some(INFINITE_DB) {
                before.memory()
            } else {
                before.memory().after(bin, spectrum[bin]->Some_0 as int, before.kept())
            },
        }
    }

    /// How long the run under way has lasted.
    pub open spec fn run_frames(&self) -> int {
        match self.memory().current {
            None => 0,
            Some(run) => run.frames as int,
        }
    }

    /// A detector that has heard nothing yet, with a band to watch.
    pub open spec fn is_fresh(
        &self,
        hop: int,
        sample_rate: int,
        fft_size: int,
        lo_hz: int,
        hi_hz: int,
    ) -> bool {
        &&& self.shape() == (hop, sample_rate, fft_size)
        &&& self.band() == watched(lo_hz, hi_hz, sample_rate, fft_size)
        &&& self.kept() == MORSE_HISTORY_SECONDS * sample_rate / hop
        &&& self.memory() == (MorseMemory {
            runs: Seq::empty(),
            current: None,
            floor: None,
            loud_bin: self.band().0,
        })
    }

    /// Watch the band from `lo_hz` to `hi_hz`, in millionths of a hertz.
    pub fn new(hop: usize, sample_rate: u32, fft_size: usize, lo_hz: u64, hi_hz: u64) -> (r: Self)
        requires
            hop > 0,
            sample_rate > 0,
            fft_size > 0,
            lo_hz * fft_size / (sample_rate * ONE) < usize::MAX,
            (hi_hz * fft_size + sample_rate * ONE - 1) / (sample_rate * ONE) <= usize::MAX,
        ensures
            r.wf(),
            r.is_fresh(
                hop as int,
                sample_rate as int,
                fft_size as int,
                lo_hz as int,
                hi_hz as int,
            ),
    {
        proof {
            assert(0 <= lo_hz * fft_size <= 0xffff_ffff_ffff_ffff * 0xffff_ffff_ffff_ffff && 0 <= hi_hz
                * fft_size <= 0xffff_ffff_ffff_ffff * 0xffff_ffff_ffff_ffff) by (nonlinear_arith)
                requires
                    0 <= lo_hz <= 0xffff_ffff_ffff_ffff,
                    0 <= hi_hz <= 0xffff_ffff_ffff_ffff,
                    0 <= fft_size <= 0xffff_ffff_ffff_ffff,
            ;
        }
        let rate: u128 = sample_rate as u128 * 1_000_000;
        let low: u128 = lo_hz as u128 * fft_size as u128 / rate;
        let lo_bin: usize = if low > 1 {
            low as usize
        } else {
            1
        };
        let top: u128 = hi_hz as u128 * fft_size as u128;
        // Rounding up without adding first, which need not fit.
        let high: u128 = if top % rate == 0 {
            top / rate
        } else {
            top / rate + 1
        };
        proof {
            lemma_round_up(top as int, rate as int);
            assert(MORSE_HISTORY_SECONDS * sample_rate / (hop as int) <= MORSE_HISTORY_SECONDS
                * sample_rate) by (nonlinear_arith)
                requires
                    hop >= 1,
                    MORSE_HISTORY_SECONDS * sample_rate >= 0,
            ;
        }
        let hi_bin: usize = if high > lo_bin as u128 {
            high as usize
        } else {
            lo_bin + 1
        };
        let r = MorseDetector {
            hop,
            sample_rate,
            fft_size,
            lo_bin,
            hi_bin,
            capacity: (MORSE_HISTORY_SECONDS as u128 * sample_rate as u128 / hop as u128) as u64,
            runs: VecDeque::new(),
            current: None,
            floor_db: None,
            loud_bin: lo_bin,
        };
        assert(r.memory().runs =~= Seq::empty());
        r
    }

    /// Feed one frame's spectrum, level by bin. A spectrum that does not reach the band, or
    /// holds no number there, or an infinite level, is passed over.
    pub fn push(&mut self, spectrum_db: &[Option<i32>])
        requires
            old(self).wf(),
            old(self).run_frames() < u64::MAX,
        ensures
            final(self).wf(),
            final(self).follows(old(self), spectrum_db@),
            final(self).run_frames() <= old(self).run_frames() + 1,
    {
        let hi: usize = if self.hi_bin < spectrum_db.len() {
            self.hi_bin
        } else {
            spectrum_db.len()
        };
        let (bin, peak): (usize, i32) = match find_loudest(spectrum_db, self.lo_bin, hi) {
            None => {
                return;
            },
            Some(found) => found,
        };
        if peak == INFINITE_DB {
            return;
        }
        let wide: i64 = peak as i64 * FLOOR_PARTS;
        let floor: i64 = match self.floor_db {
            None => wide,
            Some(f) => {
                if wide < f {
                    f + floor_div((wide - f) as i128, 4) as i64
                } else {
                    f + floor_div((wide - f) as i128, 500) as i64
                }
            },
        };
        self.floor_db = Some(floor);
        let on: bool = wide - floor >= ON_THRESHOLD_DB * FLOOR_PARTS;
        if on {
            self.loud_bin = bin;
        }
        let ghost before = self.runs@;
        match self.current {
            None => {
                self.current = Some(Run { on, frames: 1 });
            },
            Some(run) => {
                if run.on == on {
                    self.current = Some(Run { on, frames: run.frames + 1 });
                } else {
                    self.current = Some(Run { on, frames: 1 });
                    if run.frames >= MIN_RUN_FRAMES {
                        self.runs.push_back(run);
                        proof {
                            lemma_frames_push(before, run);
                        }
                    }
                }
            },
        }
        let ghost grown = self.runs@;
        let mut held: u128 = self.count_frames();
        let ghost this = *self;
        while held > self.capacity as u128
            invariant
                *self == (MorseDetector { runs: self.runs, ..this }),
                held == frames_of(self.runs@),
                recent(grown, self.capacity as int) == recent(self.runs@, self.capacity as int),
            decreases self.runs.len(),
        {
            let ghost here = self.runs@;
            proof {
                lemma_frames_nonnegative(here.drop_first());
            }
            match self.runs.pop_front() {
                None => {},
                Some(r) => {
                    held = held - r.frames as u128;
                },
            }
            assert(self.runs@ =~= here.drop_first());
        }
    }

    fn count_frames(&self) -> (r: u128)
        requires
            frames_of(self.runs@) <= 2 * u64::MAX,
        ensures
            r == frames_of(self.runs@),
    {
        let ghost all = self.runs@;
        let mut total: u128 = 0;
        let mut i: usize = 0;
        assert(all.skip(0) =~= all);
        proof {
            lemma_frames_nonnegative(all);
        }
        while i < self.runs.len()
            invariant
                all == self.runs@,
                frames_of(all) <= 2 * u64::MAX,
                i <= self.runs.len(),
                total + frames_of(all.skip(i as int)) == frames_of(all),
                total <= frames_of(all),
            decreases self.runs.len() - i,
        {
            proof {
                let here = all.skip(i as int);
                assert(here.drop_first() =~= all.skip(i + 1));
                assert(here.first() == all[i as int]);
                lemma_frames_nonnegative(all.skip(i + 1));
            }
            total = total + self.runs[i].frames as u128;
            i = i + 1;
        }
        assert(all.skip(all.len() as int) =~= Seq::empty());
        total
    }

    /// The lengths of the marks, shortest first.
    fn sorted_marks(&self) -> (r: Vec<u64>)
        requires
            self.wf(),
        ensures
            r@ == in_order(marks_of(self.memory().runs)),
            forall|k: int| 0 <= k < r.len() ==> #[trigger] r[k] <= self.capacity,
    {
        let ghost all = self.runs@;
        let ghost cap = self.capacity as int;
        proof {
            lemma_marks_frames(all, cap);
        }
        let mut keys: Vec<i128> = Vec::new();
        let mut i: usize = 0;
        assert(all.take(0) =~= Seq::empty());
        while i < self.runs.len()
            invariant
                all == self.runs@,
                i <= self.runs.len(),
                keys.len() == marks_of(all.take(i as int)).len(),
                forall|k: int|
                    0 <= k < keys.len() ==> #[trigger] keys[k] == marks_of(all.take(i as int))[k],
            decreases self.runs.len() - i,
        {
            assert(all.take(i + 1).drop_last() =~= all.take(i as int));
            let run: Run = self.runs[i];
            if run.on {
                keys.push(run.frames as i128);
            }
            i = i + 1;
        }
        let ghost marks = marks_of(all);
        assert(all.take(all.len() as int) =~= all);
        assert(values(keys@) =~= as_ints(marks));
        let ordered = sorted(keys.as_slice());
        let mut r: Vec<u64> = Vec::with_capacity(ordered.len());
        i = 0;
        while i < ordered.len()
            invariant
                ordered.len() == marks.len(),
                cap == self.capacity,
                forall|k: int| 0 <= k < marks.len() ==> #[trigger] marks[k] <= cap,
                values(keys@) == as_ints(marks),
                forall|k: int|
                    0 <= k < ordered.len() ==> #[trigger] ordered[k] == rank::ranked(
                        as_ints(marks),
                        k,
                    ),
                forall|k: int|
                    0 <= k < ordered.len() ==> rank::is_rank(
                        as_ints(marks),
                        k,
                        (#[trigger] ordered[k]) as int,
                    ),
                i <= ordered.len(),
                r.len() == i,
                forall|k: int| 0 <= k < i ==> #[trigger] r[k] == in_order(marks)[k],
                forall|k: int| 0 <= k < i ==> #[trigger] r[k] <= self.capacity,
            decreases ordered.len() - i,
        {
            proof {
                // A ranked value lies among the values.
                let s = as_ints(marks);
                let v = ordered[i as int] as int;
                assert forall|k: int| 0 <= k < s.len() implies 0 <= #[trigger] s[k] < cap + 1 by {
                    assert(marks[k] <= cap);
                }
                rank::lemma_extremes(s, 0, cap + 1);
                if v < 0 {
                    rank::lemma_monotone(s, v + 1, 0);
                }
                if v > cap {
                    rank::lemma_monotone(s, cap + 1, v);
                }
            }
            r.push(ordered[i] as u64);
            i = i + 1;
        }
        assert(r@ =~= in_order(marks));
        r
    }

    /// The current assessment, if there is enough evidence for one.
    pub fn evaluate(&self) -> (r: Option<MorseDetection>)
        requires
            self.wf(),
        ensures
            assessed(self.memory(), self.shape().0, self.shape().1, self.shape().2, r),
            r matches Some(d) ==> d.confidence <= ONE,
            r matches Some(d) ==> (d.ratio >= 1_500_000 && d.balance >= 80_000 ==> d.confidence
                == ONE) && (d.ratio < 1_500_000 ==> d.confidence == 0),
            r matches Some(d) ==> ONE < (d.balance + 1) * d.marks && 2 * d.balance <= ONE,
    {
        let marks = self.sorted_marks();
        let n: usize = marks.len();
        if n < MIN_MARKS {
            return None;
        }
        let (dot, dash, short, long): (u64, u64, usize, usize) = match cluster_two(&marks) {
            None => {
                return None;
            },
            Some(found) => found,
        };
        if dash <= dot || dot < MIN_DOT_FRAMES {
            return None;
        }
        let few: usize = if short < long {
            short
        } else {
            long
        };
        proof {
            let labels = settled(
                marks@,
                marks@[(n - 1) / 10],
                marks@[(n - 1) * 9 / 10],
                Seq::new(marks@.len(), |i: int| false),
                MAX_ROUNDS as nat,
            );
            lemma_members_within(marks@, labels, false, self.capacity as int);
            lemma_members_within(marks@, labels, true, self.capacity as int);
            let b = self.loud_bin as int;
            assert(0 <= b * self.sample_rate <= 0x1_0000_0000_0000_0000 * 0x1_0000_0000)
                by (nonlinear_arith)
                requires
                    0 <= b <= 0x1_0000_0000_0000_0000,
                    0 <= self.sample_rate <= 0x1_0000_0000,
            ;
            let f = few as int;
            let m = n as int;
            assert(0 <= f * 1_000_000 / m <= 1_000_000) by (nonlinear_arith)
                requires
                    0 <= f <= m,
                    m > 0,
            ;
        }
        let confidence: u64 = if 2 * (dash as u128) < 3 * (dot as u128) {
            0
        } else if few as u128 * 100 >= n as u128 * 8 {
            ONE
        } else {
            proof {
                let f = few as int;
                let m = n as int;
                assert(0 <= f * 100 * 1_000_000 / (m * 8) <= 1_000_000) by (nonlinear_arith)
                    requires
                        0 <= f * 100 < m * 8,
                        m > 0,
                ;
            }
            (few as u128 * 100 * 1_000_000 / (n as u128 * 8)) as u64
        };
        let found: Option<MorseDetection> = Some(
            MorseDetection {
                confidence,
                tone_hz: self.loud_bin as u128 * self.sample_rate as u128 * 1_000_000
                    / self.fft_size as u128,
                dot_seconds: self.frame_time(dot),
                dash_seconds: self.frame_time(dash),
                ratio: dash as u128 * 1_000_000 / dot as u128,
                marks: n,
                balance: (few as u128 * 1_000_000 / n as u128) as u64,
            },
        );
        proof {
            let d = found->Some_0;
            law_two_lengths_in_quantity_are_certain(self, d);
            law_balance_is_the_share_of_the_smaller_class(self, d);
            let balance = d.balance as int;
            let all = n as int;
            let (t, x, y) = choose|t: int, x: int, y: int| #[trigger]
                splits(self.memory().runs, t, x, y) && measures(
                    d,
                    self.memory().runs,
                    self.shape().0,
                    self.shape().1,
                    t,
                    x,
                    y,
                );
            let share = if marks_up_to(self.memory().runs, t) <= all - marks_up_to(
                self.memory().runs,
                t,
            ) {
                marks_up_to(self.memory().runs, t)
            } else {
                all - marks_up_to(self.memory().runs, t)
            };
            assert(2 * balance <= 1_000_000) by (nonlinear_arith)
                requires
                    balance * all <= share * 1_000_000,
                    2 * share <= all,
                    all > 0,
            ;
        }
        found
    }
}

impl MorseDetector {
    /// The time that some frames take, in millionths of a second, rounded down.
    fn frame_time(&self, frames: u64) -> (r: u128)
        requires
            self.wf(),
            frames <= self.capacity,
        ensures
            r == frames * self.hop * ONE / (self.sample_rate as int),
    {
        proof {
            let total = MORSE_HISTORY_SECONDS * self.sample_rate;
            let hop = self.hop as int;
            vstd::arithmetic::div_mod::lemma_fundamental_div_mod(total, hop);
            assert(0 <= frames * hop <= total) by (nonlinear_arith)
                requires
                    0 <= frames <= self.capacity,
                    hop * self.capacity <= total,
                    hop > 0,
            ;
        }
        frames as u128 * self.hop as u128 * 1_000_000 / self.sample_rate as u128
    }
}

/// The bins that a band of frequencies covers, one at least, and never the one at zero.
pub open spec fn watched(lo_hz: int, hi_hz: int, sample_rate: int, fft_size: int) -> (int, int) {
    let rate = sample_rate * ONE;
    let low = if lo_hz * fft_size / rate > 1 {
        lo_hz * fft_size / rate
    } else {
        1
    };
    let high = (hi_hz * fft_size + rate - 1) / rate;
    (
        low,
        if high > low {
            high
        } else {
            low + 1
        },
    )
}

proof fn lemma_round_up(a: int, b: int)
    requires
        a >= 0,
        b > 0,
    ensures
        (a + b - 1) / b == if a % b == 0 {
            a / b
        } else {
            a / b + 1
        },
{
    vstd::arithmetic::div_mod::lemma_fundamental_div_mod(a, b);
    let q = a / b;
    let t = a % b;
    if t == 0 {
        assert(a + b - 1 == q * b + (b - 1)) by (nonlinear_arith)
            requires
                a == b * q,
        ;
        vstd::arithmetic::div_mod::lemma_fundamental_div_mod_converse(a + b - 1, b, q, b - 1);
    } else {
        assert(a + b - 1 == (q + 1) * b + (t - 1)) by (nonlinear_arith)
            requires
                a == b * q + t,
        ;
        vstd::arithmetic::div_mod::lemma_fundamental_div_mod_converse(a + b - 1, b, q + 1, t - 1);
    }
}

/// The first of the loudest bins of a stretch, and its level.
fn find_loudest(db: &[Option<i32>], lo: usize, hi: usize) -> (r: Option<(usize, i32)>)
    requires
        hi <= db.len(),
    ensures
        match r {
            None => loudest(db@, lo as int, hi as int) is None,
            Some((bin, v)) => loudest(db@, lo as int, hi as int) == Some(bin as int) && bin
                < db.len() && db@[bin as int] == Some(v),
        },
{
    let mut best: Option<(usize, i32)> = None;
    let mut i: usize = lo;
    while i < hi
        invariant
            lo <= i,
            hi <= db.len(),
            i <= hi || i == lo,
            match best {
                None => loudest(db@, lo as int, i as int) is None,
                Some((bin, v)) => loudest(db@, lo as int, i as int) == Some(bin as int) && bin
                    < db.len() && db@[bin as int] == Some(v),
            },
        decreases hi - i,
    {
        if let Some(v) = db[i] {
            match best {
                None => {
                    best = Some((i, v));
                },
                Some((_, high)) => {
                    if v > high {
                        best = Some((i, v));
                    }
                },
            }
        }
        i = i + 1;
    }
    best
}

proof fn lemma_frames_nonnegative(runs: Seq<Run>)
    ensures
        0 <= frames_of(runs),
    decreases runs.len(),
{
    if runs.len() > 0 {
        lemma_frames_nonnegative(runs.drop_first());
    }
}

proof fn lemma_frames_push(runs: Seq<Run>, r: Run)
    ensures
        frames_of(runs.push(r)) == frames_of(runs) + r.frames,
    decreases runs.len(),
{
    if runs.len() == 0 {
        assert(runs.push(r).drop_first() =~= Seq::empty());
        reveal_with_fuel(frames_of, 2);
    } else {
        lemma_frames_push(runs.drop_first(), r);
        assert(runs.push(r).drop_first() =~= runs.drop_first().push(r));
    }
}

/// No mark is longer than all the runs together.
proof fn lemma_marks_frames(runs: Seq<Run>, cap: int)
    requires
        frames_of(runs) <= cap,
    ensures
        forall|k: int| 0 <= k < marks_of(runs).len() ==> #[trigger] marks_of(runs)[k] <= cap,
    decreases runs.len(),
{
    if runs.len() > 0 {
        let rest = runs.drop_last();
        assert(rest.push(runs.last()) =~= runs);
        lemma_frames_push(rest, runs.last());
        lemma_frames_nonnegative(rest);
        lemma_marks_frames(rest, cap);
        assert forall|k: int| 0 <= k < marks_of(runs).len() implies #[trigger] marks_of(runs)[k]
            <= cap by {
            if k < marks_of(rest).len() {
                assert(marks_of(rest)[k] <= cap);
            }
        }
    }
}

proof fn lemma_members_within(s: Seq<u64>, labels: Seq<bool>, class: bool, cap: int)
    requires
        forall|k: int| 0 <= k < s.len() ==> #[trigger] s[k] <= cap,
    ensures
        members(s, labels, class).len() <= s.len(),
        forall|k: int|
            0 <= k < members(s, labels, class).len() ==> #[trigger] members(s, labels, class)[k]
                <= cap,
    decreases s.len(),
{
    if s.len() > 0 {
        let rest = s.drop_last();
        assert forall|k: int| 0 <= k < rest.len() implies #[trigger] rest[k] <= cap by {
            assert(s[k] <= cap);
        }
        assert(s[s.len() - 1] <= cap);
        lemma_members_within(rest, labels, class, cap);
    }
}

/// History is bounded: the runs that are kept last no longer than the capacity.
pub proof fn law_runs_are_let_go(runs: Seq<Run>, capacity: int)
    requires
        capacity >= 0,
    ensures
        frames_of(recent(runs, capacity)) <= capacity,
    decreases runs.len(),
{
    if runs.len() > 0 && frames_of(runs) > capacity {
        law_runs_are_let_go(runs.drop_first(), capacity);
    }
}

/// The quiet level follows what is heard and never overshoots it: it lies between where it
/// was and the loudest of the frame, and rises by no more than a five-hundredth of the way,
/// so that a long mark cannot drag it up and silence its own detection.
pub proof fn law_the_floor_follows(floor: int, peak: int)
    ensures
        peak <= floor ==> peak <= floor_after(Some(floor), peak) <= floor,
        peak >= floor ==> floor <= floor_after(Some(floor), peak) <= peak,
        peak >= floor ==> 500 * (floor_after(Some(floor), peak) - floor) <= peak - floor,
{
}

/// How many marks last no longer than `t` frames.
pub open spec fn marks_up_to(runs: Seq<Run>, t: int) -> int {
    runs.filter(|r: Run| r.on && r.frames <= t).len() as int
}

/// How many marks there are.
pub open spec fn mark_count(runs: Seq<Run>) -> int {
    runs.filter(|r: Run| r.on).len() as int
}

proof fn lemma_marks_filter(
    runs: Seq<Run>,
    t: int,
    up_to: spec_fn(Run) -> bool,
    on: spec_fn(Run) -> bool,
)
    requires
        forall|r: Run| #[trigger] up_to(r) == (r.on && r.frames <= t),
        forall|r: Run| #[trigger] on(r) == r.on,
    ensures
        rank::below(as_ints(marks_of(runs)), t + 1) == runs.filter(up_to).len(),
        marks_of(runs).len() == runs.filter(on).len(),
    decreases runs.len(),
{
    reveal(Seq::filter);
    if runs.len() > 0 {
        let before = marks_of(runs.drop_last());
        lemma_marks_filter(runs.drop_last(), t, up_to, on);
        if runs.last().on {
            assert(as_ints(before.push(runs.last().frames)).drop_last() =~= as_ints(before));
        }
    }
}

/// The marks counted as they stand and as they are ranked are the same.
proof fn lemma_marks_up_to(runs: Seq<Run>, t: int)
    ensures
        rank::below(as_ints(marks_of(runs)), t + 1) == marks_up_to(runs, t),
        marks_of(runs).len() == mark_count(runs),
        0 <= marks_up_to(runs, t) <= mark_count(runs),
{
    lemma_marks_filter(
        runs,
        t,
        |r: Run| r.on && r.frames <= t,
        |r: Run| r.on,
    );
    rank::lemma_bounds(as_ints(marks_of(runs)), t + 1);
}

/// In order, the lengths up to `t` come first, and all the lengths are there.
proof fn lemma_in_order(s: Seq<u64>, t: int, k: int)
    requires
        0 <= k < s.len(),
    ensures
        in_order(s)[k] <= t <==> k < rank::below(as_ints(s), t + 1),
        rank::is_rank(as_ints(s), k, in_order(s)[k] as int),
        s.contains(in_order(s)[k]),
{
    let all = as_ints(s);
    let v = rank::ranked(all, k);
    rank::lemma_rank_total(all, k);
    rank::law_a_rank_is_a_count(all, k);
    let i = choose|i: int| 0 <= i < all.len() && all[i] == v;
    assert(all[i] == s[i]);
    assert(s[i] == in_order(s)[k]);
    if v <= t {
        rank::lemma_monotone(all, v + 1, t + 1);
    } else {
        rank::lemma_monotone(all, t + 1, v);
    }
}

/// Values in order, of which those from place `b` on are labelled.
proof fn lemma_members_split(s: Seq<u64>, labels: Seq<bool>, b: int)
    requires
        labels.len() >= s.len(),
        0 <= b,
        forall|k: int| 0 <= k < s.len() ==> #[trigger] labels[k] == (k >= b),
    ensures
        b <= s.len() ==> members(s, labels, false) == s.take(b),
        b <= s.len() ==> members(s, labels, true) == s.skip(b),
        b > s.len() ==> members(s, labels, false) == s,
        b > s.len() ==> members(s, labels, true) == Seq::<u64>::empty(),
    decreases s.len(),
{
    if s.len() > 0 {
        let rest = s.drop_last();
        lemma_members_split(rest, labels, b);
        assert(labels[s.len() - 1] == (s.len() - 1 >= b));
        if b < s.len() {
            assert(s.take(b) =~= rest.take(b));
            assert(s.skip(b) =~= rest.skip(b).push(s.last()));
        } else if b == s.len() {
            assert(s.take(b) =~= rest.push(s.last()));
            assert(s.skip(b) =~= Seq::empty());
        } else {
            assert(rest.push(s.last()) =~= s);
        }
    } else if b == 0 {
        assert(s.take(0) =~= Seq::empty());
        assert(s.skip(0) =~= Seq::empty());
    } else {
        assert(s =~= Seq::empty());
    }
}

/// Two centres, of which the first is the lower, split values in order at the middle between
/// them, and each class has a centre of its own.
proof fn lemma_split(marks: Seq<u64>, low: u64, high: u64) -> (b: int)
    requires
        low < high,
        in_order(marks).contains(low),
        in_order(marks).contains(high),
    ensures
        ({
            let s = in_order(marks);
            let labels = picks(s, low, high);
            let t = (low + high) / 2;
            &&& 0 < b < s.len()
            &&& b == rank::below(as_ints(marks), t + 1)
            &&& low <= t < high
            &&& forall|k: int| 0 <= k < s.len() ==> (#[trigger] s[k] <= t <==> k < b)
            &&& members(s, labels, false) == s.take(b)
            &&& members(s, labels, true) == s.skip(b)
            &&& centre(s, labels, false, low) == s[b / 2]
            &&& centre(s, labels, true, high) == s[b + (s.len() - b) / 2]
            &&& s[b / 2] <= t < s[b + (s.len() - b) / 2]
        }),
{
    let s = in_order(marks);
    let labels = picks(s, low, high);
    let t = (low + high) / 2;
    let b = rank::below(as_ints(marks), t + 1);
    assert forall|k: int| 0 <= k < s.len() implies (#[trigger] s[k] <= t <==> k < b) by {
        lemma_in_order(marks, t, k);
    }
    let i = choose|i: int| 0 <= i < s.len() && s[i] == low;
    let j = choose|j: int| 0 <= j < s.len() && s[j] == high;
    assert(s[i] <= t && s[j] > t);
    rank::lemma_bounds(as_ints(marks), t + 1);
    assert forall|k: int| 0 <= k < s.len() implies #[trigger] labels[k] == (k >= b) by {
        assert(s[k] <= t <==> k < b);
        assert(labels[k] == (distance(s[k] as int, high as int) < distance(
            s[k] as int,
            low as int,
        )));
    }
    lemma_members_split(s, labels, b);
    let lower = s.take(b);
    let upper = s.skip(b);
    assert(lower[b / 2] == s[b / 2]);
    assert(upper[(s.len() - b) / 2] == s[b + (s.len() - b) / 2]);
    assert(s[b / 2] <= t <==> b / 2 < b);
    assert(s[b + (s.len() - b) / 2] <= t <==> b + (s.len() - b) / 2 < b);
    b
}

/// However often the classes are drawn afresh, they lie either side of the middle between two
/// lengths that occur.
proof fn lemma_settled(
    marks: Seq<u64>,
    low: u64,
    high: u64,
    labels: Seq<bool>,
    rounds: nat,
) -> (c: (u64, u64))
    requires
        low < high,
        in_order(marks).contains(low),
        in_order(marks).contains(high),
        rounds > 0,
    ensures
        c.0 < c.1,
        in_order(marks).contains(c.0),
        in_order(marks).contains(c.1),
        settled(in_order(marks), low, high, labels, rounds) == picks(in_order(marks), c.0, c.1),
    decreases rounds,
{
    let s = in_order(marks);
    let next = picks(s, low, high);
    if next == labels {
        (low, high)
    } else if rounds == 1 {
        reveal_with_fuel(settled, 2);
        (low, high)
    } else {
        let b = lemma_split(marks, low, high);
        let x = s[b / 2];
        let y = s[b + (s.len() - b) / 2];
        assert(s.contains(x));
        assert(s.contains(y));
        lemma_settled(marks, x, y, next, (rounds - 1) as nat)
    }
}

/// Lengths whose tenth and ninetieth hundredths differ fall into two classes, either side of
/// some length.
proof fn lemma_classes(marks: Seq<u64>) -> (r: (int, int))
    requires
        marks.len() >= 2,
        marks.len() <= usize::MAX,
        in_order(marks)[(marks.len() - 1) / 10] != in_order(marks)[(marks.len() - 1) * 9 / 10],
    ensures
        ({
            let s = in_order(marks);
            let (t, b) = r;
            &&& 0 < b < s.len()
            &&& b == rank::below(as_ints(marks), t + 1)
            &&& classes(s) == Some(
                (
                    s[b / 2],
                    s[b + (s.len() - b) / 2],
                    b as usize,
                    (s.len() - b) as usize,
                ),
            )
            &&& s[b / 2] <= t < s[b + (s.len() - b) / 2]
        }),
{
    let s = in_order(marks);
    let i = (s.len() - 1) / 10;
    let j = (s.len() - 1) * 9 / 10;
    let low = s[i];
    let high = s[j];
    lemma_in_order(marks, high as int, i);
    lemma_in_order(marks, high as int, j);
    assert(low < high);
    assert(s.contains(low));
    assert(s.contains(high));
    let c = lemma_settled(marks, low, high, Seq::new(s.len(), |i: int| false), MAX_ROUNDS as nat);
    let b = lemma_split(marks, c.0, c.1);
    assert(s.take(b)[b / 2] == s[b / 2]);
    assert(s.skip(b)[(s.len() - b) / 2] == s[b + (s.len() - b) / 2]);
    ((c.0 + c.1) / 2, b)
}

proof fn lemma_quotients(x: int, y: int, q: int)
    requires
        y > 0,
        q == x / y,
    ensures
        q * y <= x < (q + 1) * y,
{
    vstd::arithmetic::div_mod::lemma_fundamental_div_mod(x, y);
    assert(y * q == q * y && (q + 1) * y == q * y + y) by (nonlinear_arith);
}

/// A bound on what a share is of, from the share.
proof fn lemma_share_bound(few: int, n: int, balance: int, percent: int)
    requires
        n > 0,
        balance == few * ONE / n,
    ensures
        balance >= percent * 10_000 <==> few * 100 >= percent * n,
{
    lemma_quotients(few * ONE, n, balance);
    if few * 100 >= percent * n {
        assert(balance >= percent * 10_000) by (nonlinear_arith)
            requires
                few * 100 >= percent * n,
                few * 1_000_000 < (balance + 1) * n,
                n > 0,
        ;
    } else {
        assert(balance < percent * 10_000) by (nonlinear_arith)
            requires
                few * 100 < percent * n,
                balance * n <= few * 1_000_000,
                n > 0,
        ;
    }
}

/// The number of marks that fit a run of frames is small enough to count.
proof fn lemma_marks_fit(m: &MorseDetector)
    ensures
        m.memory().runs.len() <= usize::MAX,
        marks_of(m.memory().runs).len() <= usize::MAX,
{
    let runs = m.memory().runs;
    assert(runs == m.runs@);
    assert(m.runs.len() == runs.len());
    lemma_marks_up_to(runs, 0);
    runs.lemma_filter_len(|r: Run| r.on);
}

/// `t` splits the marks in two, and `dot` and `dash` are the middle marks of the shorter and
/// of the longer: no more than half of a class lie on either side.
pub open spec fn splits(runs: Seq<Run>, t: int, dot: int, dash: int) -> bool {
    let short = marks_up_to(runs, t);
    let long = mark_count(runs) - short;
    &&& short > 0
    &&& long > 0
    &&& 6 <= dot <= t < dash
    &&& 2 * marks_up_to(runs, dot - 1) <= short < 2 * marks_up_to(runs, dot)
    &&& 2 * (marks_up_to(runs, dash - 1) - short) <= long < 2 * (marks_up_to(runs, dash) - short)
}

/// A reading has the balance, the ratio and the times of two classes, rounded down.
pub open spec fn measures(
    d: MorseDetection,
    runs: Seq<Run>,
    hop: int,
    rate: int,
    t: int,
    dot: int,
    dash: int,
) -> bool {
    let n = mark_count(runs);
    let short = marks_up_to(runs, t);
    let few = if short <= n - short {
        short
    } else {
        n - short
    };
    &&& d.balance * n <= few * ONE < (d.balance + 1) * n
    &&& d.ratio * dot <= dash * ONE < (d.ratio + 1) * dot
    &&& d.dot_seconds * rate <= dot * hop * ONE < (d.dot_seconds + 1) * rate
    &&& d.dash_seconds * rate <= dash * hop * ONE < (d.dash_seconds + 1) * rate
}

/// The marks fall into two classes, either side of some length, and the balance is the share
/// of the smaller of the two, whichever that is. A dot is the middle mark of the shorter class
/// and a dash that of the longer, and the ratio is how many dots make a dash.
pub proof fn law_balance_is_the_share_of_the_smaller_class(m: &MorseDetector, d: MorseDetection)
    requires
        m.wf(),
        assessed(m.memory(), m.shape().0, m.shape().1, m.shape().2, Some(d)),
    ensures
        d.marks == mark_count(m.memory().runs),
        exists|t: int, dot: int, dash: int| #[trigger]
            splits(m.memory().runs, t, dot, dash) && measures(
                d,
                m.memory().runs,
                m.shape().0,
                m.shape().1,
                t,
                dot,
                dash,
            ),
{
    let runs = m.memory().runs;
    let marks = marks_of(runs);
    let s = in_order(marks);
    let (hop, rate, _) = m.shape();
    lemma_marks_fit(m);
    let (t, b) = lemma_classes(marks);
    let n = marks.len() as int;
    let dot = s[b / 2] as int;
    let dash = s[b + (n - b) / 2] as int;
    lemma_marks_up_to(runs, t);
    lemma_marks_up_to(runs, dot);
    lemma_marks_up_to(runs, dot - 1);
    lemma_marks_up_to(runs, dash);
    lemma_marks_up_to(runs, dash - 1);
    lemma_in_order(marks, t, b / 2);
    lemma_in_order(marks, t, b + (n - b) / 2);
    let few = if b <= n - b {
        b
    } else {
        n - b
    };
    lemma_quotients(few * ONE, n, d.balance as int);
    lemma_quotients(dash * ONE, dot, d.ratio as int);
    lemma_quotients(dot * hop * ONE, rate, d.dot_seconds as int);
    lemma_quotients(dash * hop * ONE, rate, d.dash_seconds as int);
    assert(marks_up_to(runs, t) == b);
    assert(splits(runs, t, dot, dash));
}

/// Two lengths in quantity are certain: where a dash is half as long again as a dot and the
/// smaller class holds 8% of the marks the confidence is one. It is nothing where the lengths
/// are closer, and below 8% it falls off in proportion.
pub proof fn law_two_lengths_in_quantity_are_certain(m: &MorseDetector, d: MorseDetection)
    requires
        m.wf(),
        assessed(m.memory(), m.shape().0, m.shape().1, m.shape().2, Some(d)),
    ensures
        d.ratio >= 1_500_000 && d.balance >= 80_000 ==> d.confidence == ONE,
        d.ratio < 1_500_000 ==> d.confidence == 0,
        d.ratio >= 1_500_000 && d.balance < 80_000 ==> d.confidence * 80_000 < (d.balance + 1)
            * ONE && d.balance * ONE < (d.confidence + 1) * 80_000,
{
    let marks = marks_of(m.memory().runs);
    let n = marks.len() as int;
    let (dot, dash, short, long) = classes(in_order(marks))->Some_0;
    let few = if short < long {
        short as int
    } else {
        long as int
    };
    lemma_share_bound(few, n, d.balance as int, 8);
    lemma_share_bound(dash as int, dot as int, d.ratio as int, 150);
    lemma_quotients(few * ONE, n, d.balance as int);
    let c = d.confidence as int;
    let b = d.balance as int;
    if 2 * dash >= 3 * dot && few * 100 < n * 8 {
        lemma_quotients(few * 100 * ONE, n * 8, c);
        assert(c * 80_000 < (b + 1) * 1_000_000) by (nonlinear_arith)
            requires
                c * (n * 8) <= few * 100 * 1_000_000,
                few * 1_000_000 < (b + 1) * n,
                n > 0,
        ;
        assert(b * 1_000_000 < (c + 1) * 80_000) by (nonlinear_arith)
            requires
                few * 100 * 1_000_000 < (c + 1) * (n * 8),
                b * n <= few * 1_000_000,
                n > 0,
        ;
    }
}

/// The tone is that of the bin that was loudest while a mark was on.
pub proof fn law_the_tone_is_that_of_the_marks(m: &MorseDetector, d: MorseDetection)
    requires
        m.wf(),
        assessed(m.memory(), m.shape().0, m.shape().1, m.shape().2, Some(d)),
    ensures
        d.tone_hz * m.shape().2 <= m.memory().loud_bin * m.shape().1 * ONE < (d.tone_hz + 1)
            * m.shape().2,
{
    lemma_quotients(
        m.memory().loud_bin * m.shape().1 * ONE,
        m.shape().2,
        d.tone_hz as int,
    );
}

/// Every mark lasts `a` frames or `b`, the longer, and neither is rarer than one in ten.
pub open spec fn has_two_lengths(runs: Seq<Run>, a: int, b: int) -> bool {
    let n = mark_count(runs);
    let short = marks_up_to(runs, a);
    &&& a < b
    &&& forall|i: int|
        0 <= i < runs.len() && (#[trigger] runs[i]).on ==> runs[i].frames == a || runs[i].frames
            == b
    &&& n >= 12
    &&& n - 1 < 10 * short
    &&& 10 * short <= 9 * (n - 1)
}

proof fn lemma_mark_lengths(runs: Seq<Run>, a: int, b: int, k: int)
    requires
        forall|i: int|
            0 <= i < runs.len() && (#[trigger] runs[i]).on ==> runs[i].frames == a
                || runs[i].frames == b,
        0 <= k < marks_of(runs).len(),
    ensures
        marks_of(runs)[k] == a || marks_of(runs)[k] == b,
    decreases runs.len(),
{
    if runs.len() > 0 {
        let rest = runs.drop_last();
        assert forall|i: int| 0 <= i < rest.len() && (#[trigger] rest[i]).on implies rest[i].frames
            == a || rest[i].frames == b by {
            assert(rest[i] == runs[i]);
        }
        if k < marks_of(rest).len() {
            lemma_mark_lengths(rest, a, b, k);
        } else {
            assert(runs[runs.len() - 1].on);
        }
    }
}

/// A message of two lengths is read as such: every dot and dash is told apart, however the
/// marks are ordered and whichever of the two is the more frequent. Where a dot can be
/// resolved there is a reading, its dot and dash are the two lengths and its balance the share
/// of the rarer; and where they differ by half it is certain.
pub proof fn law_two_lengths_are_told_apart(
    m: &MorseDetector,
    r: Option<MorseDetection>,
    a: int,
    b: int,
)
    requires
        m.wf(),
        assessed(m.memory(), m.shape().0, m.shape().1, m.shape().2, r),
        has_two_lengths(m.memory().runs, a, b),
    ensures
        r is Some <==> a >= 6,
        r matches Some(d) ==> {
            let (hop, rate, _) = m.shape();
            let n = mark_count(m.memory().runs);
            let short = marks_up_to(m.memory().runs, a);
            let few = if short <= n - short {
                short
            } else {
                n - short
            };
            &&& d.marks == n
            &&& d.balance * n <= few * ONE < (d.balance + 1) * n
            &&& d.ratio * a <= b * ONE < (d.ratio + 1) * a
            &&& d.dot_seconds * rate <= a * hop * ONE < (d.dot_seconds + 1) * rate
            &&& d.dash_seconds * rate <= b * hop * ONE < (d.dash_seconds + 1) * rate
            &&& 2 * b >= 3 * a ==> d.confidence == ONE
            &&& 2 * b < 3 * a ==> d.confidence == 0
        },
{
    let runs = m.memory().runs;
    let marks = marks_of(runs);
    let s = in_order(marks);
    let n = marks.len() as int;
    let (hop, rate, _) = m.shape();
    lemma_marks_fit(m);
    lemma_marks_up_to(runs, a);
    let short = marks_up_to(runs, a);
    let low = (n - 1) / 10;
    let high = (n - 1) * 9 / 10;
    assert forall|k: int| 0 <= k < n implies #[trigger] s[k] == if k < short {
        a
    } else {
        b
    } by {
        lemma_in_order(marks, a, k);
        let i = choose|i: int| 0 <= i < marks.len() && marks[i] == s[k];
        lemma_mark_lengths(runs, a, b, i);
    }
    assert(s[low] == a && s[high] == b);
    let (t, c) = lemma_classes(marks);
    let x = s[c / 2];
    let y = s[c + (n - c) / 2];
    assert(x == a && y == b);
    assert(c == short) by {
        lemma_marks_up_to(runs, t);
        if c < short {
            lemma_in_order(marks, t, c);
        } else if c > short {
            lemma_in_order(marks, t, short);
        }
    }
    let few = if short <= n - short {
        short
    } else {
        n - short
    };
    assert(few * 100 >= n * 8);
    if r is Some {
        let d = r->Some_0;
        lemma_quotients(few * ONE, n, d.balance as int);
        lemma_quotients(b * ONE, a, d.ratio as int);
        lemma_quotients(a * hop * ONE, rate, d.dot_seconds as int);
        lemma_quotients(b * hop * ONE, rate, d.dash_seconds as int);
    }
}

/// Which of the two lengths is the more frequent changes nothing: a message with as many dots
/// as another has dashes, and as many dashes as that has dots, of the same lengths, is as
/// balanced and as certain, and reads the same dot and dash.
pub proof fn law_which_length_is_rarer_changes_nothing(
    m: &MorseDetector,
    d: MorseDetection,
    other: &MorseDetector,
    e: MorseDetection,
    a: int,
    b: int,
)
    requires
        m.wf(),
        assessed(m.memory(), m.shape().0, m.shape().1, m.shape().2, Some(d)),
        has_two_lengths(m.memory().runs, a, b),
        other.wf(),
        assessed(other.memory(), other.shape().0, other.shape().1, other.shape().2, Some(e)),
        has_two_lengths(other.memory().runs, a, b),
        m.shape() == other.shape(),
        mark_count(m.memory().runs) == mark_count(other.memory().runs),
        marks_up_to(m.memory().runs, a) + marks_up_to(other.memory().runs, a) == mark_count(
            m.memory().runs,
        ),
    ensures
        d.balance == e.balance,
        d.confidence == e.confidence,
        d.ratio == e.ratio,
        d.dot_seconds == e.dot_seconds,
        d.dash_seconds == e.dash_seconds,
{
    law_two_lengths_are_told_apart(m, Some(d), a, b);
    law_two_lengths_are_told_apart(other, Some(e), a, b);
    let n = mark_count(m.memory().runs);
    let (hop, rate, _) = m.shape();
    lemma_one_quotient(n, d.balance as int, e.balance as int);
    lemma_one_quotient(a, d.ratio as int, e.ratio as int);
    lemma_one_quotient(rate, d.dot_seconds as int, e.dot_seconds as int);
    lemma_one_quotient(rate, d.dash_seconds as int, e.dash_seconds as int);
}

/// Two numbers that are both a value over `y`, rounded down, are one.
proof fn lemma_one_quotient(y: int, p: int, q: int)
    requires
        y > 0,
    ensures
        p < q ==> (p + 1) * y <= q * y,
        q < p ==> (q + 1) * y <= p * y,
{
    if p < q {
        assert((p + 1) * y <= q * y) by (nonlinear_arith)
            requires
                p + 1 <= q,
                y > 0,
        ;
    } else if q < p {
        assert((q + 1) * y <= p * y) by (nonlinear_arith)
            requires
                q + 1 <= p,
                y > 0,
        ;
    }
}

/// A metronome is no message: where one length `v` reaches from the tenth to the ninetieth
/// hundredth of the marks there is no reading. Where none does, there are twelve marks, and
/// every mark can be resolved, there is one.
pub proof fn law_a_metronome_is_no_message(m: &MorseDetector, r: Option<MorseDetection>, v: int)
    requires
        m.wf(),
        assessed(m.memory(), m.shape().0, m.shape().1, m.shape().2, r),
    ensures
        ({
            let runs = m.memory().runs;
            let n = mark_count(runs);
            &&& n < 12 ==> r is None
            &&& 10 * marks_up_to(runs, v - 1) <= n - 1 && 10 * marks_up_to(runs, v) > 9 * (n - 1)
                ==> r is None
            &&& n >= 12 && (forall|w: int|
                10 * marks_up_to(runs, w - 1) > n - 1 || 10 * #[trigger] marks_up_to(runs, w) <= 9
                    * (n - 1)) && (forall|i: int|
                0 <= i < runs.len() && (#[trigger] runs[i]).on ==> runs[i].frames >= 6) ==> r is Some
        }),
{
    let runs = m.memory().runs;
    let marks = marks_of(runs);
    let s = in_order(marks);
    let n = marks.len() as int;
    lemma_marks_fit(m);
    lemma_marks_up_to(runs, v);
    lemma_marks_up_to(runs, v - 1);
    if n >= 12 {
        let low = (n - 1) / 10;
        let high = (n - 1) * 9 / 10;
        if 10 * marks_up_to(runs, v - 1) <= n - 1 && 10 * marks_up_to(runs, v) > 9 * (n - 1) {
            lemma_in_order(marks, v, low);
            lemma_in_order(marks, v - 1, low);
            lemma_in_order(marks, v, high);
            lemma_in_order(marks, v - 1, high);
            assert(s[low] == v && s[high] == v);
            assert(classes(s) is None);
        }
        if (forall|w: int|
            10 * marks_up_to(runs, w - 1) > n - 1 || 10 * #[trigger] marks_up_to(runs, w) <= 9 * (n
                - 1)) && (forall|i: int|
            0 <= i < runs.len() && (#[trigger] runs[i]).on ==> runs[i].frames >= 6) {
            if s[low] == s[high] {
                let w = s[low] as int;
                lemma_in_order(marks, w, low);
                lemma_in_order(marks, w - 1, low);
                lemma_in_order(marks, w, high);
                lemma_marks_up_to(runs, w);
                lemma_marks_up_to(runs, w - 1);
                assert(10 * marks_up_to(runs, w - 1) > n - 1 || 10 * marks_up_to(runs, w) <= 9 * (n
                    - 1));
            }
            let (t, b) = lemma_classes(marks);
            lemma_in_order(marks, 5, b / 2);
            let i = choose|i: int| 0 <= i < marks.len() && marks[i] == s[b / 2];
            lemma_marks_least(runs, i, 6);
        }
    }
}

proof fn lemma_marks_least(runs: Seq<Run>, k: int, least: int)
    requires
        forall|i: int| 0 <= i < runs.len() && (#[trigger] runs[i]).on ==> runs[i].frames >= least,
        0 <= k < marks_of(runs).len(),
    ensures
        marks_of(runs)[k] >= least,
    decreases runs.len(),
{
    if runs.len() > 0 {
        let rest = runs.drop_last();
        assert forall|i: int| 0 <= i < rest.len() && (#[trigger] rest[i]).on implies rest[i].frames
            >= least by {
            assert(rest[i] == runs[i]);
        }
        if k < marks_of(rest).len() {
            lemma_marks_least(rest, k, least);
        } else {
            assert(runs[runs.len() - 1].on);
        }
    }
}

/// The quiet level falls a quarter of the way to what is heard and rises a five-hundredth, to
/// the last part it is held in.
pub proof fn law_the_floor_falls_fast_and_rises_slowly(floor: int, peak: int)
    ensures
        ({
            let moved = floor_after(Some(floor), peak) - floor;
            &&& peak < floor ==> 4 * moved <= peak - floor < 4 * moved + 4
            &&& peak >= floor ==> 500 * moved <= peak - floor < 500 * moved + 500
        }),
        floor_after(None, peak) == peak,
{
}

/// A frame is part of a mark exactly where its loudest bin stands six decibels above the quiet
/// level. While that stays as it was the run under way grows by a frame; when it changes another
/// begins, and the run is remembered, last, if it lasted two frames. The bin of a mark is the
/// loudest while it is on.
pub proof fn law_a_mark_is_six_decibels_up(m: MorseMemory, bin: int, peak: int, capacity: int)
    requires
        m.current matches Some(run) ==> run.frames < u64::MAX,
    ensures
        ({
            let after = m.after(bin, peak, capacity);
            let level = after.floor->Some_0;
            let on = peak * 1_000_000 - level >= 6_000_000_000_000;
            &&& after.floor == Some(floor_after(m.floor, peak * 1_000_000))
            &&& after.current matches Some(now) && now.on == on
            &&& on ==> after.loud_bin == bin
            &&& !on ==> after.loud_bin == m.loud_bin
            &&& m.current is None ==> after.current->Some_0.frames == 1
            &&& m.current matches Some(run) ==> {
                &&& run.on == on ==> after.current->Some_0.frames == run.frames + 1
                &&& run.on != on ==> after.current->Some_0.frames == 1
                &&& run.on == on || run.frames < 2 ==> after.runs == recent(m.runs, capacity)
                &&& run.on != on && run.frames >= 2 && frames_of(m.runs.push(run)) <= capacity
                    ==> after.runs == m.runs.push(run)
            }
            &&& m.current is None ==> after.runs == recent(m.runs, capacity)
            &&& frames_of(m.runs) <= capacity ==> recent(m.runs, capacity) == m.runs
        }),
{
}

proof fn lemma_loudest(db: Seq<Option<i32>>, lo: int, hi: int, i: int)
    requires
        lo <= i < hi,
    ensures
        match loudest(db, lo, hi) {
            None => db[i] is None,
            Some(b) => {
                &&& lo <= b < hi
                &&& db[b] is Some
                &&& db[i] matches Some(v) ==> v <= db[b]->Some_0 && (i < b ==> v < db[b]->Some_0)
            },
        },
    decreases hi - lo,
{
    if hi - 1 > lo {
        lemma_loudest(db, lo, hi - 1, if i < hi - 1 {
            i
        } else {
            lo
        });
    } else {
        assert(loudest(db, lo, hi - 1) is None);
    }
}

/// What a detector hears of a spectrum is the loudest bin of its band that holds a number, the
/// first of equals: a spectrum that holds none there, or an infinite level, changes nothing, and
/// neither does what lies outside the band.
pub proof fn law_the_loudest_bin_of_the_band_is_heard(
    after: &MorseDetector,
    before: &MorseDetector,
    spectrum: Seq<Option<i32>>,
    bin: int,
)
    requires
        after.follows(before, spectrum),
    ensures
        ({
            let (lo, hi) = before.band();
            &&& (forall|i: int|
                lo <= i < hi && i < spectrum.len() ==> #[trigger] spectrum[i] is None)
                ==> after.memory() == before.memory()
            &&& lo <= bin < hi && bin < spectrum.len() && spectrum[bin] is Some && (forall|i: int|
                lo <= i < hi && i < spectrum.len() && #[trigger] spectrum[i] is Some
                    ==> spectrum[i]->Some_0 <= spectrum[bin]->Some_0 && (i < bin
                    ==> spectrum[i]->Some_0 < spectrum[bin]->Some_0)) ==> after.memory() == if spectrum[bin]
                == Some(0x7fff_ffffi32) {
                before.memory()
            } else {
                before.memory().after(bin, spectrum[bin]->Some_0 as int, before.kept())
            }
        }),
{
    let (lo, hi) = before.band();
    let end = if hi < spectrum.len() {
        hi
    } else {
        spectrum.len() as int
    };
    match loudest(spectrum, lo, end) {
        None => {
            if lo <= bin < end {
                lemma_loudest(spectrum, lo, end, bin);
            }
        },
        Some(b) => {
            if lo < end {
                lemma_loudest(spectrum, lo, end, lo);
                if lo <= bin < end {
                    lemma_loudest(spectrum, lo, end, bin);
                    assert(spectrum[b] is Some);
                }
                assert(!(spectrum[b] is None));
            }
        },
    }
}

/// The band watched holds every bin whose frequency lies between its ends, but never the bin at
/// zero, and one bin at least.
pub proof fn law_the_band_holds_its_frequencies(
    lo_hz: int,
    hi_hz: int,
    rate: int,
    fft: int,
    bin: int,
)
    requires
        rate > 0,
        fft > 0,
        0 <= lo_hz,
        0 <= hi_hz,
    ensures
        ({
            let (low, high) = watched(lo_hz, hi_hz, rate, fft);
            &&& 1 <= low < high
            &&& bin >= 1 && lo_hz * fft <= bin * (rate * ONE) < hi_hz * fft ==> low <= bin < high
        }),
{
    let whole = rate * ONE;
    let a = lo_hz * fft;
    let b = hi_hz * fft;
    if bin >= 1 && a <= bin * whole < b {
        assert(a / whole <= bin) by (nonlinear_arith)
            requires
                a <= bin * whole,
                whole > 0,
        ;
        assert((b + whole - 1) / whole > bin) by (nonlinear_arith)
            requires
                bin * whole < b,
                whole > 0,
        ;
    }
}

/// A fresh detector keeps a minute of runs, rounded down to whole frames, and has heard nothing.
pub proof fn law_a_detector_keeps_a_minute(
    m: &MorseDetector,
    hop: int,
    rate: int,
    fft: int,
    lo_hz: int,
    hi_hz: int,
)
    requires
        m.is_fresh(hop, rate, fft, lo_hz, hi_hz),
        hop > 0,
    ensures
        m.kept() * hop <= 60 * rate < (m.kept() + 1) * hop,
        m.memory().runs.len() == 0,
        m.memory().floor is None,
{
    lemma_quotients(60 * rate, hop, m.kept());
}

} // verus!
