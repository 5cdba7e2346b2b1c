//! What the background of each frequency bin looks like.
//!
//! A moving average with a 60-second time constant adapts to an 80-second signal and
//! erases the very thing it is meant to find. The model is therefore a running median
//! per bin. A median is decided by the middle of the distribution, so a signal
//! occupying even a third of the window cannot move it: the loud samples simply sort
//! to one end. The same histogram also yields a robust spread, the interquartile range.
use crate::analysis::sliding_median::{lemma_histogram_ranks, SlidingMedian};
use crate::arith::ONE;
use crate::rank;
use std::collections::VecDeque;
use vstd::prelude::*;

verus! {

/// How often the spread is worked out again, in frames.
pub const SPREAD_INTERVAL_FRAMES: usize = 32;

/// Levels are sorted into buckets of half a decibel from -128 dB on, in millionths.
pub const BUCKET_DB: i64 = 500_000;

pub const BUCKET_MIN_DB: i64 = -128_000_000;

pub open spec fn bucket_of(db: int) -> int {
    let scaled = (db - BUCKET_MIN_DB) / (BUCKET_DB as int);
    if scaled < 0 {
        0
    } else if scaled > 255 {
        255
    } else {
        scaled
    }
}

pub open spec fn bucket_level(bucket: int) -> int {
    BUCKET_MIN_DB + bucket * BUCKET_DB
}

pub fn to_bucket(db: i32) -> (r: u8)
    ensures
        r == bucket_of(db as int),
{
    let above: i64 = db as i64 - BUCKET_MIN_DB;
    if above < 0 {
        0
    } else {
        let scaled: i64 = above / BUCKET_DB;
        if scaled > 255 {
            255
        } else {
            scaled as u8
        }
    }
}

pub fn from_bucket(bucket: u8) -> (r: i32)
    ensures
        r == bucket_level(bucket as int),
{
    (BUCKET_MIN_DB + bucket as i64 * BUCKET_DB) as i32
}

/// The buckets one bin was in over the frames of a history, oldest first.
pub open spec fn column(history: Seq<Seq<u8>>, bin: int) -> Seq<int> {
    Seq::new(history.len(), |t: int| history[t][bin] as int)
}

/// The middle bucket of a bin: its background, or the lowest before anything is known.
pub open spec fn middle(history: Seq<Seq<u8>>, bin: int) -> int {
    if history.len() == 0 {
        0
    } else {
        rank::median(column(history, bin))
    }
}

/// The distance between the quartiles of a bin, in buckets; none to speak of before
/// there are four frames.
pub open spec fn quartile_range(history: Seq<Seq<u8>>, bin: int) -> int {
    let n = history.len() as int;
    if n < 4 {
        0
    } else {
        rank::ranked(column(history, bin), 3 * n / 4) - rank::ranked(column(history, bin), n / 4)
    }
}

/// The level of a bin in a frame, its background standing in for one that is not a
/// number.
pub open spec fn heard(history: Seq<Seq<u8>>, frame: Seq<Option<i32>>, bin: int) -> int {
    match frame[bin] {
        Some(db) => db as int,
        None => bucket_level(middle(history, bin)),
    }
}

pub open spec fn bucketed(history: Seq<Seq<u8>>, frame: Seq<Option<i32>>) -> Seq<u8> {
    Seq::new(frame.len(), |i: int| bucket_of(heard(history, frame, i)) as u8)
}

/// A history of at most `window` frames with one more frame at its end.
pub open spec fn advanced(history: Seq<Seq<u8>>, window: int, frame: Seq<Option<i32>>) -> Seq<
    Seq<u8>,
> {
    let kept = if history.len() == window {
        history.drop_first()
    } else {
        history
    };
    kept.push(bucketed(history, frame))
}

/// Frames of `hop` samples in `time` millionths of a second, rounded up.
pub open spec fn frames_in(time: int, hop: int, sample_rate: int) -> int {
    (time * sample_rate + hop * ONE - 1) / (hop * ONE)
}

pub struct BackgroundModel {
    bins: usize,
    window: usize,
    warmup_frames: u64,
    frames: VecDeque<Vec<u8>>,
    medians: Vec<SlidingMedian>,
    middles: Vec<u8>,
    spread: Vec<u8>,
    spread_countdown: usize,
    frames_seen: u64,
}

impl BackgroundModel {
    pub closed spec fn bins(&self) -> int {
        self.bins as int
    }

    /// How many frames the model remembers.
    pub closed spec fn window(&self) -> int {
        self.window as int
    }

    pub closed spec fn warmup(&self) -> int {
        self.warmup_frames as int
    }

    /// The frames remembered, as buckets, oldest first.
    pub closed spec fn history(&self) -> Seq<Seq<u8>> {
        self.frames@.map_values(|f: Vec<u8>| f@)
    }

    /// The spread of each bin as it was last worked out, in buckets.
    pub closed spec fn spreads(&self) -> Seq<u8> {
        self.spread@
    }

    /// Frames until the spread is worked out again.
    pub closed spec fn countdown(&self) -> int {
        self.spread_countdown as int
    }

    pub closed spec fn seen(&self) -> int {
        self.frames_seen as int
    }

    pub closed spec fn wf(&self) -> bool {
        &&& self.bins > 0
        &&& 2 <= self.window < usize::MAX
        &&& self.frames.len() <= self.window
        &&& forall|t: int| 0 <= t < self.frames.len() ==> (#[trigger] self.frames@[t]).len() == self.bins
        &&& self.medians.len() == self.bins
        &&& self.middles.len() == self.bins
        &&& self.spread.len() == self.bins
        &&& self.spread_countdown < SPREAD_INTERVAL_FRAMES
        &&& self.frames_seen < u64::MAX ==> (self.frames_seen + self.spread_countdown)
            % SPREAD_INTERVAL_FRAMES as int == 0
        &&& forall|i: int| 0 <= i < self.bins ==> self.bin_ok(i)
    }

    spec fn bin_ok(&self, i: int) -> bool {
        &&& self.medians[i].wf()
        &&& self.medians[i].size() == self.frames.len()
        &&& forall|v: int| #[trigger]
            self.medians[i].count(v) == rank::occurrences(column(self.history(), i), v)
        &&& self.middles[i] == middle(self.history(), i)
    }

    /// This is the model `before` once it has learned a frame.
    pub open spec fn follows(&self, before: &Self, frame: Seq<Option<i32>>) -> bool {
        &&& self.bins() == before.bins()
        &&& self.window() == before.window()
        &&& self.warmup() == before.warmup()
        &&& self.history() == advanced(before.history(), before.window(), frame)
        &&& self.seen() == if before.seen() < u64::MAX {
            before.seen() + 1
        } else {
            before.seen()
        }
        &&& self.spreads().len() == before.bins()
        &&& before.countdown() == 0 ==> {
            &&& self.countdown() == SPREAD_INTERVAL_FRAMES - 1
            &&& forall|i: int|
                0 <= i < before.bins() ==> #[trigger] self.spreads()[i] == quartile_range(
                    self.history(),
                    i,
                )
        }
        &&& before.countdown() > 0 ==> {
            &&& self.countdown() == before.countdown() - 1
            &&& self.spreads() == before.spreads()
        }
    }

    /// `out` is how far each bin of a frame stands above this model, which learned the
    /// frame on top of `before`.
    pub open spec fn is_excess(
        &self,
        before: &Self,
        frame: Seq<Option<i32>>,
        out: Seq<i64>,
    ) -> bool {
        &&& out.len() == before.bins()
        &&& forall|i: int|
            0 <= i < out.len() ==> #[trigger] out[i] == heard(before.history(), frame, i)
                - bucket_level(middle(self.history(), i))
    }

    /// A model that has heard nothing yet: it remembers four time constants, two frames at
    /// least, and is warm after one.
    pub open spec fn is_fresh(
        &self,
        bins: int,
        hop: int,
        sample_rate: int,
        time_constant: int,
    ) -> bool {
        &&& self.bins() == bins
        &&& self.window() == if frames_in(4 * time_constant, hop, sample_rate) > 2 {
            frames_in(4 * time_constant, hop, sample_rate)
        } else {
            2
        }
        &&& self.warmup() == frames_in(time_constant, hop, sample_rate)
        &&& self.history() == Seq::<Seq<u8>>::empty()
        &&& self.spreads() == Seq::new(bins as nat, |i: int| 0u8)
        &&& self.countdown() == 0
        &&& self.seen() == 0
    }

    /// A model of `bins` bins that has heard nothing yet.
    ///
    /// The window is four times the time constant, because a median only holds a signal
    /// that occupies less than half of it. At one-to-one, a signal lasting the time
    /// constant fills the window and becomes the background.
    pub fn new(bins: usize, hop: usize, sample_rate: u32, time_constant: u64) -> (r: Self)
        requires
            bins > 0,
            hop > 0,
            sample_rate > 0,
            time_constant > 0,
            frames_in(4 * time_constant, hop as int, sample_rate as int) < usize::MAX,
        ensures
            r.wf(),
            r.is_fresh(bins as int, hop as int, sample_rate as int, time_constant as int),
    {
        proof {
            assert(0 <= time_constant * sample_rate <= 0x1_0000_0000_0000_0000 * 0x1_0000_0000)
                by (nonlinear_arith)
                requires
                    0 <= time_constant <= 0x1_0000_0000_0000_0000,
                    0 <= sample_rate <= 0x1_0000_0000,
            ;
            assert(4 * time_constant * sample_rate == 4 * (time_constant * sample_rate))
                by (nonlinear_arith);
            lemma_frames_monotone(
                time_constant as int,
                4 * time_constant,
                hop as int,
                sample_rate as int,
            );
        }
        let span: u128 = time_constant as u128 * sample_rate as u128;
        let step: u128 = hop as u128 * ONE as u128;
        let wide: u128 = (4 * span + step - 1) / step;
        let window: usize = if wide > 2 {
            wide as usize
        } else {
            2
        };
        let warmup_frames: u64 = ((span + step - 1) / step) as u64;
        let mut medians: Vec<SlidingMedian> = Vec::with_capacity(bins);
        let mut i: usize = 0;
        while i < bins
            invariant
                i <= bins,
                medians.len() == i,
                forall|k: int| 0 <= k < i ==> (#[trigger] medians[k]).wf() && medians[k].size() == 0,
                forall|k: int, v: int| 0 <= k < i ==> #[trigger] medians[k].count(v) == 0,
            decreases bins - i,
        {
            medians.push(SlidingMedian::new());
            i = i + 1;
        }
        let r = BackgroundModel {
            bins,
            window,
            warmup_frames,
            frames: VecDeque::new(),
            medians,
            middles: vec![0u8; bins],
            spread: vec![0u8; bins],
            spread_countdown: 0,
            frames_seen: 0,
        };
        proof {
            assert(r.history() =~= Seq::<Seq<u8>>::empty());
            assert forall|k: int| 0 <= k < bins implies r.bin_ok(k) by {
                assert(column(r.history(), k) =~= Seq::<int>::empty());
            }
            assert(r.spreads() =~= Seq::new(bins as nat, |i: int| 0u8));
        }
        r
    }

    /// Detection is suppressed until the model is warm, so that starting mid-signal
    /// does not fire instantly.
    pub fn is_warm(&self) -> (r: bool)
        ensures
            r == (self.seen() >= self.warmup()),
    {
        self.frames_seen >= self.warmup_frames
    }

    /// How far warming up has come, in millionths.
    pub fn warmup_progress(&self) -> (r: u64)
        ensures
            r == if self.seen() >= self.warmup() {
                ONE as int
            } else {
                self.seen() * ONE / self.warmup()
            },
    {
        if self.frames_seen >= self.warmup_frames {
            return ONE;
        }
        proof {
            let a = self.frames_seen as int;
            let b = self.warmup_frames as int;
            assert(0 <= a * 1_000_000 / b <= 1_000_000) by (nonlinear_arith)
                requires
                    0 <= a < b,
            ;
        }
        (self.frames_seen as u128 * ONE as u128 / self.warmup_frames as u128) as u64
    }

    /// The background level of each bin, once anything is known of it.
    pub fn level_db(&self) -> (r: Vec<Option<i32>>)
        requires
            self.wf(),
        ensures
            r.len() == self.bins(),
            forall|i: int|
                0 <= i < r.len() ==> #[trigger] r[i] == if self.history().len() == 0 {
                    None
                } else {
                    Some(bucket_level(middle(self.history(), i)) as i32)
                },
    {
        let mut r: Vec<Option<i32>> = Vec::with_capacity(self.bins);
        let mut i: usize = 0;
        while i < self.bins
            invariant
                self.wf(),
                i <= self.bins,
                r.len() == i,
                forall|k: int|
                    0 <= k < i ==> #[trigger] r[k] == if self.history().len() == 0 {
                        None
                    } else {
                        Some(bucket_level(middle(self.history(), k)) as i32)
                    },
            decreases self.bins - i,
        {
            assert(self.bin_ok(i as int));
            if self.frames.len() == 0 {
                r.push(None);
            } else {
                r.push(Some(from_bucket(self.middles[i])));
            }
            i = i + 1;
        }
        r
    }

    /// The spread of each bin: the standard deviation that its quartiles would have in
    /// a normal distribution, in millionths of a decibel.
    pub fn spread_db(&self) -> (r: Vec<i64>)
        requires
            self.wf(),
        ensures
            r.len() == self.bins(),
            forall|i: int|
                0 <= i < r.len() ==> #[trigger] r[i] == self.spreads()[i] * BUCKET_DB * 1_000 / 1_349,
    {
        let mut r: Vec<i64> = Vec::with_capacity(self.bins);
        let mut i: usize = 0;
        while i < self.bins
            invariant
                self.wf(),
                i <= self.bins,
                r.len() == i,
                forall|k: int|
                    0 <= k < i ==> #[trigger] r[k] == self.spreads()[k] * BUCKET_DB * 1_000 / 1_349,
            decreases self.bins - i,
        {
            r.push(self.spread[i] as i64 * BUCKET_DB * 1_000 / 1_349);
            i = i + 1;
        }
        r
    }

    /// The spread of one bin, in buckets.
    pub fn spread_buckets(&self, bin: usize) -> (r: u8)
        requires
            self.wf(),
            bin < self.bins(),
        ensures
            r == self.spreads()[bin as int],
    {
        self.spread[bin]
    }

    /// Bins held back from adapting: a median needs none.
    pub fn frozen_bins(&self) -> (r: usize)
        ensures
            r == 0,
    {
        0
    }

    /// Learn one frame, and say how far each bin stands above its background.
    pub fn update(&mut self, frame_db: &[Option<i32>]) -> (out: Vec<i64>)
        requires
            old(self).wf(),
            frame_db.len() == old(self).bins(),
        ensures
            final(self).wf(),
            final(self).follows(old(self), frame_db@),
            final(self).is_excess(old(self), frame_db@, out@),
            forall|i: int|
                0 <= i < out.len() ==> -0x1_0000_0000 <= #[trigger] out[i] <= 0x1_0000_0000,
    {
        let ghost before = self.history();
        let ghost frame = frame_db@;
        let ghost after = advanced(before, self.window as int, frame);
        let bins: usize = self.bins;
        let evicting: bool = self.frames.len() == self.window;
        let mut out: Vec<i64> = Vec::with_capacity(bins);
        let mut buckets: Vec<u8> = Vec::with_capacity(bins);
        let oldest: Vec<u8> = if evicting {
            match self.frames.pop_front() {
                Some(f) => f,
                None => Vec::new(),
            }
        } else {
            Vec::new()
        };
        let ghost kept = if evicting {
            before.drop_first()
        } else {
            before
        };
        proof {
            assert(self.history() =~= kept);
            assert(evicting ==> oldest@ == before[0]);
            assert forall|k: int| 0 <= k < bins implies median_holds(
                &(#[trigger] self.medians[k]),
                self.middles[k],
                before,
                k,
            ) by {
                assert(old(self).bin_ok(k));
            }
        }
        let ghost mid = *self;
        let mut i: usize = 0;
        while i < bins
            invariant
                i <= bins,
                bins == self.bins,
                bins > 0,
                frame_db.len() == bins,
                frame == frame_db@,
                2 <= self.window < usize::MAX,
                self.window == mid.window,
                self.warmup_frames == mid.warmup_frames,
                self.frames == mid.frames,
                self.frames_seen == mid.frames_seen,
                self.spread_countdown == mid.spread_countdown,
                self.spread == mid.spread,
                before.len() <= self.window,
                evicting == (before.len() == self.window),
                kept == (if evicting {
                    before.drop_first()
                } else {
                    before
                }),
                evicting ==> oldest@ == before[0] && oldest.len() == bins,
                after == kept.push(bucketed(before, frame)),
                forall|t: int| 0 <= t < before.len() ==> (#[trigger] before[t]).len() == bins,
                self.medians.len() == bins,
                self.middles.len() == bins,
                out.len() == i,
                buckets.len() == i,
                forall|k: int| 0 <= k < i ==> #[trigger] buckets[k] == bucket_of(heard(before, frame, k)),
                forall|k: int|
                    0 <= k < i ==> #[trigger] out[k] == heard(before, frame, k) - bucket_level(
                        middle(after, k),
                    ),
                forall|k: int| 0 <= k < i ==> -0x1_0000_0000 <= #[trigger] out[k] <= 0x1_0000_0000,
                // Bins already visited hold the new history, the others the old one.
                forall|k: int|
                    0 <= k < i ==> median_holds(&(#[trigger] self.medians[k]), self.middles[k], after, k),
                forall|k: int|
                    i <= k < bins ==> median_holds(
                        &(#[trigger] self.medians[k]),
                        self.middles[k],
                        before,
                        k,
                    ),
            decreases bins - i,
        {
            let ghost b = i as int;
            assert(median_holds(&self.medians[b], self.middles[b], before, b));
            let x: i32 = match frame_db[i] {
                Some(db) => db,
                None => from_bucket(self.middles[i]),
            };
            assert(x == heard(before, frame, b));
            let bucket: u8 = to_bucket(x);
            proof {
                if evicting {
                    lemma_column_drop(before, b);
                }
                lemma_column_push(kept, bucketed(before, frame), b);
            }
            if evicting {
                self.medians[i].remove(oldest[i]);
            }
            assert(forall|v: int| #[trigger]
                self.medians[b].count(v) == rank::occurrences(column(kept, b), v));
            self.medians[i].add(bucket);
            assert(forall|v: int| #[trigger]
                self.medians[b].count(v) == rank::occurrences(column(after, b), v));
            let ghost held = self.medians[b];
            let m: u8 = self.medians[i].upper_median();
            proof {
                let c = column(after, b);
                assert forall|t: int| 0 <= t < c.len() implies 0 <= #[trigger] c[t] < 256 by {}
                lemma_histogram_ranks(&held, c, m as int);
                lemma_histogram_ranks(&held, c, m as int + 1);
                rank::lemma_rank_unique(c, c.len() as int / 2, m as int);
            }
            self.middles.set(i, m);
            out.push(x as i64 - from_bucket(m) as i64);
            buckets.push(bucket);
            i = i + 1;
        }
        proof {
            assert(buckets@ =~= bucketed(before, frame));
        }
        self.frames.push_back(buckets);
        if self.frames_seen < u64::MAX {
            self.frames_seen = self.frames_seen + 1;
        }
        proof {
            assert(self.history() =~= after);
            assert forall|k: int| 0 <= k < bins implies self.bin_ok(k) by {
                assert(median_holds(&self.medians[k], self.middles[k], after, k));
            }
        }
        if self.spread_countdown == 0 {
            self.spread_countdown = SPREAD_INTERVAL_FRAMES - 1;
            self.recompute_spread();
            assert(self.history() == after);
        } else {
            self.spread_countdown = self.spread_countdown - 1;
            assert(self.history() == after);
        }
        proof {
            assert forall|k: int| 0 <= k < bins implies self.bin_ok(k) by {}
        }
        out
    }

    /// Work out the spread of every bin from the histograms.
    fn recompute_spread(&mut self)
        requires
            old(self).wf(),
        ensures
            final(self).wf(),
            *final(self) == (BackgroundModel { spread: final(self).spread, ..*old(self) }),
            final(self).history() == old(self).history(),
            forall|i: int|
                0 <= i < old(self).bins ==> #[trigger] final(self).spread[i] == quartile_range(
                    old(self).history(),
                    i,
                ),
    {
        let count: usize = self.frames.len();
        let mut spread: Vec<u8> = Vec::with_capacity(self.bins);
        let mut i: usize = 0;
        while i < self.bins
            invariant
                *self == *old(self),
                self.wf(),
                count == self.frames.len(),
                i <= self.bins,
                spread.len() == i,
                forall|k: int|
                    0 <= k < i ==> #[trigger] spread[k] == quartile_range(self.history(), k),
            decreases self.bins - i,
        {
            assert(self.bin_ok(i as int));
            if count < 4 {
                spread.push(0);
            } else {
                let q1: u8 = self.medians[i].at_rank(count as u64 / 4);
                let q3: u8 = self.medians[i].at_rank((3 * (count as u128) / 4) as u64);
                proof {
                    let c = column(self.history(), i as int);
                    let h = &self.medians[i as int];
                    assert forall|t: int| 0 <= t < c.len() implies 0 <= #[trigger] c[t] < 256 by {}
                    lemma_histogram_ranks(h, c, q1 as int);
                    lemma_histogram_ranks(h, c, q1 as int + 1);
                    lemma_histogram_ranks(h, c, q3 as int);
                    lemma_histogram_ranks(h, c, q3 as int + 1);
                    rank::lemma_rank_unique(c, c.len() as int / 4, q1 as int);
                    rank::lemma_rank_unique(c, 3 * c.len() as int / 4, q3 as int);
                    if q3 < q1 {
                        rank::lemma_monotone(c, q3 as int + 1, q1 as int);
                    }
                }
                spread.push(q3 - q1);
            }
            i = i + 1;
        }
        self.spread = spread;
        assert(self.history() == old(self).history());
        proof {
            assert forall|k: int| 0 <= k < self.bins implies self.bin_ok(k) by {
                assert(old(self).bin_ok(k));
            }
        }
    }

    /// Forget everything that was heard.
    pub fn reset(&mut self)
        requires
            old(self).wf(),
        ensures
            final(self).wf(),
            final(self).bins() == old(self).bins(),
            final(self).window() == old(self).window(),
            final(self).warmup() == old(self).warmup(),
            final(self).history() == Seq::<Seq<u8>>::empty(),
            final(self).spreads() == Seq::new(old(self).bins() as nat, |i: int| 0u8),
            final(self).countdown() == 0,
            final(self).seen() == 0,
    {
        let bins: usize = self.bins;
        self.frames.clear();
        self.middles = vec![0u8; bins];
        self.spread = vec![0u8; bins];
        self.spread_countdown = 0;
        self.frames_seen = 0;
        let mut i: usize = 0;
        while i < bins
            invariant
                i <= bins,
                self.medians.len() == bins,
                self.bins == bins,
                self.bins == old(self).bins,
                self.window == old(self).window,
                self.warmup_frames == old(self).warmup_frames,
                self.frames@ == Seq::<Vec<u8>>::empty(),
                self.middles@ == Seq::new(bins as nat, |i: int| 0u8),
                self.spread@ == Seq::new(bins as nat, |i: int| 0u8),
                self.spread_countdown == 0,
                self.frames_seen == 0,
                forall|k: int| 0 <= k < i ==> (#[trigger] self.medians[k]).wf() && self.medians[k].size() == 0,
                forall|k: int, v: int| 0 <= k < i ==> #[trigger] self.medians[k].count(v) == 0,
            decreases bins - i,
        {
            self.medians[i].reset();
            i = i + 1;
        }
        proof {
            assert(self.history() =~= Seq::<Seq<u8>>::empty());
            assert forall|k: int| 0 <= k < bins implies self.bin_ok(k) by {
                assert(column(self.history(), k) =~= Seq::<int>::empty());
            }
        }
    }
}

/// A bin's histogram and middle are those of a history.
spec fn median_holds(hist: &SlidingMedian, mid: u8, history: Seq<Seq<u8>>, bin: int) -> bool {
    &&& hist.wf()
    &&& hist.size() == history.len()
    &&& forall|v: int| #[trigger] hist.count(v) == rank::occurrences(column(history, bin), v)
    &&& mid == middle(history, bin)
}

proof fn lemma_column_drop(history: Seq<Seq<u8>>, bin: int)
    requires
        history.len() > 0,
    ensures
        forall|v: int| #[trigger]
            rank::occurrences(column(history.drop_first(), bin), v) == rank::occurrences(
                column(history, bin),
                v,
            ) - if v == history[0][bin] {
                1int
            } else {
                0
            },
        rank::occurrences(column(history, bin), history[0][bin] as int) > 0,
{
    let c = column(history, bin);
    let d = column(history.drop_first(), bin);
    assert(d =~= c.drop_first());
    assert forall|v: int| #[trigger] rank::occurrences(d, v) == rank::occurrences(c, v) - if v
        == history[0][bin] {
        1int
    } else {
        0
    } by {
        rank::lemma_drop_first(c, v);
    }
    rank::lemma_drop_first(c, history[0][bin] as int);
    rank::lemma_bounds(d, history[0][bin] as int);
}

proof fn lemma_column_push(history: Seq<Seq<u8>>, frame: Seq<u8>, bin: int)
    ensures
        forall|v: int| #[trigger]
            rank::occurrences(column(history.push(frame), bin), v) == rank::occurrences(
                column(history, bin),
                v,
            ) + if v == frame[bin] {
                1int
            } else {
                0
            },
{
    let c = column(history, bin);
    let d = column(history.push(frame), bin);
    assert(d =~= c.push(frame[bin] as int));
    assert forall|v: int| #[trigger] rank::occurrences(d, v) == rank::occurrences(c, v) + if v
        == frame[bin] {
        1int
    } else {
        0
    } by {
        rank::lemma_push(c, frame[bin] as int, v);
    }
}

proof fn lemma_frames_monotone(a: int, b: int, hop: int, sample_rate: int)
    requires
        0 <= a <= b,
        hop > 0,
        sample_rate >= 0,
    ensures
        0 <= frames_in(a, hop, sample_rate) <= frames_in(b, hop, sample_rate),
{
    let step = hop * ONE;
    assert(step > 0) by (nonlinear_arith)
        requires
            hop > 0,
            step == hop * ONE,
    ;
    assert(0 <= a * sample_rate <= b * sample_rate) by (nonlinear_arith)
        requires
            0 <= a <= b,
            sample_rate >= 0,
    ;
    vstd::arithmetic::div_mod::lemma_div_is_ordered(
        a * sample_rate + step - 1,
        b * sample_rate + step - 1,
        step,
    );
    vstd::arithmetic::div_mod::lemma_div_pos_is_pos(a * sample_rate + step - 1, step);
}

/// How many of the remembered frames are above a bucket in one bin.
pub open spec fn frames_above(history: Seq<Seq<u8>>, bin: int, bucket: int) -> int {
    history.len() - rank::below(column(history, bin), bucket + 1)
}

/// A signal raises the background of a bin when it fills half of the window, and not
/// before: however loud it is, the background stays at or below a level that more than half
/// of the frames keep to.
pub proof fn law_half_the_window_decides_the_background(
    history: Seq<Seq<u8>>,
    bin: int,
    bucket: int,
)
    requires
        history.len() > 0,
        forall|t: int| 0 <= t < history.len() ==> 0 <= bin < (#[trigger] history[t]).len(),
    ensures
        middle(history, bin) <= bucket <==> 2 * frames_above(history, bin, bucket) < history.len(),
{
    let s = column(history, bin);
    let k = s.len() as int / 2;
    rank::lemma_extremes(s, 0, 256);
    rank::lemma_rank_exists(s, k, 0, 256);
    let m = middle(history, bin);
    if m <= bucket {
        rank::lemma_monotone(s, m + 1, bucket + 1);
    } else {
        rank::lemma_monotone(s, bucket + 1, m);
    }
}

/// A level that does not change becomes the background, and then stands out by less than
/// one bucket.
pub proof fn law_a_steady_level_is_the_background(history: Seq<Seq<u8>>, bin: int, db: int)
    requires
        history.len() > 0,
        BUCKET_MIN_DB <= db < BUCKET_MIN_DB + 256 * BUCKET_DB,
        forall|t: int|
            0 <= t < history.len() ==> 0 <= bin < (#[trigger] history[t]).len() && history[t][bin]
                == bucket_of(db),
    ensures
        middle(history, bin) == bucket_of(db),
        0 <= db - bucket_level(middle(history, bin)) < BUCKET_DB,
{
    let s = column(history, bin);
    let k = s.len() as int / 2;
    let b = bucket_of(db);
    rank::lemma_extremes(s, b, b + 1);
    rank::lemma_rank_exists(s, k, b, b + 1);
}

/// The spread is worked out again once in every interval: by the frame after each whole
/// number of intervals, and by no other.
pub proof fn law_the_spread_comes_round_every_interval(model: &BackgroundModel)
    requires
        model.wf(),
        model.seen() < u64::MAX,
    ensures
        model.countdown() == 0 <==> model.seen() % (SPREAD_INTERVAL_FRAMES as int) == 0,
{
}

/// A bucket is half a decibel wide: a level from -128 to 0 dB lies in the bucket it is put in,
/// its lower end included, and a level beyond goes to the bucket at that end.
pub proof fn law_a_bucket_is_half_a_decibel(db: int)
    ensures
        0 <= bucket_of(db) <= 255,
        -128_000_000 <= db < 0 ==> bucket_level(bucket_of(db)) <= db < bucket_level(bucket_of(db))
            + 500_000,
        db < -128_000_000 ==> bucket_of(db) == 0,
        db >= 0 ==> bucket_of(db) == 255,
{
}

/// The spread holds the middle half of a bin's frames: no more than a quarter of them lie below
/// some bucket, and more than three quarters no higher than the spread above it. What never
/// changes has none.
pub proof fn law_the_spread_holds_the_middle_half(history: Seq<Seq<u8>>, bin: int)
    requires
        history.len() >= 4,
    ensures
        exists|low: int|
            {
                &&& 4 * #[trigger] below_in(history, bin, low) <= history.len()
                &&& 4 * below_in(history, bin, low + 1) > history.len()
                &&& 4 * below_in(history, bin, low + quartile_range(history, bin)) <= 3
                    * history.len()
                &&& 4 * below_in(history, bin, low + quartile_range(history, bin) + 1) > 3
                    * history.len() - 4
            },
        quartile_range(history, bin) >= 0,
        (forall|t: int| 0 <= t < history.len() ==> (#[trigger] history[t])[bin] == history[0][bin])
            ==> quartile_range(history, bin) == 0,
{
    let s = column(history, bin);
    let n = s.len() as int;
    let low = rank::ranked(s, n / 4);
    let high = rank::ranked(s, 3 * n / 4);
    rank::lemma_rank_total(s, n / 4);
    rank::lemma_rank_total(s, 3 * n / 4);
    lemma_below_in(history, bin, low);
    lemma_below_in(history, bin, low + 1);
    lemma_below_in(history, bin, high);
    lemma_below_in(history, bin, high + 1);
    if high < low {
        rank::lemma_monotone(s, high + 1, low);
    }
    assert(4 * below_in(history, bin, low) <= history.len());
    if forall|t: int| 0 <= t < history.len() ==> (#[trigger] history[t])[bin] == history[0][bin] {
        let v = history[0][bin] as int;
        assert forall|i: int| 0 <= i < s.len() implies v <= #[trigger] s[i] < v + 1 by {
            assert(history[i][bin] == history[0][bin]);
        }
        rank::lemma_extremes(s, v, v + 1);
        rank::lemma_rank_unique(s, n / 4, v);
        rank::lemma_rank_unique(s, 3 * n / 4, v);
    }
}

/// In how many frames a bin is below a bucket.
pub open spec fn below_in(history: Seq<Seq<u8>>, bin: int, bucket: int) -> int {
    history.filter(|f: Seq<u8>| f[bin] < bucket).len() as int
}

proof fn lemma_below_filters(
    history: Seq<Seq<u8>>,
    bin: int,
    bucket: int,
    pred: spec_fn(Seq<u8>) -> bool,
)
    requires
        forall|f: Seq<u8>| #[trigger] pred(f) == (f[bin] < bucket),
    ensures
        rank::below(column(history, bin), bucket) == history.filter(pred).len(),
    decreases history.len(),
{
    reveal(Seq::filter);
    if history.len() > 0 {
        lemma_below_filters(history.drop_last(), bin, bucket, pred);
        assert(column(history, bin).drop_last() =~= column(history.drop_last(), bin));
    }
}

proof fn lemma_below_in(history: Seq<Seq<u8>>, bin: int, bucket: int)
    ensures
        below_in(history, bin, bucket) == rank::below(column(history, bin), bucket),
{
    lemma_below_filters(history, bin, bucket, |f: Seq<u8>| f[bin] < bucket);
}

/// What stands above the background does so by its own level: the same frame with one bin `more`
/// decibels louder, heard by the same model, stands out by as much more in that bin, so long as
/// the background did not move, and the background of a bin is the middle of what it held: no
/// more than half the frames lie on either side.
pub proof fn law_excess_is_above_the_middle(
    model: &BackgroundModel,
    before: &BackgroundModel,
    frame: Seq<Option<i32>>,
    out: Seq<i64>,
    bin: int,
    db: i32,
)
    requires
        model.is_excess(before, frame, out),
        0 <= bin < out.len(),
        frame[bin] == Some(db),
        model.history().len() > 0,
    ensures
        ({
            let background = db - out[bin];
            let n = model.history().len() as int;
            &&& exists|bucket: int|
                {
                    &&& background == -128_000_000 + bucket * 500_000
                    &&& 2 * #[trigger] below_in(model.history(), bin, bucket) <= n
                    &&& 2 * below_in(model.history(), bin, bucket + 1) > n
                }
        }),
{
    let h = model.history();
    let s = column(h, bin);
    let n = h.len() as int;
    let m = middle(h, bin);
    rank::lemma_rank_total(s, n / 2);
    lemma_below_in(h, bin, m);
    lemma_below_in(h, bin, m + 1);
    assert(2 * below_in(h, bin, m) <= n);
}

/// Frames are rounded up: they cover the time, and one fewer would not.
pub proof fn law_frames_cover_the_time(time: int, hop: int, sample_rate: int)
    requires
        hop > 0,
    ensures
        (frames_in(time, hop, sample_rate) - 1) * (hop * ONE) < time * sample_rate,
        time * sample_rate <= frames_in(time, hop, sample_rate) * (hop * ONE),
{
    let step = hop * ONE;
    let x = time * sample_rate + step - 1;
    vstd::arithmetic::div_mod::lemma_fundamental_div_mod(x, step);
    let q = x / step;
    assert(step * q == q * step && (q - 1) * step == q * step - step) by (nonlinear_arith);
}

/// A fresh model remembers four time constants and is warm after one: a median only holds a
/// signal that fills less than half of it.
pub proof fn law_a_model_remembers_four_time_constants(
    m: &BackgroundModel,
    bins: int,
    hop: int,
    rate: int,
    time: int,
)
    requires
        m.is_fresh(bins, hop, rate, time),
        hop > 0,
        rate > 0,
        time > 0,
    ensures
        m.window() >= 2,
        4 * time * rate <= m.window() * (hop * ONE),
        m.window() > 2 ==> (m.window() - 1) * (hop * ONE) < 4 * time * rate,
        (m.warmup() - 1) * (hop * ONE) < time * rate <= m.warmup() * (hop * ONE),
        m.seen() == 0,
        m.history().len() == 0,
{
    law_frames_cover_the_time(4 * time, hop, rate);
    law_frames_cover_the_time(time, hop, rate);
    let step = hop * ONE;
    let f = frames_in(4 * time, hop, rate);
    if f <= 2 {
        assert(f * step <= 2 * step) by (nonlinear_arith)
            requires
                f <= 2,
                step > 0,
        ;
    }
}

} // verus!
