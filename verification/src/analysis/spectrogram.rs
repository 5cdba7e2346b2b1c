//! Quantized spectral history, and its long-term summary.
use crate::arith::{floor_div, isqrt, root, ONE};
use std::collections::VecDeque;
use vstd::prelude::*;

verus! {

/// Levels are quantized into a byte across this range, in millionths of a decibel.
/// Anything quieter is pinned to 0, anything louder to 255.
#[derive(Clone, Copy, Debug, PartialEq, Eq, Structural)]
pub struct DbRange {
    pub min: i32,
    pub max: i32,
}

impl Default for DbRange {
    /// -120 dBFS is the analysis floor, 0 dBFS is full scale.
    fn default() -> (r: Self)
        ensures
            r.min == -120_000_000,
            r.max == 0,
    {
        DbRange { min: -120_000_000, max: 0 }
    }
}

impl DbRange {
    /// The byte of a level: the nearest of 256 even steps, halves up.
    pub open spec fn byte_of(&self, db: int) -> int {
        let span = self.max - self.min;
        if db <= self.min {
            0
        } else if db >= self.max {
            255
        } else {
            (510 * (db - self.min) + span) / (2 * span)
        }
    }

    /// The level of a byte, rounded down.
    pub open spec fn level_of(&self, q: int) -> int {
        self.min + q * (self.max - self.min) / 255
    }

    /// The byte of a level; a level that is not a number is taken for silence.
    pub fn quantize(&self, db: Option<i64>) -> (r: u8)
        requires
            self.min < self.max,
        ensures
            r == match db {
                None => 0,
                Some(v) => self.byte_of(v as int),
            },
    {
        match db {
            None => 0,
            Some(v) => {
                if v <= self.min as i64 {
                    0
                } else if v >= self.max as i64 {
                    255
                } else {
                    let span: i128 = self.max as i128 - self.min as i128;
                    let above: i128 = v as i128 - self.min as i128;
                    proof {
                        assert((510 * above + span) / (2 * span as int) <= 255) by (nonlinear_arith)
                            requires
                                0 < above < span,
                        ;
                    }
                    ((510 * above + span) / (2 * span)) as u8
                }
            },
        }
    }

    pub fn dequantize(&self, q: u8) -> (r: i32)
        requires
            self.min < self.max,
        ensures
            r == self.level_of(q as int),
            self.min <= r <= self.max,
    {
        let span: i128 = self.max as i128 - self.min as i128;
        proof {
            assert(0 <= q * span) by (nonlinear_arith)
                requires
                    0 <= q,
                    0 < span,
            ;
            assert(q * span <= 255 * span) by (nonlinear_arith)
                requires
                    q <= 255,
                    0 < span,
            ;
            assert(0 <= (q * span) / 255 <= span);
        }
        (self.min as i128 + q as i128 * span / 255) as i32
    }
}

/// Bytes survive: the byte of a byte's level is that byte, as long as the range is wide
/// enough for 256 levels to differ.
pub proof fn law_quantize_dequantize(range: DbRange, q: int)
    requires
        0 <= q <= 255,
        range.max - range.min >= 510,
    ensures
        range.byte_of(range.level_of(q)) == q,
{
    let span = range.max - range.min;
    let above = q * span / 255;
    vstd::arithmetic::div_mod::lemma_fundamental_div_mod(q * span, 255);
    assert(255 * above <= q * span < 255 * above + 255);
    if q == 0 {
        assert(0 * span == 0);
    } else if q == 255 {
        assert(255 * span / 255 == span);
    } else {
        assert(span <= q * span <= 254 * span) by (nonlinear_arith)
            requires
                1 <= q <= 254,
                span > 0,
        ;
        assert(0 < above < span);
        let num = 510 * above + span;
        // num lies between (2q)span + span - 510 and (2q)span + span.
        assert(2 * (q * span) - 510 + span < num <= 2 * (q * span) + span);
        assert(q * (2 * span) == 2 * (q * span)) by (nonlinear_arith);
        vstd::arithmetic::div_mod::lemma_fundamental_div_mod_converse(
            num,
            2 * span,
            q,
            num - q * (2 * span),
        );
    }
}

/// Levels survive quantization to within half a step, and one millionth for rounding.
pub proof fn law_dequantize_quantize(range: DbRange, db: int)
    requires
        range.min <= db <= range.max,
        range.min < range.max,
    ensures
        ({
            let back = range.level_of(range.byte_of(db));
            let span = range.max - range.min;
            -(span + 510) <= 510 * (back - db) <= span
        }),
{
    let span = range.max - range.min;
    let above = db - range.min;
    let q = range.byte_of(db);
    let back = q * span / 255;
    vstd::arithmetic::div_mod::lemma_fundamental_div_mod(q * span, 255);
    if db <= range.min {
        assert(0 * span == 0);
    } else if db >= range.max {
        assert(255 * span / 255 == span);
    } else {
        let num = 510 * above + span;
        vstd::arithmetic::div_mod::lemma_fundamental_div_mod(num, 2 * span);
        assert((2 * span) * q == 2 * (q * span)) by (nonlinear_arith);
        assert(2 * (q * span) <= num < 2 * (q * span) + 2 * span);
    }
}

/// A fixed-capacity history of quantized spectral frames.
///
/// `total_frames` counts every frame ever pushed, so a column can be addressed by an
/// absolute index for as long as it remains resident.
pub struct SpectrogramHistory {
    frames: VecDeque<Vec<u8>>,
    frame_width: usize,
    capacity: usize,
    total_frames: u64,
    range: DbRange,
}

pub open spec fn quantized(range: DbRange, db: Seq<Option<i64>>) -> Seq<u8> {
    db.map_values(
        |v: Option<i64>|
            match v {
                None => 0u8,
                Some(x) => range.byte_of(x as int) as u8,
            },
    )
}

/// The levels of a frame's bytes, together.
pub open spec fn level_sum(range: DbRange, frame: Seq<u8>) -> int
    decreases frame.len(),
{
    if frame.len() == 0 {
        0
    } else {
        level_sum(range, frame.drop_last()) + range.level_of(frame.last() as int)
    }
}

impl SpectrogramHistory {
    /// The frames held, oldest first.
    pub closed spec fn held(&self) -> Seq<Seq<u8>> {
        self.frames@.map_values(|f: Vec<u8>| f@)
    }

    pub closed spec fn width(&self) -> int {
        self.frame_width as int
    }

    pub closed spec fn limit(&self) -> int {
        self.capacity as int
    }

    /// Frames ever pushed.
    pub closed spec fn written(&self) -> int {
        self.total_frames as int
    }

    pub closed spec fn scale(&self) -> DbRange {
        self.range
    }

    pub closed spec fn wf(&self) -> bool {
        &&& self.frame_width > 0
        &&& self.capacity > 0
        &&& self.frame_width * self.capacity <= usize::MAX
        &&& self.range.min < self.range.max
        &&& self.frames.len() <= self.capacity
        &&& self.frames.len() <= self.total_frames
        &&& forall|t: int|
            0 <= t < self.frames.len() ==> (#[trigger] self.frames@[t]).len() == self.frame_width
    }

    /// This is the history `before` with one more frame, quantized, at its end, and without
    /// its oldest if it was full.
    pub open spec fn follows(&self, before: &Self, db: Seq<Option<i64>>) -> bool {
        &&& self.width() == before.width()
        &&& self.limit() == before.limit()
        &&& self.scale() == before.scale()
        &&& self.written() == before.written() + 1
        &&& self.held() == (if before.held().len() == before.limit() {
            before.held().drop_first()
        } else {
            before.held()
        }).push(quantized(before.scale(), db))
    }

    /// What holds of every history.
    pub proof fn lemma_shape(&self)
        requires
            self.wf(),
        ensures
            self.width() > 0,
            self.held().len() <= self.limit(),
            self.held().len() <= self.written() <= u64::MAX,
            self.scale().min < self.scale().max,
            forall|t: int| 0 <= t < self.held().len() ==> (#[trigger] self.held()[t]).len() == self.width(),
    {
        assert forall|t: int| 0 <= t < self.held().len() implies (#[trigger] self.held()[t]).len()
            == self.width() by {
            assert(self.frames@[t].len() == self.frame_width);
        }
    }

    pub fn new(frame_width: usize, capacity: usize, range: DbRange) -> (r: Self)
        requires
            frame_width > 0,
            capacity > 0,
            frame_width * capacity <= usize::MAX,
            range.min < range.max,
        ensures
            r.wf(),
            r.held() == Seq::<Seq<u8>>::empty(),
            r.width() == frame_width,
            r.limit() == capacity,
            r.written() == 0,
            r.scale() == range,
    {
        let r = SpectrogramHistory {
            frames: VecDeque::new(),
            frame_width,
            capacity,
            total_frames: 0,
            range,
        };
        assert(r.held() =~= Seq::<Seq<u8>>::empty());
        r
    }

    pub fn frame_width(&self) -> (r: usize)
        ensures
            r == self.width(),
    {
        self.frame_width
    }

    pub fn capacity(&self) -> (r: usize)
        ensures
            r == self.limit(),
    {
        self.capacity
    }

    pub fn len(&self) -> (r: usize)
        ensures
            r == self.held().len(),
    {
        self.frames.len()
    }

    pub fn is_empty(&self) -> (r: bool)
        ensures
            r == (self.held().len() == 0),
    {
        self.frames.len() == 0
    }

    pub fn total_frames(&self) -> (r: u64)
        ensures
            r == self.written(),
    {
        self.total_frames
    }

    pub fn oldest_frame(&self) -> (r: u64)
        requires
            self.wf(),
        ensures
            r == self.written() - self.held().len(),
    {
        self.total_frames - self.frames.len() as u64
    }

    pub fn range(&self) -> (r: DbRange)
        ensures
            r == self.scale(),
    {
        self.range
    }

    /// Bytes that a full history takes.
    pub fn bytes(&self) -> (r: usize)
        requires
            self.wf(),
        ensures
            r == self.width() * self.limit(),
    {
        self.frame_width * self.capacity
    }

    /// Quantize and append a frame of levels, letting go of the oldest when full.
    pub fn push_db(&mut self, db: &[Option<i64>])
        requires
            old(self).wf(),
            db.len() == old(self).width(),
            old(self).written() < u64::MAX,
        ensures
            final(self).wf(),
            final(self).follows(old(self), db@),
    {
        let ghost before = self.held();
        let mut frame: Vec<u8> = Vec::with_capacity(self.frame_width);
        let mut i: usize = 0;
        while i < db.len()
            invariant
                self.range.min < self.range.max,
                i <= db.len(),
                frame.len() == i,
                forall|k: int|
                    0 <= k < i ==> #[trigger] frame[k] == quantized(self.range, db@)[k],
            decreases db.len() - i,
        {
            frame.push(self.range.quantize(db[i]));
            i = i + 1;
        }
        assert(frame@ =~= quantized(self.range, db@));
        if self.frames.len() == self.capacity {
            let _ = self.frames.pop_front();
            assert(self.held() =~= before.drop_first());
        }
        let ghost kept = self.held();
        self.frames.push_back(frame);
        self.total_frames = self.total_frames + 1;
        assert(self.held() =~= kept.push(quantized(self.range, db@)));
    }

    /// Frame by position from the oldest resident (0 = oldest).
    pub fn frame_at(&self, offset: usize) -> (r: Option<&[u8]>)
        ensures
            match r {
                None => offset >= self.held().len(),
                Some(f) => offset < self.held().len() && f@ == self.held()[offset as int],
            },
    {
        if offset >= self.frames.len() {
            return None;
        }
        Some(self.frames[offset].as_slice())
    }

    /// Frame by absolute index on the spectrogram timeline.
    pub fn frame_by_index(&self, index: u64) -> (r: Option<&[u8]>)
        requires
            self.wf(),
        ensures
            ({
                let oldest = self.written() - self.held().len();
                match r {
                    None => index < oldest || index >= self.written(),
                    Some(f) => oldest <= index < self.written() && f@ == self.held()[index - oldest],
                }
            }),
    {
        let oldest: u64 = self.oldest_frame();
        if index < oldest || index >= self.total_frames {
            return None;
        }
        self.frame_at((index - oldest) as usize)
    }

    /// The resident frames, oldest first.
    pub fn iter(&self) -> (r: Vec<&[u8]>)
        ensures
            r.len() == self.held().len(),
            forall|t: int| 0 <= t < r.len() ==> (#[trigger] r[t])@ == self.held()[t],
    {
        let mut r: Vec<&[u8]> = Vec::with_capacity(self.frames.len());
        let mut t: usize = 0;
        while t < self.frames.len()
            invariant
                t <= self.frames.len(),
                r.len() == t,
                forall|k: int| 0 <= k < t ==> (#[trigger] r[k])@ == self.held()[k],
            decreases self.frames.len() - t,
        {
            r.push(self.frames[t].as_slice());
            t = t + 1;
        }
        r
    }

    /// Levels of one bin across all resident frames, oldest first. This is the series the
    /// periodicity estimator consumes.
    pub fn bin_series(&self, bin: usize) -> (r: Vec<i32>)
        requires
            self.wf(),
            bin < self.width(),
        ensures
            r.len() == self.held().len(),
            forall|t: int|
                0 <= t < r.len() ==> #[trigger] r[t] == self.scale().level_of(
                    self.held()[t][bin as int] as int,
                ),
    {
        let mut r: Vec<i32> = Vec::with_capacity(self.frames.len());
        let mut t: usize = 0;
        while t < self.frames.len()
            invariant
                self.wf(),
                bin < self.frame_width,
                t <= self.frames.len(),
                r.len() == t,
                forall|k: int|
                    0 <= k < t ==> #[trigger] r[k] == self.range.level_of(
                        self.held()[k][bin as int] as int,
                    ),
            decreases self.frames.len() - t,
        {
            assert(self.held()[t as int] == self.frames@[t as int]@);
            let frame: &Vec<u8> = &self.frames[t];
            r.push(self.range.dequantize(frame[bin]));
            t = t + 1;
        }
        r
    }

    /// Mean level across all bins for each resident frame, rounded down: a single
    /// broadband energy track.
    pub fn energy_series(&self) -> (r: Vec<i32>)
        requires
            self.wf(),
        ensures
            r.len() == self.held().len(),
            forall|t: int|
                0 <= t < r.len() ==> #[trigger] r[t] == level_sum(self.scale(), self.held()[t])
                    / self.width(),
    {
        let mut r: Vec<i32> = Vec::with_capacity(self.frames.len());
        let mut t: usize = 0;
        while t < self.frames.len()
            invariant
                self.wf(),
                t <= self.frames.len(),
                r.len() == t,
                forall|k: int|
                    0 <= k < t ==> #[trigger] r[k] == level_sum(self.range, self.held()[k])
                        / self.width(),
            decreases self.frames.len() - t,
        {
            assert(self.held()[t as int] == self.frames@[t as int]@);
            let frame: &Vec<u8> = &self.frames[t];
            let mean: i32 = mean_level(self.range, frame);
            r.push(mean);
            t = t + 1;
        }
        r
    }
}

/// A frame keeps its index for as long as it is resident, and a new one takes the next.
pub proof fn law_a_frame_keeps_its_index(
    before: &SpectrogramHistory,
    after: &SpectrogramHistory,
    db: Seq<Option<i64>>,
    index: int,
)
    requires
        before.wf(),
        after.wf(),
        after.follows(before, db),
        after.written() - after.held().len() <= index < after.written(),
    ensures
        after.held()[index - (after.written() - after.held().len())] == if index
            == before.written() {
            quantized(before.scale(), db)
        } else {
            before.held()[index - (before.written() - before.held().len())]
        },
{
    before.lemma_shape();
    after.lemma_shape();
}

/// The mean level of a frame's bytes, rounded down.
fn mean_level(range: DbRange, frame: &Vec<u8>) -> (r: i32)
    requires
        range.min < range.max,
        frame.len() > 0,
    ensures
        r == level_sum(range, frame@) / (frame.len() as int),
{
    let mut sum: i128 = 0;
    let mut i: usize = 0;
    assert(frame@.take(0) =~= Seq::empty());
    while i < frame.len()
        invariant
            range.min < range.max,
            i <= frame.len(),
            sum == level_sum(range, frame@.take(i as int)),
            i * range.min <= sum <= i * range.max,
            -(i * 0x8000_0000) <= sum <= i * 0x8000_0000,
        decreases frame.len() - i,
    {
        proof {
            assert(frame@.take(i + 1).drop_last() =~= frame@.take(i as int));
            assert((i + 1) * range.min == i * range.min + range.min) by (nonlinear_arith);
            assert((i + 1) * range.max == i * range.max + range.max) by (nonlinear_arith);
        }
        sum = sum + range.dequantize(frame[i]) as i128;
        i = i + 1;
    }
    assert(frame@.take(frame.len() as int) =~= frame@);
    proof {
        let n = frame.len() as int;
        assert(range.min <= sum as int / n <= range.max) by (nonlinear_arith)
            requires
                n > 0,
                n * range.min <= sum <= n * range.max,
        ;
    }
    floor_div(sum, frame.len() as i128) as i32
}

/// A band of at least one bin within `bins`, even down where the log spacing is finer than
/// the bins are.
pub open spec fn fitted(first: int, last: int, bins: int) -> (int, int) {
    let start = if first < bins - 1 {
        first
    } else {
        bins - 1
    };
    let end = if last < start + 1 {
        start + 1
    } else if last > bins {
        bins
    } else {
        last
    };
    (start, end)
}

/// The bins between two edges, in millionths of a hertz: from the bin at or below the lower
/// edge up to the bin at or above the upper one. The last bin lies at half the sample rate.
pub open spec fn band_between(low: int, high: int, bins: int, sample_rate: int) -> (int, int) {
    let nyquist = sample_rate * ONE;
    fitted(
        2 * (low * (bins - 1)) / nyquist,
        (2 * (high * (bins - 1)) + nyquist - 1) / nyquist,
        bins,
    )
}

pub fn band_bins(low: u64, high: u64, bins: usize, sample_rate: u32) -> (r: (usize, usize))
    requires
        bins >= 2,
        sample_rate > 0,
        low <= sample_rate * ONE,
        high <= sample_rate * ONE,
    ensures
        r.0 == band_between(low as int, high as int, bins as int, sample_rate as int).0,
        r.1 == band_between(low as int, high as int, bins as int, sample_rate as int).1,
        r.0 < r.1,
{
    let nyquist: u128 = sample_rate as u128 * 1_000_000;
    let top: u128 = (bins - 1) as u128;
    proof {
        assert(0 <= low * top <= 0x10_0000_0000_0000 * 0xffff_ffff_ffff_ffff && 0 <= high * top
            <= 0x10_0000_0000_0000 * 0xffff_ffff_ffff_ffff) by (nonlinear_arith)
            requires
                0 <= low <= 0x10_0000_0000_0000,
                0 <= high <= 0x10_0000_0000_0000,
                0 <= top <= 0xffff_ffff_ffff_ffff,
        ;
    }
    let first: u128 = 2 * (low as u128 * top) / nyquist;
    let last: u128 = (2 * (high as u128 * top) + nyquist - 1) / nyquist;
    let start: usize = if first < (bins - 1) as u128 {
        first as usize
    } else {
        bins - 1
    };
    let end: usize = if last < (start + 1) as u128 {
        start + 1
    } else if last > bins as u128 {
        bins
    } else {
        last as usize
    };
    (start, end)
}

/// Averages frames down to the long-term tier: many bins to few bands, many frames to one.
pub struct LongTermSummarizer {
    /// Where the bands meet, in millionths of a hertz.
    edges: Vec<u64>,
    /// For each band, the half-open bin range it draws from.
    band_bins: Vec<(usize, usize)>,
    accumulator: Vec<i128>,
    frames_accumulated: usize,
    frames_per_summary: usize,
}

pub open spec fn level_total(db: Seq<i32>, start: int, end: int) -> int
    decreases end - start,
{
    if end <= start {
        0
    } else {
        level_total(db, start, end - 1) + db[end - 1]
    }
}

/// The mean level of a band of a frame, rounded down; nothing where the frame is too short
/// to hold any of the band. Mean decibels rather than summed power: this tracks the shape
/// of the spectrum over time, and a mean keeps one loud bin from swamping the band.
pub open spec fn band_mean(db: Seq<i32>, band: (usize, usize)) -> int {
    let end = if band.1 < db.len() {
        band.1 as int
    } else {
        db.len() as int
    };
    if end <= band.0 {
        0
    } else {
        level_total(db, band.0 as int, end) / (end - band.0)
    }
}

impl LongTermSummarizer {
    pub closed spec fn edges_of(&self) -> Seq<u64> {
        self.edges@
    }

    pub closed spec fn bins_of(&self) -> Seq<(usize, usize)> {
        self.band_bins@
    }

    /// The sum so far of each band's means.
    pub closed spec fn sums(&self) -> Seq<i128> {
        self.accumulator@
    }

    pub closed spec fn gathered(&self) -> int {
        self.frames_accumulated as int
    }

    pub closed spec fn per_summary(&self) -> int {
        self.frames_per_summary as int
    }

    pub closed spec fn wf(&self) -> bool {
        &&& self.band_bins.len() == self.accumulator.len()
        &&& self.edges.len() == self.band_bins.len() + 1
        &&& self.frames_per_summary >= 1
        &&& self.frames_accumulated < self.frames_per_summary
        &&& forall|b: int|
            0 <= b < self.band_bins.len() ==> (#[trigger] self.band_bins[b]).0 < self.band_bins[b].1
        &&& forall|b: int|
            0 <= b < self.accumulator.len() ==> -(self.frames_accumulated * 0x8000_0000)
                <= #[trigger] self.accumulator[b] <= self.frames_accumulated * 0x8000_0000
    }

    /// This is the summarizer `before` once it has been given a frame, and `r` the summary
    /// that the frame completed, if it did: the mean of each band's means, rounded down.
    pub open spec fn follows(&self, before: &Self, db: Seq<i32>, r: Option<Vec<i64>>) -> bool {
        let n = before.gathered() + 1;
        &&& self.edges_of() == before.edges_of()
        &&& self.bins_of() == before.bins_of()
        &&& self.per_summary() == before.per_summary()
        &&& n < before.per_summary() ==> {
            &&& r is None
            &&& self.gathered() == n
            &&& self.sums().len() == before.sums().len()
            &&& forall|b: int|
                0 <= b < before.bins_of().len() ==> #[trigger] self.sums()[b] == before.sums()[b]
                    + band_mean(db, before.bins_of()[b])
        }
        &&& n >= before.per_summary() ==> {
            &&& r is Some
            &&& r->Some_0.len() == before.bins_of().len()
            &&& forall|b: int|
                0 <= b < before.bins_of().len() ==> #[trigger] r->Some_0[b] == (before.sums()[b]
                    + band_mean(db, before.bins_of()[b])) / n
            &&& self.gathered() == 0
            &&& self.sums() == Seq::new(before.bins_of().len(), |b: int| 0i128)
        }
    }

    /// A summarizer that has gathered nothing yet.
    pub open spec fn is_fresh(
        &self,
        edges: Seq<u64>,
        bins: int,
        sample_rate: int,
        frames_per_summary: int,
    ) -> bool {
        &&& self.edges_of() == edges
        &&& self.bins_of().len() == edges.len() - 1
        &&& forall|b: int|
            0 <= b < edges.len() - 1 ==> {
                let band = band_between(edges[b] as int, edges[b + 1] as int, bins, sample_rate);
                &&& (#[trigger] self.bins_of()[b]).0 == band.0
                &&& self.bins_of()[b].1 == band.1
            }
        &&& self.sums() == Seq::new((edges.len() - 1) as nat, |b: int| 0i128)
        &&& self.gathered() == 0
        &&& self.per_summary() == frames_per_summary
    }

    /// `frames_per_summary` frames of `bins` are averaged into one frame of bands, each of
    /// which draws from the bins between two of the `edges`.
    pub fn new(edges: Vec<u64>, bins: usize, sample_rate: u32, frames_per_summary: usize) -> (r: Self)
        requires
            edges.len() >= 1,
            bins >= 2,
            sample_rate > 0,
            frames_per_summary >= 1,
            forall|b: int| 0 <= b < edges.len() ==> #[trigger] edges[b] <= sample_rate * ONE,
        ensures
            r.wf(),
            r.is_fresh(edges@, bins as int, sample_rate as int, frames_per_summary as int),
    {
        let bands: usize = edges.len() - 1;
        let mut found: Vec<(usize, usize)> = Vec::with_capacity(bands);
        let mut b: usize = 0;
        while b < bands
            invariant
                bins >= 2,
                sample_rate > 0,
                bands == edges.len() - 1,
                forall|b: int| 0 <= b < edges.len() ==> #[trigger] edges[b] <= sample_rate * ONE,
                b <= bands,
                found.len() == b,
                forall|k: int|
                    0 <= k < b ==> {
                        let band = band_between(
                            edges[k] as int,
                            edges[k + 1] as int,
                            bins as int,
                            sample_rate as int,
                        );
                        &&& (#[trigger] found[k]).0 == band.0
                        &&& found[k].1 == band.1
                        &&& found[k].0 < found[k].1
                    },
            decreases bands - b,
        {
            found.push(band_bins(edges[b], edges[b + 1], bins, sample_rate));
            b = b + 1;
        }
        let r = LongTermSummarizer {
            edges,
            band_bins: found,
            accumulator: vec![0i128; bands],
            frames_accumulated: 0,
            frames_per_summary,
        };
        assert(r.sums() =~= Seq::new(bands as nat, |b: int| 0i128));
        r
    }

    pub fn band_edges(&self) -> (r: &Vec<u64>)
        ensures
            r@ == self.edges_of(),
    {
        &self.edges
    }

    /// Centre frequency of a band, for axis labelling: the geometric mean of its edges,
    /// rounded down.
    pub fn band_center_hz(&self, band: usize) -> (r: u64)
        requires
            self.wf(),
            band < self.bins_of().len(),
        ensures
            r == root(self.edges_of()[band as int] * self.edges_of()[band + 1]),
    {
        let low: u64 = self.edges[band];
        let high: u64 = self.edges[band + 1];
        assert(0 <= low * high <= 0xffff_ffff_ffff_ffff * 0xffff_ffff_ffff_ffff)
            by (nonlinear_arith)
            requires
                0 <= low <= 0xffff_ffff_ffff_ffff,
                0 <= high <= 0xffff_ffff_ffff_ffff,
        ;
        isqrt(low as u128 * high as u128)
    }

    pub fn bands(&self) -> (r: usize)
        requires
            self.wf(),
        ensures
            r == self.bins_of().len(),
    {
        self.accumulator.len()
    }

    /// Feed one frame of levels. Returns a summary frame once enough of them have been
    /// gathered: the mean of the band's means, rounded down.
    pub fn push(&mut self, db: &[i32]) -> (r: Option<Vec<i64>>)
        requires
            old(self).wf(),
        ensures
            final(self).wf(),
            final(self).follows(old(self), db@, r),
    {
        let n: usize = self.frames_accumulated + 1;
        let mut sums: Vec<i128> = Vec::with_capacity(self.accumulator.len());
        let mut b: usize = 0;
        while b < self.accumulator.len()
            invariant
                *self == *old(self),
                self.wf(),
                n == self.frames_accumulated + 1,
                b <= self.accumulator.len(),
                sums.len() == b,
                forall|k: int|
                    0 <= k < b ==> #[trigger] sums[k] == self.accumulator[k] + band_mean(
                        db@,
                        self.band_bins[k],
                    ),
                forall|k: int|
                    0 <= k < b ==> -(n * 0x8000_0000) <= #[trigger] sums[k] <= n * 0x8000_0000,
            decreases self.accumulator.len() - b,
        {
            let mean: i64 = mean_of_band(db, self.band_bins[b]);
            assert(-(self.frames_accumulated * 0x8000_0000) <= self.accumulator[b as int]
                <= self.frames_accumulated * 0x8000_0000);
            sums.push(self.accumulator[b] + mean as i128);
            b = b + 1;
        }
        if n < self.frames_per_summary {
            self.accumulator = sums;
            self.frames_accumulated = n;
            return None;
        }
        let mut out: Vec<i64> = Vec::with_capacity(sums.len());
        let mut zeros: Vec<i128> = Vec::with_capacity(sums.len());
        b = 0;
        while b < sums.len()
            invariant
                n >= 1,
                b <= sums.len(),
                forall|k: int|
                    0 <= k < sums.len() ==> -(n * 0x8000_0000) <= #[trigger] sums[k] <= n
                        * 0x8000_0000,
                out.len() == b,
                zeros.len() == b,
                forall|k: int| 0 <= k < b ==> #[trigger] zeros[k] == 0,
                forall|k: int| 0 <= k < b ==> #[trigger] out[k] == sums[k] as int / n as int,
            decreases sums.len() - b,
        {
            proof {
                let s = sums[b as int] as int;
                let m = n as int;
                assert(-0x8000_0000 <= s / m <= 0x8000_0000) by (nonlinear_arith)
                    requires
                        m > 0,
                        -(m * 0x8000_0000) <= s <= m * 0x8000_0000,
                ;
            }
            out.push(floor_div(sums[b], n as i128) as i64);
            zeros.push(0);
            b = b + 1;
        }
        self.accumulator = zeros;
        self.frames_accumulated = 0;
        assert(self.sums() =~= Seq::new(self.bins_of().len(), |b: int| 0i128));
        Some(out)
    }

    /// Discard a partially gathered summary, as across a timeline gap.
    pub fn reset(&mut self)
        requires
            old(self).wf(),
        ensures
            final(self).wf(),
            final(self).edges_of() == old(self).edges_of(),
            final(self).bins_of() == old(self).bins_of(),
            final(self).per_summary() == old(self).per_summary(),
            final(self).gathered() == 0,
            final(self).sums() == Seq::new(old(self).bins_of().len(), |b: int| 0i128),
    {
        let n: usize = self.accumulator.len();
        self.accumulator = vec![0i128; n];
        self.frames_accumulated = 0;
        assert(self.sums() =~= Seq::new(self.bins_of().len(), |b: int| 0i128));
    }
}

fn mean_of_band(db: &[i32], band: (usize, usize)) -> (r: i64)
    requires
        band.0 < band.1,
    ensures
        r == band_mean(db@, band),
        -0x8000_0000 <= r <= 0x8000_0000,
{
    let end: usize = if band.1 < db.len() {
        band.1
    } else {
        db.len()
    };
    if end <= band.0 {
        return 0;
    }
    let mut sum: i128 = 0;
    let mut i: usize = band.0;
    while i < end
        invariant
            band.0 <= i <= end <= db.len(),
            sum == level_total(db@, band.0 as int, i as int),
            -((i - band.0) * 0x8000_0000) <= sum <= (i - band.0) * 0x8000_0000,
        decreases end - i,
    {
        sum = sum + db[i] as i128;
        i = i + 1;
    }
    proof {
        let s = sum as int;
        let m = end - band.0;
        assert(-0x8000_0000 <= s / m <= 0x8000_0000) by (nonlinear_arith)
            requires
                m > 0,
                -(m * 0x8000_0000) <= s <= m * 0x8000_0000,
        ;
    }
    floor_div(sum, (end - band.0) as i128) as i64
}

proof fn lemma_level_total(db: Seq<i32>, start: int, end: int, low: int, high: int)
    requires
        start <= end,
        forall|i: int| start <= i < end ==> low <= #[trigger] db[i] <= high,
    ensures
        low * (end - start) <= level_total(db, start, end) <= high * (end - start),
    decreases end - start,
{
    if start < end {
        lemma_level_total(db, start, end - 1, low, high);
        assert(low <= db[end - 1] <= high);
        assert(low * (end - start) == low * (end - 1 - start) + low && high * (end - start) == high
            * (end - 1 - start) + high) by (nonlinear_arith);
    } else {
        assert(end - start == 0);
        assert(low * 0 == 0 && high * 0 == 0);
    }
}

/// The level of a band lies between the lowest and the highest of its bins, so that a steady
/// level is its own mean.
pub proof fn law_a_band_lies_among_its_bins(
    db: Seq<i32>,
    band: (usize, usize),
    low: int,
    high: int,
)
    requires
        band.0 < band.1,
        band.0 < db.len(),
        forall|i: int| band.0 <= i < band.1 && i < db.len() ==> low <= #[trigger] db[i] <= high,
    ensures
        low <= band_mean(db, band) <= high,
{
    let end = if band.1 < db.len() {
        band.1 as int
    } else {
        db.len() as int
    };
    let n = end - band.0;
    lemma_level_total(db, band.0 as int, end, low, high);
    let t = level_total(db, band.0 as int, end);
    assert(low <= t / n <= high) by (nonlinear_arith)
        requires
            low * n <= t <= high * n,
            n > 0,
    ;
}

/// A summary is of all the frames it was gathered from: where every one of them had a band
/// between two levels, so has the summary, and there is one exactly where enough frames have
/// come, after which the gathering starts afresh.
pub proof fn law_a_summary_lies_among_its_frames(
    before: &LongTermSummarizer,
    after: &LongTermSummarizer,
    db: Seq<i32>,
    r: Option<Vec<i64>>,
    b: int,
    low: int,
    high: int,
)
    requires
        before.wf(),
        after.follows(before, db, r),
        0 <= b < before.bins_of().len(),
        low * before.gathered() <= before.sums()[b] <= high * before.gathered(),
        low <= band_mean(db, before.bins_of()[b]) <= high,
    ensures
        r is Some <==> before.gathered() + 1 >= before.per_summary(),
        r is Some ==> low <= r->Some_0[b] <= high && after.gathered() == 0 && after.sums()[b] == 0,
        r is None ==> after.gathered() == before.gathered() + 1 && low * after.gathered()
            <= after.sums()[b] <= high * after.gathered(),
{
    let n = before.gathered() + 1;
    let m = band_mean(db, before.bins_of()[b]);
    let s = before.sums()[b] + m;
    assert(low * n == low * (n - 1) + low && high * n == high * (n - 1) + high) by (nonlinear_arith);
    assert(low * n <= s <= high * n);
    assert(low <= s / n <= high) by (nonlinear_arith)
        requires
            low * n <= s <= high * n,
            n > 0,
    ;
    if r is Some {
        assert(after.sums()[b] == 0);
    }
}

/// A band holds every bin whose frequency lies between its edges, and one bin at least.
pub proof fn law_a_band_holds_the_bins_between_its_edges(
    low: int,
    high: int,
    bins: int,
    sample_rate: int,
    bin: int,
)
    requires
        bins >= 2,
        sample_rate > 0,
        0 <= low <= high,
        0 <= bin < bins,
        // The last bin lies at half the sample rate.
        low * (2 * (bins - 1)) <= bin * (sample_rate * ONE),
        bin * (sample_rate * ONE) < high * (2 * (bins - 1)),
    ensures
        band_between(low, high, bins, sample_rate).0 <= bin < band_between(
            low,
            high,
            bins,
            sample_rate,
        ).1,
        0 <= band_between(low, high, bins, sample_rate).0 < band_between(
            low,
            high,
            bins,
            sample_rate,
        ).1 <= bins,
{
    let nyquist = sample_rate * ONE;
    let a = 2 * (low * (bins - 1));
    let b = 2 * (high * (bins - 1));
    assert(a == low * (2 * (bins - 1)) && b == high * (2 * (bins - 1))) by (nonlinear_arith)
        requires
            a == 2 * (low * (bins - 1)),
            b == 2 * (high * (bins - 1)),
    ;
    assert(a >= 0) by (nonlinear_arith)
        requires
            a == low * (2 * (bins - 1)),
            low >= 0,
            bins >= 2,
    ;
    let start = a / nyquist;
    let end = (b + nyquist - 1) / nyquist;
    assert(0 <= start <= bin) by (nonlinear_arith)
        requires
            start == a / nyquist,
            0 <= a <= bin * nyquist,
            nyquist > 0,
    ;
    assert(end > bin) by (nonlinear_arith)
        requires
            end == (b + nyquist - 1) / nyquist,
            bin * nyquist < b,
            nyquist > 0,
    ;
}

proof fn lemma_level_sum(range: DbRange, frame: Seq<u8>, low: int, high: int)
    requires
        forall|i: int|
            0 <= i < frame.len() ==> low <= range.level_of((#[trigger] frame[i]) as int) <= high,
    ensures
        low * frame.len() <= level_sum(range, frame) <= high * frame.len(),
    decreases frame.len(),
{
    let n = frame.len() as int;
    if n > 0 {
        let rest = frame.drop_last();
        assert forall|i: int| 0 <= i < rest.len() implies low <= range.level_of(
            (#[trigger] rest[i]) as int,
        ) <= high by {
            assert(rest[i] == frame[i]);
        }
        lemma_level_sum(range, rest, low, high);
        assert(frame[n - 1] == frame.last());
        assert(low * n == low * (n - 1) + low && high * n == high * (n - 1) + high)
            by (nonlinear_arith);
    } else {
        assert(low * 0 == 0 && high * 0 == 0);
    }
}

/// The energy of a frame lies among the levels of its bins: where all of them lie between two
/// levels so does their mean.
pub proof fn law_energy_lies_among_the_bins(range: DbRange, frame: Seq<u8>, low: int, high: int)
    requires
        frame.len() > 0,
        forall|i: int|
            0 <= i < frame.len() ==> low <= range.level_of((#[trigger] frame[i]) as int) <= high,
    ensures
        low <= level_sum(range, frame) / (frame.len() as int) <= high,
{
    lemma_level_sum(range, frame, low, high);
    let n = frame.len() as int;
    let t = level_sum(range, frame);
    assert(low <= t / n <= high) by (nonlinear_arith)
        requires
            low * n <= t <= high * n,
            n > 0,
    ;
}

} // verus!
