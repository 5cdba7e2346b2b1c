//! Signal health: levels, crossings, clipping and the distribution of amplitudes.
//!
//! Amplitudes are whole numbers of the smallest step of a 24-bit sample, so that samples
//! of 16 and of 24 bits are held exactly.
use crate::arith::{floor_div, isqrt, root, ONE};
use std::collections::VecDeque;
use vstd::prelude::*;

verus! {

/// Full scale: an amplitude of one.
pub const FULL_SCALE: i32 = 16_777_216;

/// Amplitudes at or below this, a millionth of full scale, are treated as digital silence.
pub const SILENCE_FLOOR: u32 = 16;

/// What is taken for an amplitude that is not a number: silence.
pub open spec fn clean(samples: Seq<Option<i32>>) -> Seq<int> {
    samples.map_values(
        |s: Option<i32>|
            match s {
                None => 0int,
                Some(v) => v as int,
            },
    )
}

fn cleaned(s: Option<i32>) -> (r: i32)
    ensures
        r == match s {
            None => 0int,
            Some(v) => v as int,
        },
{
    match s {
        None => 0,
        Some(v) => v,
    }
}

pub open spec fn magnitude(v: int) -> int {
    if v < 0 {
        -v
    } else {
        v
    }
}

/// The two samples have opposite signs.
pub open spec fn crosses(a: int, b: int) -> bool {
    (a < 0 && b > 0) || (a > 0 && b < 0)
}

pub open spec fn sum_of(s: Seq<int>) -> int
    decreases s.len(),
{
    if s.len() == 0 {
        0
    } else {
        sum_of(s.drop_last()) + s.last()
    }
}

pub open spec fn squares_of(s: Seq<int>) -> int
    decreases s.len(),
{
    if s.len() == 0 {
        0
    } else {
        squares_of(s.drop_last()) + s.last() * s.last()
    }
}

/// The largest magnitude.
pub open spec fn peak_of(s: Seq<int>) -> int
    decreases s.len(),
{
    if s.len() == 0 {
        0
    } else if magnitude(s.last()) > peak_of(s.drop_last()) {
        magnitude(s.last())
    } else {
        peak_of(s.drop_last())
    }
}

pub open spec fn least_of(s: Seq<int>) -> int
    decreases s.len(),
{
    if s.len() <= 1 {
        s.last()
    } else if s.last() < least_of(s.drop_last()) {
        s.last()
    } else {
        least_of(s.drop_last())
    }
}

pub open spec fn greatest_of(s: Seq<int>) -> int
    decreases s.len(),
{
    if s.len() <= 1 {
        s.last()
    } else if s.last() > greatest_of(s.drop_last()) {
        s.last()
    } else {
        greatest_of(s.drop_last())
    }
}

/// How often the sign changes from one sample to the next.
pub open spec fn crossings_of(s: Seq<int>) -> int
    decreases s.len(),
{
    if s.len() <= 1 {
        0
    } else {
        crossings_of(s.drop_last()) + if crosses(s[s.len() - 2], s.last()) {
            1int
        } else {
            0
        }
    }
}

/// Samples at or beyond full scale.
pub open spec fn clipped_of(s: Seq<int>) -> int
    decreases s.len(),
{
    if s.len() == 0 {
        0
    } else {
        clipped_of(s.drop_last()) + if magnitude(s.last()) >= FULL_SCALE {
            1int
        } else {
            0
        }
    }
}

/// Which of `n` even bins from minus to plus full scale an amplitude lands in. Values out
/// of range clamp to the ends.
pub open spec fn bin_of(v: int, n: int) -> int {
    let i = (v + FULL_SCALE) * n / (2 * FULL_SCALE as int);
    if i < 0 {
        0
    } else if i >= n {
        n - 1
    } else {
        i
    }
}

/// How many samples land in each bin.
pub open spec fn binned(s: Seq<int>, n: int) -> Seq<int>
    decreases s.len(),
{
    if s.len() == 0 {
        Seq::new(n as nat, |i: int| 0int)
    } else {
        let before = binned(s.drop_last(), n);
        let b = bin_of(s.last(), n);
        before.update(b, before[b] + 1)
    }
}

/// What a stretch of samples amounts to.
pub struct Summary {
    pub frames: int,
    pub sum: int,
    pub sum_sq: int,
    pub peak: int,
    pub min: int,
    pub max: int,
    pub crossings: int,
    pub clipped: int,
    /// First and last sample, so a sign change across a seam still counts.
    pub first: int,
    pub last: int,
    pub histogram: Seq<int>,
}

/// The summary of some samples.
pub open spec fn summary(s: Seq<int>, bins: int) -> Summary {
    Summary {
        frames: s.len() as int,
        sum: sum_of(s),
        sum_sq: squares_of(s),
        peak: peak_of(s),
        min: least_of(s),
        max: greatest_of(s),
        crossings: crossings_of(s),
        clipped: clipped_of(s),
        first: s.first(),
        last: s.last(),
        histogram: binned(s, bins),
    }
}

fn is_crossing(a: i32, b: i32) -> (r: bool)
    ensures
        r == crosses(a as int, b as int),
{
    (a < 0 && b > 0) || (a > 0 && b < 0)
}

fn magnitude_of(v: i32) -> (r: u32)
    ensures
        r == magnitude(v as int),
{
    if v < 0 {
        (-(v as i64)) as u32
    } else {
        v as u32
    }
}

fn bin_for(v: i32, n: usize) -> (r: usize)
    requires
        n >= 2,
    ensures
        r == bin_of(v as int, n as int),
        r < n,
{
    let above: i128 = v as i128 + FULL_SCALE as i128;
    if above < 0 {
        proof {
            let w = above * n;
            assert(w / 33_554_432 < 0) by {
                assert(w < 0) by (nonlinear_arith)
                    requires
                        w == above * n,
                        above < 0,
                        n > 0,
                ;
            }
        }
        return 0;
    }
    proof {
        assert(0 <= above * n <= 0x1_0000_0000 * 0x1_0000_0000_0000_0000) by (nonlinear_arith)
            requires
                0 <= above <= 0x1_0000_0000,
                0 <= n <= 0x1_0000_0000_0000_0000,
        ;
    }
    let i: i128 = above * n as i128 / 33_554_432;
    if i >= n as i128 {
        n - 1
    } else {
        i as usize
    }
}

/// Level statistics of a stretch of samples.
#[derive(Clone, Copy, Debug, PartialEq, Eq, Structural)]
pub struct SignalStats {
    pub sample_count: usize,
    /// Root of the mean square, rounded down.
    pub rms: u64,
    /// Largest absolute amplitude.
    pub peak: u32,
    pub min: i32,
    pub max: i32,
    /// Mean sample value, rounded down. A value other than zero on AC content indicates DC
    /// offset.
    pub dc_offset: i64,
    /// Sign changes per sample, in millionths: between nothing and one.
    pub zero_crossing_rate: u64,
    /// Samples at or beyond full scale.
    pub clipped_samples: u64,
}

impl SignalStats {
    pub open spec fn is_empty(&self) -> bool {
        *self == (SignalStats {
            sample_count: 0,
            rms: 0,
            peak: 0,
            min: 0,
            max: 0,
            dc_offset: 0,
            zero_crossing_rate: 0,
            clipped_samples: 0,
        })
    }

    /// These are the statistics of what a summary sums up.
    pub open spec fn is_of(&self, s: Summary) -> bool {
        &&& self.sample_count == s.frames
        &&& self.rms == root(s.sum_sq / s.frames)
        &&& self.peak == s.peak
        &&& self.min == s.min
        &&& self.max == s.max
        &&& self.dc_offset == s.sum / s.frames
        &&& self.zero_crossing_rate == if s.frames > 1 {
            s.crossings * ONE / (s.frames - 1)
        } else {
            0
        }
        &&& self.clipped_samples == s.clipped
    }

    pub fn empty() -> (r: Self)
        ensures
            r.is_empty(),
    {
        SignalStats {
            sample_count: 0,
            rms: 0,
            peak: 0,
            min: 0,
            max: 0,
            dc_offset: 0,
            zero_crossing_rate: 0,
            clipped_samples: 0,
        }
    }

    /// True when the window holds essentially nothing.
    pub fn is_silent(&self) -> (r: bool)
        ensures
            r == (self.sample_count == 0 || self.peak <= SILENCE_FLOOR),
    {
        self.sample_count == 0 || self.peak <= SILENCE_FLOOR
    }

    /// Single pass over the window.
    pub fn compute(samples: &[Option<i32>]) -> (r: Self)
        ensures
            samples.len() == 0 ==> r.is_empty(),
            samples.len() > 0 ==> r.is_of(summary(clean(samples@), 2)),
            r.zero_crossing_rate <= ONE,
    {
        if samples.len() == 0 {
            return SignalStats::empty();
        }
        let block = summarize(samples, 2);
        block.stats()
    }
}

/// Per-block summary, so windowed statistics never rescan the audio.
struct BlockSummary {
    frames: usize,
    sum: i128,
    sum_sq: u128,
    peak: u32,
    min: i32,
    max: i32,
    crossings: u64,
    clipped: u64,
    first: i32,
    last: i32,
    histogram: Vec<u64>,
}

impl View for BlockSummary {
    type V = Summary;

    closed spec fn view(&self) -> Summary {
        Summary {
            frames: self.frames as int,
            sum: self.sum as int,
            sum_sq: self.sum_sq as int,
            peak: self.peak as int,
            min: self.min as int,
            max: self.max as int,
            crossings: self.crossings as int,
            clipped: self.clipped as int,
            first: self.first as int,
            last: self.last as int,
            histogram: self.histogram@.map_values(|c: u64| c as int),
        }
    }
}

/// The bounds every summary keeps.
pub open spec fn summary_ok(s: Summary) -> bool {
    &&& 1 <= s.frames <= usize::MAX
    &&& -(s.frames * 0x8000_0000) <= s.sum <= s.frames * 0x8000_0000
    &&& 0 <= s.sum_sq <= s.frames * 0x4000_0000_0000_0000
    &&& 0 <= s.peak <= 0x8000_0000
    &&& 0 <= s.crossings < s.frames
    &&& 0 <= s.clipped <= s.frames
    &&& forall|b: int|
        0 <= b < s.histogram.len() ==> 0 <= #[trigger] s.histogram[b] <= s.frames
}

impl BlockSummary {
    fn stats(&self) -> (r: SignalStats)
        requires
            summary_ok(self@),
        ensures
            r.is_of(self@),
            r.zero_crossing_rate <= ONE,
    {
        let count: u128 = self.frames as u128;
        proof {
            let n = self.frames as int;
            let s = self.sum as int;
            let q = self.sum_sq as int;
            let c = self.crossings as int;
            assert(-0x8000_0000 <= s / n <= 0x8000_0000) by (nonlinear_arith)
                requires
                    n > 0,
                    -(n * 0x8000_0000) <= s <= n * 0x8000_0000,
            ;
            if n > 1 {
                assert(0 <= c * 1_000_000 / (n - 1) <= 1_000_000) by (nonlinear_arith)
                    requires
                        n > 1,
                        0 <= c <= n - 1,
                ;
            }
        }
        SignalStats {
            sample_count: self.frames,
            rms: isqrt(self.sum_sq / count),
            peak: self.peak,
            min: self.min,
            max: self.max,
            dc_offset: floor_div(self.sum, self.frames as i128) as i64,
            zero_crossing_rate: if self.frames > 1 {
                (self.crossings as u128 * 1_000_000 / (self.frames - 1) as u128) as u64
            } else {
                0
            },
            clipped_samples: self.clipped,
        }
    }
}

/// Summarize one block of samples in one pass.
fn summarize(samples: &[Option<i32>], bins: usize) -> (r: BlockSummary)
    requires
        samples.len() > 0,
        bins >= 2,
    ensures
        r@ == summary(clean(samples@), bins as int),
        summary_ok(r@),
        r.histogram.len() == bins,
{
    let ghost all = clean(samples@);
    let first: i32 = cleaned(samples[0]);
    let mut block = BlockSummary {
        frames: 0,
        sum: 0,
        sum_sq: 0,
        peak: 0,
        min: first,
        max: first,
        crossings: 0,
        clipped: 0,
        first,
        last: first,
        histogram: vec![0u64; bins],
    };
    proof {
        assert(all.take(0) =~= Seq::empty());
        assert(block.histogram@.map_values(|c: u64| c as int) =~= binned(all.take(0), bins as int));
    }
    while block.frames < samples.len()
        invariant
            all == clean(samples@),
            samples.len() > 0,
            bins >= 2,
            block.frames <= samples.len(),
            block.first == all[0],
            block.frames == 0 ==> block.min == all[0] && block.max == all[0] && block.last
                == all[0],
            block.frames > 0 ==> block.min == least_of(all.take(block.frames as int)) && block.max
                == greatest_of(all.take(block.frames as int)) && block.last == all[block.frames
                - 1],
            block.sum == sum_of(all.take(block.frames as int)),
            block.sum_sq == squares_of(all.take(block.frames as int)),
            block.peak == peak_of(all.take(block.frames as int)),
            block.crossings == crossings_of(all.take(block.frames as int)),
            block.clipped == clipped_of(all.take(block.frames as int)),
            block.histogram@.map_values(|c: u64| c as int) == binned(
                all.take(block.frames as int),
                bins as int,
            ),
            block.histogram.len() == bins,
            -(block.frames * 0x8000_0000) <= block.sum <= block.frames * 0x8000_0000,
            0 <= block.sum_sq <= block.frames * 0x4000_0000_0000_0000,
            0 <= block.peak <= 0x8000_0000,
            block.frames == 0 ==> block.crossings == 0,
            block.frames > 0 ==> block.crossings < block.frames,
            0 <= block.clipped <= block.frames,
            forall|b: int| 0 <= b < bins ==> #[trigger] block.histogram[b] <= block.frames,
        decreases samples.len() - block.frames,
    {
        let i: usize = block.frames;
        let s: i32 = cleaned(samples[i]);
        let ghost before = all.take(i as int);
        let ghost after = all.take(i + 1);
        proof {
            assert(after.drop_last() =~= before);
            assert(after.last() == s);
            if i > 0 {
                assert(after[after.len() - 2] == all[i - 1]);
            }
            let v = s as int;
            assert(0 <= v * v <= 0x4000_0000_0000_0000) by (nonlinear_arith)
                requires
                    -0x8000_0000 <= v <= 0x8000_0000,
            ;
        }
        if i > 0 && is_crossing(block.last, s) {
            block.crossings = block.crossings + 1;
        }
        block.sum = block.sum + s as i128;
        let wide: i128 = s as i128;
        block.sum_sq = block.sum_sq + (wide * wide) as u128;
        let a: u32 = magnitude_of(s);
        if a > block.peak {
            block.peak = a;
        }
        if a >= FULL_SCALE as u32 {
            block.clipped = block.clipped + 1;
        }
        if s < block.min {
            block.min = s;
        }
        if s > block.max {
            block.max = s;
        }
        let b: usize = bin_for(s, bins);
        let ghost held = block.histogram@;
        let c: u64 = block.histogram[b];
        block.histogram.set(b, c + 1);
        proof {
            let old_counts = held.map_values(|c: u64| c as int);
            assert(block.histogram@.map_values(|c: u64| c as int) =~= old_counts.update(
                b as int,
                old_counts[b as int] + 1,
            ));
        }
        block.last = s;
        block.frames = i + 1;
    }
    proof {
        assert(all.take(all.len() as int) =~= all);
        assert forall|b: int| 0 <= b < block@.histogram.len() implies 0
            <= #[trigger] block@.histogram[b] <= block@.frames by {
            assert(block.histogram[b] <= block.frames);
        }
    }
    block
}

/// All the samples of some blocks, one after the other.
pub open spec fn strung(blocks: Seq<Seq<int>>) -> Seq<int>
    decreases blocks.len(),
{
    if blocks.len() == 0 {
        Seq::empty()
    } else {
        strung(blocks.drop_last()) + blocks.last()
    }
}

/// The blocks left once the oldest are let go: as many as it takes to come down to the
/// capacity, but never the newest.
pub open spec fn trimmed(blocks: Seq<Seq<int>>, capacity: int) -> Seq<Seq<int>>
    decreases blocks.len(),
{
    if blocks.len() > 1 && strung(blocks).len() > capacity {
        trimmed(blocks.drop_first(), capacity)
    } else {
        blocks
    }
}

/// The larger of two lengths.
pub open spec fn longer_of(a: int, b: int) -> int {
    if a > b {
        a
    } else {
        b
    }
}

/// Two stretches of samples as one. A sign change across the seam between them counts.
pub open spec fn joined(a: Summary, b: Summary) -> Summary {
    Summary {
        frames: a.frames + b.frames,
        sum: a.sum + b.sum,
        sum_sq: a.sum_sq + b.sum_sq,
        peak: if b.peak > a.peak {
            b.peak
        } else {
            a.peak
        },
        min: if b.min < a.min {
            b.min
        } else {
            a.min
        },
        max: if b.max > a.max {
            b.max
        } else {
            a.max
        },
        crossings: a.crossings + b.crossings + if crosses(a.last, b.first) {
            1int
        } else {
            0
        },
        clipped: a.clipped + b.clipped,
        first: a.first,
        last: b.last,
        histogram: Seq::new(a.histogram.len(), |i: int| a.histogram[i] + b.histogram[i]),
    }
}

/// Rolling signal-health statistics over a short trailing window.
pub struct HealthWindow {
    blocks: VecDeque<BlockSummary>,
    frames: usize,
    capacity_frames: usize,
    bin_count: usize,
    /// The samples of the blocks.
    resident: Ghost<Seq<Seq<int>>>,
}

impl HealthWindow {
    /// The blocks of samples in the window, oldest first.
    pub closed spec fn held(&self) -> Seq<Seq<int>> {
        self.resident@
    }

    pub closed spec fn capacity(&self) -> int {
        self.capacity_frames as int
    }

    pub closed spec fn bins(&self) -> int {
        self.bin_count as int
    }

    pub closed spec fn wf(&self) -> bool {
        &&& self.bin_count >= 2
        &&& self.frames == strung(self.resident@).len()
        &&& self.blocks.len() == self.resident@.len()
        &&& forall|i: int| 0 <= i < self.blocks.len() ==> self.block_ok(i)
    }

    /// A block sums up its samples.
    spec fn block_ok(&self, i: int) -> bool {
        &&& self.resident@[i].len() > 0
        &&& self.blocks@[i]@ == summary(self.resident@[i], self.bin_count as int)
        &&& summary_ok(self.blocks@[i]@)
        &&& self.blocks@[i].histogram.len() == self.bin_count
    }

    /// A window of some millionths of a second, a twentieth of a second at least.
    pub fn new(seconds: i64, sample_rate: u32, bin_count: usize) -> (r: Self)
        requires
            bin_count >= 2,
        ensures
            r.wf(),
            r.held() == Seq::<Seq<int>>::empty(),
            r.capacity() == window_frames(seconds as int, sample_rate as int),
            r.bins() == bin_count,
    {
        let span: u64 = if seconds > 50_000 {
            seconds as u64
        } else {
            50_000
        };
        proof {
            assert(0 <= span * sample_rate <= 0x8000_0000_0000_0000 * 0x1_0000_0000)
                by (nonlinear_arith)
                requires
                    0 <= span <= 0x8000_0000_0000_0000,
                    0 <= sample_rate <= 0x1_0000_0000,
            ;
        }
        let frames: u128 = (span as u128 * sample_rate as u128 + 999_999) / 1_000_000;
        let r = HealthWindow {
            blocks: VecDeque::new(),
            frames: 0,
            capacity_frames: if frames > usize::MAX as u128 {
                usize::MAX
            } else {
                frames as usize
            },
            bin_count,
            resident: Ghost(Seq::empty()),
        };
        r
    }

    pub fn frames(&self) -> (r: usize)
        requires
            self.wf(),
        ensures
            r == strung(self.held()).len(),
    {
        self.frames
    }

    pub fn is_empty(&self) -> (r: bool)
        requires
            self.wf(),
        ensures
            r == (strung(self.held()).len() == 0),
    {
        self.frames == 0
    }

    /// Fold in one block of samples. This is the only pass over the audio.
    pub fn push(&mut self, samples: &[Option<i32>])
        requires
            old(self).wf(),
        ensures
            final(self).wf(),
            samples.len() == 0 ==> *final(self) == *old(self),
            final(self).capacity() == old(self).capacity(),
            final(self).bins() == old(self).bins(),
            samples.len() > 0 ==> final(self).held() == trimmed(
                old(self).held().push(clean(samples@)),
                old(self).capacity(),
            ),
            samples.len() > 0 ==> samples.len() <= strung(final(self).held()).len()
                <= longer_of(old(self).capacity(), samples.len() as int),
    {
        if samples.len() == 0 {
            return;
        }
        let ghost added = clean(samples@);
        let ghost capacity = self.capacity_frames as int;
        let block = summarize(samples, self.bin_count);
        // The oldest blocks make room before the new one comes in.
        let room: usize = if block.frames < self.capacity_frames {
            self.capacity_frames - block.frames
        } else {
            0
        };
        while self.frames > room
            invariant
                self.wf(),
                self.capacity_frames == old(self).capacity_frames,
                self.bin_count == old(self).bin_count,
                capacity == self.capacity_frames,
                added.len() > 0,
                room == if added.len() < capacity {
                    capacity - added.len()
                } else {
                    0
                },
                trimmed(old(self).resident@.push(added), capacity) == trimmed(
                    self.resident@.push(added),
                    capacity,
                ),
            decreases self.blocks.len(),
        {
            let ghost here = *self;
            proof {
                assert(here.resident@.len() > 0);
                assert(here.block_ok(0));
                lemma_strung_first(here.resident@);
                let grown = here.resident@.push(added);
                assert(grown.drop_last() =~= here.resident@);
                assert(grown.drop_first() =~= here.resident@.drop_first().push(added));
            }
            if let Some(gone) = self.blocks.pop_front() {
                self.frames = self.frames - gone.frames;
            }
            self.resident = Ghost(here.resident@.drop_first());
            proof {
                assert forall|i: int| 0 <= i < self.blocks.len() implies self.block_ok(i) by {
                    assert(here.block_ok(i + 1));
                }
            }
        }
        let ghost here = *self;
        proof {
            let grown = here.resident@.push(added);
            assert(grown.drop_last() =~= here.resident@);
            if here.resident@.len() > 0 {
                assert(here.block_ok(0));
                lemma_strung_first(here.resident@);
            }
            assert(trimmed(grown, capacity) == grown);
            law_window_is_bounded(old(self).resident@, added, capacity);
        }
        self.frames = self.frames + block.frames;
        self.blocks.push_back(block);
        self.resident = Ghost(here.resident@.push(added));
        proof {
            assert forall|i: int| 0 <= i < self.blocks.len() implies self.block_ok(i) by {
                if i < here.blocks.len() {
                    assert(here.block_ok(i));
                }
            }
        }
    }

    /// Merge the resident block summaries: the statistics of all the samples in the window,
    /// as if they had been taken in one pass. Cost is proportional to the number of blocks,
    /// not to the number of samples.
    pub fn stats(&self) -> (r: SignalStats)
        requires
            self.wf(),
        ensures
            self.held().len() == 0 ==> r.is_empty(),
            self.held().len() > 0 ==> r.is_of(summary(strung(self.held()), self.bins())),
            r.sample_count == strung(self.held()).len(),
            r.zero_crossing_rate <= ONE,
    {
        if self.blocks.len() == 0 {
            return SignalStats::empty();
        }
        let whole = self.merge();
        whole.stats()
    }

    fn merge(&self) -> (r: BlockSummary)
        requires
            self.wf(),
            self.blocks.len() > 0,
        ensures
            r@ == summary(strung(self.held()), self.bins()),
            summary_ok(r@),
            r.histogram.len() == self.bin_count,
    {
        let ghost all = self.resident@;
        let ghost bins = self.bin_count as int;
        let b0: &BlockSummary = &self.blocks[0];
        assert(self.block_ok(0));
        let mut r = BlockSummary {
            frames: b0.frames,
            sum: b0.sum,
            sum_sq: b0.sum_sq,
            peak: b0.peak,
            min: b0.min,
            max: b0.max,
            crossings: b0.crossings,
            clipped: b0.clipped,
            first: b0.first,
            last: b0.last,
            histogram: copy_counts(&b0.histogram),
        };
        let mut i: usize = 1;
        proof {
            lemma_strung_one(all.take(1));
        }
        while i < self.blocks.len()
            invariant
                self.wf(),
                all == self.resident@,
                bins == self.bin_count,
                1 <= i <= self.blocks.len(),
                strung(all.take(i as int)).len() > 0,
                r@ == summary(strung(all.take(i as int)), bins),
                summary_ok(r@),
                r.histogram.len() == self.bin_count,
            decreases self.blocks.len() - i,
        {
            let b: &BlockSummary = &self.blocks[i];
            let ghost prior = r@;
            proof {
                assert(self.block_ok(i as int));
                let a = strung(all.take(i as int));
                assert(all.take(i + 1).drop_last() =~= all.take(i as int));
                assert(all.take(i + 1).last() == all[i as int]);
                lemma_summary_joins(a, all[i as int], bins);
                lemma_strung_prefix(all, i + 1);
                assert(r.frames + b.frames <= usize::MAX);
                assert forall|k: int| 0 <= k < r.histogram.len() implies #[trigger] r.histogram[k]
                    <= r.frames by {
                    assert(r@.histogram[k] <= r@.frames);
                }
                assert forall|k: int| 0 <= k < b.histogram.len() implies #[trigger] b.histogram[k]
                    <= b.frames by {
                    assert(b@.histogram[k] <= b@.frames);
                }
            }
            let histogram = sum_counts(
                &r.histogram,
                &b.histogram,
                Ghost(r.frames as int),
                Ghost(b.frames as int),
            );
            r = BlockSummary {
                frames: r.frames + b.frames,
                sum: r.sum + b.sum,
                sum_sq: r.sum_sq + b.sum_sq,
                peak: if b.peak > r.peak {
                    b.peak
                } else {
                    r.peak
                },
                min: if b.min < r.min {
                    b.min
                } else {
                    r.min
                },
                max: if b.max > r.max {
                    b.max
                } else {
                    r.max
                },
                crossings: r.crossings + b.crossings + if is_crossing(r.last, b.first) {
                    1
                } else {
                    0
                },
                clipped: r.clipped + b.clipped,
                first: r.first,
                last: b.last,
                histogram,
            };
            proof {
                assert(r@.histogram =~= joined(prior, b@).histogram);
                assert forall|k: int| 0 <= k < r@.histogram.len() implies 0
                    <= #[trigger] r@.histogram[k] <= r@.frames by {
                    assert(0 <= prior.histogram[k] <= prior.frames);
                    assert(0 <= b@.histogram[k] <= b@.frames);
                }
            }
            i = i + 1;
        }
        assert(all.take(all.len() as int) =~= all);
        r
    }

    /// Merged amplitude histogram over the window.
    pub fn histogram(&self) -> (r: Vec<u64>)
        requires
            self.wf(),
        ensures
            r.len() == self.bins(),
            forall|b: int|
                0 <= b < r.len() ==> #[trigger] r[b] == binned(strung(self.held()), self.bins())[b],
            count_sum(r@) == strung(self.held()).len(),
    {
        if self.blocks.len() == 0 {
            let none: Vec<u64> = vec![0u64; self.bin_count];
            proof {
                lemma_zero_counts(none@);
            }
            return none;
        }
        let whole = self.merge();
        proof {
            let all = strung(self.held());
            lemma_binned_shape(all, self.bins());
            law_every_sample_is_in_a_bin(all, self.bins());
            assert forall|b: int| 0 <= b < whole.histogram.len() implies #[trigger] whole.histogram[b]
                == binned(strung(self.held()), self.bins())[b] by {
                assert(whole@.histogram[b] == whole.histogram[b]);
            }
            lemma_counts_are_bins(whole.histogram@, binned(all, self.bins()));
        }
        whole.histogram
    }

    pub fn clear(&mut self)
        requires
            old(self).wf(),
        ensures
            final(self).wf(),
            final(self).capacity() == old(self).capacity(),
            final(self).bins() == old(self).bins(),
            final(self).held() == Seq::<Seq<int>>::empty(),
    {
        self.blocks.clear();
        self.frames = 0;
        self.resident = Ghost(Seq::empty());
    }
}

/// Frames in a window of millionths of a second, rounded up; never less than a twentieth
/// of a second, nor more than can be counted.
pub open spec fn window_frames(seconds: int, sample_rate: int) -> int {
    let span = if seconds > 50_000 {
        seconds
    } else {
        50_000
    };
    let frames = (span * sample_rate + 999_999) / 1_000_000;
    if frames > usize::MAX {
        usize::MAX as int
    } else {
        frames
    }
}

fn copy_counts(a: &Vec<u64>) -> (r: Vec<u64>)
    ensures
        r@ == a@,
{
    let mut r: Vec<u64> = Vec::with_capacity(a.len());
    let mut i: usize = 0;
    while i < a.len()
        invariant
            i <= a.len(),
            r@ == a@.take(i as int),
        decreases a.len() - i,
    {
        r.push(a[i]);
        assert(a@.take(i + 1) =~= a@.take(i as int).push(a[i as int]));
        i = i + 1;
    }
    assert(a@.take(a.len() as int) =~= a@);
    r
}

fn sum_counts(a: &Vec<u64>, b: &Vec<u64>, Ghost(m): Ghost<int>, Ghost(n): Ghost<int>) -> (r: Vec<
    u64,
>)
    requires
        a.len() == b.len(),
        m + n <= u64::MAX,
        forall|i: int|
            0 <= i < a.len() ==> #[trigger] a[i] <= m,
        forall|i: int|
            0 <= i < b.len() ==> #[trigger] b[i] <= n,
    ensures
        r.len() == a.len(),
        forall|i: int| 0 <= i < r.len() ==> #[trigger] r[i] == a[i] + b[i],
{
    let mut r: Vec<u64> = Vec::with_capacity(a.len());
    let mut i: usize = 0;
    while i < a.len()
        invariant
            a.len() == b.len(),
            m + n <= u64::MAX,
            forall|i: int|
                0 <= i < a.len() ==> #[trigger] a[i] <= m,
            forall|i: int|
                0 <= i < b.len() ==> #[trigger] b[i] <= n,
            i <= a.len(),
            r.len() == i,
            forall|k: int| 0 <= k < i ==> #[trigger] r[k] == a[k] + b[k],
        decreases a.len() - i,
    {
        assert(a[i as int] <= m);
        assert(b[i as int] <= n);
        r.push(a[i] + b[i]);
        i = i + 1;
    }
    r
}

proof fn lemma_strung_one(blocks: Seq<Seq<int>>)
    requires
        blocks.len() == 1,
    ensures
        strung(blocks) == blocks[0],
{
    assert(blocks.drop_last() =~= Seq::empty());
    assert(strung(blocks) =~= blocks[0]) by {
        reveal_with_fuel(strung, 2);
    }
}

/// The first of some blocks comes before the rest.
proof fn lemma_strung_first(blocks: Seq<Seq<int>>)
    requires
        blocks.len() > 0,
    ensures
        strung(blocks) == blocks[0] + strung(blocks.drop_first()),
    decreases blocks.len(),
{
    if blocks.len() == 1 {
        lemma_strung_one(blocks);
        assert(blocks.drop_first() =~= Seq::empty());
        assert(blocks[0] + Seq::<int>::empty() =~= blocks[0]);
    } else {
        lemma_strung_first(blocks.drop_last());
        assert(blocks.drop_last().drop_first() =~= blocks.drop_first().drop_last());
        assert(blocks.drop_first().last() == blocks.last());
        let middle = strung(blocks.drop_first().drop_last());
        assert((blocks[0] + middle) + blocks.last() =~= blocks[0] + (middle + blocks.last()));
    }
}

proof fn lemma_strung_prefix(blocks: Seq<Seq<int>>, n: int)
    requires
        0 <= n <= blocks.len(),
    ensures
        strung(blocks.take(n)).len() <= strung(blocks).len(),
    decreases blocks.len() - n,
{
    if n < blocks.len() {
        lemma_strung_prefix(blocks, n + 1);
        assert(blocks.take(n + 1).drop_last() =~= blocks.take(n));
    } else {
        assert(blocks.take(n) =~= blocks);
    }
}

/// Distribution of instantaneous sample amplitudes across the full scale.
///
/// X axis is amplitude, Y axis is the count of samples in that range. This is explicitly
/// not a frequency histogram.
#[derive(Debug)]
pub struct AmplitudeHistogram {
    bins: Vec<u64>,
    total: u64,
    /// Samples that fell outside full scale and were clamped into the end bins.
    out_of_range: u64,
}

/// The sum of some counts.
pub open spec fn count_sum(counts: Seq<u64>) -> int
    decreases counts.len(),
{
    if counts.len() == 0 {
        0
    } else {
        count_sum(counts.drop_last()) + counts.last()
    }
}

/// The bin that a sample lands in; one that is not a number lands in the middle.
pub open spec fn landing(amplitude: Option<i32>, n: int) -> int {
    match amplitude {
        None => n / 2,
        Some(v) => bin_of(v as int, n),
    }
}

/// The sample is not within full scale, or no number at all.
pub open spec fn is_outside(amplitude: Option<i32>) -> bool {
    match amplitude {
        None => true,
        Some(v) => !(-FULL_SCALE <= v <= FULL_SCALE),
    }
}

/// The counts once some samples are added.
pub open spec fn tallied(counts: Seq<u64>, samples: Seq<Option<i32>>) -> Seq<u64>
    decreases samples.len(),
{
    if samples.len() == 0 {
        counts
    } else {
        let before = tallied(counts, samples.drop_last());
        let b = landing(samples.last(), counts.len() as int);
        before.update(b, (before[b] + 1) as u64)
    }
}

/// How many samples are outside full scale.
pub open spec fn outside_count(samples: Seq<Option<i32>>) -> int
    decreases samples.len(),
{
    if samples.len() == 0 {
        0
    } else {
        outside_count(samples.drop_last()) + if is_outside(samples.last()) {
            1int
        } else {
            0
        }
    }
}

impl AmplitudeHistogram {
    pub closed spec fn tally(&self) -> Seq<u64> {
        self.bins@
    }

    pub closed spec fn samples(&self) -> int {
        self.total as int
    }

    pub closed spec fn outside(&self) -> int {
        self.out_of_range as int
    }

    /// The counts add up to the number of samples: none is dropped.
    pub closed spec fn wf(&self) -> bool {
        &&& self.bins.len() >= 2
        &&& count_sum(self.bins@) == self.total
        &&& self.out_of_range <= self.total
    }

    /// What holds of every histogram.
    pub proof fn law_nothing_is_dropped(&self)
        requires
            self.wf(),
        ensures
            count_sum(self.tally()) == self.samples(),
            0 <= self.outside() <= self.samples(),
    {
    }

    pub fn new(bin_count: usize) -> (r: Self)
        requires
            bin_count >= 2,
        ensures
            r.wf(),
            r.tally() == Seq::new(bin_count as nat, |i: int| 0u64),
            r.samples() == 0,
            r.outside() == 0,
    {
        let r = AmplitudeHistogram { bins: vec![0u64; bin_count], total: 0, out_of_range: 0 };
        proof {
            lemma_zero_counts(r.bins@);
        }
        assert(r.tally() =~= Seq::new(bin_count as nat, |i: int| 0u64));
        r
    }

    pub fn bin_count(&self) -> (r: usize)
        ensures
            r == self.tally().len(),
    {
        self.bins.len()
    }

    pub fn total(&self) -> (r: u64)
        ensures
            r == self.samples(),
    {
        self.total
    }

    pub fn out_of_range(&self) -> (r: u64)
        ensures
            r == self.outside(),
    {
        self.out_of_range
    }

    pub fn counts(&self) -> (r: &[u64])
        ensures
            r@ == self.tally(),
    {
        self.bins.as_slice()
    }

    pub fn clear(&mut self)
        requires
            old(self).wf(),
        ensures
            final(self).wf(),
            final(self).tally() == Seq::new(old(self).tally().len(), |i: int| 0u64),
            final(self).samples() == 0,
            final(self).outside() == 0,
    {
        let n: usize = self.bins.len();
        self.bins = vec![0u64; n];
        self.total = 0;
        self.out_of_range = 0;
        proof {
            lemma_zero_counts(self.bins@);
        }
        assert(self.tally() =~= Seq::new(n as nat, |i: int| 0u64));
    }

    /// Half-open amplitude range of a bin, its ends rounded down. The final bin is closed
    /// at full scale.
    pub fn bin_range(&self, index: usize) -> (r: (i64, i64))
        requires
            self.wf(),
            index < self.tally().len(),
        ensures
            r.0 == -FULL_SCALE + 2 * FULL_SCALE * index as int / self.tally().len() as int,
            r.1 == -FULL_SCALE + 2 * FULL_SCALE * (index + 1) / self.tally().len() as int,
    {
        let n: u128 = self.bins.len() as u128;
        proof {
            let m = self.bins.len() as int;
            let i = index as int;
            assert(0 <= 33_554_432 * i / m <= 33_554_432 && 0 <= 33_554_432 * (i + 1) / m
                <= 33_554_432) by (nonlinear_arith)
                requires
                    0 <= i < m,
            ;
        }
        let low: u128 = 33_554_432 * (index as u128) / n;
        let high: u128 = 33_554_432 * (index as u128 + 1) / n;
        (low as i64 - 16_777_216, high as i64 - 16_777_216)
    }

    /// Which bin an amplitude lands in. Out-of-range values clamp to the ends rather than
    /// being dropped, so the total always matches the sample count.
    pub fn bin_index(&self, amplitude: Option<i32>) -> (r: usize)
        requires
            self.wf(),
        ensures
            r == landing(amplitude, self.tally().len() as int),
            r < self.tally().len(),
    {
        let n: usize = self.bins.len();
        match amplitude {
            None => n / 2,
            Some(v) => bin_for(v, n),
        }
    }

    pub fn add(&mut self, amplitude: Option<i32>)
        requires
            old(self).wf(),
            old(self).samples() < u64::MAX,
        ensures
            final(self).wf(),
            final(self).samples() == old(self).samples() + 1,
            final(self).outside() == old(self).outside() + if is_outside(amplitude) {
                1int
            } else {
                0
            },
            ({
                let b = landing(amplitude, old(self).tally().len() as int);
                final(self).tally() == old(self).tally().update(
                    b,
                    (old(self).tally()[b] + 1) as u64,
                )
            }),
            final(self).tally()[landing(amplitude, old(self).tally().len() as int)] == old(
                self,
            ).tally()[landing(amplitude, old(self).tally().len() as int)] + 1,
    {
        let i: usize = self.bin_index(amplitude);
        let outside: bool = match amplitude {
            None => true,
            Some(v) => v < -FULL_SCALE || v > FULL_SCALE,
        };
        if outside {
            self.out_of_range = self.out_of_range + 1;
        }
        proof {
            lemma_count_update(self.bins@, i as int, self.bins@[i as int]);
        }
        let c: u64 = self.bins[i];
        proof {
            lemma_count_update(self.bins@, i as int, (c + 1) as u64);
        }
        self.bins.set(i, c + 1);
        self.total = self.total + 1;
    }

    pub fn add_all(&mut self, samples: &[Option<i32>])
        requires
            old(self).wf(),
            old(self).samples() + samples.len() <= u64::MAX,
        ensures
            final(self).wf(),
            final(self).samples() == old(self).samples() + samples.len(),
            final(self).outside() == old(self).outside() + outside_count(samples@),
            final(self).tally() == tallied(old(self).tally(), samples@),
    {
        let mut i: usize = 0;
        assert(samples@.take(0) =~= Seq::empty());
        while i < samples.len()
            invariant
                self.wf(),
                i <= samples.len(),
                old(self).samples() + samples.len() <= u64::MAX,
                self.samples() == old(self).samples() + i,
                self.outside() == old(self).outside() + outside_count(samples@.take(i as int)),
                self.tally() == tallied(old(self).tally(), samples@.take(i as int)),
                self.tally().len() == old(self).tally().len(),
            decreases samples.len() - i,
        {
            assert(samples@.take(i + 1).drop_last() =~= samples@.take(i as int));
            self.add(samples[i]);
            i = i + 1;
        }
        assert(samples@.take(samples.len() as int) =~= samples@);
    }

    /// Bin counts as fractions of the total, in billionths, rounded down; all zeros when
    /// empty.
    pub fn normalized(&self) -> (r: Vec<u64>)
        requires
            self.wf(),
        ensures
            r.len() == self.tally().len(),
            forall|b: int|
                0 <= b < r.len() ==> #[trigger] r[b] == if self.samples() == 0 {
                    0
                } else {
                    self.tally()[b] * 1_000_000_000 / self.samples()
                },
    {
        let mut r: Vec<u64> = Vec::with_capacity(self.bins.len());
        let mut b: usize = 0;
        while b < self.bins.len()
            invariant
                self.wf(),
                b <= self.bins.len(),
                r.len() == b,
                forall|k: int|
                    0 <= k < b ==> #[trigger] r[k] == if self.samples() == 0 {
                        0
                    } else {
                        self.tally()[k] * 1_000_000_000 / self.samples()
                    },
            decreases self.bins.len() - b,
        {
            let c: u64 = self.bins[b];
            proof {
                lemma_count_update(self.bins@, b as int, c);
            }
            r.push(billionths(c, self.total));
            b = b + 1;
        }
        r
    }

    /// Tallest bin as a fraction of the total, in billionths, rounded down.
    pub fn peak_fraction(&self) -> (r: u64)
        requires
            self.wf(),
        ensures
            r == if self.samples() == 0 {
                0
            } else {
                tallest(self.tally()) * 1_000_000_000 / self.samples()
            },
    {
        let mut high: u64 = 0;
        let mut b: usize = 0;
        assert(self.bins@.take(0) =~= Seq::empty());
        while b < self.bins.len()
            invariant
                self.wf(),
                b <= self.bins.len(),
                high <= self.total,
                high == tallest(self.bins@.take(b as int)),
            decreases self.bins.len() - b,
        {
            proof {
                assert(self.bins@.take(b + 1).drop_last() =~= self.bins@.take(b as int));
                lemma_count_update(self.bins@, b as int, self.bins@[b as int]);
            }
            if self.bins[b] > high {
                high = self.bins[b];
            }
            b = b + 1;
        }
        assert(self.bins@.take(self.bins.len() as int) =~= self.bins@);
        billionths(high, self.total)
    }
}

pub open spec fn tallest(counts: Seq<u64>) -> int
    decreases counts.len(),
{
    if counts.len() == 0 {
        0
    } else if counts.last() > tallest(counts.drop_last()) {
        counts.last() as int
    } else {
        tallest(counts.drop_last())
    }
}

fn billionths(part: u64, whole: u64) -> (r: u64)
    requires
        part <= whole,
    ensures
        r == if whole == 0 {
            0
        } else {
            part * 1_000_000_000 / (whole as int)
        },
{
    if whole == 0 {
        return 0;
    }
    proof {
        assert(0 <= part * 1_000_000_000 / (whole as int) <= 1_000_000_000) by (nonlinear_arith)
            requires
                0 <= part <= whole,
                whole > 0,
        ;
    }
    (part as u128 * 1_000_000_000 / whole as u128) as u64
}

proof fn lemma_zero_counts(counts: Seq<u64>)
    requires
        forall|i: int| 0 <= i < counts.len() ==> #[trigger] counts[i] == 0,
    ensures
        count_sum(counts) == 0,
    decreases counts.len(),
{
    if counts.len() > 0 {
        assert(counts[counts.len() - 1] == 0);
        assert forall|i: int| 0 <= i < counts.drop_last().len() implies #[trigger] counts.drop_last()[i]
            == 0 by {
            assert(counts[i] == 0);
        }
        lemma_zero_counts(counts.drop_last());
    }
}

/// Changing one count changes the sum by as much, and no count exceeds it.
proof fn lemma_count_update(counts: Seq<u64>, k: int, c: u64)
    requires
        0 <= k < counts.len(),
    ensures
        count_sum(counts.update(k, c)) == count_sum(counts) - counts[k] + c,
        counts[k] <= count_sum(counts),
    decreases counts.len(),
{
    lemma_count_nonnegative(counts.drop_last());
    let u = counts.update(k, c);
    if k == counts.len() - 1 {
        assert(u.drop_last() =~= counts.drop_last());
    } else {
        lemma_count_update(counts.drop_last(), k, c);
        assert(u.drop_last() =~= counts.drop_last().update(k, c));
    }
}

proof fn lemma_count_nonnegative(counts: Seq<u64>)
    ensures
        0 <= count_sum(counts),
    decreases counts.len(),
{
    if counts.len() > 0 {
        lemma_count_nonnegative(counts.drop_last());
    }
}

/// The summary of two stretches of samples, one after the other, is their summaries joined,
/// with the seam counted.
pub proof fn lemma_summary_joins(a: Seq<int>, b: Seq<int>, bins: int)
    requires
        a.len() > 0,
        b.len() > 0,
        bins >= 1,
    ensures
        summary(a + b, bins) == joined(summary(a, bins), summary(b, bins)),
    decreases b.len(),
{
    let whole = a + b;
    let c = b.drop_last();
    assert(whole.drop_last() =~= a + c);
    assert(whole.last() == b.last());
    lemma_binned_shape(a, bins);
    lemma_binned_shape(b, bins);
    lemma_binned_shape(c, bins);
    lemma_bin_bounds(b.last(), bins);
    let n = summary(a, bins);
    let right = joined(n, summary(b, bins));
    if b.len() == 1 {
        assert(c =~= Seq::empty());
        assert(squares_of(c) == 0 && sum_of(c) == 0 && clipped_of(c) == 0 && peak_of(c) == 0);
        assert(whole.drop_last() =~= a);
        assert(whole[whole.len() - 2] == a.last());
        let x = bin_of(b.last(), bins);
        let h = binned(a, bins);
        assert(binned(b, bins) =~= Seq::new(bins as nat, |i: int| 0int).update(x, 1));
        assert(binned(whole, bins) =~= right.histogram);
        assert(squares_of(b) == b.last() * b.last());
        assert(sum_of(b) == b.last());
        lemma_peak_nonnegative(a);
        assert(summary(whole, bins) == right);
    } else {
        lemma_summary_joins(a, c, bins);
        let before = joined(n, summary(c, bins));
        assert(summary(a + c, bins) == before);
        assert(c.first() == b.first());
        assert(whole[whole.len() - 2] == c.last());
        assert(b[b.len() - 2] == c.last());
        assert(binned(whole, bins) =~= right.histogram) by {
            let x = bin_of(b.last(), bins);
            assert(binned(a + c, bins) == before.histogram);
            assert(binned(whole, bins) =~= before.histogram.update(x, before.histogram[x] + 1));
        }
        assert(summary(whole, bins) == right);
    }
}

proof fn lemma_peak_nonnegative(s: Seq<int>)
    ensures
        0 <= peak_of(s),
    decreases s.len(),
{
    if s.len() > 0 {
        lemma_peak_nonnegative(s.drop_last());
    }
}

proof fn lemma_bin_bounds(v: int, n: int)
    requires
        n >= 1,
    ensures
        0 <= bin_of(v, n) < n,
{
}

proof fn lemma_binned_shape(s: Seq<int>, n: int)
    requires
        n >= 1,
    ensures
        binned(s, n).len() == n,
    decreases s.len(),
{
    if s.len() > 0 {
        lemma_binned_shape(s.drop_last(), n);
    }
}

/// The summaries of some blocks as one, the oldest first.
pub open spec fn merged(blocks: Seq<Seq<int>>, bins: int) -> Summary
    decreases blocks.len(),
{
    if blocks.len() <= 1 {
        summary(blocks.last(), bins)
    } else {
        joined(merged(blocks.drop_last(), bins), summary(blocks.last(), bins))
    }
}

/// Merging the summaries of what a window holds gives the summary of all its samples, as if
/// they had been summarized in one pass, however they were cut into blocks.
pub proof fn law_window_sums_up_its_samples(blocks: Seq<Seq<int>>, bins: int)
    requires
        blocks.len() > 0,
        bins >= 1,
        forall|i: int| 0 <= i < blocks.len() ==> (#[trigger] blocks[i]).len() > 0,
    ensures
        merged(blocks, bins) == summary(strung(blocks), bins),
        strung(blocks).len() > 0,
    decreases blocks.len(),
{
    if blocks.len() == 1 {
        lemma_strung_one(blocks);
    } else {
        let rest = blocks.drop_last();
        assert forall|i: int| 0 <= i < rest.len() implies (#[trigger] rest[i]).len() > 0 by {
            assert(rest[i] == blocks[i]);
        }
        law_window_sums_up_its_samples(rest, bins);
        assert(blocks[blocks.len() - 1].len() > 0);
        lemma_summary_joins(strung(rest), blocks.last(), bins);
    }
}

/// What a window holds is always the newest of the blocks it has been given.
pub proof fn law_window_holds_the_newest(blocks: Seq<Seq<int>>, k: int, block: Seq<int>, capacity: int)
    requires
        0 <= k <= blocks.len(),
    ensures
        exists|j: int|
            k <= j <= blocks.len() && trimmed(blocks.skip(k).push(block), capacity)
                == #[trigger] blocks.push(block).skip(j),
{
    let grown = blocks.push(block);
    assert(blocks.skip(k).push(block) =~= grown.skip(k));
    lemma_trimmed_is_suffix(grown, k, capacity);
}

/// What a window holds after a block came in is the whole of the block at least, and no more
/// than fits the window, but for a block that is longer than the window.
pub proof fn law_window_is_bounded(blocks: Seq<Seq<int>>, block: Seq<int>, capacity: int)
    ensures
        block.len() <= strung(trimmed(blocks.push(block), capacity)).len() <= longer_of(
            capacity,
            block.len() as int,
        ),
    decreases blocks.len(),
{
    let grown = blocks.push(block);
    assert(grown.drop_last() =~= blocks);
    if blocks.len() == 0 {
        lemma_strung_one(grown);
    } else if strung(grown).len() > capacity {
        assert(grown.drop_first() =~= blocks.drop_first().push(block));
        law_window_is_bounded(blocks.drop_first(), block, capacity);
    }
}

/// The sum of the bins of a histogram.
pub open spec fn bin_sum(bins: Seq<int>) -> int
    decreases bins.len(),
{
    if bins.len() == 0 {
        0
    } else {
        bin_sum(bins.drop_last()) + bins.last()
    }
}

proof fn lemma_bin_sum_zero(n: nat)
    ensures
        bin_sum(Seq::new(n, |i: int| 0int)) == 0,
    decreases n,
{
    let zeros = Seq::new(n, |i: int| 0int);
    if n > 0 {
        assert(zeros.drop_last() =~= Seq::new((n - 1) as nat, |i: int| 0int));
        lemma_bin_sum_zero((n - 1) as nat);
    }
}

proof fn lemma_bin_sum_update(bins: Seq<int>, k: int, v: int)
    requires
        0 <= k < bins.len(),
    ensures
        bin_sum(bins.update(k, v)) == bin_sum(bins) - bins[k] + v,
    decreases bins.len(),
{
    let u = bins.update(k, v);
    if k == bins.len() - 1 {
        assert(u.drop_last() =~= bins.drop_last());
    } else {
        lemma_bin_sum_update(bins.drop_last(), k, v);
        assert(u.drop_last() =~= bins.drop_last().update(k, v));
    }
}

/// The bins of the histogram of some samples hold each of them once.
pub proof fn law_every_sample_is_in_a_bin(samples: Seq<int>, bins: int)
    requires
        bins >= 1,
    ensures
        bin_sum(binned(samples, bins)) == samples.len(),
    decreases samples.len(),
{
    if samples.len() == 0 {
        lemma_bin_sum_zero(bins as nat);
    } else {
        let before = binned(samples.drop_last(), bins);
        law_every_sample_is_in_a_bin(samples.drop_last(), bins);
        lemma_binned_shape(samples.drop_last(), bins);
        lemma_bin_bounds(samples.last(), bins);
        let b = bin_of(samples.last(), bins);
        lemma_bin_sum_update(before, b, before[b] + 1);
    }
}

proof fn lemma_counts_are_bins(counts: Seq<u64>, bins: Seq<int>)
    requires
        counts.len() == bins.len(),
        forall|i: int| 0 <= i < counts.len() ==> #[trigger] counts[i] == bins[i],
    ensures
        count_sum(counts) == bin_sum(bins),
    decreases counts.len(),
{
    if counts.len() > 0 {
        assert(counts[counts.len() - 1] == bins[counts.len() - 1]);
        assert forall|i: int| 0 <= i < counts.drop_last().len() implies #[trigger] counts.drop_last()[i]
            == bins.drop_last()[i] by {
            assert(counts[i] == bins[i]);
        }
        lemma_counts_are_bins(counts.drop_last(), bins.drop_last());
    }
}

proof fn lemma_trimmed_is_suffix(blocks: Seq<Seq<int>>, k: int, capacity: int)
    requires
        0 <= k < blocks.len(),
    ensures
        exists|j: int|
            k <= j < blocks.len() && trimmed(blocks.skip(k), capacity) == #[trigger] blocks.skip(j),
    decreases blocks.len() - k,
{
    let here = blocks.skip(k);
    if here.len() > 1 && strung(here).len() > capacity {
        assert(here.drop_first() =~= blocks.skip(k + 1));
        lemma_trimmed_is_suffix(blocks, k + 1, capacity);
        let j = choose|j: int|
            k + 1 <= j < blocks.len() && trimmed(blocks.skip(k + 1), capacity)
                == #[trigger] blocks.skip(j);
        assert(trimmed(here, capacity) == blocks.skip(j));
    } else {
        assert(trimmed(here, capacity) == blocks.skip(k));
    }
}

proof fn lemma_summary_counts(
    s: Seq<int>,
    loud: spec_fn(int) -> bool,
    plus: spec_fn(int, int) -> int,
    square: spec_fn(int, int) -> int,
)
    requires
        forall|v: int| #[trigger] loud(v) == (v >= 16_777_216 || v <= -16_777_216),
        forall|a: int, b: int| #[trigger] plus(a, b) == a + b,
        forall|a: int, b: int| #[trigger] square(a, b) == a + b * b,
    ensures
        clipped_of(s) == s.filter(loud).len(),
        sum_of(s) == s.fold_left(0int, plus),
        squares_of(s) == s.fold_left(0int, square),
    decreases s.len(),
{
    reveal(Seq::filter);
    if s.len() > 0 {
        lemma_summary_counts(s.drop_last(), loud, plus, square);
    }
}

proof fn lemma_extremes_of(s: Seq<int>, i: int)
    requires
        0 <= i < s.len(),
    ensures
        least_of(s) <= s[i] <= greatest_of(s),
        -peak_of(s) <= s[i] <= peak_of(s),
        s.contains(least_of(s)),
        s.contains(greatest_of(s)),
        s.contains(peak_of(s)) || s.contains(-peak_of(s)),
    decreases s.len(),
{
    let rest = s.drop_last();
    assert(s[s.len() - 1] == s.last());
    if s.len() > 1 {
        lemma_extremes_of(rest, if i < rest.len() {
            i
        } else {
            0
        });
        assert(forall|v: int| rest.contains(v) ==> s.contains(v)) by {
            assert forall|v: int| rest.contains(v) implies s.contains(v) by {
                let k = choose|k: int| 0 <= k < rest.len() && rest[k] == v;
                assert(s[k] == v);
            }
        }
        lemma_peak_nonnegative(rest);
    } else {
        assert(rest =~= Seq::empty());
        assert(peak_of(rest) == 0);
    }
}

proof fn lemma_crossings(s: Seq<int>, changes: Seq<bool>, yes: spec_fn(bool) -> bool)
    requires
        s.len() > 0,
        changes.len() == s.len() - 1,
        forall|i: int| 0 <= i < changes.len() ==> #[trigger] changes[i] == (s[i] * s[i + 1] < 0),
        forall|b: bool| #[trigger] yes(b) == b,
    ensures
        crossings_of(s) == changes.filter(yes).len(),
    decreases s.len(),
{
    reveal(Seq::filter);
    if s.len() > 1 {
        let rest = s.drop_last();
        let before = changes.drop_last();
        assert forall|i: int| 0 <= i < before.len() implies #[trigger] before[i] == (rest[i]
            * rest[i + 1] < 0) by {
            assert(changes[i] == before[i]);
        }
        lemma_crossings(rest, before, yes);
        let a = s[s.len() - 2];
        let b = s.last();
        assert(changes[changes.len() - 1] == (a * b < 0));
        assert(a * b < 0 <==> crosses(a, b)) by (nonlinear_arith);
    }
}

/// The levels of a stretch of samples are what they are called: no sample lies beyond the least,
/// the greatest or the peak, and each of these is reached; the root mean square and the mean are
/// those of the samples, rounded down; the crossing rate is how many of the steps from one sample
/// to the next change sign; and what is clipped is at full scale or beyond.
pub proof fn law_levels_are_those_of_the_samples(
    r: SignalStats,
    s: Seq<int>,
    bins: int,
    i: int,
    changes: Seq<bool>,
)
    requires
        r.is_of(summary(s, bins)),
        0 <= i < s.len(),
        changes.len() == s.len() - 1,
        forall|k: int| 0 <= k < changes.len() ==> #[trigger] changes[k] == (s[k] * s[k + 1] < 0),
    ensures
        ({
            let n = s.len() as int;
            let sum = s.fold_left(0int, |a: int, b: int| a + b);
            let squares = s.fold_left(0int, |a: int, b: int| a + b * b);
            let turns = changes.filter(|b: bool| b).len() as int;
            &&& r.sample_count == n
            &&& r.min <= s[i] <= r.max
            &&& -r.peak <= s[i] <= r.peak
            &&& s.contains(r.min as int)
            &&& s.contains(r.max as int)
            &&& s.contains(r.peak as int) || s.contains(-(r.peak as int))
            &&& r.dc_offset * n <= sum < (r.dc_offset + 1) * n
            &&& (r.rms * r.rms) * n <= squares < ((r.rms + 1) * (r.rms + 1)) * n
            &&& n > 1 ==> r.zero_crossing_rate * (n - 1) <= turns * ONE < (r.zero_crossing_rate + 1)
                * (n - 1)
            &&& n == 1 ==> r.zero_crossing_rate == 0
            &&& r.clipped_samples == s.filter(
                |v: int| v >= 16_777_216 || v <= -16_777_216,
            ).len()
        }),
{
    let n = s.len() as int;
    let plus = |a: int, b: int| a + b;
    let square = |a: int, b: int| a + b * b;
    lemma_summary_counts(s, |v: int| v >= 16_777_216 || v <= -16_777_216, plus, square);
    lemma_extremes_of(s, i);
    lemma_crossings(s, changes, |b: bool| b);
    lemma_rounds(sum_of(s), n);
    lemma_squares_nonnegative(s);
    let mean = squares_of(s) / n;
    lemma_rounds(squares_of(s), n);
    assert(mean >= 0) by (nonlinear_arith)
        requires
            mean == squares_of(s) / n,
            squares_of(s) >= 0,
            n > 0,
    ;
    lemma_root_of(mean);
    let q = r.rms as int;
    assert((q * q) * n <= mean * n) by (nonlinear_arith)
        requires
            q * q <= mean,
            n > 0,
    ;
    assert((mean + 1) * n <= ((q + 1) * (q + 1)) * n) by (nonlinear_arith)
        requires
            mean + 1 <= (q + 1) * (q + 1),
            n > 0,
    ;
    if n > 1 {
        lemma_rounds(crossings_of(s) * ONE, n - 1);
    }
}

proof fn lemma_rounds(x: int, y: int)
    requires
        y > 0,
    ensures
        (x / y) * y <= x < (x / y + 1) * y,
{
    vstd::arithmetic::div_mod::lemma_fundamental_div_mod(x, y);
    let q = x / y;
    assert(y * q == q * y && (q + 1) * y == q * y + y) by (nonlinear_arith);
}

proof fn lemma_squares_nonnegative(s: Seq<int>)
    ensures
        squares_of(s) >= 0,
    decreases s.len(),
{
    if s.len() > 0 {
        lemma_squares_nonnegative(s.drop_last());
        let v = s.last();
        assert(v * v >= 0) by (nonlinear_arith);
    }
}

/// Every number that is not negative has a root.
proof fn lemma_root_of(n: int)
    requires
        n >= 0,
    ensures
        crate::arith::is_root(n, root(n)),
    decreases n,
{
    if n == 0 {
        assert(crate::arith::is_root(0, 0));
        crate::arith::lemma_root_unique(0, 0);
    } else {
        lemma_root_of(n - 1);
        let r = root(n - 1);
        if (r + 1) * (r + 1) <= n {
            assert((r + 2) * (r + 2) == (r + 1) * (r + 1) + 2 * (r + 1) + 1) by (nonlinear_arith);
            assert(crate::arith::is_root(n, r + 1));
            crate::arith::lemma_root_unique(n, r + 1);
        } else {
            assert(crate::arith::is_root(n, r));
            crate::arith::lemma_root_unique(n, r);
        }
    }
}

/// A bin is an even share of full scale either way: of `n` bins an amplitude within full scale
/// lands in the one whose ends it lies between, the lower end included, and one beyond lands in
/// the last bin on its side.
pub proof fn law_a_bin_holds_its_share_of_the_scale(v: int, n: int)
    requires
        n >= 1,
    ensures
        0 <= bin_of(v, n) < n,
        -16_777_216 <= v < 16_777_216 ==> bin_of(v, n) * 33_554_432 <= (v + 16_777_216) * n < (
        bin_of(v, n) + 1) * 33_554_432,
        v >= 16_777_216 ==> bin_of(v, n) == n - 1,
        v < -16_777_216 ==> bin_of(v, n) == 0,
{
    let x = (v + 16_777_216) * n;
    if -16_777_216 <= v < 16_777_216 {
        assert(0 <= x < 33_554_432 * n) by (nonlinear_arith)
            requires
                0 <= v + 16_777_216 < 33_554_432,
                n >= 1,
                x == (v + 16_777_216) * n,
        ;
    } else if v >= 16_777_216 {
        assert(x >= 33_554_432 * n) by (nonlinear_arith)
            requires
                v + 16_777_216 >= 33_554_432,
                n >= 1,
                x == (v + 16_777_216) * n,
        ;
        assert(x / 33_554_432 >= n);
    } else {
        assert(x < 0) by (nonlinear_arith)
            requires
                v + 16_777_216 < 0,
                n >= 1,
                x == (v + 16_777_216) * n,
        ;
    }
}

} // verus!
