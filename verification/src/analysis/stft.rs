//! Cutting a sample stream into overlapping frames for the transform.
use crate::arith::ONE;
use vstd::prelude::*;

verus! {

/// How many samples a transform spans, and how far one lies from the next.
#[derive(Clone, Copy, Debug, PartialEq, Eq, Structural)]
pub struct Stft {
    pub size: usize,
    pub hop: usize,
}

impl Stft {
    pub open spec fn wf(&self) -> bool {
        self.size >= 2 && 0 < self.hop <= self.size
    }

    pub fn new(size: usize, hop: usize) -> (r: Self)
        requires
            size >= 2,
            0 < hop <= size,
        ensures
            r == (Stft { size, hop }),
            r.wf(),
    {
        Stft { size, hop }
    }

    pub fn size(&self) -> (r: usize)
        ensures
            r == self.size,
    {
        self.size
    }

    pub fn hop(&self) -> (r: usize)
        ensures
            r == self.hop,
    {
        self.hop
    }

    /// Number of bins produced, including DC and Nyquist.
    pub fn bins(&self) -> (r: usize)
        ensures
            r == self.size as int / 2 + 1,
    {
        self.size / 2 + 1
    }

    /// The frequency of a bin, in millionths of a hertz, rounded down.
    pub fn bin_hz(&self, bin: usize, sample_rate: u32) -> (r: u128)
        requires
            self.wf(),
        ensures
            r == bin * sample_rate * ONE / (self.size as int),
    {
        proof {
            assert(0 <= bin * sample_rate <= 0x1_0000_0000_0000_0000 * 0x1_0000_0000)
                by (nonlinear_arith)
                requires
                    0 <= bin <= 0x1_0000_0000_0000_0000,
                    0 <= sample_rate <= 0x1_0000_0000,
            ;
        }
        bin as u128 * sample_rate as u128 * 1_000_000 / self.size as u128
    }

    /// The bin nearest a frequency of millionths of a hertz, halves up.
    pub open spec fn nearest_bin(&self, hz: int, sample_rate: int) -> int {
        let bin = (2 * (hz * self.size) + sample_rate * ONE) / (2 * (sample_rate * ONE));
        if hz <= 0 {
            0
        } else if bin > self.size as int / 2 {
            self.size as int / 2
        } else {
            bin
        }
    }

    pub fn hz_to_bin(&self, hz: i64, sample_rate: u32) -> (r: usize)
        requires
            self.wf(),
            sample_rate > 0,
        ensures
            r == self.nearest_bin(hz as int, sample_rate as int),
    {
        if hz <= 0 {
            return 0;
        }
        let rate: u128 = sample_rate as u128 * 1_000_000;
        proof {
            let h = hz as int;
            let n = self.size as int;
            assert(0 <= h * n <= 0x7fff_ffff_ffff_ffff * 0xffff_ffff_ffff_ffff) by (nonlinear_arith)
                requires
                    0 <= h <= 0x7fff_ffff_ffff_ffff,
                    0 <= n <= 0xffff_ffff_ffff_ffff,
            ;
        }
        let bin: u128 = (2 * (hz as u128 * self.size as u128) + rate) / (2 * rate);
        let top: usize = self.size / 2;
        if bin > top as u128 {
            top
        } else {
            bin as usize
        }
    }

    /// The time from one frame to the next, in millionths of a second, rounded down.
    pub fn frame_seconds(&self, sample_rate: u32) -> (r: u128)
        requires
            sample_rate > 0,
        ensures
            r == self.hop * ONE / (sample_rate as int),
    {
        self.hop as u128 * 1_000_000 / sample_rate as u128
    }
}

/// Buffers a sample stream and hands out hop-aligned frames.
pub struct StftStream<T> {
    stft: Stft,
    pending: Vec<T>,
    /// Frames handed out since construction: the spectrogram timeline.
    frames_emitted: u64,
}

impl<T: Copy> StftStream<T> {
    pub closed spec fn shape(&self) -> Stft {
        self.stft
    }

    /// Samples that are not behind every frame to come.
    pub closed spec fn buffered(&self) -> Seq<T> {
        self.pending@
    }

    pub closed spec fn emitted(&self) -> int {
        self.frames_emitted as int
    }

    pub open spec fn wf(&self) -> bool {
        self.shape().wf()
    }

    pub fn new(size: usize, hop: usize) -> (r: Self)
        requires
            size >= 2,
            0 < hop <= size,
        ensures
            r.wf(),
            r.shape() == (Stft { size, hop }),
            r.buffered() == Seq::<T>::empty(),
            r.emitted() == 0,
    {
        StftStream { stft: Stft::new(size, hop), pending: Vec::new(), frames_emitted: 0 }
    }

    pub fn stft(&self) -> (r: &Stft)
        ensures
            *r == self.shape(),
    {
        &self.stft
    }

    pub fn frames_emitted(&self) -> (r: u64)
        ensures
            r == self.emitted(),
    {
        self.frames_emitted
    }

    /// Sample index at which the frame with the given index begins.
    pub fn frame_start_sample(&self, frame_index: u64) -> (r: u64)
        requires
            frame_index * self.shape().hop <= u64::MAX,
        ensures
            r == frame_index * self.shape().hop,
    {
        frame_index * self.stft.hop as u64
    }

    pub fn push(&mut self, samples: &[T])
        requires
            old(self).buffered().len() + samples.len() <= usize::MAX,
        ensures
            final(self).shape() == old(self).shape(),
            final(self).emitted() == old(self).emitted(),
            final(self).buffered() == old(self).buffered() + samples@,
    {
        let mut i: usize = 0;
        let ghost before = self.pending@;
        assert(samples@.take(0) =~= Seq::empty());
        assert(before + samples@.take(0) =~= before);
        while i < samples.len()
            invariant
                self.stft == old(self).stft,
                self.frames_emitted == old(self).frames_emitted,
                i <= samples.len(),
                self.pending@ == before + samples@.take(i as int),
            decreases samples.len() - i,
        {
            self.pending.push(samples[i]);
            assert(samples@.take(i + 1) =~= samples@.take(i as int).push(samples@[i as int]));
            assert(self.pending@ =~= before + samples@.take(i + 1));
            i = i + 1;
        }
        assert(samples@.take(samples.len() as int) =~= samples@);
    }

    /// The next frame and its index, if enough samples are buffered. The stream then moves
    /// on by one hop.
    pub fn next_frame(&mut self) -> (r: Option<(u64, Vec<T>)>)
        requires
            old(self).wf(),
            old(self).emitted() < u64::MAX,
        ensures
            final(self).wf(),
            final(self).shape() == old(self).shape(),
            match r {
                None => {
                    &&& old(self).buffered().len() < old(self).shape().size
                    &&& *final(self) == *old(self)
                },
                Some((index, frame)) => {
                    &&& old(self).buffered().len() >= old(self).shape().size
                    &&& index == old(self).emitted()
                    &&& frame@ == old(self).buffered().take(old(self).shape().size as int)
                    &&& final(self).buffered() == old(self).buffered().skip(
                        old(self).shape().hop as int,
                    )
                    &&& final(self).emitted() == old(self).emitted() + 1
                },
            },
    {
        if self.pending.len() < self.stft.size {
            return None;
        }
        let ghost before = self.pending@;
        let mut frame: Vec<T> = Vec::with_capacity(self.stft.size);
        let mut i: usize = 0;
        while i < self.stft.size
            invariant
                *self == *old(self),
                self.stft.size <= self.pending.len(),
                i <= self.stft.size,
                frame@ =~= self.pending@.take(i as int),
            decreases self.stft.size - i,
        {
            frame.push(self.pending[i]);
            i = i + 1;
        }
        let rest = self.pending.split_off(self.stft.hop);
        assert(rest@ =~= before.skip(self.stft.hop as int));
        self.pending = rest;
        let index: u64 = self.frames_emitted;
        self.frames_emitted = self.frames_emitted + 1;
        Some((index, frame))
    }

    /// Drop buffered samples without resetting the frame counter, as where a timeline gap
    /// makes the partial frame meaningless.
    pub fn discard_partial(&mut self)
        ensures
            final(self).shape() == old(self).shape(),
            final(self).emitted() == old(self).emitted(),
            final(self).buffered() == Seq::<T>::empty(),
    {
        self.pending.clear();
    }
}

/// The stream stands in `history`, every sample pushed so far: what is buffered begins one
/// hop on for each frame that was handed out.
pub open spec fn streams<T: Copy>(stream: &StftStream<T>, history: Seq<T>) -> bool {
    &&& stream.emitted() * stream.shape().hop <= history.len()
    &&& stream.buffered() == history.skip(stream.emitted() * stream.shape().hop)
}

/// However the samples come in, in one push or in many, the buffer is what they are in one
/// row.
pub proof fn law_pushes_join<T: Copy>(
    before: &StftStream<T>,
    after: &StftStream<T>,
    history: Seq<T>,
    samples: Seq<T>,
)
    requires
        streams(before, history),
        after.shape() == before.shape(),
        after.emitted() == before.emitted(),
        after.buffered() == before.buffered() + samples,
    ensures
        streams(after, history + samples),
{
    let at = before.emitted() * before.shape().hop;
    assert(at >= 0) by (nonlinear_arith)
        requires
            at == before.emitted() * before.shape().hop,
            before.emitted() >= 0,
            before.shape().hop >= 0,
    ;
    assert(history.skip(at) + samples =~= (history + samples).skip(at));
}

/// The frame with index `i` is the samples from `i` hops on, and the frames that follow it
/// are in step too.
pub proof fn law_frames_lie_a_hop_apart<T: Copy>(
    before: &StftStream<T>,
    after: &StftStream<T>,
    history: Seq<T>,
    frame: Seq<T>,
)
    requires
        before.wf(),
        streams(before, history),
        before.buffered().len() >= before.shape().size,
        frame == before.buffered().take(before.shape().size as int),
        after.shape() == before.shape(),
        after.emitted() == before.emitted() + 1,
        after.buffered() == before.buffered().skip(before.shape().hop as int),
    ensures
        ({
            let start = before.emitted() * before.shape().hop;
            frame == history.subrange(start, start + before.shape().size)
        }),
        streams(after, history),
{
    let hop = before.shape().hop as int;
    let start = before.emitted() * hop;
    assert(start >= 0 && (before.emitted() + 1) * hop == start + hop) by (nonlinear_arith)
        requires
            start == before.emitted() * hop,
            before.emitted() >= 0,
            hop >= 0,
    ;
    assert(frame =~= history.subrange(start, start + before.shape().size));
    assert(after.buffered() =~= history.skip(start + hop));
}

/// The place of the largest value, the last of equal ones; values that are not numbers do
/// not count.
pub open spec fn is_argmax(values: Seq<Option<i64>>, r: Option<usize>) -> bool {
    match r {
        None => forall|i: int| 0 <= i < values.len() ==> #[trigger] values[i] is None,
        Some(k) => {
            &&& k < values.len()
            &&& values[k as int] is Some
            &&& forall|i: int|
                0 <= i < values.len() && #[trigger] values[i] is Some ==> values[i]->Some_0
                    < values[k as int]->Some_0 || (values[i]->Some_0 == values[k as int]->Some_0
                    && i <= k)
        },
    }
}

/// Index of the largest value, or `None` if there is none.
pub fn argmax(values: &[Option<i64>]) -> (r: Option<usize>)
    ensures
        is_argmax(values@, r),
{
    let mut best: Option<usize> = None;
    let mut high: i64 = 0;
    let mut i: usize = 0;
    assert(values@.take(0) =~= Seq::empty());
    while i < values.len()
        invariant
            i <= values.len(),
            is_argmax(values@.take(i as int), best),
            best matches Some(k) ==> k < i && values@[k as int] == Some(high),
        decreases values.len() - i,
    {
        let ghost before = values@.take(i as int);
        let ghost after = values@.take(i + 1);
        proof {
            assert forall|k: int| 0 <= k < i implies after[k] == #[trigger] before[k] by {}
        }
        if let Some(v) = values[i] {
            if best.is_none() || v >= high {
                best = Some(i);
                high = v;
            }
        }
        i = i + 1;
    }
    assert(values@.take(values.len() as int) =~= values@);
    best
}

} // verus!
