//! A ring of interleaved multichannel samples on an absolute timeline.
//!
//! The ring holds the last so many frames; `total_frames` counts every frame ever
//! written, so that a span of audio can be named by where it lies on the timeline for as
//! long as it is resident.
use crate::arith::ONE;
use crate::text::{digits, push_decimal};
use vstd::prelude::*;
use vstd::slice::slice_subrange;
use vstd::string::*;

verus! {

/// Bytes a sample takes.
pub const SAMPLE_BYTES: usize = 4;

/// Why a range read could not be served.
#[derive(Clone, Copy, Debug, PartialEq, Eq, Structural)]
pub enum RangeError {
    /// The requested span begins before the oldest frame still resident.
    Evicted { requested: u64, oldest: u64 },
    /// The requested span extends past what has been written.
    NotYetWritten { requested_end: u64, total: u64 },
}

impl RangeError {
    pub open spec fn text(self) -> Seq<char> {
        match self {
            RangeError::Evicted { requested, oldest } => "range starts at frame "@ + digits(
                requested as int,
            ) + " but the oldest resident frame is "@ + digits(oldest as int),
            RangeError::NotYetWritten { requested_end, total } => "range ends at frame "@ + digits(
                requested_end as int,
            ) + " but only "@ + digits(total as int) + " frames have been written"@,
        }
    }

    pub fn message(&self) -> (r: String)
        ensures
            r@ == self.text(),
    {
        let mut s: String = String::new();
        match self {
            RangeError::Evicted { requested, oldest } => {
                s.append("range starts at frame ");
                push_decimal(&mut s, *requested);
                s.append(" but the oldest resident frame is ");
                push_decimal(&mut s, *oldest);
            },
            RangeError::NotYetWritten { requested_end, total } => {
                s.append("range ends at frame ");
                push_decimal(&mut s, *requested_end);
                s.append(" but only ");
                push_decimal(&mut s, *total);
                s.append(" frames have been written");
            },
        }
        assert(s@ =~= self.text());
        s
    }
}

/// The last `n` elements of a sequence, or all of it.
pub open spec fn tail<T>(s: Seq<T>, n: int) -> Seq<T> {
    if s.len() > n {
        s.skip(s.len() - n)
    } else {
        s
    }
}

/// Keeping the last `n` in two goes is keeping them in one.
pub proof fn lemma_tail_tail<T>(a: Seq<T>, b: Seq<T>, n: int)
    requires
        n >= 0,
    ensures
        tail(tail(a, n) + b, n) == tail(a + b, n),
{
    assert(tail(tail(a, n) + b, n) =~= tail(a + b, n));
}

/// A ring of interleaved samples; silence is a sample of its choice.
pub struct PcmRing<T> {
    /// `capacity_frames * channels` samples, interleaved.
    data: Vec<T>,
    silence: T,
    channels: usize,
    capacity_frames: usize,
    /// Frame index within `data` where the next frame will be written.
    write_frame: usize,
    /// Frames currently valid, saturating at `capacity_frames`.
    len_frames: usize,
    /// Every frame ever written.
    total_frames: u64,
}

/// The samples from place `start` of a buffer on, `len` of them, going round its end.
pub open spec fn wrapped<T>(data: Seq<T>, start: int, len: int) -> Seq<T> {
    if start + len <= data.len() {
        data.subrange(start, start + len)
    } else {
        data.subrange(start, data.len() as int) + data.subrange(0, start + len - data.len())
    }
}

impl<T: Copy> PcmRing<T> {
    pub closed spec fn width(&self) -> int {
        self.channels as int
    }

    pub closed spec fn capacity(&self) -> int {
        self.capacity_frames as int
    }

    pub closed spec fn quiet(&self) -> T {
        self.silence
    }

    /// Frames resident.
    pub closed spec fn held(&self) -> int {
        self.len_frames as int
    }

    /// Frames ever written: the timeline.
    pub closed spec fn written(&self) -> int {
        self.total_frames as int
    }

    /// The resident samples, interleaved, oldest first.
    pub closed spec fn resident(&self) -> Seq<T> {
        wrapped(self.data@, self.start(), self.len_frames * self.channels)
    }

    /// The ring `before` with interleaved samples written to it.
    pub open spec fn took(&self, before: &Self, samples: Seq<T>) -> bool {
        let frames = samples.len() as int / before.width();
        &&& self.width() == before.width()
        &&& self.capacity() == before.capacity()
        &&& self.quiet() == before.quiet()
        &&& self.written() == before.written() + frames
        &&& self.held() == more(before.held(), frames, before.capacity())
        &&& self.resident() == tail(
            before.resident() + samples,
            before.capacity() * before.width(),
        )
    }

    /// The ring `before` with some frames of silence written to it. The timeline advances by
    /// all of them even if the ring can only hold the tail.
    pub open spec fn fell_silent(&self, before: &Self, frames: int) -> bool {
        &&& self.width() == before.width()
        &&& self.capacity() == before.capacity()
        &&& self.quiet() == before.quiet()
        &&& self.written() == before.written() + frames
        &&& self.held() == more(before.held(), frames, before.capacity())
        &&& self.resident() == tail(
            before.resident() + Seq::new(
                (frames * before.width()) as nat,
                |i: int| before.quiet(),
            ),
            before.capacity() * before.width(),
        )
    }

    /// Two rings that nothing tells apart.
    pub open spec fn is_like(&self, other: &Self) -> bool {
        &&& self.width() == other.width()
        &&& self.capacity() == other.capacity()
        &&& self.quiet() == other.quiet()
        &&& self.written() == other.written()
        &&& self.held() == other.held()
        &&& self.resident() == other.resident()
    }

    /// Where the oldest resident sample stands.
    spec fn start(&self) -> int {
        let w = self.write_frame * self.channels;
        let l = self.len_frames * self.channels;
        if w >= l {
            w - l
        } else {
            w + self.data.len() - l
        }
    }

    pub closed spec fn wf(&self) -> bool {
        &&& self.channels > 0
        &&& self.capacity_frames > 0
        &&& self.data.len() == self.capacity_frames * self.channels
        &&& self.data.len() * SAMPLE_BYTES <= usize::MAX
        &&& self.write_frame < self.capacity_frames
        &&& self.len_frames <= self.capacity_frames
        &&& self.len_frames <= self.total_frames
    }

    /// What holds of every ring.
    pub proof fn lemma_shape(&self)
        requires
            self.wf(),
        ensures
            self.width() > 0,
            self.capacity() > 0,
            0 <= self.held() <= self.capacity(),
            self.held() <= self.written() <= u64::MAX,
            self.resident().len() == self.held() * self.width(),
            self.held() * self.width() <= self.capacity() * self.width() <= usize::MAX,
    {
        self.lemma_sizes();
    }

    proof fn lemma_sizes(&self)
        requires
            self.wf(),
        ensures
            0 <= self.len_frames * self.channels <= self.data.len(),
            0 <= self.write_frame * self.channels <= self.data.len() - self.channels,
            0 <= self.start() < self.data.len() || (self.len_frames == 0 && self.start() <= self.data.len()),
            self.resident().len() == self.len_frames * self.channels,
            self.len_frames == self.capacity_frames ==> self.len_frames * self.channels == self.data.len(),
    {
        assert(0 <= self.len_frames * self.channels <= self.capacity_frames * self.channels)
            by (nonlinear_arith)
            requires
                0 <= self.len_frames <= self.capacity_frames,
                self.channels > 0,
        ;
        assert(0 <= self.write_frame * self.channels && self.write_frame * self.channels
            + self.channels <= self.capacity_frames * self.channels) by (nonlinear_arith)
            requires
                0 <= self.write_frame,
                self.write_frame + 1 <= self.capacity_frames,
                self.channels > 0,
        ;
    }

    pub fn new(capacity_frames: usize, channels: usize, silence: T) -> (r: Self)
        requires
            capacity_frames > 0,
            channels > 0,
            capacity_frames * channels * SAMPLE_BYTES <= usize::MAX,
        ensures
            r.wf(),
            r.capacity() == capacity_frames,
            r.width() == channels,
            r.quiet() == silence,
            r.held() == 0,
            r.written() == 0,
            r.resident() == Seq::<T>::empty(),
    {
        let size: usize = capacity_frames * channels;
        let mut data: Vec<T> = Vec::with_capacity(size);
        let mut i: usize = 0;
        while i < size
            invariant
                i <= size,
                data.len() == i,
            decreases size - i,
        {
            data.push(silence);
            i = i + 1;
        }
        let r = PcmRing {
            data,
            silence,
            channels,
            capacity_frames,
            write_frame: 0,
            len_frames: 0,
            total_frames: 0,
        };
        proof {
            r.lemma_sizes();
            assert(0 * channels == 0);
        }
        assert(r.resident() =~= Seq::<T>::empty());
        r
    }

    /// Size a ring from a duration in millionths of a second, rounding up so that the
    /// requested window always fits.
    pub fn with_seconds(seconds: u64, sample_rate: u32, channels: usize, silence: T) -> (r: Self)
        requires
            channels > 0,
            frames_for(seconds as int, sample_rate as int) * channels * SAMPLE_BYTES <= usize::MAX,
        ensures
            r.wf(),
            r.capacity() == frames_for(seconds as int, sample_rate as int),
            r.width() == channels,
            r.quiet() == silence,
            r.held() == 0,
            r.written() == 0,
            r.resident() == Seq::<T>::empty(),
    {
        proof {
            assert(0 <= seconds * sample_rate <= 0x1_0000_0000_0000_0000 * 0x1_0000_0000)
                by (nonlinear_arith)
                requires
                    0 <= seconds <= 0x1_0000_0000_0000_0000,
                    0 <= sample_rate <= 0x1_0000_0000,
            ;
            let f = frames_for(seconds as int, sample_rate as int);
            assert(f <= f * channels * SAMPLE_BYTES) by (nonlinear_arith)
                requires
                    f >= 0,
                    channels >= 1,
                    SAMPLE_BYTES == 4,
            ;
        }
        let frames: u128 = (seconds as u128 * sample_rate as u128 + ONE as u128 - 1) / ONE as u128;
        Self::new(
            if frames > 1 {
                frames as usize
            } else {
                1
            },
            channels,
            silence,
        )
    }

    pub fn channels(&self) -> (r: usize)
        ensures
            r == self.width(),
    {
        self.channels
    }

    /// The sample that stands for silence.
    pub fn silence(&self) -> (r: T)
        ensures
            r == self.quiet(),
    {
        self.silence
    }

    pub fn capacity_frames(&self) -> (r: usize)
        ensures
            r == self.capacity(),
    {
        self.capacity_frames
    }

    pub fn len_frames(&self) -> (r: usize)
        ensures
            r == self.held(),
    {
        self.len_frames
    }

    pub fn is_empty(&self) -> (r: bool)
        ensures
            r == (self.held() == 0),
    {
        self.len_frames == 0
    }

    pub fn is_full(&self) -> (r: bool)
        ensures
            r == (self.held() == self.capacity()),
    {
        self.len_frames == self.capacity_frames
    }

    /// Total frames ever written, including synthesized silence.
    pub fn total_frames(&self) -> (r: u64)
        ensures
            r == self.written(),
    {
        self.total_frames
    }

    /// Absolute index of the oldest frame still resident.
    pub fn oldest_frame(&self) -> (r: u64)
        requires
            self.wf(),
        ensures
            r == self.written() - self.held(),
    {
        self.total_frames - self.len_frames as u64
    }

    pub fn bytes(&self) -> (r: usize)
        requires
            self.wf(),
        ensures
            r == self.capacity() * self.width() * SAMPLE_BYTES,
    {
        self.data.len() * SAMPLE_BYTES
    }

    /// Write one frame: the `channels` samples of `samples` from `at` on.
    fn push_one(&mut self, samples: &[T], at: usize)
        requires
            old(self).wf(),
            at + old(self).channels <= samples.len(),
            old(self).total_frames < u64::MAX,
        ensures
            final(self).wf(),
            final(self).channels == old(self).channels,
            final(self).capacity_frames == old(self).capacity_frames,
            final(self).silence == old(self).silence,
            final(self).total_frames == old(self).total_frames + 1,
            final(self).len_frames == if old(self).len_frames < old(self).capacity_frames {
                old(self).len_frames + 1
            } else {
                old(self).len_frames as int
            },
            final(self).resident() == tail(
                old(self).resident() + samples@.subrange(at as int, at + old(self).channels),
                old(self).capacity_frames * old(self).channels,
            ),
    {
        proof {
            self.lemma_sizes();
        }
        let ghost before = self.data@;
        let ghost old_resident = self.resident();
        let ghost frame = samples@.subrange(at as int, at + self.channels);
        let head: usize = self.write_frame * self.channels;
        let mut k: usize = 0;
        while k < self.channels
            invariant
                self.channels == old(self).channels,
                self.capacity_frames == old(self).capacity_frames,
                self.silence == old(self).silence,
                self.write_frame == old(self).write_frame,
                self.len_frames == old(self).len_frames,
                self.total_frames == old(self).total_frames,
                before == old(self).data@,
                self.data.len() == before.len(),
                head + self.channels <= before.len(),
                at + self.channels <= samples.len(),
                k <= self.channels,
                forall|i: int|
                    0 <= i < before.len() ==> #[trigger] self.data@[i] == if head <= i < head + k {
                        samples@[at + i - head]
                    } else {
                        before[i]
                    },
            decreases self.channels - k,
        {
            self.data.set(head + k, samples[at + k]);
            k = k + 1;
        }
        if self.write_frame + 1 == self.capacity_frames {
            self.write_frame = 0;
        } else {
            self.write_frame = self.write_frame + 1;
        }
        if self.len_frames < self.capacity_frames {
            self.len_frames = self.len_frames + 1;
        }
        self.total_frames = self.total_frames + 1;
        proof {
            self.lemma_sizes();
            let ch = self.channels as int;
            let n = before.len() as int;
            let w0 = old(self).write_frame as int;
            let l0 = old(self).len_frames as int;
            assert((w0 + 1) * ch == w0 * ch + ch) by (nonlinear_arith);
            assert((l0 + 1) * ch == l0 * ch + ch) by (nonlinear_arith);
            assert(0 * ch == 0);
            let want = tail(old_resident + frame, n);
            assert(self.resident().len() == want.len());
            assert(self.resident() =~= want);
        }
    }

    /// Append interleaved frames, evicting the oldest as needed.
    ///
    /// The samples must be a whole number of frames: anything else would desync the
    /// channel interleave for every subsequent read.
    pub fn push_interleaved(&mut self, samples: &[T])
        requires
            old(self).wf(),
            samples.len() as int % old(self).width() == 0,
            old(self).written() + samples.len() as int / old(self).width() <= u64::MAX,
        ensures
            final(self).wf(),
            final(self).took(old(self), samples@),
    {
        let channels: usize = self.channels;
        let frames: usize = samples.len() / channels;
        let ghost n = self.data.len() as int;
        proof {
            vstd::arithmetic::div_mod::lemma_fundamental_div_mod(
                samples.len() as int,
                channels as int,
            );
            self.lemma_sizes();
            assert(frames * channels == channels * frames) by (nonlinear_arith);
        }
        // More than a full ring in one go: only the tail can survive, so skip straight to
        // it rather than copying what would be evicted at once.
        let skipped: usize = if frames > self.capacity_frames {
            frames - self.capacity_frames
        } else {
            0
        };
        self.total_frames = self.total_frames + skipped as u64;
        let mut k: usize = skipped;
        proof {
            assert(skipped * channels <= frames * channels) by (nonlinear_arith)
                requires
                    0 <= skipped <= frames,
                    channels >= 0,
            ;
            assert(samples@.subrange(skipped * channels, skipped * channels) =~= Seq::empty());
            assert(tail(self.resident(), n) =~= self.resident());
            assert(self.resident() == old(self).resident());
            assert(self.resident() + Seq::<T>::empty() =~= self.resident());
        }
        while k < frames
            invariant
                self.wf(),
                self.channels == channels,
                channels > 0,
                self.capacity_frames == old(self).capacity_frames,
                self.silence == old(self).silence,
                n == self.capacity_frames * channels,
                n >= 0,
                skipped <= k <= frames,
                frames * channels == samples.len(),
                self.total_frames == old(self).total_frames + k,
                old(self).total_frames + frames <= u64::MAX,
                self.len_frames == more(
                    old(self).len_frames as int,
                    k - skipped,
                    self.capacity_frames as int,
                ),
                self.resident() == tail(
                    old(self).resident() + samples@.subrange(skipped * channels, k * channels),
                    n,
                ),
            decreases frames - k,
        {
            proof {
                assert(k * channels + channels == (k + 1) * channels) by (nonlinear_arith);
                assert((k + 1) * channels <= frames * channels) by (nonlinear_arith)
                    requires
                        k + 1 <= frames,
                        channels >= 0,
                ;
                assert(skipped * channels <= k * channels) by (nonlinear_arith)
                    requires
                        skipped <= k,
                        channels >= 0,
                ;
                let done = samples@.subrange(skipped * channels, k * channels);
                let frame = samples@.subrange(k * channels, k * channels + channels);
                lemma_tail_tail(old(self).resident() + done, frame, n);
                assert(old(self).resident() + done + frame =~= old(self).resident()
                    + samples@.subrange(skipped * channels, (k + 1) * channels));
            }
            self.push_one(samples, k * channels);
            k = k + 1;
        }
        proof {
            let kept = samples@.subrange(skipped * channels, samples.len() as int);
            if skipped > 0 {
                let cap = self.capacity_frames as int;
                assert(skipped * channels + cap * channels == frames * channels) by (nonlinear_arith)
                    requires
                        skipped + cap == frames,
                ;
                assert(kept.len() == n);
                assert(tail(old(self).resident() + kept, n) =~= kept);
                assert(tail(old(self).resident() + samples@, n) =~= kept);
            } else {
                assert(0 * channels == 0);
                assert(kept =~= samples@);
            }
        }
    }

    /// Append `frames` of silence, to hold the timeline together across a discontinuity.
    ///
    /// The timeline advances by the full request even if the ring could only hold the tail
    /// of it.
    pub fn push_silence(&mut self, frames: usize)
        requires
            old(self).wf(),
            old(self).written() + frames <= u64::MAX,
        ensures
            final(self).wf(),
            final(self).fell_silent(old(self), frames as int),
    {
        let channels: usize = self.channels;
        let to_write: usize = if frames < self.capacity_frames {
            frames
        } else {
            self.capacity_frames
        };
        let ghost n = self.data.len() as int;
        let ghost quiet = self.silence;
        proof {
            self.lemma_sizes();
            assert(0 <= to_write * channels <= n) by (nonlinear_arith)
                requires
                    0 <= to_write <= self.capacity_frames,
                    n == self.capacity_frames * channels,
                    channels >= 0,
            ;
        }
        let mut quiet_frame: Vec<T> = Vec::with_capacity(channels);
        let mut k: usize = 0;
        while k < channels
            invariant
                *self == *old(self),
                channels == self.channels,
                k <= channels,
                quiet_frame.len() == k,
                forall|i: int| 0 <= i < k ==> #[trigger] quiet_frame[i] == self.silence,
            decreases channels - k,
        {
            quiet_frame.push(self.silence);
            k = k + 1;
        }
        self.total_frames = self.total_frames + (frames - to_write) as u64;
        k = 0;
        proof {
            assert(0 * channels == 0);
            assert(self.resident() == old(self).resident());
            assert(self.resident() + Seq::new(0nat, |i: int| quiet) =~= self.resident());
            assert(tail(self.resident(), n) =~= self.resident());
        }
        while k < to_write
            invariant
                self.wf(),
                self.channels == channels,
                channels > 0,
                self.capacity_frames == old(self).capacity_frames,
                self.silence == old(self).silence,
                quiet == self.silence,
                n == self.capacity_frames * channels,
                n >= 0,
                quiet_frame.len() == channels,
                forall|i: int| 0 <= i < channels ==> #[trigger] quiet_frame[i] == quiet,
                k <= to_write <= frames,
                self.total_frames == old(self).total_frames + (frames - to_write) + k,
                old(self).total_frames + frames <= u64::MAX,
                self.len_frames == more(
                    old(self).len_frames as int,
                    k as int,
                    self.capacity_frames as int,
                ),
                self.resident() == tail(
                    old(self).resident() + Seq::new((k * channels) as nat, |i: int| quiet),
                    n,
                ),
            decreases to_write - k,
        {
            proof {
                assert(k * channels + channels == (k + 1) * channels) by (nonlinear_arith);
                assert(0 <= k * channels) by (nonlinear_arith)
                    requires
                        k >= 0,
                        channels >= 0,
                ;
                let done = Seq::new((k * channels) as nat, |i: int| quiet);
                let frame = quiet_frame@.subrange(0, channels as int);
                lemma_tail_tail(old(self).resident() + done, frame, n);
                assert(old(self).resident() + done + frame =~= old(self).resident() + Seq::new(
                    ((k + 1) * channels) as nat,
                    |i: int| quiet,
                ));
            }
            self.push_one(quiet_frame.as_slice(), 0);
            k = k + 1;
        }
        proof {
            let short = Seq::new((to_write * channels) as nat, |i: int| quiet);
            let long = Seq::new((frames * channels) as nat, |i: int| quiet);
            if to_write < frames {
                assert(to_write * channels == n);
                assert(n <= frames * channels) by (nonlinear_arith)
                    requires
                        n == to_write * channels,
                        to_write <= frames,
                        channels >= 0,
                ;
                assert(tail(old(self).resident() + short, n) =~= short);
                assert(tail(old(self).resident() + long, n) =~= short);
            }
        }
    }

    /// The resident samples as two interleaved slices in chronological order. The second
    /// is empty when the data does not wrap.
    pub fn slices(&self) -> (r: (&[T], &[T]))
        requires
            self.wf(),
        ensures
            r.0@ + r.1@ == self.resident(),
            r.0@.len() as int % self.width() == 0,
    {
        proof {
            self.lemma_sizes();
        }
        let len: usize = self.len_frames * self.channels;
        let w: usize = self.write_frame * self.channels;
        let size: usize = self.data.len();
        proof {
            let a = self.write_frame as int;
            let b = self.len_frames as int;
            let c = self.channels as int;
            let cap = self.capacity_frames as int;
            lemma_multiple(b, c);
            assert((cap - (a + cap - b)) * c == cap * c - (a * c + cap * c - b * c)) by (nonlinear_arith);
            lemma_multiple(cap - (a + cap - b), c);
        }
        if w >= len {
            let a = slice_subrange(self.data.as_slice(), w - len, w);
            let b = slice_subrange(self.data.as_slice(), 0, 0);
            assert(a@ + b@ =~= self.resident());
            (a, b)
        } else {
            let start: usize = size - (len - w);
            let a = slice_subrange(self.data.as_slice(), start, size);
            let b = slice_subrange(self.data.as_slice(), 0, w);
            assert(a@ + b@ =~= self.resident());
            (a, b)
        }
    }

    /// Copy an absolute frame range out, appending to `out`.
    pub fn copy_range(&self, start_frame: u64, frames: usize, out: &mut Vec<T>) -> (r: Result<
        (),
        RangeError,
    >)
        requires
            self.wf(),
            start_frame >= self.written() - self.held() ==> start_frame + frames <= u64::MAX,
        ensures
            ({
                let oldest = self.written() - self.held();
                let end = start_frame + frames;
                &&& start_frame < oldest ==> r == Err::<(), RangeError>(
                    RangeError::Evicted { requested: start_frame, oldest: oldest as u64 },
                ) && final(out)@ == old(out)@
                &&& start_frame >= oldest && end > self.written() ==> r == Err::<(), RangeError>(
                    RangeError::NotYetWritten {
                        requested_end: end as u64,
                        total: self.written() as u64,
                    },
                ) && final(out)@ == old(out)@
                &&& start_frame >= oldest && end <= self.written() ==> r == Ok::<(), RangeError>(())
                    && final(out)@ == old(out)@ + self.resident().subrange(
                    (start_frame - oldest) * self.width(),
                    (end - oldest) * self.width(),
                )
            }),
    {
        let oldest: u64 = self.oldest_frame();
        if start_frame < oldest {
            return Err(RangeError::Evicted { requested: start_frame, oldest });
        }
        let end: u64 = start_frame + frames as u64;
        if end > self.total_frames {
            return Err(
                RangeError::NotYetWritten { requested_end: end, total: self.total_frames },
            );
        }
        let offset: usize = (start_frame - oldest) as usize;
        let ghost c = self.channels as int;
        proof {
            self.lemma_sizes();
            let last = offset + frames;
            assert(0 <= offset * c && last * c <= self.len_frames * c && offset * c + frames * c
                == last * c && frames * c >= 0) by (nonlinear_arith)
                requires
                    0 <= offset,
                    0 <= frames,
                    last == offset + frames,
                    last <= self.len_frames,
                    c > 0,
            ;
        }
        let size: usize = self.data.len();
        let len: usize = self.len_frames * self.channels;
        let w: usize = self.write_frame * self.channels;
        let start: usize = if w >= len {
            w - len
        } else {
            size - (len - w)
        };
        let first: usize = offset * self.channels;
        let count: usize = frames * self.channels;
        let ghost whole = self.resident();
        let mut k: usize = 0;
        assert(out@ =~= old(out)@ + whole.subrange(first as int, first as int));
        while k < count
            invariant
                self.wf(),
                whole == self.resident(),
                size == self.data.len(),
                size <= usize::MAX / 4,
                start == self.start(),
                len == self.len_frames * self.channels,
                whole.len() == len,
                0 <= start <= size,
                start < size || len == 0,
                len <= size,
                first + count <= len,
                k <= count,
                out@ == old(out)@ + whole.subrange(first as int, first + k),
            decreases count - k,
        {
            let at: usize = start + first + k;
            let sample: T = if at < size {
                self.data[at]
            } else {
                self.data[at - size]
            };
            assert(sample == whole[first + k]);
            out.push(sample);
            assert(whole.subrange(first as int, first + k + 1) =~= whole.subrange(
                first as int,
                first + k,
            ).push(sample));
            assert(out@ =~= old(out)@ + whole.subrange(first as int, first + k + 1));
            k = k + 1;
        }
        Ok(())
    }

    /// Copy the most recent `frames`, or as many as are resident.
    pub fn copy_latest(&self, frames: usize, out: &mut Vec<T>) -> (r: usize)
        requires
            self.wf(),
        ensures
            r == if frames < self.held() {
                frames as int
            } else {
                self.held()
            },
            final(out)@ == old(out)@ + tail(self.resident(), r * self.width()),
    {
        let n: usize = if frames < self.len_frames {
            frames
        } else {
            self.len_frames
        };
        let start: u64 = self.total_frames - n as u64;
        proof {
            self.lemma_sizes();
            let c = self.channels as int;
            let l = self.len_frames as int;
            assert((l - n) * c == l * c - n * c && 0 <= n * c <= l * c) by (nonlinear_arith)
                requires
                    0 <= n <= l,
                    c > 0,
            ;
            assert(tail(self.resident(), n * c) =~= self.resident().subrange((l - n) * c, l * c));
        }
        let _ = self.copy_range(start, n, out);
        n
    }

    /// One channel of the resident data, oldest first.
    pub fn channel_iter(&self, channel: usize) -> (r: Vec<T>)
        requires
            self.wf(),
            channel < self.width(),
        ensures
            r.len() == self.held(),
            forall|k: int|
                0 <= k < r.len() ==> #[trigger] r[k] == self.resident()[k * self.width() + channel],
    {
        proof {
            self.lemma_sizes();
        }
        let size: usize = self.data.len();
        let len: usize = self.len_frames * self.channels;
        let w: usize = self.write_frame * self.channels;
        let start: usize = if w >= len {
            w - len
        } else {
            size - (len - w)
        };
        let mut r: Vec<T> = Vec::with_capacity(self.len_frames);
        let mut k: usize = 0;
        while k < self.len_frames
            invariant
                self.wf(),
                channel < self.channels,
                size == self.data.len(),
                size <= usize::MAX / 4,
                start == self.start(),
                len == self.len_frames * self.channels,
                self.resident().len() == len,
                0 <= start <= size,
                start < size || len == 0,
                len <= size,
                k <= self.len_frames,
                r.len() == k,
                forall|j: int|
                    0 <= j < k ==> #[trigger] r[j] == self.resident()[j * self.width() + channel],
            decreases self.len_frames - k,
        {
            proof {
                let c = self.channels as int;
                assert(0 <= k * c && k * c + channel < self.len_frames * c) by (nonlinear_arith)
                    requires
                        0 <= k,
                        k + 1 <= self.len_frames,
                        0 <= channel < c,
                ;
            }
            let at: usize = start + k * self.channels + channel;
            let sample: T = if at < size {
                self.data[at]
            } else {
                self.data[at - size]
            };
            r.push(sample);
            k = k + 1;
        }
        r
    }

    /// Drop all resident audio but keep the timeline.
    pub fn clear(&mut self)
        requires
            old(self).wf(),
        ensures
            final(self).wf(),
            final(self).width() == old(self).width(),
            final(self).capacity() == old(self).capacity(),
            final(self).quiet() == old(self).quiet(),
            final(self).written() == old(self).written(),
            final(self).held() == 0,
            final(self).resident() == Seq::<T>::empty(),
    {
        self.len_frames = 0;
        self.write_frame = 0;
        proof {
            self.lemma_sizes();
            assert(0 * self.channels == 0);
        }
        assert(self.resident() =~= Seq::<T>::empty());
    }
}

/// The ring stands at the end of `history`, every sample ever written: its timeline counts
/// all of them, and it holds the last.
pub open spec fn records<T: Copy>(ring: &PcmRing<T>, history: Seq<T>) -> bool {
    &&& history.len() == ring.written() * ring.width()
    &&& ring.resident() == tail(history, ring.held() * ring.width())
}

/// Writing carries the history on: whether the frames are samples or silence, a ring that
/// stood at the end of a history stands at the end of that history and what was written.
pub proof fn law_writing_extends_the_history<T: Copy>(
    before: &PcmRing<T>,
    after: &PcmRing<T>,
    history: Seq<T>,
    samples: Seq<T>,
    frames: int,
)
    requires
        before.wf(),
        after.wf(),
        records(before, history),
        frames >= 0,
        samples.len() == frames * before.width(),
        after.took(before, samples) || (after.fell_silent(before, frames) && samples == Seq::new(
            samples.len(),
            |i: int| before.quiet(),
        )),
    ensures
        records(after, history + samples),
{
    before.lemma_shape();
    after.lemma_shape();
    let w = before.width();
    let cap = before.capacity();
    vstd::arithmetic::div_mod::lemma_div_by_multiple(frames, w);
    assert((before.written() + frames) * w == before.written() * w + frames * w)
        by (nonlinear_arith);
    assert((before.held() + frames) * w == before.held() * w + frames * w) by (nonlinear_arith);
    assert(before.held() * w <= before.written() * w) by (nonlinear_arith)
        requires
            before.held() <= before.written(),
            w > 0,
    ;
    if before.held() + frames < cap {
        assert((before.held() + frames) * w <= cap * w) by (nonlinear_arith)
            requires
                before.held() + frames < cap,
                w > 0,
        ;
    } else {
        assert((before.held() + frames) * w >= cap * w) by (nonlinear_arith)
            requires
                before.held() + frames >= cap,
                w > 0,
        ;
    }
    assert(after.resident() =~= tail(history + samples, after.held() * w));
}

/// Silence is a block of silent samples: of two rings that are alike, one given frames of
/// silence and the other as many frames of silent samples are alike again.
pub proof fn law_silence_is_silent_samples<T: Copy>(
    a: &PcmRing<T>,
    b: &PcmRing<T>,
    frames: int,
    after_a: &PcmRing<T>,
    after_b: &PcmRing<T>,
)
    requires
        a.wf(),
        a.is_like(b),
        frames >= 0,
        after_a.fell_silent(a, frames),
        after_b.took(b, Seq::new((frames * b.width()) as nat, |i: int| b.quiet())),
    ensures
        after_a.is_like(after_b),
        after_a.written() == a.written() + frames,
{
    a.lemma_shape();
    let w = a.width();
    let zeros = Seq::new((frames * w) as nat, |i: int| a.quiet());
    assert(frames * w >= 0) by (nonlinear_arith)
        requires
            frames >= 0,
            w > 0,
    ;
    vstd::arithmetic::div_mod::lemma_div_by_multiple(frames, w);
    assert(zeros =~= Seq::new((frames * b.width()) as nat, |i: int| b.quiet()));
}

/// What was written is read back: a span of the timeline that is still resident holds the
/// samples that were written there.
pub proof fn law_a_read_gives_back_what_was_written<T: Copy>(
    ring: &PcmRing<T>,
    history: Seq<T>,
    start: int,
    frames: int,
)
    requires
        ring.wf(),
        records(ring, history),
        ring.written() - ring.held() <= start,
        frames >= 0,
        start + frames <= ring.written(),
    ensures
        ({
            let oldest = ring.written() - ring.held();
            ring.resident().subrange(
                (start - oldest) * ring.width(),
                (start + frames - oldest) * ring.width(),
            ) == history.subrange(start * ring.width(), (start + frames) * ring.width())
        }),
{
    ring.lemma_shape();
    let w = ring.width();
    let oldest = ring.written() - ring.held();
    let end = start + frames;
    assert((start - oldest) * w == start * w - oldest * w && (end - oldest) * w == end * w - oldest
        * w && oldest * w == ring.written() * w - ring.held() * w) by (nonlinear_arith)
        requires
            oldest == ring.written() - ring.held(),
    ;
    assert(0 <= oldest * w <= start * w <= end * w <= ring.written() * w) by (nonlinear_arith)
        requires
            0 <= oldest <= start <= end <= ring.written(),
            w > 0,
    ;
    assert(ring.resident().subrange((start - oldest) * w, (end - oldest) * w) =~= history.subrange(
        start * w,
        end * w,
    ));
}

/// Frames resident once some are added.
pub open spec fn more(held: int, added: int, capacity: int) -> int {
    if held + added < capacity {
        held + added
    } else {
        capacity
    }
}

/// Frames in a time of millionths of a second, rounded up, and one at least.
pub open spec fn frames_for(seconds: int, sample_rate: int) -> int {
    let frames = (seconds * sample_rate + ONE - 1) / (ONE as int);
    if frames > 1 {
        frames
    } else {
        1
    }
}

proof fn lemma_multiple(a: int, b: int)
    requires
        b > 0,
    ensures
        (a * b) % b == 0,
{
    vstd::arithmetic::div_mod::lemma_mod_multiples_basic(a, b);
}

} // verus!
