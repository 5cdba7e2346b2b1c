//! Replaying a decoded recording as if it were a live stream.
use crate::arith::ONE;
use crate::audio::format::SampleFormat;
use crate::audio::StreamFormat;
use vstd::prelude::*;
use vstd::string::*;

verus! {

/// A decoded file, replayed as interleaved samples.
pub struct FileSource<T> {
    samples: Vec<T>,
    format: StreamFormat,
    position: usize,
    /// Replay from the start on reaching the end, so a short reference clip can still fill
    /// the long-term tier for periodicity analysis.
    looping: bool,
}

/// Where the next frame is read from: the start again at the end of a looping recording.
pub open spec fn next_position(len: int, position: int, looping: bool) -> int {
    if position >= len && looping && len > 0 {
        0
    } else {
        position
    }
}

/// The samples of the next `frames` frames from a position on, as far as there are whole
/// frames to read, and the position after them.
pub open spec fn replayed<T>(
    samples: Seq<T>,
    channels: int,
    looping: bool,
    position: int,
    frames: nat,
) -> (Seq<T>, int)
    decreases frames,
{
    if frames == 0 {
        (Seq::empty(), position)
    } else {
        let (before, at) = replayed(samples, channels, looping, position, (frames - 1) as nat);
        let next = next_position(samples.len() as int, at, looping);
        if next + channels <= samples.len() {
            (before + samples.subrange(next, next + channels), next + channels)
        } else {
            (before, next)
        }
    }
}

/// A recording that has run out stays so.
proof fn lemma_replayed_out<T>(
    samples: Seq<T>,
    channels: int,
    looping: bool,
    position: int,
    n: nat,
    m: nat,
)
    requires
        n <= m,
        channels > 0,
        ({
            let at = replayed(samples, channels, looping, position, n).1;
            let next = next_position(samples.len() as int, at, looping);
            next == at && next + channels > samples.len()
        }),
    ensures
        replayed(samples, channels, looping, position, m) == replayed(
            samples,
            channels,
            looping,
            position,
            n,
        ),
    decreases m,
{
    if n < m {
        lemma_replayed_out(samples, channels, looping, position, n, (m - 1) as nat);
    }
}

/// Rendering in two goes is rendering in one.
pub proof fn law_renders_join<T>(
    samples: Seq<T>,
    channels: int,
    looping: bool,
    position: int,
    first: nat,
    second: nat,
)
    ensures
        ({
            let (a, at) = replayed(samples, channels, looping, position, first);
            let (b, end) = replayed(samples, channels, looping, at, second);
            replayed(samples, channels, looping, position, first + second) == (a + b, end)
        }),
    decreases second,
{
    let (a, at) = replayed(samples, channels, looping, position, first);
    if second == 0 {
        assert(a + Seq::<T>::empty() =~= a);
    } else {
        law_renders_join(samples, channels, looping, position, first, (second - 1) as nat);
        let (b, mid) = replayed(samples, channels, looping, at, (second - 1) as nat);
        let next = next_position(samples.len() as int, mid, looping);
        assert((first + second - 1) as nat == first + (second - 1) as nat);
        if next + channels <= samples.len() {
            assert((a + b) + samples.subrange(next, next + channels) =~= a + (b + samples.subrange(
                next,
                next + channels,
            )));
        }
    }
}

/// A looping recording of whole frames never runs out, and repeats itself: each frame is
/// the one that lies as many frames on, counted round the recording.
pub proof fn law_a_loop_repeats<T>(
    samples: Seq<T>,
    channels: int,
    length: int,
    from: int,
    frames: nat,
)
    requires
        channels > 0,
        length > 0,
        samples.len() == length * channels,
        0 <= from <= length,
    ensures
        ({
            let (audio, at) = replayed(samples, channels, true, from * channels, frames);
            &&& audio.len() == frames * channels
            &&& forall|k: int, c: int|
                0 <= k < frames && 0 <= c < channels ==> #[trigger] audio[k * channels + c]
                    == samples[(from + k) % length * channels + c]
            &&& exists|p: int|
                0 <= p <= length && at == #[trigger] (p * channels) && p % length == (from + frames)
                    % length
        }),
    decreases frames,
{
    if frames == 0 {
        assert(from * channels == from * channels && 0 <= from <= length);
    } else {
        let n = (frames - 1) as nat;
        law_a_loop_repeats(samples, channels, length, from, n);
        let (audio, at) = replayed(samples, channels, true, from * channels, n);
        let p = choose|p: int|
            0 <= p <= length && at == #[trigger] (p * channels) && p % length == (from + n)
                % length;
        let q = if p == length {
            0
        } else {
            p
        };
        assert(p < length ==> p * channels < length * channels) by (nonlinear_arith)
            requires
                channels > 0,
        ;
        assert(0 * channels == 0);
        let next = next_position(samples.len() as int, at, true);
        assert(next == q * channels);
        assert(q * channels + channels <= length * channels && q * channels >= 0 && (q + 1)
            * channels == q * channels + channels && (n + 1) * channels == n * channels + channels)
            by (nonlinear_arith)
            requires
                0 <= q,
                q + 1 <= length,
                channels > 0,
        ;
        assert(q % length == (from + n) % length) by {
            if p == length {
                vstd::arithmetic::div_mod::lemma_mod_self_0(length);
                vstd::arithmetic::div_mod::lemma_small_mod(0, length as nat);
            }
        }
        vstd::arithmetic::div_mod::lemma_small_mod(q as nat, length as nat);
        let (longer, end) = replayed(samples, channels, true, from * channels, frames);
        assert(longer == audio + samples.subrange(next, next + channels));
        assert forall|k: int, c: int| 0 <= k < frames && 0 <= c < channels implies #[trigger] longer[
        k * channels + c] == samples[(from + k) % length * channels + c] by {
            if k < n {
                assert(k * channels + c < n * channels && k * channels + c >= 0)
                    by (nonlinear_arith)
                    requires
                        0 <= k,
                        k + 1 <= n,
                        0 <= c < channels,
                ;
                assert(longer[k * channels + c] == audio[k * channels + c]);
            }
        }
        assert(end == (q + 1) * channels);
        vstd::arithmetic::div_mod::lemma_add_mod_noop(q, 1, length);
        vstd::arithmetic::div_mod::lemma_add_mod_noop(from + n, 1, length);
    }
}

impl<T: Copy> FileSource<T> {
    pub closed spec fn audio(&self) -> Seq<T> {
        self.samples@
    }

    pub closed spec fn shape(&self) -> StreamFormat {
        self.format
    }

    pub closed spec fn at(&self) -> int {
        self.position as int
    }

    pub closed spec fn loops(&self) -> bool {
        self.looping
    }

    /// A recording at its start, to be played once. There is none without a channel.
    pub fn new(samples: Vec<T>, format: StreamFormat) -> (r: Self)
        ensures
            r.audio() == samples@,
            r.shape() == format,
            r.at() == 0,
            !r.loops(),
    {
        FileSource { samples, format, position: 0, looping: false }
    }

    pub fn format(&self) -> (r: &StreamFormat)
        ensures
            *r == self.shape(),
    {
        &self.format
    }

    pub fn total_frames(&self) -> (r: usize)
        requires
            self.shape().channels > 0,
        ensures
            r == self.audio().len() as int / self.shape().channels as int,
    {
        self.samples.len() / self.format.channels
    }

    /// How long the recording is, in millionths of a second, rounded down.
    pub fn duration_seconds(&self) -> (r: u128)
        requires
            self.shape().channels > 0,
            self.shape().sample_rate > 0,
        ensures
            r == self.audio().len() as int / self.shape().channels as int * ONE / (
            self.shape().sample_rate as int),
    {
        let frames: u128 = self.total_frames() as u128;
        frames * 1_000_000 / self.format.sample_rate as u128
    }

    pub fn set_looping(&mut self, looping: bool)
        ensures
            final(self).audio() == old(self).audio(),
            final(self).shape() == old(self).shape(),
            final(self).at() == old(self).at(),
            final(self).loops() == looping,
    {
        self.looping = looping;
    }

    pub fn is_finished(&self) -> (r: bool)
        ensures
            r == (!self.loops() && self.at() >= self.audio().len()),
    {
        !self.looping && self.position >= self.samples.len()
    }

    /// Append up to `frames` of interleaved audio. Returns how many frames were produced:
    /// fewer than asked, or none, at the end of a recording that does not loop.
    pub fn render(&mut self, frames: usize, out: &mut Vec<T>) -> (produced: usize)
        requires
            old(self).shape().channels > 0,
            old(self).at() <= old(self).audio().len(),
        ensures
            final(self).audio() == old(self).audio(),
            final(self).shape() == old(self).shape(),
            final(self).loops() == old(self).loops(),
            ({
                let (audio, at) = replayed(
                    old(self).audio(),
                    old(self).shape().channels as int,
                    old(self).loops(),
                    old(self).at(),
                    frames as nat,
                );
                &&& final(out)@ == old(out)@ + audio
                &&& final(self).at() == at
                &&& audio.len() == produced * old(self).shape().channels
            }),
            final(self).at() <= final(self).audio().len(),
            produced <= frames,
    {
        let channels: usize = self.format.channels;
        let size: usize = self.samples.len();
        let ghost c = channels as int;
        let ghost samples = self.samples@;
        let ghost from = self.position as int;
        let mut produced: usize = 0;
        let mut stuck: bool = false;
        assert(out@ =~= old(out)@ + Seq::<T>::empty());
        assert(0 * c == 0);
        while produced < frames && !stuck
            invariant
                channels > 0,
                c == channels,
                self.format.channels == channels,
                self.format == old(self).format,
                samples == self.samples@,
                samples == old(self).samples@,
                size == samples.len(),
                from == old(self).position,
                self.looping == old(self).looping,
                self.position <= size,
                produced <= frames,
                ({
                    let (audio, at) = replayed(samples, c, self.looping, from, produced as nat);
                    &&& out@ == old(out)@ + audio
                    &&& !stuck ==> self.position == at
                    &&& stuck ==> self.position == next_position(size as int, at, self.looping)
                    &&& audio.len() == produced * c
                    &&& stuck ==> self.position + channels > size && (produced < frames)
                }),
            decreases (if stuck {
                0int
            } else {
                1int
            }), frames - produced,
        {
            let ghost (before, at) = replayed(samples, c, self.looping, from, produced as nat);
            if self.position >= size && self.looping && size > 0 {
                self.position = 0;
            }
            let start: usize = self.position;
            if channels > size - start {
                stuck = true;
            } else {
                let ghost held = out@;
                let mut k: usize = 0;
                assert(samples.subrange(start as int, start as int) =~= Seq::empty());
                assert(out@ =~= held + samples.subrange(start as int, start as int));
                while k < channels
                    invariant
                        samples == self.samples@,
                        size == samples.len(),
                        start + channels <= size,
                        k <= channels,
                        out@ == held + samples.subrange(start as int, start + k),
                    decreases channels - k,
                {
                    out.push(self.samples[start + k]);
                    assert(samples.subrange(start as int, start + k + 1) =~= samples.subrange(
                        start as int,
                        start + k,
                    ).push(samples[start + k]));
                    assert(out@ =~= held + samples.subrange(start as int, start + k + 1));
                    k = k + 1;
                }
                self.position = start + channels;
                proof {
                    assert(out@ =~= old(out)@ + (before + samples.subrange(
                        start as int,
                        start + channels,
                    )));
                    assert((produced + 1) * c == produced * c + c) by (nonlinear_arith);
                }
                produced = produced + 1;
            }
        }
        proof {
            if stuck {
                let n = produced as nat;
                let (a1, p1) = replayed(samples, c, self.looping, from, n);
                let (a2, p2) = replayed(samples, c, self.looping, from, n + 1);
                assert(a2 == a1 && p2 == self.position);
                lemma_replayed_out(samples, c, self.looping, from, n + 1, frames as nat);
            }
        }
        produced
    }
}

/// The kinds of file that can be read.
#[derive(Clone, Copy, Debug, PartialEq, Eq, Structural)]
pub enum Container {
    Wav,
    Flac,
}

/// A letter in lower case, as far as it is an ASCII letter.
pub open spec fn lower(c: char) -> char {
    if 'A' <= c <= 'Z' {
        ((c as u32 - 'A' as u32 + 'a' as u32) as u8) as char
    } else {
        c
    }
}

/// The texts are the same but for the case of ASCII letters; `t` is in lower case.
pub open spec fn same_but_case(s: Seq<char>, t: Seq<char>) -> bool {
    s.len() == t.len() && forall|i: int| 0 <= i < s.len() ==> lower(#[trigger] s[i]) == t[i]
}

/// What a file holds, going by its extension.
pub open spec fn container_of(extension: Seq<char>) -> Option<Container> {
    if same_but_case(extension, "wav"@) || same_but_case(extension, "wave"@) {
        Some(Container::Wav)
    } else if same_but_case(extension, "flac"@) {
        Some(Container::Flac)
    } else {
        None
    }
}

fn is_same_but_case(s: &str, t: &str) -> (r: bool)
    ensures
        r == same_but_case(s@, t@),
{
    let n: usize = s.unicode_len();
    if n != t.unicode_len() {
        return false;
    }
    let mut i: usize = 0;
    while i < n
        invariant
            n == s@.len(),
            n == t@.len(),
            i <= n,
            forall|k: int| 0 <= k < i ==> lower(#[trigger] s@[k]) == t@[k],
        decreases n - i,
    {
        let c: char = s.get_char(i);
        let l: char = if 'A' <= c && c <= 'Z' {
            ((c as u32 - 'A' as u32 + 'a' as u32) as u8) as char
        } else {
            c
        };
        if l != t.get_char(i) {
            return false;
        }
        i = i + 1;
    }
    true
}

/// What a file holds, going by its extension, whatever its case.
pub fn container(extension: &str) -> (r: Option<Container>)
    ensures
        r == container_of(extension@),
{
    if is_same_but_case(extension, "wav") || is_same_but_case(extension, "wave") {
        Some(Container::Wav)
    } else if is_same_but_case(extension, "flac") {
        Some(Container::Flac)
    } else {
        None
    }
}

/// How the samples of a file were coded, from whether they are fractions and from their
/// bits.
pub fn file_sample_format(float: bool, bits: u32) -> (r: SampleFormat)
    ensures
        r == coding_of(float, bits as int),
{
    if float {
        SampleFormat::F32
    } else if bits == 16 {
        SampleFormat::I16
    } else if bits == 24 {
        SampleFormat::I24
    } else {
        SampleFormat::I32
    }
}

/// What a file says of itself before its samples.
#[derive(Clone, Copy, Debug, PartialEq, Eq, Structural)]
pub struct Header {
    pub channels: u32,
    pub sample_rate: u32,
    pub bits: u32,
    /// The samples are fractions rather than whole codes.
    pub float: bool,
}

/// Why a file gives no recording of whole codes.
#[derive(Clone, Copy, Debug, PartialEq, Eq, Structural)]
pub enum LoadError {
    /// The extension is none that can be read.
    Unsupported,
    /// The file is not of the kind its name says.
    Unreadable,
    ZeroChannels,
    /// The samples are fractions, which this reader leaves to another.
    Fractional,
    Undecodable,
    NoAudio,
}

/// A recording of whole codes, and the code at full scale: the most negative code is minus
/// one full scale.
pub struct Recording {
    pub source: FileSource<i32>,
    pub full_scale: u64,
}

/// Two to the `bits - 1`: the full negative range of codes of that width.
pub open spec fn full_scale_of(bits: nat) -> nat
    decreases bits,
{
    if bits <= 1 {
        1
    } else {
        2 * full_scale_of((bits - 1) as nat)
    }
}

/// What stands against a recording of these codes under this header.
pub open spec fn load_error(header: Option<Header>, codes: Option<Seq<i32>>) -> Option<LoadError> {
    match header {
        None => Some(LoadError::Unreadable),
        Some(h) => if h.channels == 0 {
            Some(LoadError::ZeroChannels)
        } else if h.float {
            Some(LoadError::Fractional)
        } else {
            match codes {
                None => Some(LoadError::Undecodable),
                Some(c) => if c.len() == 0 {
                    Some(LoadError::NoAudio)
                } else if h.bits == 0 || h.bits > 32 {
                    Some(LoadError::Undecodable)
                } else {
                    None
                },
            }
        },
    }
}

/// The coding of a file's samples.
pub open spec fn coding_of(float: bool, bits: int) -> SampleFormat {
    if float {
        SampleFormat::F32
    } else if bits == 16 {
        SampleFormat::I16
    } else if bits == 24 {
        SampleFormat::I24
    } else {
        SampleFormat::I32
    }
}

/// The recording is these codes from their start, in the shape that the header gives.
pub open spec fn is_recording(r: Recording, h: Header, codes: Seq<i32>) -> bool {
    &&& r.source.audio() == codes
    &&& r.source.shape().sample_rate == h.sample_rate
    &&& r.source.shape().channels == h.channels
    &&& r.source.shape().channel_mask == 0
    &&& r.source.shape().sample_format == coding_of(false, h.bits as int)
    &&& r.source.at() == 0
    &&& !r.source.loops()
    &&& r.full_scale == full_scale_of(h.bits as nat)
}

fn full_scale(bits: u32) -> (r: u64)
    requires
        1 <= bits <= 32,
    ensures
        r == full_scale_of(bits as nat),
{
    let mut scale: u64 = 1;
    let mut b: u32 = 1;
    assert(1u64 << 0u64 == 1u64) by (bit_vector);
    while b < bits
        invariant
            1 <= b <= bits <= 32,
            scale == full_scale_of(b as nat),
            scale <= 0xFFFF_FFFFu64,
            scale == 1u64 << (b - 1) as u64,
        decreases bits - b,
    {
        proof {
            let k: u64 = (b - 1) as u64;
            assert(2 * (1u64 << k) == 1u64 << ((k + 1) as u64) && (1u64 << ((k + 1) as u64))
                <= 0xFFFF_FFFFu64) by (bit_vector)
                requires
                    k < 31,
            ;
        }
        scale = scale * 2;
        b = b + 1;
    }
    scale
}

/// The recording that a header and the decoded codes make, or what stands against it.
pub fn recording(header: Option<Header>, codes: Option<Vec<i32>>) -> (r: Result<
    Recording,
    LoadError,
>)
    ensures
        ({
            let held = match codes {
                Some(c) => Some(c@),
                None => None,
            };
            match r {
                Ok(made) => load_error(header, held) is None && is_recording(
                    made,
                    header->0,
                    held->0,
                ),
                Err(e) => load_error(header, held) == Some(e),
            }
        }),
{
    let h: Header = match header {
        Some(h) => h,
        None => return Err(LoadError::Unreadable),
    };
    if h.channels == 0 {
        return Err(LoadError::ZeroChannels);
    }
    if h.float {
        return Err(LoadError::Fractional);
    }
    let codes: Vec<i32> = match codes {
        Some(codes) => codes,
        None => return Err(LoadError::Undecodable),
    };
    if codes.len() == 0 {
        return Err(LoadError::NoAudio);
    }
    if h.bits == 0 || h.bits > 32 {
        return Err(LoadError::Undecodable);
    }
    let coding: SampleFormat = file_sample_format(false, h.bits);
    let format = StreamFormat::new(h.sample_rate, h.channels as usize, 0, coding);
    Ok(Recording { source: FileSource::new(codes, format), full_scale: full_scale(h.bits) })
}

/// What `hound::WavReader` reads of a WAV file's header: channels, sample rate, bits per
/// sample, and whether the samples are fractions.
pub uninterp spec fn wav_header(bytes: Seq<u8>) -> Option<(u16, u32, u16, bool)>;

/// `hound::WavReader::new` and `spec`: what the header says, or nothing where the bytes are
/// no WAV file. A function of the bytes alone.
#[verifier::external_body]
fn read_wav_header(bytes: &[u8]) -> (r: Option<(u16, u32, u16, bool)>)
    ensures
        r == wav_header(bytes@),
{
    let spec = hound::WavReader::new(bytes).ok()?.spec();
    let float = match spec.sample_format {
        hound::SampleFormat::Float => true,
        hound::SampleFormat::Int => false,
    };
    Some((spec.channels, spec.sample_rate, spec.bits_per_sample, float))
}

/// The interleaved codes that `hound::WavReader` decodes from a WAV file.
pub uninterp spec fn wav_codes(bytes: Seq<u8>) -> Option<Seq<i32>>;

/// `hound::WavReader::samples`, over whole codes: all of them, or nothing where the bytes
/// are no WAV file, the samples are fractions or one of them does not decode. A function of
/// the bytes alone.
#[verifier::external_body]
fn read_wav_codes(bytes: &[u8]) -> (r: Option<Vec<i32>>)
    ensures
        match r {
            Some(codes) => wav_codes(bytes@) == Some(codes@),
            None => wav_codes(bytes@) is None,
        },
{
    let mut reader = hound::WavReader::new(bytes).ok()?;
    reader.samples::<i32>().collect::<Result<Vec<i32>, hound::Error>>().ok()
}

/// What `claxon::FlacReader` reads of a FLAC file's stream information: channels, sample
/// rate and bits per sample.
pub uninterp spec fn flac_header(bytes: Seq<u8>) -> Option<(u32, u32, u32)>;

/// `claxon::FlacReader::new` and `streaminfo`: what the stream information says, or nothing
/// where the bytes are no FLAC file. A function of the bytes alone.
#[verifier::external_body]
fn read_flac_header(bytes: &[u8]) -> (r: Option<(u32, u32, u32)>)
    ensures
        r == flac_header(bytes@),
{
    let info = claxon::FlacReader::new(bytes).ok()?.streaminfo();
    Some((info.channels, info.sample_rate, info.bits_per_sample))
}

/// The interleaved codes that `claxon::FlacReader` decodes from a FLAC file.
pub uninterp spec fn flac_codes(bytes: Seq<u8>) -> Option<Seq<i32>>;

/// More zero bytes in a row than this would overrun the decoder's count of zero bits.
pub const LONGEST_ZERO_RUN: usize = 0x1FFF_FFF0;

/// Some stretch of that many zero bytes.
pub open spec fn has_zero_run(bytes: Seq<u8>, length: int) -> bool {
    exists|i: int| #[trigger] is_zero_run(bytes, i, length)
}

/// The stretch from `i` on is all zero.
pub open spec fn is_zero_run(bytes: Seq<u8>, i: int, length: int) -> bool {
    &&& 0 <= i
    &&& i + length <= bytes.len()
    &&& forall|k: int| i <= k < i + length ==> #[trigger] bytes[k] == 0
}

fn zero_run(bytes: &[u8], length: usize) -> (r: bool)
    requires
        length > 0,
    ensures
        r == has_zero_run(bytes@, length as int),
{
    let n: usize = bytes.len();
    let mut i: usize = 0;
    let mut run: usize = 0;
    while i < n
        invariant
            n == bytes@.len(),
            run <= i <= n,
            run < length,
            forall|k: int| i - run <= k < i ==> #[trigger] bytes@[k] == 0,
            i > run ==> bytes@[i - run - 1] != 0,
            forall|a: int| a + length <= i ==> !#[trigger] is_zero_run(bytes@, a, length as int),
        decreases n - i,
    {
        if bytes[i] == 0 {
            run = run + 1;
            i = i + 1;
            if run == length {
                assert(is_zero_run(bytes@, i - run, length as int));
                return true;
            }
            assert forall|a: int| a + length <= i implies !#[trigger] is_zero_run(
                bytes@,
                a,
                length as int,
            ) by {
                if a + length == i && is_zero_run(bytes@, a, length as int) {
                    assert(bytes@[i - run - 1] == 0);
                }
            }
        } else {
            assert forall|a: int| a + length <= i + 1 implies !#[trigger] is_zero_run(
                bytes@,
                a,
                length as int,
            ) by {
                if a + length == i + 1 && is_zero_run(bytes@, a, length as int) {
                    assert(bytes@[i as int] == 0);
                }
            }
            run = 0;
            i = i + 1;
        }
    }
    false
}

/// `claxon::FlacReader::samples`: all the interleaved codes, or nothing where the bytes are
/// no FLAC file or a frame does not decode. A function of the bytes alone.
#[verifier::external_body]
fn read_flac_codes(bytes: &[u8]) -> (r: Option<Vec<i32>>)
    requires
        !has_zero_run(bytes@, LONGEST_ZERO_RUN as int),
    ensures
        match r {
            Some(codes) => flac_codes(bytes@) == Some(codes@),
            None => flac_codes(bytes@) is None,
        },
{
    let mut reader = claxon::FlacReader::new(bytes).ok()?;
    reader.samples().collect::<Result<Vec<i32>, claxon::Error>>().ok()
}

/// The header of a WAV file, as a recording takes it.
pub open spec fn wav_shape(bytes: Seq<u8>) -> Option<Header> {
    match wav_header(bytes) {
        Some((channels, sample_rate, bits, float)) => Some(
            Header { channels: channels as u32, sample_rate, bits: bits as u32, float },
        ),
        None => None,
    }
}

/// The header of a FLAC file, as a recording takes it.
pub open spec fn flac_shape(bytes: Seq<u8>) -> Option<Header> {
    match flac_header(bytes) {
        Some((channels, sample_rate, bits)) => Some(
            Header { channels, sample_rate, bits, float: false },
        ),
        None => None,
    }
}

/// The codes of a FLAC file; a file with an endless run of zero bytes has none.
pub open spec fn flac_content(bytes: Seq<u8>) -> Option<Seq<i32>> {
    if has_zero_run(bytes, LONGEST_ZERO_RUN as int) {
        None
    } else {
        flac_codes(bytes)
    }
}

/// The recording in the bytes of a WAV file of whole codes.
pub fn load_wav(bytes: &[u8]) -> (r: Result<Recording, LoadError>)
    ensures
        match r {
            Ok(made) => load_error(wav_shape(bytes@), wav_codes(bytes@)) is None && is_recording(
                made,
                wav_shape(bytes@)->0,
                wav_codes(bytes@)->0,
            ),
            Err(e) => load_error(wav_shape(bytes@), wav_codes(bytes@)) == Some(e),
        },
{
    let header = match read_wav_header(bytes) {
        Some((channels, sample_rate, bits, float)) => Some(
            Header { channels: channels as u32, sample_rate, bits: bits as u32, float },
        ),
        None => None,
    };
    recording(header, read_wav_codes(bytes))
}

/// The recording in the bytes of a FLAC file.
pub fn load_flac(bytes: &[u8]) -> (r: Result<Recording, LoadError>)
    ensures
        match r {
            Ok(made) => load_error(flac_shape(bytes@), flac_content(bytes@)) is None
                && is_recording(made, flac_shape(bytes@)->0, flac_content(bytes@)->0),
            Err(e) => load_error(flac_shape(bytes@), flac_content(bytes@)) == Some(e),
        },
{
    let header = match read_flac_header(bytes) {
        Some((channels, sample_rate, bits)) => Some(
            Header { channels, sample_rate, bits, float: false },
        ),
        None => None,
    };
    let codes = if zero_run(bytes, LONGEST_ZERO_RUN) {
        None
    } else {
        read_flac_codes(bytes)
    };
    recording(header, codes)
}

/// The recording in the bytes of a file, decoded as its extension says.
pub fn load(extension: &str, bytes: &[u8]) -> (r: Result<Recording, LoadError>)
    ensures
        ({
            let (header, codes) = match container_of(extension@) {
                Some(Container::Wav) => (wav_shape(bytes@), wav_codes(bytes@)),
                _ => (flac_shape(bytes@), flac_content(bytes@)),
            };
            match r {
                Ok(made) => container_of(extension@) is Some && load_error(header, codes) is None
                    && is_recording(made, header->0, codes->0),
                Err(e) => if container_of(extension@) is None {
                    e == LoadError::Unsupported
                } else {
                    load_error(header, codes) == Some(e)
                },
            }
        }),
{
    match container(extension) {
        Some(Container::Wav) => load_wav(bytes),
        Some(Container::Flac) => load_flac(bytes),
        None => Err(LoadError::Unsupported),
    }
}

/// Codes of one bit more reach twice as far: full scale is one for one bit, 32768 for sixteen and
/// 8388608 for twenty-four.
pub proof fn law_full_scale_doubles_with_each_bit(bits: nat)
    requires
        bits >= 1,
    ensures
        full_scale_of(1) == 1,
        full_scale_of(bits + 1) == 2 * full_scale_of(bits),
        full_scale_of(16) == 32_768,
        full_scale_of(24) == 8_388_608,
{
    reveal_with_fuel(full_scale_of, 25);
}

/// A recording is refused exactly where something stands against it: no header, no channel,
/// fractions, codes that do not decode, none at all, or of no width that can be held.
pub proof fn law_a_sound_recording_is_taken(header: Option<Header>, codes: Option<Seq<i32>>)
    ensures
        load_error(header, codes) is None <==> {
            &&& header is Some
            &&& header->Some_0.channels >= 1
            &&& !header->Some_0.float
            &&& 1 <= header->Some_0.bits <= 32
            &&& codes is Some
            &&& codes->Some_0.len() >= 1
        },
{
}

} // verus!
