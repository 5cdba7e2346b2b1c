//! Binary keying detection: is something transmitting data here?
//!
//! A keyed transmission parks its energy on a small alphabet of discrete frequencies,
//! alternates between them, and its dwell times cluster on a symbol period. Music fails
//! the first test, engine noise the second, and a chirp all three.
//!
//! The whole detector runs on the dominant bin of each frame.
use crate::arith::ONE;
use crate::order::{order_of, sorted, stable_order, values};
use crate::rank;
use std::collections::VecDeque;
use vstd::prelude::*;

verus! {

/// How much recent history the keying assessment covers, in seconds.
///
/// Long enough to hold plenty of symbols, short enough that the reading tracks what is
/// happening now rather than what happened minutes ago.
pub const KEYING_HISTORY_SECONDS: u64 = 45;

/// How many symbols of history are kept.
pub const SYMBOL_CAPACITY: usize = 512;

/// Bins this far apart are treated as the same tone, absorbing the jitter of a tone that
/// straddles two bins.
pub const BIN_TOLERANCE: usize = 2;

/// A run shorter than this is frame-to-frame flicker, not a symbol.
pub const MIN_SYMBOL_FRAMES: u64 = 2;

/// Fewer symbols than this prove nothing.
pub const MIN_SYMBOLS: usize = 8;

/// The shortest median dwell that the analysis can resolve. A symbol of two frames is the
/// shortest that can be represented, so a median sitting there means that the dominant
/// bin is changing as fast as the frame rate allows, and the reported rate would be a
/// property of the instrument rather than of the audio.
pub const MIN_RESOLVABLE_FRAMES: u64 = 3;

/// Keying uses a small alphabet: the strongest few tones.
pub const ALPHABET: usize = 3;

/// One observed symbol: a run of frames on the same tone.
#[derive(Clone, Copy, Debug, PartialEq, Eq, Structural)]
pub struct Symbol {
    pub bin: usize,
    pub frames: u64,
    /// Frame index at which this symbol closed, so it can be aged out.
    pub closed_at: u64,
}

/// The evidence of a transmission. Frequencies, rates and ratios are in millionths.
#[derive(Debug)]
pub struct KeyingDetection {
    /// Frequencies the transmission rests on, strongest first.
    pub tones_hz: Vec<u128>,
    /// Estimated symbols per second.
    pub symbol_rate_hz: u64,
    /// How tightly dwell times cluster on one period.
    pub timing_regularity: u64,
    /// Fraction of active frames explained by the tone alphabet.
    pub alphabet_purity: u64,
    /// How consistently the transmission returns to the same frequencies. A keyed signal
    /// reuses a fixed alphabet for its whole duration; ship ambience drifts, and a swept
    /// stroke never revisits a frequency at all.
    pub tone_stability: u64,
    /// Transitions between tones per second: separates keying from a held note.
    pub transitions_per_second: u64,
    /// Combined.
    pub confidence: u64,
    /// Symbols observed in the window.
    pub symbol_count: usize,
}

impl KeyingDetection {
    /// Whether this looks like a real transmission rather than incidental structure.
    pub fn is_present(&self, threshold: u64) -> (r: bool)
        ensures
            r == (self.confidence >= threshold),
    {
        self.confidence >= threshold
    }
}

/// The two bins count as one tone.
pub open spec fn same_tone(a: usize, b: usize) -> bool {
    -BIN_TOLERANCE <= a - b <= BIN_TOLERANCE
}

fn is_same_tone(a: usize, b: usize) -> (r: bool)
    ensures
        r == same_tone(a, b),
{
    if a < b {
        b - a <= BIN_TOLERANCE
    } else {
        a - b <= BIN_TOLERANCE
    }
}

/// What a detector remembers.
pub struct KeyingMemory {
    /// Completed symbols, oldest first.
    pub symbols: Seq<Symbol>,
    /// The run being accumulated.
    pub current: Option<Symbol>,
    /// Frames of silence since the last active frame.
    pub idle: int,
    /// Frames processed: the clock that symbols are aged against.
    pub clock: int,
}

/// The symbols that closed at `cutoff` or later, given that they closed in order.
pub open spec fn unexpired(symbols: Seq<Symbol>, cutoff: int) -> Seq<Symbol>
    decreases symbols.len(),
{
    if symbols.len() > 0 && symbols.first().closed_at < cutoff {
        unexpired(symbols.drop_first(), cutoff)
    } else {
        symbols
    }
}

impl KeyingMemory {
    /// The run under way is over: it becomes a symbol if it lasted.
    pub open spec fn closed(self) -> KeyingMemory {
        match self.current {
            None => self,
            Some(run) => {
                let symbol = Symbol { closed_at: self.clock as u64, ..run };
                let grown = self.symbols.push(symbol);
                KeyingMemory {
                    symbols: if run.frames < MIN_SYMBOL_FRAMES {
                        self.symbols
                    } else if grown.len() > SYMBOL_CAPACITY {
                        grown.drop_first()
                    } else {
                        grown
                    },
                    current: None,
                    ..self
                }
            },
        }
    }

    /// The clock has moved on a frame, and what is too old by then is forgotten.
    pub open spec fn aged(self, history: int) -> KeyingMemory {
        KeyingMemory {
            clock: self.clock + 1,
            symbols: unexpired(self.symbols, self.clock + 1 - history),
            ..self
        }
    }

    /// After one more frame, with its loudest bin and whether it carried anything. An
    /// inactive frame ends the run under way once silence has lasted `max_idle` frames.
    pub open spec fn after(self, bin: usize, active: bool, history: int, max_idle: int) -> KeyingMemory {
        let aged = self.aged(history);
        if !active {
            let idle = KeyingMemory { idle: aged.idle + 1, ..aged };
            if idle.idle >= max_idle {
                idle.closed()
            } else {
                idle
            }
        } else {
            let awake = KeyingMemory { idle: 0, ..aged };
            match awake.current {
                Some(run) => if same_tone(bin, run.bin) {
                    KeyingMemory {
                        current: Some(Symbol { frames: (run.frames + 1) as u64, ..run }),
                        ..awake
                    }
                } else {
                    KeyingMemory {
                        current: Some(Symbol { bin, frames: 1, closed_at: 0 }),
                        ..awake.closed()
                    }
                },
                None => KeyingMemory {
                    current: Some(Symbol { bin, frames: 1, closed_at: 0 }),
                    ..awake
                },
            }
        }
    }
}

/// Frames that the symbols lasted, together.
pub open spec fn dwell(symbols: Seq<Symbol>) -> int
    decreases symbols.len(),
{
    if symbols.len() == 0 {
        0
    } else {
        dwell(symbols.drop_last()) + symbols.last().frames
    }
}

/// The place of the first tone, from `i` on, that a bin counts to.
pub open spec fn tone_of(tones: Seq<(usize, u64)>, bin: usize, i: int) -> int
    decreases tones.len() - i,
{
    if i >= tones.len() || same_tone(bin, tones[i].0) {
        i
    } else {
        tone_of(tones, bin, i + 1)
    }
}

/// The symbols gathered into tones, each with the frames spent on it, in the order in
/// which the tones first came.
pub open spec fn tones_of(symbols: Seq<Symbol>) -> Seq<(usize, u64)>
    decreases symbols.len(),
{
    if symbols.len() == 0 {
        Seq::empty()
    } else {
        let tones = tones_of(symbols.drop_last());
        let s = symbols.last();
        let k = tone_of(tones, s.bin, 0);
        if k < tones.len() {
            tones.update(k, (tones[k].0, (tones[k].1 + s.frames) as u64))
        } else {
            tones.push((s.bin, s.frames))
        }
    }
}

/// The negated strengths of tones, to put the strongest first.
pub open spec fn weakness(tones: Seq<(usize, u64)>) -> Seq<i128> {
    tones.map_values(|t: (usize, u64)| -(t.1 as int) as i128)
}

/// The strongest tones, strongest first, and of equal ones the earlier.
pub open spec fn alphabet(tones: Seq<(usize, u64)>) -> Seq<(usize, u64)> {
    let order = order_of(weakness(tones));
    Seq::new(
        if tones.len() < ALPHABET {
            tones.len()
        } else {
            ALPHABET as nat
        },
        |i: int| tones[order[i] as int],
    )
}

pub open spec fn strength(tones: Seq<(usize, u64)>) -> int
    decreases tones.len(),
{
    if tones.len() == 0 {
        0
    } else {
        strength(tones.drop_last()) + tones.last().1
    }
}

pub open spec fn durations(symbols: Seq<Symbol>) -> Seq<int> {
    symbols.map_values(|s: Symbol| s.frames as int)
}

/// How many symbols last between half and twice the median.
pub open spec fn regular(symbols: Seq<Symbol>, median: int) -> int
    decreases symbols.len(),
{
    if symbols.len() == 0 {
        0
    } else {
        let d = symbols.last().frames;
        regular(symbols.drop_last(), median) + if 2 * d >= median && d <= 2 * median {
            1int
        } else {
            0
        }
    }
}

/// A bin counts to one of the tones.
pub open spec fn known(tones: Seq<usize>, bin: usize) -> bool {
    exists|i: int| 0 <= i < tones.len() && same_tone(bin, #[trigger] tones[i])
}

/// The first bins of the tones that the symbols rest on.
pub open spec fn bins_of(symbols: Seq<Symbol>) -> Seq<usize>
    decreases symbols.len(),
{
    if symbols.len() == 0 {
        Seq::empty()
    } else {
        let bins = bins_of(symbols.drop_last());
        if known(bins, symbols.last().bin) {
            bins
        } else {
            bins.push(symbols.last().bin)
        }
    }
}

/// The frames of the symbols that rest on known tones.
pub open spec fn matched(symbols: Seq<Symbol>, tones: Seq<usize>) -> int
    decreases symbols.len(),
{
    if symbols.len() == 0 {
        0
    } else {
        matched(symbols.drop_last(), tones) + if known(tones, symbols.last().bin) {
            symbols.last().frames as int
        } else {
            0
        }
    }
}

/// A product of ratios in millionths.
pub open spec fn times(a: int, b: int) -> int {
    a * b / (ONE as int)
}

/// What the symbols are evidence of, if of anything.
pub open spec fn assessed(
    symbols: Seq<Symbol>,
    hop: int,
    sample_rate: int,
    fft_size: int,
    r: Option<KeyingDetection>,
) -> bool {
    let n = symbols.len() as int;
    let tones = tones_of(symbols);
    let kept = alphabet(tones);
    let median = rank::median(durations(symbols));
    let half = n / 2;
    let late = symbols.skip(half);
    let early = bins_of(symbols.take(half));
    match r {
        None => n < MIN_SYMBOLS || median < MIN_RESOLVABLE_FRAMES,
        Some(d) => {
            &&& n >= MIN_SYMBOLS
            &&& median >= MIN_RESOLVABLE_FRAMES
            &&& d.tones_hz.len() == kept.len()
            &&& forall|i: int|
                0 <= i < kept.len() ==> #[trigger] d.tones_hz[i] == kept[i].0 * sample_rate * ONE
                    / fft_size
            &&& d.symbol_rate_hz == sample_rate * ONE / (median * hop)
            &&& d.timing_regularity == regular(symbols, median) * ONE / n
            &&& d.alphabet_purity == strength(kept) * ONE / dwell(symbols)
            &&& d.tone_stability == matched(late, early) * ONE / dwell(late)
            &&& d.transitions_per_second == (n - 1) * sample_rate * ONE / (dwell(symbols) * hop)
            &&& d.confidence == certainty(
                kept.len() as int,
                d.alphabet_purity as int,
                d.transitions_per_second as int,
                d.timing_regularity as int,
                d.tone_stability as int,
            )
            &&& d.symbol_count == n
        },
    }
}

/// The confidence in a transmission. Its parts combine by product, since each of them is
/// necessary: two tones at least, an alphabet that explains what was heard, transitions
/// (of which two a second are already unmistakable), and the same tones early and late.
/// Timing supports rather than gates: a real transmission can carry a long opening wail.
pub open spec fn certainty(
    tones: int,
    purity: int,
    transitions: int,
    regularity: int,
    stability: int,
) -> int {
    let pace = if transitions / 2 > ONE {
        ONE as int
    } else {
        transitions / 2
    };
    if tones < 2 {
        0
    } else {
        times(times(times(purity, pace), 600_000 + times(400_000, regularity)), stability)
    }
}

/// Streaming keying detector over dominant-bin observations.
pub struct KeyingDetector {
    symbols: VecDeque<Symbol>,
    current: Option<Symbol>,
    idle_frames: u64,
    frames_seen: u64,
    hop: usize,
    sample_rate: u32,
    fft_size: usize,
    /// Symbols older than this are forgotten. Without it the detector is a latch rather
    /// than a live reading: if the signal stops, nothing ever pushes a good burst out.
    history_frames: u64,
    /// Idle gap after which the current run is closed.
    max_idle_frames: u64,
}

impl KeyingDetector {
    pub closed spec fn memory(&self) -> KeyingMemory {
        KeyingMemory {
            symbols: self.symbols@,
            current: self.current,
            idle: self.idle_frames as int,
            clock: self.frames_seen as int,
        }
    }

    /// Frames between analyses, samples a second, and samples an analysis spans.
    pub closed spec fn shape(&self) -> (int, int, int) {
        (self.hop as int, self.sample_rate as int, self.fft_size as int)
    }

    pub closed spec fn history(&self) -> int {
        self.history_frames as int
    }

    pub closed spec fn max_idle(&self) -> int {
        self.max_idle_frames as int
    }

    pub closed spec fn wf(&self) -> bool {
        &&& self.hop > 0
        &&& self.fft_size > 0
        &&& self.history_frames >= 1
        &&& self.max_idle_frames >= 1
        &&& memory_ok(self.memory())
    }

    /// A detector that has heard nothing yet: it remembers for so many seconds, and closes a
    /// run after half a second of silence, both in frames rounded up.
    pub open spec fn is_fresh(&self, hop: int, sample_rate: int, fft_size: int) -> bool {
        &&& self.shape() == (hop, sample_rate, fft_size)
        &&& self.history() == (KEYING_HISTORY_SECONDS * sample_rate + hop - 1) / hop
        &&& self.max_idle() == (sample_rate + 2 * hop - 1) / (2 * hop)
        &&& self.memory() == (KeyingMemory {
            symbols: Seq::empty(),
            current: None,
            idle: 0,
            clock: 0,
        })
    }

    #[verifier::spinoff_prover]
    pub fn new(hop: usize, sample_rate: u32, fft_size: usize) -> (r: Self)
        requires
            hop > 0,
            sample_rate > 0,
            fft_size > 0,
        ensures
            r.wf(),
            r.is_fresh(hop as int, sample_rate as int, fft_size as int),
    {
        let wide: u128 = hop as u128;
        proof {
            assert(0 < KEYING_HISTORY_SECONDS * sample_rate <= 45 * 0x1_0000_0000) by (nonlinear_arith)
                requires
                    KEYING_HISTORY_SECONDS == 45,
                    0 < sample_rate <= 0x1_0000_0000,
            ;
        }
        let history: u128 = (KEYING_HISTORY_SECONDS as u128 * sample_rate as u128 + wide - 1)
            / wide;
        let idle: u128 = (sample_rate as u128 + 2 * wide - 1) / (2 * wide);
        proof {
            let a = KEYING_HISTORY_SECONDS * sample_rate;
            lemma_ceil(a, hop as int);
            lemma_ceil(sample_rate as int, 2 * hop);
        }
        let r = KeyingDetector {
            symbols: VecDeque::new(),
            current: None,
            idle_frames: 0,
            frames_seen: 0,
            hop,
            sample_rate,
            fft_size,
            history_frames: history as u64,
            max_idle_frames: idle as u64,
        };
        assert(r.memory().symbols =~= Seq::empty());
        r
    }

    pub fn symbol_count(&self) -> (r: usize)
        ensures
            r == self.memory().symbols.len(),
    {
        self.symbols.len()
    }

    /// Feed one frame.
    ///
    /// `peak_bin` is the loudest bin and `active` says whether the frame carried anything
    /// above the background at all.
    pub fn push(&mut self, peak_bin: usize, active: bool)
        requires
            old(self).wf(),
            old(self).memory().clock < u64::MAX,
        ensures
            final(self).wf(),
            final(self).shape() == old(self).shape(),
            final(self).history() == old(self).history(),
            final(self).max_idle() == old(self).max_idle(),
            final(self).memory() == old(self).memory().after(
                peak_bin,
                active,
                old(self).history(),
                old(self).max_idle(),
            ),
    {
        self.frames_seen = self.frames_seen + 1;
        // Age first, so a detector receiving only silence still decays.
        self.expire();
        if !active {
            self.idle_frames = self.idle_frames + 1;
            if self.idle_frames >= self.max_idle_frames {
                self.close_current();
            }
            return;
        }
        self.idle_frames = 0;
        match self.current {
            Some(run) => {
                if is_same_tone(peak_bin, run.bin) {
                    self.current = Some(
                        Symbol { bin: run.bin, frames: run.frames + 1, closed_at: run.closed_at },
                    );
                } else {
                    self.close_current();
                    self.current = Some(Symbol { bin: peak_bin, frames: 1, closed_at: 0 });
                }
            },
            None => {
                self.current = Some(Symbol { bin: peak_bin, frames: 1, closed_at: 0 });
            },
        }
    }

    fn close_current(&mut self)
        requires
            memory_ok(old(self).memory()),
        ensures
            *final(self) == (KeyingDetector {
                symbols: final(self).symbols,
                current: final(self).current,
                ..*old(self)
            }),
            final(self).memory() == old(self).memory().closed(),
            memory_ok(final(self).memory()),
            dwell(final(self).memory().symbols) <= dwell(old(self).memory().symbols)
                + run_frames(old(self).memory().current),
    {
        let ghost before = self.memory();
        if let Some(run) = self.current {
            self.current = None;
            if run.frames >= MIN_SYMBOL_FRAMES {
                let closed_at: u64 = self.frames_seen;
                let symbol = Symbol { bin: run.bin, frames: run.frames, closed_at };
                self.symbols.push_back(symbol);
                proof {
                    lemma_dwell_push(before.symbols, symbol);
                }
                if self.symbols.len() > SYMBOL_CAPACITY {
                    proof {
                        lemma_dwell_drop_first(self.symbols@);
                    }
                    let _ = self.symbols.pop_front();
                    assert(self.symbols@ =~= before.symbols.push(symbol).drop_first());
                }
            }
        }
    }

    /// Forget symbols that have fallen out of the history window.
    fn expire(&mut self)
        requires
            old(self).symbols.len() <= SYMBOL_CAPACITY,
            forall|i: int|
                0 <= i < old(self).symbols@.len() ==> (#[trigger] old(self).symbols@[i]).frames
                    >= MIN_SYMBOL_FRAMES,
        ensures
            *final(self) == (KeyingDetector { symbols: final(self).symbols, ..*old(self) }),
            final(self).symbols@ == unexpired(
                old(self).symbols@,
                old(self).frames_seen - old(self).history_frames,
            ),
            final(self).symbols.len() <= SYMBOL_CAPACITY,
            0 <= dwell(final(self).symbols@) <= dwell(old(self).symbols@),
            forall|i: int|
                0 <= i < final(self).symbols@.len() ==> (#[trigger] final(self).symbols@[i]).frames
                    >= MIN_SYMBOL_FRAMES,
    {
        let cutoff: u64 = self.frames_seen.saturating_sub(self.history_frames);
        proof {
            lemma_dwell_nonnegative(self.symbols@);
        }
        while self.symbols.len() > 0 && self.symbols[0].closed_at < cutoff
            invariant
                *self == (KeyingDetector { symbols: self.symbols, ..*old(self) }),
                cutoff == (if self.frames_seen > self.history_frames {
                    self.frames_seen - self.history_frames
                } else {
                    0
                }),
                unexpired(old(self).symbols@, self.frames_seen - self.history_frames)
                    == unexpired(self.symbols@, self.frames_seen - self.history_frames),
                self.symbols.len() <= SYMBOL_CAPACITY,
                0 <= dwell(self.symbols@) <= dwell(old(self).symbols@),
                forall|i: int|
                    0 <= i < self.symbols@.len() ==> (#[trigger] self.symbols@[i]).frames
                        >= MIN_SYMBOL_FRAMES,
            decreases self.symbols.len(),
        {
            let ghost before = self.symbols@;
            proof {
                lemma_dwell_drop_first(before);
                lemma_dwell_nonnegative(before.drop_first());
            }
            let _ = self.symbols.pop_front();
            assert(self.symbols@ =~= before.drop_first());
        }
    }

    pub fn reset(&mut self)
        requires
            old(self).wf(),
        ensures
            final(self).wf(),
            final(self).shape() == old(self).shape(),
            final(self).history() == old(self).history(),
            final(self).max_idle() == old(self).max_idle(),
            final(self).memory() == (KeyingMemory {
                symbols: Seq::empty(),
                current: None,
                idle: 0,
                clock: old(self).memory().clock,
            }),
    {
        self.symbols.clear();
        self.current = None;
        self.idle_frames = 0;
        assert(self.memory().symbols =~= Seq::empty());
    }

    /// Seconds of history the assessment covers, in millionths.
    pub fn history_seconds(&self) -> (r: u128)
        requires
            self.wf(),
            self.shape().1 > 0,
            self.history() * self.shape().0 * ONE <= u128::MAX,
        ensures
            r == self.history() * self.shape().0 * ONE / self.shape().1,
    {
        proof {
            assert(self.history_frames * self.hop <= self.history_frames * self.hop * ONE)
                by (nonlinear_arith)
                requires
                    self.history_frames * self.hop >= 0,
            ;
        }
        self.history_frames as u128 * self.hop as u128 * ONE as u128 / self.sample_rate as u128
    }
}

pub open spec fn run_frames(run: Option<Symbol>) -> int {
    match run {
        None => 0,
        Some(s) => s.frames as int,
    }
}

/// What every memory keeps: no more frames in symbols than have gone by, and no symbol
/// that is mere flicker.
pub open spec fn memory_ok(m: KeyingMemory) -> bool {
    &&& m.symbols.len() <= SYMBOL_CAPACITY
    &&& 0 <= dwell(m.symbols)
    &&& dwell(m.symbols) + run_frames(m.current) <= m.clock <= u64::MAX
    &&& 0 <= m.idle <= m.clock
    &&& forall|i: int| 0 <= i < m.symbols.len() ==> (#[trigger] m.symbols[i]).frames >= MIN_SYMBOL_FRAMES
}

proof fn lemma_ceil(a: int, b: int)
    requires
        0 < a <= 0x10_0000_0000_0000,
        b > 0,
    ensures
        1 <= (a + b - 1) / b <= 0x10_0000_0000_0000,
{
    assert(1 <= (a + b - 1) / b <= 0x10_0000_0000_0000) by (nonlinear_arith)
        requires
            0 < a <= 0x10_0000_0000_0000,
            b > 0,
    ;
}

proof fn lemma_dwell_push(symbols: Seq<Symbol>, s: Symbol)
    ensures
        dwell(symbols.push(s)) == dwell(symbols) + s.frames,
{
    assert(symbols.push(s).drop_last() =~= symbols);
}

proof fn lemma_dwell_nonnegative(symbols: Seq<Symbol>)
    ensures
        0 <= dwell(symbols),
    decreases symbols.len(),
{
    if symbols.len() > 0 {
        lemma_dwell_nonnegative(symbols.drop_last());
    }
}

proof fn lemma_dwell_drop_first(symbols: Seq<Symbol>)
    requires
        symbols.len() > 0,
    ensures
        dwell(symbols) == symbols.first().frames + dwell(symbols.drop_first()),
        0 <= dwell(symbols.drop_first()),
    decreases symbols.len(),
{
    lemma_dwell_nonnegative(symbols.drop_first());
    if symbols.len() == 1 {
        assert(symbols.drop_first() =~= Seq::empty());
        assert(symbols.drop_last() =~= Seq::empty());
    } else {
        lemma_dwell_drop_first(symbols.drop_last());
        assert(symbols.drop_first().drop_last() =~= symbols.drop_last().drop_first());
    }
}

proof fn lemma_strength_nonnegative(tones: Seq<(usize, u64)>)
    ensures
        0 <= strength(tones),
    decreases tones.len(),
{
    if tones.len() > 0 {
        lemma_strength_nonnegative(tones.drop_last());
    }
}

/// Changing one tone changes the strength by as much.
proof fn lemma_strength_update(tones: Seq<(usize, u64)>, k: int, t: (usize, u64))
    requires
        0 <= k < tones.len(),
    ensures
        strength(tones.update(k, t)) == strength(tones) - tones[k].1 + t.1,
        tones[k].1 <= strength(tones),
    decreases tones.len(),
{
    let u = tones.update(k, t);
    lemma_strength_nonnegative(tones.drop_last());
    if k == tones.len() - 1 {
        assert(u.drop_last() =~= tones.drop_last());
    } else {
        lemma_strength_update(tones.drop_last(), k, t);
        assert(u.drop_last() =~= tones.drop_last().update(k, t));
    }
}

/// Gathering symbols into tones loses no frame.
proof fn lemma_tones_strength(symbols: Seq<Symbol>)
    requires
        dwell(symbols) <= u64::MAX,
    ensures
        strength(tones_of(symbols)) == dwell(symbols),
    decreases symbols.len(),
{
    if symbols.len() > 0 {
        let rest = symbols.drop_last();
        lemma_tones_strength(rest);
        let tones = tones_of(rest);
        let s = symbols.last();
        let k = tone_of(tones, s.bin, 0);
        lemma_tone_of_bounds(tones, s.bin, 0);
        if k < tones.len() {
            lemma_strength_update(tones, k, (tones[k].0, (tones[k].1 + s.frames) as u64));
        } else {
            assert(tones.push((s.bin, s.frames)).drop_last() =~= tones);
        }
    }
}

proof fn lemma_tone_of_bounds(tones: Seq<(usize, u64)>, bin: usize, i: int)
    requires
        0 <= i <= tones.len(),
    ensures
        i <= tone_of(tones, bin, i) <= tones.len(),
    decreases tones.len() - i,
{
    if i < tones.len() && !same_tone(bin, tones[i].0) {
        lemma_tone_of_bounds(tones, bin, i + 1);
    }
}

/// A few of the tones are not stronger than all of them.
proof fn lemma_alphabet_strength(tones: Seq<(usize, u64)>, order: Seq<usize>)
    requires
        crate::order::is_order(weakness(tones), order),
        order == order_of(weakness(tones)),
    ensures
        0 <= strength(alphabet(tones)) <= strength(tones),
{
    let keys = weakness(tones);
    let kept = alphabet(tones);
    lemma_strength_nonnegative(kept);
    lemma_strength_nonnegative(tones);
    reveal_with_fuel(strength, 4);
    if tones.len() > 0 {
        let a = order[0] as int;
        let z1 = tones.update(a, (0, 0));
        lemma_strength_update(tones, a, (0, 0));
        lemma_strength_nonnegative(z1);
        if tones.len() > 1 {
            let b = order[1] as int;
            assert(crate::order::precedes(keys, a, b));
            let z2 = z1.update(b, (0, 0));
            lemma_strength_update(z1, b, (0, 0));
            lemma_strength_nonnegative(z2);
            if tones.len() > 2 {
                let c = order[2] as int;
                assert(crate::order::precedes(keys, a, c));
                assert(crate::order::precedes(keys, b, c));
                lemma_strength_update(z2, c, (0, 0));
                lemma_strength_nonnegative(z2.update(c, (0, 0)));
                assert(kept.drop_last().drop_last().drop_last() =~= Seq::empty());
            } else {
                assert(kept.drop_last().drop_last() =~= Seq::empty());
            }
        } else {
            assert(kept.drop_last() =~= Seq::empty());
        }
    }
}

fn gather_tones(symbols: &VecDeque<Symbol>) -> (r: Vec<(usize, u64)>)
    requires
        dwell(symbols@) <= u64::MAX,
    ensures
        r@ == tones_of(symbols@),
        r.len() <= symbols.len(),
{
    let mut tones: Vec<(usize, u64)> = Vec::new();
    let ghost all = symbols@;
    let mut i: usize = 0;
    assert(all.take(0) =~= Seq::empty());
    while i < symbols.len()
        invariant
            all == symbols@,
            dwell(all) <= u64::MAX,
            i <= symbols.len(),
            tones@ == tones_of(all.take(i as int)),
            tones.len() <= i,
        decreases symbols.len() - i,
    {
        let s: Symbol = symbols[i];
        proof {
            assert(all.take(i + 1).drop_last() =~= all.take(i as int));
            lemma_dwell_take(all, i + 1);
            lemma_dwell_take(all, i as int);
            lemma_tones_strength(all.take(i as int));
        }
        let mut k: usize = 0;
        while k < tones.len() && !is_same_tone(s.bin, tones[k].0)
            invariant
                k <= tones.len(),
                tone_of(tones@, s.bin, 0) == tone_of(tones@, s.bin, k as int),
            decreases tones.len() - k,
        {
            k = k + 1;
        }
        if k < tones.len() {
            proof {
                lemma_strength_update(tones@, k as int, tones@[k as int]);
            }
            let t: (usize, u64) = tones[k];
            tones.set(k, (t.0, t.1 + s.frames));
        } else {
            tones.push((s.bin, s.frames));
        }
        i = i + 1;
    }
    assert(all.take(all.len() as int) =~= all);
    tones
}

proof fn lemma_dwell_take(symbols: Seq<Symbol>, n: int)
    requires
        0 <= n <= symbols.len(),
    ensures
        0 <= dwell(symbols.take(n)) <= dwell(symbols),
        n > 0 ==> dwell(symbols.take(n)) == dwell(symbols.take(n - 1)) + symbols[n - 1].frames,
    decreases symbols.len() - n,
{
    lemma_dwell_nonnegative(symbols.take(n));
    if n < symbols.len() {
        lemma_dwell_take(symbols, n + 1);
        assert(symbols.take(n + 1).drop_last() =~= symbols.take(n));
    } else {
        assert(symbols.take(n) =~= symbols);
    }
    if n > 0 {
        assert(symbols.take(n).drop_last() =~= symbols.take(n - 1));
    }
}

/// The strongest few tones, strongest first.
fn pick_alphabet(tones: &Vec<(usize, u64)>) -> (r: Vec<(usize, u64)>)
    ensures
        r@ == alphabet(tones@),
        strength(r@) <= strength(tones@),
{
    let mut keys: Vec<i128> = Vec::with_capacity(tones.len());
    let mut i: usize = 0;
    while i < tones.len()
        invariant
            i <= tones.len(),
            keys.len() == i,
            forall|k: int| 0 <= k < i ==> #[trigger] keys[k] == -(tones[k].1 as int),
        decreases tones.len() - i,
    {
        keys.push(-(tones[i].1 as i128));
        i = i + 1;
    }
    assert(keys@ =~= weakness(tones@));
    let order = stable_order(keys.as_slice());
    let mut kept: Vec<(usize, u64)> = Vec::new();
    i = 0;
    while i < tones.len() && i < ALPHABET
        invariant
            i <= tones.len(),
            i <= ALPHABET,
            crate::order::is_order(weakness(tones@), order@),
            kept.len() == i,
            forall|k: int| 0 <= k < i ==> #[trigger] kept[k] == tones[order[k] as int],
        decreases tones.len() - i,
    {
        kept.push(tones[order[i]]);
        i = i + 1;
    }
    assert(kept@ =~= alphabet(tones@));
    proof {
        lemma_alphabet_strength(tones@, order@);
    }
    kept
}

fn is_known(tones: &Vec<usize>, bin: usize) -> (r: bool)
    ensures
        r == known(tones@, bin),
{
    let mut i: usize = 0;
    while i < tones.len()
        invariant
            i <= tones.len(),
            forall|k: int| 0 <= k < i ==> !same_tone(bin, #[trigger] tones[k]),
        decreases tones.len() - i,
    {
        if is_same_tone(bin, tones[i]) {
            return true;
        }
        i = i + 1;
    }
    false
}

proof fn lemma_matched_bounds(symbols: Seq<Symbol>, tones: Seq<usize>)
    ensures
        0 <= matched(symbols, tones) <= dwell(symbols),
    decreases symbols.len(),
{
    if symbols.len() > 0 {
        lemma_matched_bounds(symbols.drop_last(), tones);
    }
}

/// A ratio of two counts, in millionths.
fn ratio(part: u64, whole: u64) -> (r: u64)
    requires
        part <= whole,
        whole > 0,
    ensures
        r == part * ONE / (whole as int),
        r <= ONE,
{
    proof {
        assert(0 <= part * 1_000_000 / (whole as int) <= 1_000_000) by (nonlinear_arith)
            requires
                0 <= part <= whole,
                whole > 0,
        ;
    }
    (part as u128 * ONE as u128 / whole as u128) as u64
}

fn product(a: u64, b: u64) -> (r: u64)
    requires
        a <= ONE,
        b <= ONE,
    ensures
        r == times(a as int, b as int),
        r <= ONE,
{
    assert(0 <= a * b <= 1_000_000 * 1_000_000) by (nonlinear_arith)
        requires
            0 <= a <= 1_000_000,
            0 <= b <= 1_000_000,
    ;
    a * b / ONE
}

impl KeyingDetector {
    /// How many symbols last between half and twice the median.
    fn count_regular(&self, median: u64) -> (r: u64)
        requires
            self.wf(),
        ensures
            r == regular(self.memory().symbols, median as int),
            r <= self.memory().symbols.len(),
    {
        let ghost all = self.symbols@;
        let mut within: u64 = 0;
        let mut i: usize = 0;
        assert(all.take(0) =~= Seq::empty());
        while i < self.symbols.len()
            invariant
                all == self.symbols@,
                i <= self.symbols.len(),
                within <= i,
                within == regular(all.take(i as int), median as int),
            decreases self.symbols.len() - i,
        {
            let d: u64 = self.symbols[i].frames;
            assert(all.take(i + 1).drop_last() =~= all.take(i as int));
            if 2 * (d as u128) >= median as u128 && d as u128 <= 2 * (median as u128) {
                within = within + 1;
            }
            i = i + 1;
        }
        assert(all.take(all.len() as int) =~= all);
        within
    }

    /// The middle dwell time.
    fn median_dwell(&self) -> (r: u64)
        requires
            self.wf(),
            self.memory().symbols.len() > 0,
        ensures
            r == rank::median(durations(self.memory().symbols)),
            r >= MIN_SYMBOL_FRAMES,
    {
        let mut keys: Vec<i128> = Vec::new();
        let mut i: usize = 0;
        while i < self.symbols.len()
            invariant
                self.wf(),
                i <= self.symbols.len(),
                keys.len() == i,
                forall|k: int|
                    0 <= k < i ==> (#[trigger] keys[k]) == self.symbols@[k].frames as int,
            decreases self.symbols.len() - i,
        {
            keys.push(self.symbols[i].frames as i128);
            i = i + 1;
        }
        let ordered = sorted(keys.as_slice());
        let m: i128 = ordered[ordered.len() / 2];
        proof {
            let d = durations(self.memory().symbols);
            assert(values(keys@) =~= d);
            // The median is a value that occurs, so it lies among the durations.
            assert forall|i: int| 0 <= i < d.len() implies MIN_SYMBOL_FRAMES <= #[trigger] d[i]
                < u64::MAX + 1 by {
                assert(self.memory().symbols[i].frames >= MIN_SYMBOL_FRAMES);
            }
            rank::lemma_extremes(d, MIN_SYMBOL_FRAMES as int, u64::MAX + 1);
            if m < MIN_SYMBOL_FRAMES {
                rank::lemma_monotone(d, m as int + 1, MIN_SYMBOL_FRAMES as int);
            }
            if m > u64::MAX {
                rank::lemma_monotone(d, u64::MAX + 1, m as int);
            }
        }
        m as u64
    }

    /// The frames of the later half of the symbols, and how many of them rest on tones of
    /// the earlier half.
    fn halves(&self) -> (r: (u64, u64))
        requires
            self.wf(),
        ensures
            ({
                let all = self.memory().symbols;
                let half = all.len() as int / 2;
                &&& r.0 == matched(all.skip(half), bins_of(all.take(half)))
                &&& r.1 == dwell(all.skip(half))
            }),
            r.0 <= r.1,
    {
        let ghost all = self.symbols@;
        let half: usize = self.symbols.len() / 2;
        let mut early: Vec<usize> = Vec::new();
        let mut i: usize = 0;
        assert(all.take(0) =~= Seq::empty());
        while i < half
            invariant
                all == self.symbols@,
                i <= half <= self.symbols.len(),
                early@ == bins_of(all.take(i as int)),
            decreases half - i,
        {
            let bin: usize = self.symbols[i].bin;
            assert(all.take(i + 1).drop_last() =~= all.take(i as int));
            if !is_known(&early, bin) {
                early.push(bin);
            }
            i = i + 1;
        }
        let ghost late = all.skip(half as int);
        proof {
            lemma_dwell_skip(all, half as int);
            assert(late.take(0) =~= Seq::empty());
        }
        let mut hit: u64 = 0;
        let mut total: u64 = 0;
        while i < self.symbols.len()
            invariant
                all == self.symbols@,
                late == all.skip(half as int),
                half <= i <= self.symbols.len(),
                early@ == bins_of(all.take(half as int)),
                dwell(late) <= u64::MAX,
                hit == matched(late.take(i - half), early@),
                total == dwell(late.take(i - half)),
                hit <= total,
            decreases self.symbols.len() - i,
        {
            let s: Symbol = self.symbols[i];
            proof {
                assert(late.take(i - half + 1).drop_last() =~= late.take(i - half));
                lemma_dwell_take(late, i - half + 1);
            }
            if is_known(&early, s.bin) {
                hit = hit + s.frames;
            }
            total = total + s.frames;
            i = i + 1;
        }
        assert(late.take(late.len() as int) =~= late);
        (hit, total)
    }

    /// Assess the observed symbols. `None` until there is enough to say anything: a
    /// handful of transitions proves nothing, and a dwell too short to resolve is the
    /// instrument's own.
    #[verifier::spinoff_prover]
    pub fn evaluate(&self) -> (r: Option<KeyingDetection>)
        requires
            self.wf(),
        ensures
            assessed(
                self.memory().symbols,
                self.shape().0,
                self.shape().1,
                self.shape().2,
                r,
            ),
            r matches Some(d) ==> d.confidence <= ONE,
            r matches Some(d) ==> d.alphabet_purity <= ONE && d.timing_regularity <= ONE
                && d.tone_stability <= ONE,
            r matches Some(d) ==> (d.tones_hz.len() >= 2 && d.transitions_per_second >= 2 * ONE
                ==> 600_000 * (d.alphabet_purity * d.tone_stability) < (d.confidence + 3)
                * 1_000_000_000_000),
            r matches Some(d) ==> (d.tones_hz.len() < 2 ==> d.confidence == 0),
    {
        let n: usize = self.symbols.len();
        let ghost all = self.symbols@;
        if n < MIN_SYMBOLS {
            return None;
        }
        let median: u64 = self.median_dwell();
        if median < MIN_RESOLVABLE_FRAMES {
            return None;
        }
        let tones = gather_tones(&self.symbols);
        let kept = pick_alphabet(&tones);
        proof {
            lemma_tones_strength(all);
            lemma_dwell_floor(all);
            lemma_dwell_skip(all, n as int / 2);
            lemma_dwell_floor(all.skip(n as int / 2));
        }
        let mut strong: u64 = 0;
        let mut span: u64 = 0;
        let mut tones_hz: Vec<u128> = Vec::new();
        let mut i: usize = 0;
        assert(kept@.take(0) =~= Seq::empty());
        while i < kept.len()
            invariant
                self.wf(),
                i <= kept.len(),
                strength(kept@) <= u64::MAX,
                strong == strength(kept@.take(i as int)),
                tones_hz.len() == i,
                forall|k: int|
                    0 <= k < i ==> #[trigger] tones_hz[k] == kept[k].0 * self.sample_rate * ONE / (
                    self.fft_size as int),
            decreases kept.len() - i,
        {
            proof {
                assert(kept@.take(i + 1).drop_last() =~= kept@.take(i as int));
                lemma_strength_take(kept@, i + 1);
                let b = kept[i as int].0 as int;
                assert(0 <= b * self.sample_rate <= 0x1_0000_0000_0000_0000 * 0x1_0000_0000)
                    by (nonlinear_arith)
                    requires
                        0 <= b <= 0x1_0000_0000_0000_0000,
                        0 <= self.sample_rate <= 0x1_0000_0000,
                ;
            }
            strong = strong + kept[i].1;
            let base: u128 = kept[i].0 as u128 * self.sample_rate as u128;
            tones_hz.push(base * 1_000_000 / self.fft_size as u128);
            i = i + 1;
        }
        assert(kept@.take(kept.len() as int) =~= kept@);
        i = 0;
        assert(all.take(0) =~= Seq::empty());
        while i < n
            invariant
                all == self.symbols@,
                n == all.len(),
                i <= n,
                dwell(all) <= u64::MAX,
                span == dwell(all.take(i as int)),
            decreases n - i,
        {
            proof {
                lemma_dwell_take(all, i + 1);
            }
            span = span + self.symbols[i].frames;
            i = i + 1;
        }
        assert(all.take(n as int) =~= all);
        let within: u64 = self.count_regular(median);
        let (hit, late): (u64, u64) = self.halves();
        proof {
            let a = median as int;
            let h = self.hop as int;
            assert(0 < a * h <= u128::MAX) by (nonlinear_arith)
                requires
                    0 < a <= u64::MAX,
                    0 < h <= u64::MAX,
            ;
            let d = span as int;
            assert(0 < d * h <= u128::MAX) by (nonlinear_arith)
                requires
                    0 < d <= u64::MAX,
                    0 < h <= u64::MAX,
            ;
            let m = n - 1;
            assert(0 <= m * self.sample_rate <= 511 * 0x1_0000_0000) by (nonlinear_arith)
                requires
                    0 <= m <= 511,
                    0 <= self.sample_rate <= 0x1_0000_0000,
            ;
        }
        let symbol_rate: u128 = self.sample_rate as u128 * ONE as u128 / (median as u128
            * self.hop as u128);
        let changes: u128 = (n - 1) as u128 * self.sample_rate as u128 * ONE as u128;
        let pace: u128 = changes / (span as u128 * self.hop as u128);
        proof {
            lemma_quotient(self.sample_rate * ONE as int, median * self.hop as int);
            lemma_quotient(changes as int, span * self.hop as int);
        }
        let timing_regularity: u64 = ratio(within, n as u64);
        let alphabet_purity: u64 = ratio(strong, span);
        let tone_stability: u64 = ratio(hit, late);
        let transitions_per_second: u64 = pace as u64;
        let half_pace: u64 = transitions_per_second / 2;
        let transition_term: u64 = if half_pace > ONE {
            ONE
        } else {
            half_pace
        };
        let confidence: u64 = if kept.len() < 2 {
            0
        } else {
            let timing_term: u64 = 600_000 + product(400_000, timing_regularity);
            proof {
                assert(times(400_000, timing_regularity as int) <= 400_000);
            }
            product(
                product(product(alphabet_purity, transition_term), timing_term),
                tone_stability,
            )
        };
        let found: Option<KeyingDetection> = Some(
            KeyingDetection {
                tones_hz,
                symbol_rate_hz: symbol_rate as u64,
                timing_regularity,
                alphabet_purity,
                tone_stability,
                transitions_per_second,
                confidence,
                symbol_count: n,
            },
        );
        proof {
            law_timing_supports_and_never_gates(self, found->Some_0);
            lemma_parts(self, found->Some_0);
            let p = alphabet_purity as int;
            let st = tone_stability as int;
            assert(p * 1_000_000 * st == 1_000_000 * (p * st)) by (nonlinear_arith);
        }
        found
    }
}

proof fn lemma_quotient(a: int, b: int)
    requires
        0 <= a <= 0x7fff_ffff_ffff_ffff,
        b > 0,
    ensures
        0 <= a / b <= a,
{
    assert(0 <= a / b <= a) by (nonlinear_arith)
        requires
            a >= 0,
            b > 0,
    ;
}

proof fn lemma_strength_take(tones: Seq<(usize, u64)>, n: int)
    requires
        0 <= n <= tones.len(),
    ensures
        0 <= strength(tones.take(n)) <= strength(tones),
    decreases tones.len() - n,
{
    lemma_strength_nonnegative(tones.take(n));
    if n < tones.len() {
        lemma_strength_take(tones, n + 1);
        assert(tones.take(n + 1).drop_last() =~= tones.take(n));
    } else {
        assert(tones.take(n) =~= tones);
    }
}

proof fn lemma_dwell_skip(symbols: Seq<Symbol>, n: int)
    requires
        0 <= n <= symbols.len(),
    ensures
        0 <= dwell(symbols.skip(n)) <= dwell(symbols),
    decreases n,
{
    lemma_dwell_nonnegative(symbols.skip(n));
    if n > 0 {
        lemma_dwell_skip(symbols, n - 1);
        lemma_dwell_drop_first(symbols.skip(n - 1));
        assert(symbols.skip(n - 1).drop_first() =~= symbols.skip(n));
    } else {
        assert(symbols.skip(0) =~= symbols);
    }
}

/// Symbols of two frames or more last two frames each at least.
proof fn lemma_dwell_floor(symbols: Seq<Symbol>)
    requires
        forall|i: int| 0 <= i < symbols.len() ==> (#[trigger] symbols[i]).frames >= MIN_SYMBOL_FRAMES,
    ensures
        dwell(symbols) >= 2 * symbols.len(),
    decreases symbols.len(),
{
    if symbols.len() > 0 {
        let rest = symbols.drop_last();
        assert forall|i: int| 0 <= i < rest.len() implies (#[trigger] rest[i]).frames
            >= MIN_SYMBOL_FRAMES by {
            assert(rest[i] == symbols[i]);
        }
        lemma_dwell_floor(rest);
        assert(symbols[symbols.len() - 1].frames >= MIN_SYMBOL_FRAMES);
    }
}

/// What is remembered after `n` more silent frames.
pub open spec fn silenced(memory: KeyingMemory, n: nat, history: int, max_idle: int) -> KeyingMemory
    decreases n,
{
    if n == 0 {
        memory
    } else {
        silenced(memory, (n - 1) as nat, history, max_idle).after(0, false, history, max_idle)
    }
}

/// No symbol closed after a time.
pub open spec fn closed_by(symbols: Seq<Symbol>, clock: int) -> bool {
    forall|i: int| 0 <= i < symbols.len() ==> (#[trigger] symbols[i]).closed_at <= clock
}

proof fn lemma_unexpired(symbols: Seq<Symbol>, cutoff: int, clock: int)
    requires
        closed_by(symbols, clock),
    ensures
        closed_by(unexpired(symbols, cutoff), clock),
        clock < cutoff ==> unexpired(symbols, cutoff).len() == 0,
    decreases symbols.len(),
{
    if symbols.len() > 0 && symbols.first().closed_at < cutoff {
        let rest = symbols.drop_first();
        assert forall|i: int| 0 <= i < rest.len() implies (#[trigger] rest[i]).closed_at
            <= clock by {
            assert(rest[i] == symbols[i + 1]);
        }
        lemma_unexpired(rest, cutoff, clock);
    } else if symbols.len() > 0 {
        assert(symbols[0].closed_at <= clock);
    }
}

proof fn lemma_silenced(memory: KeyingMemory, n: nat, history: int, max_idle: int)
    requires
        closed_by(memory.symbols, memory.clock),
        memory.idle >= 0,
        memory.clock >= 0,
        memory.clock + n <= u64::MAX,
        max_idle >= 0,
        history >= 0,
    ensures
        ({
            let after = silenced(memory, n, history, max_idle);
            let last = memory.clock + if max_idle > 1 {
                max_idle
            } else {
                1
            };
            &&& after.clock == memory.clock + n
            &&& after.idle == memory.idle + n
            &&& closed_by(after.symbols, last)
            &&& n >= 1 && n >= max_idle ==> after.current is None
            &&& n > history + max_idle + 1 ==> after.symbols.len() == 0
        }),
    decreases n,
{
    let last = memory.clock + if max_idle > 1 {
        max_idle
    } else {
        1
    };
    if n > 0 {
        let m = (n - 1) as nat;
        lemma_silenced(memory, m, history, max_idle);
        let before = silenced(memory, m, history, max_idle);
        lemma_unexpired(before.symbols, before.clock + 1 - history, last);
        let aged = before.aged(history);
        let idle = KeyingMemory { idle: aged.idle + 1, ..aged };
        let after = silenced(memory, n, history, max_idle);
        assert(after == if idle.idle >= max_idle {
            idle.closed()
        } else {
            idle
        });
        if idle.idle >= max_idle && idle.current is Some {
            assert(n <= last - memory.clock);
            let symbol = Symbol { closed_at: idle.clock as u64, ..idle.current->0 };
            let grown = idle.symbols.push(symbol);
            assert(closed_by(grown, last));
            assert(closed_by(grown.drop_first(), last));
        }
    }
}

/// The reading is live: once silence has lasted for the history and the idle gap, nothing is
/// left of what was heard before it.
pub proof fn law_silence_empties_the_memory(
    memory: KeyingMemory,
    n: nat,
    history: int,
    max_idle: int,
)
    requires
        closed_by(memory.symbols, memory.clock),
        memory.idle >= 0,
        0 <= memory.clock,
        memory.clock + n <= u64::MAX,
        max_idle >= 0,
        history >= 0,
        n > history + max_idle + 1,
    ensures
        silenced(memory, n, history, max_idle).symbols == Seq::<Symbol>::empty(),
        silenced(memory, n, history, max_idle).current is None,
{
    lemma_silenced(memory, n, history, max_idle);
    assert(silenced(memory, n, history, max_idle).symbols =~= Seq::<Symbol>::empty());
}

/// Nothing is confident without evidence: fewer than two tones, no transitions, or tones
/// that do not come back make no transmission, and confidence never exceeds the alphabet's
/// purity.
pub proof fn law_each_part_of_confidence_is_needed(
    tones: int,
    purity: int,
    transitions: int,
    regularity: int,
    stability: int,
)
    requires
        0 <= purity <= ONE,
        0 <= transitions,
        0 <= regularity <= ONE,
        0 <= stability <= ONE,
    ensures
        0 <= certainty(tones, purity, transitions, regularity, stability) <= purity,
        certainty(tones, purity, transitions, regularity, stability) <= stability,
        tones < 2 || purity == 0 || transitions < 2 || stability == 0 ==> certainty(
            tones,
            purity,
            transitions,
            regularity,
            stability,
        ) == 0,
{
    let pace = if transitions / 2 > ONE {
        ONE as int
    } else {
        transitions / 2
    };
    let a = times(purity, pace);
    lemma_times(purity, pace);
    let t = times(400_000, regularity);
    lemma_times(400_000, regularity);
    lemma_times(a, 600_000 + t);
    lemma_times(times(a, 600_000 + t), stability);
}

proof fn lemma_times(a: int, b: int)
    requires
        0 <= a,
        0 <= b <= ONE,
    ensures
        0 <= times(a, b) <= a,
        a <= ONE ==> times(a, b) <= b,
        a == 0 || b == 0 ==> times(a, b) == 0,
{
    assert(0 <= a * b <= a * 1_000_000) by (nonlinear_arith)
        requires
            0 <= a,
            0 <= b <= 1_000_000,
    ;
    if a <= ONE {
        assert(a * b <= 1_000_000 * b) by (nonlinear_arith)
            requires
                0 <= a <= 1_000_000,
                0 <= b,
        ;
    }
    if a == 0 || b == 0 {
        assert(a * b == 0) by (nonlinear_arith)
            requires
                a == 0 || b == 0,
        ;
    }
}

proof fn lemma_unexpired_shrinks(symbols: Seq<Symbol>, cutoff: int)
    ensures
        unexpired(symbols, cutoff).len() <= symbols.len(),
    decreases symbols.len(),
{
    if symbols.len() > 0 && symbols.first().closed_at < cutoff {
        lemma_unexpired_shrinks(symbols.drop_first(), cutoff);
    }
}

/// History is bounded: no frame takes the memory beyond its capacity.
pub proof fn law_history_is_bounded(
    memory: KeyingMemory,
    bin: usize,
    active: bool,
    history: int,
    max_idle: int,
)
    requires
        memory.symbols.len() <= SYMBOL_CAPACITY,
    ensures
        memory.after(bin, active, history, max_idle).symbols.len() <= SYMBOL_CAPACITY,
{
    lemma_unexpired_shrinks(memory.symbols, memory.clock + 1 - history);
}

/// The frames of the symbols for which something holds, together.
pub open spec fn frames_where(symbols: Seq<Symbol>, pred: spec_fn(Symbol) -> bool) -> int {
    symbols.filter(pred).fold_left(0int, |sum: int, s: Symbol| sum + s.frames)
}

proof fn lemma_frames_where(symbols: Seq<Symbol>, pred: spec_fn(Symbol) -> bool)
    ensures
        symbols.len() == 0 ==> frames_where(symbols, pred) == 0,
        symbols.len() > 0 ==> frames_where(symbols, pred) == frames_where(
            symbols.drop_last(),
            pred,
        ) + if pred(symbols.last()) {
            symbols.last().frames as int
        } else {
            0
        },
{
    reveal(Seq::filter);
    if symbols.len() > 0 {
        let before = symbols.drop_last().filter(pred);
        assert(before.push(symbols.last()).drop_last() =~= before);
    }
}

proof fn lemma_where_all(symbols: Seq<Symbol>, pred: spec_fn(Symbol) -> bool)
    requires
        forall|i: int| 0 <= i < symbols.len() ==> pred(#[trigger] symbols[i]),
    ensures
        frames_where(symbols, pred) == dwell(symbols),
    decreases symbols.len(),
{
    lemma_frames_where(symbols, pred);
    if symbols.len() > 0 {
        let rest = symbols.drop_last();
        assert forall|i: int| 0 <= i < rest.len() implies pred(#[trigger] rest[i]) by {
            assert(rest[i] == symbols[i]);
        }
        lemma_where_all(rest, pred);
        assert(pred(symbols[symbols.len() - 1]));
    }
}

/// What holds of a symbol only where one of three things does holds of no more frames.
proof fn lemma_where_within(
    symbols: Seq<Symbol>,
    p: spec_fn(Symbol) -> bool,
    q: spec_fn(Symbol) -> bool,
    q1: spec_fn(Symbol) -> bool,
    q2: spec_fn(Symbol) -> bool,
)
    requires
        forall|i: int|
            0 <= i < symbols.len() && p(#[trigger] symbols[i]) ==> q(symbols[i]) || q1(symbols[i])
                || q2(symbols[i]),
    ensures
        0 <= frames_where(symbols, p),
        frames_where(symbols, p) <= frames_where(symbols, q) + frames_where(symbols, q1)
            + frames_where(symbols, q2),
    decreases symbols.len(),
{
    lemma_frames_where(symbols, p);
    lemma_frames_where(symbols, q);
    lemma_frames_where(symbols, q1);
    lemma_frames_where(symbols, q2);
    if symbols.len() > 0 {
        let rest = symbols.drop_last();
        assert forall|i: int| 0 <= i < rest.len() && p(#[trigger] rest[i]) implies q(rest[i])
            || q1(rest[i]) || q2(rest[i]) by {
            assert(rest[i] == symbols[i]);
        }
        lemma_where_within(rest, p, q, q1, q2);
        assert(symbols[symbols.len() - 1] == symbols.last());
    }
}

proof fn lemma_where_none(symbols: Seq<Symbol>, pred: spec_fn(Symbol) -> bool)
    requires
        forall|i: int| 0 <= i < symbols.len() ==> !pred(#[trigger] symbols[i]),
    ensures
        frames_where(symbols, pred) == 0,
    decreases symbols.len(),
{
    lemma_frames_where(symbols, pred);
    if symbols.len() > 0 {
        let rest = symbols.drop_last();
        assert forall|i: int| 0 <= i < rest.len() implies !pred(#[trigger] rest[i]) by {
            assert(rest[i] == symbols[i]);
        }
        lemma_where_none(rest, pred);
        assert(!pred(symbols[symbols.len() - 1]));
    }
}

proof fn lemma_where_same(
    symbols: Seq<Symbol>,
    p: spec_fn(Symbol) -> bool,
    q: spec_fn(Symbol) -> bool,
)
    requires
        forall|i: int| 0 <= i < symbols.len() ==> p(#[trigger] symbols[i]) == q(symbols[i]),
    ensures
        frames_where(symbols, p) == frames_where(symbols, q),
{
    let never = |s: Symbol| false;
    lemma_where_within(symbols, p, q, never, never);
    lemma_where_within(symbols, q, p, never, never);
    lemma_where_none(symbols, never);
}

proof fn lemma_matched_where(
    symbols: Seq<Symbol>,
    tones: Seq<usize>,
    pred: spec_fn(Symbol) -> bool,
)
    requires
        forall|s: Symbol| #[trigger] pred(s) == known(tones, s.bin),
    ensures
        matched(symbols, tones) == frames_where(symbols, pred),
    decreases symbols.len(),
{
    lemma_frames_where(symbols, pred);
    if symbols.len() > 0 {
        lemma_matched_where(symbols.drop_last(), tones, pred);
    }
}

proof fn lemma_tone_of(tones: Seq<(usize, u64)>, bin: usize, i: int)
    requires
        0 <= i <= tones.len(),
    ensures
        ({
            let k = tone_of(tones, bin, i);
            &&& i <= k <= tones.len()
            &&& k < tones.len() ==> same_tone(bin, tones[k].0)
            &&& forall|j: int| i <= j < k ==> !same_tone(bin, (#[trigger] tones[j]).0)
        }),
    decreases tones.len() - i,
{
    if i < tones.len() && !same_tone(bin, tones[i].0) {
        lemma_tone_of(tones, bin, i + 1);
    }
}

/// A tone once found is found again among more tones.
proof fn lemma_tone_stays(
    tones: Seq<(usize, u64)>,
    grown: Seq<(usize, u64)>,
    bin: usize,
)
    requires
        tones.len() <= grown.len(),
        forall|j: int| 0 <= j < tones.len() ==> (#[trigger] tones[j]).0 == grown[j].0,
        tone_of(tones, bin, 0) < tones.len(),
    ensures
        tone_of(grown, bin, 0) == tone_of(tones, bin, 0),
{
    lemma_tone_of(tones, bin, 0);
    lemma_tone_of(grown, bin, 0);
    let k = tone_of(tones, bin, 0);
    let g = tone_of(grown, bin, 0);
    if g < k {
        assert(!same_tone(bin, tones[g].0));
    } else if k < g {
        assert(!same_tone(bin, grown[k].0));
    }
}

/// A tone is as strong as the frames of the symbols that count to it.
proof fn lemma_tone_strengths(symbols: Seq<Symbol>, k: int)
    requires
        dwell(symbols) <= u64::MAX,
    ensures
        ({
            let tones = tones_of(symbols);
            &&& forall|i: int|
                0 <= i < symbols.len() ==> tone_of(tones, (#[trigger] symbols[i]).bin, 0)
                    < tones.len()
            &&& 0 <= k < tones.len() ==> tones[k].1 == frames_where(
                symbols,
                |s: Symbol| tone_of(tones, s.bin, 0) == k,
            )
        }),
    decreases symbols.len(),
{
    if symbols.len() > 0 {
        let rest = symbols.drop_last();
        let s = symbols.last();
        let before = tones_of(rest);
        let tones = tones_of(symbols);
        lemma_dwell_nonnegative(rest);
        lemma_tone_strengths(rest, k);
        lemma_tones_strength(rest);
        lemma_tone_of(before, s.bin, 0);
        let at = tone_of(before, s.bin, 0);
        if at < before.len() {
            lemma_strength_update(before, at, before[at]);
            lemma_tone_stays(before, tones, s.bin);
        } else {
            lemma_tone_of(tones, s.bin, 0);
            let now = tone_of(tones, s.bin, 0);
            if now < before.len() {
                assert(tones[now] == before[now]);
            }
            assert(same_tone(s.bin, tones[before.len() as int].0));
            assert(now == before.len());
        }
        assert forall|i: int| 0 <= i < symbols.len() implies tone_of(
            tones,
            (#[trigger] symbols[i]).bin,
            0,
        ) < tones.len() by {
            if i < rest.len() {
                assert(rest[i] == symbols[i]);
                lemma_tone_stays(before, tones, rest[i].bin);
            }
        }
        if 0 <= k < tones.len() {
            let p = |s: Symbol| tone_of(tones, s.bin, 0) == k;
            let q = |s: Symbol| tone_of(before, s.bin, 0) == k;
            lemma_frames_where(symbols, p);
            assert forall|i: int| 0 <= i < rest.len() implies p(#[trigger] rest[i]) == q(
                rest[i],
            ) by {
                lemma_tone_stays(before, tones, rest[i].bin);
            }
            lemma_where_same(rest, p, q);
            if k == before.len() {
                assert forall|i: int| 0 <= i < rest.len() implies !q(#[trigger] rest[i]) by {}
                lemma_where_none(rest, q);
            }
        }
    } else {
        lemma_frames_where(symbols, |s: Symbol| tone_of(tones_of(symbols), s.bin, 0) == k);
    }
}

proof fn lemma_silent_tones(tones: Seq<(usize, u64)>)
    requires
        forall|i: int| 0 <= i < tones.len() ==> (#[trigger] tones[i]).1 == 0,
    ensures
        strength(tones) == 0,
    decreases tones.len(),
{
    if tones.len() > 0 {
        let rest = tones.drop_last();
        assert forall|i: int| 0 <= i < rest.len() implies (#[trigger] rest[i]).1 == 0 by {
            assert(rest[i] == tones[i]);
        }
        lemma_silent_tones(rest);
        assert(tones[tones.len() - 1].1 == 0);
    }
}

/// The tones kept are no weaker together than any three, and where there are three at most
/// they are all of them.
proof fn lemma_alphabet_is_strongest(tones: Seq<(usize, u64)>, x: int, y: int, z: int)
    requires
        tones.len() <= usize::MAX,
    ensures
        tones.len() <= 3 ==> strength(alphabet(tones)) == strength(tones),
        0 <= x < tones.len() && 0 <= y < tones.len() && 0 <= z < tones.len() && x != y && y != z
            && x != z ==> tones[x].1 + tones[y].1 + tones[z].1 <= strength(alphabet(tones)),
        strength(alphabet(tones)) <= strength(tones),
{
    let keys = weakness(tones);
    let order = order_of(keys);
    let kept = alphabet(tones);
    crate::order::lemma_order_exists(keys);
    lemma_alphabet_strength(tones, order);
    reveal_with_fuel(strength, 4);
    if tones.len() > 0 {
        let a = order[0] as int;
        let z1 = tones.update(a, (0, 0));
        lemma_strength_update(tones, a, (0, 0));
        if tones.len() > 1 {
            let b = order[1] as int;
            assert(crate::order::precedes(keys, a, b));
            let z2 = z1.update(b, (0, 0));
            lemma_strength_update(z1, b, (0, 0));
            if tones.len() > 2 {
                let c = order[2] as int;
                assert(crate::order::precedes(keys, a, c));
                assert(crate::order::precedes(keys, b, c));
                lemma_strength_update(z2, c, (0, 0));
                assert(kept.drop_last().drop_last().drop_last() =~= Seq::empty());
                if tones.len() == 3 {
                    lemma_silent_tones(z2.update(c, (0, 0)));
                }
                if 0 <= x < tones.len() && 0 <= y < tones.len() && 0 <= z < tones.len() && x != y
                    && y != z && x != z {
                    crate::order::lemma_order_complete(keys, order, x);
                    crate::order::lemma_order_complete(keys, order, y);
                    crate::order::lemma_order_complete(keys, order, z);
                    let p = choose|p: int| 0 <= p < order.len() && #[trigger] order[p] == x;
                    let q = choose|p: int| 0 <= p < order.len() && #[trigger] order[p] == y;
                    let r = choose|p: int| 0 <= p < order.len() && #[trigger] order[p] == z;
                    lemma_three_places(tones, order, p, q, r);
                }
            } else {
                assert(kept.drop_last().drop_last() =~= Seq::empty());
                lemma_silent_tones(z2);
            }
        } else {
            assert(kept.drop_last() =~= Seq::empty());
            lemma_silent_tones(z1);
        }
    }
}

/// In an order that puts the strongest first, a later place is no stronger.
proof fn lemma_later_is_weaker(tones: Seq<(usize, u64)>, order: Seq<usize>, p: int, q: int)
    requires
        crate::order::is_order(weakness(tones), order),
        0 <= p <= q < order.len(),
    ensures
        tones[order[p] as int].1 >= tones[order[q] as int].1,
{
    if p < q {
        assert(crate::order::precedes(weakness(tones), order[p] as int, order[q] as int));
    }
}

proof fn lemma_three_places(tones: Seq<(usize, u64)>, order: Seq<usize>, p: int, q: int, r: int)
    requires
        crate::order::is_order(weakness(tones), order),
        0 <= p < order.len(),
        0 <= q < order.len(),
        0 <= r < order.len(),
        p != q,
        q != r,
        p != r,
    ensures
        tones[order[p] as int].1 + tones[order[q] as int].1 + tones[order[r] as int].1
            <= tones[order[0] as int].1 + tones[order[1] as int].1 + tones[order[2] as int].1,
    decreases (if p > q {
        1int
    } else {
        0int
    }) + (if q > r {
        1int
    } else {
        0int
    }) + (if p > r {
        1int
    } else {
        0int
    }),
{
    if p > q {
        lemma_three_places(tones, order, q, p, r);
    } else if q > r {
        lemma_three_places(tones, order, p, r, q);
    } else {
        lemma_later_is_weaker(tones, order, 0, p);
        lemma_later_is_weaker(tones, order, 1, q);
        lemma_later_is_weaker(tones, order, 2, r);
    }
}

/// The few tones kept explain as much as any three bins do.
proof fn lemma_alphabet_explains(symbols: Seq<Symbol>, a: usize, b: usize, c: usize)
    requires
        dwell(symbols) <= u64::MAX,
        symbols.len() <= usize::MAX,
    ensures
        frames_where(symbols, |s: Symbol| s.bin == a || s.bin == b || s.bin == c) <= strength(
            alphabet(tones_of(symbols)),
        ),
        strength(alphabet(tones_of(symbols))) <= dwell(symbols),
{
    let p = |s: Symbol| s.bin == a || s.bin == b || s.bin == c;
    let tones = tones_of(symbols);
    lemma_tones_strength(symbols);
    lemma_tones_fewer(symbols);
    lemma_tone_strengths(symbols, 0);
    let all = |s: Symbol| true;
    let never = |s: Symbol| false;
    lemma_where_within(symbols, p, all, never, never);
    lemma_where_none(symbols, never);
    lemma_where_all(symbols, all);
    lemma_alphabet_is_strongest(tones, 0, 1, 2);
    if tones.len() > 3 {
        let x = if tone_of(tones, a, 0) < tones.len() {
            tone_of(tones, a, 0)
        } else {
            0
        };
        lemma_tone_of(tones, a, 0);
        lemma_tone_of(tones, b, 0);
        lemma_tone_of(tones, c, 0);
        let tb = tone_of(tones, b, 0);
        let y = if tb < tones.len() && tb != x {
            tb
        } else if x != 0 {
            0
        } else {
            1
        };
        let tc = tone_of(tones, c, 0);
        let z = if tc < tones.len() && tc != x && tc != y {
            tc
        } else if x != 0 && y != 0 {
            0
        } else if x != 1 && y != 1 {
            1
        } else {
            2
        };
        let qx = |s: Symbol| tone_of(tones, s.bin, 0) == x;
        let qy = |s: Symbol| tone_of(tones, s.bin, 0) == y;
        let qz = |s: Symbol| tone_of(tones, s.bin, 0) == z;
        assert forall|i: int| 0 <= i < symbols.len() && p(#[trigger] symbols[i]) implies qx(
            symbols[i],
        ) || qy(symbols[i]) || qz(symbols[i]) by {}
        lemma_where_within(symbols, p, qx, qy, qz);
        lemma_tone_strengths(symbols, x);
        lemma_tone_strengths(symbols, y);
        lemma_tone_strengths(symbols, z);
        lemma_alphabet_is_strongest(tones, x, y, z);
    }
}

proof fn lemma_tones_fewer(symbols: Seq<Symbol>)
    ensures
        tones_of(symbols).len() <= symbols.len(),
        symbols.len() > 0 ==> tones_of(symbols).len() > 0 && tones_of(symbols)[0].0
            == symbols[0].bin,
    decreases symbols.len(),
{
    if symbols.len() > 0 {
        let rest = symbols.drop_last();
        lemma_tones_fewer(rest);
        lemma_tone_of(tones_of(rest), symbols.last().bin, 0);
    }
}

/// There is a second tone once a symbol rests on another than the first.
proof fn lemma_second_tone(symbols: Seq<Symbol>)
    requires
        symbols.len() > 0,
    ensures
        tones_of(symbols).len() >= 2 <==> exists|i: int|
            0 <= i < symbols.len() && !same_tone((#[trigger] symbols[i]).bin, symbols[0].bin),
    decreases symbols.len(),
{
    let rest = symbols.drop_last();
    let s = symbols.last();
    let before = tones_of(rest);
    lemma_tones_fewer(symbols);
    lemma_tones_fewer(rest);
    lemma_tone_of(before, s.bin, 0);
    if rest.len() > 0 {
        lemma_second_tone(rest);
        assert(rest[0] == symbols[0]);
        if before.len() >= 2 {
            let i = choose|i: int|
                0 <= i < rest.len() && !same_tone((#[trigger] rest[i]).bin, rest[0].bin);
            assert(symbols[i] == rest[i]);
        }
        if tones_of(symbols).len() >= 2 && before.len() < 2 {
            assert(symbols[symbols.len() - 1] == s);
            assert(!same_tone(s.bin, before[0].0));
        }
        if exists|i: int|
            0 <= i < symbols.len() && !same_tone((#[trigger] symbols[i]).bin, symbols[0].bin) {
            let i = choose|i: int|
                0 <= i < symbols.len() && !same_tone((#[trigger] symbols[i]).bin, symbols[0].bin);
            if i < rest.len() {
                assert(rest[i] == symbols[i]);
            } else if before.len() < 2 {
                assert(before[0].0 == symbols[0].bin);
            }
        }
    }
}

proof fn lemma_share(part: int, whole: int, share: int)
    requires
        0 <= part <= whole,
        whole > 0,
        share == part * ONE / whole,
    ensures
        0 <= share <= ONE,
        share * whole <= part * ONE < (share + 1) * whole,
        part == whole ==> share == ONE,
        part == 0 ==> share == 0,
{
    vstd::arithmetic::div_mod::lemma_fundamental_div_mod(part * ONE, whole);
    assert(whole * share == share * whole && (share + 1) * whole == share * whole + whole)
        by (nonlinear_arith);
    assert(0 <= share <= 1_000_000) by (nonlinear_arith)
        requires
            0 <= part <= whole,
            whole > 0,
            share == part * 1_000_000 / whole,
    ;
    if part == whole {
        vstd::arithmetic::div_mod::lemma_fundamental_div_mod_converse(
            part * ONE,
            whole,
            ONE as int,
            0,
        );
    }
}

/// The parts of an assessment are shares.
proof fn lemma_parts(k: &KeyingDetector, d: KeyingDetection)
    requires
        k.wf(),
        assessed(k.memory().symbols, k.shape().0, k.shape().1, k.shape().2, Some(d)),
    ensures
        d.alphabet_purity <= ONE,
        d.timing_regularity <= ONE,
        d.tone_stability <= ONE,
        dwell(k.memory().symbols) >= 2 * k.memory().symbols.len() > 0,
{
    let all = k.memory().symbols;
    let n = all.len() as int;
    let half = n / 2;
    lemma_dwell_floor(all);
    lemma_dwell_skip(all, half);
    lemma_dwell_floor(all.skip(half));
    lemma_tones_strength(all);
    lemma_tones_fewer(all);
    lemma_alphabet_is_strongest(tones_of(all), 0, 0, 0);
    lemma_strength_nonnegative(alphabet(tones_of(all)));
    lemma_share(strength(alphabet(tones_of(all))), dwell(all), d.alphabet_purity as int);
    lemma_matched_bounds(all.skip(half), bins_of(all.take(half)));
    lemma_share(
        matched(all.skip(half), bins_of(all.take(half))),
        dwell(all.skip(half)),
        d.tone_stability as int,
    );
    let median = rank::median(durations(all));
    lemma_regular_filters(
        all,
        median,
        |s: Symbol| 2 * s.frames >= median && s.frames <= 2 * median,
    );
    all.lemma_filter_len(|s: Symbol| 2 * s.frames >= median && s.frames <= 2 * median);
    lemma_share(regular(all, median), n, d.timing_regularity as int);
}

proof fn lemma_regular_filters(
    symbols: Seq<Symbol>,
    median: int,
    pred: spec_fn(Symbol) -> bool,
)
    requires
        forall|s: Symbol|
            #[trigger] pred(s) == (2 * s.frames >= median && s.frames <= 2 * median),
    ensures
        regular(symbols, median) == symbols.filter(pred).len(),
    decreases symbols.len(),
{
    reveal(Seq::filter);
    if symbols.len() > 0 {
        lemma_regular_filters(symbols.drop_last(), median, pred);
    }
}

proof fn lemma_durations_below(symbols: Seq<Symbol>, v: int, pred: spec_fn(Symbol) -> bool)
    requires
        forall|s: Symbol| #[trigger] pred(s) == (s.frames < v),
    ensures
        rank::below(durations(symbols), v) == symbols.filter(pred).len(),
    decreases symbols.len(),
{
    reveal(Seq::filter);
    if symbols.len() > 0 {
        lemma_durations_below(symbols.drop_last(), v, pred);
        assert(durations(symbols).drop_last() =~= durations(symbols.drop_last()));
    }
}

/// A product of ratios falls short of the exact one by less than a millionth, and grows with
/// its factors.
proof fn lemma_times_close(a: int, b: int)
    ensures
        times(a, b) * 1_000_000 <= a * b < times(a, b) * 1_000_000 + 1_000_000,
{
}

proof fn lemma_times_grows(a: int, b: int, c: int, d: int)
    requires
        0 <= a <= c,
        0 <= b <= d,
    ensures
        times(a, b) <= times(c, d),
{
    assert(a * b <= c * d) by (nonlinear_arith)
        requires
            0 <= a <= c,
            0 <= b <= d,
    ;
}

/// Timing supports and never gates: with two tones or more, what is heard is at least six
/// tenths as certain as its alphabet, its pace and its stability make it, whatever its dwell
/// times, and no more certain than they make it. Two transitions a second are all that is
/// asked of the pace. With fewer than two tones nothing is certain.
pub proof fn law_timing_supports_and_never_gates(k: &KeyingDetector, d: KeyingDetection)
    requires
        k.wf(),
        assessed(k.memory().symbols, k.shape().0, k.shape().1, k.shape().2, Some(d)),
    ensures
        ({
            let pace = if d.transitions_per_second >= 2_000_000 {
                1_000_000
            } else {
                d.transitions_per_second as int / 2
            };
            let rest = d.alphabet_purity * pace * d.tone_stability;
            &&& d.tones_hz.len() >= 2 ==> 600_000 * rest < (d.confidence + 3)
                * 1_000_000_000_000_000_000
            &&& d.confidence * 1_000_000_000_000 <= rest
            &&& d.tones_hz.len() < 2 ==> d.confidence == 0
        }),
        d.tones_hz.len() >= 2 && d.alphabet_purity == ONE && d.tone_stability == ONE
            && d.transitions_per_second >= 2 * ONE ==> d.confidence >= 600_000 && 10 * d.confidence
            <= 6_000_000 + 4 * d.timing_regularity < 10 * d.confidence + 10,
{
    lemma_parts(k, d);
    let p = d.alphabet_purity as int;
    let trans = d.transitions_per_second as int;
    let pace = if trans >= 2_000_000 {
        1_000_000
    } else {
        trans / 2
    };
    let st = d.tone_stability as int;
    let reg = d.timing_regularity as int;
    let m = 1_000_000int;
    lemma_times_close(400_000, reg);
    let t = 600_000 + times(400_000, reg);
    lemma_times_close(p, pace);
    let a = times(p, pace);
    lemma_times_close(a, t);
    let b = times(a, t);
    lemma_times_close(b, st);
    let c = times(b, st);
    let x = p * pace;
    assert(600_000 <= t <= m);
    assert(0 <= x <= m * m) by (nonlinear_arith)
        requires
            0 <= p <= 1_000_000,
            0 <= pace <= 1_000_000,
            x == p * pace,
            m == 1_000_000,
    ;
    assert(0 <= a * t <= m * m) by (nonlinear_arith)
        requires
            0 <= a <= 1_000_000,
            0 <= t <= 1_000_000,
            m == 1_000_000,
    ;
    assert(0 <= x * st) by (nonlinear_arith)
        requires
            0 <= x,
            0 <= st,
    ;
    if d.tones_hz.len() >= 2 {
        assert(d.confidence == c);
        lemma_three_products(x, a, t, b, st, c);
    } else {
        assert(d.confidence == 0);
    }
    if p == m && st == m && pace == m {
        assert(a == 1_000_000);
        assert(a * t == 1_000_000 * t);
        assert(b == t);
        assert(b * st == t * 1_000_000);
        assert(c == t);
    }
}

/// Three ratios multiplied in turn, each rounded down.
proof fn lemma_three_products(x: int, a: int, t: int, b: int, s: int, c: int)
    requires
        0 <= x,
        0 <= a,
        0 <= b,
        0 <= c,
        600_000 <= t <= 1_000_000,
        0 <= s <= 1_000_000,
        a * 1_000_000 <= x < a * 1_000_000 + 1_000_000,
        b * 1_000_000 <= a * t < b * 1_000_000 + 1_000_000,
        c * 1_000_000 <= b * s < c * 1_000_000 + 1_000_000,
    ensures
        600_000 * (x * s) < (c + 3) * 1_000_000_000_000_000_000,
        c * 1_000_000_000_000 <= x * s,
{
    // What the roundings take away, from the last to the first.
    assert((a * t) * s <= (b * 1_000_000 + 1_000_000) * s) by (nonlinear_arith)
        requires
            a * t <= b * 1_000_000 + 1_000_000,
            s >= 0,
    ;
    assert((b * 1_000_000 + 1_000_000) * s == 1_000_000 * (b * s) + 1_000_000 * s) by (nonlinear_arith);
    let ts = t * s;
    assert(600_000 * s <= ts <= 1_000_000 * s) by (nonlinear_arith)
        requires
            600_000 <= t <= 1_000_000,
            s >= 0,
            ts == t * s,
    ;
    assert(x * ts <= (a * 1_000_000 + 1_000_000) * ts) by (nonlinear_arith)
        requires
            x <= a * 1_000_000 + 1_000_000,
            ts >= 0,
    ;
    assert((a * 1_000_000 + 1_000_000) * ts == 1_000_000 * ((a * t) * s) + 1_000_000 * ts) by (nonlinear_arith)
        requires
            ts == t * s,
    ;
    assert(x * (600_000 * s) <= x * ts) by (nonlinear_arith)
        requires
            x >= 0,
            600_000 * s <= ts,
    ;
    assert(x * (600_000 * s) == 600_000 * (x * s)) by (nonlinear_arith);
    // And each product is no more than the exact one.
    assert((b * 1_000_000) * s <= (a * t) * s) by (nonlinear_arith)
        requires
            b * 1_000_000 <= a * t,
            s >= 0,
    ;
    assert((a * t) * s <= (a * 1_000_000) * s) by (nonlinear_arith)
        requires
            0 <= t <= 1_000_000,
            a >= 0,
            s >= 0,
    ;
    assert((a * 1_000_000) * s <= x * s) by (nonlinear_arith)
        requires
            a * 1_000_000 <= x,
            s >= 0,
    ;
    assert((b * 1_000_000) * s == 1_000_000 * (b * s)) by (nonlinear_arith);
}

/// More evidence is never less certain: of two readings, one that has as many tones, and is as
/// pure, as fast, as regular and as stable at least, is as certain at least.
pub proof fn law_more_evidence_is_never_less_certain(
    k: &KeyingDetector,
    d: KeyingDetection,
    other: &KeyingDetector,
    e: KeyingDetection,
)
    requires
        k.wf(),
        assessed(k.memory().symbols, k.shape().0, k.shape().1, k.shape().2, Some(d)),
        other.wf(),
        assessed(
            other.memory().symbols,
            other.shape().0,
            other.shape().1,
            other.shape().2,
            Some(e),
        ),
        d.tones_hz.len() <= e.tones_hz.len(),
        d.alphabet_purity <= e.alphabet_purity,
        d.transitions_per_second <= e.transitions_per_second,
        d.timing_regularity <= e.timing_regularity,
        d.tone_stability <= e.tone_stability,
    ensures
        d.confidence <= e.confidence,
{
    lemma_parts(k, d);
    lemma_parts(other, e);
    let pace = |t: int| if t / 2 > ONE {
        ONE as int
    } else {
        t / 2
    };
    let x = pace(d.transitions_per_second as int);
    let y = pace(e.transitions_per_second as int);
    lemma_times_grows(400_000, d.timing_regularity as int, 400_000, e.timing_regularity as int);
    let t = 600_000 + times(400_000, d.timing_regularity as int);
    let u = 600_000 + times(400_000, e.timing_regularity as int);
    lemma_times(400_000, d.timing_regularity as int);
    let a = times(d.alphabet_purity as int, x);
    let b = times(e.alphabet_purity as int, y);
    lemma_times(d.alphabet_purity as int, x);
    lemma_times_grows(d.alphabet_purity as int, x, e.alphabet_purity as int, y);
    lemma_times_grows(a, t, b, u);
    lemma_times(a, t);
    lemma_times_grows(times(a, t), d.tone_stability as int, times(b, u), e.tone_stability as int);
    lemma_times(e.alphabet_purity as int, y);
    lemma_times(b, u);
    lemma_times(times(b, u), e.tone_stability as int);
}

/// Regularity is the share of the symbols that last between half and twice the middle dwell,
/// and the symbol rate is how often that dwell fits a second: `median` is a dwell on neither
/// side of which more than half the symbols lie.
pub proof fn law_dwells_cluster_on_the_middle(k: &KeyingDetector, d: KeyingDetection, median: int)
    requires
        k.wf(),
        assessed(k.memory().symbols, k.shape().0, k.shape().1, k.shape().2, Some(d)),
        2 * k.memory().symbols.filter(|s: Symbol| s.frames < median).len()
            <= k.memory().symbols.len(),
        2 * k.memory().symbols.filter(|s: Symbol| s.frames <= median).len()
            > k.memory().symbols.len(),
    ensures
        ({
            let (hop, rate, _) = k.shape();
            let n = k.memory().symbols.len() as int;
            let within = k.memory().symbols.filter(
                |s: Symbol| median <= 2 * s.frames && s.frames <= 2 * median,
            ).len() as int;
            &&& median >= 3
            &&& d.timing_regularity * n <= within * ONE < (d.timing_regularity + 1) * n
            &&& d.symbol_rate_hz * (median * hop) <= rate * ONE < (d.symbol_rate_hz + 1) * (median
                * hop)
        }),
{
    let all = k.memory().symbols;
    let n = all.len() as int;
    let (hop, rate, fft) = k.shape();
    lemma_durations_below(all, median, |s: Symbol| s.frames < median);
    lemma_durations_below(all, median + 1, |s: Symbol| s.frames <= median);
    rank::lemma_rank_unique(durations(all), n / 2, median);
    let within = |s: Symbol| median <= 2 * s.frames && s.frames <= 2 * median;
    lemma_regular_filters(all, median, within);
    all.lemma_filter_len(within);
    lemma_share(regular(all, median), n, d.timing_regularity as int);
    let cycle = median * hop;
    assert(cycle > 0) by (nonlinear_arith)
        requires
            median > 0,
            hop > 0,
            cycle == median * hop,
    ;
    let q = d.symbol_rate_hz as int;
    vstd::arithmetic::div_mod::lemma_fundamental_div_mod(rate * ONE, cycle);
    assert(cycle * q == q * cycle && (q + 1) * cycle == q * cycle + cycle) by (nonlinear_arith);
}

/// The transitions a second are how often the tone changed, one time less than there are
/// symbols, over the time that the symbols took.
pub proof fn law_transitions_are_counted_over_the_dwells(k: &KeyingDetector, d: KeyingDetection)
    requires
        k.wf(),
        assessed(k.memory().symbols, k.shape().0, k.shape().1, k.shape().2, Some(d)),
    ensures
        ({
            let (hop, rate, _) = k.shape();
            let n = k.memory().symbols.len() as int;
            let samples = frames_where(k.memory().symbols, |s: Symbol| true) * hop;
            &&& samples > 0
            &&& d.transitions_per_second * samples <= (n - 1) * rate * ONE < (
            d.transitions_per_second + 1) * samples
            &&& d.symbol_count == n
        }),
{
    lemma_parts(k, d);
    let all = k.memory().symbols;
    let n = all.len() as int;
    let (hop, rate, _) = k.shape();
    lemma_where_all(all, |s: Symbol| true);
    let samples = dwell(all) * hop;
    assert(samples > 0) by (nonlinear_arith)
        requires
            dwell(all) > 0,
            hop > 0,
            samples == dwell(all) * hop,
    ;
    let q = d.transitions_per_second as int;
    vstd::arithmetic::div_mod::lemma_fundamental_div_mod((n - 1) * rate * ONE, samples);
    assert(samples * q == q * samples && (q + 1) * samples == q * samples + samples)
        by (nonlinear_arith);
}

/// The alphabet explains as much of what was heard as any three bins do, so that a
/// transmission on three bins at most is pure; and where no two symbols rest on one tone, as in
/// a sweep, it explains no more than the three longest.
pub proof fn law_purity_is_what_three_tones_explain(
    k: &KeyingDetector,
    d: KeyingDetection,
    a: usize,
    b: usize,
    c: usize,
    longest: int,
)
    requires
        k.wf(),
        assessed(k.memory().symbols, k.shape().0, k.shape().1, k.shape().2, Some(d)),
    ensures
        ({
            let all = k.memory().symbols;
            let span = frames_where(all, |s: Symbol| true);
            let on = frames_where(all, |s: Symbol| s.bin == a || s.bin == b || s.bin == c);
            &&& on * ONE < (d.alphabet_purity + 1) * span
            &&& d.alphabet_purity <= ONE
            &&& (forall|i: int|
                0 <= i < all.len() ==> (#[trigger] all[i]).bin == a || all[i].bin == b || all[i].bin
                    == c) ==> d.alphabet_purity == ONE
            &&& (forall|i: int| 0 <= i < all.len() ==> (#[trigger] all[i]).frames <= longest) && (
            forall|i: int, j: int|
                0 <= i < j < all.len() ==> (#[trigger] all[i]).bin - (#[trigger] all[j]).bin > 2
                    || all[j].bin - all[i].bin > 2) ==> d.alphabet_purity * span <= 3 * longest * ONE
        }),
{
    let all = k.memory().symbols;
    let span = dwell(all);
    let tones = tones_of(all);
    lemma_parts(k, d);
    lemma_where_all(all, |s: Symbol| true);
    lemma_alphabet_explains(all, a, b, c);
    lemma_strength_nonnegative(alphabet(tones));
    lemma_share(strength(alphabet(tones)), span, d.alphabet_purity as int);
    let on = |s: Symbol| s.bin == a || s.bin == b || s.bin == c;
    if forall|i: int|
        0 <= i < all.len() ==> (#[trigger] all[i]).bin == a || all[i].bin == b || all[i].bin == c {
        lemma_where_all(all, on);
    }
    if (forall|i: int| 0 <= i < all.len() ==> (#[trigger] all[i]).frames <= longest) && (forall|
        i: int,
        j: int,
    |
        0 <= i < j < all.len() ==> (#[trigger] all[i]).bin - (#[trigger] all[j]).bin > 2
            || all[j].bin - all[i].bin > 2) {
        lemma_tones_apart(all);
        crate::order::lemma_order_exists(weakness(tones));
        let order = order_of(weakness(tones));
        let kept = alphabet(tones);
        assert(all[0].frames <= longest);
        assert forall|i: int| 0 <= i < kept.len() implies (#[trigger] kept[i]).1 <= longest by {
            let o = order[i] as int;
            assert(kept[i] == tones[o]);
            assert(tones[o] == (all[o].bin, all[o].frames));
        }
        lemma_strength_few(kept, longest);
        assert(kept.len() * longest <= 3 * longest) by (nonlinear_arith)
            requires
                kept.len() <= 3,
                longest >= 0,
        ;
    }
}

/// Symbols on tones of their own make each a tone.
proof fn lemma_tones_apart(symbols: Seq<Symbol>)
    requires
        forall|i: int, j: int|
            0 <= i < j < symbols.len() ==> (#[trigger] symbols[i]).bin - (#[trigger] symbols[j]).bin
                > 2 || symbols[j].bin - symbols[i].bin > 2,
    ensures
        tones_of(symbols) == symbols.map_values(|s: Symbol| (s.bin, s.frames)),
    decreases symbols.len(),
{
    if symbols.len() > 0 {
        let rest = symbols.drop_last();
        assert forall|i: int, j: int| 0 <= i < j < rest.len() implies (#[trigger] rest[i]).bin - (
        #[trigger] rest[j]).bin > 2 || rest[j].bin - rest[i].bin > 2 by {
            assert(rest[i] == symbols[i] && rest[j] == symbols[j]);
        }
        lemma_tones_apart(rest);
        let before = tones_of(rest);
        let s = symbols.last();
        lemma_tone_of(before, s.bin, 0);
        let at = tone_of(before, s.bin, 0);
        if at < before.len() {
            assert(before[at].0 == rest[at].bin);
            assert(symbols[at] == rest[at]);
            assert(symbols[symbols.len() - 1] == s);
        }
        assert(tones_of(symbols) =~= symbols.map_values(|s: Symbol| (s.bin, s.frames)));
    } else {
        assert(tones_of(symbols) =~= symbols.map_values(|s: Symbol| (s.bin, s.frames)));
    }
}

proof fn lemma_strength_few(tones: Seq<(usize, u64)>, longest: int)
    requires
        forall|i: int| 0 <= i < tones.len() ==> (#[trigger] tones[i]).1 <= longest,
    ensures
        strength(tones) <= tones.len() * longest,
    decreases tones.len(),
{
    let n = tones.len() as int;
    if n > 0 {
        let rest = tones.drop_last();
        assert forall|i: int| 0 <= i < rest.len() implies (#[trigger] rest[i]).1 <= longest by {
            assert(rest[i] == tones[i]);
        }
        lemma_strength_few(rest, longest);
        assert(tones[n - 1].1 <= longest);
        assert((n - 1) * longest + longest == n * longest) by (nonlinear_arith);
    } else {
        assert(tones.len() * longest == 0) by (nonlinear_arith)
            requires
                tones.len() == 0,
        ;
    }
}

/// The first bins of the tones that symbols rest on are bins of theirs, and every bin of
/// theirs counts to one.
proof fn lemma_bins_of(symbols: Seq<Symbol>)
    ensures
        forall|j: int|
            0 <= j < bins_of(symbols).len() ==> exists|i: int|
                0 <= i < symbols.len() && (#[trigger] symbols[i]).bin == #[trigger] bins_of(
                    symbols,
                )[j],
        forall|i: int| 0 <= i < symbols.len() ==> known(bins_of(symbols), (#[trigger] symbols[i]).bin),
    decreases symbols.len(),
{
    if symbols.len() > 0 {
        let rest = symbols.drop_last();
        let before = bins_of(rest);
        let bins = bins_of(symbols);
        lemma_bins_of(rest);
        let s = symbols.last();
        assert forall|j: int| 0 <= j < bins.len() implies exists|i: int|
            0 <= i < symbols.len() && (#[trigger] symbols[i]).bin == #[trigger] bins[j] by {
            if j < before.len() {
                assert(bins[j] == before[j]);
                let i = choose|i: int| 0 <= i < rest.len() && (#[trigger] rest[i]).bin == before[j];
                assert(symbols[i] == rest[i]);
            } else {
                assert(symbols[symbols.len() - 1].bin == bins[j]);
            }
        }
        assert forall|i: int| 0 <= i < symbols.len() implies known(
            bins,
            (#[trigger] symbols[i]).bin,
        ) by {
            if i < rest.len() {
                assert(rest[i] == symbols[i]);
                let j = choose|j: int|
                    0 <= j < before.len() && same_tone(rest[i].bin, #[trigger] before[j]);
                assert(bins[j] == before[j]);
            } else if !known(before, s.bin) {
                assert(same_tone(s.bin, bins[before.len() as int]));
            }
        }
    }
}

/// Stability is the share of the later half that rests on tones of the earlier: at least what
/// rests on bins that came before, and no more than what rests within two bins of one. So a
/// transmission that reuses its bins is stable, and one that never comes back is not.
pub proof fn law_stability_is_coming_back(k: &KeyingDetector, d: KeyingDetection)
    requires
        k.wf(),
        assessed(k.memory().symbols, k.shape().0, k.shape().1, k.shape().2, Some(d)),
    ensures
        ({
            let all = k.memory().symbols;
            let half = all.len() as int / 2;
            let late = all.skip(half);
            let span = frames_where(late, |s: Symbol| true);
            let back = frames_where(
                late,
                |s: Symbol|
                    exists|i: int| 0 <= i < half && s.bin == (#[trigger] all[i]).bin,
            );
            let near = frames_where(
                late,
                |s: Symbol|
                    exists|i: int| 0 <= i < half && -2 <= s.bin - (#[trigger] all[i]).bin <= 2,
            );
            &&& span > 0
            &&& back * ONE < (d.tone_stability + 1) * span
            &&& d.tone_stability * span <= near * ONE
            &&& back == span ==> d.tone_stability == ONE
            &&& near == 0 ==> d.tone_stability == 0
        }),
{
    let all = k.memory().symbols;
    let half = all.len() as int / 2;
    let early = all.take(half);
    let late = all.skip(half);
    let bins = bins_of(early);
    let every = |s: Symbol| true;
    let back = |s: Symbol| exists|i: int| 0 <= i < half && s.bin == (#[trigger] all[i]).bin;
    let near = |s: Symbol|
        exists|i: int| 0 <= i < half && -2 <= s.bin - (#[trigger] all[i]).bin <= 2;
    let hit = |s: Symbol| known(bins, s.bin);
    let never = |s: Symbol| false;
    lemma_parts(k, d);
    lemma_dwell_floor(late);
    lemma_where_all(late, every);
    lemma_bins_of(early);
    lemma_matched_where(late, bins, hit);
    lemma_matched_bounds(late, bins);
    lemma_where_none(late, never);
    assert forall|i: int| 0 <= i < late.len() && back(#[trigger] late[i]) implies hit(late[i]) by {
        let j = choose|j: int| 0 <= j < half && late[i].bin == (#[trigger] all[j]).bin;
        assert(early[j] == all[j]);
    }
    lemma_where_within(late, back, hit, never, never);
    assert forall|i: int| 0 <= i < late.len() && hit(#[trigger] late[i]) implies near(late[i]) by {
        let j = choose|j: int| 0 <= j < bins.len() && same_tone(late[i].bin, #[trigger] bins[j]);
        let m = choose|m: int| 0 <= m < early.len() && (#[trigger] early[m]).bin == bins[j];
        assert(early[m] == all[m]);
    }
    lemma_where_within(late, hit, near, never, never);
    lemma_where_within(late, back, near, never, never);
    let span = dwell(late);
    lemma_share(matched(late, bins), span, d.tone_stability as int);
}

/// The frequencies reported are those of bins that were heard, three at most, and there are
/// two or more exactly where some symbol rests more than two bins from the first.
pub proof fn law_the_tones_are_those_heard(k: &KeyingDetector, d: KeyingDetection, i: int)
    requires
        k.wf(),
        assessed(k.memory().symbols, k.shape().0, k.shape().1, k.shape().2, Some(d)),
        0 <= i < d.tones_hz.len(),
    ensures
        1 <= d.tones_hz.len() <= 3,
        d.tones_hz.len() >= 2 <==> exists|j: int|
            0 <= j < k.memory().symbols.len() && !(-2 <= (#[trigger] k.memory().symbols[j]).bin
                - k.memory().symbols[0].bin <= 2),
        exists|j: int|
            {
                &&& 0 <= j < k.memory().symbols.len()
                &&& d.tones_hz[i] * k.shape().2 <= (#[trigger] k.memory().symbols[j]).bin
                    * k.shape().1 * ONE
                &&& k.memory().symbols[j].bin * k.shape().1 * ONE < (d.tones_hz[i] + 1)
                    * k.shape().2
            },
{
    let all = k.memory().symbols;
    let (hop, rate, fft) = k.shape();
    let tones = tones_of(all);
    let kept = alphabet(tones);
    lemma_tones_fewer(all);
    lemma_second_tone(all);
    if tones.len() >= 2 {
        let j = choose|j: int|
            0 <= j < all.len() && !same_tone((#[trigger] all[j]).bin, all[0].bin);
        assert(!(-2 <= all[j].bin - all[0].bin <= 2));
    } else {
        assert forall|j: int| 0 <= j < all.len() implies -2 <= (#[trigger] all[j]).bin - all[0].bin
            <= 2 by {
            assert(same_tone(all[j].bin, all[0].bin));
        }
    }
    crate::order::lemma_order_exists(weakness(tones));
    let o = order_of(weakness(tones))[i] as int;
    lemma_tone_bins(all, o);
    let j = choose|j: int| 0 <= j < all.len() && (#[trigger] all[j]).bin == tones[o].0;
    let x = all[j].bin * rate * ONE;
    let q = d.tones_hz[i] as int;
    vstd::arithmetic::div_mod::lemma_fundamental_div_mod(x, fft);
    assert(fft * q == q * fft && (q + 1) * fft == q * fft + fft) by (nonlinear_arith);
}

/// A tone has the bin of some symbol.
proof fn lemma_tone_bins(symbols: Seq<Symbol>, k: int)
    requires
        0 <= k < tones_of(symbols).len(),
    ensures
        exists|j: int| 0 <= j < symbols.len() && (#[trigger] symbols[j]).bin == tones_of(symbols)[k].0,
    decreases symbols.len(),
{
    if symbols.len() > 0 {
        let rest = symbols.drop_last();
        let before = tones_of(rest);
        lemma_tone_of(before, symbols.last().bin, 0);
        if k < before.len() {
            lemma_tone_bins(rest, k);
            let j = choose|j: int| 0 <= j < rest.len() && (#[trigger] rest[j]).bin == before[k].0;
            assert(symbols[j] == rest[j]);
        } else {
            assert(symbols[symbols.len() - 1].bin == tones_of(symbols)[k].0);
        }
    }
}

/// There is an assessment exactly where there are eight symbols, and half of them last three
/// frames at least.
pub proof fn law_an_assessment_needs_symbols_that_last(
    k: &KeyingDetector,
    r: Option<KeyingDetection>,
)
    requires
        k.wf(),
        assessed(k.memory().symbols, k.shape().0, k.shape().1, k.shape().2, r),
    ensures
        r is Some <==> k.memory().symbols.len() >= 8 && 2 * k.memory().symbols.filter(
            |s: Symbol| s.frames < 3,
        ).len() <= k.memory().symbols.len(),
{
    let all = k.memory().symbols;
    let n = all.len() as int;
    if n >= 8 {
        let m = rank::median(durations(all));
        lemma_durations_below(all, 3, |s: Symbol| s.frames < 3);
        rank::lemma_rank_total(durations(all), n / 2);
        if m < 3 {
            rank::lemma_monotone(durations(all), m + 1, 3);
        } else {
            rank::lemma_monotone(durations(all), 3, m);
        }
    }
}

/// A clean transmission is reported: one that keeps to three bins at most, two of them further
/// apart than a tone is wide, uses them from the first half on, and changes twice a second, is
/// certain by six tenths at least, however it is timed.
pub proof fn law_a_clean_transmission_is_present(
    k: &KeyingDetector,
    d: KeyingDetection,
    a: usize,
    b: usize,
    c: usize,
    other: int,
)
    requires
        k.wf(),
        assessed(k.memory().symbols, k.shape().0, k.shape().1, k.shape().2, Some(d)),
        forall|i: int|
            0 <= i < k.memory().symbols.len() ==> (#[trigger] k.memory().symbols[i]).bin == a
                || k.memory().symbols[i].bin == b || k.memory().symbols[i].bin == c,
        forall|i: int|
            k.memory().symbols.len() / 2 <= i < k.memory().symbols.len() ==> exists|j: int|
                0 <= j < k.memory().symbols.len() / 2 && (#[trigger] k.memory().symbols[j]).bin == (
                #[trigger] k.memory().symbols[i]).bin,
        0 <= other < k.memory().symbols.len(),
        !(-2 <= k.memory().symbols[other].bin - k.memory().symbols[0].bin <= 2),
        (k.memory().symbols.len() - 1) * k.shape().1 >= 2 * (frames_where(
            k.memory().symbols,
            |s: Symbol| true,
        ) * k.shape().0),
    ensures
        d.confidence >= 600_000,
        d.alphabet_purity == ONE,
        d.tone_stability == ONE,
{
    let all = k.memory().symbols;
    let n = all.len() as int;
    let half = n / 2;
    let late = all.skip(half);
    law_purity_is_what_three_tones_explain(k, d, a, b, c, 0);
    law_stability_is_coming_back(k, d);
    let back = |s: Symbol| exists|i: int| 0 <= i < half && s.bin == (#[trigger] all[i]).bin;
    assert forall|i: int| 0 <= i < late.len() implies back(#[trigger] late[i]) by {
        assert(late[i] == all[half + i]);
        let j = choose|j: int| 0 <= j < half && (#[trigger] all[j]).bin == all[half + i].bin;
        assert(late[i].bin == all[j].bin);
    }
    lemma_where_all(late, back);
    lemma_where_all(late, |s: Symbol| true);
    lemma_second_tone(all);
    lemma_tones_fewer(all);
    assert(!same_tone(all[other].bin, all[0].bin));
    assert(tones_of(all).len() >= 2);
    lemma_parts(k, d);
    lemma_where_all(all, |s: Symbol| true);
    law_transitions_are_counted_over_the_dwells(k, d);
    let samples = dwell(all) * k.shape().0;
    let q = d.transitions_per_second as int;
    assert(q >= 2_000_000) by (nonlinear_arith)
        requires
            (n - 1) * k.shape().1 * 1_000_000 < (q + 1) * samples,
            (n - 1) * k.shape().1 >= 2 * samples,
            samples > 0,
    ;
    law_timing_supports_and_never_gates(k, d);
}

/// While a tone is held its symbol grows: a frame within two bins of the run under way, at
/// whatever level, adds a frame to it and nothing to what is remembered.
pub proof fn law_a_held_tone_grows(
    memory: KeyingMemory,
    run: Symbol,
    bin: usize,
    history: int,
    max_idle: int,
)
    requires
        memory.current == Some(run),
        -2 <= bin - run.bin <= 2,
        run.frames < u64::MAX,
        forall|i: int|
            0 <= i < memory.symbols.len() ==> (#[trigger] memory.symbols[i]).closed_at
                >= memory.clock + 1 - history,
    ensures
        ({
            let after = memory.after(bin, true, history, max_idle);
            &&& after.current matches Some(r) && r.bin == run.bin && r.frames == run.frames + 1
            &&& after.symbols == memory.symbols
            &&& after.idle == 0
            &&& after.clock == memory.clock + 1
        }),
{
    lemma_none_expired(memory.symbols, memory.clock + 1 - history);
}

/// A change of tone ends a symbol: a frame more than two bins from the run under way starts
/// another, and the run is remembered, last, with the frames it lasted, if it lasted two.
pub proof fn law_a_change_of_tone_ends_a_symbol(
    memory: KeyingMemory,
    run: Symbol,
    bin: usize,
    history: int,
    max_idle: int,
)
    requires
        memory.current == Some(run),
        !(-2 <= bin - run.bin <= 2),
        memory.symbols.len() < 512,
        0 <= memory.clock < u64::MAX,
        forall|i: int|
            0 <= i < memory.symbols.len() ==> (#[trigger] memory.symbols[i]).closed_at
                >= memory.clock + 1 - history,
    ensures
        ({
            let after = memory.after(bin, true, history, max_idle);
            &&& after.current matches Some(r) && r.bin == bin && r.frames == 1
            &&& run.frames < 2 ==> after.symbols == memory.symbols
            &&& run.frames >= 2 ==> after.symbols == memory.symbols.push(
                Symbol {
                    bin: run.bin,
                    frames: run.frames,
                    closed_at: (memory.clock + 1) as u64,
                },
            )
            &&& after.idle == 0
            &&& after.clock == memory.clock + 1
        }),
{
    lemma_none_expired(memory.symbols, memory.clock + 1 - history);
}

/// Silence ends a symbol once it has lasted: until then the run under way waits, and a gap
/// shorter than that does not cut it.
pub proof fn law_silence_ends_a_symbol_once_it_lasts(
    memory: KeyingMemory,
    run: Symbol,
    bin: usize,
    history: int,
    max_idle: int,
)
    requires
        memory.current == Some(run),
        memory.symbols.len() < 512,
        0 <= memory.clock < u64::MAX,
        forall|i: int|
            0 <= i < memory.symbols.len() ==> (#[trigger] memory.symbols[i]).closed_at
                >= memory.clock + 1 - history,
    ensures
        ({
            let after = memory.after(bin, false, history, max_idle);
            &&& after.idle == memory.idle + 1
            &&& memory.idle + 1 < max_idle ==> after.current == Some(run) && after.symbols
                == memory.symbols
            &&& memory.idle + 1 >= max_idle ==> after.current is None
            &&& memory.idle + 1 >= max_idle && run.frames >= 2 ==> after.symbols
                == memory.symbols.push(
                Symbol {
                    bin: run.bin,
                    frames: run.frames,
                    closed_at: (memory.clock + 1) as u64,
                },
            )
            &&& memory.idle + 1 >= max_idle && run.frames < 2 ==> after.symbols == memory.symbols
        }),
{
    lemma_none_expired(memory.symbols, memory.clock + 1 - history);
}

proof fn lemma_none_expired(symbols: Seq<Symbol>, cutoff: int)
    requires
        forall|i: int| 0 <= i < symbols.len() ==> (#[trigger] symbols[i]).closed_at >= cutoff,
    ensures
        unexpired(symbols, cutoff) == symbols,
{
    if symbols.len() > 0 {
        assert(symbols[0].closed_at >= cutoff);
    }
}

/// What is older than the history is forgotten, and nothing else: what is left after a frame that
/// changes nothing else are the newest symbols, from the first that closed within the history on.
pub proof fn law_what_is_old_is_forgotten(symbols: Seq<Symbol>, cutoff: int)
    requires
        forall|i: int, j: int|
            0 <= i < j < symbols.len() ==> (#[trigger] symbols[i]).closed_at <= (
            #[trigger] symbols[j]).closed_at,
    ensures
        unexpired(symbols, cutoff) == symbols.filter(|s: Symbol| s.closed_at >= cutoff),
    decreases symbols.len(),
{
    let keep = |s: Symbol| s.closed_at >= cutoff;
    if symbols.len() > 0 {
        let rest = symbols.drop_first();
        let one = seq![symbols.first()];
        assert(symbols =~= one + rest);
        Seq::<Symbol>::filter_distributes_over_add(one, rest, keep);
        reveal(Seq::filter);
        assert(one.drop_last() =~= Seq::empty());
        assert(one.drop_last().filter(keep) =~= Seq::empty());
        assert forall|i: int, j: int| 0 <= i < j < rest.len() implies (#[trigger] rest[i]).closed_at
            <= (#[trigger] rest[j]).closed_at by {
            assert(rest[i] == symbols[i + 1] && rest[j] == symbols[j + 1]);
        }
        if symbols.first().closed_at < cutoff {
            law_what_is_old_is_forgotten(rest, cutoff);
            assert(one.filter(keep) =~= Seq::empty());
            assert(symbols.filter(keep) =~= rest.filter(keep));
        } else {
            lemma_filter_keeps(symbols, keep);
        }
    } else {
        reveal(Seq::filter);
        assert(symbols.filter(keep) =~= symbols);
    }
}

proof fn lemma_filter_keeps(symbols: Seq<Symbol>, keep: spec_fn(Symbol) -> bool)
    requires
        forall|i: int| 0 <= i < symbols.len() ==> keep(#[trigger] symbols[i]),
    ensures
        symbols.filter(keep) == symbols,
    decreases symbols.len(),
{
    reveal(Seq::filter);
    if symbols.len() > 0 {
        let rest = symbols.drop_last();
        assert forall|i: int| 0 <= i < rest.len() implies keep(#[trigger] rest[i]) by {
            assert(rest[i] == symbols[i]);
        }
        lemma_filter_keeps(rest, keep);
        assert(keep(symbols[symbols.len() - 1]));
        assert(symbols.filter(keep) =~= symbols);
    }
}

/// A detector remembers 45 seconds, and waits half a second for a tone to come back: no fewer
/// frames than that takes, and no more than it takes.
pub proof fn law_a_detector_waits_half_a_second(k: &KeyingDetector, hop: int, rate: int, fft: int)
    requires
        k.is_fresh(hop, rate, fft),
        hop > 0,
        rate > 0,
    ensures
        (k.history() - 1) * hop < 45 * rate <= k.history() * hop,
        (k.max_idle() - 1) * hop * 2 < rate <= k.max_idle() * hop * 2,
        k.memory().symbols.len() == 0,
        k.memory().current is None,
{
    lemma_rounded_up(45 * rate, hop, k.history());
    lemma_rounded_up(rate, 2 * hop, k.max_idle());
    let m = k.max_idle();
    assert((m - 1) * (2 * hop) == (m - 1) * hop * 2 && m * (2 * hop) == m * hop * 2)
        by (nonlinear_arith);
}

proof fn lemma_rounded_up(x: int, y: int, q: int)
    requires
        y > 0,
        q == (x + y - 1) / y,
    ensures
        (q - 1) * y < x <= q * y,
{
    vstd::arithmetic::div_mod::lemma_fundamental_div_mod(x + y - 1, y);
    assert(y * q == q * y && (q - 1) * y == q * y - y) by (nonlinear_arith);
}

/// The strongest tone comes first: the first frequency reported is that of a bin that was heard,
/// within two bins of which as many frames were spent as on any bin at all.
pub proof fn law_the_strongest_tone_comes_first(k: &KeyingDetector, d: KeyingDetection)
    requires
        k.wf(),
        assessed(k.memory().symbols, k.shape().0, k.shape().1, k.shape().2, Some(d)),
    ensures
        d.tones_hz.len() >= 1,
        exists|j: int|
            {
                let all = k.memory().symbols;
                &&& 0 <= j < all.len()
                &&& d.tones_hz[0] * k.shape().2 <= (#[trigger] k.memory().symbols[j]).bin
                    * k.shape().1 * ONE
                &&& all[j].bin * k.shape().1 * ONE < (d.tones_hz[0] + 1) * k.shape().2
                &&& forall|a: usize|
                    #[trigger] frames_on(all, a) <= frames_where(
                        all,
                        |s: Symbol| -2 <= s.bin - all[j].bin <= 2,
                    )
            },
{
    let all = k.memory().symbols;
    let (hop, rate, fft) = k.shape();
    let tones = tones_of(all);
    let order = order_of(weakness(tones));
    lemma_tones_fewer(all);
    crate::order::lemma_order_exists(weakness(tones));
    let o = order[0] as int;
    lemma_tone_bins(all, o);
    let j = choose|j: int| 0 <= j < all.len() && (#[trigger] all[j]).bin == tones[o].0;
    let x = all[j].bin * rate * ONE;
    let q = d.tones_hz[0] as int;
    vstd::arithmetic::div_mod::lemma_fundamental_div_mod(x, fft);
    assert(fft * q == q * fft && (q + 1) * fft == q * fft + fft) by (nonlinear_arith);
    let near = |s: Symbol| -2 <= s.bin - all[j].bin <= 2;
    let mine = |s: Symbol| tone_of(tones, s.bin, 0) == o;
    let never = |s: Symbol| false;
    lemma_where_none(all, never);
    lemma_tone_strengths(all, o);
    assert forall|i: int| 0 <= i < all.len() && mine(#[trigger] all[i]) implies near(all[i]) by {
        lemma_tone_of(tones, all[i].bin, 0);
    }
    lemma_where_within(all, mine, near, never, never);
    assert forall|a: usize| #[trigger] frames_on(all, a) <= frames_where(all, near) by {
        let on = |s: Symbol| s.bin == a;
        let t = tone_of(tones, a, 0);
        lemma_tone_of(tones, a, 0);
        if t < tones.len() {
            let theirs = |s: Symbol| tone_of(tones, s.bin, 0) == t;
            lemma_tone_strengths(all, t);
            lemma_where_within(all, on, theirs, never, never);
            crate::order::lemma_order_complete(weakness(tones), order, t);
            let p = choose|p: int| 0 <= p < order.len() && #[trigger] order[p] == t;
            lemma_later_is_weaker(tones, order, 0, p);
        } else {
            assert forall|i: int| 0 <= i < all.len() implies !on(#[trigger] all[i]) by {
                assert(tone_of(tones, all[i].bin, 0) < tones.len());
            }
            lemma_where_none(all, on);
            lemma_where_within(all, near, near, never, never);
        }
    }
}

/// The frames spent on one bin.
pub open spec fn frames_on(symbols: Seq<Symbol>, bin: usize) -> int {
    frames_where(symbols, |s: Symbol| s.bin == bin)
}

} // verus!
