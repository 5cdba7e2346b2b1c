//! The analysis engine: interleaved audio in, detections out.
//!
//! Ring, framing, novelty detection, the primary detectors and the two spectrogram tiers in
//! one place, free of any transform, device or window. The caller pushes audio, takes the
//! frames that are ready, transforms them, and hands back their levels. It owns no threads.
use crate::analysis::background::{bucket_level, frames_in, middle};
use crate::analysis::direction::DirectionEstimate;
use crate::analysis::drift::{drift_search, is_drift};
use crate::analysis::keying::{KeyingDetection, KeyingDetector};
use crate::analysis::morse::{MorseDetection, MorseDetector};
use crate::analysis::novelty::{flushed, DetectionEvent, FrameGeometry, NoveltyDetector};
use crate::analysis::periodicity::{curve_of, estimate_period, is_period, PeriodicityResult};
use crate::analysis::spectrogram::{level_sum, DbRange, LongTermSummarizer, SpectrogramHistory};
use crate::analysis::statistics::{
    binned, clean, strung, summary, trimmed, window_frames, HealthWindow, SignalStats,
    SILENCE_FLOOR,
};
use crate::analysis::stft::StftStream;
use crate::analysis::structure::{
    residual_at, suppress_tones_and_transients, StructureScanner, StructureScore,
};
use crate::arith::ONE;
use crate::audio::ring_buffer::{frames_for, PcmRing, SAMPLE_BYTES};
use crate::audio::StreamFormat;
use crate::config::{Config, IgnoreBand};
use crate::pipeline::{
    channel_of, deinterleave, is_scan_image, is_scan_rows, is_verdict, keying_verdict, place,
    placed, scan_columns, scan_image, scan_rows, Detection, SCAN_COLUMNS,
};
use vstd::prelude::*;
use vstd::slice::slice_to_vec;

verus! {

/// The most rows a scan image may have.
pub const MAX_SCAN_ROWS: usize = 4096;

pub struct AnalysisEngine<T> {
    format: StreamFormat,
    geometry: FrameGeometry,
    direction_finding: bool,
    threshold_db: i64,
    keying_min_hz: i64,
    ring: PcmRing<T>,
    streams: Vec<StftStream<T>>,
    detector: NoveltyDetector,
    waterfall: SpectrogramHistory,
    excess_waterfall: SpectrogramHistory,
    longterm: SpectrogramHistory,
    summarizer: LongTermSummarizer,
    longterm_fps: u64,
    health: HealthWindow,
    keying: Option<KeyingDetector>,
    morse: Option<MorseDetector>,
    scanner: Option<StructureScanner>,
    structure: StructureScore,
    structure_tile: (usize, usize),
    peak_structure: StructureScore,
    peak_structure_at: u128,
    peak_keying: u64,
    peak_keying_at: u128,
    structure_countdown: u64,
    structure_interval: u64,
    scan_rows: Vec<(usize, usize)>,
    frames_analyzed: u64,
    gap_count: u64,
    gap_frames_total: u64,
    overrun_count: u64,
    last_gap_end_sample: u64,
    recent_peak: u32,
    spectrum: Vec<i32>,
}

/// What an engine holds.
pub struct EngineState<T> {
    pub format: StreamFormat,
    pub geometry: FrameGeometry,
    /// Whether per-channel analysis is running. When off the engine keeps one transform and
    /// a mono ring.
    pub direction_finding: bool,
    pub threshold_db: i64,
    pub keying_min_hz: i64,
    pub ring: PcmRing<T>,
    pub streams: Seq<StftStream<T>>,
    pub detector: NoveltyDetector,
    pub waterfall: SpectrogramHistory,
    /// The same spectrogram with each bin's learned background subtracted: only what
    /// changed.
    pub excess_waterfall: SpectrogramHistory,
    pub longterm: SpectrogramHistory,
    pub summarizer: LongTermSummarizer,
    /// The rate the long-term tier actually emits at, in millionths. Whole-number decimation
    /// of the frame rate rarely lands exactly on the configured one.
    pub longterm_fps: int,
    pub health: HealthWindow,
    pub keying: Option<KeyingDetector>,
    pub morse: Option<MorseDetector>,
    pub scanner: Option<StructureScanner>,
    pub structure: StructureScore,
    pub structure_tile: (usize, usize),
    /// Best structure score seen, and when: whether anything appeared at any point.
    pub peak_structure: StructureScore,
    pub peak_structure_at: int,
    /// Best keying confidence seen, and when.
    pub peak_keying: int,
    pub peak_keying_at: int,
    pub structure_countdown: int,
    pub structure_interval: int,
    pub scan_rows: Seq<(usize, usize)>,
    pub frames_analyzed: int,
    pub gap_count: int,
    pub gap_frames_total: int,
    pub overrun_count: int,
    /// Sample index of the end of the most recent gap, so events overlapping it are marked.
    pub last_gap_end: int,
    /// Decaying peak hold, so that whether there is any signal at all is answerable without
    /// rescanning the ring.
    pub recent_peak: int,
    /// The levels of the last frame.
    pub spectrum: Seq<i32>,
}

impl<T> View for AnalysisEngine<T> {
    type V = EngineState<T>;

    closed spec fn view(&self) -> EngineState<T> {
        EngineState {
            format: self.format,
            geometry: self.geometry,
            direction_finding: self.direction_finding,
            threshold_db: self.threshold_db,
            keying_min_hz: self.keying_min_hz,
            ring: self.ring,
            streams: self.streams@,
            detector: self.detector,
            waterfall: self.waterfall,
            excess_waterfall: self.excess_waterfall,
            longterm: self.longterm,
            summarizer: self.summarizer,
            longterm_fps: self.longterm_fps as int,
            health: self.health,
            keying: self.keying,
            morse: self.morse,
            scanner: self.scanner,
            structure: self.structure,
            structure_tile: self.structure_tile,
            peak_structure: self.peak_structure,
            peak_structure_at: self.peak_structure_at as int,
            peak_keying: self.peak_keying as int,
            peak_keying_at: self.peak_keying_at as int,
            structure_countdown: self.structure_countdown as int,
            structure_interval: self.structure_interval as int,
            scan_rows: self.scan_rows@,
            frames_analyzed: self.frames_analyzed as int,
            gap_count: self.gap_count as int,
            gap_frames_total: self.gap_frames_total as int,
            overrun_count: self.overrun_count as int,
            last_gap_end: self.last_gap_end_sample as int,
            recent_peak: self.recent_peak as int,
            spectrum: self.spectrum@,
        }
    }
}

/// A stream is one of a number that advance in lockstep.
pub open spec fn in_step<T: Copy>(s: StftStream<T>, size: int, hop: int, buffered: int, emitted: int) -> bool {
    &&& s.wf()
    &&& s.shape().size == size
    &&& s.shape().hop == hop
    &&& s.buffered().len() == buffered
    &&& s.emitted() == emitted
}

impl<T: Copy> EngineState<T> {
    pub open spec fn bins(self) -> int {
        self.geometry.bin_count()
    }

    /// Channels the ring holds: all of them, or one.
    pub open spec fn ring_channels(self) -> int {
        if self.direction_finding {
            self.format.channels as int
        } else {
            1
        }
    }

    pub open spec fn wf(self) -> bool {
        let frame = self.detector.frame();
        &&& self.format.sample_rate > 0
        &&& self.format.sample_rate == self.geometry.sample_rate
        &&& self.format.channels > 0
        &&& self.geometry.fft_size >= 2
        &&& 0 < self.geometry.hop <= self.geometry.fft_size
        &&& self.ring.wf()
        &&& self.ring.width() == self.ring_channels()
        &&& self.streams.len() == self.ring_channels()
        &&& forall|c: int|
            0 <= c < self.streams.len() ==> in_step(
                #[trigger] self.streams[c],
                self.geometry.fft_size as int,
                self.geometry.hop as int,
                self.streams[0].buffered().len() as int,
                self.streams[0].emitted(),
            )
        &&& self.detector.wf()
        &&& self.detector.settings().geometry == self.geometry
        &&& self.waterfall.wf()
        &&& self.waterfall.width() == self.bins()
        &&& self.waterfall.written() == frame
        &&& self.excess_waterfall.wf()
        &&& self.excess_waterfall.width() == self.bins()
        &&& self.excess_waterfall.written() == frame
        &&& self.summarizer.wf()
        &&& self.longterm.wf()
        &&& self.longterm.width() == self.summarizer.bins_of().len()
        &&& self.longterm.written() <= frame
        &&& self.health.wf()
        &&& self.keying matches Some(k) ==> k.wf() && k.memory().clock <= frame
        &&& self.morse matches Some(m) ==> m.wf() && m.run_frames() <= frame
        &&& self.scan_rows.len() <= MAX_SCAN_ROWS
        &&& self.frames_analyzed == frame
        &&& self.spectrum.len() == self.bins()
    }
}

/// Levels as every detector takes them: all of them numbers.
pub open spec fn known(levels: Seq<i32>) -> Seq<Option<i32>> {
    levels.map_values(|v: i32| Some(v))
}

pub open spec fn widened(levels: Seq<i32>) -> Seq<Option<i64>> {
    levels.map_values(|v: i32| Some(v as i64))
}

pub open spec fn given(levels: Seq<i64>) -> Seq<Option<i64>> {
    levels.map_values(|v: i64| Some(v))
}

fn as_known(levels: &[i32]) -> (r: Vec<Option<i32>>)
    ensures
        r@ == known(levels@),
{
    let mut r: Vec<Option<i32>> = Vec::with_capacity(levels.len());
    let mut i: usize = 0;
    while i < levels.len()
        invariant
            i <= levels.len(),
            r.len() == i,
            forall|k: int| 0 <= k < i ==> #[trigger] r[k] == Some(levels@[k]),
        decreases levels.len() - i,
    {
        r.push(Some(levels[i]));
        i = i + 1;
    }
    assert(r@ =~= known(levels@));
    r
}

fn as_widened(levels: &[i32]) -> (r: Vec<Option<i64>>)
    ensures
        r@ == widened(levels@),
{
    let mut r: Vec<Option<i64>> = Vec::with_capacity(levels.len());
    let mut i: usize = 0;
    while i < levels.len()
        invariant
            i <= levels.len(),
            r.len() == i,
            forall|k: int| 0 <= k < i ==> #[trigger] r[k] == Some(levels@[k] as i64),
        decreases levels.len() - i,
    {
        r.push(Some(levels[i] as i64));
        i = i + 1;
    }
    assert(r@ =~= widened(levels@));
    r
}

fn as_given(levels: &Vec<i64>) -> (r: Vec<Option<i64>>)
    ensures
        r@ == given(levels@),
{
    let mut r: Vec<Option<i64>> = Vec::with_capacity(levels.len());
    let mut i: usize = 0;
    while i < levels.len()
        invariant
            i <= levels.len(),
            r.len() == i,
            forall|k: int| 0 <= k < i ==> #[trigger] r[k] == Some(levels@[k]),
        decreases levels.len() - i,
    {
        r.push(Some(levels[i]));
        i = i + 1;
    }
    assert(r@ =~= given(levels@));
    r
}

/// The scan image with its tones and transients taken away.
pub open spec fn cleaned(image: Seq<u8>, width: int, height: int) -> Seq<u8> {
    Seq::new(
        (width * height) as nat,
        |i: int| residual_at(image, width, height, i % width, i / width) as u8,
    )
}

/// The structure of a picture is the best of its tiles, with the drift of the whole picture:
/// integrating along lines reaches strokes too faint to become ink, which no tile shows.
pub open spec fn is_structure_of(
    picture: Seq<u8>,
    columns: int,
    rows: int,
    scanner: StructureScanner,
    best: StructureScore,
    found: StructureScore,
    tile: (usize, usize),
) -> bool {
    &&& scanner.is_best(picture, columns, rows, (best, tile.0, tile.1))
    &&& is_drift(picture, columns, rows, found.drift)
    &&& found == (StructureScore { drift: found.drift, ..best })
}

/// What the structure scan has to say after a frame.
///
/// Sweeping the waterfall every frame would be wasteful when the picture takes seconds to
/// accumulate, so it waits out an interval between scans; and it says nothing of a waterfall
/// or a picture that is too small.
pub open spec fn structure_follows<T: Copy>(after: EngineState<T>, before: EngineState<T>) -> bool {
    let history = after.waterfall.held();
    let rows = before.scan_rows.len() as int;
    let columns = scan_columns(history.len() as int);
    if before.scanner is None {
        structure_kept(after, before) && after.structure_countdown == before.structure_countdown
    } else if before.structure_countdown > 0 {
        structure_kept(after, before) && after.structure_countdown == before.structure_countdown - 1
    } else if history.len() < 16 || rows < 16 {
        structure_kept(after, before) && after.structure_countdown == before.structure_interval
    } else {
        &&& after.structure_countdown == before.structure_interval
        &&& exists|image: Seq<u8>, best: StructureScore| #[trigger]
            is_scan_image(history, before.scan_rows, image) && #[trigger] is_structure_of(
                cleaned(image, columns, rows),
                columns,
                rows,
                before.scanner->Some_0,
                best,
                after.structure,
                after.structure_tile,
            )
        &&& after.structure.score > before.peak_structure.score ==> after.peak_structure
            == after.structure && after.peak_structure_at == before.ring.written() * ONE / (
        before.format.sample_rate as int)
        &&& after.structure.score <= before.peak_structure.score ==> after.peak_structure
            == before.peak_structure && after.peak_structure_at == before.peak_structure_at
    }
}

pub open spec fn structure_kept<T: Copy>(after: EngineState<T>, before: EngineState<T>) -> bool {
    &&& after.structure == before.structure
    &&& after.structure_tile == before.structure_tile
    &&& after.peak_structure == before.peak_structure
    &&& after.peak_structure_at == before.peak_structure_at
}

/// What the long-term tier holds after a frame.
pub open spec fn longterm_follows<T: Copy>(
    after: EngineState<T>,
    before: EngineState<T>,
    levels: Seq<i32>,
) -> bool {
    exists|summary: Option<Vec<i64>>|
        #![trigger after.summarizer.follows(&before.summarizer, levels, summary)]
        {
            &&& after.summarizer.follows(&before.summarizer, levels, summary)
            &&& match summary {
                None => after.longterm == before.longterm,
                Some(s) => after.longterm.follows(&before.longterm, given(s@)),
            }
        }
}

/// What the keying detector remembers after a frame.
pub open spec fn keying_follows<T: Copy>(
    after: EngineState<T>,
    before: EngineState<T>,
    powers: Seq<u64>,
) -> bool {
    match (before.keying, after.keying) {
        (None, None) => true,
        (Some(k), Some(n)) => {
            &&& n.shape() == k.shape()
            &&& n.history() == k.history()
            &&& n.max_idle() == k.max_idle()
            &&& exists|verdict: (usize, bool)|
                #![trigger is_verdict(after.detector.excess(), powers, before.threshold_db, before.keying_min_hz, before.geometry, verdict)]
                {
                    &&& is_verdict(
                        after.detector.excess(),
                        powers,
                        before.threshold_db,
                        before.keying_min_hz,
                        before.geometry,
                        verdict,
                    )
                    &&& n.memory() == k.memory().after(
                        verdict.0,
                        verdict.1,
                        k.history(),
                        k.max_idle(),
                    )
                }
        },
        _ => false,
    }
}

/// What the best keying confidence is after a frame: that of the frame, if it is higher.
pub open spec fn peak_keying_follows<T: Copy>(after: EngineState<T>, before: EngineState<T>) -> bool {
    exists|reading: Option<KeyingDetection>| #[trigger]
        keying_assessed(after.keying, reading) && if reading is Some && reading->Some_0.confidence
            > before.peak_keying {
            after.peak_keying == reading->Some_0.confidence && after.peak_keying_at
                == before.ring.written() * ONE / (before.format.sample_rate as int)
        } else {
            after.peak_keying == before.peak_keying && after.peak_keying_at
                == before.peak_keying_at
        }
}

pub open spec fn morse_follows<T: Copy>(
    after: EngineState<T>,
    before: EngineState<T>,
    levels: Seq<i32>,
) -> bool {
    match (before.morse, after.morse) {
        (None, None) => true,
        (Some(m), Some(n)) => n.follows(&m, known(levels)),
        _ => false,
    }
}

impl<T: Copy> AnalysisEngine<T> {
    pub open spec fn wf(&self) -> bool {
        self@.wf()
    }

    /// Listen to one frame's levels with the Morse detector. It reads the spectrum directly
    /// rather than the excess: its tone sits below the detection band, where the background
    /// model is not applied.
    fn update_morse(&mut self, levels: &Vec<Option<i32>>)
        requires
            old(self).morse matches Some(m) ==> m.wf() && m.run_frames() < u64::MAX,
        ensures
            *final(self) == (AnalysisEngine { morse: final(self).morse, ..*old(self) }),
            match (old(self).morse, final(self).morse) {
                (None, None) => true,
                (Some(m), Some(n)) => n.wf() && n.follows(&m, levels@) && n.run_frames()
                    <= m.run_frames() + 1,
                _ => false,
            },
    {
        if let Some(m) = &mut self.morse {
            m.push(levels.as_slice());
        }
    }

    /// Tell the keying detector what the frame just heard carried.
    fn update_keying(&mut self, powers: &[u64])
        requires
            old(self).keying matches Some(k) ==> k.wf() && k.memory().clock < u64::MAX,
            powers.len() == old(self).detector.excess().len(),
        ensures
            *final(self) == (AnalysisEngine { keying: final(self).keying, ..*old(self) }),
            keying_follows(final(self)@, old(self)@, powers@),
            match (old(self).keying, final(self).keying) {
                (None, None) => true,
                (Some(k), Some(n)) => n.wf() && n.memory().clock == k.memory().clock + 1,
                _ => false,
            },
    {
        if self.keying.is_some() {
            let verdict = keying_verdict(
                self.detector.excess_db().as_slice(),
                powers,
                self.threshold_db,
                self.keying_min_hz,
                self.geometry,
            );
            if let Some(k) = &mut self.keying {
                k.push(verdict.0, verdict.1);
            }
            assert(is_verdict(
                self@.detector.excess(),
                powers@,
                old(self)@.threshold_db,
                old(self)@.keying_min_hz,
                old(self)@.geometry,
                verdict,
            ));
        }
    }

    /// Keep the best keying confidence of the run.
    fn update_peak_keying(&mut self)
        requires
            old(self).keying matches Some(k) ==> k.wf(),
            old(self).format.sample_rate > 0,
        ensures
            *final(self) == (AnalysisEngine {
                peak_keying: final(self).peak_keying,
                peak_keying_at: final(self).peak_keying_at,
                ..*old(self)
            }),
            peak_keying_follows(final(self)@, old(self)@),
    {
        let reading = match &self.keying {
            None => None,
            Some(k) => k.evaluate(),
        };
        assert(keying_assessed(self@.keying, reading));
        if let Some(d) = &reading {
            if d.confidence > self.peak_keying {
                self.peak_keying = d.confidence;
                self.peak_keying_at = self.format.frames_to_seconds(self.ring.total_frames());
            }
        }
        assert(keying_assessed(self@.keying, reading));
    }

    /// Look for a drawing in the waterfall, when a look is due.
    fn update_structure(&mut self)
        requires
            old(self).waterfall.wf(),
            old(self).scan_rows.len() <= MAX_SCAN_ROWS,
            old(self).format.sample_rate > 0,
            old(self).ring.wf(),
        ensures
            *final(self) == (AnalysisEngine {
                structure: final(self).structure,
                structure_tile: final(self).structure_tile,
                peak_structure: final(self).peak_structure,
                peak_structure_at: final(self).peak_structure_at,
                structure_countdown: final(self).structure_countdown,
                ..*old(self)
            }),
            structure_follows(final(self)@, old(self)@),
    {
        let scanner: StructureScanner = match self.scanner {
            None => {
                return;
            },
            Some(s) => s,
        };
        if self.structure_countdown > 0 {
            self.structure_countdown = self.structure_countdown - 1;
            return;
        }
        self.structure_countdown = self.structure_interval;
        let frames: usize = self.waterfall.len();
        let rows: usize = self.scan_rows.len();
        if frames < 16 || rows < 16 {
            return;
        }
        let columns: usize = if frames < SCAN_COLUMNS {
            frames
        } else {
            SCAN_COLUMNS
        };
        let image = scan_image(&self.waterfall, &self.scan_rows);
        proof {
            assert(columns * rows == rows * columns) by (nonlinear_arith);
            assert(columns * rows <= 512 * 4096 && columns * columns <= 512 * 512 && rows * rows
                <= 4096 * 4096) by (nonlinear_arith)
                requires
                    0 <= columns <= 512,
                    0 <= rows <= 4096,
            ;
        }
        let clean = suppress_tones_and_transients(image.as_slice(), columns, rows);
        proof {
            let w = columns as int;
            let h = rows as int;
            assert forall|i: int| 0 <= i < clean.len() implies #[trigger] clean[i] == cleaned(
                image@,
                w,
                h,
            )[i] by {
                vstd::arithmetic::div_mod::lemma_fundamental_div_mod(i, w);
                let q = i / w;
                assert(q < h) by (nonlinear_arith)
                    requires
                        w * q <= i,
                        i < w * h,
                        w > 0,
                ;
                assert(w * q == q * w) by (nonlinear_arith);
                assert(clean[q * w + i % w] == residual_at(image@, w, h, i % w, q));
            }
            assert(clean@ =~= cleaned(image@, w, h));
        }
        let (best, x, y) = scanner.scan(clean.as_slice(), columns, rows);
        let score = StructureScore { drift: drift_search(clean.as_slice(), columns, rows), ..best };
        if score.score > self.peak_structure.score {
            self.peak_structure = score;
            self.peak_structure_at = self.format.frames_to_seconds(self.ring.total_frames());
        }
        self.structure = score;
        self.structure_tile = (x, y);
        assert(is_scan_image(self@.waterfall.held(), self@.scan_rows, image@));
        assert(is_structure_of(
            cleaned(image@, columns as int, rows as int),
            columns as int,
            rows as int,
            scanner,
            best,
            self@.structure,
            self@.structure_tile,
        ));
    }

    /// Analyze one frame: the levels and the powers of its bins, as its transform gave them,
    /// and how noise-like its power is between two bins. Returns the events that it ends.
    pub fn analyze_frame<F: Fn(usize, usize) -> u64>(
        &mut self,
        levels: &[i32],
        powers: &[u64],
        flatness: F,
    ) -> (r: Vec<DetectionEvent>)
        requires
            old(self).wf(),
            old(self)@.detector.has_room(),
            levels.len() == old(self)@.bins(),
            powers.len() == old(self)@.bins(),
            forall|start: usize, end: usize|
                start < end <= old(self)@.bins() ==> #[trigger] flatness.requires((start, end)),
        ensures
            final(self).wf(),
            final(self)@.detector.follows(&old(self)@.detector, known(levels@), flatness, r@),
            final(self)@.waterfall.follows(&old(self)@.waterfall, widened(levels@)),
            final(self)@.excess_waterfall.follows(
                &old(self)@.excess_waterfall,
                given(final(self)@.detector.excess()),
            ),
            morse_follows(final(self)@, old(self)@, levels@),
            keying_follows(final(self)@, old(self)@, powers@),
            peak_keying_follows(final(self)@, old(self)@),
            structure_follows(final(self)@, old(self)@),
            longterm_follows(final(self)@, old(self)@, levels@),
            final(self)@ == (EngineState {
                detector: final(self)@.detector,
                waterfall: final(self)@.waterfall,
                excess_waterfall: final(self)@.excess_waterfall,
                longterm: final(self)@.longterm,
                summarizer: final(self)@.summarizer,
                keying: final(self)@.keying,
                morse: final(self)@.morse,
                structure: final(self)@.structure,
                structure_tile: final(self)@.structure_tile,
                peak_structure: final(self)@.peak_structure,
                peak_structure_at: final(self)@.peak_structure_at,
                peak_keying: final(self)@.peak_keying,
                peak_keying_at: final(self)@.peak_keying_at,
                structure_countdown: final(self)@.structure_countdown,
                frames_analyzed: old(self)@.frames_analyzed + 1,
                spectrum: levels@,
                ..old(self)@
            }),
    {
        let ghost before = self@;
        proof {
            let b = self.geometry.bin_count();
            let n = self.detector.frame();
            assert(n + 1 <= (n + 1) * b) by (nonlinear_arith)
                requires
                    b >= 1,
                    n >= 0,
            ;
        }
        let plain = as_known(levels);
        let closed = self.detector.push_frame(plain.as_slice(), flatness);
        proof {
            self.detector.lemma_shape();
        }
        let wide = as_widened(levels);
        self.waterfall.push_db(wide.as_slice());
        let excess = as_given(self.detector.excess_db());
        self.excess_waterfall.push_db(excess.as_slice());
        let ghost heard = self@;
        self.update_morse(&plain);
        self.update_keying(powers);
        self.update_peak_keying();
        let ghost keyed = self@;
        self.update_structure();
        let ghost looked = self@;
        let summary = self.summarizer.push(levels);
        match &summary {
            None => {},
            Some(s) => {
                let frame = as_given(s);
                self.longterm.push_db(frame.as_slice());
            },
        }
        self.frames_analyzed = self.frames_analyzed + 1;
        self.spectrum = slice_to_vec(levels);
        proof {
            assert(self@.summarizer.follows(&before.summarizer, levels@, summary));
            assert(keyed.waterfall == heard.waterfall);
            assert(structure_follows(looked, keyed));
        }
        closed
    }
}

/// Frames of the waterfall: its time rounded up, and one at least.
pub open spec fn waterfall_frames(cfg: Config, g: FrameGeometry) -> int {
    let frames = frames_in(cfg.waterfall_seconds as int, g.hop as int, g.sample_rate as int);
    if cfg.waterfall_seconds <= 0 || frames < 1 {
        1
    } else {
        frames
    }
}

/// Frames of the long-term tier: an hour of it, which costs under a megabyte.
pub open spec fn longterm_frames(cfg: Config) -> int {
    let frames = (3600 * cfg.longterm_fps + ONE - 1) / (ONE as int);
    if frames < 1 {
        1
    } else {
        frames
    }
}

/// Frames that are averaged into one of the long-term tier: as many as come nearest the
/// configured rate, and one at least.
pub open spec fn frames_per_summary(cfg: Config, g: FrameGeometry) -> int {
    let step = g.hop * cfg.longterm_fps;
    let frames = (2 * (g.sample_rate * ONE) + step) / (2 * step);
    if frames < 1 {
        1
    } else {
        frames
    }
}

/// Frames between structure scans: two seconds of them, to the nearest.
pub open spec fn scan_interval(g: FrameGeometry) -> int {
    let frames = (4 * g.sample_rate + g.hop) / (2 * g.hop);
    if frames < 1 {
        1
    } else {
        frames
    }
}

/// The geometry of the frames that a configuration cuts a stream into.
pub open spec fn geometry_of(cfg: Config, format: StreamFormat) -> FrameGeometry {
    FrameGeometry { sample_rate: format.sample_rate, fft_size: cfg.fft_size, hop: cfg.hop }
}

/// The buffers that a configuration asks for can be had, and its settings make sense.
pub open spec fn is_sound(
    cfg: Config,
    format: StreamFormat,
    band_edges: Seq<u64>,
    scan_edges: Seq<u64>,
    morse: Option<(u64, u64)>,
) -> bool {
    let g = geometry_of(cfg, format);
    let ring_channels = if cfg.direction_finding {
        format.channels as int
    } else {
        1
    };
    let rate = format.sample_rate * ONE;
    &&& format.sample_rate > 0
    &&& format.channels > 0
    &&& cfg.fft_size >= 2
    &&& 0 < cfg.hop <= cfg.fft_size
    &&& cfg.pcm_ring_seconds >= 0
    &&& cfg.longterm_fps > 0
    &&& cfg.histogram_bins >= 2
    &&& cfg.background_time_constant_seconds > 0
    &&& frames_for(cfg.pcm_ring_seconds as int, format.sample_rate as int) * ring_channels
        * SAMPLE_BYTES <= usize::MAX
    &&& frames_in(
        4 * cfg.background_time_constant_seconds,
        cfg.hop as int,
        format.sample_rate as int,
    ) < usize::MAX
    &&& g.bin_count() * waterfall_frames(cfg, g) <= usize::MAX
    &&& band_edges.len() >= 2
    &&& (band_edges.len() - 1) * longterm_frames(cfg) <= usize::MAX
    &&& frames_per_summary(cfg, g) <= usize::MAX
    &&& 1 <= scan_edges.len() <= MAX_SCAN_ROWS + 1
    &&& forall|b: int| 0 <= b < band_edges.len() ==> #[trigger] band_edges[b] <= rate
    &&& forall|b: int| 0 <= b < scan_edges.len() ==> #[trigger] scan_edges[b] <= rate
    &&& morse matches Some((lo, hi)) ==> {
        &&& lo * cfg.fft_size / rate < usize::MAX
        &&& (hi * cfg.fft_size + rate - 1) / rate <= usize::MAX
    }
}

/// The range of the excess waterfall: a small positive range, not an absolute level.
pub open spec fn excess_range() -> DbRange {
    DbRange { min: -3_000_000i32, max: 30_000_000 }
}

/// The range of the other tiers, from the analysis floor to full scale.
pub open spec fn level_range() -> DbRange {
    DbRange { min: -120_000_000i32, max: 0 }
}

impl<T: Copy> AnalysisEngine<T> {
    /// An engine for a stream.
    ///
    /// `band_edges` are where the bands of the long-term tier meet and `scan_edges` where the
    /// rows of the scan image do, both ascending, in millionths of a hertz. `morse` is the
    /// band to watch for on/off keying, if any.
    pub fn new(
        cfg: &Config,
        format: StreamFormat,
        noise_sigmas: i64,
        silence: T,
        band_edges: Vec<u64>,
        scan_edges: &Vec<u64>,
        morse: Option<(u64, u64)>,
    ) -> (r: Self)
        requires
            is_sound(*cfg, format, band_edges@, scan_edges@, morse),
        ensures
            r.wf(),
            r@.format == format,
            r@.geometry == geometry_of(*cfg, format),
            r@.direction_finding == cfg.direction_finding,
            r@.threshold_db == cfg.novelty_threshold_db,
            r@.keying_min_hz == cfg.keying_min_hz,
            r@.ring.capacity() == frames_for(
                cfg.pcm_ring_seconds as int,
                format.sample_rate as int,
            ),
            r@.ring.quiet() == silence,
            r@.ring.written() == 0,
            r@.ring.held() == 0,
            r@.ring.resident() == Seq::<T>::empty(),
            r@.streams[0].buffered().len() == 0,
            r@.streams[0].emitted() == 0,
            r@.detector.is_fresh(geometry_of(*cfg, format), *cfg, noise_sigmas),
            r@.waterfall.held() == Seq::<Seq<u8>>::empty(),
            r@.waterfall.limit() == waterfall_frames(*cfg, geometry_of(*cfg, format)),
            r@.waterfall.scale() == level_range(),
            r@.excess_waterfall.held() == Seq::<Seq<u8>>::empty(),
            r@.excess_waterfall.limit() == waterfall_frames(*cfg, geometry_of(*cfg, format)),
            r@.excess_waterfall.scale() == excess_range(),
            r@.longterm.held() == Seq::<Seq<u8>>::empty(),
            r@.longterm.limit() == longterm_frames(*cfg),
            r@.longterm.scale() == level_range(),
            r@.summarizer.is_fresh(
                band_edges@,
                geometry_of(*cfg, format).bin_count(),
                format.sample_rate as int,
                frames_per_summary(*cfg, geometry_of(*cfg, format)),
            ),
            r@.longterm_fps == format.sample_rate * ONE / (cfg.hop * frames_per_summary(
                *cfg,
                geometry_of(*cfg, format),
            )),
            r@.health.held() == Seq::<Seq<int>>::empty(),
            r@.health.capacity() == window_frames(
                cfg.health_window_seconds as int,
                format.sample_rate as int,
            ),
            r@.health.bins() == cfg.histogram_bins,
            r@.keying is Some == cfg.detect_keying,
            r@.keying matches Some(k) ==> k.is_fresh(
                cfg.hop as int,
                format.sample_rate as int,
                cfg.fft_size as int,
            ),
            match (r@.morse, morse) {
                (None, None) => true,
                (Some(m), Some((lo, hi))) => m.is_fresh(
                    cfg.hop as int,
                    format.sample_rate as int,
                    cfg.fft_size as int,
                    lo as int,
                    hi as int,
                ),
                _ => false,
            },
            r@.scanner == (if cfg.detect_structure {
                Some(StructureScanner { tile_width: 64, tile_height: 64 })
            } else {
                None
            }),
            r@.structure.is_empty(),
            r@.structure_tile == (0usize, 0usize),
            r@.peak_structure.is_empty(),
            r@.peak_structure_at == 0,
            r@.peak_keying == 0,
            r@.peak_keying_at == 0,
            r@.structure_countdown == 0,
            r@.structure_interval == scan_interval(geometry_of(*cfg, format)),
            is_scan_rows(
                scan_edges@,
                geometry_of(*cfg, format).bin_count(),
                format.sample_rate as int,
                r@.scan_rows,
            ),
            r@.gap_count == 0,
            r@.gap_frames_total == 0,
            r@.overrun_count == 0,
            r@.last_gap_end == 0,
            r@.recent_peak == 0,
            r@.spectrum == Seq::new(r@.bins() as nat, |i: int| 0i32),
    {
        let geometry = FrameGeometry {
            sample_rate: format.sample_rate,
            fft_size: cfg.fft_size,
            hop: cfg.hop,
        };
        let bins: usize = geometry.bins();
        let ring_channels: usize = if cfg.direction_finding {
            format.channels
        } else {
            1
        };
        let rate: u128 = format.sample_rate as u128;
        let hop: u128 = cfg.hop as u128;
        proof {
            let w = cfg.waterfall_seconds as int;
            if w > 0 {
                assert(0 <= w * format.sample_rate <= 0x8000_0000_0000_0000 * 0x1_0000_0000)
                    by (nonlinear_arith)
                    requires
                        0 <= w <= 0x8000_0000_0000_0000,
                        0 <= format.sample_rate <= 0x1_0000_0000,
                ;
            }
            let f = cfg.longterm_fps as int;
            assert(0 < hop * f <= 0xffff_ffff_ffff_ffff * 0x7fff_ffff_ffff_ffff) by (nonlinear_arith)
                requires
                    0 < f <= 0x7fff_ffff_ffff_ffff,
                    0 < hop <= 0xffff_ffff_ffff_ffff,
            ;
            lemma_sizes_fit(*cfg, format, band_edges.len() - 1);
        }
        let fine: u128 = hop * 1_000_000;
        let tall: u128 = if cfg.waterfall_seconds <= 0 {
            1
        } else {
            (cfg.waterfall_seconds as u128 * rate + fine - 1) / fine
        };
        let waterfall_size: usize = if tall < 1 {
            1
        } else {
            tall as usize
        };
        assert(waterfall_size == waterfall_frames(*cfg, geometry));
        let hour: u128 = (3600 * (cfg.longterm_fps as u128) + 999_999) / 1_000_000;
        let longterm_size: usize = if hour < 1 {
            1
        } else {
            hour as usize
        };
        assert(longterm_size == longterm_frames(*cfg));
        let step: u128 = hop * cfg.longterm_fps as u128;
        let gathered: u128 = (2 * (rate * 1_000_000) + step) / (2 * step);
        let per_summary: usize = if gathered < 1 {
            1
        } else {
            gathered as usize
        };
        assert(per_summary == frames_per_summary(*cfg, geometry));
        let pause: u128 = (4 * rate + hop) / (2 * hop);
        proof {
            let h = cfg.hop as int;
            assert((4 * rate + h) / (2 * h) <= 2 * rate + 1) by (nonlinear_arith)
                requires
                    h >= 1,
                    rate >= 0,
            ;
            assert(0 < h * per_summary <= 0xffff_ffff_ffff_ffff * 0xffff_ffff_ffff_ffff)
                by (nonlinear_arith)
                requires
                    0 < h <= 0xffff_ffff_ffff_ffff,
                    0 < per_summary <= 0xffff_ffff_ffff_ffff,
            ;
        }
        let interval: u64 = if pause < 1 {
            1
        } else {
            pause as u64
        };
        let longterm_fps: u64 = (rate * 1_000_000 / (hop * per_summary as u128)) as u64;
        let bands: usize = band_edges.len() - 1;
        let rows = scan_rows(scan_edges, bins, format.sample_rate);
        let streams = Self::new_streams(ring_channels, cfg.fft_size, cfg.hop);
        let r = AnalysisEngine {
            format,
            geometry,
            direction_finding: cfg.direction_finding,
            threshold_db: cfg.novelty_threshold_db,
            keying_min_hz: cfg.keying_min_hz,
            ring: PcmRing::with_seconds(
                cfg.pcm_ring_seconds as u64,
                format.sample_rate,
                ring_channels,
                silence,
            ),
            streams,
            detector: NoveltyDetector::new(geometry, cfg, noise_sigmas),
            waterfall: SpectrogramHistory::new(
                bins,
                waterfall_size,
                DbRange { min: -120_000_000, max: 0 },
            ),
            excess_waterfall: SpectrogramHistory::new(
                bins,
                waterfall_size,
                DbRange { min: -3_000_000, max: 30_000_000 },
            ),
            longterm: SpectrogramHistory::new(
                bands,
                longterm_size,
                DbRange { min: -120_000_000, max: 0 },
            ),
            summarizer: LongTermSummarizer::new(
                band_edges,
                bins,
                format.sample_rate,
                per_summary,
            ),
            longterm_fps,
            health: HealthWindow::new(
                cfg.health_window_seconds,
                format.sample_rate,
                cfg.histogram_bins,
            ),
            keying: if cfg.detect_keying {
                Some(KeyingDetector::new(cfg.hop, format.sample_rate, cfg.fft_size))
            } else {
                None
            },
            morse: match morse {
                None => None,
                Some((lo, hi)) => Some(
                    MorseDetector::new(cfg.hop, format.sample_rate, cfg.fft_size, lo, hi),
                ),
            },
            scanner: if cfg.detect_structure {
                Some(StructureScanner { tile_width: 64, tile_height: 64 })
            } else {
                None
            },
            structure: StructureScore::empty(),
            structure_tile: (0, 0),
            peak_structure: StructureScore::empty(),
            peak_structure_at: 0,
            peak_keying: 0,
            peak_keying_at: 0,
            structure_countdown: 0,
            structure_interval: interval,
            scan_rows: rows,
            frames_analyzed: 0,
            gap_count: 0,
            gap_frames_total: 0,
            overrun_count: 0,
            last_gap_end_sample: 0,
            recent_peak: 0,
            spectrum: vec![0i32; geometry.bins()],
        };
        r
    }

    fn new_streams(n: usize, size: usize, hop: usize) -> (r: Vec<StftStream<T>>)
        requires
            size >= 2,
            0 < hop <= size,
        ensures
            r.len() == n,
            forall|c: int| 0 <= c < n ==> in_step(#[trigger] r[c], size as int, hop as int, 0, 0),
    {
        let mut r: Vec<StftStream<T>> = Vec::with_capacity(n);
        let mut c: usize = 0;
        while c < n
            invariant
                size >= 2,
                0 < hop <= size,
                c <= n,
                r.len() == c,
                forall|k: int|
                    0 <= k < c ==> in_step(#[trigger] r[k], size as int, hop as int, 0, 0),
            decreases n - c,
        {
            r.push(StftStream::new(size, hop));
            c = c + 1;
        }
        r
    }
}

/// The samples that a block gives to stream `c`: its own channel, or the downmix.
pub open spec fn share_of<T>(samples: Seq<T>, mono: Seq<T>, channels: int, each: bool, c: int) -> Seq<T> {
    if each {
        channel_of(samples, channels, c)
    } else {
        mono
    }
}

/// A peak hold after a block: it fades by a hundredth per block, and jumps to a higher peak.
pub open spec fn peak_after(held: int, block: int) -> int {
    if held * 99 / 100 > block {
        held * 99 / 100
    } else {
        block
    }
}

/// A stream that has handed out a frame and moved on by one hop.
pub open spec fn stream_advanced<T: Copy>(
    after: StftStream<T>,
    before: StftStream<T>,
    frame: Seq<T>,
    g: FrameGeometry,
) -> bool {
    &&& frame == before.buffered().take(g.fft_size as int)
    &&& after.buffered() == before.buffered().skip(g.hop as int)
    &&& after.emitted() == before.emitted() + 1
}

/// A sound stream that has handed out a frame.
spec fn stream_taken<T: Copy>(
    after: StftStream<T>,
    before: StftStream<T>,
    frame: Seq<T>,
    g: FrameGeometry,
) -> bool {
    &&& stream_advanced(after, before, frame, g)
    &&& after.wf()
    &&& after.shape() == before.shape()
}

/// Some samples make a frame at least, if they make whole frames.
proof fn lemma_whole_frames(samples: int, channels: int)
    requires
        samples > 0,
        channels > 0,
        samples % channels == 0,
    ensures
        samples / channels > 0,
{
    vstd::arithmetic::div_mod::lemma_fundamental_div_mod(samples, channels);
    if samples / channels <= 0 {
        assert(channels * (samples / channels) <= 0) by (nonlinear_arith)
            requires
                channels > 0,
                samples / channels <= 0,
        ;
    }
}

/// A stream with more samples at its end.
pub open spec fn stream_grown<T: Copy>(after: StftStream<T>, before: StftStream<T>, more: Seq<T>) -> bool {
    &&& after.shape() == before.shape()
    &&& after.emitted() == before.emitted()
    &&& after.buffered() == before.buffered() + more
}

impl<T: Copy> AnalysisEngine<T> {
    /// Feed interleaved audio: the samples as they came, their downmix, the downmix as
    /// amplitudes for the health readouts, and the highest amplitude among the samples.
    ///
    /// The frames that are then ready are taken with [`AnalysisEngine::next_frames`].
    pub fn push_interleaved(
        &mut self,
        samples: &[T],
        mono: &[T],
        amplitudes: &[Option<i32>],
        block_peak: u32,
    )
        requires
            old(self).wf(),
            samples.len() as int % old(self)@.format.channels as int == 0,
            mono.len() == samples.len() as int / old(self)@.format.channels as int,
            old(self)@.ring.written() + mono.len() <= u64::MAX,
            old(self)@.streams[0].buffered().len() + mono.len() <= usize::MAX,
            amplitudes.len() == mono.len(),
        ensures
            final(self).wf(),
            samples.len() == 0 ==> final(self)@ == old(self)@,
            samples.len() > 0 ==> {
                let each = old(self)@.direction_finding;
                let block = if each {
                    samples@
                } else {
                    mono@
                };
                let before = old(self)@.ring;
                let after = final(self)@.ring;
                &&& after.width() == before.width()
                &&& after.capacity() == before.capacity()
                &&& after.quiet() == before.quiet()
                &&& after.written() == before.written() + mono.len()
                &&& after.held() == crate::audio::ring_buffer::more(
                    before.held(),
                    mono.len() as int,
                    before.capacity(),
                )
                &&& after.resident() == crate::audio::ring_buffer::tail(
                    before.resident() + block,
                    before.capacity() * before.width(),
                )
                &&& forall|c: int|
                    0 <= c < old(self)@.streams.len() ==> stream_grown(
                        #[trigger] final(self)@.streams[c],
                        old(self)@.streams[c],
                        share_of(
                            samples@,
                            mono@,
                            old(self)@.format.channels as int,
                            each,
                            c,
                        ),
                    )
                &&& final(self)@.health.capacity() == old(self)@.health.capacity()
                &&& final(self)@.health.bins() == old(self)@.health.bins()
                &&& final(self)@.health.held() == trimmed(
                    old(self)@.health.held().push(clean(amplitudes@)),
                    old(self)@.health.capacity(),
                )
                &&& final(self)@.recent_peak == peak_after(
                    old(self)@.recent_peak,
                    block_peak as int,
                )
                &&& final(self)@ == (EngineState {
                    ring: final(self)@.ring,
                    streams: final(self)@.streams,
                    health: final(self)@.health,
                    recent_peak: final(self)@.recent_peak,
                    ..old(self)@
                })
            },
    {
        if samples.len() == 0 {
            return;
        }
        let faded: u32 = (self.recent_peak as u64 * 99 / 100) as u32;
        self.recent_peak = if faded > block_peak {
            faded
        } else {
            block_peak
        };
        let channels: usize = self.format.channels;
        proof {
            lemma_whole_frames(samples.len() as int, channels as int);
        }
        self.health.push(amplitudes);
        let ghost g = self.geometry;
        let ghost buffered = self.streams@[0].buffered().len() as int;
        let ghost emitted = self.streams@[0].emitted();
        proof {
            lemma_one_channel(mono.len() as int);
        }
        if self.direction_finding {
            self.ring.push_interleaved(samples);
        } else {
            self.ring.push_interleaved(mono);
        }
        let each: bool = self.direction_finding;
        let count: usize = self.streams.len();
        let ghost this = *self;
        let mut c: usize = 0;
        while c < count
            invariant
                *self == (AnalysisEngine { streams: self.streams, ..this }),
                this.streams == old(self).streams,
                this.direction_finding == each,
                count == this.streams.len(),
                self.streams.len() == count,
                this.format.channels == channels,
                each ==> count == channels,
                channels > 0,
                samples.len() as int % channels as int == 0,
                mono.len() == samples.len() as int / channels as int,
                buffered + mono.len() <= usize::MAX,
                c <= count,
                forall|k: int|
                    0 <= k < count ==> in_step(
                        #[trigger] this.streams@[k],
                        g.fft_size as int,
                        g.hop as int,
                        buffered,
                        emitted,
                    ),
                forall|k: int|
                    0 <= k < c ==> stream_grown(
                        #[trigger] self.streams@[k],
                        this.streams@[k],
                        share_of(samples@, mono@, channels as int, each, k),
                    ),
                forall|k: int| c <= k < count ==> #[trigger] self.streams@[k] == this.streams@[k],
            decreases count - c,
        {
            assert(in_step(
                this.streams@[c as int],
                g.fft_size as int,
                g.hop as int,
                buffered,
                emitted,
            ));
            assert(self.streams@[c as int] == this.streams@[c as int]);
            if each {
                let own = deinterleave(samples, channels, c);
                self.streams[c].push(own.as_slice());
            } else {
                self.streams[c].push(mono);
            }
            c = c + 1;
        }
        proof {
            assert forall|k: int| 0 <= k < count implies in_step(
                #[trigger] self@.streams[k],
                g.fft_size as int,
                g.hop as int,
                buffered + mono.len(),
                emitted,
            ) by {
                assert(stream_grown(
                    self.streams@[k],
                    this.streams@[k],
                    share_of(samples@, mono@, channels as int, each, k),
                ));
                assert(in_step(
                    this.streams@[k],
                    g.fft_size as int,
                    g.hop as int,
                    buffered,
                    emitted,
                ));
            }
            assert(in_step(
                self@.streams[0],
                g.fft_size as int,
                g.hop as int,
                buffered + mono.len(),
                emitted,
            ));
        }
    }

    /// The next frame of every stream, if enough samples are there. The streams advance in
    /// lockstep: they are fed identical counts, so all have a frame ready or none has.
    #[verifier::spinoff_prover]
    pub fn next_frames(&mut self) -> (r: Option<Vec<Vec<T>>>)
        requires
            old(self).wf(),
            old(self)@.streams[0].emitted() < u64::MAX,
        ensures
            final(self).wf(),
            final(self)@ == (EngineState { streams: final(self)@.streams, ..old(self)@ }),
            final(self)@.streams.len() == old(self)@.streams.len(),
            match r {
                None => {
                    &&& old(self)@.streams[0].buffered().len() < old(self)@.geometry.fft_size
                    &&& final(self)@.streams == old(self)@.streams
                },
                Some(frames) => {
                    &&& old(self)@.streams[0].buffered().len() >= old(self)@.geometry.fft_size
                    &&& frames.len() == old(self)@.streams.len()
                    &&& forall|c: int|
                        0 <= c < frames.len() ==> stream_advanced(
                            final(self)@.streams[c],
                            old(self)@.streams[c],
                            (#[trigger] frames[c])@,
                            old(self)@.geometry,
                        )
                },
            },
    {
        let ghost g = self.geometry;
        let ghost buffered = self.streams@[0].buffered().len() as int;
        let ghost emitted = self.streams@[0].emitted();
        let count: usize = self.streams.len();
        let ghost this = *self;
        proof {
            assert(in_step(
                self@.streams[0],
                g.fft_size as int,
                g.hop as int,
                buffered,
                emitted,
            ));
            assert forall|k: int| 0 <= k < count implies in_step(
                #[trigger] this.streams@[k],
                g.fft_size as int,
                g.hop as int,
                buffered,
                emitted,
            ) by {
                assert(in_step(
                    this@.streams[k],
                    g.fft_size as int,
                    g.hop as int,
                    buffered,
                    emitted,
                ));
            }
        }
        let mut frames: Vec<Vec<T>> = Vec::with_capacity(count);
        let mut c: usize = 0;
        while c < count
            invariant
                *self == (AnalysisEngine { streams: self.streams, ..this }),
                this == *old(self),
                this@.wf(),
                buffered == this.streams@[0].buffered().len(),
                emitted == this.streams@[0].emitted(),
                count == this.streams.len(),
                count > 0,
                self.streams.len() == count,
                g == this.geometry,
                emitted < u64::MAX,
                c <= count,
                forall|k: int|
                    0 <= k < count ==> in_step(
                        #[trigger] this.streams@[k],
                        g.fft_size as int,
                        g.hop as int,
                        buffered,
                        emitted,
                    ),
                forall|k: int| c <= k < count ==> #[trigger] self.streams@[k] == this.streams@[k],
                c > 0 ==> buffered >= g.fft_size,
                frames.len() == c,
                forall|k: int|
                    0 <= k < c ==> stream_taken(
                        self.streams@[k],
                        this.streams@[k],
                        (#[trigger] frames[k])@,
                        g,
                    ),
            decreases count - c,
        {
            assert(in_step(
                this.streams@[c as int],
                g.fft_size as int,
                g.hop as int,
                buffered,
                emitted,
            ));
            assert(self.streams@[c as int] == this.streams@[c as int]);
            match self.streams[c].next_frame() {
                None => {
                    assert(c == 0);
                    assert(self.streams@ =~= this.streams@);
                    return None;
                },
                Some((_, frame)) => {
                    assert(stream_taken(
                        self.streams@[c as int],
                        this.streams@[c as int],
                        frame@,
                        g,
                    ));
                    frames.push(frame);
                },
            }
            c = c + 1;
        }
        proof {
            assert forall|k: int| 0 <= k < count implies in_step(
                #[trigger] self@.streams[k],
                g.fft_size as int,
                g.hop as int,
                buffered - g.hop,
                emitted + 1,
            ) by {
                assert(stream_taken(self.streams@[k], this.streams@[k], frames[k]@, g));
                assert(in_step(
                    this.streams@[k],
                    g.fft_size as int,
                    g.hop as int,
                    buffered,
                    emitted,
                ));
            }
            assert(in_step(
                self@.streams[0],
                g.fft_size as int,
                g.hop as int,
                buffered - g.hop,
                emitted + 1,
            ));
        }
        proof {
            assert forall|k: int| 0 <= k < frames.len() implies stream_advanced(
                self@.streams[k],
                old(self)@.streams[k],
                (#[trigger] frames[k])@,
                old(self)@.geometry,
            ) by {
                assert(stream_taken(self.streams@[k], this.streams@[k], frames[k]@, g));
            }
        }
        Some(frames)
    }
}

/// Everything a display reads. Times and ratios are in millionths.
#[derive(Debug)]
pub struct AnalysisSnapshot {
    pub format: StreamFormat,
    pub stats: SignalStats,
    pub histogram: Vec<u64>,
    pub spectrum_db: Vec<i32>,
    pub background_db: Vec<Option<i32>>,
    pub excess_db: Vec<i64>,
    pub direction: DirectionEstimate,
    pub periodicity: Option<PeriodicityResult>,
    /// Time of audio processed, including synthesized gap fill.
    pub timeline_seconds: u128,
    pub frames_analyzed: u64,
    pub gap_count: u64,
    pub gap_seconds: u128,
    pub overrun_count: u64,
    pub warmup_progress: u64,
    pub open_events: usize,
    pub is_silent: bool,
    /// Binary keying, when enough symbols have been seen to judge.
    pub keying: Option<KeyingDetection>,
    /// A single low tone switched on and off.
    pub morse: Option<MorseDetection>,
    /// Best drawn-structure score across the waterfall, and the tile it came from.
    pub structure: StructureScore,
    pub structure_tile: (usize, usize),
}

/// `r` is what the keying detector makes of what it remembers, if it is on.
pub open spec fn keying_assessed(k: Option<KeyingDetector>, r: Option<KeyingDetection>) -> bool {
    match k {
        None => r is None,
        Some(d) => crate::analysis::keying::assessed(
            d.memory().symbols,
            d.shape().0,
            d.shape().1,
            d.shape().2,
            r,
        ),
    }
}

pub open spec fn morse_assessed(m: Option<MorseDetector>, r: Option<MorseDetection>) -> bool {
    match m {
        None => r is None,
        Some(d) => crate::analysis::morse::assessed(
            d.memory(),
            d.shape().0,
            d.shape().1,
            d.shape().2,
            r,
        ),
    }
}

impl<T: Copy> AnalysisEngine<T> {
    /// Record a timeline gap: the endpoint went away, or loopback went idle. Silence is
    /// inserted so the clock stays honest, and in-flight events are abandoned because their
    /// continuity across the gap would be a fiction.
    ///
    /// The silence still has to travel through the analysis chain, or the spectrogram would
    /// splice the two sides of the gap together: it is left for
    /// [`AnalysisEngine::next_frames`].
    pub fn push_gap(&mut self, frames: usize)
        requires
            old(self).wf(),
            old(self)@.ring.written() + frames <= u64::MAX,
            old(self)@.gap_frames_total + frames <= u64::MAX,
            old(self)@.gap_count < u64::MAX,
        ensures
            final(self).wf(),
            frames == 0 ==> final(self)@ == old(self)@,
            frames > 0 ==> {
                let before = old(self)@.ring;
                let after = final(self)@.ring;
                &&& after.width() == before.width()
                &&& after.capacity() == before.capacity()
                &&& after.quiet() == before.quiet()
                &&& after.written() == before.written() + frames
                &&& after.held() == crate::audio::ring_buffer::more(
                    before.held(),
                    frames as int,
                    before.capacity(),
                )
                &&& after.resident() == crate::audio::ring_buffer::tail(
                    before.resident() + Seq::new(
                        (frames * before.width()) as nat,
                        |i: int| before.quiet(),
                    ),
                    before.capacity() * before.width(),
                )
                &&& forall|c: int|
                    0 <= c < old(self)@.streams.len() ==> {
                        &&& (#[trigger] final(self)@.streams[c]).buffered() == Seq::new(
                            frames as nat,
                            |i: int| before.quiet(),
                        )
                        &&& final(self)@.streams[c].emitted() == old(self)@.streams[c].emitted()
                    }
                &&& final(self)@.detector.open().len() == 0
                &&& final(self)@.detector.settings() == old(self)@.detector.settings()
                &&& final(self)@.detector.ignored() == old(self)@.detector.ignored()
                &&& final(self)@.detector.model() == old(self)@.detector.model()
                &&& final(self)@.detector.frame() == old(self)@.detector.frame()
                &&& final(self)@.detector.excess() == old(self)@.detector.excess()
                &&& final(self)@.summarizer.gathered() == 0
                &&& final(self)@.summarizer.edges_of() == old(self)@.summarizer.edges_of()
                &&& final(self)@.summarizer.bins_of() == old(self)@.summarizer.bins_of()
                &&& final(self)@.summarizer.per_summary() == old(self)@.summarizer.per_summary()
                &&& match (old(self)@.keying, final(self)@.keying) {
                    (None, None) => true,
                    (Some(k), Some(n)) => n.memory().symbols.len() == 0 && n.memory().current is None
                        && n.memory().idle == 0 && n.memory().clock == k.memory().clock && n.shape()
                        == k.shape() && n.history() == k.history() && n.max_idle() == k.max_idle(),
                    _ => false,
                }
                &&& final(self)@ == (EngineState {
                    ring: final(self)@.ring,
                    streams: final(self)@.streams,
                    detector: final(self)@.detector,
                    summarizer: final(self)@.summarizer,
                    keying: final(self)@.keying,
                    gap_count: old(self)@.gap_count + 1,
                    gap_frames_total: old(self)@.gap_frames_total + frames,
                    last_gap_end: after.written(),
                    ..old(self)@
                })
            },
    {
        if frames == 0 {
            return;
        }
        let ghost g = self.geometry;
        let ghost emitted = self.streams@[0].emitted();
        self.gap_count = self.gap_count + 1;
        self.gap_frames_total = self.gap_frames_total + frames as u64;
        self.ring.push_silence(frames);
        self.last_gap_end_sample = self.ring.total_frames();
        self.detector.reset_events();
        self.summarizer.reset();
        if let Some(k) = &mut self.keying {
            // Symbol timing across a gap would be fiction.
            k.reset();
        }
        let quiet: T = self.ring.silence();
        let silence: Vec<T> = silent(frames, quiet);
        let count: usize = self.streams.len();
        let ghost this = *self;
        let mut c: usize = 0;
        while c < count
            invariant
                *self == (AnalysisEngine { streams: self.streams, ..this }),
                this.streams == old(self).streams,
                old(self)@.wf(),
                g == old(self)@.geometry,
                emitted == old(self)@.streams[0].emitted(),
                count == this.streams.len(),
                self.streams.len() == count,
                silence@ == Seq::new(frames as nat, |i: int| quiet),
                c <= count,
                forall|k: int| c <= k < count ==> #[trigger] self.streams@[k] == this.streams@[k],
                forall|k: int|
                    0 <= k < c ==> {
                        &&& (#[trigger] self.streams@[k]).buffered() == silence@
                        &&& in_step(
                            self.streams@[k],
                            g.fft_size as int,
                            g.hop as int,
                            frames as int,
                            emitted,
                        )
                    },
            decreases count - c,
        {
            proof {
                assert(in_step(
                    old(self)@.streams[c as int],
                    g.fft_size as int,
                    g.hop as int,
                    old(self)@.streams[0].buffered().len() as int,
                    emitted,
                ));
                assert(self.streams@[c as int] == this.streams@[c as int]);
            }
            self.streams[c].discard_partial();
            self.streams[c].push(silence.as_slice());
            assert(self.streams@[c as int].buffered() =~= silence@);
            c = c + 1;
        }
        proof {
            assert forall|k: int| 0 <= k < count implies in_step(
                #[trigger] self@.streams[k],
                g.fft_size as int,
                g.hop as int,
                frames as int,
                emitted,
            ) by {
                assert(self.streams@[k].buffered() == silence@);
            }
            assert forall|k: int| 0 <= k < count implies {
                &&& (#[trigger] self@.streams[k]).buffered() == silence@
                &&& self@.streams[k].emitted() == old(self)@.streams[k].emitted()
            } by {
                assert(self.streams@[k].buffered() == silence@);
                assert(in_step(
                    old(self)@.streams[k],
                    g.fft_size as int,
                    g.hop as int,
                    old(self)@.streams[0].buffered().len() as int,
                    emitted,
                ));
            }
        }
    }

    /// Place an event on the capture timeline, with its bearing.
    pub fn finish_detection(&self, event: DetectionEvent, direction: DirectionEstimate) -> (r: Detection)
        requires
            event.start_frame * self@.geometry.hop <= u64::MAX,
            event.end_frame * self@.geometry.hop + self@.geometry.fft_size <= u64::MAX,
        ensures
            r == placed(
                event,
                direction,
                self@.geometry.hop as int,
                self@.geometry.fft_size as int,
                self@.last_gap_end,
            ),
    {
        place(
            event,
            direction,
            self.geometry.hop,
            self.geometry.fft_size,
            self.last_gap_end_sample,
        )
    }

    /// Close any events still open: end of stream, or before a device change.
    pub fn flush(&mut self) -> (r: Vec<DetectionEvent>)
        requires
            old(self).wf(),
        ensures
            final(self).wf(),
            final(self)@ == (EngineState { detector: final(self)@.detector, ..old(self)@ }),
            final(self)@.detector.open().len() == 0,
            final(self)@.detector.settings() == old(self)@.detector.settings(),
            final(self)@.detector.ignored() == old(self)@.detector.ignored(),
            final(self)@.detector.model() == old(self)@.detector.model(),
            final(self)@.detector.frame() == old(self)@.detector.frame(),
            final(self)@.detector.excess() == old(self)@.detector.excess(),
            r@ == flushed(
                old(self)@.detector.open(),
                old(self)@.detector.settings().min_frames,
                old(self)@.detector.settings().geometry,
            ),
    {
        self.detector.flush()
    }

    /// Replace the muted frequency ranges without disturbing the background estimate: muting
    /// a band mid-session must not restart the warm-up.
    pub fn set_ignore_bands(&mut self, bands: &Vec<IgnoreBand>)
        requires
            old(self).wf(),
        ensures
            final(self).wf(),
            final(self)@ == (EngineState { detector: final(self)@.detector, ..old(self)@ }),
            final(self)@.detector.settings() == old(self)@.detector.settings(),
            final(self)@.detector.model() == old(self)@.detector.model(),
            final(self)@.detector.open() == old(self)@.detector.open(),
            final(self)@.detector.frame() == old(self)@.detector.frame(),
            final(self)@.detector.excess() == old(self)@.detector.excess(),
            final(self)@.detector.ignores(bands@),
    {
        self.detector.set_ignore_bands(bands);
    }

    /// Turn the primary detectors on or off without disturbing the background model, so that
    /// toggling does not restart the warm-up. One that is on already stays as it is.
    pub fn set_detectors(&mut self, keying: bool, structure: bool)
        requires
            old(self).wf(),
        ensures
            final(self).wf(),
            final(self)@ == (EngineState {
                keying: final(self)@.keying,
                scanner: final(self)@.scanner,
                structure: final(self)@.structure,
                ..old(self)@
            }),
            keying && old(self)@.keying is Some ==> final(self)@.keying == old(self)@.keying,
            keying && old(self)@.keying is None ==> {
                &&& final(self)@.keying matches Some(k)
                &&& k.is_fresh(
                    old(self)@.geometry.hop as int,
                    old(self)@.geometry.sample_rate as int,
                    old(self)@.geometry.fft_size as int,
                )
            },
            !keying ==> final(self)@.keying is None,
            structure && old(self)@.scanner is Some ==> final(self)@.scanner == old(self)@.scanner,
            structure && old(self)@.scanner is None ==> final(self)@.scanner == Some(
                StructureScanner { tile_width: 64, tile_height: 64 },
            ),
            !structure ==> final(self)@.scanner is None,
            !structure && old(self)@.scanner is Some ==> final(self)@.structure.is_empty(),
            structure || old(self)@.scanner is None ==> final(self)@.structure == old(
                self,
            )@.structure,
    {
        if keying {
            if self.keying.is_none() {
                self.keying =
                Some(
                    KeyingDetector::new(
                        self.geometry.hop,
                        self.geometry.sample_rate,
                        self.geometry.fft_size,
                    ),
                );
                proof {
                    self.detector.lemma_shape();
                }
            }
        } else {
            self.keying = None;
        }
        if structure {
            if self.scanner.is_none() {
                self.scanner = Some(StructureScanner { tile_width: 64, tile_height: 64 });
            }
        } else if self.scanner.is_some() {
            self.scanner = None;
            self.structure = StructureScore::empty();
        }
    }

    /// Count a block that the capture lost.
    pub fn note_overrun(&mut self)
        requires
            old(self).wf(),
            old(self)@.overrun_count < u64::MAX,
        ensures
            final(self).wf(),
            final(self)@ == (EngineState {
                overrun_count: old(self)@.overrun_count + 1,
                ..old(self)@
            }),
    {
        self.overrun_count = self.overrun_count + 1;
    }

    /// Shape of the audio actually held in the ring, which is what a triggered capture
    /// writes. Mono unless direction finding is on.
    pub fn ring_format(&self) -> (r: StreamFormat)
        requires
            self.wf(),
        ensures
            r.sample_rate == self@.format.sample_rate,
            r.channels == self@.ring_channels(),
            r.channel_mask == if self@.ring_channels() == self@.format.channels {
                self@.format.channel_mask
            } else {
                0
            },
            r.sample_format == self@.format.sample_format,
    {
        let channels: usize = if self.direction_finding {
            self.format.channels
        } else {
            1
        };
        StreamFormat::new(
            self.format.sample_rate,
            channels,
            if channels == self.format.channels {
                self.format.channel_mask
            } else {
                0
            },
            self.format.sample_format,
        )
    }

    /// Whether the stream currently holds essentially nothing. Reads the decaying peak hold
    /// rather than rescanning the ring.
    pub fn is_silent(&self) -> (r: bool)
        ensures
            r == (self@.recent_peak <= SILENCE_FLOOR),
    {
        self.recent_peak <= SILENCE_FLOOR
    }

    /// The most recent keying assessment, if there is enough evidence.
    pub fn keying(&self) -> (r: Option<KeyingDetection>)
        requires
            self.wf(),
        ensures
            keying_assessed(self@.keying, r),
    {
        match &self.keying {
            None => None,
            Some(k) => k.evaluate(),
        }
    }

    /// The most recent Morse assessment, if there is enough evidence.
    pub fn morse(&self) -> (r: Option<MorseDetection>)
        requires
            self.wf(),
        ensures
            morse_assessed(self@.morse, r),
    {
        match &self.morse {
            None => None,
            Some(m) => m.evaluate(),
        }
    }

    /// Current best estimate of a repeating period between half a minute and ten minutes,
    /// from the long-term tier's energy.
    pub fn periodicity(&self) -> (r: Option<PeriodicityResult>)
        requires
            self.wf(),
        ensures
            is_period(
                curve_of(energies(self@.longterm)),
                self@.longterm_fps,
                30 * ONE as int,
                600 * ONE as int,
                r,
            ),
    {
        let series: Vec<i32> = self.longterm.energy_series();
        proof {
            assert(series@ =~= energies(self@.longterm));
        }
        estimate_period(series.as_slice(), self.longterm_fps, 30_000_000, 600_000_000)
    }

    pub fn format(&self) -> (r: StreamFormat)
        ensures
            r == self@.format,
    {
        self.format
    }

    pub fn geometry(&self) -> (r: FrameGeometry)
        ensures
            r == self@.geometry,
    {
        self.geometry
    }

    pub fn direction_finding(&self) -> (r: bool)
        ensures
            r == self@.direction_finding,
    {
        self.direction_finding
    }

    pub fn ring(&self) -> (r: &PcmRing<T>)
        ensures
            *r == self@.ring,
    {
        &self.ring
    }

    pub fn detector(&self) -> (r: &NoveltyDetector)
        ensures
            *r == self@.detector,
    {
        &self.detector
    }

    pub fn waterfall(&self) -> (r: &SpectrogramHistory)
        ensures
            *r == self@.waterfall,
    {
        &self.waterfall
    }

    /// The background-subtracted spectrogram: only what changed.
    pub fn excess_waterfall(&self) -> (r: &SpectrogramHistory)
        ensures
            *r == self@.excess_waterfall,
    {
        &self.excess_waterfall
    }

    pub fn long_term(&self) -> (r: &SpectrogramHistory)
        ensures
            *r == self@.longterm,
    {
        &self.longterm
    }

    pub fn summarizer(&self) -> (r: &LongTermSummarizer)
        ensures
            *r == self@.summarizer,
    {
        &self.summarizer
    }

    /// The long-term tier's true frame rate, after whole-number decimation.
    pub fn long_term_fps(&self) -> (r: u64)
        ensures
            r == self@.longterm_fps,
    {
        self.longterm_fps
    }

    /// How far the background model has settled.
    pub fn warmup_progress(&self) -> (r: u64)
        ensures
            r == warmth(self@.detector),
    {
        self.detector.background().warmup_progress()
    }

    /// The most recent drawn-structure score.
    pub fn structure(&self) -> (r: &StructureScore)
        ensures
            *r == self@.structure,
    {
        &self.structure
    }

    /// Best structure score seen during the run, and when it occurred.
    pub fn peak_structure(&self) -> (r: (&StructureScore, u128))
        ensures
            *r.0 == self@.peak_structure,
            r.1 == self@.peak_structure_at,
    {
        (&self.peak_structure, self.peak_structure_at)
    }

    /// Best keying confidence seen during the run, and when.
    pub fn peak_keying(&self) -> (r: (u64, u128))
        ensures
            r.0 == self@.peak_keying,
            r.1 == self@.peak_keying_at,
    {
        (self.peak_keying, self.peak_keying_at)
    }

    /// Build a snapshot for a display, with the live bearing. Merges the windowed statistics,
    /// so call it at the update rate, not per frame.
    pub fn snapshot(&self, direction: DirectionEstimate) -> (r: AnalysisSnapshot)
        requires
            self.wf(),
        ensures
            r.format == self@.format,
            self@.health.held().len() == 0 ==> r.stats.is_empty(),
            self@.health.held().len() > 0 ==> r.stats.is_of(
                summary(strung(self@.health.held()), self@.health.bins()),
            ),
            r.stats.zero_crossing_rate <= ONE,
            r.histogram.len() == self@.health.bins(),
            forall|b: int|
                0 <= b < r.histogram.len() ==> #[trigger] r.histogram[b] == binned(
                    strung(self@.health.held()),
                    self@.health.bins(),
                )[b],
            r.spectrum_db@ == self@.spectrum,
            r.spectrum_db.len() == self@.bins(),
            r.background_db.len() == self@.bins(),
            forall|i: int|
                0 <= i < r.background_db.len() ==> #[trigger] r.background_db[i]
                    == background_level(self@.detector, i),
            r.excess_db@ == self@.detector.excess(),
            r.direction == direction,
            is_period(
                curve_of(energies(self@.longterm)),
                self@.longterm_fps,
                30 * ONE as int,
                600 * ONE as int,
                r.periodicity,
            ),
            r.timeline_seconds == self@.ring.written() * ONE / (self@.format.sample_rate as int),
            r.frames_analyzed == self@.frames_analyzed,
            r.gap_count == self@.gap_count,
            r.gap_seconds == self@.gap_frames_total * ONE / (self@.format.sample_rate as int),
            r.overrun_count == self@.overrun_count,
            r.warmup_progress == warmth(self@.detector),
            r.open_events == self@.detector.open().len(),
            r.is_silent == (r.stats.sample_count == 0 || r.stats.peak <= SILENCE_FLOOR),
            keying_assessed(self@.keying, r.keying),
            morse_assessed(self@.morse, r.morse),
            r.structure == self@.structure,
            r.structure_tile == self@.structure_tile,
    {
        proof {
            self.detector.lemma_shape();
        }
        let stats: SignalStats = self.health.stats();
        AnalysisSnapshot {
            format: self.format,
            stats,
            histogram: self.health.histogram(),
            spectrum_db: slice_to_vec(self.spectrum.as_slice()),
            background_db: self.detector.background().level_db(),
            excess_db: copy_levels(self.detector.excess_db()),
            direction,
            periodicity: self.periodicity(),
            timeline_seconds: self.format.frames_to_seconds(self.ring.total_frames()),
            frames_analyzed: self.frames_analyzed,
            gap_count: self.gap_count,
            gap_seconds: self.format.frames_to_seconds(self.gap_frames_total),
            overrun_count: self.overrun_count,
            warmup_progress: self.warmup_progress(),
            open_events: self.detector.open_event_count(),
            is_silent: stats.is_silent(),
            keying: self.keying(),
            morse: self.morse(),
            structure: self.structure,
            structure_tile: self.structure_tile,
        }
    }
}

/// The mean level of each frame of a history.
pub open spec fn energies(history: SpectrogramHistory) -> Seq<i32> {
    Seq::new(
        history.held().len(),
        |t: int| (level_sum(history.scale(), history.held()[t]) / history.width()) as i32,
    )
}

/// How far a detector's background has settled, in millionths.
pub open spec fn warmth(d: NoveltyDetector) -> int {
    if d.model().seen() >= d.model().warmup() {
        ONE as int
    } else {
        d.model().seen() * ONE / d.model().warmup()
    }
}

/// The background level of a bin, once anything is known of it.
pub open spec fn background_level(d: NoveltyDetector, bin: int) -> Option<i32> {
    if d.model().history().len() == 0 {
        None
    } else {
        Some(bucket_level(middle(d.model().history(), bin)) as i32)
    }
}

fn copy_levels(a: &Vec<i64>) -> (r: Vec<i64>)
    ensures
        r@ == a@,
{
    let mut r: Vec<i64> = Vec::with_capacity(a.len());
    let mut i: usize = 0;
    while i < a.len()
        invariant
            i <= a.len(),
            r@ == a@.take(i as int),
        decreases a.len() - i,
    {
        r.push(a[i]);
        assert(a@.take(i + 1) =~= a@.take(i as int).push(a[i as int]));
        i = i + 1;
    }
    assert(a@.take(a.len() as int) =~= a@);
    r
}

fn silent<T: Copy>(n: usize, quiet: T) -> (r: Vec<T>)
    ensures
        r@ == Seq::new(n as nat, |i: int| quiet),
{
    let mut r: Vec<T> = Vec::with_capacity(n);
    let mut i: usize = 0;
    while i < n
        invariant
            i <= n,
            r.len() == i,
            forall|k: int| 0 <= k < i ==> #[trigger] r[k] == quiet,
        decreases n - i,
    {
        r.push(quiet);
        i = i + 1;
    }
    assert(r@ =~= Seq::new(n as nat, |i: int| quiet));
    r
}

/// The sizes of a sound configuration fit.
proof fn lemma_sizes_fit(cfg: Config, format: StreamFormat, bands: int)
    requires
        format.sample_rate > 0,
        cfg.fft_size >= 2,
        bands >= 1,
        geometry_of(cfg, format).bin_count() * waterfall_frames(cfg, geometry_of(cfg, format))
            <= usize::MAX,
        bands * longterm_frames(cfg) <= usize::MAX,
    ensures
        1 <= waterfall_frames(cfg, geometry_of(cfg, format)) <= usize::MAX,
        1 <= longterm_frames(cfg) <= usize::MAX,
{
    let w = waterfall_frames(cfg, geometry_of(cfg, format));
    let b = geometry_of(cfg, format).bin_count();
    assert(w <= b * w) by (nonlinear_arith)
        requires
            b >= 1,
            w >= 1,
    ;
    let l = longterm_frames(cfg);
    assert(l <= bands * l) by (nonlinear_arith)
        requires
            bands >= 1,
            l >= 1,
    ;
}

proof fn lemma_one_channel(n: int)
    ensures
        n % 1 == 0,
        n / 1 == n,
{
}

/// A reading ends the moment it is over, but the best of a run is kept: however quiet a
/// recording ends, what appeared in it is still reported.
pub proof fn law_the_best_is_kept<T: Copy>(after: EngineState<T>, before: EngineState<T>)
    requires
        peak_keying_follows(after, before),
        structure_follows(after, before),
    ensures
        after.peak_keying >= before.peak_keying,
        after.peak_structure.score >= before.peak_structure.score,
        after.structure == before.structure || after.peak_structure.score >= after.structure.score,
{
}

/// The long-term tier runs at the configured rate as nearly as whole frames allow: so many frames
/// go into one of it as come nearest to that, within half a frame either way, one at least.
pub proof fn law_the_long_term_tier_keeps_its_rate(cfg: Config, g: FrameGeometry)
    requires
        g.hop > 0,
        cfg.longterm_fps > 0,
    ensures
        ({
            let n = frames_per_summary(cfg, g);
            let step = g.hop * cfg.longterm_fps;
            &&& n >= 1
            &&& n > 1 ==> -step <= 2 * (n * step - g.sample_rate * ONE) <= step
            &&& 2 * (g.sample_rate * ONE) >= 3 * step ==> n >= 2
        }),
        longterm_frames(cfg) >= 1,
        longterm_frames(cfg) > 1 ==> (longterm_frames(cfg) - 1) * ONE < 3600 * cfg.longterm_fps
            <= longterm_frames(cfg) * ONE,
{
    let step = g.hop * cfg.longterm_fps;
    assert(step > 0) by (nonlinear_arith)
        requires
            g.hop > 0,
            cfg.longterm_fps > 0,
            step == g.hop * cfg.longterm_fps,
    ;
    let x = 2 * (g.sample_rate * ONE) + step;
    vstd::arithmetic::div_mod::lemma_fundamental_div_mod(x, 2 * step);
    let q = x / (2 * step);
    assert((2 * step) * q == 2 * (q * step)) by (nonlinear_arith);
    if x >= 4 * step {
        assert(q >= 2) by (nonlinear_arith)
            requires
                q == x / (2 * step),
                x >= 4 * step,
                step > 0,
        ;
    }
}

/// A look for a drawing comes round every two seconds, to the nearest frame.
pub proof fn law_a_look_comes_round_every_two_seconds(g: FrameGeometry)
    requires
        g.hop > 0,
    ensures
        scan_interval(g) >= 1,
        scan_interval(g) > 1 ==> -(g.hop as int) <= 2 * (scan_interval(g) * g.hop - 2
            * g.sample_rate) <= g.hop,
{
    let hop = g.hop as int;
    let x = 4 * g.sample_rate + hop;
    vstd::arithmetic::div_mod::lemma_fundamental_div_mod(x, 2 * hop);
    let q = x / (2 * hop);
    assert((2 * hop) * q == 2 * (q * hop)) by (nonlinear_arith);
}

/// A peak hold is never below what was just heard, never above what was heard or held, and fades
/// by a hundredth a block.
pub proof fn law_a_peak_hold_fades(held: int, block: int)
    requires
        held >= 0,
        block >= 0,
    ensures
        block <= peak_after(held, block),
        peak_after(held, block) <= held || peak_after(held, block) == block,
        block == 0 ==> 100 * peak_after(held, block) <= 99 * held < 100 * peak_after(held, block)
            + 100,
{
}

} // verus!
