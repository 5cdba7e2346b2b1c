//! The whole chain, from samples to detections.
use ed_compass::analysis::direction::{
    angular_error_deg, estimate, speaker_pair, wrap_deg, Bearings, DirectionEstimate,
};
use ed_compass::analysis::periodicity::matches_landscape;
use ed_compass::audio::format::{SampleFormat, MASK_7_1, MASK_STEREO};
use ed_compass::audio::StreamFormat;
use ed_compass::config::{Config, IgnoreBand};
use ed_compass::pipeline::engine::AnalysisEngine;
use ed_compass::pipeline::{
    banded_bins, bearing_starts_afresh, deinterleave, is_prominent, loud_bins, Detection,
};
use realfft::num_complex::Complex32;
use realfft::{RealFftPlanner, RealToComplex};
use std::sync::Arc;

const LANDSCAPE_PERIOD_SECONDS: f32 = 109.5;
const TIGHTBEAM_TONES_HZ: [f32; 2] = [1200.0, 2400.0];
const TIGHTBEAM_SYMBOL_SECONDS: f32 = 0.3;

fn millionths(v: f32) -> i64 {
    (v as f64 * 1e6).round() as i64
}

/// Edges in equal ratios, in millionths of a hertz.
fn log_edges(n: usize, low: f64, high: f64) -> Vec<u64> {
    (0..=n)
        .map(|i| (low * (high / low).powf(i as f64 / n as f64) * 1e6).round() as u64)
        .collect()
}

fn flatness(powers: &[f32]) -> u64 {
    let usable: Vec<f64> = powers.iter().filter(|p| **p > 0.0).map(|p| *p as f64).collect();
    if usable.len() < 2 {
        return 0;
    }
    let n = usable.len() as f64;
    let geometric = (usable.iter().map(|p| p.ln()).sum::<f64>() / n).exp();
    let arithmetic = usable.iter().sum::<f64>() / n;
    ((geometric / arithmetic).clamp(0.0, 1.0) * 1e6) as u64
}

/// An engine with the transform in front of it.
struct Rig {
    cfg: Config,
    engine: AnalysisEngine<f32>,
    fft: Arc<dyn RealToComplex<f32>>,
    window: Vec<f32>,
    scale: f32,
    event_powers: Vec<f64>,
    event_cross: Complex32,
    event_direction: DirectionEstimate,
    live_powers: Vec<f64>,
    live_cross: Complex32,
    live_direction: DirectionEstimate,
}

impl Rig {
    fn new(cfg: Config, format: StreamFormat) -> Rig {
        let size = cfg.fft_size;
        let window: Vec<f32> = (0..size)
            .map(|i| 0.5 - 0.5 * (std::f32::consts::TAU * i as f32 / size as f32).cos())
            .collect();
        let nyquist = format.sample_rate as f64 / 2.0;
        let bands = log_edges(cfg.longterm_bands, 20.0, nyquist);
        let scan = log_edges(
            256,
            cfg.detect_min_hz as f64 / 1e6,
            (cfg.detect_max_hz as f64 / 1e6).min(nyquist),
        );
        let streams = if cfg.direction_finding { format.channels } else { 1 };
        Rig {
            engine: AnalysisEngine::new(&cfg, format, 2_000_000, 0.0, bands, &scan, None),
            fft: RealFftPlanner::<f32>::new().plan_fft_forward(size),
            scale: 2.0 / window.iter().sum::<f32>(),
            window,
            cfg,
            event_powers: vec![0.0; streams],
            event_cross: Complex32::new(0.0, 0.0),
            event_direction: DirectionEstimate::insufficient(),
            live_powers: vec![0.0; streams],
            live_cross: Complex32::new(0.0, 0.0),
            live_direction: DirectionEstimate::insufficient(),
        }
    }

    fn push(&mut self, samples: &[f32]) -> Vec<Detection> {
        let channels = self.engine.format().channels;
        let mono: Vec<f32> = samples
            .chunks(channels)
            .map(|f| f.iter().sum::<f32>() / channels as f32)
            .collect();
        let steps = |v: f32| (v * 16_777_216.0).round() as i32;
        let amplitudes: Vec<Option<i32>> = mono.iter().map(|&v| Some(steps(v))).collect();
        let peak = samples.iter().fold(0.0f32, |m, s| m.max(s.abs()));
        self.engine
            .push_interleaved(samples, &mono, &amplitudes, steps(peak) as u32);
        self.drain()
    }

    fn push_gap(&mut self, frames: usize) {
        self.engine.push_gap(frames);
        self.reset_event();
        let _ = self.drain();
    }

    fn reset_event(&mut self) {
        self.event_powers.iter_mut().for_each(|p| *p = 0.0);
        self.event_cross = Complex32::new(0.0, 0.0);
    }

    fn drain(&mut self) -> Vec<Detection> {
        let mut detections = Vec::new();
        while let Some(frames) = self.engine.next_frames() {
            let spectra: Vec<Vec<Complex32>> = frames
                .iter()
                .map(|frame| {
                    let mut input: Vec<f32> =
                        frame.iter().zip(&self.window).map(|(s, w)| s * w).collect();
                    let mut out = self.fft.make_output_vec();
                    self.fft.process(&mut input, &mut out).unwrap();
                    out
                })
                .collect();
            let channel_powers: Vec<Vec<f32>> = spectra
                .iter()
                .map(|s| s.iter().map(|c| c.norm_sqr() * self.scale * self.scale).collect())
                .collect();
            let bins = channel_powers[0].len();
            let mono: Vec<f32> = (0..bins)
                .map(|b| channel_powers.iter().map(|p| p[b]).sum::<f32>() / frames.len() as f32)
                .collect();
            let levels: Vec<i32> = mono
                .iter()
                .map(|&p| {
                    let db = if p <= 1e-12 { -120.0 } else { (10.0 * p.log10()).max(-120.0) };
                    millionths(db) as i32
                })
                .collect();
            let powers: Vec<u64> = mono.iter().map(|&p| (p as f64 * 1e15) as u64).collect();
            let closed = self
                .engine
                .analyze_frame(&levels, &powers, |a, b| flatness(&mono[a..b]));
            if self.engine.direction_finding() {
                self.track(&spectra, &channel_powers);
            }
            for event in closed {
                detections.push(self.engine.finish_detection(event, self.event_direction));
            }
            let open = self.engine.detector().open_event_count();
            if bearing_starts_afresh(detections.len(), open) {
                self.reset_event();
            }
        }
        detections
    }

    fn track(&mut self, spectra: &[Vec<Complex32>], powers: &[Vec<f32>]) {
        let loud = loud_bins(self.engine.detector().excess_db(), self.cfg.novelty_threshold_db);
        for &bin in &loud {
            for (sum, p) in self.event_powers.iter_mut().zip(powers) {
                *sum += p[bin] as f64;
            }
            self.event_cross += spectra[0][bin] * spectra[1][bin].conj();
        }
        if !loud.is_empty() {
            self.event_direction = self.bearing(&self.event_powers, self.event_cross);
        }
        let mut now = vec![0.0f64; powers.len()];
        let mut cross = Complex32::new(0.0, 0.0);
        let band = banded_bins(
            self.engine.geometry(),
            self.cfg.detect_min_hz,
            self.cfg.detect_max_hz,
        );
        for &bin in &band {
            for (sum, p) in now.iter_mut().zip(powers) {
                *sum += p[bin] as f64;
            }
            cross += spectra[0][bin] * spectra[1][bin].conj();
        }
        for (live, now) in self.live_powers.iter_mut().zip(&now) {
            *live += (now - *live) * 0.05;
        }
        self.live_cross = self.live_cross * 0.95 + cross * 0.05;
        self.live_direction = self.bearing(&self.live_powers, self.live_cross);
    }

    fn bearing(&self, powers: &[f64], cross: Complex32) -> DirectionEstimate {
        let layout = self.engine.format().layout();
        let sum = |amplitudes: bool| {
            let (mut x, mut y, mut total) = (0.0f64, 0.0f64, 0.0f64);
            for (p, info) in powers.iter().zip(&layout) {
                if let Some(az) = info.azimuth_deg {
                    let w = if amplitudes { p.sqrt() } else { *p };
                    x += w * (az as f64).to_radians().sin();
                    y += w * (az as f64).to_radians().cos();
                    total += w;
                }
            }
            if total > 0.0 {
                Some((x.atan2(y).to_degrees() as f32, (x.hypot(y) / total) as f32))
            } else {
                None
            }
        };
        let pair = speaker_pair(&layout);
        let pan = pair.and_then(|(l, r, spread)| {
            if powers[l] <= 0.0 && powers[r] <= 0.0 {
                return None;
            }
            let quarter = std::f64::consts::FRAC_PI_4;
            let pan = ((powers[r].sqrt().atan2(powers[l].sqrt()) - quarter) / quarter)
                .clamp(-1.0, 1.0);
            Some(wrap_deg(millionths((pan * spread as f64 / 2.0) as f32)))
        });
        let coherence = pair.map(|(l, r, _)| {
            let scale = (self.scale * self.scale) as f64;
            let denom = powers[l] * powers[r];
            if denom <= 0.0 {
                0
            } else {
                let c = cross.norm_sqr() as f64 * scale * scale / denom;
                (c.clamp(0.0, 1.0) * 1e6) as u64
            }
        });
        estimate(
            &layout,
            &Bearings {
                pan,
                coherence,
                velocity: sum(true).map(|(az, _)| wrap_deg(millionths(az))),
                concentration: sum(false).map(|(_, c)| millionths(c) as u64),
            },
        )
    }

    fn flush(&mut self) -> Vec<Detection> {
        let events = self.engine.flush();
        events
            .into_iter()
            .map(|e| self.engine.finish_detection(e, self.event_direction))
            .collect()
    }
}

enum Signal {
    Silence,
    Noise,
    Sine(f32),
    /// A mountain: a slow sweep up and down in each cycle, with silence between.
    Landscape,
    Tightbeam,
    /// Lines drawn up and down the spectrogram.
    Picture,
    Sweep(f32, f32, f32),
}

/// A signal panned between the speakers of a layout.
struct Source {
    signal: Signal,
    format: StreamFormat,
    gains: Vec<f32>,
    at: u64,
    phase: f64,
    seed: u32,
}

impl Source {
    fn new(signal: Signal, format: StreamFormat, azimuth: f32) -> Source {
        let layout = format.layout();
        let mut speakers: Vec<(i32, usize)> = layout
            .iter()
            .enumerate()
            .filter_map(|(i, c)| c.azimuth_deg.map(|a| (a, i)))
            .collect();
        speakers.sort();
        let mut gains = vec![0.0; layout.len()];
        for pair in speakers.windows(2) {
            let ((a, i), (b, j)) = (pair[0], pair[1]);
            if (a as f32) <= azimuth && azimuth <= b as f32 {
                let t = (azimuth - a as f32) / (b - a) as f32 * std::f32::consts::FRAC_PI_2;
                gains[i] = t.cos();
                gains[j] = t.sin();
                break;
            }
        }
        Source { signal, format, gains, at: 0, phase: 0.0, seed: 0x1234_5678 }
    }

    fn noise(&mut self) -> f32 {
        self.seed = self.seed.wrapping_mul(1_664_525).wrapping_add(1_013_904_223);
        (self.seed >> 8) as f32 / 8_388_608.0 - 1.0
    }

    fn tone(&mut self, hz: f32, amplitude: f32) -> f32 {
        self.phase += std::f64::consts::TAU * hz as f64 / self.format.sample_rate as f64;
        amplitude * self.phase.sin() as f32
    }

    fn sample(&mut self) -> f32 {
        let t = self.at as f32 / self.format.sample_rate as f32;
        self.at += 1;
        match self.signal {
            Signal::Silence => 0.0,
            Signal::Noise => self.noise() * 0.1,
            Signal::Sine(hz) => self.tone(hz, 0.5),
            Signal::Landscape => {
                let phase = t % LANDSCAPE_PERIOD_SECONDS;
                let floor = self.noise() * 0.0005;
                if phase < 80.0 {
                    let climb = 1.0 - (phase / 40.0 - 1.0).abs();
                    floor + self.tone(300.0 + 1500.0 * climb, 0.3)
                } else {
                    floor
                }
            }
            Signal::Tightbeam => {
                let symbol = (t / TIGHTBEAM_SYMBOL_SECONDS) as usize;
                self.tone(TIGHTBEAM_TONES_HZ[symbol % 2], 0.5)
            }
            Signal::Picture => {
                let phase = t % 12.0;
                let climb = 1.0 - (phase / 6.0 - 1.0).abs();
                self.tone(300.0 * 6f32.powf(climb), 0.5)
            }
            Signal::Sweep(start, end, seconds) => {
                let u = (t % seconds) / seconds;
                self.tone(start + (end - start) * u, 0.5)
            }
        }
    }
}

/// A configuration that runs the full chain quickly at a reduced sample rate.
fn fast_config() -> Config {
    let mut c = Config::default();
    c.fft_size = 1024;
    c.hop = 512;
    c.pcm_ring_seconds = 4_000_000;
    c.waterfall_seconds = 30_000_000;
    c.longterm_fps = 2_000_000;
    c.longterm_bands = 64;
    c.background_time_constant_seconds = 5_000_000;
    c.background_max_freeze_seconds = 600_000_000;
    c.min_event_seconds = 500_000;
    c
}

fn format(channels: usize, mask: u32) -> StreamFormat {
    StreamFormat::new(8_000, channels, mask, SampleFormat::F32)
}

fn feed(rig: &mut Rig, source: &mut Source, seconds: f32) -> Vec<Detection> {
    let sr = source.format.sample_rate as f32;
    let chunk = (sr * 0.1) as usize; // 100 ms at a time, like a real device
    let total = (seconds * sr) as usize;
    let mut out = Vec::new();
    let mut done = 0;
    while done < total {
        let n = chunk.min(total - done);
        let mut buf = Vec::new();
        for _ in 0..n {
            let s = source.sample();
            buf.extend(source.gains.iter().map(|g| g * s));
        }
        out.extend(rig.push(&buf));
        done += n;
    }
    out
}

#[test]
fn silence_produces_no_detections() {
    let f = format(2, MASK_STEREO);
    let mut rig = Rig::new(fast_config(), f);
    let mut source = Source::new(Signal::Silence, f, 0.0);
    let detections = feed(&mut rig, &mut source, 30.0);
    assert!(detections.is_empty(), "{detections:?}");

    let snap = rig.engine.snapshot(rig.live_direction);
    assert!(snap.is_silent);
    assert!(rig.engine.is_silent());
    assert_eq!(snap.gap_count, 0);
    assert!(snap.frames_analyzed > 0);
    assert_eq!(snap.warmup_progress, 1_000_000);
}

#[test]
fn steady_noise_alone_does_not_trigger() {
    let f = format(2, MASK_STEREO);
    let mut rig = Rig::new(fast_config(), f);
    let mut source = Source::new(Signal::Noise, f, 0.0);
    let detections = feed(&mut rig, &mut source, 40.0);
    // The background learns the noise, so nothing should stand out.
    assert!(detections.is_empty(), "steady noise fired: {detections:?}");
}

#[test]
fn snapshot_reports_the_stream_shape_and_timeline() {
    let f = format(2, MASK_STEREO);
    let mut rig = Rig::new(fast_config(), f);
    let mut source = Source::new(Signal::Sine(300.0), f, 0.0);
    feed(&mut rig, &mut source, 2.0);

    let snap = rig.engine.snapshot(rig.live_direction);
    assert_eq!(snap.format.channels, 2);
    assert_eq!(snap.timeline_seconds, 2_000_000);
    assert_eq!(snap.spectrum_db.len(), 513);
    assert_eq!(snap.background_db.len(), 513);
    assert_eq!(snap.histogram.len(), 100);
    assert!(!snap.is_silent);
}

#[test]
fn a_gap_advances_the_clock_and_is_counted() {
    let f = format(2, MASK_STEREO);
    let mut rig = Rig::new(fast_config(), f);
    let mut source = Source::new(Signal::Noise, f, 0.0);
    feed(&mut rig, &mut source, 1.0);
    rig.push_gap(8_000); // one second
    feed(&mut rig, &mut source, 1.0);

    rig.engine.note_overrun();
    let snap = rig.engine.snapshot(rig.live_direction);
    assert_eq!(snap.overrun_count, 1);
    assert_eq!(snap.gap_count, 1);
    assert_eq!(snap.gap_seconds, 1_000_000);
    assert_eq!(
        snap.timeline_seconds, 3_000_000,
        "gap must advance the timeline"
    );
}

#[test]
fn detects_a_tone_burst_and_reports_its_bearing() {
    let f = format(2, MASK_STEREO);
    let mut cfg = fast_config();
    cfg.direction_finding = true; // secondary feature, opt-in
    let mut rig = Rig::new(cfg, f);

    let mut quiet = Source::new(Signal::Silence, f, 0.0);
    feed(&mut rig, &mut quiet, 20.0); // settle the background

    let target = -20.0;
    let mut tone = Source::new(Signal::Sine(900.0), f, target);
    feed(&mut rig, &mut tone, 4.0);
    let mut detections = feed(&mut rig, &mut quiet, 5.0);
    detections.extend(rig.flush());

    assert_eq!(
        detections.len(),
        1,
        "expected one detection: {detections:?}"
    );
    let d = &detections[0];
    assert!(
        d.event.peak_hz.abs_diff(900_000_000) < 60_000_000,
        "peak at {}",
        d.event.peak_hz
    );
    assert!(
        d.event.duration_seconds > 2_000_000,
        "{}",
        d.event.duration_seconds
    );
    assert!(d.direction.is_usable());
    assert!(
        angular_error_deg(d.direction.azimuth_deg, millionths(target)) < 10_000_000,
        "bearing {} vs target {target}",
        d.direction.azimuth_deg
    );
    assert!(!d.spans_gap);
    // The detection maps back onto the capture timeline for the pre-roll.
    assert!(d.end_sample > d.start_sample);
}

#[test]
fn a_detection_overlapping_a_gap_is_flagged() {
    let f = format(2, MASK_STEREO);
    let mut rig = Rig::new(fast_config(), f);
    let mut quiet = Source::new(Signal::Silence, f, 0.0);
    feed(&mut rig, &mut quiet, 20.0);

    let mut tone = Source::new(Signal::Sine(700.0), f, 0.0);
    feed(&mut rig, &mut tone, 3.0);
    rig.push_gap(4_000);
    feed(&mut rig, &mut tone, 3.0);
    let mut detections = feed(&mut rig, &mut quiet, 5.0);
    detections.extend(rig.flush());

    assert!(!detections.is_empty());
    // The gap severs the event, so at least one side must be marked.
    assert!(
        detections.iter().any(|d| d.spans_gap) || detections.len() >= 2,
        "a gap must not be papered over: {detections:?}"
    );
}

/// The Landscape Signal is detected, its period recovered to within a second, and its
/// azimuth to within 10 degrees.
#[test]
fn acceptance_detects_the_landscape_signal_period_and_bearing() {
    let f = format(8, MASK_7_1);
    let mut cfg = fast_config();
    cfg.longterm_fps = 1_000_000;
    cfg.pcm_ring_seconds = 2_000_000; // keep the test's memory small
    cfg.background_time_constant_seconds = 20_000_000;
    cfg.detect_structure = false; // no part of this test, and minutes of audio to scan
    cfg.direction_finding = true; // this test checks the bearing

    let mut rig = Rig::new(cfg, f);
    let target = -55.0;
    let mut source = Source::new(Signal::Landscape, f, target);

    // Three full cycles: one to settle, two for the autocorrelation.
    let mut detections = feed(&mut rig, &mut source, LANDSCAPE_PERIOD_SECONDS * 3.0);
    detections.extend(rig.flush());

    assert!(
        !detections.is_empty(),
        "the mountain should have been detected"
    );

    let period = rig
        .engine
        .periodicity()
        .expect("long-term tier should support a period estimate");
    assert!(
        (period.period_seconds as f32 / 1e6 - LANDSCAPE_PERIOD_SECONDS).abs() < 1.0,
        "expected {LANDSCAPE_PERIOD_SECONDS} s, got {period:?}"
    );
    assert!(
        matches_landscape(&period, 1_000_000),
        "should be recognized as the Landscape Signal: {period:?}"
    );

    let best = detections.iter().max_by_key(|d| d.event.score).unwrap();
    assert!(
        angular_error_deg(best.direction.azimuth_deg, millionths(target)) < 10_000_000,
        "bearing {} vs target {target} (confidence {})",
        best.direction.azimuth_deg,
        best.direction.confidence
    );
}

/// The compass must read something while merely listening.
#[test]
fn the_live_bearing_tracks_a_source_without_any_detection() {
    let f = format(2, MASK_STEREO);
    let mut cfg = fast_config();
    cfg.direction_finding = true;
    let mut rig = Rig::new(cfg, f);

    // A steady tone off to the left. Steady is the point: it never rises far enough above
    // its own background to open an event.
    let mut source = Source::new(Signal::Sine(900.0), f, -25.0);
    feed(&mut rig, &mut source, 4.0);

    let d = rig.engine.snapshot(rig.live_direction).direction;
    assert!(
        d.is_usable(),
        "the compass must have an answer while just listening, got {d:?}"
    );
    assert!(
        d.azimuth_deg < -3_000_000,
        "a source on the left must read left, got {}",
        d.azimuth_deg
    );
    assert!(d.confidence > 500_000, "a cleanly panned tone is not ambiguous");
}

/// A centred source reads centred, rather than reading as nothing.
#[test]
fn a_centred_source_is_measured_not_dropped() {
    let f = format(2, MASK_STEREO);
    let mut cfg = fast_config();
    cfg.direction_finding = true;
    let mut rig = Rig::new(cfg, f);

    let mut source = Source::new(Signal::Sine(900.0), f, 0.0);
    feed(&mut rig, &mut source, 4.0);

    let d = rig.engine.snapshot(rig.live_direction).direction;
    assert!(d.is_usable(), "centred is a measurement, not a failure");
    assert!(
        d.azimuth_deg.abs() < 3_000_000,
        "a centred source must read centred, got {}",
        d.azimuth_deg
    );
}

#[test]
fn the_fast_path_keeps_one_transform_and_a_mono_ring() {
    // On a 7.1 endpoint the fast path is the difference between eight transforms per frame
    // and one, and between 220 MB of ring and 27 MB.
    let mut cfg = fast_config();
    cfg.direction_finding = false;

    let rig = Rig::new(cfg, format(8, MASK_7_1));
    assert!(!rig.engine.direction_finding());
    assert_eq!(
        rig.engine.ring().channels(),
        1,
        "the ring should hold a downmix"
    );
    assert_eq!(
        rig.engine.ring_format().channels,
        1,
        "captures are mono in fast mode"
    );
}

#[test]
fn enabling_direction_finding_restores_every_channel() {
    let mut cfg = fast_config();
    cfg.direction_finding = true;
    let rig = Rig::new(cfg, format(8, MASK_7_1));
    assert!(rig.engine.direction_finding());
    assert_eq!(rig.engine.ring().channels(), 8);
    assert_eq!(rig.engine.ring_format().channels, 8);
    assert_eq!(rig.engine.ring_format().layout_name(), "7.1");
}

#[test]
fn the_fast_path_still_detects_and_still_finds_the_period() {
    // Dropping to mono must not cost us the primary function.
    let f = format(8, MASK_7_1);
    let mut cfg = fast_config();
    cfg.longterm_fps = 1_000_000;
    cfg.pcm_ring_seconds = 2_000_000;
    cfg.background_time_constant_seconds = 20_000_000;
    cfg.detect_structure = false; // no part of this test, and minutes of audio to scan
    cfg.direction_finding = false;

    let mut rig = Rig::new(cfg, f);
    let mut source = Source::new(Signal::Landscape, f, -55.0);
    let mut detections = feed(&mut rig, &mut source, LANDSCAPE_PERIOD_SECONDS * 3.0);
    detections.extend(rig.flush());

    assert!(
        !detections.is_empty(),
        "mono path still has to detect the mountain"
    );
    let period = rig.engine.periodicity().expect("period estimate");
    assert!(
        (period.period_seconds as f32 / 1e6 - LANDSCAPE_PERIOD_SECONDS).abs() < 1.0,
        "{period:?} in the fast path"
    );
}

/// Primary function 1: a binary transmission is present.
#[test]
fn acceptance_detects_binary_keying_in_a_tightbeam() {
    let f = format(2, MASK_STEREO);
    let mut cfg = fast_config();
    cfg.min_event_seconds = 200_000;
    let mut rig = Rig::new(cfg, f);

    // Settle the background on silence so the tones stand out.
    let mut quiet = Source::new(Signal::Silence, f, 0.0);
    feed(&mut rig, &mut quiet, 15.0);

    let mut beam = Source::new(Signal::Tightbeam, f, 0.0);
    feed(&mut rig, &mut beam, 25.0);

    let k = rig.engine.keying().expect("a tightbeam should produce symbols");
    assert!(
        k.is_present(500_000),
        "the transmission should be detected: {k:?}"
    );
    assert!(k.tones_hz.len() >= 2, "two keying tones expected: {k:?}");

    let mut tones = k.tones_hz.clone();
    tones.sort();
    assert!(
        tones[0].abs_diff(1_200_000_000) < 150_000_000,
        "low tone {}",
        tones[0]
    );
    assert!(
        tones[1].abs_diff(2_400_000_000) < 150_000_000,
        "high tone {}",
        tones[1]
    );
    assert!(
        (k.symbol_rate_hz as f32 / 1e6 - 1.0 / TIGHTBEAM_SYMBOL_SECONDS).abs() < 2.0,
        "symbol rate {} vs {}",
        k.symbol_rate_hz,
        1.0 / TIGHTBEAM_SYMBOL_SECONDS
    );
}

#[test]
fn ordinary_audio_does_not_report_binary_keying() {
    let f = format(2, MASK_STEREO);
    let mut rig = Rig::new(fast_config(), f);
    let mut noise = Source::new(Signal::Noise, f, 0.0);
    feed(&mut rig, &mut noise, 20.0);
    let mut sweep = Source::new(Signal::Sweep(200.0, 3000.0, 3.0), f, 0.0);
    feed(&mut rig, &mut sweep, 20.0);

    if let Some(k) = rig.engine.keying() {
        assert!(
            !k.is_present(500_000),
            "noise and sweeps are not transmissions: {k:?}"
        );
    }
}

/// Primary function 2: a picture is present in the spectrogram.
#[test]
fn acceptance_detects_a_drawing_in_the_spectrogram() {
    let f = format(2, MASK_STEREO);
    let mut cfg = fast_config();
    cfg.waterfall_seconds = 40_000_000;
    let mut rig = Rig::new(cfg, f);

    let mut picture = Source::new(Signal::Picture, f, 0.0);
    feed(&mut rig, &mut picture, 35.0);

    let s = rig.engine.structure();
    assert!(s.is_present(850_000), "the drawing should be found: {s:?}");
    assert!(
        s.continuity > 800_000,
        "a drawing is made of long connected strokes: {s:?}"
    );
    assert!(rig.engine.peak_structure().0.score >= s.score);
}

#[test]
fn drift_is_sought_over_the_whole_picture() {
    let f = format(2, MASK_STEREO);
    let mut cfg = fast_config();
    cfg.waterfall_seconds = 40_000_000;
    let mut rig = Rig::new(cfg, f);
    let mut picture = Source::new(Signal::Picture, f, 0.0);
    feed(&mut rig, &mut picture, 35.0);

    // A tile is 64 pixels a side, so that no more lines than this can be tried in it.
    let steep = rig.engine.structure().drift.1.expect("lines were tried");
    assert!(steep.trials > 64 * 64, "{steep:?}");
}

#[test]
fn a_page_of_harmonics_outranks_nothing() {
    // The false positive that matters: sustained tones are coherent lines. Steady tones must
    // score below a real drawing.
    let f = format(2, MASK_STEREO);
    let drawing = |signal: Signal| {
        let mut cfg = fast_config();
        cfg.waterfall_seconds = 40_000_000;
        let mut rig = Rig::new(cfg, f);
        let mut source = Source::new(signal, f, 0.0);
        feed(&mut rig, &mut source, 35.0);
        rig.engine.structure().score
    };
    let tonal = drawing(Signal::Sine(800.0));
    let art = drawing(Signal::Picture);
    assert!(
        art > tonal,
        "the drawing {art} must outrank a held tone {tonal}"
    );
}

#[test]
fn low_frequency_rumble_never_reads_as_a_transmission() {
    // Two guards reject cockpit rumble: a frequency floor, and prominence measured against
    // the neighbouring bins rather than the mean of a mostly-empty spectrum.
    let f = format(2, MASK_STEREO);
    let mut rig = Rig::new(fast_config(), f);

    let mut quiet = Source::new(Signal::Silence, f, 0.0);
    feed(&mut rig, &mut quiet, 15.0);

    // A wandering low-frequency drone, the shape of ship rumble.
    for step in 0..40 {
        let hz = [120.0f32, 150.0, 290.0][step % 3];
        let mut rumble = Source::new(Signal::Sine(hz), f, 0.0);
        feed(&mut rig, &mut rumble, 0.5);
    }

    match rig.engine.keying() {
        None => {}
        Some(k) => assert!(
            !k.is_present(500_000),
            "low rumble must not read as a transmission: {k:?}"
        ),
    }
}

#[test]
fn a_transmission_above_the_floor_is_still_detected() {
    // The floor must not cost us the real thing: the tightbeam keys at 1200/2400 Hz, far
    // above it.
    let f = format(2, MASK_STEREO);
    let mut cfg = fast_config();
    cfg.min_event_seconds = 200_000;
    let mut rig = Rig::new(cfg, f);

    let mut quiet = Source::new(Signal::Silence, f, 0.0);
    feed(&mut rig, &mut quiet, 15.0);
    let mut beam = Source::new(Signal::Tightbeam, f, 0.0);
    feed(&mut rig, &mut beam, 25.0);

    let k = rig.engine.keying().expect("symbols");
    assert!(k.is_present(500_000), "{k:?}");
    assert!(
        k.tones_hz.iter().all(|t| *t >= 400_000_000),
        "every reported tone must clear the floor: {:?}",
        k.tones_hz
    );
}

#[test]
fn broadband_noise_never_reads_as_a_transmission() {
    // Successive frames overlap by half their samples, so even noise has a peak bin that
    // persists a frame or two.
    let f = format(2, MASK_STEREO);
    let mut rig = Rig::new(fast_config(), f);
    let mut noise = Source::new(Signal::Noise, f, 0.0);
    feed(&mut rig, &mut noise, 30.0);

    match rig.engine.keying() {
        None => {}
        Some(k) => assert!(!k.is_present(500_000), "noise must not read as keying: {k:?}"),
    }
}

#[test]
fn detectors_can_be_switched_off() {
    let mut cfg = fast_config();
    cfg.detect_keying = false;
    cfg.detect_structure = false;
    let f = format(2, MASK_STEREO);
    let mut rig = Rig::new(cfg, f);
    let mut beam = Source::new(Signal::Tightbeam, f, 0.0);
    feed(&mut rig, &mut beam, 5.0);

    assert!(rig.engine.keying().is_none());
    assert_eq!(rig.engine.structure().score, 0);
}

#[test]
fn detectors_can_be_switched_while_running() {
    let f = format(2, MASK_STEREO);
    let mut rig = Rig::new(fast_config(), f);
    let mut quiet = Source::new(Signal::Silence, f, 0.0);
    feed(&mut rig, &mut quiet, 15.0);
    rig.engine.set_detectors(false, false);
    let mut beam = Source::new(Signal::Tightbeam, f, 0.0);
    feed(&mut rig, &mut beam, 10.0);
    assert!(rig.engine.keying().is_none());
    assert_eq!(rig.engine.structure().score, 0);
    assert_eq!(rig.engine.warmup_progress(), 1_000_000, "the background stays warm");
    rig.engine.set_detectors(true, true);
    feed(&mut rig, &mut beam, 15.0);
    assert!(rig.engine.keying().is_some());
}

#[test]
fn muting_a_band_takes_effect_at_once() {
    let f = format(2, MASK_STEREO);
    let mut rig = Rig::new(fast_config(), f);
    let mut quiet = Source::new(Signal::Silence, f, 0.0);
    feed(&mut rig, &mut quiet, 20.0);
    rig.engine.set_ignore_bands(&vec![IgnoreBand {
        low_hz: 500_000_000,
        high_hz: 1_500_000_000,
    }]);
    let mut tone = Source::new(Signal::Sine(900.0), f, 0.0);
    feed(&mut rig, &mut tone, 3.0);
    assert!(rig.flush().is_empty(), "nothing inside a muted band");
}

#[test]
fn long_term_rate_reflects_actual_decimation_not_the_request() {
    // 8 kHz with a 512 hop is 15.625 frames/s. Asking for 1 fps decimates by 16, which
    // really yields 0.9766 fps. Reporting the requested rate instead would scale every
    // period reading by 2.3%.
    let mut cfg = fast_config();
    cfg.longterm_fps = 1_000_000;
    let rig = Rig::new(cfg, format(2, MASK_STEREO));
    assert_eq!(rig.engine.long_term_fps(), 976_562);
}

#[test]
fn memory_stays_bounded_over_a_long_run() {
    let f = format(2, MASK_STEREO);
    let mut cfg = fast_config();
    cfg.pcm_ring_seconds = 2_000_000;
    cfg.waterfall_seconds = 5_000_000;
    let mut rig = Rig::new(cfg, f);
    let mut source = Source::new(Signal::Noise, f, 0.0);

    feed(&mut rig, &mut source, 20.0);
    let ring_bytes = rig.engine.ring().bytes();
    let waterfall_frames = rig.engine.waterfall().len();
    let longterm_frames = rig.engine.long_term().len();

    feed(&mut rig, &mut source, 60.0);
    assert_eq!(rig.engine.ring().bytes(), ring_bytes, "the ring must not grow");
    assert_eq!(
        rig.engine.waterfall().len(),
        waterfall_frames,
        "the waterfall must have reached its cap and stayed there"
    );
    assert!(rig.engine.waterfall().len() <= rig.engine.waterfall().capacity());
    assert!(rig.engine.long_term().len() >= longterm_frames);
    assert!(rig.engine.long_term().len() <= rig.engine.long_term().capacity());
}

#[test]
fn a_spike_is_prominent_and_a_hill_is_not() {
    let mut powers = vec![100u64; 200];
    powers[90] = 1_200;
    assert!(is_prominent(&powers, 90));
    powers[90] = 1_199;
    assert!(!is_prominent(&powers, 90));
    assert!(is_prominent(&vec![0u64; 200], 90), "nothing to compare with");
}

#[test]
fn channels_are_taken_apart_in_order() {
    let samples = [1, 10, 2, 20, 3, 30];
    assert_eq!(deinterleave(&samples, 2, 0), vec![1, 2, 3]);
    assert_eq!(deinterleave(&samples, 2, 1), vec![10, 20, 30]);
}

#[test]
fn bearings_are_taken_from_what_stands_out() {
    assert_eq!(loud_bins(&[5, 9, 8, 10], 9), vec![1, 3]);
    assert!(bearing_starts_afresh(2, 1) && bearing_starts_afresh(0, 0));
    assert!(!bearing_starts_afresh(1, 1));
}
