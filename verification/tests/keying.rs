//! Telling a transmission from everything that merely sounds like one.
use ed_compass::analysis::keying::{KeyingDetector, KEYING_HISTORY_SECONDS};

const FRAME_SECONDS: f32 = 512.0 / 48_000.0; // ~10.7 ms
const SAMPLE_RATE: u32 = 48_000;
const FFT: usize = 1024;

fn detector() -> KeyingDetector {
    KeyingDetector::new(512, SAMPLE_RATE, FFT)
}

/// No keying, whether because nothing qualified as a symbol or because what
/// did scored too low. Both are a negative result.
fn assert_not_keying(d: &KeyingDetector, what: &str) {
    match d.evaluate() {
        None => {}
        Some(r) => assert!(!r.is_present(500_000), "{what} read as a transmission: {r:?}"),
    }
}

/// Feed an alternating two-tone pattern with a fixed symbol length.
fn feed_keyed(
    d: &mut KeyingDetector,
    bins: &[usize],
    frames_per_symbol: usize,
    symbols: usize,
) {
    for i in 0..symbols {
        let bin = bins[i % bins.len()];
        for _ in 0..frames_per_symbol {
            d.push(bin, true);
        }
    }
}

/// Single-tone on/off keying — Morse — scores nothing here.
///
/// A limitation rather than a defect. This detector is for the Thargoid
/// *Probe* tightbeam, which is multi-tone FSK, and confidence is zero unless
/// at least two distinct tones are in use.
/// Thargoid *Sensor* Morse is one tone switched on and off, so it cannot
/// score, however clean it is.
#[test]
fn single_tone_morse_is_currently_invisible() {
    let mut d = detector();
    // One tone, varying dwell times: dots and dashes.
    for (i, len) in [4usize, 4, 12, 4, 12, 12, 4, 4, 12, 4, 4, 12]
        .iter()
        .copied()
        .enumerate()
    {
        for _ in 0..len {
            d.push(60, true);
        }
        // The gap between marks is silence, not another tone.
        for _ in 0..4 {
            d.push(60, false);
        }
        let _ = i;
    }

    match d.evaluate() {
        None => {}
        Some(r) => assert_eq!(
            r.confidence, 0,
            "one tone cannot satisfy the alphabet term; if this ever \
             becomes non-zero, on/off keying is being detected and this \
             test should become a positive one"
        ),
    }
}

/// Timing at the analysis floor is the instrument, not the audio: the fastest rate that the
/// detector can express is what a jittering dominant bin looks like.
#[test]
fn timing_at_the_analysis_floor_is_refused() {
    let mut d = detector();
    // Every symbol exactly at the minimum length: the argmax flipping
    // between two bins as fast as frames arrive.
    feed_keyed(&mut d, &[40, 80], 2, 60);

    assert!(
        d.evaluate().is_none(),
        "a median symbol at the floor cannot be told from bin jitter, so it \
         must not be reported as keying"
    );
}

/// The same pattern, slowed down, is exactly what we want to detect.
#[test]
fn resolvable_symbol_timing_is_still_reported() {
    let mut d = detector();
    // Four frames per symbol: comfortably above the floor, so the period is
    // a measurement rather than an artefact.
    feed_keyed(&mut d, &[40, 80], 4, 60);

    let r = d
        .evaluate()
        .expect("resolvable keying must still be reported");
    let expected = 1.0 / (4.0 * FRAME_SECONDS);
    assert!(
        (r.symbol_rate_hz as f32 / 1e6 - expected).abs() < expected * 0.2,
        "expected about {expected:.1} symbols/s, got {}",
        r.symbol_rate_hz
    );
}

/// The rejected rate is a property of the frame rate, and nothing else.
#[test]
fn the_refused_rate_is_the_frame_rate_not_a_signal() {
    // Whatever the hop, the artefact lands at frame_rate / min_symbol_frames.
    // Recording it here so the coincidence in the field data stays legible.
    let frame_rate: f32 = 48_000.0 / 2048.0;
    assert!((frame_rate - 23.4375).abs() < 1e-4);
    assert!((frame_rate / 2.0 - 11.71875).abs() < 1e-4);
}

#[test]
fn keying_nothing_is_reported_before_there_is_evidence() {
    let mut d = detector();
    feed_keyed(&mut d, &[40, 80], 4, 3);
    assert!(d.evaluate().is_none(), "three symbols prove nothing");
}

#[test]
fn a_clean_two_tone_transmission_is_detected() {
    let mut d = detector();
    feed_keyed(&mut d, &[40, 80], 4, 40);
    d.push(0, false);
    for _ in 0..60 {
        d.push(0, false);
    }

    let r = d.evaluate().expect("enough symbols");
    assert!(r.confidence > 800_000, "clean keying should be obvious: {r:?}");
    assert!(r.is_present(500_000));
    assert_eq!(
        r.tones_hz.len().min(2),
        2,
        "two tones expected: {:?}",
        r.tones_hz
    );

    // 40 * 48000/1024 = 1875 Hz, 80 -> 3750 Hz.
    let mut tones = r.tones_hz.clone();
    tones.sort();
    assert!(tones[0].abs_diff(1_875_000_000) < 60_000_000, "{tones:?}");
    assert!(tones[1].abs_diff(3_750_000_000) < 60_000_000, "{tones:?}");

    // Four frames per symbol at 10.7 ms => ~23 symbols/s.
    assert!(
        (r.symbol_rate_hz as f32 / 1e6 - 23.4).abs() < 3.0,
        "symbol rate {}",
        r.symbol_rate_hz
    );
    assert!(r.timing_regularity > 900_000, "{r:?}");
}

#[test]
fn a_single_held_tone_is_not_keying() {
    let mut d = detector();
    // Same bin throughout: one long symbol, no alphabet, no transitions.
    for _ in 0..400 {
        d.push(55, true);
    }
    // Even forcing symbol closure with idle gaps, it stays one tone.
    for _ in 0..8 {
        for _ in 0..60 {
            d.push(0, false);
        }
        for _ in 0..20 {
            d.push(55, true);
        }
    }
    assert_not_keying(&d, "a steady held tone");
}

#[test]
fn single_frame_flicker_never_becomes_a_symbol() {
    // Noise changes its peak bin every frame. That is not a transmission,
    // and a stream of one-frame symbols would make noise look perfectly
    // "regular".
    // Genuinely per-frame flicker: each frame lands far from the last, so
    // no run ever reaches two frames.
    let mut d = detector();
    let mut state = 0xDEAD_BEEFu32;
    for _ in 0..500 {
        state = state.wrapping_mul(1_664_525).wrapping_add(1_013_904_223);
        d.push((state >> 18) as usize % 400, true);
    }
    // A handful survive by chance when the generator happens to land twice
    // within bin tolerance; 500 frames of flicker must not yield 500 symbols.
    assert!(
        d.symbol_count() < 20,
        "one-frame runs must be discarded, got {}",
        d.symbol_count()
    );
    assert_not_keying(&d, "per-frame flicker");
}

#[test]
fn a_frequency_sweep_is_not_keying() {
    let mut d = detector();
    // The peak marches steadily upward — many tones, no alphabet.
    for step in 0..300 {
        d.push(20 + step / 2, true);
    }
    let r = d.evaluate().expect("a sweep does produce symbols");
    assert!(
        r.alphabet_purity < 300_000,
        "a sweep should not concentrate on a few tones: {r:?}"
    );
    assert!(!r.is_present(500_000), "{r:?}");
}

#[test]
fn wandering_noise_is_not_keying() {
    let mut d = detector();
    // Pseudo-random peak bin: no alphabet, no timing.
    let mut state = 0x1234_5678u32;
    for _ in 0..400 {
        state = state.wrapping_mul(1_664_525).wrapping_add(1_013_904_223);
        d.push((state >> 20) as usize % 400, true);
    }
    assert_not_keying(&d, "wandering noise");
}

#[test]
fn bin_jitter_does_not_split_one_tone_in_two() {
    let mut d = detector();
    // A tone straddling two bins should still read as one symbol.
    for i in 0..40 {
        let bin = if i % 2 == 0 { 40 } else { 41 };
        for _ in 0..4 {
            d.push(bin, true);
        }
    }
    assert!(
        d.symbol_count() <= 2,
        "jitter within tolerance should not create symbols: {}",
        d.symbol_count()
    );
}

#[test]
fn silence_closes_a_symbol_rather_than_extending_it() {
    let mut d = detector();
    for _ in 0..5 {
        d.push(30, true);
    }
    // A long idle gap ends the run.
    for _ in 0..60 {
        d.push(0, false);
    }
    assert_eq!(d.symbol_count(), 1);
    for _ in 0..5 {
        d.push(30, true);
    }
    for _ in 0..60 {
        d.push(0, false);
    }
    assert_eq!(d.symbol_count(), 2, "the gap must separate the two bursts");
}

#[test]
fn a_fixed_alphabet_is_stable_and_a_sweep_is_not() {
    // The property that separates a transmission from wandering ambience.
    let mut keyed = detector();
    feed_keyed(&mut keyed, &[40, 80], 4, 40);
    let k = keyed.evaluate().unwrap();
    assert!(
        k.tone_stability > 900_000,
        "keying reuses its alphabet throughout: {k:?}"
    );

    // A slow sweep: every symbol lands somewhere new, so the second half
    // shares nothing with the first.
    let mut sweep = detector();
    for step in 0..80 {
        for _ in 0..4 {
            sweep.push(20 + step * 3, true);
        }
    }
    let s = sweep.evaluate().unwrap();
    assert!(
        s.tone_stability < 200_000,
        "a sweep never returns to a frequency: {s:?}"
    );
    assert!(!s.is_present(500_000), "{s:?}");
}

#[test]
fn drifting_tones_score_below_a_fixed_alphabet() {
    // Ambience that wanders slowly across a handful of nearby tones
    // would outscore a genuine signal. Stability must pull it down.
    let mut drifting = detector();
    for block in 0..20 {
        // The alphabet itself moves as the window advances.
        let a = 40 + block * 2;
        let b = 90 + block * 2;
        for (i, bin) in [a, b].iter().enumerate() {
            let _ = i;
            for _ in 0..4 {
                drifting.push(*bin, true);
            }
        }
    }
    let d = drifting.evaluate().unwrap();

    let mut fixed = detector();
    feed_keyed(&mut fixed, &[40, 90], 4, 40);
    let f = fixed.evaluate().unwrap();

    assert!(
        f.tone_stability > d.tone_stability,
        "a fixed alphabet {f:?} must beat a drifting one {d:?}"
    );
    assert!(f.confidence > d.confidence);
}

#[test]
fn irregular_timing_lowers_confidence() {
    let mut regular = detector();
    feed_keyed(&mut regular, &[40, 80], 4, 40);

    let mut irregular = detector();
    let lengths = [1usize, 9, 2, 14, 3, 21, 1, 17];
    for i in 0..40 {
        let bin = if i % 2 == 0 { 40 } else { 80 };
        for _ in 0..lengths[i % lengths.len()] {
            irregular.push(bin, true);
        }
    }

    let a = regular.evaluate().unwrap();
    let b = irregular.evaluate().unwrap();
    assert!(
        a.timing_regularity > b.timing_regularity,
        "regular {a:?} should beat irregular {b:?}"
    );
    assert!(a.confidence > b.confidence);
}

#[test]
fn a_detection_decays_once_the_signal_stops() {
    // Symbols that only left on capacity would report a transmission
    // indefinitely after the signal ended: muting the source produces no new
    // symbols, so stale ones would latch the indicator on.
    let mut d = detector();
    feed_keyed(&mut d, &[40, 80], 4, 40);
    assert!(
        d.evaluate().is_some_and(|r| r.is_present(500_000)),
        "should detect while transmitting"
    );

    // Silence for longer than the history window.
    let quiet_frames = (KEYING_HISTORY_SECONDS as f32 / FRAME_SECONDS) as usize + 100;
    for _ in 0..quiet_frames {
        d.push(0, false);
    }

    assert_eq!(d.symbol_count(), 0, "history must age out, not persist");
    assert_not_keying(&d, "a transmission that stopped");
}

#[test]
fn history_covers_a_useful_window() {
    let d = detector();
    assert!(
        d.history_seconds().abs_diff(KEYING_HISTORY_SECONDS as u128 * 1_000_000) < 1_000_000,
        "history is {} us",
        d.history_seconds()
    );
}

#[test]
fn continuing_transmission_keeps_reporting() {
    // Ageing must not break a signal that is still going.
    let mut d = detector();
    for _ in 0..8 {
        feed_keyed(&mut d, &[40, 80], 4, 20);
        assert!(
            d.evaluate().is_some_and(|r| r.is_present(500_000)),
            "a sustained transmission must stay detected"
        );
    }
}

#[test]
fn reset_clears_history() {
    let mut d = detector();
    feed_keyed(&mut d, &[40, 80], 4, 40);
    assert!(d.symbol_count() > 0);
    d.reset();
    assert_eq!(d.symbol_count(), 0);
    assert!(d.evaluate().is_none());
}

#[test]
fn history_is_bounded() {
    let mut d = detector();
    feed_keyed(&mut d, &[40, 80], 2, 5000);
    assert!(
        d.symbol_count() <= 512,
        "history must not grow without limit"
    );
}

#[test]
fn keying_results_are_always_finite() {
    let mut d = detector();
    feed_keyed(&mut d, &[40, 80], 4, 40);
    let r = d.evaluate().unwrap();
    for share in [r.confidence, r.timing_regularity, r.alphabet_purity, r.tone_stability] {
        assert!(share <= 1_000_000, "{r:?}");
    }
    // Four frames of 512 samples a symbol, at 48 kHz.
    assert_eq!(r.symbol_rate_hz, 23_437_500);
    assert_eq!(r.symbol_count, 39);
}
