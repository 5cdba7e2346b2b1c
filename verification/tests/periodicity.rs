//! Finding a repeat period.
use ed_compass::analysis::periodicity::{
    autocorrelation, estimate_period, matches_landscape, period_of_curve, PeriodicityResult,
};

const LANDSCAPE: f32 = 109.5;

fn millionths(v: f32) -> i32 {
    (v as f64 * 1e6).round() as i32
}

fn fixed(series: &[f32]) -> Vec<i32> {
    series.iter().map(|&v| millionths(v)).collect()
}

/// The period of a series, with the frame rate and the window in seconds.
fn period(series: &[f32], fps: u64, min: u64, max: u64) -> Option<PeriodicityResult> {
    estimate_period(&fixed(series), fps * 1_000_000, min * 1_000_000, max * 1_000_000)
}

fn seconds(r: &PeriodicityResult) -> f32 {
    r.period_seconds as f32 / 1e6
}

fn result(period: f32, confidence: f32, prominence: f32, lag: usize) -> PeriodicityResult {
    PeriodicityResult {
        period_seconds: (period as f64 * 1e6).round() as i128,
        confidence: millionths(confidence) as u64,
        prominence: millionths(prominence) as i64,
        peak_lag_frames: lag,
    }
}

/// A square-ish repeating pulse: one burst per period.
fn pulse_train(len: usize, period: f32, width: f32, level: f32, floor: f32) -> Vec<f32> {
    (0..len)
        .map(|i| {
            let phase = (i as f32) % period;
            if phase < width {
                level
            } else {
                floor
            }
        })
        .collect()
}

#[test]
fn autocorrelation_of_a_constant_is_empty() {
    assert!(autocorrelation(&fixed(&[5.0; 100])).is_empty());
    assert!(autocorrelation(&[]).is_empty());
    assert!(autocorrelation(&fixed(&[1.0])).is_empty());
}

#[test]
fn autocorrelation_peaks_at_zero_lag() {
    let s: Vec<f32> = (0..256).map(|i| (i as f32 * 0.3).sin()).collect();
    let c = autocorrelation(&fixed(&s));
    assert_eq!(c[0], 1_000_000, "r[0] should be 1");
    assert!(c[1..].iter().all(|&v| v <= c[0]));
}

#[test]
fn autocorrelation_is_exact_on_whole_numbers() {
    // Means off, the series is 1, -1, 1, -1: opposite at odd lags, the same at even ones.
    let series = [3_000_000, 1_000_000, 3_000_000, 1_000_000];
    assert_eq!(
        autocorrelation(&series),
        vec![1_000_000, -1_000_000, 1_000_000, -1_000_000]
    );
    // 2, -1, -1 over a square sum of 6, by the overlap.
    let other = [4_000_000, 1_000_000, 1_000_000];
    assert_eq!(autocorrelation(&other), vec![1_000_000, -250_000, -1_000_000]);
}

#[test]
fn an_offset_leaves_the_autocorrelation_alone() {
    let s = fixed(&pulse_train(200, 23.0, 4.0, -10.0, -60.0));
    let raised: Vec<i32> = s.iter().map(|v| v + 7_000_123).collect();
    assert_eq!(autocorrelation(&raised), autocorrelation(&s));
}

#[test]
fn finds_a_known_period_in_a_pulse_train() {
    // 600 s at 1 fps with a repeat every 40 s.
    let s = pulse_train(600, 40.0, 5.0, 0.0, -60.0);
    let r = period(&s, 1, 10, 200).unwrap();
    assert!((seconds(&r) - 40.0).abs() < 0.5, "got {}", seconds(&r));
    assert!(r.confidence > 500_000, "confidence {}", r.confidence);
    assert!(r.prominence > 200_000, "prominence {}", r.prominence);
}

#[test]
fn finds_the_landscape_period_at_one_frame_per_second() {
    // Two and a half cycles of a 109.5 s repeat, what the long-term tier would hold after a
    // while.
    let len = 600;
    let s: Vec<f32> = (0..len)
        .map(|i| {
            let phase = (i as f32) % LANDSCAPE;
            // A rising ramp then silence: crude, but it has the right period.
            if phase < 30.0 {
                -40.0 + phase
            } else {
                -80.0
            }
        })
        .collect();
    let r = period(&s, 1, 30, 300).unwrap();
    assert!(
        (seconds(&r) - LANDSCAPE).abs() < 1.0,
        "expected ~109.5 s, got {}",
        seconds(&r)
    );
    assert!(matches_landscape(&r, 1_000_000), "{r:?}");
}

#[test]
fn parabolic_interpolation_beats_integer_lag_resolution() {
    // A 40.5 s period cannot be represented by an integer lag at 1 fps.
    let cycle = 40.5f32;
    let s: Vec<f32> = (0..800)
        .map(|i| (std::f32::consts::TAU * i as f32 / cycle).sin())
        .collect();
    let r = period(&s, 1, 10, 100).unwrap();
    assert_ne!(
        r.peak_lag_frames as f32, cycle,
        "the integer peak is off by design"
    );
    assert!(
        (seconds(&r) - cycle).abs() < 0.3,
        "interpolated to {}, expected {cycle}",
        seconds(&r)
    );
}

#[test]
fn noise_yields_low_confidence() {
    let mut state = 0xC0FFEEu32;
    let noise: Vec<f32> = (0..600)
        .map(|_| {
            state = state.wrapping_mul(1_664_525).wrapping_add(1_013_904_223);
            (state >> 8) as f32 / 8_388_608.0 - 1.0
        })
        .collect();
    let r = period(&noise, 1, 30, 200).unwrap();
    assert!(
        r.confidence < 400_000,
        "noise should not look periodic: {}",
        r.confidence
    );
    assert!(!matches_landscape(&r, 1_000_000));
}

#[test]
fn refuses_lags_it_cannot_see_twice() {
    // 100 frames cannot evidence a 200 s period.
    let s = pulse_train(100, 20.0, 3.0, 0.0, -50.0);
    assert!(period(&s, 1, 150, 300).is_none());
}

#[test]
fn rejects_nonsense_parameters() {
    let s = pulse_train(300, 30.0, 4.0, 0.0, -50.0);
    assert!(period(&s, 0, 10, 100).is_none());
    assert!(period(&s, 1, 100, 10).is_none());
    assert!(period(&s, 1, 0, 100).is_none());
    assert!(period(&[], 1, 10, 100).is_none());
}

#[test]
fn a_flat_series_has_no_period() {
    assert!(period(&[-60.0; 500], 1, 10, 200).is_none());
}

#[test]
fn measured_ship_ambience_is_rejected() {
    // Real readings captured at Eratosthenes: the periods wander and the confidence never
    // approaches what the genuine signal produces.
    for (period, confidence, prominence) in [
        (49.8f32, 0.48f32, 0.30f32),
        (75.0, 0.49, 0.31),
        (124.1, 0.53, 0.35),
        (125.6, 0.49, 0.33),
        // Even landing near the right period is not enough on its own.
        (109.6, 0.53, 0.35),
    ] {
        let r = result(period, confidence, prominence, period as usize);
        assert!(
            !matches_landscape(&r, 2_000_000),
            "ambient reading {r:?} must not be called the Landscape Signal"
        );
    }
}

#[test]
fn the_measured_reference_is_accepted() {
    // CMDR Serbanstein's recording, as this tool measures it.
    let r = result(109.67, 0.98, 0.98, 110);
    assert!(matches_landscape(&r, 2_000_000), "the genuine signal must pass");
}

#[test]
fn landscape_match_requires_more_than_a_lucky_lag() {
    let weak = result(109.5, 0.05, 0.01, 110);
    assert!(
        !matches_landscape(&weak, 1_000_000),
        "a weak peak at the right lag is not a match"
    );
    let wrong_period = result(60.0, 0.9, 0.5, 60);
    assert!(!matches_landscape(&wrong_period, 1_000_000));
}

#[test]
fn periodicity_results_are_always_finite() {
    let s = pulse_train(400, 33.0, 2.0, 0.0, -70.0);
    let r = period(&s, 1, 10, 150).unwrap();
    assert!(r.confidence <= 1_000_000);
    assert!(r.prominence.abs() <= 2_000_000);
    assert!(r.period_seconds > 0);
}

#[test]
fn the_fundamental_is_preferred_to_its_harmonics() {
    // Peaks at 4 and 8, the second a little taller.
    let curve: Vec<i32> = [1_000, 0, 0, 0, 950, 0, 0, 0, 1_000, 0, 0, 0, 0, 0, 0, 0, 0, 0, 0, 0]
        .iter()
        .map(|v| v * 1_000)
        .collect();
    let r = period_of_curve(&curve, 1_000_000, 2_000_000, 9_000_000).unwrap();
    assert_eq!(r.peak_lag_frames, 4);
    assert_eq!(r.period_seconds, 4_000_000);
    assert_eq!(r.confidence, 950_000);
    assert_eq!(r.prominence, 950_000);
}

#[test]
fn the_widest_swings_are_correlated() {
    assert_eq!(
        autocorrelation(&[i32::MIN, i32::MAX]),
        vec![1_000_000, -999_999],
        "about a mean that is rounded down"
    );
    let wide: Vec<i32> = (0..64).map(|i| if i % 2 == 0 { i32::MAX } else { -i32::MAX }).collect();
    let curve = autocorrelation(&wide);
    assert_eq!((curve[0], curve[1], curve[2]), (1_000_000, -1_000_000, 1_000_000));
}

#[test]
fn periods_of_hours_are_found() {
    // One value every hundred seconds, and a pulse every forty values.
    let s: Vec<i32> = (0..400).map(|i| if i % 40 < 3 { -20_000_000 } else { -60_000_000 }).collect();
    let r = estimate_period(&s, 10_000, 1_000_000_000, 9_000_000_000).unwrap();
    assert_eq!(r.peak_lag_frames, 40);
    assert!((seconds(&r) - 4000.0).abs() < 10.0, "{r:?}");
}
