//! Signal health readouts.
use ed_compass::analysis::statistics::{
    AmplitudeHistogram, HealthWindow, SignalStats, FULL_SCALE,
};

/// An amplitude in whole steps, where it is a number.
fn steps(v: f32) -> Option<i32> {
    if v.is_finite() {
        Some((v * FULL_SCALE as f32).round() as i32)
    } else {
        None
    }
}

fn amplitudes(v: &[f32]) -> Vec<Option<i32>> {
    v.iter().map(|&s| steps(s)).collect()
}

fn compute(v: &[f32]) -> SignalStats {
    SignalStats::compute(&amplitudes(v))
}

fn unit(v: i64) -> f32 {
    v as f32 / FULL_SCALE as f32
}

fn near(a: f32, b: f32, tol: f32) {
    assert!((a - b).abs() <= tol, "{a} not within {tol} of {b}");
}

#[test]
fn empty_window_is_reported_as_empty_not_as_a_crash() {
    let s = compute(&[]);
    assert_eq!(s.sample_count, 0);
    assert_eq!(s.rms, 0);
    assert!(s.is_silent());
}

#[test]
fn silence_reads_as_silence() {
    let s = compute(&[0.0; 1000]);
    assert_eq!(s.rms, 0);
    assert_eq!(s.peak, 0);
    assert_eq!(s.zero_crossing_rate, 0);
    assert!(s.is_silent());
}

#[test]
fn constant_dc_has_no_crossings_and_a_measurable_offset() {
    let s = compute(&[0.5; 512]);
    near(unit(s.rms as i64), 0.5, 1e-6);
    near(unit(s.dc_offset as i64), 0.5, 1e-6);
    assert_eq!(s.zero_crossing_rate, 0);
    assert_eq!(Some(s.min), steps(0.5));
    assert_eq!(Some(s.max), steps(0.5));
    assert!(!s.is_silent());
}

#[test]
fn full_scale_positive_and_negative() {
    let p = compute(&[1.0; 100]);
    assert_eq!(p.peak as i32, FULL_SCALE);
    assert_eq!(p.clipped_samples, 100);
    assert_eq!(p.max, FULL_SCALE);

    let n = compute(&[-1.0; 100]);
    assert_eq!(n.peak as i32, FULL_SCALE);
    assert_eq!(n.min, -FULL_SCALE);
    assert_eq!(n.zero_crossing_rate, 0);
}

#[test]
fn sine_rms_is_amplitude_over_root_two() {
    let n = 48_000;
    let sine: Vec<f32> = (0..n)
        .map(|i| (2.0 * std::f32::consts::PI * 100.0 * i as f32 / n as f32).sin())
        .collect();
    let s = compute(&sine);
    near(unit(s.rms as i64), 1.0 / 2.0f32.sqrt(), 1e-3);
    near(unit(s.peak as i64), 1.0, 1e-3);
    near(unit(s.dc_offset as i64), 0.0, 1e-4);
    // 100 cycles over 48000 samples => 200 crossings.
    near(s.zero_crossing_rate as f32 / 1e6, 200.0 / 47_999.0, 1e-4);
}

#[test]
fn alternating_signal_crosses_every_sample() {
    let alt: Vec<f32> = (0..100)
        .map(|i| if i % 2 == 0 { 1.0 } else { -1.0 })
        .collect();
    assert_eq!(compute(&alt).zero_crossing_rate, 1_000_000);
}

#[test]
fn single_sample_has_no_crossing_rate() {
    let s = compute(&[0.7]);
    assert_eq!(s.sample_count, 1);
    assert_eq!(s.zero_crossing_rate, 0);
}

#[test]
fn non_finite_samples_are_neutralized() {
    let s = compute(&[f32::NAN, 0.5, f32::INFINITY, -0.5]);
    assert_eq!(s.sample_count, 4);
    near(unit(s.peak as i64), 0.5, 1e-6);
}

#[test]
fn histogram_bins_span_minus_one_to_plus_one() {
    let h = AmplitudeHistogram::new(100);
    let (low, _) = h.bin_range(0);
    let (_, high) = h.bin_range(99);
    near(unit(low), -1.0, 1e-6);
    near(unit(high), 1.0, 1e-6);
    // 100 bins across a range of 2.0 is 0.02 per bin.
    let (a, b) = h.bin_range(0);
    near(unit(b - a), 0.02, 1e-6);

    let forty = AmplitudeHistogram::new(40);
    let (a, b) = forty.bin_range(0);
    near(unit(a), -1.0, 1e-6);
    near(unit(b), -0.95, 1e-6);
}

#[test]
fn histogram_bin_edges_are_half_open_at_the_low_side() {
    let h = AmplitudeHistogram::new(4); // edges at -1, -0.5, 0, 0.5, 1
    assert_eq!(h.bin_index(steps(-1.0)), 0);
    assert_eq!(h.bin_index(steps(-0.75)), 0);
    assert_eq!(h.bin_index(steps(-0.5)), 1);
    assert_eq!(h.bin_index(steps(-0.25)), 1);
    assert_eq!(h.bin_index(steps(0.0)), 2);
    assert_eq!(h.bin_index(steps(0.49)), 2);
    assert_eq!(h.bin_index(steps(0.5)), 3);
    assert_eq!(h.bin_index(steps(1.0)), 3, "the top bin is closed at +1.0");
}

#[test]
fn out_of_range_samples_clamp_and_are_counted() {
    let mut h = AmplitudeHistogram::new(10);
    h.add(steps(-4.0));
    h.add(steps(4.0));
    assert_eq!(h.counts()[0], 1);
    assert_eq!(h.counts()[9], 1);
    assert_eq!(h.total(), 2);
    assert_eq!(h.out_of_range(), 2);
}

#[test]
fn non_finite_samples_land_mid_scale_without_panicking() {
    let mut h = AmplitudeHistogram::new(10);
    h.add(steps(f32::NAN));
    assert_eq!(h.total(), 1);
    assert_eq!(h.counts().iter().sum::<u64>(), 1);
    assert_eq!(h.counts()[5], 1);
}

#[test]
fn normalization_sums_to_one() {
    let mut h = AmplitudeHistogram::new(8);
    h.add_all(&amplitudes(&[-0.9, -0.3, 0.0, 0.2, 0.2, 0.85]));
    let n = h.normalized();
    near(n.iter().sum::<u64>() as f32 / 1e9, 1.0, 1e-6);
    // 0.0 and both 0.2 samples share bin 4 (edges at 0.0 and 0.25).
    assert_eq!(h.counts()[4], 3);
    assert_eq!(h.peak_fraction(), 500_000_000);
}

#[test]
fn empty_histogram_normalizes_to_zeros() {
    let h = AmplitudeHistogram::new(16);
    assert_eq!(h.normalized(), vec![0; 16]);
    assert_eq!(h.peak_fraction(), 0);
}

#[test]
fn silence_concentrates_in_the_centre_bins() {
    let mut h = AmplitudeHistogram::new(100);
    h.add_all(&amplitudes(&[0.0; 1000]));
    assert_eq!(h.counts()[50], 1000);
}

#[test]
fn clearing_resets_every_counter() {
    let mut h = AmplitudeHistogram::new(4);
    h.add_all(&amplitudes(&[0.1, 5.0]));
    h.clear();
    assert_eq!(h.total(), 0);
    assert_eq!(h.out_of_range(), 0);
    assert!(h.counts().iter().all(|&c| c == 0));
}

#[test]
fn a_window_reads_as_its_samples_do_in_one_pass() {
    let all: Vec<f32> = (0..900).map(|i| (i as f32 * 0.37).sin() * 0.8).collect();
    let mut w = HealthWindow::new(1_000_000, 1000, 20);
    for piece in all.chunks(90) {
        w.push(&amplitudes(piece));
    }
    assert_eq!(w.frames(), 900);
    let whole = compute(&all);
    let seen = w.stats();
    assert_eq!(
        (seen.sample_count, seen.rms, seen.peak, seen.min, seen.max),
        (whole.sample_count, whole.rms, whole.peak, whole.min, whole.max)
    );
    assert_eq!(seen.dc_offset, whole.dc_offset);
    assert_eq!(seen.zero_crossing_rate, whole.zero_crossing_rate);
    let mut h = AmplitudeHistogram::new(20);
    h.add_all(&amplitudes(&all));
    assert_eq!(w.histogram(), h.counts());
}

#[test]
fn a_window_forgets_what_is_older_than_it() {
    let mut w = HealthWindow::new(1_000_000, 100, 10);
    w.push(&amplitudes(&[1.0; 50]));
    for _ in 0..4 {
        w.push(&amplitudes(&[0.25; 50]));
    }
    let s = w.stats();
    assert_eq!(Some(s.max), steps(0.25), "the loud block has left");
    w.clear();
    assert!(w.is_empty());
    assert_eq!(w.stats().sample_count, 0);
}

#[test]
fn a_crossing_leaves_with_the_block_before_it() {
    let mut w = HealthWindow::new(1_000_000, 2, 2);
    w.push(&amplitudes(&[1.0]));
    w.push(&amplitudes(&[-1.0]));
    w.push(&amplitudes(&[1.0]));
    assert_eq!(w.frames(), 2);
    let s = w.stats();
    assert_eq!(s.sample_count, 2);
    assert_eq!(s.zero_crossing_rate, 1_000_000);

    // A block of one sign after it leaves a single crossing in the window.
    let mut w = HealthWindow::new(1_000_000, 4, 2);
    w.push(&amplitudes(&[1.0, 1.0]));
    w.push(&amplitudes(&[-1.0, -1.0]));
    w.push(&amplitudes(&[1.0, 1.0]));
    assert_eq!(w.frames(), 4);
    assert_eq!(w.stats(), compute(&[-1.0, -1.0, 1.0, 1.0]));
}

#[test]
fn a_window_counts_every_sample_it_holds() {
    let mut w = HealthWindow::new(1_000_000, 100, 7);
    for n in [30usize, 0, 50, 40, 99, 2, 250, 1, 100] {
        let before = w.frames();
        let block: Vec<f32> = (0..n).map(|i| (i as f32 * 0.37).sin()).collect();
        w.push(&amplitudes(&block));
        if n == 0 {
            assert_eq!(w.frames(), before, "nothing came in");
        } else {
            assert!(n <= w.frames() && w.frames() <= n.max(100));
        }
        assert_eq!(w.histogram().iter().sum::<u64>(), w.frames() as u64);
        assert_eq!(w.stats().sample_count, w.frames());
    }
}
