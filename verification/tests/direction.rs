//! Bearings from inter-channel differences.
use ed_compass::analysis::direction::{
    angular_error_deg, estimate, speaker_pair, strongest_lag, wrap_deg, Bearings,
    DirectionEstimate, DirectionMethod,
};
use ed_compass::audio::format::{
    channel_layout, ChannelInfo, MASK_5_1, MASK_7_1, MASK_STEREO,
};

fn millionths(v: f32) -> i64 {
    (v as f64 * 1e6).round() as i64
}

fn near(a: i64, b: f32, tol: f32) {
    let a = a as f32 / 1e6;
    assert!((a - b).abs() <= tol, "{a} not within {tol} of {b}");
}

/// The speakers as unit vectors at their bearings, summed by weight.
fn vector_sum(powers: &[f32], layout: &[ChannelInfo], amplitudes: bool) -> Option<(f32, f32)> {
    let (mut x, mut y, mut total) = (0.0f64, 0.0f64, 0.0f64);
    for (power, info) in powers.iter().zip(layout.iter()) {
        let Some(az) = info.azimuth_deg else { continue };
        let p = (*power as f64).max(0.0);
        if p == 0.0 {
            continue;
        }
        let w = if amplitudes { p.sqrt() } else { p };
        let rad = (az as f64).to_radians();
        x += w * rad.sin();
        y += w * rad.cos();
        total += w;
    }
    if total <= 0.0 {
        return None;
    }
    Some((
        x.atan2(y).to_degrees() as f32,
        (((x * x + y * y).sqrt() / total) as f32).clamp(0.0, 1.0),
    ))
}

/// The estimate for channel powers, with a coherence where the cross-spectrum is known.
fn estimated(powers: &[f32], layout: &[ChannelInfo], coherence: Option<f32>) -> DirectionEstimate {
    let pan = speaker_pair(layout).and_then(|(l, r, spread)| {
        let al = powers[l].max(0.0).sqrt();
        let ar = powers[r].max(0.0).sqrt();
        if al == 0.0 && ar == 0.0 {
            return None;
        }
        let quarter = std::f32::consts::FRAC_PI_4;
        let pan = ((ar.atan2(al) - quarter) / quarter).clamp(-1.0, 1.0);
        Some(wrap_deg(millionths(pan * spread as f32 / 2.0)))
    });
    let sums = Bearings {
        pan,
        coherence: coherence.map(|c| millionths(c) as u64),
        velocity: vector_sum(powers, layout, true).map(|(az, _)| wrap_deg(millionths(az))),
        concentration: vector_sum(powers, layout, false).map(|(_, c)| millionths(c) as u64),
    };
    estimate(layout, &sums)
}

/// Generalized cross-correlation with phase transform, in millionths of its peak.
fn gcc_phat(a: &[f32], b: &[f32], max_lag: usize) -> Option<(i64, i64)> {
    let n = a.len().min(b.len());
    if n == 0 || max_lag == 0 {
        return None;
    }
    let padded = (2 * n).next_power_of_two();
    let mut planner = realfft::RealFftPlanner::<f32>::new();
    let fft = planner.plan_fft_forward(padded);
    let ifft = planner.plan_fft_inverse(padded);
    let mut buf_a = fft.make_input_vec();
    let mut buf_b = fft.make_input_vec();
    buf_a[..n].copy_from_slice(&a[..n]);
    buf_b[..n].copy_from_slice(&b[..n]);
    let mut spec_a = fft.make_output_vec();
    let mut spec_b = fft.make_output_vec();
    fft.process(&mut buf_a, &mut spec_a).unwrap();
    fft.process(&mut buf_b, &mut spec_b).unwrap();
    for (c, b) in spec_a.iter_mut().zip(spec_b.iter()) {
        let x = c.conj() * *b;
        let m = x.norm();
        *c = if m > 1e-20 { x / m } else { x * 0.0 };
    }
    let mut corr = ifft.make_output_vec();
    ifft.process(&mut spec_a, &mut corr).unwrap();
    let fixed: Vec<i64> = corr.iter().map(|v| millionths(v / padded as f32)).collect();
    Some(strongest_lag(&fixed, max_lag))
}

#[test]
fn wrap_covers_the_seam() {
    near(wrap_deg(0), 0.0, 1e-6);
    near(wrap_deg(180_000_000), 180.0, 1e-6);
    near(wrap_deg(-180_000_000), 180.0, 1e-6);
    near(wrap_deg(190_000_000), -170.0, 1e-6);
    near(wrap_deg(-190_000_000), 170.0, 1e-6);
    near(wrap_deg(720_000_000), 0.0, 1e-6);
}

#[test]
fn angular_error_takes_the_short_way_round() {
    near(angular_error_deg(170_000_000, -170_000_000), 20.0, 1e-4);
    near(angular_error_deg(-30_000_000, 30_000_000), 60.0, 1e-4);
}

#[test]
fn estimate_picks_pan_law_for_stereo() {
    let layout = channel_layout(MASK_STEREO, 2);
    let e = estimated(&[1.0, 0.0], &layout, None);
    assert_eq!(e.method, DirectionMethod::StereoPanLaw);
    assert!(e.front_back_ambiguous);
    near(e.azimuth_deg, -30.0, 1e-3);
}

#[test]
fn estimate_picks_energy_vector_for_surround() {
    let layout = channel_layout(MASK_7_1, 8);
    let mut powers = vec![0.0; 8];
    powers[6] = 1.0; // SL at -90°
    let e = estimated(&powers, &layout, None);
    assert_eq!(e.method, DirectionMethod::SurroundVector);
    assert!(!e.front_back_ambiguous);
    near(e.azimuth_deg, -90.0, 1e-3);
}

#[test]
fn velocity_vector_is_exact_for_pairwise_panning() {
    // Two rear speakers 90 degrees apart, amplitude-panned to 150 deg.
    let layout = channel_layout(MASK_7_1, 8);
    let (br, bl) = (5usize, 4usize); // +135 and -135
    let theta = (15.0f32).to_radians();
    let mut powers = vec![0.0; 8];
    powers[br] = theta.cos().powi(2);
    powers[bl] = theta.sin().powi(2);

    near(estimated(&powers, &layout, None).azimuth_deg, 150.0, 0.5);
    // The energy vector is biased inward on a widely-spaced pair.
    let (energy, _) = vector_sum(&powers, &layout, false).unwrap();
    assert!(
        angular_error_deg(millionths(energy), 150_000_000) > 8_000_000,
        "expected measurable energy-vector bias, got {energy}"
    );
}

#[test]
fn energy_vector_points_at_a_single_active_speaker() {
    let layout = channel_layout(MASK_7_1, 8);
    // Index 7 is SR at +90°.
    let mut powers = vec![0.0; 8];
    powers[7] = 1.0;
    let e = estimated(&powers, &layout, None);
    near(e.azimuth_deg, 90.0, 1e-3);
    assert_eq!(e.confidence, 1_000_000);
}

#[test]
fn energy_vector_resolves_the_rear() {
    let layout = channel_layout(MASK_5_1, 6);
    let mut powers = vec![0.0; 6];
    powers[4] = 1.0; // BL at -110°
    powers[5] = 1.0; // BR at +110°
    near(estimated(&powers, &layout, None).azimuth_deg, 180.0, 1e-3);
}

#[test]
fn energy_vector_ignores_lfe() {
    let layout = channel_layout(MASK_5_1, 6);
    let mut powers = vec![0.0; 6];
    powers[2] = 1.0; // FC at 0°
    powers[3] = 1000.0; // LFE, must not move the bearing
    let e = estimated(&powers, &layout, None);
    near(e.azimuth_deg, 0.0, 1e-4);
    assert_eq!(e.confidence, 1_000_000);
}

#[test]
fn mono_content_in_a_stereo_stream_reads_centre() {
    let layout = channel_layout(MASK_STEREO, 2);
    let e = estimated(&[1.25, 1.25], &layout, Some(1.0));
    near(e.azimuth_deg, 0.0, 1e-4);
    assert_eq!(e.confidence, 1_000_000);
}

#[test]
fn a_mono_stream_has_no_bearing() {
    let layout = channel_layout(0, 1);
    // A single channel at 0° cannot discriminate anything.
    let e = estimated(&[1.0], &layout, None);
    assert_eq!(e.method, DirectionMethod::Insufficient);
    assert_eq!(e.confidence, 0);
    assert!(!e.is_usable());
}

#[test]
fn zero_power_event_reports_insufficient_not_nan() {
    let layout = channel_layout(MASK_7_1, 8);
    let e = estimated(&[0.0; 8], &layout, None);
    assert_eq!(e, DirectionEstimate::insufficient());
}

#[test]
fn silence_yields_no_stereo_bearing() {
    let layout = channel_layout(MASK_STEREO, 2);
    let e = estimated(&[0.0, 0.0], &layout, Some(0.0));
    assert_eq!(e.method, DirectionMethod::Insufficient);
}

#[test]
fn speakers_pair_up_from_left_to_right() {
    let mut layout = channel_layout(MASK_STEREO, 2);
    assert_eq!(speaker_pair(&layout), Some((0, 1, 60)));
    layout.reverse();
    assert_eq!(speaker_pair(&layout), Some((1, 0, 60)));
    assert_eq!(speaker_pair(&channel_layout(MASK_7_1, 8)), None);
}

#[test]
fn gcc_phat_finds_a_known_delay() {
    let n = 2048;
    let delay = 17usize;
    // Broadband content, so the phase transform has something to lock onto.
    let a: Vec<f32> = (0..n)
        .map(|i| ((i as f32 * 0.37).sin() + (i as f32 * 1.13).sin()) * 0.5)
        .collect();
    let mut b = vec![0.0; n];
    b[delay..].copy_from_slice(&a[..n - delay]);

    let (lag, peak) = gcc_phat(&a, &b, 64).unwrap();
    assert_eq!(lag, delay as i64, "b lags a by {delay}");
    assert!(peak > 0, "peak should be positive, got {peak}");
}

#[test]
fn gcc_phat_reports_zero_lag_for_amplitude_panning() {
    let n = 1024;
    let a: Vec<f32> = (0..n).map(|i| (i as f32 * 0.41).sin()).collect();
    let b: Vec<f32> = a.iter().map(|v| v * 0.3).collect();
    let (lag, _) = gcc_phat(&a, &b, 32).unwrap();
    assert_eq!(lag, 0, "pure level difference implies no time difference");
}

#[test]
fn gcc_phat_handles_degenerate_input() {
    assert!(gcc_phat(&[], &[], 8).is_none());
    assert!(gcc_phat(&[1.0, 2.0], &[1.0, 2.0], 0).is_none());
    // All-silent input must not panic.
    let (_, peak) = gcc_phat(&[0.0; 256], &[0.0; 256], 16).unwrap();
    assert_eq!(peak, 0);
}

#[test]
fn the_earliest_of_equal_lags_is_taken() {
    assert_eq!(strongest_lag(&[5, 9, 1, 9], 1), (-1, 9));
    assert_eq!(strongest_lag(&[5, 1, 1, 1], 9), (0, 5));
}
