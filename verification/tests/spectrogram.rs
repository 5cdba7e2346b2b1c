//! The quantized spectrogram and its long-term summary.
use ed_compass::analysis::spectrogram::{
    band_bins, DbRange, LongTermSummarizer, SpectrogramHistory,
};

fn db(level: f32) -> Option<i64> {
    if level.is_finite() {
        Some((level as f64 * 1e6) as i64)
    } else {
        None
    }
}

fn frame(levels: &[f32]) -> Vec<Option<i64>> {
    levels.iter().map(|&l| db(l)).collect()
}

fn near(level: i32, expected: f32, tol: f32) -> bool {
    (level as f32 / 1e6 - expected).abs() < tol
}

/// The edges of bands that span a range in equal ratios, in millionths of a hertz.
fn log_band_edges(bands: usize, low: f64, high: f64) -> Vec<u64> {
    (0..=bands)
        .map(|i| (low * (high / low).powf(i as f64 / bands as f64) * 1e6).round() as u64)
        .collect()
}

fn summarizer(bands: usize, bins: usize, low: f64, frames: usize) -> LongTermSummarizer {
    LongTermSummarizer::new(log_band_edges(bands, low, 24_000.0), bins, 48_000, frames)
}

#[test]
fn quantization_round_trips_within_a_step() {
    let r = DbRange::default();
    for level in [-120.0f32, -90.0, -42.5, -6.0, 0.0] {
        let back = r.dequantize(r.quantize(db(level)));
        assert!(near(back, level, 0.25), "{level} -> {back}");
    }
}

#[test]
fn quantization_clamps_out_of_range_and_non_finite() {
    let r = DbRange::default();
    assert_eq!(r.quantize(db(-500.0)), 0);
    assert_eq!(r.quantize(db(40.0)), 255);
    assert_eq!(r.quantize(db(f32::NEG_INFINITY)), 0);
    assert_eq!(r.quantize(db(f32::NAN)), 0);
}

#[test]
fn every_byte_survives_a_round_trip() {
    let r = DbRange::default();
    for q in 0..=255u8 {
        assert_eq!(r.quantize(Some(r.dequantize(q) as i64)), q);
    }
}

#[test]
fn history_starts_empty() {
    let h = SpectrogramHistory::new(4, 3, DbRange::default());
    assert!(h.is_empty());
    assert_eq!(h.frame_at(0), None);
    assert_eq!(h.total_frames(), 0);
    assert_eq!(h.iter().len(), 0);
}

#[test]
fn history_evicts_oldest_and_keeps_order() {
    let r = DbRange::default();
    let mut h = SpectrogramHistory::new(2, 3, r);
    for i in 0..5 {
        h.push_db(&frame(&[-100.0 + i as f32 * 10.0, -50.0]));
    }
    assert_eq!(h.len(), 3);
    assert_eq!(h.total_frames(), 5);
    assert_eq!(h.oldest_frame(), 2);

    // Frames 2, 3, 4 survive, in order.
    let first = r.dequantize(h.frame_at(0).unwrap()[0]);
    let last = r.dequantize(h.frame_at(2).unwrap()[0]);
    assert!(near(first, -80.0, 0.5), "got {first}");
    assert!(near(last, -60.0, 0.5), "got {last}");
    assert_eq!(h.frame_at(3), None);
}

#[test]
fn absolute_indexing_tracks_eviction() {
    let mut h = SpectrogramHistory::new(1, 2, DbRange::default());
    for _ in 0..4 {
        h.push_db(&frame(&[-10.0]));
    }
    assert!(h.frame_by_index(1).is_none(), "frame 1 has been evicted");
    assert!(h.frame_by_index(2).is_some());
    assert!(h.frame_by_index(3).is_some());
    assert!(
        h.frame_by_index(4).is_none(),
        "frame 4 has not been written"
    );
}

#[test]
fn history_memory_matches_the_spec_budget() {
    // 2049 bins × 23.4 fps × 300 s ≈ 14 MB.
    let frames = (300.0f32 * 48_000.0 / 2048.0).ceil() as usize;
    let h = SpectrogramHistory::new(2049, frames, DbRange::default());
    let mb = h.bytes() as f32 / 1_048_576.0;
    assert!((13.0..16.0).contains(&mb), "waterfall tier is {mb} MB");
}

#[test]
fn long_term_tier_is_under_a_megabyte_per_hour() {
    let h = SpectrogramHistory::new(256, 3600, DbRange::default());
    let mb = h.bytes() as f32 / 1_048_576.0;
    assert!(mb < 1.0, "long-term tier is {mb} MB per hour");
}

#[test]
fn bin_series_walks_one_bin_through_time() {
    let mut h = SpectrogramHistory::new(3, 4, DbRange::default());
    h.push_db(&frame(&[-10.0, -20.0, -30.0]));
    h.push_db(&frame(&[-11.0, -21.0, -31.0]));
    let s = h.bin_series(1);
    assert_eq!(s.len(), 2);
    assert!(near(s[0], -20.0, 0.5));
    assert!(near(s[1], -21.0, 0.5));
}

#[test]
fn energy_series_averages_across_bins() {
    let mut h = SpectrogramHistory::new(2, 4, DbRange::default());
    h.push_db(&frame(&[-20.0, -40.0]));
    let e = h.energy_series();
    assert_eq!(e.len(), 1);
    assert!(near(e[0], -30.0, 0.5), "got {}", e[0]);
}

#[test]
fn summarizer_emits_once_per_group_of_frames() {
    let mut s = summarizer(8, 1025, 20.0, 3);
    let frame = vec![-50_000_000; 1025];
    assert!(s.push(&frame).is_none());
    assert!(s.push(&frame).is_none());
    let out = s.push(&frame).unwrap();
    assert_eq!(out.len(), 8);
    for v in out {
        assert_eq!(v, -50_000_000, "constant input averages to itself");
    }
}

#[test]
fn summarizer_bands_are_ordered_and_cover_the_spectrum() {
    let s = summarizer(256, 2049, 20.0, 24);
    assert_eq!(s.bands(), 256);
    let edges = s.band_edges();
    assert_eq!(edges[0], 20_000_000);
    assert!(edges[256].abs_diff(24_000_000_000) < 1_000_000);
    for w in edges.windows(2) {
        assert!(w[1] > w[0], "band edges must increase");
    }
    // Centres sit inside their bands.
    for b in 0..256 {
        let c = s.band_center_hz(b);
        assert!(c > edges[b] && c < edges[b + 1]);
    }
}

#[test]
fn summarizer_localizes_energy_to_the_right_band() {
    let bins = 2049;
    let mut s = summarizer(32, bins, 20.0, 1);
    let mut frame = vec![-120_000_000; bins];
    // 1 kHz lands at bin 1000 * 4096 / 48000 ≈ 85.
    frame[85] = 0;
    let out = s.push(&frame).unwrap();
    let loudest = (0..out.len()).max_by_key(|&b| out[b]).unwrap();
    let centre = s.band_center_hz(loudest);
    assert!(
        (500_000_000..2_000_000_000).contains(&centre),
        "energy landed at {centre} millionths of a hertz"
    );
}

#[test]
fn summarizer_reset_discards_partial_accumulation() {
    let mut s = summarizer(4, 1025, 20.0, 2);
    assert!(s.push(&vec![-10_000_000; 1025]).is_none());
    s.reset();
    // With the partial dropped, the next push starts a fresh group.
    assert!(s.push(&vec![-80_000_000; 1025]).is_none());
    let out = s.push(&vec![-80_000_000; 1025]).unwrap();
    for v in out {
        assert_eq!(v, -80_000_000, "reset should have dropped the -10 dB frame");
    }
}

#[test]
fn a_band_is_never_empty() {
    let (low, high) = band_bins(1_000_000_000, 1_000_100_000, 2049, 48_000);
    assert_eq!((low, high), (85, 86));
}
