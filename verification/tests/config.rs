//! Which settings are acceptable, and what follows from them.
use ed_compass::config::{Config, ConfigError, IgnoreBand, OVERLAY_LAYOUT_REVISION};

/// The natural logarithm of a band's ratio, in millionths, where it is a number.
fn span(low: f32, high: f32) -> Option<i32> {
    let s = (high / low).ln();
    if s.is_finite() {
        Some((s * 1e6).round() as i32)
    } else {
        None
    }
}

fn refused(change: impl FnOnce(&mut Config)) -> ConfigError {
    let mut cfg = Config::default();
    change(&mut cfg);
    cfg.validate().unwrap_err()
}

#[test]
fn defaults_are_valid() {
    Config::default().validate().unwrap();
}

#[test]
fn rejects_non_power_of_two_fft() {
    let mut cfg = Config::default();
    cfg.fft_size = 4000;
    assert!(cfg.validate().is_err());
}

#[test]
fn rejects_hop_larger_than_fft() {
    let mut cfg = Config::default();
    cfg.hop = cfg.fft_size + 1;
    assert!(cfg.validate().is_err());
}

#[test]
fn rejects_inverted_ignore_band() {
    let mut cfg = Config::default();
    cfg.ignore_bands.push(IgnoreBand {
        low_hz: 500_000_000,
        high_hz: 100_000_000,
    });
    assert!(cfg.validate().is_err());
}

#[test]
fn every_refusal_names_its_setting() {
    assert_eq!(refused(|c| c.fft_size = 32), ConfigError::FftTooSmall);
    assert_eq!(refused(|c| c.fft_size = 4000), ConfigError::FftNotPowerOfTwo);
    assert_eq!(refused(|c| c.hop = 0), ConfigError::HopOutOfRange);
    assert_eq!(refused(|c| c.pcm_ring_seconds = 0), ConfigError::NoPcmRing);
    assert_eq!(refused(|c| c.histogram_bins = 1), ConfigError::TooFewHistogramBins);
    assert_eq!(
        refused(|c| c.spectrogram_max_hz = 2 * c.spectrogram_min_hz),
        ConfigError::NarrowSpectrogramBand
    );
    assert_eq!(
        refused(|c| c.detect_max_hz = c.detect_min_hz + c.detect_min_hz / 2),
        ConfigError::NarrowDetectBand
    );
    assert_eq!(refused(|c| c.longterm_bands = 7), ConfigError::TooFewLongtermBands);
    assert_eq!(refused(|c| c.longterm_fps = 0), ConfigError::NoLongtermRate);
    assert_eq!(refused(|c| c.analysis_update_hz = 0), ConfigError::NoUpdateRate);
    assert_eq!(refused(|c| c.health_window_seconds = 0), ConfigError::NoHealthWindow);
    assert_eq!(
        refused(|c| c.capture_format = "mp3".into()),
        ConfigError::UnknownCaptureFormat
    );
    assert_eq!(refused(|c| c.view = "overlay".into()), ConfigError::UnknownView);
    assert_eq!(refused(|c| c.overlay_width = 79_000_000), ConfigError::OverlayTooSmall);
    assert_eq!(
        refused(|c| c.overlay_label_fraction = 950_000),
        ConfigError::LabelFractionOutOfRange
    );
    assert_eq!(
        refused(|c| c.overlay_spectrogram_seconds = 0),
        ConfigError::NoOverlayHistory
    );
    assert_eq!(
        refused(|c| c.background_time_constant_seconds = 0),
        ConfigError::NoTimeConstant
    );
    assert_eq!(
        refused(|c| c.background_max_freeze_seconds = c.background_time_constant_seconds),
        ConfigError::FreezeTooShort
    );
    assert_eq!(
        refused(|c| {
            c.ignore_bands.push(IgnoreBand { low_hz: 1, high_hz: 2 });
            c.ignore_bands.push(IgnoreBand { low_hz: 2, high_hz: 2 });
        }),
        ConfigError::InvertedIgnoreBand(1)
    );
}

#[test]
fn the_spectrogram_fills_the_overlay_height_and_the_spare_width() {
    let mut cfg = Config::default();
    cfg.overlay_width = 440_000_000;
    cfg.overlay_height = 104_000_000;
    cfg.overlay_label_fraction = 340_000;

    let (w, h) = cfg.overlay_spectrogram_size();
    assert!((w as f32 / 1e6 - 290.4).abs() < 0.1, "width {w}");
    assert_eq!(h, 104_000_000, "it must use the full height, not a strip");

    cfg.overlay_spectrogram = false;
    assert_eq!(cfg.overlay_spectrogram_size(), (0, 0));
}

#[test]
fn a_config_from_the_old_overlay_layout_has_its_geometry_restored() {
    // What the previous layout wrote: centre-left, sized for stacked lamps.
    let mut loaded = Config::default();
    loaded.overlay_layout_revision = 1;
    loaded.overlay_x_fraction = 375_000;
    loaded.overlay_y_fraction = 20_000;
    loaded.overlay_height = 78_000_000;
    loaded.view = "overlay".into(); // a view that no longer exists
    loaded.detect_keying = false; // a real preference, not geometry
    loaded.migrate_overlay_layout();

    let d = Config::default();
    assert_eq!(loaded.overlay_x_fraction, d.overlay_x_fraction);
    assert_eq!(loaded.overlay_height, d.overlay_height);
    assert_eq!(loaded.overlay_layout_revision, OVERLAY_LAYOUT_REVISION);
    assert_eq!(
        loaded.view, "compact",
        "the overlay view has no window to open"
    );
    assert!(
        !loaded.detect_keying,
        "unrelated settings must be preserved"
    );

    // And the migration is not repeated once it has been written back.
    let mut moved = loaded;
    moved.overlay_x_fraction = 500_000;
    moved.migrate_overlay_layout();
    assert_eq!(moved.overlay_x_fraction, 500_000, "a later move must stick");
}

#[test]
fn the_overlay_defaults_to_the_top_left_corner() {
    let cfg = Config::default();
    assert_eq!(cfg.overlay_x_fraction, 0);
    assert_eq!(cfg.overlay_y_fraction, 0);
}

#[test]
fn an_out_of_range_label_fraction_is_rejected() {
    let mut cfg = Config::default();
    cfg.overlay_label_fraction = 950_000;
    assert!(cfg.validate().is_err());
    cfg.overlay_label_fraction = 0;
    assert!(cfg.validate().is_err());
    cfg.overlay_label_fraction = 340_000;
    assert!(cfg.validate().is_ok());
}

#[test]
fn matched_height_cancels_the_slope_change_from_cropping() {
    // Cropping 20-22050 down to 200-2400 magnifies frequency by 2.82x, so the height must
    // shrink by the same factor to keep stroke angles equal to the published images.
    let mut cfg = Config::default();
    cfg.export_height = 1600;

    let matched = cfg.matched_export_height(span(200.0, 2400.0), span(20.0, 22_050.0));
    let ratio = 1600.0 / matched as f32;
    assert!(
        (ratio - 2.82).abs() < 0.1,
        "expected a 2.82x reduction, got {ratio} (height {matched})"
    );

    // Showing the same band as the reference needs no correction at all.
    let same = span(20.0, 22_050.0);
    assert_eq!(cfg.matched_export_height(same, same), 1600);
}

#[test]
fn matched_height_survives_nonsense() {
    let cfg = Config::default();
    let ours = span(200.0, 2400.0);
    assert!(cfg.matched_export_height(ours, span(0.0, 0.0)) > 0);
    assert!(cfg.matched_export_height(ours, span(100.0, 50.0)) > 0);
}

#[test]
fn ring_footprint_matches_spec_examples() {
    let cfg = Config::default();
    // 48 kHz stereo for 150 s ≈ 57.6 MB, 8 ch ≈ 230.4 MB.
    assert_eq!(cfg.pcm_ring_bytes(48_000, 2), 150 * 48_000 * 2 * 4);
    assert_eq!(cfg.pcm_ring_bytes(48_000, 8), 150 * 48_000 * 8 * 4);
}

#[test]
fn ignore_bands_gate_frequencies() {
    let mut cfg = Config::default();
    cfg.ignore_bands.push(IgnoreBand {
        low_hz: 40_000_000,
        high_hz: 120_000_000,
    });
    assert!(cfg.is_ignored(60_000_000));
    assert!(!cfg.is_ignored(1_000_000_000));
}
