//! Detecting what stands out of the background.
use ed_compass::analysis::background::BackgroundModel;
use ed_compass::analysis::novelty::{
    score_event, DetectionEvent, FrameGeometry, NoveltyDetector,
};
use ed_compass::config::{Config, IgnoreBand};

/// How many times its own scatter a bin has to clear.
const NOISE_SIGMAS: i64 = 2_000_000;

fn level(db: f32) -> Option<i32> {
    Some((db * 1e6) as i32)
}

const GEOM: FrameGeometry = FrameGeometry {
    sample_rate: 48_000,
    fft_size: 1024,
    hop: 512,
};

fn cfg() -> Config {
    let mut c = Config::default();
    c.fft_size = GEOM.fft_size;
    c.hop = GEOM.hop;
    // Short constants so tests do not need thousands of frames.
    c.background_time_constant_seconds = 1_000_000;
    c.min_event_seconds = 200_000;
    c.event_gap_tolerance_seconds = 100_000;
    // These tests are about event mechanics — drift, dropouts, merging — and
    // use a tone at 4687 Hz. The band is opened explicitly so that intent
    // stays visible: with the shipped 180–2600 Hz band they would be testing
    // the band filter by accident, which is what `band_limits` is for.
    c.detect_min_hz = 0;
    c.detect_max_hz = GEOM.nyquist_hz() as i64;
    c
}

/// Bins outside the configured band must not produce detections.
#[test]
fn detection_is_confined_to_the_configured_band() {
    let mut c = cfg();
    c.detect_min_hz = 500_000_000;
    c.detect_max_hz = 2_000_000_000;
    let mut d = NoveltyDetector::new(GEOM, &c, NOISE_SIGMAS);
    warm_up(&mut d);

    // 4687 Hz, far above the band, and very loud.
    let mut out_of_band = flat_frame(-90.0);
    out_of_band[100] = level(-20.0);
    for _ in 0..200 {
        assert!(
            d.push_frame(&out_of_band, flat).is_empty(),
            "a 70 dB excess outside the band must not detect"
        );
    }
    assert_eq!(d.open_event_count(), 0, "nor open an event");

    // Below the band, equally loud.
    let mut too_low = flat_frame(-90.0);
    too_low[2] = level(-20.0); // ~94 Hz
    for _ in 0..200 {
        assert!(d.push_frame(&too_low, flat).is_empty());
    }
    assert_eq!(d.open_event_count(), 0);

    // And inside it, the same excess is found.
    let mut in_band = flat_frame(-90.0);
    in_band[20] = level(-20.0); // 937 Hz
    for _ in 0..20 {
        d.push_frame(&in_band, flat);
    }
    assert!(
        d.open_event_count() > 0,
        "the band it was told to watch must still work"
    );
}

fn flat_frame(db: f32) -> Vec<Option<i32>> {
    vec![level(db); GEOM.bins()]
}

/// The spectrum of a run is flat.
fn flat(_start: usize, _end: usize) -> u64 {
    1_000_000
}

/// The spectrum of a run is one tone.
fn tonal(_start: usize, _end: usize) -> u64 {
    1
}

/// Run enough quiet frames that the background model settles.
fn warm_up(d: &mut NoveltyDetector) {
    let quiet = flat_frame(-90.0);
    for _ in 0..200 {
        d.push_frame(&quiet, flat);
    }
    assert!(d.background().is_warm());
}

#[test]
fn geometry_maps_bins_and_frames() {
    assert_eq!(GEOM.bins(), 513);
    assert_eq!(GEOM.bin_hz(0), 0);
    assert_eq!(GEOM.bin_hz(512), 24_000_000_000);
    assert_eq!(GEOM.frame_seconds(), 512 * 1_000_000 / 48_000);
    assert_eq!(GEOM.seconds_to_frames(1_000_000), 94);
    assert_eq!(GEOM.seconds_to_frames(0), 1, "never zero frames");
}

/// Decibels, from their millionths.
fn db(v: i64) -> f32 {
    v as f32 / 1e6
}

#[test]
fn background_seeds_from_the_first_frame() {
    let mut b = BackgroundModel::new(4, 10, 1000, 1_000_000);
    let excess = b.update(&[level(-60.0); 4]);
    assert!(
        excess.iter().all(|&e| e == 0),
        "first frame has no excess"
    );
    assert!(b.level_db().iter().all(|&l| l == level(-60.0)));
}

#[test]
fn a_rise_reads_as_excess_and_a_drop_does_not_linger() {
    let mut b = BackgroundModel::new(1, 100, 1000, 10_000_000);
    for _ in 0..60 {
        b.update(&[level(-60.0)]);
    }

    let excess = b.update(&[level(-40.0)]);
    assert!(
        db(excess[0]) > 19.0,
        "a sudden rise should register as excess: {}",
        excess[0]
    );
    let after_rise = b.level_db()[0].unwrap();
    assert!(
        after_rise < -59_000_000,
        "one loud frame must not move the background: {after_rise}"
    );

    // A sustained drop becomes the new middle rather than reading as a
    // permanent negative excess.
    let mut last = 0;
    for _ in 0..120 {
        last = b.update(&[level(-80.0)])[0];
    }
    assert!(
        db(last).abs() < 0.6,
        "a settled quieter room is the new background: {last}"
    );
}

#[test]
fn a_long_signal_does_not_get_adapted_away() {
    // A long signal must still read as excess at the end, not just at the start.
    //
    // A median holds while the signal occupies *less than half the window*,
    // which is the honest statement of the guarantee. The Landscape
    // Signal's mountain lasts 80 s of its 109.5 s cycle, but it sweeps
    // across frequency, so no single bin carries it for anything like that
    // long, and it is bins, not the whole spectrum, that this models.
    let mut b = BackgroundModel::new(1, 1, 1, 300_000_000);
    for _ in 0..200 {
        b.update(&[level(-70.0)]);
    }
    let mut last = 0;
    for _ in 0..80 {
        last = b.update(&[level(-50.0)])[0];
    }
    assert!(
        db(last) > 19.0,
        "after 80 s the signal should be undiminished, reads {last} above background"
    );
}

#[test]
fn a_permanent_level_change_is_eventually_absorbed() {
    // A fan switching on is background, not a signal. Once it occupies more
    // than half the window it becomes the median, and stops being reported.
    let mut b = BackgroundModel::new(1, 1, 1, 60_000_000);
    let mut last = 0;
    for _ in 0..100 {
        last = b.update(&[level(-70.0)])[0];
    }
    assert!(db(last).abs() < 0.6, "settled on the quiet level");

    for _ in 0..200 {
        last = b.update(&[level(-50.0)])[0];
    }
    assert!(
        db(last).abs() < 1.0,
        "a permanent change must become the new background, reads {last}"
    );
}

#[test]
fn the_background_recovers_after_a_signal_passes() {
    // The median has no state to release: once the signal is out of the
    // window, the quiet level is the middle again.
    let mut b = BackgroundModel::new(1, 1, 1, 60_000_000);
    let mut last = 0;
    for _ in 0..100 {
        b.update(&[level(-70.0)]);
    }
    for _ in 0..20 {
        last = b.update(&[level(-50.0)])[0];
    }
    assert!(db(last) > 19.0, "the signal reads while it is present");

    for _ in 0..100 {
        last = b.update(&[level(-70.0)])[0];
    }
    assert!(
        db(last).abs() < 0.6,
        "and the background is back to quiet afterwards, reads {last}"
    );
    let floor = b.level_db()[0].unwrap();
    assert!(
        (db(floor as i64) + 70.0).abs() < 0.6,
        "level should be the quiet floor, is {floor}"
    );
}

#[test]
fn warmup_suppresses_detection() {
    let mut d = NoveltyDetector::new(GEOM, &cfg(), NOISE_SIGMAS);
    assert!(!d.background().is_warm());
    let mut loud = flat_frame(-90.0);
    loud[100] = level(-20.0);
    // Even a huge excess produces nothing while the model is settling.
    for _ in 0..5 {
        assert!(d.push_frame(&loud, flat).is_empty());
    }
    assert!(d.background().warmup_progress() < 1_000_000);
}

#[test]
fn steady_background_produces_no_events() {
    let mut d = NoveltyDetector::new(GEOM, &cfg(), NOISE_SIGMAS);
    warm_up(&mut d);
    let quiet = flat_frame(-90.0);
    for _ in 0..200 {
        assert!(d.push_frame(&quiet, flat).is_empty());
    }
    assert_eq!(d.open_event_count(), 0);
}

#[test]
fn detects_a_sustained_tone_and_reports_its_frequency() {
    let mut d = NoveltyDetector::new(GEOM, &cfg(), NOISE_SIGMAS);
    warm_up(&mut d);

    let bin = 100; // 100 * 48000 / 1024 ≈ 4687 Hz
    let mut tone = flat_frame(-90.0);
    tone[bin] = level(-60.0); // 30 dB above the floor

    for _ in 0..60 {
        d.push_frame(&tone, tonal);
    }
    let quiet = flat_frame(-90.0);
    let mut events = Vec::new();
    for _ in 0..40 {
        events.extend(d.push_frame(&quiet, flat));
    }

    assert_eq!(
        events.len(),
        1,
        "expected exactly one event, got {events:?}"
    );
    let e = &events[0];
    let expected_hz = GEOM.bin_hz(bin);
    assert!(
        e.peak_hz.abs_diff(expected_hz) < 100_000_000,
        "peak at {}, expected {expected_hz}",
        e.peak_hz
    );
    assert!(e.peak_excess_db > 20_000_000, "excess {}", e.peak_excess_db);
    assert!(e.duration_seconds > 500_000, "duration {}", e.duration_seconds);
    assert!(
        e.score > 400_000,
        "a strong narrowband tone should score well: {}",
        e.score
    );
}

#[test]
fn ignores_muted_bands() {
    let mut c = cfg();
    let bin = 100;
    let hz = GEOM.bin_hz(bin) as i64;
    c.ignore_bands.push(IgnoreBand {
        low_hz: hz - 200_000_000,
        high_hz: hz + 200_000_000,
    });

    let mut d = NoveltyDetector::new(GEOM, &c, NOISE_SIGMAS);
    warm_up(&mut d);

    let mut tone = flat_frame(-90.0);
    tone[bin] = level(-20.0);
    let mut all = Vec::new();
    for _ in 0..100 {
        all.extend(d.push_frame(&tone, flat));
    }
    all.extend(d.flush());
    assert!(all.is_empty(), "muted band still fired: {all:?}");
}

#[test]
fn brief_blips_are_below_the_minimum_duration() {
    let mut d = NoveltyDetector::new(GEOM, &cfg(), NOISE_SIGMAS);
    warm_up(&mut d);

    let mut tone = flat_frame(-90.0);
    tone[200] = level(-30.0);
    // min_event_seconds is 0.2 s ≈ 19 frames; fire for 3.
    for _ in 0..3 {
        d.push_frame(&tone, flat);
    }
    let quiet = flat_frame(-90.0);
    let mut events = Vec::new();
    for _ in 0..40 {
        events.extend(d.push_frame(&quiet, flat));
    }
    events.extend(d.flush());
    assert!(
        events.is_empty(),
        "a 3-frame blip should not qualify: {events:?}"
    );
}

#[test]
fn a_short_dropout_does_not_split_one_event_in_two() {
    let mut d = NoveltyDetector::new(GEOM, &cfg(), NOISE_SIGMAS);
    warm_up(&mut d);

    let mut tone = flat_frame(-90.0);
    tone[150] = level(-50.0);
    let quiet = flat_frame(-90.0);

    let mut events = Vec::new();
    for _ in 0..40 {
        events.extend(d.push_frame(&tone, flat));
    }
    // Gap tolerance is 0.1 s ≈ 9 frames.
    for _ in 0..4 {
        events.extend(d.push_frame(&quiet, flat));
    }
    for _ in 0..40 {
        events.extend(d.push_frame(&tone, flat));
    }
    assert!(events.is_empty(), "nothing should have closed yet");
    for _ in 0..40 {
        events.extend(d.push_frame(&quiet, flat));
    }
    assert_eq!(
        events.len(),
        1,
        "the dropout should not have split it: {events:?}"
    );
}

#[test]
fn tracks_a_sweep_as_one_event_with_drift() {
    let mut d = NoveltyDetector::new(GEOM, &cfg(), NOISE_SIGMAS);
    warm_up(&mut d);

    let mut events = Vec::new();
    for step in 0..60 {
        let mut frame = flat_frame(-90.0);
        let bin = 50 + step; // one bin per frame
        frame[bin] = level(-50.0);
        events.extend(d.push_frame(&frame, flat));
    }
    let quiet = flat_frame(-90.0);
    for _ in 0..40 {
        events.extend(d.push_frame(&quiet, flat));
    }

    assert_eq!(events.len(), 1, "a sweep should stay one event: {events:?}");
    let drift = events[0].drift_hz;
    // 59 bins of movement at ~46.9 Hz per bin.
    assert!(drift > 2_000_000_000, "expected a large upward drift, got {drift}");
}

#[test]
fn reset_events_drops_work_in_progress() {
    let mut d = NoveltyDetector::new(GEOM, &cfg(), NOISE_SIGMAS);
    warm_up(&mut d);
    let mut tone = flat_frame(-90.0);
    tone[300] = level(-40.0);
    for _ in 0..50 {
        d.push_frame(&tone, flat);
    }
    assert!(d.open_event_count() > 0);
    d.reset_events();
    assert_eq!(d.open_event_count(), 0);
    assert!(d.flush().is_empty());
}

#[test]
fn scoring_prefers_structure_over_loudness() {
    let nyquist = GEOM.nyquist_hz();
    let tonal = DetectionEvent {
        start_frame: 0,
        end_frame: 100,
        start_seconds: 0,
        duration_seconds: 10_000_000,
        low_hz: 1_000_000_000,
        high_hz: 1_100_000_000,
        peak_hz: 1_050_000_000,
        low_bin: 21,
        high_bin: 23,
        peak_excess_db: 20_000_000,
        mean_excess_db: 15_000_000,
        drift_hz: 0,
        mean_flatness: 20_000,
        score: 0,
    };
    let broadband = DetectionEvent {
        low_hz: 0,
        high_hz: nyquist,
        mean_flatness: 950_000,
        peak_excess_db: 30_000_000,
        ..tonal
    };
    let a = score_event(&tonal, nyquist);
    let b = score_event(&broadband, nyquist);
    assert!(a > b, "tonal {a} should outrank louder broadband {b}");
    assert!(a <= 1_000_000 && b <= 1_000_000);
    // 35 % of 20/24, 20 % of all, 25 % of 0.98, 10 % of 1 - 400/24000.
    assert_eq!(a, (35 * 833_333 + 20 * 1_000_000 + 25 * 980_000 + 10 * 983_334) / 100);
}

#[test]
fn scores_stay_in_range_for_extreme_inputs() {
    let e = DetectionEvent {
        start_frame: 0,
        end_frame: 0,
        start_seconds: 0,
        duration_seconds: 1_000_000_000_000,
        low_hz: 0,
        high_hz: 0,
        peak_hz: 0,
        low_bin: 0,
        high_bin: 0,
        peak_excess_db: 1_000_000_000_000,
        mean_excess_db: 0,
        drift_hz: -1_000_000_000_000_000,
        mean_flatness: 0,
        score: 0,
    };
    let s = score_event(&e, GEOM.nyquist_hz());
    assert_eq!(s, 1_000_000, "every part at its best");
    assert_eq!(score_event(&e, 0), 900_000, "without a band there is no narrowness");
}

#[test]
fn non_finite_frame_values_do_not_poison_the_model() {
    let mut d = NoveltyDetector::new(GEOM, &cfg(), NOISE_SIGMAS);
    warm_up(&mut d);
    let mut frame = flat_frame(-90.0);
    frame[10] = None;
    frame[11] = None;
    let events = d.push_frame(&frame, flat);
    assert!(events.is_empty());
    assert!(d.background().level_db().iter().all(|v| v.is_some()));
}

#[test]
fn the_spread_of_a_bin_is_the_range_between_its_quartiles() {
    let mut b = BackgroundModel::new(1, 1, 1, 100_000_000);
    // A quarter each of four levels, two decibels apart.
    let mut t = 0;
    let mut hear = |b: &mut BackgroundModel, frames: usize| {
        for _ in 0..frames {
            b.update(&[level(-60.0 + 2.0 * (t % 4) as f32)]);
            t += 1;
        }
    };
    hear(&mut b, 32);
    assert_eq!(b.frozen_bins(), 0);
    // Worked out on the first frame, when there was nothing to tell, and again after 32.
    assert_eq!(b.spread_buckets(0), 0);
    hear(&mut b, 1);
    assert_eq!(b.spread_buckets(0), 8, "four decibels between the quartiles");
    // Over 1.349, which makes a standard deviation of normal noise.
    assert_eq!(b.spread_db(), vec![4_000_000 * 1000 / 1349]);
}

#[test]
fn the_band_of_open_events_spans_them_all() {
    let mut d = NoveltyDetector::new(GEOM, &cfg(), NOISE_SIGMAS);
    warm_up(&mut d);
    assert_eq!(d.open_event_band(), None);
    let mut frame = flat_frame(-90.0);
    frame[50] = level(-40.0);
    frame[300] = level(-40.0);
    d.push_frame(&frame, flat);
    assert_eq!(d.open_event_count(), 2);
    assert_eq!(d.open_event_band(), Some((GEOM.bin_hz(50), GEOM.bin_hz(301))));
}

#[test]
fn every_hot_bin_is_in_one_run() {
    let mut d = NoveltyDetector::new(GEOM, &cfg(), NOISE_SIGMAS);
    warm_up(&mut d);
    let mut frame = flat_frame(-90.0);
    for bin in [0, 1, 2, 100, 200, 201, 512] {
        frame[bin] = level(-40.0);
    }
    d.push_frame(&frame, flat);
    assert_eq!(d.active_runs(), vec![(0, 3), (100, 101), (200, 202), (512, 513)]);
}

#[test]
fn a_run_between_two_events_joins_them() {
    let mut d = NoveltyDetector::new(GEOM, &cfg(), NOISE_SIGMAS);
    warm_up(&mut d);
    let mut apart = flat_frame(-90.0);
    apart[100] = level(-40.0);
    apart[110] = level(-40.0);
    d.push_frame(&apart, flat);
    assert_eq!(d.open_event_count(), 2);
    let mut bridge = flat_frame(-90.0);
    for bin in 101..110 {
        bridge[bin] = level(-40.0);
    }
    d.push_frame(&bridge, flat);
    assert_eq!(d.open_event_count(), 1);
}
