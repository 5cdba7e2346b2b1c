//! Folding the long-term view against its own period.
use ed_compass::analysis::fold::{fold, search, Folded};
use ed_compass::analysis::spectrogram::{DbRange, SpectrogramHistory};

const BANDS: usize = 32;
const FPS: u64 = 1_000_000;

/// Build a history at 1 fps: `f(band, second) -> dB`.
fn history(seconds: usize, mut f: impl FnMut(usize, usize) -> f32) -> SpectrogramHistory {
    let mut h = SpectrogramHistory::new(BANDS, seconds.max(1), DbRange::default());
    for t in 0..seconds {
        let frame: Vec<Option<i64>> = (0..BANDS).map(|b| Some((f(b, t) * 1e6) as i64)).collect();
        h.push_db(&frame);
    }
    h
}

fn noise(seed: u32) -> impl FnMut(usize, usize) -> f32 {
    let mut state = seed;
    move |_, _| {
        state = state.wrapping_mul(1_664_525).wrapping_add(1_013_904_223);
        -80.0 + ((state >> 24) as f32 / 255.0) * 20.0
    }
}

fn sharpness(f: &Folded) -> f32 {
    f.sharpness() as f32 / 1e6
}

#[test]
fn one_cycle_cannot_be_folded() {
    let h = history(100, noise(1));
    assert!(fold(&h, FPS, 60_000_000, 32).is_none(), "60 s in a 100 s window");
    assert!(fold(&h, FPS, 40_000_000, 32).is_some(), "40 s fits twice");
}

#[test]
fn noise_folds_flat() {
    let h = history(1000, noise(0xABCD));
    let f = fold(&h, FPS, 50_000_000, 32).expect("foldable");
    assert!(
        sharpness(&f) < 1.0,
        "noise must not look periodic, sharpness {:.2}",
        sharpness(&f)
    );
}

/// The property the whole method rests on: a repeating pattern buried in noise that is
/// louder than it is, recovered by averaging cycles.
#[test]
fn a_signal_quieter_than_the_noise_is_recovered_by_folding() {
    let period = 50usize;
    let mut rng = noise(0x1234);
    let h = history(2000, |band, t| {
        let floor = rng(band, t);
        // A bump in a few bands, at one phase of the cycle, 6 dB: well under the 20 dB of
        // noise it is sitting in.
        let phase = t % period;
        if (10..14).contains(&band) && (20..26).contains(&phase) {
            floor + 6.0
        } else {
            floor
        }
    });

    let right = fold(&h, FPS, 50_000_000, 50).expect("foldable");
    let wrong = fold(&h, FPS, 68_500_000, 50).expect("foldable");
    assert!(
        sharpness(&right) > sharpness(&wrong) * 3.0,
        "the true period must stand out: {:.2} at {period} s against {:.2} at the wrong one",
        sharpness(&right),
        sharpness(&wrong)
    );
    assert!(
        right.cycles >= 39_000_000,
        "2000 s at 50 s should be 40 cycles, got {}",
        right.cycles
    );
}

#[test]
fn the_search_finds_the_period_without_being_told() {
    let period = 60usize;
    let mut rng = noise(0x9999);
    let h = history(2400, |band, t| {
        let floor = rng(band, t);
        let phase = t % period;
        if (8..12).contains(&band) && (5..15).contains(&phase) {
            floor + 8.0
        } else {
            floor
        }
    });
    let found = search(&h, FPS, 30_000_000, 200_000_000, 48).expect("a fold");
    assert!(
        (found.period_seconds as f32 / 1e6 - period as f32).abs() <= 3.0,
        "expected about {period} s, found {}",
        found.period_seconds
    );
}

#[test]
fn the_image_uses_the_folds_own_range() {
    // Faint structure must still fill the output range.
    let mut rng = noise(0x77);
    let h = history(1000, |band, t| {
        let floor = rng(band, t);
        if (4..8).contains(&band) && (t % 50) < 10 {
            floor + 3.0
        } else {
            floor
        }
    });
    let f = fold(&h, FPS, 50_000_000, 32).expect("foldable");
    let image = f.to_image();
    let max = image.iter().copied().max().unwrap_or(0);
    assert!(
        max > 200,
        "a faint fold must still reach the top of the range, peaked at {max}"
    );
}

#[test]
fn fold_degenerate_input_is_handled() {
    let h = history(10, noise(3));
    assert!(fold(&h, 0, 10_000_000, 32).is_none());
    assert!(fold(&h, FPS, 0, 32).is_none());
    assert!(fold(&h, FPS, 2_000_000, 2).is_none());
    assert!(search(&h, FPS, 100_000_000, 50_000_000, 32).is_none());
}

#[test]
fn a_pure_repeat_folds_onto_itself() {
    let h = history(40, |band, t| -100.0 + band as f32 + (t % 8) as f32 * 4.0);
    let f = fold(&h, FPS, 8_000_000, 8).expect("foldable");
    assert_eq!((f.bands, f.phases), (BANDS, 8));
    assert_eq!(f.cycles, 5_000_000);
    let range = DbRange::default();
    for phase in 0..8 {
        let once = range.dequantize(range.quantize(Some(-100_000_000 + phase as i64 * 4_000_000)));
        assert_eq!(f.mean_db[phase], Some(once), "band 0, phase {phase}");
    }
}

#[test]
fn sharpness_is_the_spread_along_phase_over_the_spread_between_neighbours() {
    let of = |levels: [i32; 4]| Folded {
        bands: 1,
        phases: 4,
        mean_db: levels.iter().map(|v| Some(*v)).collect(),
        cycles: 2_000_000,
        period_seconds: 4_000_000,
    };
    // A variance of 2,250,000 over a noise of 1,500,000.
    assert_eq!(of([0, 0, 3000, 3000]).sharpness(), 500_000);
    assert_eq!(of([-90_000_000, -90_000_000, -89_997_000, -89_997_000]).sharpness(), 500_000);
    // A variance of 3, rounded down, over a noise of 5.
    assert_eq!(of([-1, -2, -4, 1]).sharpness(), 0);
    // The widest swing there is: half the range squared, over a sixth of the range squared.
    assert_eq!(of([i32::MIN, i32::MIN, i32::MAX, i32::MAX]).sharpness(), 500_000);
}

#[test]
fn cycles_of_hours_are_folded() {
    // A frame every thousand seconds, and a cycle of five of them.
    let h = history(20, |_, t| if t % 5 == 2 { -30.0 } else { -70.0 });
    let f = fold(&h, 1_000, 5_000_000_000, 5).expect("four cycles");
    assert_eq!((f.phases, f.cycles), (5, 4_000_000));
    assert_eq!(f.period_seconds, 5_000_000_000);
    let image = f.to_image();
    assert_eq!(&image[..5], &[0, 0, 255, 0, 0]);
    assert!(fold(&h, 1_000, 11_000_000_000, 5).is_none(), "less than two cycles");
}
