//! Following faint strokes.
use ed_compass::analysis::trace::trace;

fn share(v: u64) -> f32 {
    v as f32 / 1e6
}

const W: usize = 256;
const H: usize = 128;

/// Deterministic noise, so a stroke has somewhere to hide.
fn noisy(level: u8, spread: u8, seed: u32) -> Vec<u8> {
    let mut img = vec![0u8; W * H];
    let mut state = seed;
    for p in img.iter_mut() {
        state = state.wrapping_mul(1_664_525).wrapping_add(1_013_904_223);
        let n = ((state >> 24) as i32 - 128) * spread as i32 / 128;
        *p = (level as i32 + n).clamp(0, 255) as u8;
    }
    img
}

/// Draw a stroke that starts bright and fades, which is the case the whole
/// module exists for.
fn fading_stroke(img: &mut [u8], from_value: u8, to_value: u8) {
    for x in 0..W {
        let t = x as f32 / (W - 1) as f32;
        let y = 40 + (t * 30.0) as usize;
        let v = from_value as f32 + (to_value as f32 - from_value as f32) * t;
        let p = y * W + x;
        img[p] = img[p].max(v as u8);
    }
}

#[test]
fn noise_alone_produces_no_long_trails() {
    let img = noisy(90, 50, 0xBEEF);
    let r = trace(&img, W, H);
    assert!(
        share(r.longest) < 0.5,
        "noise produced a trail {:.0}% of the width",
        share(r.longest) * 100.0
    );
    assert!(
        share(r.covered) < 0.6,
        "and should not carpet the image, covered {:.0}%",
        share(r.covered) * 100.0
    );
}

/// The claim the module is for: a stroke is followed past the point where it
/// would ever have been detected on its own.
#[test]
fn a_stroke_is_followed_where_it_fades_below_its_seed() {
    let mut img = noisy(90, 50, 0x1234);
    // Bright enough to seed at one end, well inside the noise at the other.
    fading_stroke(&mut img, 255, 130);
    let r = trace(&img, W, H);
    assert!(
        share(r.longest) > 0.7,
        "should follow most of the stroke, got {:.0}% (seed {} follow {})",
        share(r.longest) * 100.0,
        r.seed_level,
        r.follow_level
    );
}

/// Scale invariance: levels are percentiles, never fixed values.
#[test]
fn halving_every_value_changes_nothing() {
    let mut bright = noisy(90, 50, 0x77);
    fading_stroke(&mut bright, 255, 130);
    let dim: Vec<u8> = bright.iter().map(|v| v / 2).collect();

    let a = trace(&bright, W, H);
    let b = trace(&dim, W, H);
    assert!(
        (share(a.longest) - share(b.longest)).abs() < 0.1,
        "brightness must not matter: {:.2} bright, {:.2} dim",
        share(a.longest),
        share(b.longest)
    );
    assert!(share(b.longest) > 0.7, "and the dim one must still be found");
}

#[test]
fn a_trail_survives_a_short_interruption() {
    let mut img = noisy(90, 40, 0x99);
    fading_stroke(&mut img, 255, 200);
    // Erase a few columns, as a louder feature crossing it would.
    for x in 120..124 {
        for y in 0..H {
            img[y * W + x] = 60;
        }
    }
    let r = trace(&img, W, H);
    // The trail is cut by the blackout and resumes beyond it — two tracks,
    // together covering nearly everything. That is the honest reading: the
    // stroke really is interrupted there.
    assert!(
        share(r.covered) > 0.9,
        "the stroke should still be accounted for, covered {:.0}%",
        share(r.covered) * 100.0
    );
    assert!(
        r.tracks.len() >= 2,
        "and reported as interrupted rather than bridged"
    );
}

#[test]
fn drift_is_measured_and_not_required() {
    let mut img = noisy(90, 40, 0xAB);
    // A perfectly flat line: a held tone, not a drawing.
    for x in 0..W {
        img[50 * W + x] = 255;
    }
    let r = trace(&img, W, H);
    let flat = r.tracks.iter().find(|t| t.len() > W / 2);
    assert!(flat.is_some(), "a tone is still followed");
    assert_eq!(
        flat.unwrap().drift_rows(),
        0,
        "and reported as having no drift, for something else to judge"
    );
}

#[test]
fn trace_degenerate_input_is_handled() {
    assert_eq!(trace(&[], 0, 0).longest, 0);
    assert_eq!(trace(&vec![0u8; W * H], W, H).longest, 0);
    assert_eq!(trace(&vec![200u8; W * H], W, H).longest, 0);
    assert_eq!(trace(&[0u8; 16], 4, 4).longest, 0);
}

#[test]
fn only_the_order_of_the_values_matters() {
    let mut bright = noisy(90, 50, 0x55);
    fading_stroke(&mut bright, 255, 130);
    // Even values and their halves stand in the same order.
    let even: Vec<u8> = bright.iter().map(|v| v & 0xfe).collect();
    let half: Vec<u8> = even.iter().map(|v| v / 2).collect();
    let a = trace(&even, W, H);
    let b = trace(&half, W, H);
    assert_eq!((a.longest, a.covered), (b.longest, b.covered));
    assert_eq!(a.tracks.len(), b.tracks.len());
    for (s, t) in a.tracks.iter().zip(&b.tracks) {
        assert_eq!((s.x0, s.x1, &s.rows), (t.x0, t.x1, &t.rows));
    }
}
