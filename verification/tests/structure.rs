//! Telling a drawing from ambience.
use ed_compass::analysis::drift::Sweep;
use ed_compass::analysis::sliding_median::SlidingMedian;
use ed_compass::analysis::strokes::continuity;
use ed_compass::analysis::structure::{
    analyze, suppress_tones_and_transients, StructureScanner, StructureScore,
};

/// The share of ink that belongs to strokes.
fn continuity_of(image: &[u8], width: usize, height: usize, threshold: u8) -> f32 {
    let c = continuity(image, width, height, threshold);
    if c.ink_total == 0 {
        0.0
    } else {
        c.ink_in_strokes as f32 / c.ink_total as f32
    }
}

/// Normalized Shannon entropy over the orientations.
fn diversity(s: &StructureScore) -> f64 {
    let total: f64 = s.orientations.iter().map(|&w| w as f64).sum();
    if total <= 0.0 {
        return 0.0;
    }
    let entropy: f64 = s
        .orientations
        .iter()
        .filter(|&&w| w > 0)
        .map(|&w| {
            let p = w as f64 / total;
            -p * p.ln()
        })
        .sum();
    entropy / 12f64.ln()
}

/// How far the best sweep stands above the rest, in quartile ranges.
fn strength(sweep: Option<Sweep>) -> f32 {
    match sweep {
        None => 0.0,
        Some(s) => (s.peak - s.median) as f32 / (s.q3 - s.q1).max(1) as f32,
    }
}

/// A sustained tone is a horizontal line, and must be suppressed.
#[test]
fn a_held_tone_is_removed() {
    let (w, h) = (96, 96);
    let mut img = vec![0u8; w * h];
    for x in 0..w {
        img[40 * w + x] = 255;
    }
    let out = suppress_tones_and_transients(&img, w, h);
    let left: u32 = out.iter().map(|v| *v as u32).sum();
    assert!(left < 2000, "a held tone should mostly vanish, {left} left");
}

/// A broadband click is a vertical line, and must be suppressed too.
#[test]
fn a_click_is_removed() {
    let (w, h) = (96, 96);
    let mut img = vec![0u8; w * h];
    for y in 0..h {
        img[y * w + 40] = 255;
    }
    let out = suppress_tones_and_transients(&img, w, h);
    let left: u32 = out.iter().map(|v| *v as u32).sum();
    assert!(left < 2000, "a click should mostly vanish, {left} left");
}

/// A diagonal stroke is neither, and must survive.
#[test]
fn a_diagonal_stroke_survives() {
    let (w, h) = (96, 96);
    let mut img = vec![0u8; w * h];
    for i in 0..w.min(h) {
        img[i * w + i] = 255;
    }
    let before: u32 = img.iter().map(|v| *v as u32).sum();
    let after: u32 = suppress_tones_and_transients(&img, w, h)
        .iter()
        .map(|v| *v as u32)
        .sum();
    assert!(
        after as f32 > before as f32 * 0.8,
        "a drawing must survive suppression: {after} of {before}"
    );
}

/// The whole point: a drawing buried under ambience becomes visible.
#[test]
fn a_stroke_hidden_among_tones_and_clicks_is_recovered() {
    let (w, h) = (96, 96);
    let mut img = vec![0u8; w * h];
    for x in 0..w {
        img[20 * w + x] = 200;
        img[70 * w + x] = 200;
    }
    for y in 0..h {
        img[y * w + 30] = 200;
        img[y * w + 75] = 200;
    }
    for i in 0..w.min(h) {
        img[i * w + i] = 255;
    }

    // The property that matters is what *share of the surviving ink* is the
    // drawing. Continuity alone cannot show it here: the tones and clicks
    // cross the stroke, so they all join into one component that already
    // satisfies every stroke test. Real ambience does not arrive so tidily.
    let on_diagonal = |img: &[u8]| {
        let ink: u32 = img.iter().filter(|v| **v >= 96).count() as u32;
        let mine: u32 = (0..w.min(h)).filter(|i| img[i * w + i] >= 96).count() as u32;
        if ink == 0 {
            0.0
        } else {
            mine as f32 / ink as f32
        }
    };

    let cleaned = suppress_tones_and_transients(&img, w, h);
    let before = on_diagonal(&img);
    let after = on_diagonal(&cleaned);

    assert!(
        after > before * 2.0,
        "suppression should leave the drawing dominant: {before:.2} -> {after:.2}"
    );
    assert!(
        after > 0.8,
        "after suppression most surviving ink should be the stroke, got {after:.2}"
    );
}

/// Continuity is the metric that separates drawing from texture.
#[test]
fn a_long_stroke_scores_and_scattered_specks_do_not() {
    let (w, h) = (64, 64);

    // One diagonal stroke across the region.
    let mut drawn = vec![0u8; w * h];
    for i in 0..w.min(h) {
        drawn[i * w + i] = 255;
    }
    let stroke = continuity_of(&drawn, w, h, 96);

    // The same amount of ink, scattered as fragments.
    let mut specks = vec![0u8; w * h];
    for i in 0..w.min(h) {
        let (x, y) = ((i * 7) % w, (i * 13) % h);
        specks[y * w + x] = 255;
    }
    let scattered = continuity_of(&specks, w, h, 96);

    assert!(
        stroke > 0.9,
        "a stroke spanning the region is all stroke, got {stroke:.2}"
    );
    assert!(
        scattered < 0.1,
        "disconnected specks are not strokes, got {scattered:.2}"
    );
}

/// A filled block is long but not thin, and must not count.
#[test]
fn a_solid_block_is_not_a_stroke() {
    let (w, h) = (64, 64);
    let mut block = vec![0u8; w * h];
    for y in 10..54 {
        for x in 10..54 {
            block[y * w + x] = 255;
        }
    }
    assert!(
        continuity_of(&block, w, h, 96) < 0.1,
        "a filled block is a blob, not a drawing"
    );
}

/// Empty ink is zero, not a division by zero.
#[test]
fn no_ink_is_no_continuity() {
    assert_eq!(continuity_of(&vec![0u8; 32 * 32], 32, 32, 96), 0.0);
}

const W: usize = 96;
const H: usize = 96;

fn blank() -> Vec<u8> {
    vec![10u8; W * H]
}

fn plot(img: &mut [u8], x: isize, y: isize, v: u8) {
    if x >= 0 && y >= 0 && (x as usize) < W && (y as usize) < H {
        img[y as usize * W + x as usize] = v;
    }
}

fn hline(img: &mut [u8], y: usize, v: u8) {
    for x in 0..W {
        plot(img, x as isize, y as isize, v);
    }
}

fn circle(img: &mut [u8], cx: isize, cy: isize, r: isize, v: u8) {
    for step in 0..720 {
        let a = step as f32 * std::f32::consts::TAU / 720.0;
        plot(
            img,
            cx + (r as f32 * a.cos()) as isize,
            cy + (r as f32 * a.sin()) as isize,
            v,
        );
    }
}

fn line(img: &mut [u8], x0: isize, y0: isize, x1: isize, y1: isize, v: u8) {
    let steps = (x1 - x0).abs().max((y1 - y0).abs()).max(1);
    for i in 0..=steps {
        let t = i as f32 / steps as f32;
        plot(
            img,
            x0 + ((x1 - x0) as f32 * t) as isize,
            y0 + ((y1 - y0) as f32 * t) as isize,
            v,
        );
    }
}

#[test]
fn a_blank_region_scores_nothing() {
    let s = analyze(&blank(), W, H);
    assert_eq!(s.edge_pixels, 0);
    assert_eq!(s.score, 0);
    assert!(!s.is_present(100_000));
}

#[test]
fn structure_degenerate_input_is_handled() {
    assert_eq!(analyze(&[], 0, 0).score, 0);
    assert_eq!(analyze(&[1, 2, 3], 3, 1).score, 0);
    // Claimed size larger than the buffer must not index out of bounds.
    assert_eq!(analyze(&[0u8; 10], 100, 100).score, 0);
}

#[test]
fn line_art_scores_well() {
    // A circle with radiating spokes: the probe image in miniature.
    let mut img = blank();
    circle(&mut img, 48, 48, 30, 240);
    circle(&mut img, 48, 48, 18, 240);
    line(&mut img, 48, 48, 90, 20, 240);
    line(&mut img, 48, 48, 6, 20, 240);
    line(&mut img, 48, 48, 48, 92, 240);

    let s = analyze(&img, W, H);
    assert!(s.score > 250_000, "line art should score: {s:?}");
    assert!(
        diversity(&s) > 0.7,
        "curves span many angles: {s:?}"
    );
    assert!(s.sparsity > 800_000, "line art is mostly background: {s:?}");
    assert!(s.is_present(250_000));
}

#[test]
fn stacked_harmonics_do_not_score_as_a_picture() {
    // The false positive that matters: sustained musical harmonics
    // are perfectly coherent, perfectly sparse horizontal lines.
    let mut img = blank();
    for k in 1..=12 {
        let y = k * 7;
        if y < H {
            hline(&mut img, y, 240);
        }
    }

    let harmonics = analyze(&img, W, H);
    assert!(
        diversity(&harmonics) < 0.35,
        "harmonics all point the same way: {harmonics:?}"
    );

    let mut art = blank();
    circle(&mut art, 48, 48, 30, 240);
    circle(&mut art, 48, 48, 18, 240);
    line(&mut art, 48, 48, 90, 20, 240);
    line(&mut art, 48, 48, 6, 20, 240);
    let drawn = analyze(&art, W, H);

    assert!(
        drawn.score > harmonics.score * 3,
        "line art {drawn:?} must clearly outrank harmonics {harmonics:?}"
    );
    assert!(!harmonics.is_present(250_000), "{harmonics:?}");
}

#[test]
fn diagonals_beat_verticals_and_horizontals() {
    // real strokes are diagonal. A broadband click is
    // vertical, a drone is horizontal, and neither is a drawing.
    let mut diagonal = blank();
    line(&mut diagonal, 10, 10, 85, 85, 240);
    line(&mut diagonal, 10, 85, 85, 10, 240);

    let mut vertical = blank();
    for x in (20..80).step_by(12) {
        line(&mut vertical, x, 5, x, 90, 240);
    }

    let mut horizontal = blank();
    for y in (20..80).step_by(12) {
        hline(&mut horizontal, y as usize, 240);
    }

    let d = analyze(&diagonal, W, H);
    let v = analyze(&vertical, W, H);
    let h = analyze(&horizontal, W, H);

    assert!(d.diagonality > 700_000, "diagonal strokes: {d:?}");
    assert!(
        v.diagonality < 350_000,
        "vertical strokes are not diagonal: {v:?}"
    );
    assert!(
        h.diagonality < 350_000,
        "horizontal strokes are not diagonal: {h:?}"
    );
    assert!(
        d.score > v.score && d.score > h.score,
        "diagonal {d:?} must outrank vertical {v:?} and horizontal {h:?}"
    );
}

#[test]
fn a_broadband_click_does_not_read_as_a_drawing() {
    // One instant, every frequency — a thump. Vertical, and not a signal.
    let mut img = blank();
    for x in [30isize, 31, 60, 61] {
        line(&mut img, x, 0, x, 95, 250);
    }
    let s = analyze(&img, W, H);
    assert!(s.diagonality < 350_000, "a click is vertical: {s:?}");
    assert!(!s.is_present(350_000), "{s:?}");
}

/// A noisy ground for the drift tests: a stroke drawn on a blank field is
/// not a test of anything, since the whole point is recovering a line that
/// noise is hiding.
fn noisy_ground(level: u8, spread: u8, seed: u32) -> Vec<u8> {
    let mut img = vec![0u8; W * H];
    let mut state = seed;
    for p in img.iter_mut() {
        state = state.wrapping_mul(1_664_525).wrapping_add(1_013_904_223);
        let n = ((state >> 24) as i32 - 128) * spread as i32 / 128;
        *p = (level as i32 + n).clamp(0, 255) as u8;
    }
    img
}

#[test]
fn drift_calibration() {
    let cases: Vec<(&str, Vec<u8>)> = vec![
        ("noise only", noisy_ground(90, 60, 0x1234_5678)),
        ("noise only (2)", noisy_ground(90, 60, 0xDEAD_BEEF)),
        ("faint diagonal", {
            let mut i = noisy_ground(90, 60, 0x1234_5678);
            line(&mut i, 0, 10, 95, 80, 150);
            i
        }),
        ("very faint diagonal", {
            let mut i = noisy_ground(90, 60, 0x1234_5678);
            line(&mut i, 0, 10, 95, 80, 115);
            i
        }),
        ("bright diagonal", {
            let mut i = noisy_ground(90, 60, 0x1234_5678);
            line(&mut i, 0, 10, 95, 80, 255);
            i
        }),
        ("steep diagonal", {
            let mut i = noisy_ground(90, 60, 0x1234_5678);
            line(&mut i, 10, 0, 80, 95, 150);
            i
        }),
        ("horizontal tones", {
            let mut i = noisy_ground(90, 60, 0x1234_5678);
            for y in [20usize, 40, 60] {
                hline(&mut i, y, 200);
            }
            i
        }),
        ("vertical clicks", {
            let mut i = noisy_ground(90, 60, 0x1234_5678);
            for x in [20isize, 40, 60] {
                line(&mut i, x, 0, x, 95, 200);
            }
            i
        }),
        ("line art", {
            let mut i = blank();
            circle(&mut i, 48, 48, 30, 240);
            line(&mut i, 10, 10, 85, 85, 240);
            line(&mut i, 85, 10, 10, 85, 240);
            i
        }),
    ];
    let strengths: Vec<f32> = cases
        .iter()
        .map(|(name, img)| {
            let s = analyze(img, W, H);
            let shallow = strength(s.drift.0);
            let steep = strength(s.drift.1);
            println!("{name:<22} {shallow:>7.3} {steep:>7.3} {:>7}", s.continuity);
            shallow.max(steep)
        })
        .collect();
    assert!(
        strengths[4] > strengths[0] && strengths[4] > strengths[1],
        "a bright diagonal stands above plain noise: {strengths:?}"
    );
}

#[test]
fn broadband_noise_does_not_score() {
    let mut img = blank();
    let mut state = 0xABCD_1234u32;
    for p in img.iter_mut() {
        state = state.wrapping_mul(1_664_525).wrapping_add(1_013_904_223);
        *p = (state >> 24) as u8;
    }
    let s = analyze(&img, W, H);
    assert!(
        !s.is_present(250_000),
        "noise must not read as a drawing: {s:?}"
    );
    assert!(
        s.coherence < 300_000,
        "noise has no dominant orientation: {s:?}"
    );
}

#[test]
fn a_solid_block_is_not_a_drawing() {
    // Loud but featureless: high energy, no structure, no sparsity.
    let mut img = blank();
    for y in 20..80 {
        for x in 20..80 {
            img[y * W + x] = 240;
        }
    }
    let s = analyze(&img, W, H);
    assert!(!s.is_present(250_000), "a filled block is not line art: {s:?}");
}

#[test]
fn a_single_diagonal_is_coherent_but_not_diverse() {
    let mut img = blank();
    line(&mut img, 0, 0, 95, 95, 240);
    let s = analyze(&img, W, H);
    assert!(s.coherence > 500_000, "one line is highly coherent: {s:?}");
    assert!(
        diversity(&s) < 0.4,
        "one line points one way: {s:?}"
    );
}

#[test]
fn the_scanner_finds_a_drawing_in_a_corner() {
    // A wide image with art confined to one tile — a whole-image statistic
    // would average it away.
    let (wide, tall) = (320usize, 96usize);
    let mut img = vec![10u8; wide * tall];
    for step in 0..720 {
        let a = step as f32 * std::f32::consts::TAU / 720.0;
        let x = 250 + (28.0 * a.cos()) as isize;
        let y = 48 + (28.0 * a.sin()) as isize;
        if x >= 0 && y >= 0 && (x as usize) < wide && (y as usize) < tall {
            img[y as usize * wide + x as usize] = 240;
        }
    }

    let scanner = StructureScanner::default();
    let (score, bx, _by) = scanner.scan(&img, wide, tall);
    assert!(
        score.is_present(200_000),
        "corner art should be found: {score:?}"
    );
    // The circle spans x 222..278; the winning tile must overlap it.
    assert!(
        bx < 278 && bx + scanner.tile_width > 222,
        "best tile at x={bx} does not overlap the drawing"
    );

    // The same image without the drawing scores far lower.
    let blank_wide = vec![10u8; wide * tall];
    let (empty, _, _) = scanner.scan(&blank_wide, wide, tall);
    assert!(empty.score < score.score);
}

#[test]
fn the_scanner_handles_images_smaller_than_a_tile() {
    let scanner = StructureScanner {
        tile_width: 64,
        tile_height: 64,
    };
    let (s, _, _) = scanner.scan(&[0u8; 4], 2, 2);
    assert_eq!(s.score, 0);
}

#[test]
fn scores_are_always_finite_and_bounded() {
    let mut img = blank();
    circle(&mut img, 48, 48, 30, 255);
    let s = analyze(&img, W, H);
    for v in [s.coherence, s.sparsity, s.diagonality, s.continuity, s.score] {
        assert!(v <= 1_000_000, "{s:?}");
    }
}

#[test]
fn the_median_of_an_even_count_is_the_lower_one() {
    let mut m = SlidingMedian::default();
    assert_eq!(m.median(), 0, "an empty window");
    m.add(10);
    m.add(20);
    assert_eq!(m.median(), 10);
    assert_eq!(m.upper_median(), 20);
    m.add(30);
    assert_eq!(m.median(), 20);
    m.remove(10);
    assert_eq!(m.median(), 20);
    m.add(5);
    m.add(200);
    // 5, 20, 30, 200
    assert_eq!(m.median(), 20);
    assert_eq!(m.upper_median(), 30);
}

#[test]
fn a_pixel_half_of_whose_window_is_dark_is_kept() {
    // Windows of four: in each row and each column two pixels are bright, and the lower
    // median of two dark and two bright pixels is dark.
    let (w, h) = (4, 4);
    let mut img = vec![0u8; w * h];
    for y in 0..h {
        img[y * w + y] = 200;
        img[y * w + (y + 1) % w] = 200;
    }
    assert_eq!(suppress_tones_and_transients(&img, w, h), img);
}
