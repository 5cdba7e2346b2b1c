//! The overlay's view zooming into what it finds.
use ed_compass::ui::zoom::{Band, ZoomState, ANIMATION, MIN_SPAN};

/// A frequency as millionths of an octave above one hertz, below which there is nothing to
/// show.
fn pitch(hz: f32) -> i64 {
    (hz.max(1.0).log2() as f64 * 1e6).round() as i64
}

fn hz(pitch: i64) -> f32 {
    (2f64.powf(pitch as f64 / 1e6)) as f32
}

fn band(low: f32, high: f32) -> Band {
    Band::new(pitch(low), pitch(high))
}

fn full() -> Band {
    band(200.0, 2400.0)
}

fn state(now: i64) -> ZoomState {
    ZoomState::new(full(), 15_000, 30_000, now)
}

const T0: i64 = 1_000_000;

/// Drive the state as the UI does, every frame, from `t0` to `t0 + secs`, optionally
/// reporting a detection each frame. Returns the last band shown.
fn run(
    z: &mut ZoomState,
    t0: i64,
    secs: f32,
    mut active: impl FnMut(f32) -> Option<Band>,
) -> Band {
    let mut last = z.band(t0);
    let frames = (secs * 20.0) as i64;
    for frame in 1..=frames {
        let now = t0 + frame * 50;
        if let Some(band) = active(frame as f32 / 20.0) {
            z.observe(Some(band), now);
        }
        last = z.band(now);
    }
    last
}

fn near(a: f32, b: f32) -> bool {
    (a - b).abs() <= b.abs() * 0.02 + 0.5
}

/// Nothing detected, nothing moves.
#[test]
fn an_idle_overlay_shows_the_whole_band() {
    let mut z = state(T0);
    for s in [0i64, 1, 10, 100, 1000] {
        let b = z.band(T0 + s * 1000);
        assert_eq!(b, full(), "at {s} s");
    }
}

#[test]
fn a_detection_zooms_to_its_band_with_padding() {
    let mut z = state(T0);
    z.observe(Some(band(400.0, 800.0)), T0);
    // Half an octave either side of 400..800.
    let settled = run(&mut z, T0, 2.0, |_| None);
    assert!(
        near(hz(settled.low), 400.0 / 2f32.sqrt()) && near(hz(settled.high), 800.0 * 2f32.sqrt()),
        "expected about 283..1131 Hz, got {settled:?}"
    );
}

#[test]
fn the_animation_moves_smoothly_and_monotonically() {
    let mut z = state(T0);
    z.observe(Some(band(400.0, 800.0)), T0);
    let mut last = z.band(T0);
    assert_eq!(last, full(), "the first frame is still where it was");
    for step in 1..=10 {
        let now = T0 + ANIMATION * step / 10 + 1;
        let b = z.band(now);
        assert!(
            hz(b.low) >= hz(last.low) - 0.01 && hz(b.high) <= hz(last.high) + 0.01,
            "the view must close in steadily: {last:?} then {b:?}"
        );
        last = b;
    }
}

/// The rule the whole design turns on.
#[test]
fn a_second_detection_cannot_move_the_view_during_the_lockout() {
    let mut z = state(T0);
    z.observe(Some(band(400.0, 800.0)), T0);
    let zoomed = run(&mut z, T0, 2.0, |_| None);

    // Ambience firing constantly, somewhere else entirely.
    let mut z2 = state(T0);
    z2.observe(Some(band(400.0, 800.0)), T0);
    let held = run(&mut z2, T0, 25.0, |t| {
        if t > 3.0 {
            Some(band(1800.0, 2000.0))
        } else {
            None
        }
    });
    assert_eq!(held, zoomed, "the view moved mid-lockout");
}

/// Measured on field recordings: ambience produces a detection about every twenty seconds.
/// Without the lockout the overlay would animate constantly.
#[test]
fn constant_ambience_produces_at_most_one_move_per_lockout() {
    let mut z = state(T0);
    let mut moves = 0;
    let mut previous = z.band(T0);
    for tick in 0..(300 * 10) {
        let now = T0 + tick * 100;
        // A fresh detection somewhere different every 20 seconds.
        if tick % 200 == 0 {
            let low = 300.0 + (tick % 1000) as f32;
            z.observe(Some(band(low, low + 150.0)), now);
        }
        let b = z.band(now);
        if !z.animating() && b != previous {
            moves += 1;
        }
        previous = b;
    }
    // Five minutes, a 30 s lockout: ten moves is the ceiling.
    assert!(
        moves <= 10,
        "{moves} moves in five minutes; the lockout is not holding"
    );
}

#[test]
fn the_view_returns_after_the_hold_and_the_lockout_have_both_passed() {
    let mut z = state(T0);
    z.observe(Some(band(400.0, 800.0)), T0);
    let zoomed = run(&mut z, T0, 2.0, |_| None);
    assert_ne!(zoomed, full());

    // Hold expires at 15 s, but the lockout runs to 30 s from the settle.
    let at_20 = run(&mut z, T0, 20.0, |_| None);
    assert_eq!(at_20, zoomed, "the lockout outlasts the hold, by design");

    let settled = run(&mut z, T0, 40.0, |_| None);
    assert_eq!(settled, full(), "and then it comes back out");
}

/// A detection still live when the lockout lifts must not send the view home.
#[test]
fn an_ongoing_detection_keeps_the_view_where_it_is() {
    let mut z = state(T0);
    let b = run(&mut z, T0, 60.0, |_| Some(band(400.0, 800.0)));
    assert_ne!(
        b,
        full(),
        "it is still detecting; the view should have stayed"
    );
}

#[test]
fn a_narrow_detection_is_widened_to_something_readable() {
    let mut z = state(T0);
    // A tone a few hertz wide, as Thargoid Sensor Morse is.
    z.observe(Some(band(110.0, 113.0)), T0);
    let b = run(&mut z, T0, 2.0, |_| None);
    assert!(
        b.high - b.low >= MIN_SPAN - 10_000,
        "spans only {} millionths of an octave: {b:?}",
        b.high - b.low
    );
}

#[test]
fn a_band_at_the_edge_keeps_its_width_instead_of_being_clipped() {
    let mut z = state(T0);
    z.observe(Some(band(200.0, 260.0)), T0);
    let b = run(&mut z, T0, 2.0, |_| None);
    assert!(
        hz(b.low) >= 200.0 - 0.01 && hz(b.high) <= 2400.0 + 0.01,
        "must stay inside the bounds: {b:?}"
    );
    assert!(
        b.high - b.low >= MIN_SPAN - 10_000,
        "a band against the floor still gets its full width, got {b:?}"
    );
}

/// A signal sweeping across frequency should not drag the view behind it.
#[test]
fn a_drifting_signal_widens_the_remembered_band_rather_than_chasing_it() {
    let mut z = state(T0);
    // Swept slowly and continuously. The view cannot follow it, since the lockout forbids
    // that, so what is being checked is that when it is finally allowed to move it covers
    // everywhere the signal has been rather than only where it is.
    let b = run(&mut z, T0, 40.0, |t| {
        let low = 400.0 + t * 12.5;
        Some(band(low, low + 100.0))
    });
    assert!(
        hz(b.low) <= 400.0 && hz(b.high) >= 900.0,
        "should cover the whole sweep, got {b:?}"
    );
}

#[test]
fn changing_the_configured_bounds_resets_the_view() {
    let mut z = state(T0);
    z.observe(Some(band(400.0, 800.0)), T0);
    assert_ne!(run(&mut z, T0, 2.0, |_| None), full());

    let wider = band(20.0, 20_000.0);
    z.set_bounds(wider);
    assert_eq!(z.band(T0 + 3000), wider);
}

#[test]
fn degenerate_bands_do_not_produce_nonsense() {
    let mut z = state(T0);
    for odd in [
        band(0.0, 0.0),
        band(-100.0, 50.0),
        band(5000.0, 10.0),
        band(f32::NAN, f32::NAN),
    ] {
        z.observe(Some(odd), T0);
        let b = run(&mut z, T0, 2.0, |_| None);
        assert!(
            hz(b.low).is_finite() && hz(b.high).is_finite(),
            "{odd:?} produced {b:?}"
        );
    }
}

#[test]
fn the_view_rests_from_the_end_of_a_move_until_the_lockout_is_over() {
    let mut z = state(T0);
    z.observe(Some(band(400.0, 500.0)), T0);
    let before = z.band(T0);
    assert!(z.animating());
    assert_eq!(before, full(), "the frame that starts a move shows where the view was");
    let settled = T0 + ANIMATION;
    let shown = z.band(settled);
    assert!(!z.animating());
    for s in 1..30i64 {
        let now = settled + s * 1000;
        z.observe(Some(band(900.0 + s as f32, 1500.0)), now);
        assert_eq!(z.band(now), shown, "at {s} s");
        assert!(!z.animating());
    }
    assert_eq!(z.band(settled + 30_000), shown, "the move starts from rest");
    assert!(z.animating());
}

#[test]
fn the_clock_may_stand_anywhere() {
    for now in [i64::MIN, 0, i64::MAX] {
        let mut z = state(now);
        assert_eq!(z.band(now), full());
        z.observe(Some(band(400.0, 500.0)), now);
        assert_eq!(z.band(now), full());
        assert!(z.animating());
        z.band(i64::MAX);
        assert_eq!(z.animating(), now == i64::MAX);
    }
}
