//! One tone, switched on and off.
use ed_compass::analysis::morse::{cluster_two, MorseDetection, MorseDetector, INFINITE_DB};

const FRAME_SECONDS: f32 = 2048.0 / 48_000.0; // 42.7 ms, the real hop
const SAMPLE_RATE: u32 = 48_000;
const FFT: usize = 4096;

fn detector() -> MorseDetector {
    MorseDetector::new(2048, SAMPLE_RATE, FFT, 60_000_000, 200_000_000)
}

fn frame(loud: bool) -> Vec<Option<i32>> {
    let mut v = vec![Some(-90_000_000); FFT / 2 + 1];
    let bin = (111.3 / (SAMPLE_RATE as f32 / FFT as f32)) as usize;
    v[bin] = if loud { Some(-30_000_000) } else { Some(-88_000_000) };
    v
}

fn send(d: &mut MorseDetector, pattern: &[(bool, f32)]) {
    for (on, seconds) in pattern {
        let frames = (seconds / FRAME_SECONDS).round().max(1.0) as usize;
        for _ in 0..frames {
            d.push(&frame(*on));
        }
    }
}

fn ratio(r: &MorseDetection) -> f32 {
    r.ratio as f32 / 1e6
}

/// A message as it is really sent: 551 ms dots, 1711 ms dashes, a 9 s opening tone, and
/// roughly one dash to seven dots.
fn reference_message() -> Vec<(bool, f32)> {
    let (dot, dash, gap) = (0.551, 1.711, 0.107);
    let mut p = vec![(false, 2.0), (true, 9.0), (false, gap)];
    for i in 0..28 {
        p.push((true, if i % 7 == 3 { dash } else { dot }));
        p.push((false, gap));
    }
    p
}

#[test]
fn morse_nothing_is_reported_before_there_is_evidence() {
    let mut d = detector();
    send(&mut d, &[(false, 2.0), (true, 0.55), (false, 0.1)]);
    assert!(d.evaluate().is_none(), "one mark is not a message");
}

#[test]
fn the_reference_shape_is_detected() {
    let mut d = detector();
    send(&mut d, &reference_message());

    let r = d.evaluate().expect("a keyed message must be reported");
    assert!(r.is_present(500_000), "the real signal must score: {r:?}");
    assert!(
        (ratio(&r) - 3.0).abs() < 1.2,
        "dash/dot should land near three, got {:.2}",
        ratio(&r)
    );
}

/// An unknown signal with an un-Morse-like ratio must still be found.
///
/// The point of the tool is signals nobody has catalogued. A detector tuned to 3:1 can only
/// confirm what is already known, so the ratio is evidence, not a gate.
#[test]
fn keying_at_an_unfamiliar_ratio_is_still_reported() {
    let mut d = detector();
    let (short, long, gap) = (0.5, 4.5, 0.2); // 9:1, nothing like Morse
    let mut p = vec![(false, 1.0)];
    for i in 0..30 {
        p.push((true, if i % 4 == 0 { long } else { short }));
        p.push((false, gap));
    }
    send(&mut d, &p);

    let r = d
        .evaluate()
        .expect("an unfamiliar but deliberate keying must be reported");
    assert!(r.is_present(500_000), "unknown ratios are the point: {r:?}");
    assert!(
        ratio(&r) > 6.0,
        "and the ratio is reported as it is, {:.1}",
        ratio(&r)
    );
}

#[test]
fn one_long_opening_tone_does_not_wreck_the_ratio() {
    // Splitting marks at the midpoint of their range would put everything on one side of a
    // 9-second outlier and turn a ratio of 3.11 into 13.55. A real message: 218 dots, 32
    // dashes, one long opening tone, in milliseconds.
    let mut marks: Vec<u64> = std::iter::repeat(551)
        .take(218)
        .chain(std::iter::repeat(1711).take(32))
        .chain(std::iter::once(9000))
        .collect();
    marks.sort();

    let (dot, dash, _, _) = cluster_two(&marks).expect("two classes");
    let ratio = dash as f32 / dot as f32;
    assert!(
        (ratio - 3.1).abs() < 0.6,
        "clustering must survive the opening tone, got ratio {ratio:.2}"
    );
}

/// The whole reason this detector exists.
#[test]
fn a_single_tone_is_enough_unlike_the_fsk_detector() {
    let mut d = detector();
    send(&mut d, &reference_message());
    let r = d.evaluate().expect("reported");
    assert!(
        r.confidence > 0,
        "one tone switched on and off is the entire signal shape here"
    );
}

/// Frame-quantised flicker is not Morse, however good its ratio looks: dots of three frames
/// and dashes of nine give a ratio of exactly 3.00 out of nothing but quantisation.
#[test]
fn marks_a_few_frames_long_are_refused() {
    let mut d = detector();
    let mut p = vec![(false, 1.0)];
    for i in 0..40 {
        let frames = if i % 5 == 0 { 9.0 } else { 3.0 };
        p.push((true, frames * FRAME_SECONDS));
        p.push((false, 3.0 * FRAME_SECONDS));
    }
    send(&mut d, &p);

    match d.evaluate() {
        None => {}
        Some(r) => assert!(
            !r.is_present(500_000),
            "a 3-frame dot is the frame rate, not a dot: {r:?}"
        ),
    }
}

#[test]
fn a_steady_tone_is_not_morse() {
    let mut d = detector();
    send(&mut d, &[(false, 1.0), (true, 40.0)]);
    match d.evaluate() {
        None => {}
        Some(r) => assert!(!r.is_present(500_000), "a held note is not keying: {r:?}"),
    }
}

#[test]
fn marks_of_one_length_are_not_morse() {
    // A metronome: evenly spaced identical blips, no dot/dash alphabet.
    let mut d = detector();
    let mut p = vec![(false, 1.0)];
    for _ in 0..24 {
        p.push((true, 0.55));
        p.push((false, 0.4));
    }
    send(&mut d, &p);
    match d.evaluate() {
        None => {}
        Some(r) => assert!(
            !r.is_present(500_000),
            "one mark length carries no alphabet: {r:?}"
        ),
    }
}

#[test]
fn a_lone_dash_among_dots_is_not_an_alphabet() {
    let mut d = detector();
    let mut p = vec![(false, 1.0)];
    for i in 0..30 {
        p.push((true, if i == 15 { 1.7 } else { 0.55 }));
        p.push((false, 0.15));
    }
    send(&mut d, &p);
    match d.evaluate() {
        None => {}
        Some(r) => assert!(
            !r.is_present(500_000),
            "one dash in thirty marks is a glitch, not a symbol: {r:?}"
        ),
    }
}

#[test]
fn two_classes_are_told_apart_exactly() {
    let marks = vec![10, 10, 10, 12, 30, 30, 33, 33];
    assert_eq!(cluster_two(&marks), Some((10, 33, 4, 4)));
    assert_eq!(cluster_two(&vec![10, 10, 10]), None);
    assert_eq!(cluster_two(&vec![10]), None);
}

#[test]
fn old_marks_are_let_go() {
    let mut d = detector();
    send(&mut d, &reference_message());
    assert!(d.evaluate().is_some());
    // Marks of one length for longer than the history push the message out.
    let mut p = Vec::new();
    for _ in 0..80 {
        p.push((true, 0.55));
        p.push((false, 0.4));
    }
    send(&mut d, &p);
    match d.evaluate() {
        None => {}
        Some(r) => assert!(!r.is_present(500_000), "{r:?}"),
    }
}

#[test]
fn a_frame_with_an_infinite_level_is_passed_over() {
    let mut whole = detector();
    let mut broken = detector();
    let mut longer = detector();
    for d in [&mut whole, &mut broken, &mut longer] {
        send(d, &reference_message());
        send(d, &[(false, 0.5)]);
    }
    let mut infinite = frame(true);
    let bin = (100.0 / (SAMPLE_RATE as f32 / FFT as f32)) as usize;
    infinite[bin] = Some(INFINITE_DB);
    for _ in 0..20 {
        broken.push(&infinite);
        longer.push(&frame(true));
    }
    for d in [&mut whole, &mut broken, &mut longer] {
        send(d, &[(false, 0.5)]);
    }
    assert_eq!(broken.evaluate(), whole.evaluate());
    assert_eq!(
        longer.evaluate().unwrap().marks,
        whole.evaluate().unwrap().marks + 1,
        "the same frames without it are a mark"
    );
}

#[test]
fn a_level_that_is_no_number_is_left_out() {
    let mut whole = detector();
    let mut holed = detector();
    for (on, seconds) in reference_message() {
        let frames = (seconds / FRAME_SECONDS).round().max(1.0) as usize;
        for _ in 0..frames {
            whole.push(&frame(on));
            let mut v = frame(on);
            let bin = (90.0 / (SAMPLE_RATE as f32 / FFT as f32)) as usize;
            v[bin] = None;
            holed.push(&v);
        }
    }
    assert_eq!(holed.evaluate(), whole.evaluate());
}
