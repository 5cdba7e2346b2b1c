//! What the windows say and show.
use ed_compass::analysis::keying::KeyingDetection;
use ed_compass::analysis::periodicity::PeriodicityResult;
use ed_compass::analysis::structure::StructureScore;
use ed_compass::config::Config;
use ed_compass::ui::compass::{
    bearing_text, confidence_colour, confidence_grade, is_behind, needle_length, panel_position,
    period_text, Grade,
};
use ed_compass::ui::overlay::{
    detail_lines, keying_colour, lamp_colours, mib, panel_style, period_detail, usage_text,
    used_fraction, HudColour,
};
use ed_compass::ui::{
    analyzed_line, anchor_from, directional_notice, dragged_band, event_span, export_height,
    export_name, image_is_due, keying_readout, overlay_should_show, sanitize_for_filename, snapshot_interval,
    structure_readout, window_frames,
};

fn keyed(confidence: u64) -> KeyingDetection {
    KeyingDetection {
        tones_hz: vec![640_000_000, 820_000_000],
        symbol_rate_hz: 4_000_000,
        timing_regularity: 900_000,
        alphabet_purity: 950_000,
        tone_stability: 1_000_000,
        transitions_per_second: 3_000_000,
        confidence,
        symbol_count: 40,
    }
}

#[test]
fn the_overlay_follows_the_game_s_focus() {
    assert!(
        overlay_should_show(true, true, false),
        "Elite in front: show"
    );
    assert!(
        !overlay_should_show(true, false, false),
        "Alt-Tabbed away: the overlay must go with it, not float over the browser"
    );
    assert!(
        overlay_should_show(true, false, true),
        "our own window in front: show, so the toggles have a visible effect"
    );
}

#[test]
fn turning_the_overlay_off_beats_any_focus() {
    for game in [false, true] {
        for own in [false, true] {
            assert!(
                !overlay_should_show(false, game, own),
                "game={game} own={own}"
            );
        }
    }
}

#[test]
fn confidence_colour_grades_from_red_to_green() {
    let low = confidence_colour(100_000);
    let mid = confidence_colour(500_000);
    let high = confidence_colour(900_000);
    assert!(low.0 > low.1, "low confidence should read as a warning");
    assert!(high.1 > high.0, "high confidence should read as good");
    assert_ne!(mid, low);
    assert_ne!(mid, high);
    assert_eq!(confidence_grade(700_000), Grade::Good);
    assert_eq!(confidence_grade(699_999), Grade::Fair);
    assert_eq!(confidence_grade(399_999), Grade::Poor);
}

#[test]
fn bearings_name_their_side() {
    assert_eq!(bearing_text(-45_000_000, 800_000), "-45°  conf 0.80");
    assert_eq!(bearing_text(120_400_000, 250_000), "+120°  conf 0.25");
    // An exact half goes to the even neighbour.
    assert_eq!(bearing_text(44_500_000, 125_000), "+44°  conf 0.12");
    assert_eq!(bearing_text(-45_500_000, 375_000), "-46°  conf 0.38");
    assert_eq!(bearing_text(44_500_001, 125_001), "+45°  conf 0.13");
    assert!(is_behind(180) && !is_behind(90) && !is_behind(270));
}

#[test]
fn the_needle_grows_with_confidence() {
    assert_eq!(needle_length(0), 250_000);
    assert_eq!(needle_length(1_000_000), 1_000_000);
    assert_eq!(needle_length(5_000_000), 1_000_000);
}

#[test]
fn the_period_meter_is_clamped_to_its_ends() {
    assert_eq!(panel_position(80_000_000, 60_000_000, 100_000_000), 500_000);
    assert_eq!(panel_position(10, 60_000_000, 100_000_000), 0);
    assert_eq!(panel_position(200_000_000, 60_000_000, 100_000_000), 1_000_000);
}

#[test]
fn periods_are_given_to_a_tenth_of_a_second() {
    let p = PeriodicityResult {
        period_seconds: 109_670_000,
        confidence: 980_000,
        prominence: 400_000,
        peak_lag_frames: 110,
    };
    assert_eq!(period_text(&p), "109.7 s  conf 0.98  prom 0.40");
    assert_eq!(period_detail(&Some(p)), "109.7s conf 0.98");
    assert_eq!(period_detail(&None), "collecting…");
}

#[test]
fn a_lit_lamp_takes_its_colour_and_a_dark_one_is_idle() {
    let lit = lamp_colours(true, HudColour::Cyan);
    assert!(lit.ring && lit.dot == HudColour::Cyan && lit.label == HudColour::Cyan);
    let dark = lamp_colours(false, HudColour::Cyan);
    assert!(!dark.ring && dark.dot == HudColour::Idle && dark.label == HudColour::Amber);
    assert_eq!(panel_style(false, false, true), (200, HudColour::Orange));
    assert_eq!(panel_style(false, false, false), (130, HudColour::Idle));
    assert_eq!(keying_colour(true), HudColour::Amber);
}

#[test]
fn disk_usage_reads_in_mebibytes() {
    assert_eq!(mib(3 * 1_048_576 + 5), "3 MB");
    assert_eq!(usage_text(1_048_576, 2 * 1_048_576), "1 MB / 2 MB");
    assert_eq!(used_fraction(1, 4), 250_000);
    assert_eq!(used_fraction(9, 4), 1_000_000);
    assert_eq!(used_fraction(9, 0), 0);
}

#[test]
fn the_keying_lamp_needs_its_threshold() {
    let on = keying_readout(&Some(keyed(800_000)), 750_000);
    assert!(on.lit);
    let off = keying_readout(&Some(keyed(700_000)), 750_000);
    assert!(!off.lit);
    assert_eq!(keying_readout(&None, 750_000).headline, "○ no keying");
    assert_eq!(
        detail_lines(true, &Some(keyed(800_000)), 750_000, true, 400_000),
        ("640 Hz · 4.0/s · music?".to_string(), "0.40".to_string())
    );
    assert_eq!(
        detail_lines(true, &Some(keyed(700_000)), 750_000, true, 400_000).0,
        "0.70"
    );
    assert_eq!(detail_lines(true, &None, 750_000, false, 0).0, "—");
    assert_eq!(
        detail_lines(false, &None, 750_000, false, 0),
        ("waiting".to_string(), "waiting".to_string())
    );
}

#[test]
fn the_structure_lamp_needs_its_threshold() {
    let mut s = StructureScore::empty();
    assert!(!structure_readout(&s, 350_000).lit);
    s.score = 420_000;
    let on = structure_readout(&s, 350_000);
    assert!(on.lit);
    assert_eq!((on.headline.as_str(), on.numbers.as_str()), ("◉ PICTURE", "0.42"));
}

#[test]
fn file_names_hold_nothing_a_file_system_minds() {
    let once = sanitize_for_filename("Col 285/Sector: \"A\"");
    assert!(!once.contains('/') && !once.contains(':') && !once.contains('"'));
    assert_eq!(sanitize_for_filename(&once), once);
    let name = export_name(&Some("Sol".to_string()), "20240101T000000Z", true);
    assert_eq!(name, "Sol-20240101T000000Z-excess.png");
    assert_eq!(export_name(&None, "t", false), "unknown-system-t-raw.png");
}

#[test]
fn a_drag_needs_some_height() {
    assert_eq!(dragged_band(500_000, 400_000), None);
    assert_eq!(
        dragged_band(900_000_000, 400_000_000),
        Some((400_000_000, 900_000_000))
    );
}

#[test]
fn lines_of_text_count_what_was_heard() {
    assert_eq!(
        analyzed_line(125_000_000, 2, 3_500_000, 4),
        "125 s analyzed · 2 gaps (3.5 s) · 4 captures"
    );
    assert_eq!(directional_notice(2), Some("2 directional ch".to_string()));
    assert_eq!(directional_notice(7), None);
}

#[test]
fn settings_shape_the_view() {
    let mut cfg = Config::default();
    assert_eq!(snapshot_interval(&cfg), 100_000);
    assert_eq!(window_frames(1_000_000, 2048, 48_000), 24);
    assert_eq!(anchor_from(&cfg).width, 440_000_000);
    cfg.export_match_published_aspect = false;
    assert_eq!(export_height(&cfg, Some(1), Some(2)), 1600);
    cfg.export_match_published_aspect = true;
    assert_eq!(export_height(&cfg, Some(1), Some(2)), 800);
}

#[test]
fn the_overlay_palette_is_elite_s_own() {
    // Sampled from a cockpit screenshot: orange HUD text on black, with cyan reserved for
    // contacts. Guessed colours read as a foreign window.
    let orange = HudColour::Orange.rgb();
    assert_eq!(orange, (209, 110, 0));
    assert!(orange.0 > orange.1 && orange.2 == 0);
    assert!(
        HudColour::Amber.rgb().0 < orange.0,
        "amber is the dimmer label colour"
    );

    let sum = |c: (u8, u8, u8)| c.0 as u32 + c.1 as u32 + c.2 as u32;
    let cyan = HudColour::Cyan.rgb();
    assert!(sum(cyan) > sum(HudColour::Idle.rgb()) * 3, "a lit lamp must carry");
    assert!(cyan.2 > cyan.0, "contacts read cool against the orange");
    assert_eq!(HudColour::Red.rgb(), (147, 0, 4));
}

#[test]
fn events_are_placed_by_how_long_ago_they_were() {
    assert_eq!(event_span(100, 40, 20), (60, 40));
    assert_eq!(event_span(100, 40, 90), (60, 0), "still going on");
    assert_eq!(event_span(10, 40, 5), (-30, 0));
}

#[test]
fn an_image_is_rebuilt_when_something_changed() {
    assert!(image_is_due(None, (10, 20), 0, 100));
    assert!(image_is_due(Some((10, 21)), (10, 20), 0, 100));
    assert!(image_is_due(Some((11, 20)), (10, 20), 0, 100));
    assert!(image_is_due(Some((10, 20)), (10, 20), 100, 100));
    assert!(!image_is_due(Some((10, 20)), (10, 20), 99, 100));
}
