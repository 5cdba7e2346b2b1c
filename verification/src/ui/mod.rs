//! What the window shows, as far as it is decided rather than drawn.
use crate::analysis::keying::KeyingDetection;
use crate::analysis::structure::StructureScore;
use crate::arith::ONE;
use crate::config::Config;
use crate::game_window::OverlayAnchor;
use crate::text::{digits, fixed, push_decimal, push_fixed};
use vstd::prelude::*;
use vstd::string::*;

pub mod compass;
pub mod overlay;
pub mod zoom;

verus! {

/// A character that is safe in a Windows filename.
pub open spec fn is_safe(c: char) -> bool {
    ('a' <= c <= 'z') || ('A' <= c <= 'Z') || ('0' <= c <= '9') || c == '-' || c == '_' || c == '.'
}

/// A text with a dash for every character that is not safe in a filename.
pub open spec fn sanitized(s: Seq<char>) -> Seq<char> {
    s.map_values(
        |c: char|
            if is_safe(c) {
                c
            } else {
                '-'
            },
    )
}

/// Make a string safe for a Windows filename.
pub fn sanitize_for_filename(s: &str) -> (r: String)
    ensures
        r@ == sanitized(s@),
{
    let n: usize = s.unicode_len();
    let mut r: String = String::new();
    let mut i: usize = 0;
    proof {
        reveal_strlit("-");
    }
    while i < n
        invariant
            n == s@.len(),
            i <= n,
            "-"@ =~= seq!['-'],
            r@ == sanitized(s@).take(i as int),
        decreases n - i,
    {
        let c: char = s.get_char(i);
        if ('a' <= c && c <= 'z') || ('A' <= c && c <= 'Z') || ('0' <= c && c <= '9') || c == '-'
            || c == '_' || c == '.' {
            r.append(s.substring_char(i, i + 1));
        } else {
            r.append("-");
        }
        assert(r@ =~= sanitized(s@).take(i + 1));
        i = i + 1;
    }
    assert(r@ =~= sanitized(s@));
    r
}

/// Sanitizing twice changes nothing more, and no name grows or shrinks by it.
pub proof fn law_sanitizing_settles(s: Seq<char>)
    ensures
        sanitized(sanitized(s)) == sanitized(s),
        sanitized(s).len() == s.len(),
        forall|i: int| 0 <= i < s.len() ==> is_safe(#[trigger] sanitized(s)[i]),
{
    assert(sanitized(sanitized(s)) =~= sanitized(s));
}

/// Export height, corrected so a cropped band does not steepen every slope: the height
/// matched to the published aspect where that is asked for, else the one configured.
///
/// The spans are those of the shown band and of the published spectrograms, which run from
/// 20 Hz to 22050 Hz.
pub fn export_height(cfg: &Config, ours: Option<i32>, published: Option<i32>) -> (r: usize)
    ensures
        !cfg.export_match_published_aspect ==> r == cfg.export_height,
        cfg.export_match_published_aspect ==> r == match (ours, published) {
            (Some(o), Some(t)) => if o > 0 && t > 0 {
                crate::config::matched_height(cfg.export_height as int, o as int, t as int)
            } else {
                cfg.export_height as int
            },
            _ => cfg.export_height as int,
        },
{
    if cfg.export_match_published_aspect {
        cfg.matched_export_height(ours, published)
    } else {
        cfg.export_height
    }
}

/// Whether the overlay belongs on screen this frame.
///
/// It follows the game's focus, so Alt-Tabbing out of Elite takes it away. It also shows
/// while our own window has focus, so the toggles beside it can be seen to do something.
pub fn overlay_should_show(enabled: bool, game_focused: bool, own_focus: bool) -> (r: bool)
    ensures
        r == (enabled && (game_focused || own_focus)),
{
    enabled && (game_focused || own_focus)
}

/// Where the configuration puts the overlay.
pub fn anchor_from(cfg: &Config) -> (r: OverlayAnchor)
    ensures
        r == (OverlayAnchor {
            x_fraction: cfg.overlay_x_fraction,
            y_fraction: cfg.overlay_y_fraction,
            x_offset_px: 0,
            width: cfg.overlay_width,
            height: cfg.overlay_height,
        }),
{
    OverlayAnchor {
        x_fraction: cfg.overlay_x_fraction,
        y_fraction: cfg.overlay_y_fraction,
        x_offset_px: 0,
        width: cfg.overlay_width,
        height: cfg.overlay_height,
    }
}

/// How long to wait between snapshots, in millionths of a second: the configured rate, once
/// a second at least.
pub fn snapshot_interval(cfg: &Config) -> (r: u64)
    ensures
        r == ONE * ONE / (if cfg.analysis_update_hz > ONE {
            cfg.analysis_update_hz as int
        } else {
            ONE as int
        }),
{
    let rate: u64 = if cfg.analysis_update_hz > 1_000_000 {
        cfg.analysis_update_hz as u64
    } else {
        1_000_000
    };
    1_000_000_000_000 / rate
}

/// Frames of `hop` samples that a view of `seconds` millionths of a second spans, rounded up
/// and one at least.
pub open spec fn view_frames(seconds: int, hop: int, sample_rate: int) -> int {
    let frames = (seconds * sample_rate + hop * ONE - 1) / (hop * ONE);
    if seconds <= 0 || frames < 1 {
        1
    } else if frames > usize::MAX {
        usize::MAX as int
    } else {
        frames
    }
}

/// The window of a spectrogram in frames, so that time per pixel is fixed and the display
/// scrolls at a constant rate from the first second.
pub fn window_frames(seconds: i64, hop: usize, sample_rate: u32) -> (r: usize)
    requires
        hop > 0,
    ensures
        r == view_frames(seconds as int, hop as int, sample_rate as int),
{
    if seconds <= 0 {
        return 1;
    }
    proof {
        assert(0 <= seconds * sample_rate <= 0x8000_0000_0000_0000 * 0x1_0000_0000)
            by (nonlinear_arith)
            requires
                0 <= seconds <= 0x8000_0000_0000_0000,
                0 <= sample_rate <= 0x1_0000_0000,
        ;
    }
    let step: u128 = hop as u128 * 1_000_000;
    let frames: u128 = (seconds as u128 * sample_rate as u128 + step - 1) / step;
    if frames < 1 {
        1
    } else if frames > usize::MAX as u128 {
        usize::MAX
    } else {
        frames as usize
    }
}

/// The range of frequencies that a drag across the spectrogram mutes, in millionths of a
/// hertz; a drag of a hertz or less is a click.
pub fn dragged_band(a: i64, b: i64) -> (r: Option<(i64, i64)>)
    ensures
        match r {
            None => -ONE <= a - b <= ONE,
            Some((low, high)) => {
                &&& !(-ONE <= a - b <= ONE)
                &&& low == if a < b {
                    a
                } else {
                    b
                }
                &&& high == if a < b {
                    b
                } else {
                    a
                }
            },
        },
{
    let d: i128 = a as i128 - b as i128;
    if d <= 1_000_000 && d >= -1_000_000 {
        None
    } else if a < b {
        Some((a, b))
    } else {
        Some((b, a))
    }
}

/// How long ago an event began and ended, on a timeline in millionths of a second: one that
/// ends after now has not ended.
pub fn event_span(now: u64, start: u64, duration: u64) -> (r: (i128, i128))
    ensures
        r.0 == now - start,
        r.1 == if now - start > duration {
            now - start - duration
        } else {
            0
        },
{
    let began: i128 = now as i128 - start as i128;
    let ended: i128 = began - duration as i128;
    (
        began,
        if ended > 0 {
            ended
        } else {
            0
        },
    )
}

/// Whether a rendered image is due again: there is none, its size has changed, or the
/// analysis has produced new rows since. Rebuilding is the expensive part, so it runs at the
/// snapshot rate rather than the frame rate.
pub fn image_is_due(
    rendered: Option<(usize, usize)>,
    wanted: (usize, usize),
    elapsed: u64,
    interval: u64,
) -> (r: bool)
    ensures
        r == (rendered != Some(wanted) || elapsed >= interval),
{
    match rendered {
        None => true,
        Some((width, height)) => width != wanted.0 || height != wanted.1 || elapsed >= interval,
    }
}

/// The name of an exported image: where it was taken, then when, so that a folder of
/// exports sorts by system and the filename alone identifies the observation.
pub open spec fn export_name_of(system: Option<Seq<char>>, stamp: Seq<char>, excess: bool) -> Seq<
    char,
> {
    (match system {
        Some(s) => sanitized(s),
        None => "unknown-system"@,
    }) + "-"@ + stamp + (if excess {
        "-excess"@
    } else {
        "-raw"@
    }) + ".png"@
}

/// The name of an exported image, from the system it was taken in, if that is known, and a
/// time stamp.
pub fn export_name(system: &Option<String>, stamp: &str, excess: bool) -> (r: String)
    ensures
        r@ == export_name_of(
            match system {
                None => None,
                Some(s) => Some(s@),
            },
            stamp@,
            excess,
        ),
{
    let mut r: String = match system {
        Some(s) => sanitize_for_filename(s.as_str()),
        None => "unknown-system".to_owned(),
    };
    r.append("-");
    r.append(stamp);
    if excess {
        r.append("-excess");
    } else {
        r.append("-raw");
    }
    r.append(".png");
    r
}

/// The line on what has been analyzed: seconds, gaps and captures.
pub open spec fn analyzed_text(seconds: int, gaps: int, gap_seconds: int, captures: int) -> Seq<
    char,
> {
    fixed(seconds, 0) + " s analyzed · "@ + digits(gaps) + " gaps ("@ + fixed(gap_seconds, 1)
        + " s) · "@ + digits(captures) + " captures"@
}

pub fn analyzed_line(seconds: u64, gaps: u64, gap_seconds: u64, captures: u64) -> (r: String)
    ensures
        r@ == analyzed_text(seconds as int, gaps as int, gap_seconds as int, captures as int),
{
    let mut r: String = String::new();
    push_fixed(&mut r, seconds, 0);
    r.append(" s analyzed · ");
    push_decimal(&mut r, gaps);
    r.append(" gaps (");
    push_fixed(&mut r, gap_seconds, 1);
    r.append(" s) · ");
    push_decimal(&mut r, captures);
    r.append(" captures");
    assert(r@ =~= analyzed_text(
        seconds as int,
        gaps as int,
        gap_seconds as int,
        captures as int,
    ));
    r
}

/// A warning that the stream has too few channels with a bearing for a sharp one.
pub fn directional_notice(directional: usize) -> (r: Option<String>)
    ensures
        match r {
            None => directional >= 3,
            Some(s) => directional < 3 && s@ == digits(directional as int) + " directional ch"@,
        },
{
    if directional >= 3 {
        return None;
    }
    let mut s: String = String::new();
    push_decimal(&mut s, directional as u64);
    s.append(" directional ch");
    assert(s@ =~= digits(directional as int) + " directional ch"@);
    Some(s)
}

/// A detector's headline, whether it is lit, and the numbers beside it.
#[derive(Debug)]
pub struct Readout {
    pub lit: bool,
    pub headline: String,
    pub numbers: String,
}

pub open spec fn keying_lit(k: Option<KeyingDetection>, threshold: u64) -> bool {
    match k {
        None => false,
        Some(d) => d.confidence >= threshold,
    }
}

/// The readout on keying: is something transmitting?
pub fn keying_readout(keying: &Option<KeyingDetection>, threshold: u64) -> (r: Readout)
    ensures
        r.lit == keying_lit(*keying, threshold),
        match keying {
            None => r.headline@ == "○ no keying"@ && r.numbers@ == Seq::<char>::empty(),
            Some(k) => if k.confidence >= threshold {
                &&& r.headline@ == "◉ TRANSMISSION"@
                &&& r.numbers@ == fixed(k.confidence as int, 2) + " · "@ + digits(
                    k.tones_hz.len() as int,
                ) + " tones · "@ + fixed(k.symbol_rate_hz as int, 2) + " sym/s"@
            } else {
                &&& r.headline@ == "○ no keying  "@ + fixed(k.confidence as int, 2)
                &&& r.numbers@ == Seq::<char>::empty()
            },
        },
{
    match keying {
        None => Readout {
            lit: false,
            headline: "○ no keying".to_owned(),
            numbers: String::new(),
        },
        Some(k) => {
            if k.is_present(threshold) {
                let mut n: String = String::new();
                push_fixed(&mut n, k.confidence, 2);
                n.append(" · ");
                push_decimal(&mut n, k.tones_hz.len() as u64);
                n.append(" tones · ");
                push_fixed(&mut n, k.symbol_rate_hz, 2);
                n.append(" sym/s");
                assert(n@ =~= fixed(k.confidence as int, 2) + " · "@ + digits(
                    k.tones_hz.len() as int,
                ) + " tones · "@ + fixed(k.symbol_rate_hz as int, 2) + " sym/s"@);
                Readout { lit: true, headline: "◉ TRANSMISSION".to_owned(), numbers: n }
            } else {
                let mut h: String = "○ no keying  ".to_owned();
                push_fixed(&mut h, k.confidence, 2);
                Readout { lit: false, headline: h, numbers: String::new() }
            }
        },
    }
}

/// The readout on structure: is something drawn?
pub fn structure_readout(structure: &StructureScore, threshold: u64) -> (r: Readout)
    ensures
        r.lit == (structure.score >= threshold),
        r.lit ==> r.headline@ == "◉ PICTURE"@ && r.numbers@ == fixed(structure.score as int, 2),
        !r.lit ==> r.headline@ == "○ no picture  "@ + fixed(structure.score as int, 2)
            && r.numbers@ == Seq::<char>::empty(),
{
    if structure.is_present(threshold) {
        let mut n: String = String::new();
        push_fixed(&mut n, structure.score, 2);
        assert(n@ =~= fixed(structure.score as int, 2));
        Readout { lit: true, headline: "◉ PICTURE".to_owned(), numbers: n }
    } else {
        let mut h: String = "○ no picture  ".to_owned();
        push_fixed(&mut h, structure.score, 2);
        Readout { lit: false, headline: h, numbers: String::new() }
    }
}

} // verus!
