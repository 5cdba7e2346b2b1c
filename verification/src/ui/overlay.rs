//! What the in-game overlay says.
use crate::analysis::keying::KeyingDetection;
use crate::analysis::periodicity::PeriodicityResult;
use crate::arith::ONE;
use crate::text::{digits, fixed, push_decimal, push_fixed};
use vstd::prelude::*;
use vstd::string::*;

verus! {

/// The headline number: the measured period and its confidence.
pub fn period_detail(period: &Option<PeriodicityResult>) -> (r: String)
    requires
        period matches Some(p) ==> 0 <= p.period_seconds <= u64::MAX,
    ensures
        r@ == match period {
            None => "collecting…"@,
            Some(p) => fixed(p.period_seconds as int, 1) + "s conf "@ + fixed(
                p.confidence as int,
                2,
            ),
        },
{
    match period {
        None => "collecting…".to_owned(),
        Some(p) => {
            let mut s: String = String::new();
            push_fixed(&mut s, p.period_seconds as u64, 1);
            s.append("s conf ");
            push_fixed(&mut s, p.confidence, 2);
            assert(s@ =~= fixed(p.period_seconds as int, 1) + "s conf "@ + fixed(
                p.confidence as int,
                2,
            ));
            s
        },
    }
}

/// The first tone of a transmission, or nothing.
pub open spec fn lead_tone(k: KeyingDetection) -> int {
    if k.tones_hz.len() == 0 {
        0
    } else {
        k.tones_hz[0] as int
    }
}

/// What is said of keying. The numbers are always shown: replacing them with a warning would
/// hide the one thing needed to judge whether the warning is justified.
pub open spec fn keying_text(k: KeyingDetection, threshold: u64, suspect: bool) -> Seq<char> {
    if k.confidence >= threshold {
        fixed(lead_tone(k), 0) + " Hz · "@ + fixed(k.symbol_rate_hz as int, 1) + "/s"@ + (
        if suspect {
            " · music?"@
        } else {
            Seq::empty()
        })
    } else {
        fixed(k.confidence as int, 2)
    }
}

/// Text shown under each indicator, keying first and structure second, for an engine that
/// is running. `suspect` says that a detection coincides with a music change.
pub fn detail_lines(
    running: bool,
    keying: &Option<KeyingDetection>,
    keying_threshold: u64,
    suspect: bool,
    structure_score: u64,
) -> (r: (String, String))
    requires
        keying matches Some(k) ==> lead_tone(*k) <= u64::MAX,
    ensures
        !running ==> r.0@ == "waiting"@ && r.1@ == "waiting"@,
        running ==> {
            &&& r.0@ == match keying {
                None => "—"@,
                Some(k) => keying_text(*k, keying_threshold, suspect),
            }
            &&& r.1@ == fixed(structure_score as int, 2)
        },
{
    if !running {
        return ("waiting".to_owned(), "waiting".to_owned());
    }
    let line: String = match keying {
        None => "—".to_owned(),
        Some(k) => {
            let mut s: String = String::new();
            if k.is_present(keying_threshold) {
                let tone: u64 = if k.tones_hz.len() == 0 {
                    0
                } else {
                    k.tones_hz[0] as u64
                };
                push_fixed(&mut s, tone, 0);
                s.append(" Hz · ");
                push_fixed(&mut s, k.symbol_rate_hz, 1);
                s.append("/s");
                if suspect {
                    s.append(" · music?");
                }
            } else {
                push_fixed(&mut s, k.confidence, 2);
            }
            assert(s@ =~= keying_text(*k, keying_threshold, suspect));
            s
        },
    };
    let mut structure: String = String::new();
    push_fixed(&mut structure, structure_score, 2);
    assert(structure@ =~= fixed(structure_score as int, 2));
    (line, structure)
}

/// Bytes as whole mebibytes, which is the only precision worth showing.
pub fn mib(bytes: u64) -> (r: String)
    ensures
        r@ == digits(bytes as int / 1_048_576) + " MB"@,
{
    let mut s: String = String::new();
    push_decimal(&mut s, bytes / 1_048_576);
    s.append(" MB");
    assert(s@ =~= digits(bytes as int / 1_048_576) + " MB"@);
    s
}

/// How much of a budget is used, in millionths and never more than all of it; nothing where
/// there is no budget.
pub fn used_fraction(used: u64, budget: u64) -> (r: u64)
    ensures
        r == if budget == 0 {
            0
        } else if used >= budget {
            ONE as int
        } else {
            used * ONE / (budget as int)
        },
{
    if budget == 0 {
        0
    } else if used >= budget {
        ONE
    } else {
        proof {
            assert(0 <= used * 1_000_000 / (budget as int) <= 1_000_000) by (nonlinear_arith)
                requires
                    0 <= used < budget,
            ;
        }
        (used as u128 * 1_000_000 / budget as u128) as u64
    }
}

/// A size in bytes and its budget, as text.
pub fn usage_text(used: u64, budget: u64) -> (r: String)
    ensures
        r@ == digits(used as int / 1_048_576) + " MB"@ + " / "@ + (digits(
            budget as int / 1_048_576,
        ) + " MB"@),
{
    let mut s: String = mib(used);
    s.append(" / ");
    s.append(mib(budget).as_str());
    s
}

/// Elite's own HUD palette.
#[derive(Clone, Copy, Debug, PartialEq, Eq, Structural)]
pub enum HudColour {
    /// The bright orange of active text.
    Orange,
    /// The dimmer amber of secondary labels.
    Amber,
    /// An unlit element: the near-black brown of a cold radar ring.
    Idle,
    /// Warning red, as on the heat and hull gauges.
    Red,
    /// The pale cyan of a resolved contact. Elite reserves it for "something is there",
    /// which is exactly what a lit detector means.
    Cyan,
}

impl HudColour {
    /// Its red, green and blue.
    pub fn rgb(self) -> (r: (u8, u8, u8))
        ensures
            r == match self {
                HudColour::Orange => (209u8, 110u8, 0u8),
                HudColour::Amber => (177u8, 87u8, 0u8),
                HudColour::Idle => (88u8, 44u8, 6u8),
                HudColour::Red => (147u8, 0u8, 4u8),
                HudColour::Cyan => (203u8, 249u8, 251u8),
            },
    {
        match self {
            HudColour::Orange => (209, 110, 0),
            HudColour::Amber => (177, 87, 0),
            HudColour::Idle => (88, 44, 6),
            HudColour::Red => (147, 0, 4),
            HudColour::Cyan => (203, 249, 251),
        }
    }
}

/// One indicator of the overlay: its dot, its name and its numbers.
#[derive(Clone, Copy, Debug, PartialEq, Eq, Structural)]
pub struct LampColours {
    pub dot: HudColour,
    pub label: HudColour,
    pub detail: HudColour,
    /// A soft ring, so that a lit lamp registers in peripheral vision.
    pub ring: bool,
}

/// The colours of an indicator, with the colour it has when lit.
pub fn lamp_colours(lit: bool, lit_colour: HudColour) -> (r: LampColours)
    ensures
        r.ring == lit,
        lit ==> r.dot == lit_colour && r.label == lit_colour && r.detail == HudColour::Orange,
        !lit ==> r.dot == HudColour::Idle && r.label == HudColour::Amber && r.detail
            == HudColour::Idle,
{
    if lit {
        LampColours { dot: lit_colour, label: lit_colour, detail: HudColour::Orange, ring: true }
    } else {
        LampColours {
            dot: HudColour::Idle,
            label: HudColour::Amber,
            detail: HudColour::Idle,
            ring: false,
        }
    }
}

/// The panel's opacity and edge: dimmer when idle so that it all but disappears, brighter
/// the moment it has something to report.
pub fn panel_style(landscape: bool, keying: bool, structure: bool) -> (r: (u8, HudColour))
    ensures
        landscape || keying || structure ==> r == (200u8, HudColour::Orange),
        !(landscape || keying || structure) ==> r == (130u8, HudColour::Idle),
{
    if landscape || keying || structure {
        (200, HudColour::Orange)
    } else {
        (130, HudColour::Idle)
    }
}

/// The colour of a lit keying lamp: amber while music is suspected.
pub fn keying_colour(suspect: bool) -> (r: HudColour)
    ensures
        r == if suspect {
            HudColour::Amber
        } else {
            HudColour::Cyan
        },
{
    if suspect {
        HudColour::Amber
    } else {
        HudColour::Cyan
    }
}

} // verus!
