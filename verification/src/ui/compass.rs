//! What the compass rose and the periodicity panel show.
use crate::analysis::periodicity::PeriodicityResult;
use crate::arith::ONE;
use crate::text::{fixed, push_fixed};
use vstd::prelude::*;
use vstd::string::*;

verus! {

/// How much an estimate is to be trusted.
#[derive(Clone, Copy, Debug, PartialEq, Eq, Structural)]
pub enum Grade {
    Good,
    Fair,
    Poor,
}

/// The grade of a confidence in millionths: good from 0.7 on, fair from 0.4 on.
pub fn confidence_grade(confidence: u64) -> (r: Grade)
    ensures
        r == if confidence >= 700_000 {
            Grade::Good
        } else if confidence >= 400_000 {
            Grade::Fair
        } else {
            Grade::Poor
        },
{
    if confidence >= 700_000 {
        Grade::Good
    } else if confidence >= 400_000 {
        Grade::Fair
    } else {
        Grade::Poor
    }
}

/// The red, green and blue of a confidence.
pub fn confidence_colour(confidence: u64) -> (r: (u8, u8, u8))
    ensures
        r == if confidence >= 700_000 {
            (120u8, 255u8, 160u8)
        } else if confidence >= 400_000 {
            (255u8, 210u8, 90u8)
        } else {
            (220u8, 120u8, 120u8)
        },
{
    match confidence_grade(confidence) {
        Grade::Good => (120, 255, 160),
        Grade::Fair => (255, 210, 90),
        Grade::Poor => (220, 120, 120),
    }
}

/// Whether a spoke of the rose points behind: further than a quarter turn from ahead.
pub fn is_behind(spoke: u32) -> (r: bool)
    requires
        spoke < 360,
    ensures
        r == (90 < spoke < 270),
{
    let turned: i64 = ((spoke as i64 + 180) % 360) - 180;
    !(-90 <= turned && turned <= 90)
}

/// How long the needle is, in millionths of the radius: a weak estimate is visibly weak.
pub fn needle_length(confidence: u64) -> (r: u64)
    ensures
        r == 250_000 + 3 * (if confidence > ONE {
            ONE
        } else {
            confidence
        }) / 4,
{
    let c: u64 = if confidence > ONE {
        ONE
    } else {
        confidence
    };
    250_000 + 3 * c / 4
}

/// A bearing in whole degrees and its confidence as text. The sign is always shown.
pub fn bearing_text(azimuth: i64, confidence: u64) -> (r: String)
    requires
        -180_000_000 < azimuth <= 180_000_000,
    ensures
        r@ == (if azimuth < 0 {
            "-"@
        } else {
            "+"@
        }) + fixed(
            if azimuth < 0 {
                -azimuth as int
            } else {
                azimuth as int
            },
            0,
        ) + "°  conf "@ + fixed(
            if confidence > ONE {
                ONE as int
            } else {
                confidence as int
            },
            2,
        ),
{
    let mut s: String = if azimuth < 0 {
        "-".to_owned()
    } else {
        "+".to_owned()
    };
    let size: u64 = if azimuth < 0 {
        (-azimuth) as u64
    } else {
        azimuth as u64
    };
    push_fixed(&mut s, size, 0);
    s.append("°  conf ");
    push_fixed(
        &mut s,
        if confidence > ONE {
            ONE
        } else {
            confidence
        },
        2,
    );
    s
}

/// Where a time lies between two others, in millionths of the way, kept within them.
pub fn panel_position(seconds: i64, min_seconds: i64, max_seconds: i64) -> (r: u64)
    requires
        min_seconds < max_seconds,
    ensures
        r == if seconds <= min_seconds {
            0
        } else if seconds >= max_seconds {
            ONE as int
        } else {
            (seconds - min_seconds) * ONE / (max_seconds - min_seconds)
        },
{
    if seconds <= min_seconds {
        0
    } else if seconds >= max_seconds {
        ONE
    } else {
        let part: i128 = seconds as i128 - min_seconds as i128;
        let whole: i128 = max_seconds as i128 - min_seconds as i128;
        proof {
            assert(0 <= part * 1_000_000 / (whole as int) <= 1_000_000) by (nonlinear_arith)
                requires
                    0 < part < whole,
            ;
        }
        (part * 1_000_000 / whole) as u64
    }
}

/// The line on a measured period.
pub fn period_text(p: &PeriodicityResult) -> (r: String)
    requires
        0 <= p.period_seconds <= u64::MAX,
    ensures
        r@ == fixed(p.period_seconds as int, 1) + " s  conf "@ + fixed(p.confidence as int, 2)
            + "  prom "@ + (if p.prominence < 0 {
            "-"@
        } else {
            Seq::empty()
        }) + fixed(
            if p.prominence < 0 {
                -p.prominence as int
            } else {
                p.prominence as int
            },
            2,
        ),
{
    let mut s: String = String::new();
    push_fixed(&mut s, p.period_seconds as u64, 1);
    s.append(" s  conf ");
    push_fixed(&mut s, p.confidence, 2);
    s.append("  prom ");
    if p.prominence < 0 {
        s.append("-");
    }
    let size: u64 = if p.prominence < 0 {
        (-(p.prominence as i128)) as u64
    } else {
        p.prominence as u64
    };
    push_fixed(&mut s, size, 2);
    assert(s@ =~= fixed(p.period_seconds as int, 1) + " s  conf "@ + fixed(p.confidence as int, 2)
        + "  prom "@ + (if p.prominence < 0 {
        "-"@
    } else {
        Seq::empty()
    }) + fixed(size as int, 2));
    s
}

} // verus!
