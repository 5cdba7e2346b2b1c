//! Where the overlay sits over the game's window.
//!
//! A borderless always-on-top window is placed over the game's own. Nothing is injected
//! into the game; the window manager is only asked where a window is. Positions and sizes
//! that are not whole pixels are in millionths of a pixel.
use crate::arith::{floor_div, ONE};
use vstd::prelude::*;

verus! {

/// A screen rectangle in physical pixels.
#[derive(Clone, Copy, Debug, PartialEq, Eq, Structural)]
pub struct Rect {
    pub left: i32,
    pub top: i32,
    pub right: i32,
    pub bottom: i32,
}

impl Rect {
    pub open spec fn across(&self) -> int {
        self.right - self.left
    }

    pub open spec fn down(&self) -> int {
        self.bottom - self.top
    }

    pub open spec fn usable(&self) -> bool {
        self.across() > 200 && self.down() > 200
    }

    pub fn width(&self) -> (r: i32)
        requires
            i32::MIN <= self.across() <= i32::MAX,
        ensures
            r == self.across(),
    {
        self.right - self.left
    }

    pub fn height(&self) -> (r: i32)
        requires
            i32::MIN <= self.down() <= i32::MAX,
        ensures
            r == self.down(),
    {
        self.bottom - self.top
    }

    pub fn is_usable(&self) -> (r: bool)
        ensures
            r == self.usable(),
    {
        self.right as i64 - self.left as i64 > 200 && self.bottom as i64 - self.top as i64 > 200
    }
}

/// Where the overlay sits within the game window.
///
/// Fractions rather than pixels, so the placement survives a resolution change or moving to
/// a different monitor.
#[derive(Clone, Copy, Debug, PartialEq, Eq, Structural)]
pub struct OverlayAnchor {
    /// Horizontal centre of the overlay as a fraction of the window width.
    pub x_fraction: i64,
    /// Top edge as a fraction of the window height.
    pub y_fraction: i64,
    /// Pixels added rightward after the fractional position is clamped, to clear Elite's own
    /// icons in the extreme top-left. They hug the corner at every resolution, so the
    /// clearance needed is absolute, not proportional.
    pub x_offset_px: i64,
    pub width: i64,
    pub height: i64,
}

impl Default for OverlayAnchor {
    fn default() -> (r: Self)
        ensures
            r == (OverlayAnchor {
                x_fraction: 0,
                y_fraction: 0,
                x_offset_px: 220_000_000,
                width: 880_000_000,
                height: 104_000_000,
            }),
    {
        OverlayAnchor {
            x_fraction: 0,
            y_fraction: 0,
            x_offset_px: 220_000_000,
            width: 880_000_000,
            height: 104_000_000,
        }
    }
}

pub open spec fn clamp(v: int, lo: int, hi: int) -> int {
    if v < lo {
        lo
    } else if v > hi {
        hi
    } else {
        v
    }
}

pub open spec fn larger(a: int, b: int) -> int {
    if a > b {
        a
    } else {
        b
    }
}

fn clamped(v: i128, lo: i128, hi: i128) -> (r: i128)
    ensures
        r == clamp(v as int, lo as int, hi as int),
{
    if v < lo {
        lo
    } else if v > hi {
        hi
    } else {
        v
    }
}

impl OverlayAnchor {
    /// Where the left edge goes: the middle of the overlay at its fraction of the window,
    /// kept inside the window, then moved by the offset, and kept inside again. Offsetting
    /// first would let a left-anchored overlay swallow its own shift.
    pub open spec fn x_in(&self, game: Rect) -> int {
        let left = game.left * ONE;
        let last = larger(game.right * ONE - self.width, left);
        let centre = left + game.across() * self.x_fraction;
        let x = (2 * centre - self.width) / 2;
        clamp(clamp(x, left, last) + self.x_offset_px, left, last)
    }

    pub open spec fn y_in(&self, game: Rect) -> int {
        let top = game.top * ONE;
        let last = larger(game.bottom * ONE - self.height, top);
        clamp(top + game.down() * self.y_fraction, top, last)
    }

    /// Top-left position for the overlay window over the given game rectangle.
    pub fn position_in(&self, game: Rect) -> (r: (i128, i128))
        ensures
            r.0 == self.x_in(game),
            r.1 == self.y_in(game),
    {
        let left: i128 = game.left as i128 * 1_000_000;
        let top: i128 = game.top as i128 * 1_000_000;
        let across: i128 = game.right as i128 - game.left as i128;
        let down: i128 = game.bottom as i128 - game.top as i128;
        proof {
            let limit = 0x8000_0000_0000_0000int;
            let wide = 0x1_0000_0000int;
            let xf = self.x_fraction as int;
            let yf = self.y_fraction as int;
            assert(-(wide * limit) <= across * xf <= wide * limit && -(wide * limit) <= down * yf
                <= wide * limit) by (nonlinear_arith)
                requires
                    -wide <= across <= wide,
                    -wide <= down <= wide,
                    -limit <= xf <= limit,
                    -limit <= yf <= limit,
                    limit > 0,
                    wide > 0,
            ;
        }
        let centre: i128 = left + across * self.x_fraction as i128;
        let x: i128 = floor_div(2 * centre - self.width as i128, 2);
        let right_most: i128 = game.right as i128 * 1_000_000 - self.width as i128;
        let max_x: i128 = if right_most > left {
            right_most
        } else {
            left
        };
        let lowest: i128 = game.bottom as i128 * 1_000_000 - self.height as i128;
        let max_y: i128 = if lowest > top {
            lowest
        } else {
            top
        };
        let inside: i128 = clamped(x, left, max_x);
        (
            clamped(inside + self.x_offset_px as i128, left, max_x),
            clamped(top + down * self.y_fraction as i128, top, max_y),
        )
    }
}

/// The overlay never slides off the window it belongs to, as long as it is no larger.
pub proof fn law_the_overlay_stays_inside(anchor: OverlayAnchor, game: Rect)
    requires
        0 <= anchor.width <= game.across() * ONE,
        0 <= anchor.height <= game.down() * ONE,
    ensures
        game.left * ONE <= anchor.x_in(game),
        anchor.x_in(game) + anchor.width <= game.right * ONE,
        game.top * ONE <= anchor.y_in(game),
        anchor.y_in(game) + anchor.height <= game.bottom * ONE,
{
}

/// Where the overlay waits when it should not be seen: off every real desktop, by geometry,
/// which no driver, compositor or backend can break.
pub const PARKED_POSITION: (i64, i64) = (32_000_000_000, 32_000_000_000);

/// The horizontal band that SrvSurvey's top-edge plotters leave free, between the widest of
/// those in the left corner and the widest of those in the middle.
#[derive(Clone, Copy, Debug, PartialEq, Eq, Structural)]
pub struct PlotterGap {
    /// Right edge of the widest top-left plotter.
    pub left_edge: i64,
    /// Width of the widest centred top plotter.
    pub centre_width: i64,
    /// Clearance left on each side, so the panels do not touch.
    pub margin: i64,
    /// Below this the band is not worth using and the configured width wins.
    pub min_width: i64,
    /// Grow the band by this fraction of its own width at each end. The widest plotters
    /// appear only at times, so it may reach a little into the ground they would claim.
    pub expand_each_side: i64,
}

impl Default for PlotterGap {
    fn default() -> (r: Self)
        ensures
            r == (PlotterGap {
                left_edge: 328_000_000,
                centre_width: 600_000_000,
                margin: 8_000_000,
                min_width: 260_000_000,
                expand_each_side: 100_000,
            }),
    {
        PlotterGap {
            left_edge: 328_000_000,
            centre_width: 600_000_000,
            margin: 8_000_000,
            min_width: 260_000_000,
            expand_each_side: 100_000,
        }
    }
}

impl PlotterGap {
    /// The width of the strict band.
    pub open spec fn strict_width(&self, game_width: int) -> int {
        (game_width - self.centre_width) / 2 - self.margin - (self.left_edge + self.margin)
    }

    pub open spec fn growth(&self, game_width: int) -> int {
        self.strict_width(game_width) * self.expand_each_side / (ONE as int)
    }

    pub open spec fn band_left(&self, game_width: int) -> int {
        larger(self.left_edge + self.margin - self.growth(game_width), 0)
    }

    pub open spec fn band_width(&self, game_width: int) -> int {
        let grown = self.strict_width(game_width) + 2 * self.growth(game_width);
        let room = game_width - self.band_left(game_width);
        if grown < room {
            grown
        } else {
            room
        }
    }

    /// Where the free band starts and how wide it is, for a game window of this width.
    /// `None` when the band is too narrow to be worth having.
    pub fn band(&self, game_width: i64) -> (r: Option<(i128, i128)>)
        ensures
            match r {
                None => self.strict_width(game_width as int) < self.min_width,
                Some((left, width)) => {
                    &&& self.strict_width(game_width as int) >= self.min_width
                    &&& left == self.band_left(game_width as int)
                    &&& width == self.band_width(game_width as int)
                },
            },
    {
        let left: i128 = self.left_edge as i128 + self.margin as i128;
        let right: i128 = floor_div(game_width as i128 - self.centre_width as i128, 2)
            - self.margin as i128;
        let width: i128 = right - left;
        if width < self.min_width as i128 {
            return None;
        }
        proof {
            let limit = 0x8000_0000_0000_0000int;
            let e = self.expand_each_side as int;
            assert(-(8 * limit * limit) <= width * e <= 8 * limit * limit) by (nonlinear_arith)
                requires
                    -8 * limit <= width <= 8 * limit,
                    -limit <= e <= limit,
                    limit > 0,
            ;
        }
        let grow: i128 = grow_by(width, self.expand_each_side);
        let start: i128 = if left - grow > 0 {
            left - grow
        } else {
            0
        };
        let grown: i128 = width + 2 * grow;
        let room: i128 = game_width as i128 - start;
        Some(
            (
                start,
                if grown < room {
                    grown
                } else {
                    room
                },
            ),
        )
    }
}

/// A width by a fraction in millionths, rounded down.
fn grow_by(width: i128, fraction: i64) -> (r: i128)
    requires
        -0x4_0000_0000_0000_0000 <= width <= 0x4_0000_0000_0000_0000,
    ensures
        r == width * fraction / (ONE as int),
        -0x1000_0000_0000_0000_0000_0000_0000_0000 <= r <= 0x1000_0000_0000_0000_0000_0000_0000_0000,
{
    // Whole millionths of the width and the rest apart: the product need not fit.
    let whole: i128 = floor_div(width, 1_000_000);
    let rest: i128 = width - whole * 1_000_000;
    proof {
        vstd::arithmetic::div_mod::lemma_fundamental_div_mod(width as int, 1_000_000);
        assert(0 <= rest < 1_000_000);
        let f = fraction as int;
        assert(-0x8000_0000_0000_0000 * 1_000_000 <= rest * f <= 0x8000_0000_0000_0000 * 1_000_000)
            by (nonlinear_arith)
            requires
                0 <= rest < 1_000_000,
                -0x8000_0000_0000_0000 <= f <= 0x8000_0000_0000_0000,
        ;
        assert(-0x8000_0000_0000_0000 * 0x1000_0000_0000_0000 <= whole * f <= 0x8000_0000_0000_0000
            * 0x1000_0000_0000_0000) by (nonlinear_arith)
            requires
                -0x1000_0000_0000_0000 <= whole <= 0x1000_0000_0000_0000,
                -0x8000_0000_0000_0000 <= f <= 0x8000_0000_0000_0000,
        ;
        let q = (rest * f) / 1_000_000;
        let t = (rest * f) % 1_000_000;
        vstd::arithmetic::div_mod::lemma_fundamental_div_mod(rest * f, 1_000_000);
        assert(width * f == (whole * f + q) * 1_000_000 + t) by (nonlinear_arith)
            requires
                width == whole * 1_000_000 + rest,
                rest * f == 1_000_000 * q + t,
        ;
        vstd::arithmetic::div_mod::lemma_fundamental_div_mod_converse(
            width * f,
            1_000_000,
            whole * f + q,
            t,
        );
    }
    whole * fraction as i128 + floor_div(rest * fraction as i128, 1_000_000)
}

/// The game's window, and whether the player is actually looking at it.
#[derive(Clone, Copy, Debug, PartialEq, Eq, Structural)]
pub struct GameWindow {
    pub rect: Rect,
    /// True when the game is the foreground window.
    pub focused: bool,
}

/// The overlay window's title, used to find it again.
pub const OVERLAY_WINDOW_TITLE: &'static str = "ED Compass overlay";

/// Window titles Elite Dangerous is known to use, in order of preference.
pub const GAME_WINDOW_TITLES: [&'static str; 2] = [
    "Elite - Dangerous (CLIENT)",
    "Elite - Dangerous",
];

/// What the window manager says of one window.
#[derive(Clone, Copy, Debug, PartialEq, Eq, Structural)]
pub struct WindowProbe {
    pub visible: bool,
    pub minimized: bool,
    /// Its rectangle, where it could be read.
    pub rect: Option<Rect>,
    pub foreground: bool,
}

/// The window is the game's as far as the overlay goes: on screen, and of a size worth
/// covering. A minimized game is not a game window; Windows still reports a rectangle for
/// it, often a stale or off-screen one.
pub open spec fn is_game(p: Option<WindowProbe>) -> bool {
    match p {
        None => false,
        Some(w) => w.visible && !w.minimized && match w.rect {
            None => false,
            Some(r) => r.usable(),
        },
    }
}

/// Find the game window among those that carry its known titles, in order of preference. A
/// title that no window carries is the ordinary case, and the next one is tried.
pub fn find_game_window(probes: &[Option<WindowProbe>]) -> (r: Option<GameWindow>)
    ensures
        match r {
            None => forall|i: int| 0 <= i < probes.len() ==> !is_game(#[trigger] probes@[i]),
            Some(g) => exists|i: int|
                {
                    &&& 0 <= i < probes.len()
                    &&& is_game(#[trigger] probes@[i])
                    &&& g.rect == probes@[i]->Some_0.rect->Some_0
                    &&& g.focused == probes@[i]->Some_0.foreground
                    &&& forall|k: int| 0 <= k < i ==> !is_game(#[trigger] probes@[k])
                },
        },
{
    let mut i: usize = 0;
    while i < probes.len()
        invariant
            i <= probes.len(),
            forall|k: int| 0 <= k < i ==> !is_game(#[trigger] probes@[k]),
        decreases probes.len() - i,
    {
        if let Some(w) = probes[i] {
            if w.visible && !w.minimized {
                if let Some(rect) = w.rect {
                    if rect.is_usable() {
                        assert(is_game(probes@[i as int]));
                        return Some(GameWindow { rect, focused: w.foreground });
                    }
                }
            }
        }
        i = i + 1;
    }
    None
}

/// What the overlay needs to know each time it is considered.
#[derive(Clone, Copy, Debug)]
pub struct OverlayPlacement {
    /// Top-left corner.
    pub position: (i128, i128),
    /// Width of the game window, so the overlay can be fitted to it.
    pub game_width: i64,
    /// Whether the game window was found at all.
    pub game_found: bool,
    /// Whether the game currently has focus.
    pub game_focused: bool,
}

/// The rectangle the overlay is placed in when the game is not running, so that a preview
/// can still be positioned rather than vanishing: a nominal desktop.
pub open spec fn nominal_desktop() -> Rect {
    Rect { left: 0, top: 0, right: 1920, bottom: 1080 }
}

/// Where the overlay should be, given the game window if it was found.
pub fn overlay_placement(anchor: OverlayAnchor, game: Option<GameWindow>) -> (r: OverlayPlacement)
    ensures
        ({
            let rect = match game {
                None => nominal_desktop(),
                Some(g) => g.rect,
            };
            &&& r.position.0 == anchor.x_in(rect)
            &&& r.position.1 == anchor.y_in(rect)
            &&& r.game_width == rect.across() * ONE
            &&& r.game_found == game is Some
            &&& r.game_focused == match game {
                None => false,
                Some(g) => g.focused,
            }
        }),
{
    let (rect, found, focused): (Rect, bool, bool) = match game {
        None => (Rect { left: 0, top: 0, right: 1920, bottom: 1080 }, false, false),
        Some(g) => (g.rect, true, g.focused),
    };
    OverlayPlacement {
        position: anchor.position_in(rect),
        game_width: (rect.right as i64 - rect.left as i64) * 1_000_000,
        game_found: found,
        game_focused: focused,
    }
}

/// The overlay stands where its fractions say: with a fraction of none it lies against the left
/// and the top edge, with one of all against the right and the bottom, and in the middle with a
/// half; an offset moves it sideways by as much, as far as the window goes.
pub proof fn law_the_overlay_stands_where_it_is_told(
    anchor: OverlayAnchor,
    game: Rect,
    offset: i64,
)
    requires
        0 <= anchor.width <= game.across() * ONE,
        0 <= anchor.height <= game.down() * ONE,
    ensures
        anchor.x_fraction == 0 && anchor.x_offset_px == 0 ==> anchor.x_in(game) == game.left * ONE,
        anchor.x_fraction == ONE && anchor.x_offset_px == 0 ==> anchor.x_in(game) + anchor.width
            == game.right * ONE,
        anchor.x_fraction == 500_000 && anchor.x_offset_px == 0 ==> -1 <= (2 * anchor.x_in(game)
            + anchor.width) - (game.left + game.right) * ONE <= 1,
        anchor.y_fraction == 0 ==> anchor.y_in(game) == game.top * ONE,
        anchor.y_fraction == ONE ==> anchor.y_in(game) + anchor.height == game.bottom * ONE,
        ({
            let still = OverlayAnchor { x_offset_px: 0, ..anchor };
            let moved = OverlayAnchor { x_offset_px: offset, ..anchor };
            game.left * ONE <= still.x_in(game) + offset && still.x_in(game) + offset + anchor.width
                <= game.right * ONE ==> moved.x_in(game) == still.x_in(game) + offset
        }),
{
    let w = game.across();
    assert(w * 0 == 0 && game.down() * 0 == 0);
}

} // verus!
