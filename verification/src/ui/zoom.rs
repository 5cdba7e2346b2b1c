//! Overlay frequency zoom: show the band a detection is actually in.
//!
//! The view is rate-limited rather than event-driven: at most one move every lockout, and
//! whenever a move is allowed it goes to whatever the correct band is at that moment. It
//! cannot oscillate, because it never makes two moves inside one window.
//!
//! The frequency axis is logarithmic, so a frequency is held as its pitch: millionths of an
//! octave above one hertz. Times are in milliseconds.
use crate::arith::{floor_div, ONE};
use vstd::prelude::*;

verus! {

/// How long an animation takes: long enough to read as movement rather than a cut, short
/// enough not to be something you wait through.
pub const ANIMATION: i64 = 900;

/// Padding applied either side of a detected band: half an octave. Without it a stroke that
/// sweeps even slightly outside leaves the view at the exact moment it is worth watching.
pub const PAD: i64 = 500_000;

/// Narrowest band the view will ever show: an octave.
pub const MIN_SPAN: i64 = 1_000_000;

/// A ratio of 1.01, below which a band's two ends are taken apart.
pub const MIN_RATIO: i64 = 14_355;

/// Pitches are kept to within 2000 octaves of one hertz.
pub const PITCH_MAX: i64 = 2_000_000_000;

/// A frequency range being displayed.
#[derive(Clone, Copy, Debug, PartialEq, Eq, Structural)]
pub struct Band {
    pub low: i64,
    pub high: i64,
}

/// The larger of two pitches.
pub open spec fn larger(a: int, b: int) -> int {
    if a > b {
        a
    } else {
        b
    }
}

/// Where a pitch is on its way from `a` to `b`, `t` millionths of the way. Frequencies
/// below one hertz are taken for it.
pub open spec fn mixed(a: int, b: int, t: int) -> int {
    let from = larger(a, 0);
    let to = larger(b, 0);
    from + (to - from) * t / (ONE as int)
}

impl Band {
    pub open spec fn wf(self) -> bool {
        -PITCH_MAX <= self.low <= PITCH_MAX && -PITCH_MAX <= self.high <= PITCH_MAX
    }

    pub open spec fn between(self, other: Band, t: int) -> (int, int) {
        (mixed(self.low as int, other.low as int, t), mixed(self.high as int, other.high as int, t))
    }

    /// The ends of the padded band, widened to the minimum span, before the bounds are
    /// looked at.
    pub open spec fn padded(self) -> (int, int) {
        let low = larger(self.low as int, 0);
        let high = larger(self.high as int, low + MIN_RATIO);
        let short = MIN_SPAN - (high - low + 2 * PAD);
        let more = if short > 0 {
            short / 2
        } else {
            0
        };
        (low - PAD - more, high + PAD + more)
    }

    pub open spec fn floor(self) -> int {
        larger(self.low as int, 0)
    }

    pub open spec fn ceiling(self) -> int {
        larger(self.high as int, MIN_SPAN as int)
    }

    /// Pad, widen to the minimum span, and slide back inside `bounds`. A band that would
    /// overhang an edge stays its requested width and moves inward, so the zoom factor a
    /// detection near the floor gets is the same one it would get in the middle.
    pub open spec fn presented_in(self, bounds: Band) -> (int, int) {
        let (lo, hi) = self.padded();
        let room = bounds.ceiling() - bounds.floor();
        let width = if hi - lo < room {
            hi - lo
        } else {
            room
        };
        let (lo1, hi1) = if lo < bounds.floor() {
            (bounds.floor(), bounds.floor() + width)
        } else {
            (lo, hi)
        };
        if hi1 > bounds.ceiling() {
            (bounds.ceiling() - width, bounds.ceiling())
        } else {
            (lo1, hi1)
        }
    }

    pub fn new(low: i64, high: i64) -> (r: Self)
        ensures
            r == (Band { low, high }),
    {
        Band { low, high }
    }

    fn lerp(self, other: Band, t: i64) -> (r: Band)
        requires
            self.wf(),
            other.wf(),
            0 <= t <= ONE,
        ensures
            (r.low as int, r.high as int) == self.between(other, t as int),
            r.wf(),
    {
        Band { low: mix(self.low, other.low, t), high: mix(self.high, other.high, t) }
    }

    fn presented(self, bounds: Band) -> (r: Band)
        requires
            self.wf(),
            bounds.wf(),
        ensures
            (r.low as int, r.high as int) == self.presented_in(bounds),
            -4 * PITCH_MAX <= r.low <= 4 * PITCH_MAX,
            -4 * PITCH_MAX <= r.high <= 4 * PITCH_MAX,
    {
        let low: i64 = if self.low > 0 {
            self.low
        } else {
            0
        };
        let high: i64 = if self.high > low + MIN_RATIO {
            self.high
        } else {
            low + MIN_RATIO
        };
        let short: i64 = MIN_SPAN - (high - low + 2 * PAD);
        let more: i64 = if short > 0 {
            short / 2
        } else {
            0
        };
        let mut lo: i64 = low - PAD - more;
        let mut hi: i64 = high + PAD + more;
        let floor: i64 = if bounds.low > 0 {
            bounds.low
        } else {
            0
        };
        let ceiling: i64 = if bounds.high > MIN_SPAN {
            bounds.high
        } else {
            MIN_SPAN
        };
        let width: i64 = if hi - lo < ceiling - floor {
            hi - lo
        } else {
            ceiling - floor
        };
        if lo < floor {
            lo = floor;
            hi = floor + width;
        }
        if hi > ceiling {
            hi = ceiling;
            lo = ceiling - width;
        }
        Band { low: lo, high: hi }
    }
}

fn mix(a: i64, b: i64, t: i64) -> (r: i64)
    requires
        -PITCH_MAX <= a <= PITCH_MAX,
        -PITCH_MAX <= b <= PITCH_MAX,
        0 <= t <= ONE,
    ensures
        r == mixed(a as int, b as int, t as int),
        -PITCH_MAX <= r <= PITCH_MAX,
{
    let from: i64 = if a > 0 {
        a
    } else {
        0
    };
    let to: i64 = if b > 0 {
        b
    } else {
        0
    };
    let d: i64 = to - from;
    proof {
        if d >= 0 {
            assert(0 <= d * t <= d * 1_000_000) by (nonlinear_arith)
                requires
                    d >= 0,
                    0 <= t <= 1_000_000,
            ;
        } else {
            assert(d * 1_000_000 <= d * t <= 0) by (nonlinear_arith)
                requires
                    d <= 0,
                    0 <= t <= 1_000_000,
            ;
        }
    }
    from + floor_div((d * t) as i128, 1_000_000) as i64
}

/// Smoothstep, in millionths. A linear zoom starts and stops abruptly, which reads as a
/// glitch rather than as movement.
pub open spec fn eased(t: int) -> int {
    t * t * (3 * ONE - 2 * t) / (ONE * ONE)
}

fn ease(t: i64) -> (r: i64)
    requires
        0 <= t <= ONE,
    ensures
        r == eased(t as int),
        0 <= r <= ONE,
{
    proof {
        let u = t * t;
        assert(0 <= u <= 1_000_000 * 1_000_000) by (nonlinear_arith)
            requires
                0 <= t <= 1_000_000,
                u == t * t,
        ;
        let w = 3_000_000 - 2 * t;
        assert(0 <= u * w <= 1_000_000 * 1_000_000 * 1_000_000) by (nonlinear_arith)
            requires
                0 <= t <= 1_000_000,
                u == t * t,
                w == 3_000_000 - 2 * t,
        ;
    }
    let squared: i64 = t * t;
    squared * (3_000_000 - 2 * t) / 1_000_000_000_000
}

/// What a view knows.
pub struct ZoomView {
    /// The band the overlay spans when nothing is detected.
    pub bounds: Band,
    /// Where the view is settled, and where it is heading.
    pub from: Band,
    pub to: Band,
    /// When the current animation began, if one is running.
    pub started: Option<int>,
    /// When the last animation finished, for the lockout.
    pub settled_at: int,
    /// The most recent band anything was detected in, and when it was last live.
    pub last_band: Option<Band>,
    pub last_seen: int,
    pub hold: int,
    pub lockout: int,
}

/// The time since an earlier moment, and none since a later one.
pub open spec fn since(now: int, then_at: int) -> int {
    if now > then_at {
        now - then_at
    } else {
        0
    }
}

pub open spec fn union_of(a: Band, b: Band) -> Band {
    Band {
        low: if b.low < a.low {
            b.low
        } else {
            a.low
        },
        high: if b.high > a.high {
            b.high
        } else {
            a.high
        },
    }
}

impl ZoomView {
    /// After something was detected, or nothing. While a detection is live the remembered
    /// band only grows, so a signal that drifts across frequency does not drag the view
    /// after it once the lockout lifts.
    pub open spec fn observed(self, active: Option<Band>, now: int) -> ZoomView {
        match active {
            None => self,
            Some(band) => ZoomView {
                last_band: Some(
                    match self.last_band {
                        Some(prev) => if since(now, self.last_seen) <= self.hold {
                            union_of(prev, band)
                        } else {
                            band
                        },
                        None => band,
                    },
                ),
                last_seen: now,
                ..self
            },
        }
    }

    /// Where the view should be, ignoring whether it is allowed to go there.
    pub open spec fn wanted(self, now: int) -> (int, int) {
        match self.last_band {
            Some(band) => if since(now, self.last_seen) <= self.hold {
                band.presented_in(self.bounds)
            } else {
                (self.bounds.low as int, self.bounds.high as int)
            },
            None => (self.bounds.low as int, self.bounds.high as int),
        }
    }

    /// An animation is running, and not over.
    pub open spec fn is_moving(self, now: int) -> bool {
        match self.started {
            None => false,
            Some(s) => since(now, s) < ANIMATION,
        }
    }

    /// An animation that is over is closed before another move is considered.
    pub open spec fn closed(self, now: int) -> ZoomView {
        match self.started {
            None => self,
            Some(s) => ZoomView { started: None, from: self.to, settled_at: now, ..self },
        }
    }

    /// The view sets out for another band.
    pub open spec fn sets_out(self, now: int) -> bool {
        let c = self.closed(now);
        &&& !self.is_moving(now)
        &&& c.wanted(now) != (c.to.low as int, c.to.high as int)
        &&& since(now, c.settled_at) >= self.lockout
    }

    /// The view after a frame is drawn.
    pub open spec fn drawn(self, now: int) -> ZoomView {
        let c = self.closed(now);
        if self.is_moving(now) {
            self
        } else if self.sets_out(now) {
            let (low, high) = c.wanted(now);
            ZoomView {
                from: c.to,
                to: Band { low: low as i64, high: high as i64 },
                started: Some(now),
                ..c
            }
        } else {
            c
        }
    }

    /// The band to render. The frame that starts a move still draws where the view was.
    pub open spec fn shown(self, now: int) -> (int, int) {
        if self.is_moving(now) {
            self.from.between(
                self.to,
                eased(since(now, self.started->Some_0) * ONE / (ANIMATION as int)),
            )
        } else {
            (self.to.low as int, self.to.high as int)
        }
    }

    /// The earliest time at which the view may set out again.
    pub open spec fn free_at(self) -> int {
        match self.started {
            None => self.settled_at + self.lockout,
            Some(s) => s + ANIMATION + self.lockout,
        }
    }
}

/// What is done with a view.
pub enum Step {
    Observe(Option<Band>, int),
    Draw(int),
}

impl Step {
    pub open spec fn at(self) -> int {
        match self {
            Step::Observe(_, now) => now,
            Step::Draw(now) => now,
        }
    }
}

impl ZoomView {
    pub open spec fn stepped(self, step: Step) -> ZoomView {
        match step {
            Step::Observe(active, now) => self.observed(active, now),
            Step::Draw(now) => self.drawn(now),
        }
    }

    pub open spec fn stepped_through(self, steps: Seq<Step>) -> ZoomView
        decreases steps.len(),
    {
        if steps.len() == 0 {
            self
        } else {
            self.stepped_through(steps.drop_last()).stepped(steps.last())
        }
    }
}

/// A view sets out only once it is free to.
proof fn lemma_sets_out_when_free(v: ZoomView, now: int)
    requires
        v.sets_out(now),
        v.lockout > 0,
    ensures
        now >= v.free_at(),
        v.drawn(now).free_at() == now + ANIMATION + v.lockout,
{
}

/// No step makes a view free earlier.
proof fn lemma_free_at_grows(v: ZoomView, step: Step)
    requires
        v.lockout > 0,
        v.started matches Some(s) ==> s <= step.at(),
    ensures
        v.stepped(step).free_at() >= v.free_at(),
        v.stepped(step).lockout == v.lockout,
        v.stepped(step).started matches Some(s) ==> s <= step.at(),
{
}

/// At most one move every lockout: a view that sets out at one time does not set out again,
/// whatever is done with it in between, until an animation and a whole lockout have passed.
pub proof fn law_one_move_per_lockout(v: ZoomView, start: int, steps: Seq<Step>, again: int)
    requires
        v.lockout > 0,
        v.sets_out(start),
        forall|i: int| 0 <= i < steps.len() ==> start <= (#[trigger] steps[i]).at() <= again,
        forall|i: int, j: int| 0 <= i < j < steps.len() ==> steps[i].at() <= steps[j].at(),
        start <= again,
        v.drawn(start).stepped_through(steps).sets_out(again),
    ensures
        again >= start + ANIMATION + v.lockout,
{
    let first = v.drawn(start);
    lemma_sets_out_when_free(v, start);
    lemma_free_through(first, start, steps);
    lemma_sets_out_when_free(first.stepped_through(steps), again);
}

proof fn lemma_free_through(v: ZoomView, start: int, steps: Seq<Step>)
    requires
        v.lockout > 0,
        v.started matches Some(s) ==> s <= start,
        forall|i: int| 0 <= i < steps.len() ==> start <= (#[trigger] steps[i]).at(),
        forall|i: int, j: int| 0 <= i < j < steps.len() ==> steps[i].at() <= steps[j].at(),
    ensures
        v.stepped_through(steps).free_at() >= v.free_at(),
        v.stepped_through(steps).lockout == v.lockout,
        steps.len() > 0 ==> (v.stepped_through(steps).started matches Some(s) ==> s
            <= steps.last().at()),
    decreases steps.len(),
{
    if steps.len() > 0 {
        let rest = steps.drop_last();
        assert forall|i: int| 0 <= i < rest.len() implies start <= (#[trigger] rest[i]).at() by {
            assert(rest[i] == steps[i]);
        }
        lemma_free_through(v, start, rest);
        let here = v.stepped_through(rest);
        assert(steps.last() == steps[steps.len() - 1]);
        if rest.len() > 0 {
            assert(rest.last() == steps[steps.len() - 2]);
        }
        lemma_free_at_grows(here, steps.last());
    }
}

/// A view whose animation ended at one time shows the same band, and does not move, until a
/// lockout has passed, whatever is detected and drawn in between.
pub proof fn law_the_view_rests_during_the_lockout(
    v: ZoomView,
    settled: int,
    steps: Seq<Step>,
    now: int,
)
    requires
        v.started is Some,
        !v.is_moving(settled),
        forall|i: int| 0 <= i < steps.len() ==> settled <= (#[trigger] steps[i]).at() <= now,
        settled <= now < settled + v.lockout,
    ensures
        v.drawn(settled).started is None,
        v.drawn(settled).stepped_through(steps).shown(now) == v.shown(settled),
        v.drawn(settled).stepped_through(steps).drawn(now).started is None,
{
    lemma_rests(v.drawn(settled), settled, steps, now);
}

proof fn lemma_rests(v: ZoomView, settled: int, steps: Seq<Step>, now: int)
    requires
        v.started is None,
        v.settled_at == settled,
        forall|i: int| 0 <= i < steps.len() ==> settled <= (#[trigger] steps[i]).at() <= now,
        settled <= now < settled + v.lockout,
    ensures
        v.stepped_through(steps).started is None,
        v.stepped_through(steps).settled_at == settled,
        v.stepped_through(steps).lockout == v.lockout,
        v.stepped_through(steps).to == v.to,
    decreases steps.len(),
{
    if steps.len() > 0 {
        let rest = steps.drop_last();
        assert forall|i: int| 0 <= i < rest.len() implies settled <= (#[trigger] rest[i]).at()
            <= now by {
            assert(rest[i] == steps[i]);
        }
        lemma_rests(v, settled, rest, now);
        assert(settled <= steps[steps.len() - 1].at() <= now);
    }
}

/// The frame that starts a move from rest still shows the band that was shown before it, at
/// whatever time, and the move goes from there.
pub proof fn law_a_move_starts_where_the_view_was(v: ZoomView, before: int, now: int)
    requires
        v.started is None,
        v.sets_out(now),
    ensures
        v.drawn(now).started == Some(now),
        v.shown(now) == v.shown(before),
        v.drawn(now).from == v.to,
        v.shown(now) == (v.to.low as int, v.to.high as int),
{
}

/// The band a detection is shown in always lies inside the bounds.
pub proof fn law_the_view_stays_in_bounds(band: Band, bounds: Band)
    requires
        bounds.floor() <= bounds.ceiling(),
    ensures
        bounds.floor() <= band.presented_in(bounds).0,
        band.presented_in(bounds).0 <= band.presented_in(bounds).1,
        band.presented_in(bounds).1 <= bounds.ceiling(),
{
}

/// Drives the overlay's displayed band.
pub struct ZoomState {
    bounds: Band,
    from: Band,
    to: Band,
    started: Option<i64>,
    settled_at: i128,
    last_band: Option<Band>,
    last_seen: i128,
    hold: i64,
    lockout: i64,
}

impl View for ZoomState {
    type V = ZoomView;

    closed spec fn view(&self) -> ZoomView {
        ZoomView {
            bounds: self.bounds,
            from: self.from,
            to: self.to,
            started: match self.started {
                None => None,
                Some(s) => Some(s as int),
            },
            settled_at: self.settled_at as int,
            last_band: self.last_band,
            last_seen: self.last_seen as int,
            hold: self.hold as int,
            lockout: self.lockout as int,
        }
    }
}

/// An hour before the earliest time on the clock.
const EARLIEST: i128 = -9_223_372_036_858_375_808;

fn elapsed(now: i64, earlier: i128) -> (r: i128)
    requires
        EARLIEST <= earlier,
    ensures
        r == since(now as int, earlier as int),
{
    if now as i128 > earlier {
        now as i128 - earlier
    } else {
        0
    }
}

impl ZoomState {
    pub closed spec fn wf(&self) -> bool {
        &&& self.bounds.wf()
        &&& self.from.wf()
        &&& self.to.wf()
        &&& self.last_band matches Some(b) ==> b.wf()
        &&& EARLIEST <= self.settled_at
        &&& EARLIEST <= self.last_seen
        &&& self.bounds.floor() <= self.bounds.ceiling()
    }

    /// A view of the whole band, settled far enough in the past that the first detection is
    /// free to move immediately rather than waiting out a lockout it never had.
    pub fn new(bounds: Band, hold: i64, lockout: i64, now: i64) -> (r: Self)
        requires
            bounds.wf(),
            bounds.floor() <= bounds.ceiling(),
        ensures
            r.wf(),
            r@ == (ZoomView {
                bounds,
                from: bounds,
                to: bounds,
                started: None,
                settled_at: now - 3_600_000,
                last_band: None,
                last_seen: now - 3_600_000,
                hold: larger(hold as int, 0),
                lockout: larger(lockout as int, 0),
            }),
    {
        ZoomState {
            bounds,
            from: bounds,
            to: bounds,
            started: None,
            settled_at: now as i128 - 3_600_000,
            last_band: None,
            last_seen: now as i128 - 3_600_000,
            hold: if hold > 0 {
                hold
            } else {
                0
            },
            lockout: if lockout > 0 {
                lockout
            } else {
                0
            },
        }
    }

    /// The full band, restored if the configuration changes under us.
    pub fn set_bounds(&mut self, bounds: Band)
        requires
            old(self).wf(),
            bounds.wf(),
            bounds.floor() <= bounds.ceiling(),
        ensures
            final(self).wf(),
            bounds == old(self)@.bounds ==> final(self)@ == old(self)@,
            bounds != old(self)@.bounds ==> final(self)@ == (ZoomView {
                bounds,
                from: bounds,
                to: bounds,
                started: None,
                last_band: None,
                ..old(self)@
            }),
    {
        if bounds != self.bounds {
            self.bounds = bounds;
            self.from = bounds;
            self.to = bounds;
            self.started = None;
            self.last_band = None;
        }
    }

    /// Feed the currently detected band, if anything is detected right now.
    pub fn observe(&mut self, active: Option<Band>, now: i64)
        requires
            old(self).wf(),
            active matches Some(b) ==> b.wf(),
        ensures
            final(self).wf(),
            final(self)@ == old(self)@.observed(active, now as int),
    {
        if let Some(band) = active {
            let live: bool = elapsed(now, self.last_seen) <= self.hold as i128;
            self.last_band = Some(
                match self.last_band {
                    Some(prev) => {
                        if live {
                            Band {
                                low: if band.low < prev.low {
                                    band.low
                                } else {
                                    prev.low
                                },
                                high: if band.high > prev.high {
                                    band.high
                                } else {
                                    prev.high
                                },
                            }
                        } else {
                            band
                        }
                    },
                    None => band,
                },
            );
            self.last_seen = now as i128;
        }
    }

    /// The band to render this frame.
    pub fn band(&mut self, now: i64) -> (r: Band)
        requires
            old(self).wf(),
        ensures
            final(self).wf(),
            final(self)@ == old(self)@.drawn(now as int),
            (r.low as int, r.high as int) == old(self)@.shown(now as int),
    {
        // Finish any animation in flight before considering another move.
        if let Some(started) = self.started {
            let gone: i128 = elapsed(now, started as i128);
            if gone < ANIMATION as i128 {
                let t: i64 = gone as i64 * 1_000_000 / ANIMATION;
                return self.from.lerp(self.to, ease(t));
            }
            self.started = None;
            self.from = self.to;
            self.settled_at = now as i128;
        }
        let wanted = self.wanted(now);
        if wanted != self.to && elapsed(now, self.settled_at) >= self.lockout as i128 {
            self.from = self.to;
            self.to = wanted;
            self.started = Some(now);
            return self.from;
        }
        self.to
    }

    /// True while an animation is running, so the UI knows to keep repainting.
    pub fn animating(&self) -> (r: bool)
        ensures
            r == self@.started is Some,
    {
        self.started.is_some()
    }

    fn wanted(&self, now: i64) -> (r: Band)
        requires
            self.wf(),
        ensures
            (r.low as int, r.high as int) == self@.wanted(now as int),
            r.wf(),
    {
        match self.last_band {
            Some(band) => {
                if elapsed(now, self.last_seen) <= self.hold as i128 {
                    proof {
                        law_the_view_stays_in_bounds(band, self.bounds);
                    }
                    band.presented(self.bounds)
                } else {
                    self.bounds
                }
            },
            None => self.bounds,
        }
    }
}

/// A detection is shown with room around it: its band, and half an octave either side, lie in the
/// band shown as long as the bounds leave room for them, and the band shown is never narrower
/// than an octave, or than the bounds where those are narrower.
pub proof fn law_a_detection_is_shown_with_room(band: Band, bounds: Band)
    requires
        0 <= band.low,
        band.high >= band.low + 14_355,
    ensures
        ({
            let (lo, hi) = band.presented_in(bounds);
            let room = bounds.ceiling() - bounds.floor();
            &&& bounds.floor() <= band.low - 500_000 && band.high + 500_000 <= bounds.ceiling()
                ==> lo == band.low - 500_000 && hi == band.high + 500_000
            &&& room >= 1_000_000 ==> hi - lo >= 1_000_000
            &&& room < 1_000_000 && room >= 0 ==> hi - lo == room
        }),
{
}

/// A move starts and stops gently and never turns back: it is nowhere at its start, half way at
/// half its time, all the way at its end, and further the later it is, to within the last
/// millionth.
pub proof fn law_a_move_never_turns_back(a: int, b: int)
    requires
        0 <= a <= b <= 1_000_000,
    ensures
        eased(0) == 0,
        eased(500_000) == 500_000,
        eased(1_000_000) == 1_000_000,
        0 <= eased(a) <= eased(b) <= 1_000_000,
{
    lemma_smoothstep(0, a);
    lemma_smoothstep(a, b);
    lemma_smoothstep(b, 1_000_000);
    lemma_eased(0, 0);
    lemma_eased(a, a * a * (3_000_000 - 2 * a));
    lemma_eased(b, b * b * (3_000_000 - 2 * b));
    lemma_eased(500_000, 500_000_000_000_000_000);
    lemma_eased(1_000_000, 1_000_000_000_000_000_000);
    let x = a * a * (3_000_000 - 2 * a);
    let y = b * b * (3_000_000 - 2 * b);
    assert(0 * 0 * (3_000_000 - 2 * 0) == 0);
    assert(1_000_000 * 1_000_000 * (3_000_000 - 2 * 1_000_000) == 1_000_000_000_000_000_000);
    assert(0 <= x <= y <= 1_000_000_000_000_000_000);
}

proof fn lemma_eased(t: int, x: int)
    requires
        x == t * t * (3_000_000 - 2 * t),
    ensures
        eased(t) == x / 1_000_000_000_000,
{
    assert(3 * ONE - 2 * t == 3_000_000 - 2 * t);
    assert(ONE * ONE == 1_000_000_000_000) by (nonlinear_arith)
        requires
            ONE == 1_000_000,
    ;
}

proof fn lemma_smoothstep(a: int, b: int)
    requires
        0 <= a <= b <= 1_000_000,
    ensures
        a * a * (3_000_000 - 2 * a) <= b * b * (3_000_000 - 2 * b),
{
    let d = b - a;
    let aa = a * a;
    let ab = a * b;
    let bb = b * b;
    assert(aa * (3_000_000 - 2 * a) == 3_000_000 * aa - 2 * (aa * a)) by (nonlinear_arith);
    assert(bb * (3_000_000 - 2 * b) == 3_000_000 * bb - 2 * (bb * b)) by (nonlinear_arith);
    // Both differences have the factor d.
    let line = a + b;
    let curve = aa + ab + bb;
    assert(bb - aa == d * line) by (nonlinear_arith)
        requires
            d == b - a,
            line == a + b,
            aa == a * a,
            bb == b * b,
    ;
    assert(b * curve - a * curve == d * curve) by (nonlinear_arith)
        requires
            d == b - a,
    ;
    assert(b * curve == b * aa + b * ab + bb * b) by (nonlinear_arith)
        requires
            curve == aa + ab + bb,
    ;
    assert(a * curve == aa * a + a * ab + a * bb) by (nonlinear_arith)
        requires
            curve == aa + ab + bb,
    ;
    assert(b * aa == a * ab && b * ab == a * bb) by (nonlinear_arith)
        requires
            aa == a * a,
            ab == a * b,
            bb == b * b,
    ;
    assert(aa <= 1_000_000 * a) by (nonlinear_arith)
        requires
            0 <= a <= 1_000_000,
            aa == a * a,
    ;
    assert(bb <= 1_000_000 * b) by (nonlinear_arith)
        requires
            0 <= b <= 1_000_000,
            bb == b * b,
    ;
    assert(ab <= 1_000_000 * a) by (nonlinear_arith)
        requires
            0 <= a,
            0 <= b <= 1_000_000,
            ab == a * b,
    ;
    assert(ab <= 1_000_000 * b) by (nonlinear_arith)
        requires
            0 <= a <= 1_000_000,
            0 <= b,
            ab == a * b,
    ;
    let inner = 3_000_000 * line - 2 * curve;
    assert(d * inner == 3_000_000 * (d * line) - 2 * (d * curve)) by (nonlinear_arith)
        requires
            inner == 3_000_000 * line - 2 * curve,
    ;
    assert(d * inner >= 0) by (nonlinear_arith)
        requires
            d >= 0,
            inner >= 0,
    ;
}

} // verus!
