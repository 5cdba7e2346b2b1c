//! Following a stroke past the point where it stops being obvious.
//!
//! A high bar decides that something is here, and a much lower one that it continues to
//! here. Applied everywhere at once a low bar fires on everything; applied only in
//! continuation of something already confirmed it barely false-positives at all, because
//! noise does not form long runs that keep going in the same direction.
//!
//! Both bars are percentiles of the image's own values rather than fixed numbers.
//! Strokes are followed along time, one column per step.
use crate::analysis::sliding_median::{lemma_histogram_ranks, SlidingMedian};
use crate::arith::{floor_div, ONE};
use crate::order::{is_order, order_of, stable_order};
use crate::rank;
use vstd::prelude::*;

verus! {

/// Rows a heading may reach, per column, in millionths. A stroke steeper than this is
/// nearly vertical, which in a spectrogram is a broadband transient rather than a line.
pub const MAX_HEADING: i128 = 3_000_000;

/// Columns a trail may coast through without finding anything before it is abandoned. A
/// drawn stroke crossing a louder feature disappears for a moment and comes back; noise
/// does not come back.
pub const MAX_MISSES: usize = 6;

/// The level below which a share of an image's pixels lie: the smallest value that at
/// least `target` of them reach no further than.
pub open spec fn level_at(image: Seq<u8>, target: int) -> int {
    if target <= 0 {
        0
    } else {
        rank::ranked(pixels(image), target - 1)
    }
}

pub open spec fn pixels(image: Seq<u8>) -> Seq<int> {
    image.map_values(|v: u8| v as int)
}

/// The percentile that seeds a trail. Seeds are rare and confident.
pub open spec fn seed_target(n: int) -> int {
    n * 995 / 1000
}

/// The percentile that a trail may be followed down to. Continuation is permissive, and
/// only ever reached from a seed.
pub open spec fn follow_target(n: int) -> int {
    n * 9 / 10
}

fn level(hist: &SlidingMedian, target: u64, Ghost(image): Ghost<Seq<u8>>) -> (r: u8)
    requires
        hist.wf(),
        hist.size() == image.len(),
        target <= image.len(),
        forall|v: int| #[trigger] hist.count(v) == rank::occurrences(pixels(image), v),
    ensures
        r == level_at(image, target as int),
{
    if target == 0 {
        return 0;
    }
    let r: u8 = hist.at_rank(target - 1);
    proof {
        let s = pixels(image);
        assert forall|i: int| 0 <= i < s.len() implies 0 <= #[trigger] s[i] < 256 by {}
        lemma_histogram_ranks(hist, s, r as int);
        lemma_histogram_ranks(hist, s, r as int + 1);
        rank::lemma_rank_unique(s, target - 1, r as int);
    }
    r
}

/// Seed and follow levels, as percentiles of this image's own values.
pub fn levels(image: &[u8]) -> (r: (u8, u8))
    ensures
        r.0 == level_at(image@, seed_target(image.len() as int)),
        r.1 == level_at(image@, follow_target(image.len() as int)),
{
    let mut hist = SlidingMedian::new();
    let mut i: usize = 0;
    assert(pixels(image@.take(0)) =~= Seq::<int>::empty());
    while i < image.len()
        invariant
            i <= image.len(),
            hist.wf(),
            hist.size() == i,
            forall|v: int| #[trigger]
                hist.count(v) == rank::occurrences(pixels(image@.take(i as int)), v),
        decreases image.len() - i,
    {
        proof {
            let before = pixels(image@.take(i as int));
            let p = image@[i as int] as int;
            assert(pixels(image@.take(i + 1)) =~= before.push(p));
            assert forall|v: int| #[trigger] rank::occurrences(pixels(image@.take(i + 1)), v)
                == rank::occurrences(before, v) + if p == v {
                1int
            } else {
                0
            } by {
                rank::lemma_push(before, p, v);
            }
        }
        hist.add(image[i]);
        i = i + 1;
    }
    assert(image@.take(image.len() as int) =~= image@);
    let n: u128 = image.len() as u128;
    let seed: u64 = (n * 995 / 1000) as u64;
    let follow: u64 = (n * 9 / 10) as u64;
    (level(&hist, seed, Ghost(image@)), level(&hist, follow, Ghost(image@)))
}

/// What a trail crosses, and the two levels that decide whether it continues.
pub struct Ground {
    pub image: Seq<u8>,
    pub width: int,
    pub height: int,
    pub follow_level: u8,
    pub seed_level: u8,
    /// Pixels that belong to a track already.
    pub claimed: Seq<bool>,
}

/// How far a walk has come.
pub struct Walk {
    /// Where the trail is, in millionths of a row.
    pub y: int,
    /// Rows per column in the direction of travel, in millionths.
    pub heading: int,
    /// Columns coasted through since the stroke was last seen.
    pub misses: int,
    /// The row at each column walked.
    pub rows: Seq<usize>,
    /// The trail has ended.
    pub done: bool,
}

/// The nearest whole number of rows, halves away from zero.
pub open spec fn nearest(y: int) -> int {
    if y >= 0 {
        (2 * y + ONE) / (2 * ONE as int)
    } else {
        -((2 * -y + ONE) / (2 * ONE as int))
    }
}

pub open spec fn clamp(v: int, lo: int, hi: int) -> int {
    if v < lo {
        lo
    } else if v > hi {
        hi
    } else {
        v
    }
}

impl Ground {
    /// The first of the brightest rows of a column from `lo` up to but not including
    /// `hi`, brighter than nothing; `or` where all is dark.
    pub open spec fn brightest(self, x: int, lo: int, hi: int, or: int) -> int
        decreases hi - lo,
    {
        if hi <= lo {
            or
        } else {
            let before = self.brightest(x, lo, hi - 1, or);
            let here = self.image[(hi - 1) * self.width + x];
            if here > self.brightness(x, lo, hi - 1) {
                hi - 1
            } else {
                before
            }
        }
    }

    /// The highest value of a column from row `lo` up to but not including `hi`.
    pub open spec fn brightness(self, x: int, lo: int, hi: int) -> int
        decreases hi - lo,
    {
        if hi <= lo {
            0
        } else {
            let before = self.brightness(x, lo, hi - 1);
            let here = self.image[(hi - 1) * self.width + x] as int;
            if here > before {
                here
            } else {
                before
            }
        }
    }

    /// Where a walk looks at the next column: a row either side of where its heading
    /// predicts. A trail that may correct by a row only cannot hop from one bright spot
    /// of noise to the next.
    pub open spec fn low(self, w: Walk, step: int) -> int {
        let centre = nearest(w.y + w.heading * step);
        if centre - 1 > 0 {
            centre - 1
        } else {
            0
        }
    }

    pub open spec fn high(self, w: Walk, step: int) -> int {
        let centre = nearest(w.y + w.heading * step);
        if centre + 1 < self.height - 1 {
            centre + 1
        } else {
            self.height - 1
        }
    }

    pub open spec fn target(self, w: Walk, x: int, step: int) -> int {
        self.brightest(
            x,
            self.low(w, step),
            self.high(w, step) + 1,
            clamp(nearest(w.y + w.heading * step), 0, self.height - 1),
        )
    }

    /// The stroke is seen at the next column. Continuation is a weak claim, but a trail
    /// that is coasting does not know where the stroke is, only where it ought to be:
    /// picking it up again demands the same evidence that started it.
    pub open spec fn is_seen(self, w: Walk, x: int, step: int) -> bool {
        let required = if w.misses == 0 {
            self.follow_level
        } else {
            self.seed_level
        };
        &&& self.brightness(x, self.low(w, step), self.high(w, step) + 1) >= required
        &&& !self.claimed[self.target(w, x, step) * self.width + x]
    }

    /// One column further, to column `x`.
    pub open spec fn stepped(self, w: Walk, x: int, step: int) -> Walk {
        let predicted = w.y + w.heading * step;
        if w.done {
            w
        } else if self.low(w, step) > self.high(w, step) {
            Walk { done: true, ..w }
        } else if self.is_seen(w, x, step) {
            let y = self.target(w, x, step) * ONE;
            let observed = (y - w.y) * step;
            Walk {
                y,
                heading: clamp(
                    (7 * w.heading + 3 * observed) / 10,
                    -MAX_HEADING as int,
                    MAX_HEADING as int,
                ),
                misses: 0,
                rows: w.rows.push(nearest(y) as usize),
                done: false,
            }
        } else if w.misses >= MAX_MISSES {
            // The coasted tail was never really there, so give it back.
            Walk {
                rows: w.rows.take(
                    if w.rows.len() > MAX_MISSES {
                        w.rows.len() - MAX_MISSES
                    } else {
                        0
                    },
                ),
                misses: w.misses + 1,
                done: true,
                ..w
            }
        } else {
            // Coast along the heading rather than standing still, so that a stroke
            // crossing a louder feature is picked up where it re-emerges.
            let y = clamp(predicted, 0, (self.height - 1) * ONE);
            Walk { y, misses: w.misses + 1, rows: w.rows.push(nearest(y) as usize), ..w }
        }
    }

    /// After `n` columns from a seed at column `sx` and row `sy`.
    pub open spec fn walked(self, sx: int, sy: int, step: int, n: nat) -> Walk
        decreases n,
    {
        if n == 0 {
            Walk { y: sy * ONE, heading: 0, misses: 0, rows: Seq::empty(), done: false }
        } else {
            self.stepped(
                self.walked(sx, sy, step, (n - 1) as nat),
                sx + step * n,
                step,
            )
        }
    }

    /// The rows of the trail from a seed to the right, and to the left.
    pub open spec fn right_of(self, sx: int, sy: int) -> Seq<usize> {
        self.walked(sx, sy, 1, (self.width - 1 - sx) as nat).rows
    }

    pub open spec fn left_of(self, sx: int, sy: int) -> Seq<usize> {
        self.walked(sx, sy, -1, sx as nat).rows
    }

    pub open spec fn wf(self) -> bool {
        &&& self.width > 0
        &&& self.height > 0
        &&& self.width * self.height <= self.image.len()
        &&& self.claimed.len() == self.width * self.height
    }
}

/// The bounds every walk keeps.
pub open spec fn walk_ok(w: Walk, height: int, n: int) -> bool {
    &&& 0 <= w.y <= (height - 1) * ONE
    &&& -MAX_HEADING <= w.heading <= MAX_HEADING
    &&& 0 <= w.misses <= MAX_MISSES + 1
    &&& !w.done ==> w.misses <= MAX_MISSES
    &&& w.rows.len() <= n
    &&& forall|i: int| 0 <= i < w.rows.len() ==> #[trigger] w.rows[i] < height
}

proof fn lemma_nearest(y: int, h: int)
    requires
        0 <= y <= h * ONE,
    ensures
        0 <= nearest(y) <= h,
{
    assert(h * ONE == h * 1_000_000);
    assert((2 * y + 1_000_000) / 2_000_000 <= h);
}

proof fn lemma_brightest(g: Ground, x: int, lo: int, hi: int, or: int)
    requires
        0 <= lo,
        0 <= or,
    ensures
        lo <= g.brightest(x, lo, hi, or) < hi || g.brightest(x, lo, hi, or) == or,
        0 <= g.brightness(x, lo, hi) <= 255,
    decreases hi - lo,
{
    if lo < hi {
        lemma_brightest(g, x, lo, hi - 1, or);
    }
}

proof fn lemma_stepped_ok(g: Ground, w: Walk, x: int, step: int, n: int)
    requires
        g.height > 0,
        g.height <= usize::MAX,
        step == 1 || step == -1,
        walk_ok(w, g.height, n),
    ensures
        walk_ok(g.stepped(w, x, step), g.height, n + 1),
        !w.done && g.low(w, step) <= g.high(w, step) ==> 0 <= g.target(w, x, step) < g.height,
{
    let predicted = w.y + w.heading * step;
    let centre = nearest(predicted);
    let or = clamp(centre, 0, g.height - 1);
    lemma_brightest(g, x, g.low(w, step), g.high(w, step) + 1, or);
    let t = g.target(w, x, step);
    if !w.done && g.low(w, step) <= g.high(w, step) {
        assert(0 <= t < g.height);
        assert(0 <= t * ONE <= (g.height - 1) * ONE) by (nonlinear_arith)
            requires
                0 <= t <= g.height - 1,
        ;
        let c = clamp(predicted, 0, (g.height - 1) * ONE);
        lemma_nearest(t * ONE, g.height - 1);
        lemma_nearest(c, g.height - 1);
    }
}

proof fn lemma_walked_ok(g: Ground, sx: int, sy: int, step: int, n: nat)
    requires
        g.height > 0,
        g.height <= usize::MAX,
        step == 1 || step == -1,
        0 <= sy < g.height,
    ensures
        walk_ok(g.walked(sx, sy, step, n), g.height, n as int),
    decreases n,
{
    if n == 0 {
        assert(0 <= sy * ONE <= (g.height - 1) * ONE) by (nonlinear_arith)
            requires
                0 <= sy <= g.height - 1,
        ;
    } else {
        lemma_walked_ok(g, sx, sy, step, (n - 1) as nat);
        lemma_stepped_ok(g, g.walked(sx, sy, step, (n - 1) as nat), sx + step * n, step, n - 1);
    }
}

/// A trail that has ended goes nowhere.
proof fn lemma_walked_done(g: Ground, sx: int, sy: int, step: int, n: nat, m: nat)
    requires
        n <= m,
        g.walked(sx, sy, step, n).done,
    ensures
        g.walked(sx, sy, step, m) == g.walked(sx, sy, step, n),
    decreases m,
{
    if n < m {
        lemma_walked_done(g, sx, sy, step, n, (m - 1) as nat);
    }
}

fn nearest_row(y: i128) -> (r: i128)
    requires
        -0x4000_0000_0000_0000_0000_0000 <= y <= 0x4000_0000_0000_0000_0000_0000,
    ensures
        r == nearest(y as int),
{
    if y >= 0 {
        (2 * y + 1_000_000) / 2_000_000
    } else {
        -((2 * -y + 1_000_000) / 2_000_000)
    }
}

/// A value in the direction of travel.
fn directed(v: i128, dir: i128) -> (r: i128)
    requires
        dir == 1 || dir == -1,
        -0x4000_0000_0000_0000_0000_0000 <= v <= 0x4000_0000_0000_0000_0000_0000,
    ensures
        r == v * dir,
        r == v || r == -v,
{
    if dir == 1 {
        assert(v * dir == v) by (nonlinear_arith)
            requires
                dir == 1,
        ;
        v
    } else {
        assert(v * dir == -v) by (nonlinear_arith)
            requires
                dir == -1,
        ;
        -v
    }
}

/// A heading after one more observed step.
fn turned(heading: i128, observed: i128) -> (r: i128)
    requires
        -MAX_HEADING <= heading <= MAX_HEADING,
        -0x4000_0000_0000_0000_0000_0000 <= observed <= 0x4000_0000_0000_0000_0000_0000,
    ensures
        r == clamp((7 * heading + 3 * observed) / 10, -MAX_HEADING as int, MAX_HEADING as int),
{
    let t: i128 = floor_div(7 * heading + 3 * observed, 10);
    if t < -MAX_HEADING {
        -MAX_HEADING
    } else if t > MAX_HEADING {
        MAX_HEADING
    } else {
        t
    }
}

/// Everything a trail needs to walk.
pub struct Trail<'a> {
    pub image: &'a [u8],
    pub width: usize,
    pub height: usize,
    pub follow_level: u8,
    pub seed_level: u8,
    pub claimed: &'a [bool],
}

impl<'a> Trail<'a> {
    pub open spec fn ground(&self) -> Ground {
        Ground {
            image: self.image@,
            width: self.width as int,
            height: self.height as int,
            follow_level: self.follow_level,
            seed_level: self.seed_level,
            claimed: self.claimed@,
        }
    }

    /// The brightest of the rows from `lo` to `hi` of a column, and its value.
    fn look(&self, x: usize, lo: usize, hi: usize, or: usize) -> (r: (u8, usize))
        requires
            self.ground().wf(),
            x < self.width,
            lo <= hi < self.height,
            or < self.height,
        ensures
            r.0 == self.ground().brightness(x as int, lo as int, hi + 1),
            r.1 == self.ground().brightest(x as int, lo as int, hi + 1, or as int),
            r.1 < self.height,
    {
        let ghost g = self.ground();
        let pixels: usize = self.image.len();
        let mut value: u8 = 0;
        let mut best: usize = or;
        let mut row: usize = lo;
        while row <= hi
            invariant
                g == self.ground(),
                g.wf(),
                x < self.width,
                pixels == self.image@.len(),
                lo <= row <= hi + 1,
                hi < self.height,
                best < self.height,
                value == g.brightness(x as int, lo as int, row as int),
                best == g.brightest(x as int, lo as int, row as int, or as int),
            decreases hi + 1 - row,
        {
            assert(row * self.width + x < self.width * self.height) by (nonlinear_arith)
                requires
                    0 <= row <= self.height - 1,
                    0 <= x < self.width,
            ;
            let v: u8 = self.image[row * self.width + x];
            if v > value {
                value = v;
                best = row;
            }
            row = row + 1;
        }
        (value, best)
    }

    /// Walk one column further, to column `x`.
    #[verifier::rlimit(60)]
    fn advance(&self, w: &mut WalkState, x: usize, dir: i128, Ghost(n): Ghost<int>)
        requires
            self.ground().wf(),
            x < self.width,
            dir == 1 || dir == -1,
            !old(w).done,
            walk_ok(old(w)@, self.height as int, n),
        ensures
            final(w)@ == self.ground().stepped(old(w)@, x as int, dir as int),
            walk_ok(final(w)@, self.height as int, n + 1),
    {
        let ghost g = self.ground();
        let ghost before = w@;
        let ghost step = dir as int;
        proof {
            lemma_stepped_ok(g, before, x as int, step, n);
        }
        let pixels: usize = self.image.len();
        let last: i128 = self.height as i128 - 1;
        let top: i128 = last * 1_000_000;
        let predicted: i128 = w.y + directed(w.heading, dir);
        let centre: i128 = nearest_row(predicted);
        let lo: i128 = if centre - 1 > 0 {
            centre - 1
        } else {
            0
        };
        let hi: i128 = if centre + 1 < last {
            centre + 1
        } else {
            last
        };
        assert(lo == g.low(before, step));
        assert(hi == g.high(before, step));
        if lo > hi {
            w.done = true;
            return;
        }
        let or: i128 = if centre < 0 {
            0
        } else if centre > last {
            last
        } else {
            centre
        };
        let (value, best): (u8, usize) = self.look(x, lo as usize, hi as usize, or as usize);
        assert(best == g.target(before, x as int, step));
        let required: u8 = if w.misses == 0 {
            self.follow_level
        } else {
            self.seed_level
        };
        assert(best * self.width + x < self.width * self.height) by (nonlinear_arith)
            requires
                0 <= best <= self.height - 1,
                0 <= x < self.width,
        ;
        let seen: bool = value >= required && !self.claimed[best * self.width + x];
        assert(seen == g.is_seen(before, x as int, step));
        if seen {
            let y: i128 = best as i128 * 1_000_000;
            let heading: i128 = turned(w.heading, directed(y - w.y, dir));
            proof {
                lemma_nearest(y as int, best as int);
                assert(nearest(y as int) == best);
            }
            w.heading = heading;
            w.y = y;
            w.misses = 0;
            w.rows.push(best);
            assert(w@ == g.stepped(before, x as int, step));
        } else if w.misses >= MAX_MISSES {
            w.misses = w.misses + 1;
            w.done = true;
            let keep: usize = w.rows.len().saturating_sub(MAX_MISSES);
            w.rows.truncate(keep);
            assert(w.rows@ =~= before.rows.take(keep as int));
            assert(w@ == g.stepped(before, x as int, step));
        } else {
            w.misses = w.misses + 1;
            w.y = if predicted < 0 {
                0
            } else if predicted > top {
                top
            } else {
                predicted
            };
            proof {
                lemma_nearest(w.y as int, self.height - 1);
            }
            let row: i128 = nearest_row(w.y);
            w.rows.push(row as usize);
            assert(w@ == g.stepped(before, x as int, step));
        }
    }

    /// Walk one direction from a seed, returning the row at each column: to the right for
    /// a step of 1, to the left for a step of -1.
    pub fn follow(&self, sx: usize, sy: usize, step: isize) -> (r: Vec<usize>)
        requires
            self.ground().wf(),
            sx < self.width,
            sy < self.height,
            step == 1 || step == -1,
        ensures
            step == 1 ==> r@ == self.ground().right_of(sx as int, sy as int),
            step == -1 ==> r@ == self.ground().left_of(sx as int, sy as int),
            step == 1 ==> r.len() <= self.width - 1 - sx,
            step == -1 ==> r.len() <= sx,
            forall|i: int| 0 <= i < r.len() ==> #[trigger] r[i] < self.height,
    {
        let ghost g = self.ground();
        let ahead: usize = if step == 1 {
            self.width - 1 - sx
        } else {
            sx
        };
        let dir: i128 = if step == 1 {
            1
        } else {
            -1
        };
        let mut w = WalkState {
            y: sy as i128 * 1_000_000,
            heading: 0,
            misses: 0,
            rows: Vec::new(),
            done: false,
        };
        let mut n: usize = 0;
        proof {
            lemma_walked_ok(g, sx as int, sy as int, dir as int, 0);
            assert(w@ == g.walked(sx as int, sy as int, dir as int, 0));
        }
        while n < ahead && !w.done
            invariant
                g == self.ground(),
                g.wf(),
                sx < self.width,
                sy < self.height,
                dir == 1 || dir == -1,
                dir == 1 ==> ahead == self.width - 1 - sx,
                dir == -1 ==> ahead == sx,
                n <= ahead,
                w@ == g.walked(sx as int, sy as int, dir as int, n as nat),
                walk_ok(w@, self.height as int, n as int),
            decreases ahead - n,
        {
            let x: usize = if dir == 1 {
                sx + 1 + n
            } else {
                sx - 1 - n
            };
            assert(x == sx + dir * (n + 1)) by (nonlinear_arith)
                requires
                    dir == 1 && x == sx + 1 + n || dir == -1 && x == sx - 1 - n,
            ;
            self.advance(&mut w, x, dir, Ghost(n as int));
            n = n + 1;
        }
        proof {
            if w.done {
                lemma_walked_done(g, sx as int, sy as int, dir as int, n as nat, ahead as nat);
            }
        }
        w.rows
    }
}

/// A walk under way.
struct WalkState {
    y: i128,
    heading: i128,
    misses: usize,
    rows: Vec<usize>,
    done: bool,
}

impl View for WalkState {
    type V = Walk;

    closed spec fn view(&self) -> Walk {
        Walk {
            y: self.y as int,
            heading: self.heading as int,
            misses: self.misses as int,
            rows: self.rows@,
            done: self.done,
        }
    }
}

/// One followed stroke.
#[derive(Debug)]
pub struct Track {
    /// First and last column the trail occupies.
    pub x0: usize,
    pub x1: usize,
    /// Row at each column from `x0` to `x1` inclusive.
    pub rows: Vec<usize>,
    /// Rows spanned, lowest and highest.
    pub y0: usize,
    pub y1: usize,
    /// Mean image value along the trail, in millionths.
    pub mean: u64,
}

/// A stroke as it runs over a picture.
pub struct Stroke {
    pub x0: int,
    pub x1: int,
    pub rows: Seq<usize>,
    pub y0: int,
    pub y1: int,
    pub mean: int,
}

impl View for Track {
    type V = Stroke;

    open spec fn view(&self) -> Stroke {
        Stroke {
            x0: self.x0 as int,
            x1: self.x1 as int,
            rows: self.rows@,
            y0: self.y0 as int,
            y1: self.y1 as int,
            mean: self.mean as int,
        }
    }
}

impl Track {
    /// The track lies inside an image, one row for each of its columns, and is long enough to
    /// be called a stroke.
    pub open spec fn lies_in(&self, width: int, height: int) -> bool {
        &&& self.x0 <= self.x1 < width
        &&& self.x1 - self.x0 + 1 >= min_length(width)
        &&& self.rows.len() == self.x1 - self.x0 + 1
        &&& self.y0 <= self.y1 < height
        &&& forall|i: int| 0 <= i < self.rows.len() ==> #[trigger] self.rows[i] < height
    }

    pub fn len(&self) -> (r: usize)
        requires
            self.x0 <= self.x1 < usize::MAX,
        ensures
            r == self.x1 - self.x0 + 1,
    {
        self.x1 - self.x0 + 1
    }

    pub fn is_empty(&self) -> (r: bool)
        ensures
            r == (self.rows.len() == 0),
    {
        self.rows.len() == 0
    }

    /// Total vertical travel, in rows. Reported rather than required: shallow slopes are
    /// strokes too.
    pub fn drift_rows(&self) -> (r: usize)
        requires
            self.y0 <= self.y1,
        ensures
            r == self.y1 - self.y0,
    {
        self.y1 - self.y0
    }
}

pub open spec fn lowest(rows: Seq<usize>) -> int
    decreases rows.len(),
{
    if rows.len() <= 1 {
        rows.last() as int
    } else if rows.last() < lowest(rows.drop_last()) {
        rows.last() as int
    } else {
        lowest(rows.drop_last())
    }
}

pub open spec fn highest(rows: Seq<usize>) -> int
    decreases rows.len(),
{
    if rows.len() <= 1 {
        rows.last() as int
    } else if rows.last() > highest(rows.drop_last()) {
        rows.last() as int
    } else {
        highest(rows.drop_last())
    }
}

/// The sum of the pixels along the first `n` columns of a trail.
pub open spec fn along(image: Seq<u8>, width: int, x0: int, rows: Seq<usize>, n: int) -> int
    decreases n,
{
    if n <= 0 {
        0
    } else {
        along(image, width, x0, rows, n - 1) + image[rows[n - 1] * width + x0 + n - 1]
    }
}

impl Ground {
    /// The stroke through a seed.
    pub open spec fn stroke(self, seed: int) -> Stroke {
        let sx = seed % self.width;
        let sy = seed / self.width;
        let left = self.left_of(sx, sy);
        let right = self.right_of(sx, sy);
        let rows = left.reverse().push(sy as usize) + right;
        Stroke {
            x0: sx - left.len(),
            x1: sx + right.len(),
            rows,
            y0: lowest(rows),
            y1: highest(rows),
            mean: along(self.image, self.width, sx - left.len(), rows, rows.len() as int) * ONE / (
            rows.len() as int),
        }
    }

    /// The pixels claimed once a stroke is laid down.
    pub open spec fn claimed_with(self, t: Stroke) -> Seq<bool> {
        Seq::new(
            self.claimed.len(),
            |i: int|
                self.claimed[i] || (t.x0 <= i % self.width <= t.x1 && t.rows[i % self.width - t.x0]
                    == i / self.width),
        )
    }

    /// The same ground with other pixels claimed.
    pub open spec fn with_claims(self, claimed: Seq<bool>) -> Ground {
        Ground { claimed, ..self }
    }

    /// The strokes through the first `n` seeds, and the pixels that they claim. A seed
    /// that is claimed already starts none, and neither does one whose stroke is short.
    pub open spec fn laid(self, seeds: Seq<usize>, n: int) -> (Seq<Stroke>, Seq<bool>)
        decreases n,
    {
        if n <= 0 {
            (Seq::empty(), self.claimed)
        } else {
            let (strokes, claimed) = self.laid(seeds, n - 1);
            let here = self.with_claims(claimed);
            let t = here.stroke(seeds[n - 1] as int);
            if claimed[seeds[n - 1] as int] || t.x1 - t.x0 + 1 < min_length(self.width) {
                (strokes, claimed)
            } else {
                (strokes.push(t), here.claimed_with(t))
            }
        }
    }
}

/// Shortest run worth calling a stroke: a tenth of the width, and four columns.
pub open spec fn min_length(width: int) -> int {
    if width / 10 > 4 {
        width / 10
    } else {
        4
    }
}

/// The places among the first `n` pixels that reach a level.
pub open spec fn seeds_upto(image: Seq<u8>, level: u8, n: int) -> Seq<usize>
    decreases n,
{
    if n <= 0 {
        Seq::empty()
    } else {
        let before = seeds_upto(image, level, n - 1);
        if image[n - 1] >= level {
            before.push((n - 1) as usize)
        } else {
            before
        }
    }
}

pub open spec fn dimness(image: Seq<u8>, seeds: Seq<usize>) -> Seq<i128> {
    seeds.map_values(|i: usize| -(image[i as int] as int) as i128)
}

/// Seeds in descending brightness, so that the clearest evidence claims its stroke before
/// a weaker seed nearby can wander onto it.
pub open spec fn seeds_of(image: Seq<u8>, level: u8, n: int) -> Seq<usize> {
    let seeds = seeds_upto(image, level, n);
    let order = order_of(dimness(image, seeds));
    Seq::new(seeds.len(), |k: int| seeds[order[k] as int])
}

/// The longest of some strokes, in columns.
pub open spec fn longest_of(strokes: Seq<Stroke>) -> int
    decreases strokes.len(),
{
    if strokes.len() == 0 {
        0
    } else {
        let before = longest_of(strokes.drop_last());
        let here = strokes.last().x1 - strokes.last().x0 + 1;
        if here > before {
            here
        } else {
            before
        }
    }
}

/// How many of the first `n` columns belong to some stroke.
pub open spec fn covered_of(strokes: Seq<Stroke>, n: int) -> int
    decreases n,
{
    if n <= 0 {
        0
    } else {
        covered_of(strokes, n - 1) + if is_covered(strokes, n - 1) {
            1int
        } else {
            0
        }
    }
}

pub open spec fn is_covered(strokes: Seq<Stroke>, x: int) -> bool {
    exists|k: int| 0 <= k < strokes.len() && (#[trigger] strokes[k]).x0 <= x <= strokes[k].x1
}

/// What the tracer found in one image.
#[derive(Debug)]
pub struct TraceResult {
    pub tracks: Vec<Track>,
    /// Length of the longest unbroken trail, as a fraction of the width, in millionths.
    pub longest: u64,
    /// Fraction of columns belonging to any trail, in millionths. A stroke crossed by a
    /// broadband transient is genuinely interrupted, and coverage counts both halves.
    pub covered: u64,
    /// The seed and follow levels actually used, for diagnosis.
    pub seed_level: u8,
    pub follow_level: u8,
}

impl TraceResult {
    pub open spec fn strokes(&self) -> Seq<Stroke> {
        self.tracks@.map_values(|t: Track| t@)
    }

    pub open spec fn is_default(&self) -> bool {
        &&& self.tracks.len() == 0
        &&& self.longest == 0
        &&& self.covered == 0
        &&& self.seed_level == 0
        &&& self.follow_level == 0
    }
}

impl Default for TraceResult {
    fn default() -> (r: Self)
        ensures
            r.is_default(),
    {
        TraceResult { tracks: Vec::new(), longest: 0, covered: 0, seed_level: 0, follow_level: 0 }
    }
}

/// The image says nothing: it is too small, or it is too flat for the two levels to
/// differ, and stretching it would manufacture strokes out of quantisation steps.
pub open spec fn is_blank(image: Seq<u8>, width: int, height: int) -> bool {
    width < 8 || height < 4 || image.len() < width * height || level_at(
        image,
        seed_target(image.len() as int),
    ) <= level_at(image, follow_target(image.len() as int))
}

/// The unclaimed ground of an image.
pub open spec fn fresh_ground(image: Seq<u8>, width: int, height: int) -> Ground {
    Ground {
        image,
        width,
        height,
        follow_level: level_at(image, follow_target(image.len() as int)) as u8,
        seed_level: level_at(image, seed_target(image.len() as int)) as u8,
        claimed: Seq::new((width * height) as nat, |i: int| false),
    }
}

impl<'a> Trail<'a> {
    /// The stroke through a seed.
    fn track(&self, seed: usize) -> (r: Track)
        requires
            self.ground().wf(),
            seed < self.width * self.height,
        ensures
            r@ == self.ground().stroke(seed as int),
            r.x0 <= r.x1 < self.width,
            r.rows.len() == r.x1 - r.x0 + 1,
            r.y0 <= r.y1 < self.height,
            forall|i: int| 0 <= i < r.rows.len() ==> #[trigger] r.rows[i] < self.height,
    {
        let ghost g = self.ground();
        proof {
            lemma_place(seed as int, g.width, g.height);
        }
        let pixels: usize = self.image.len();
        let sx: usize = seed % self.width;
        let sy: usize = seed / self.width;
        let right = self.follow(sx, sy, 1);
        let left = self.follow(sx, sy, -1);
        let x0: usize = sx - left.len();
        let x1: usize = sx + right.len();
        let mut rows: Vec<usize> = Vec::with_capacity(x1 - x0 + 1);
        let mut k: usize = left.len();
        while k > 0
            invariant
                k <= left.len(),
                rows.len() == left.len() - k,
                forall|i: int| 0 <= i < rows.len() ==> #[trigger] rows[i] == left[left.len() - 1 - i],
            decreases k,
        {
            k = k - 1;
            rows.push(left[k]);
        }
        rows.push(sy);
        k = 0;
        assert(rows@ =~= left@.reverse().push(sy));
        while k < right.len()
            invariant
                k <= right.len(),
                rows@ == left@.reverse().push(sy) + right@.take(k as int),
            decreases right.len() - k,
        {
            rows.push(right[k]);
            assert(right@.take(k + 1) =~= right@.take(k as int).push(right[k as int]));
            assert(rows@ =~= left@.reverse().push(sy) + right@.take(k + 1));
            k = k + 1;
        }
        assert(right@.take(right.len() as int) =~= right@);
        let ghost all = rows@;
        assert(all == left@.reverse().push(sy) + right@);
        assert forall|i: int| 0 <= i < rows.len() implies #[trigger] rows[i] < self.height by {
            if i < left.len() {
                assert(rows[i] == left[left.len() - 1 - i]);
            } else if i > left.len() {
                assert(rows[i] == right[i - left.len() - 1]);
            }
        }
        let mut y0: usize = rows[0];
        let mut y1: usize = rows[0];
        let mut sum: u128 = 0;
        k = 0;
        while k < rows.len()
            invariant
                g == self.ground(),
                g.wf(),
                pixels == self.image@.len(),
                rows@ == all,
                x1 < self.width,
                rows.len() == x1 - x0 + 1,
                k <= rows.len(),
                x0 <= x1,
                forall|i: int| 0 <= i < rows.len() ==> #[trigger] rows[i] < self.height,
                sum <= 255 * k,
                sum == along(self.image@, g.width, x0 as int, all, k as int),
                y0 <= y1 < self.height,
                k == 0 ==> y0 == all[0] && y1 == all[0],
                k > 0 ==> y0 == lowest(all.take(k as int)) && y1 == highest(all.take(k as int)),
            decreases rows.len() - k,
        {
            let row: usize = rows[k];
            assert(row * self.width + (x0 + k) < self.width * self.height) by (nonlinear_arith)
                requires
                    0 <= row <= self.height - 1,
                    0 <= x0 + k < self.width,
            ;
            proof {
                assert(all.take(k + 1).last() == row);
                assert(all.take(k + 1).drop_last() =~= all.take(k as int));
            }
            sum = sum + self.image[row * self.width + x0 + k] as u128;
            if row < y0 {
                y0 = row;
            }
            if row > y1 {
                y1 = row;
            }
            k = k + 1;
        }
        assert(all.take(all.len() as int) =~= all);
        proof {
            let s = sum as int;
            let n = rows.len() as int;
            assert(0 <= s * 1_000_000 / n <= 255 * 1_000_000) by (nonlinear_arith)
                requires
                    0 <= s <= 255 * n,
                    n > 0,
            ;
        }
        let mean: u64 = (sum * ONE as u128 / rows.len() as u128) as u64;
        Track { x0, x1, rows, y0, y1, mean }
    }
}

proof fn lemma_place(i: int, width: int, height: int)
    requires
        0 <= i < width * height,
        width > 0,
    ensures
        0 <= i % width < width,
        0 <= i / width < height,
        i == (i / width) * width + i % width,
{
    vstd::arithmetic::div_mod::lemma_fundamental_div_mod(i, width);
    let q = i / width;
    assert(q < height) by (nonlinear_arith)
        requires
            width * q <= i,
            i < width * height,
            width > 0,
    ;
    assert(width * q == q * width) by (nonlinear_arith);
}

/// Claim the pixels of a stroke.
fn claim(claimed: &mut Vec<bool>, width: usize, height: usize, t: &Track, Ghost(g): Ghost<Ground>)
    requires
        g.wf(),
        g.width == width,
        g.height == height,
        g.claimed == old(claimed)@,
        t.x0 <= t.x1 < width,
        t.rows.len() == t.x1 - t.x0 + 1,
        forall|i: int| 0 <= i < t.rows.len() ==> #[trigger] t.rows[i] < height,
    ensures
        final(claimed)@ == g.claimed_with(t@),
{
    let cells: usize = claimed.len();
    let mut k: usize = 0;
    while k < t.rows.len()
        invariant
            g.wf(),
            g.width == width,
            g.height == height,
            cells == width * height,
            claimed.len() == cells,
            g.claimed.len() == cells,
            t.x0 <= t.x1 < width,
            t.rows.len() == t.x1 - t.x0 + 1,
            k <= t.rows.len(),
            forall|i: int| 0 <= i < t.rows.len() ==> #[trigger] t.rows[i] < height,
            forall|i: int|
                0 <= i < claimed.len() ==> #[trigger] claimed[i] == (g.claimed[i] || (t.x0 <= i
                    % g.width < t.x0 + k && t.rows[i % g.width - t.x0] == i / g.width)),
        decreases t.rows.len() - k,
    {
        let row: usize = t.rows[k];
        let x: usize = t.x0 + k;
        assert(row * width + x < width * height) by (nonlinear_arith)
            requires
                0 <= row <= height - 1,
                0 <= x < width,
        ;
        let at: usize = row * width + x;
        proof {
            vstd::arithmetic::div_mod::lemma_fundamental_div_mod_converse(
                at as int,
                width as int,
                row as int,
                x as int,
            );
            assert forall|i: int| 0 <= i < cells && i != at && i % g.width == x implies #[trigger] claimed[i]
                == claimed[i] && i / g.width != row by {
                lemma_place(i, g.width, g.height);
            }
        }
        claimed.set(at, true);
        k = k + 1;
    }
    assert(claimed@ =~= g.claimed_with(t@));
}

/// Follow every stroke that starts from a confident seed.
pub fn trace(image: &[u8], width: usize, height: usize) -> (r: TraceResult)
    requires
        width * height <= usize::MAX,
    ensures
        is_blank(image@, width as int, height as int) ==> r.is_default(),
        !is_blank(image@, width as int, height as int) ==> {
            let g = fresh_ground(image@, width as int, height as int);
            let seeds = seeds_of(image@, g.seed_level, width * height);
            let strokes = g.laid(seeds, seeds.len() as int).0;
            &&& r.strokes() == strokes
            &&& r.longest == longest_of(strokes) * ONE / (width as int)
            &&& r.covered == covered_of(strokes, width as int) * ONE / (width as int)
            &&& r.seed_level == g.seed_level
            &&& r.follow_level == g.follow_level
        },
        forall|k: int|
            0 <= k < r.tracks.len() ==> (#[trigger] r.tracks[k]).lies_in(
                width as int,
                height as int,
            ),
        r.longest <= ONE,
        r.covered <= ONE,
{
    if width < 8 || height < 4 || image.len() < width * height {
        return TraceResult::default();
    }
    let (seed_level, follow_level) = levels(image);
    if seed_level <= follow_level {
        return TraceResult::default();
    }
    let ghost w = width as int;
    let ghost g = fresh_ground(image@, w, height as int);
    let cells: usize = width * height;
    let shortest: usize = if width / 10 > 4 {
        width / 10
    } else {
        4
    };
    let seeds = find_seeds(image, seed_level, cells);
    let mut claimed: Vec<bool> = vec![false; cells];
    let mut tracks: Vec<Track> = Vec::new();
    let mut n: usize = 0;
    assert(claimed@ =~= g.claimed);
    assert(tracks@.map_values(|t: Track| t@) =~= Seq::<Stroke>::empty());
    while n < seeds.len()
        invariant
            width >= 8,
            height >= 4,
            w == width,
            cells == width * height,
            image.len() >= cells,
            g == fresh_ground(image@, w, height as int),
            follow_level == g.follow_level,
            seed_level == g.seed_level,
            shortest == min_length(w),
            seeds@ == seeds_of(image@, seed_level, cells as int),
            forall|k: int| 0 <= k < seeds.len() ==> #[trigger] seeds[k] < cells,
            claimed.len() == cells,
            n <= seeds.len(),
            g.laid(seeds@, n as int) == (tracks@.map_values(|t: Track| t@), claimed@),
            forall|k: int| 0 <= k < tracks.len() ==> (#[trigger] tracks[k]).lies_in(w, height as int),
        decreases seeds.len() - n,
    {
        let seed: usize = seeds[n];
        if !claimed[seed] {
            let trail = Trail {
                image,
                width,
                height,
                follow_level,
                seed_level,
                claimed: claimed.as_slice(),
            };
            let ghost here = g.with_claims(claimed@);
            assert(trail.ground() == here);
            let t = trail.track(seed);
            if t.x1 - t.x0 >= shortest - 1 {
                claim(&mut claimed, width, height, &t, Ghost(here));
                let ghost before = tracks@;
                tracks.push(t);
                assert(tracks@.map_values(|t: Track| t@) =~= before.map_values(|t: Track| t@).push(
                    t@,
                ));
            }
        }
        n = n + 1;
    }
    let ghost strokes = tracks@.map_values(|t: Track| t@);
    let mut longest: usize = 0;
    n = 0;
    assert(strokes.take(0) =~= Seq::empty());
    while n < tracks.len()
        invariant
            w == width,
            strokes == tracks@.map_values(|t: Track| t@),
            forall|k: int| 0 <= k < tracks.len() ==> (#[trigger] tracks[k]).lies_in(w, height as int),
            n <= tracks.len(),
            longest <= width,
            longest == longest_of(strokes.take(n as int)),
        decreases tracks.len() - n,
    {
        proof {
            assert(strokes.take(n + 1).drop_last() =~= strokes.take(n as int));
            assert(strokes.take(n + 1).last() == tracks[n as int]@);
        }
        let len: usize = tracks[n].len();
        if len > longest {
            longest = len;
        }
        n = n + 1;
    }
    assert(strokes.take(strokes.len() as int) =~= strokes);
    let mut covered: usize = 0;
    let mut x: usize = 0;
    while x < width
        invariant
            strokes == tracks@.map_values(|t: Track| t@),
            x <= width,
            covered <= x,
            covered == covered_of(strokes, x as int),
        decreases width - x,
    {
        let mut hit: bool = false;
        let mut k: usize = 0;
        while k < tracks.len()
            invariant
                strokes == tracks@.map_values(|t: Track| t@),
                k <= tracks.len(),
                hit == exists|j: int|
                    0 <= j < k && (#[trigger] strokes[j]).x0 <= x <= strokes[j].x1,
            decreases tracks.len() - k,
        {
            assert(strokes[k as int] == tracks[k as int]@);
            if tracks[k].x0 <= x && x <= tracks[k].x1 {
                hit = true;
            }
            k = k + 1;
        }
        if hit {
            covered = covered + 1;
        }
        x = x + 1;
    }
    proof {
        let a = longest as int;
        let b = covered as int;
        assert(0 <= a * 1_000_000 / w <= 1_000_000) by (nonlinear_arith)
            requires
                0 <= a <= w,
                w > 0,
        ;
        assert(0 <= b * 1_000_000 / w <= 1_000_000) by (nonlinear_arith)
            requires
                0 <= b <= w,
                w > 0,
        ;
    }
    TraceResult {
        tracks,
        longest: (longest as u128 * ONE as u128 / width as u128) as u64,
        covered: (covered as u128 * ONE as u128 / width as u128) as u64,
        seed_level,
        follow_level,
    }
}

/// The pixels that reach the seed level, brightest first.
fn find_seeds(image: &[u8], level: u8, n: usize) -> (r: Vec<usize>)
    requires
        n <= image.len(),
    ensures
        r@ == seeds_of(image@, level, n as int),
        forall|k: int| 0 <= k < r.len() ==> #[trigger] r[k] < n,
{
    let mut found: Vec<usize> = Vec::new();
    let mut keys: Vec<i128> = Vec::new();
    let mut i: usize = 0;
    while i < n
        invariant
            i <= n <= image.len(),
            found@ == seeds_upto(image@, level, i as int),
            forall|k: int| 0 <= k < found.len() ==> #[trigger] found[k] < i,
            keys.len() == found.len(),
            forall|k: int|
                0 <= k < found.len() ==> #[trigger] keys[k] == -(image[found[k] as int] as int),
        decreases n - i,
    {
        if image[i] >= level {
            found.push(i);
            keys.push(-(image[i] as i128));
        }
        i = i + 1;
    }
    assert(keys@ =~= dimness(image@, found@));
    let order = stable_order(keys.as_slice());
    let mut r: Vec<usize> = Vec::with_capacity(found.len());
    let mut k: usize = 0;
    while k < order.len()
        invariant
            n <= image.len(),
            is_order(keys@, order@),
            keys.len() == found.len(),
            forall|k: int| 0 <= k < found.len() ==> #[trigger] found[k] < n,
            k <= order.len(),
            r.len() == k,
            forall|j: int| 0 <= j < k ==> #[trigger] r[j] == found[order[j] as int],
            forall|j: int| 0 <= j < k ==> #[trigger] r[j] < n,
        decreases order.len() - k,
    {
        r.push(found[order[k]]);
        k = k + 1;
    }
    assert(r@ =~= seeds_of(image@, level, n as int));
    r
}

/// The levels of a picture are shares of its own pixels: at least `target` of them reach no
/// further than the level, and fewer than that lie below it.
pub proof fn law_a_level_is_a_share_of_the_pixels(image: Seq<u8>, target: int)
    requires
        0 < target <= image.len(),
    ensures
        image.filter(|v: u8| v < level_at(image, target)).len() < target,
        image.filter(|v: u8| v <= level_at(image, target)).len() >= target,
{
    let s = pixels(image);
    let v = level_at(image, target);
    rank::lemma_rank_total(s, target - 1);
    lemma_pixels_below(image, v, |p: u8| p < level_at(image, target));
    lemma_pixels_below(image, v + 1, |p: u8| p <= level_at(image, target));
}

proof fn lemma_pixels_below(image: Seq<u8>, v: int, pred: spec_fn(u8) -> bool)
    requires
        forall|p: u8| #[trigger] pred(p) == (p < v),
    ensures
        rank::below(pixels(image), v) == image.filter(pred).len(),
    decreases image.len(),
{
    reveal(Seq::filter);
    if image.len() > 0 {
        lemma_pixels_below(image.drop_last(), v, pred);
        assert(pixels(image).drop_last() =~= pixels(image.drop_last()));
    }
}

/// Seeds are rare and continuation permissive: all but one in two hundred of the pixels lie no
/// higher than the seeds, and all but one in ten no higher than what a trail is followed down to.
pub proof fn law_seeds_are_rare(n: int)
    requires
        n >= 0,
    ensures
        1000 * seed_target(n) <= 995 * n < 1000 * seed_target(n) + 1000,
        10 * follow_target(n) <= 9 * n < 10 * follow_target(n) + 10,
        follow_target(n) <= seed_target(n),
{
}

/// The nearest row is within half a row.
pub proof fn law_the_nearest_row_is_within_half_a_row(y: int)
    ensures
        -500_000 <= nearest(y) * 1_000_000 - y <= 500_000,
        nearest(-y) == -nearest(y),
{
}

proof fn lemma_brightest_row(g: Ground, x: int, lo: int, hi: int, or: int, row: int)
    requires
        lo <= row < hi,
    ensures
        g.image[row * g.width + x] <= g.brightness(x, lo, hi),
        g.brightness(x, lo, hi) > 0 ==> {
            let best = g.brightest(x, lo, hi, or);
            &&& lo <= best < hi
            &&& g.image[best * g.width + x] == g.brightness(x, lo, hi)
            &&& row < best ==> g.image[row * g.width + x] < g.brightness(x, lo, hi)
        },
    decreases hi - lo,
{
    if hi - 1 > lo {
        lemma_brightest_row(g, x, lo, hi - 1, or, if row < hi - 1 {
            row
        } else {
            lo
        });
    } else {
        assert(g.brightness(x, lo, hi - 1) == 0);
    }
}

/// A trail goes where the stroke is brightest: of the rows it looks at in the next column it takes
/// the first of the brightest, if that is as bright as is asked and no trail has it yet. What is
/// asked is the level to follow at, or to seed at once the trail has lost the stroke.
pub proof fn law_a_trail_takes_the_brightest_row(
    g: Ground,
    w: Walk,
    x: int,
    step: int,
    row: int,
    best: int,
)
    requires
        !w.done,
        g.low(w, step) <= best <= g.high(w, step),
        g.image[best * g.width + x] > 0,
        forall|r: int|
            g.low(w, step) <= r <= g.high(w, step) ==> #[trigger] g.image[r * g.width + x]
                <= g.image[best * g.width + x] && (r < best ==> g.image[r * g.width + x]
                < g.image[best * g.width + x]),
    ensures
        ({
            let asked = if w.misses == 0 {
                g.follow_level
            } else {
                g.seed_level
            };
            let after = g.stepped(w, x, step);
            let seen = g.image[best * g.width + x] >= asked && !g.claimed[best * g.width + x];
            &&& seen ==> after.y == best * 1_000_000 && after.misses == 0 && !after.done
                && after.rows == w.rows.push(best as usize)
            &&& !seen ==> after.misses == w.misses + 1
            &&& !seen && w.misses >= 6 ==> after.done
            &&& !seen && w.misses < 6 ==> !after.done && after.heading == w.heading
        }),
{
    let lo = g.low(w, step);
    let hi = g.high(w, step) + 1;
    let or = clamp(nearest(w.y + w.heading * step), 0, g.height - 1);
    lemma_brightest_row(g, x, lo, hi, or, best);
    let t = g.brightest(x, lo, hi, or);
    assert(g.image[t * g.width + x] <= g.image[best * g.width + x]);
    if t < best {
        assert(g.image[t * g.width + x] < g.image[best * g.width + x]);
    } else if best < t {
        lemma_brightest_row(g, x, lo, hi, or, best);
    }
    assert(t == best);
    law_the_nearest_row_is_within_half_a_row(best * ONE);
    assert(nearest(best * ONE) == best);
}

/// A bright row is followed to its end: from a seed on it, across columns where it is brighter
/// than the rows beside it, bright enough to follow and not taken, the trail keeps to it.
pub proof fn law_a_bright_row_is_followed(g: Ground, sx: int, sy: int, step: int, n: nat)
    requires
        step == 1 || step == -1,
        0 <= sy < g.height,
        forall|k: int| #![trigger g.image[sy * g.width + (sx + step * k)]]
            1 <= k <= n ==> {
                let here = g.image[sy * g.width + (sx + step * k)];
                &&& here > 0
                &&& here >= g.follow_level
                &&& !g.claimed[sy * g.width + (sx + step * k)]
                &&& sy > 0 ==> g.image[(sy - 1) * g.width + (sx + step * k)] < here
                &&& sy < g.height - 1 ==> g.image[(sy + 1) * g.width + (sx + step * k)] < here
            },
    ensures
        ({
            let w = g.walked(sx, sy, step, n);
            &&& w.rows == Seq::new(n, |i: int| sy as usize)
            &&& w.y == sy * 1_000_000
            &&& w.heading == 0
            &&& w.misses == 0
            &&& !w.done
        }),
    decreases n,
{
    if n > 0 {
        let m = (n - 1) as nat;
        law_a_bright_row_is_followed(g, sx, sy, step, m);
        let w = g.walked(sx, sy, step, m);
        let x = sx + step * n;
        assert(w.heading * step == 0) by (nonlinear_arith)
            requires
                w.heading == 0,
        ;
        assert(nearest(sy * ONE) == sy);
        let here = g.image[sy * g.width + (sx + step * (n as int))];
        assert(here > 0);
        assert forall|r: int| g.low(w, step) <= r <= g.high(w, step) implies #[trigger] g.image[r
            * g.width + x] <= here && (r < sy ==> g.image[r * g.width + x] < here) by {
            assert(r == sy - 1 || r == sy || r == sy + 1);
        }
        law_a_trail_takes_the_brightest_row(g, w, x, step, sy, sy);
        let after = g.stepped(w, x, step);
        assert((after.y - w.y) * step == 0) by (nonlinear_arith)
            requires
                after.y - w.y == 0,
        ;
        assert(after.rows =~= Seq::new(n, |i: int| sy as usize));
    } else {
        assert(g.walked(sx, sy, step, 0).rows =~= Seq::new(0, |i: int| sy as usize));
    }
}

proof fn lemma_longest(strokes: Seq<Stroke>, k: int)
    requires
        0 <= k < strokes.len(),
        forall|i: int| 0 <= i < strokes.len() ==> (#[trigger] strokes[i]).x0 <= strokes[i].x1,
    ensures
        strokes[k].x1 - strokes[k].x0 + 1 <= longest_of(strokes),
        exists|i: int|
            0 <= i < strokes.len() && (#[trigger] strokes[i]).x1 - strokes[i].x0 + 1 == longest_of(
                strokes,
            ),
    decreases strokes.len(),
{
    let rest = strokes.drop_last();
    assert(strokes[strokes.len() - 1] == strokes.last());
    if rest.len() > 0 {
        assert forall|i: int| 0 <= i < rest.len() implies (#[trigger] rest[i]).x0 <= rest[i].x1 by {
            assert(rest[i] == strokes[i]);
        }
        lemma_longest(rest, if k < rest.len() {
            k
        } else {
            0
        });
        let i = choose|i: int|
            0 <= i < rest.len() && (#[trigger] rest[i]).x1 - rest[i].x0 + 1 == longest_of(rest);
        assert(strokes[i] == rest[i]);
    } else {
        assert(longest_of(rest) == 0);
    }
}

/// The longest stroke is as long as every other and is one of them, and what is covered are the
/// columns that some stroke crosses.
pub proof fn law_the_longest_stroke_and_what_is_covered(strokes: Seq<Stroke>, n: int, k: int)
    requires
        0 <= n,
        0 <= k < strokes.len(),
        forall|i: int| 0 <= i < strokes.len() ==> (#[trigger] strokes[i]).x0 <= strokes[i].x1,
    ensures
        strokes[k].x1 - strokes[k].x0 + 1 <= longest_of(strokes),
        exists|i: int|
            0 <= i < strokes.len() && (#[trigger] strokes[i]).x1 - strokes[i].x0 + 1 == longest_of(
                strokes,
            ),
        covered_of(strokes, n) == vstd::set_lib::set_int_range(0, n).filter(
            |x: int|
                exists|i: int|
                    0 <= i < strokes.len() && (#[trigger] strokes[i]).x0 <= x <= strokes[i].x1,
        ).len(),
{
    lemma_longest(strokes, k);
    lemma_covered(
        strokes,
        n,
        |x: int|
            exists|i: int|
                0 <= i < strokes.len() && (#[trigger] strokes[i]).x0 <= x <= strokes[i].x1,
    );
}

proof fn lemma_covered(strokes: Seq<Stroke>, n: int, pred: spec_fn(int) -> bool)
    requires
        0 <= n,
        forall|x: int| #[trigger] pred(x) == is_covered(strokes, x),
    ensures
        covered_of(strokes, n) == vstd::set_lib::set_int_range(0, n).filter(pred).len(),
        vstd::set_lib::set_int_range(0, n).filter(pred).finite(),
    decreases n,
{
    let all = vstd::set_lib::set_int_range(0, n);
    vstd::set_lib::lemma_int_range(0, n);
    vstd::set_lib::lemma_len_subset(all.filter(pred), all);
    if n > 0 {
        lemma_covered(strokes, n - 1, pred);
        let before = vstd::set_lib::set_int_range(0, n - 1);
        if pred(n - 1) {
            assert(all.filter(pred) =~= before.filter(pred).insert(n - 1));
        } else {
            assert(all.filter(pred) =~= before.filter(pred));
        }
    } else {
        assert(all.filter(pred) =~= Set::empty());
    }
}

/// No stroke is shorter than a tenth of the width or four columns, each goes through a seed, and a
/// seed that no stroke has claimed yet starts one if what follows from it is long enough.
pub proof fn law_strokes_are_long_and_start_from_seeds(g: Ground, seeds: Seq<usize>, n: int, k: int)
    requires
        0 <= n <= seeds.len(),
        g.width > 0,
        0 <= k < g.laid(seeds, n).0.len(),
    ensures
        ({
            let t = g.laid(seeds, n).0[k];
            let length = t.x1 - t.x0 + 1;
            &&& length >= 4
            &&& 10 * length > g.width - 10
            &&& exists|i: int|
                0 <= i < n && t == g.with_claims(#[trigger] g.laid(seeds, i).1).stroke(
                    seeds[i] as int,
                ) && !g.laid(seeds, i).1[seeds[i] as int]
        }),
    decreases n,
{
    let (strokes, claimed) = g.laid(seeds, n - 1);
    if k < strokes.len() {
        law_strokes_are_long_and_start_from_seeds(g, seeds, n - 1, k);
        assert(g.laid(seeds, n).0[k] == strokes[k]);
        let i = choose|i: int|
            0 <= i < n - 1 && strokes[k] == g.with_claims(#[trigger] g.laid(seeds, i).1).stroke(
                seeds[i] as int,
            ) && !g.laid(seeds, i).1[seeds[i] as int];
        assert(g.laid(seeds, n).0[k] == g.with_claims(g.laid(seeds, i).1).stroke(seeds[i] as int));
    } else {
        assert(g.laid(seeds, n).0[k] == g.with_claims(g.laid(seeds, n - 1).1).stroke(
            seeds[n - 1] as int,
        ));
        assert(!g.laid(seeds, n - 1).1[seeds[n - 1] as int]);
    }
}

/// A seed starts a stroke exactly where no stroke has claimed it and what follows from it is four
/// columns long and a tenth of the width, that rounded down; the stroke then comes after those
/// already laid, and claims its own pixels besides theirs.
pub proof fn law_a_long_trail_is_a_stroke(g: Ground, seeds: Seq<usize>, n: int)
    requires
        0 <= n < seeds.len(),
        g.width > 0,
    ensures
        ({
            let (strokes, claimed) = g.laid(seeds, n);
            let (after, taken) = g.laid(seeds, n + 1);
            let t = g.with_claims(claimed).stroke(seeds[n] as int);
            let length = t.x1 - t.x0 + 1;
            let laid = !claimed[seeds[n] as int] && length >= 4 && 10 * length > g.width - 10;
            &&& laid ==> after == strokes.push(t)
            &&& !laid ==> after == strokes && taken == claimed
            &&& forall|i: int|
                0 <= i < claimed.len() && laid ==> (#[trigger] taken[i] <==> claimed[i] || (t.x0 <= i
                    % g.width <= t.x1 && t.rows[i % g.width - t.x0] == i / g.width))
        }),
{
}

/// A trail turns gently: where it sees the stroke its heading goes three tenths of the way to
/// where the stroke went, rounded down, never steeper than three rows a column; and a stroke that
/// goes on as it did leaves the heading as it was.
pub proof fn law_a_trail_turns_gently(g: Ground, w: Walk, x: int, step: int)
    requires
        !w.done,
        g.low(w, step) <= g.high(w, step),
        g.is_seen(w, x, step),
        -3_000_000 <= w.heading <= 3_000_000,
    ensures
        ({
            let after = g.stepped(w, x, step);
            let went = (after.y - w.y) * step;
            &&& -3_000_000 <= after.heading <= 3_000_000
            &&& -3_000_000 < after.heading < 3_000_000 ==> 10 * after.heading <= 7 * w.heading + 3
                * went < 10 * after.heading + 10
            &&& went == w.heading ==> after.heading == w.heading
            &&& went >= w.heading ==> after.heading >= w.heading
            &&& went <= w.heading ==> after.heading <= w.heading
        }),
{
}

} // verus!
