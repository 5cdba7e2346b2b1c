//! Tracing does not depend on how bright an image is: both of its bars are percentiles of the
//! image's own values, so only the order of the values matters.
use crate::analysis::trace::{
    clamp, covered_of, dimness, follow_target, fresh_ground, is_blank, is_covered, level_at,
    longest_of, nearest, pixels, seed_target, seeds_of, seeds_upto, Ground, Stroke, Walk,
};
use crate::order::{is_order, lemma_order_exists, lemma_order_unique, order_of, precedes};
use crate::rank;
use vstd::prelude::*;

verus! {

/// The two images have the same pixels dark, and of any two pixels the same one brighter.
pub open spec fn same_order(a: Seq<u8>, b: Seq<u8>) -> bool {
    &&& a.len() == b.len()
    &&& forall|i: int, j: int|
        0 <= i < a.len() && 0 <= j < a.len() ==> (#[trigger] a[i] < #[trigger] a[j]) == (b[i]
            < b[j])
    &&& forall|i: int| 0 <= i < a.len() ==> (#[trigger] a[i] == 0) == (b[i] == 0)
}

/// The two values stand at the same place of their images: both are dark, or they are the
/// values of the same pixel.
spec fn stand_alike(a: Seq<u8>, b: Seq<u8>, v: int, w: int) -> bool {
    (v == 0 && w == 0) || exists|p: int| 0 <= p < a.len() && v == #[trigger] a[p] && w == b[p]
}

proof fn lemma_compare(a: Seq<u8>, b: Seq<u8>, v1: int, w1: int, v2: int, w2: int)
    requires
        same_order(a, b),
        stand_alike(a, b, v1, w1),
        stand_alike(a, b, v2, w2),
    ensures
        (v1 < v2) == (w1 < w2),
{
    if !(v1 == 0 && w1 == 0) {
        let p = choose|p: int| 0 <= p < a.len() && v1 == #[trigger] a[p] && w1 == b[p];
        assert((a[p] == 0) == (b[p] == 0));
        if !(v2 == 0 && w2 == 0) {
            let q = choose|q: int| 0 <= q < a.len() && v2 == #[trigger] a[q] && w2 == b[q];
            assert((a[p] < a[q]) == (b[p] < b[q]));
        }
    } else if !(v2 == 0 && w2 == 0) {
        let q = choose|q: int| 0 <= q < a.len() && v2 == #[trigger] a[q] && w2 == b[q];
        assert((a[q] == 0) == (b[q] == 0));
    }
}

proof fn lemma_occurs(s: Seq<int>, v: int)
    requires
        rank::occurrences(s, v) > 0,
    ensures
        exists|p: int| 0 <= p < s.len() && #[trigger] s[p] == v,
    decreases s.len(),
{
    if s.len() > 0 {
        if s.last() == v {
            assert(s[s.len() - 1] == v);
        } else {
            lemma_occurs(s.drop_last(), v);
            let p = choose|p: int| 0 <= p < s.drop_last().len() && #[trigger] s.drop_last()[p] == v;
            assert(s[p] == v);
        }
    }
}

proof fn lemma_below_alike(a: Seq<u8>, b: Seq<u8>, p: int, n: int)
    requires
        same_order(a, b),
        0 <= p < a.len(),
        0 <= n <= a.len(),
    ensures
        rank::below(pixels(a.take(n)), a[p] as int) == rank::below(
            pixels(b.take(n)),
            b[p] as int,
        ),
        rank::below(pixels(a.take(n)), a[p] + 1) == rank::below(pixels(b.take(n)), b[p] + 1),
    decreases n,
{
    if n == 0 {
        assert(pixels(a.take(0)) =~= Seq::<int>::empty());
        assert(pixels(b.take(0)) =~= Seq::<int>::empty());
    } else {
        lemma_below_alike(a, b, p, n - 1);
        assert(pixels(a.take(n)).drop_last() =~= pixels(a.take(n - 1)));
        assert(pixels(b.take(n)).drop_last() =~= pixels(b.take(n - 1)));
        assert(pixels(a.take(n)).last() == a[n - 1]);
        assert(pixels(b.take(n)).last() == b[n - 1]);
        assert((a[n - 1] < a[p]) == (b[n - 1] < b[p]));
        assert((a[p] < a[n - 1]) == (b[p] < b[n - 1]));
    }
}

proof fn lemma_levels_alike(a: Seq<u8>, b: Seq<u8>, target: int)
    requires
        same_order(a, b),
        target <= a.len(),
    ensures
        stand_alike(a, b, level_at(a, target), level_at(b, target)),
        0 <= level_at(a, target) < 256,
        0 <= level_at(b, target) < 256,
{
    if target > 0 {
        let s = pixels(a);
        let k = target - 1;
        assert forall|i: int| 0 <= i < s.len() implies 0 <= #[trigger] s[i] < 256 by {}
        rank::lemma_extremes(s, 0, 256);
        rank::lemma_rank_exists(s, k, 0, 256);
        let v = rank::ranked(s, k);
        rank::lemma_bounds(s, v);
        lemma_occurs(s, v);
        let p = choose|p: int| 0 <= p < s.len() && #[trigger] s[p] == v;
        assert(a[p] == v);
        lemma_below_alike(a, b, p, a.len() as int);
        assert(a.take(a.len() as int) =~= a);
        assert(b.take(b.len() as int) =~= b);
        rank::lemma_rank_unique(pixels(b), k, b[p] as int);
    }
}

/// The same ground under another light.
spec fn alike(g: Ground, h: Ground) -> bool {
    &&& g.wf()
    &&& h.wf()
    &&& g.height <= usize::MAX
    &&& g.width == h.width
    &&& g.height == h.height
    &&& g.claimed == h.claimed
    &&& same_order(g.image, h.image)
    &&& stand_alike(g.image, h.image, g.follow_level as int, h.follow_level as int)
    &&& stand_alike(g.image, h.image, g.seed_level as int, h.seed_level as int)
}

proof fn lemma_pixel_in_bounds(g: Ground, x: int, y: int)
    requires
        g.wf(),
        0 <= x < g.width,
        0 <= y < g.height,
    ensures
        0 <= y * g.width + x < g.width * g.height <= g.image.len(),
{
    assert(0 <= y * g.width && y * g.width + g.width <= g.width * g.height) by (nonlinear_arith)
        requires
            0 <= y,
            y + 1 <= g.height,
            g.width > 0,
    ;
}

proof fn lemma_brightness_alike(g: Ground, h: Ground, x: int, lo: int, hi: int, or: int)
    requires
        alike(g, h),
        0 <= x < g.width,
        0 <= lo,
        hi <= g.height,
    ensures
        stand_alike(g.image, h.image, g.brightness(x, lo, hi), h.brightness(x, lo, hi)),
        g.brightest(x, lo, hi, or) == h.brightest(x, lo, hi, or),
    decreases hi - lo,
{
    if lo < hi {
        lemma_brightness_alike(g, h, x, lo, hi - 1, or);
        lemma_pixel_in_bounds(g, x, hi - 1);
        let p = (hi - 1) * g.width + x;
        assert(stand_alike(g.image, h.image, g.image[p] as int, h.image[p] as int));
        lemma_compare(
            g.image,
            h.image,
            g.brightness(x, lo, hi - 1),
            h.brightness(x, lo, hi - 1),
            g.image[p] as int,
            h.image[p] as int,
        );
    }
}

proof fn lemma_step_alike(g: Ground, h: Ground, w: Walk, x: int, step: int)
    requires
        alike(g, h),
        0 <= x < g.width,
    ensures
        g.stepped(w, x, step) == h.stepped(w, x, step),
{
    let lo = g.low(w, step);
    let hi = g.high(w, step) + 1;
    lemma_brightness_alike(
        g,
        h,
        x,
        lo,
        hi,
        clamp(nearest(w.y + w.heading * step), 0, g.height - 1),
    );
    let (v, u) = if w.misses == 0 {
        (g.follow_level as int, h.follow_level as int)
    } else {
        (g.seed_level as int, h.seed_level as int)
    };
    lemma_compare(g.image, h.image, g.brightness(x, lo, hi), h.brightness(x, lo, hi), v, u);
    assert(g.is_seen(w, x, step) == h.is_seen(w, x, step));
}

proof fn lemma_walk_alike(g: Ground, h: Ground, sx: int, sy: int, step: int, n: nat)
    requires
        alike(g, h),
        step == 1 || step == -1,
        0 <= sx < g.width,
        step == 1 ==> n <= g.width - 1 - sx,
        step == -1 ==> n <= sx,
    ensures
        g.walked(sx, sy, step, n) == h.walked(sx, sy, step, n),
    decreases n,
{
    if n > 0 {
        lemma_walk_alike(g, h, sx, sy, step, (n - 1) as nat);
        assert(step == 1 ==> step * n == n);
        assert(step == -1 ==> step * n == -n);
        lemma_step_alike(
            g,
            h,
            g.walked(sx, sy, step, (n - 1) as nat),
            sx + step * n,
            step,
        );
    }
}

/// The two strokes run through the same pixels.
pub open spec fn same_course(s: Stroke, t: Stroke) -> bool {
    &&& s.x0 == t.x0
    &&& s.x1 == t.x1
    &&& s.rows == t.rows
    &&& s.y0 == t.y0
    &&& s.y1 == t.y1
}

proof fn lemma_stroke_alike(g: Ground, h: Ground, seed: int)
    requires
        alike(g, h),
        0 <= seed < g.width * g.height,
    ensures
        same_course(g.stroke(seed), h.stroke(seed)),
{
    let sx = seed % g.width;
    let sy = seed / g.width;
    assert(0 <= sx < g.width) by {
        vstd::arithmetic::div_mod::lemma_mod_bound(seed, g.width);
    }
    lemma_walk_alike(g, h, sx, sy, 1, (g.width - 1 - sx) as nat);
    lemma_walk_alike(g, h, sx, sy, -1, sx as nat);
}

/// The strokes run through the same pixels, one by one.
pub open spec fn same_courses(s: Seq<Stroke>, t: Seq<Stroke>) -> bool {
    &&& s.len() == t.len()
    &&& forall|k: int| 0 <= k < s.len() ==> same_course(#[trigger] s[k], t[k])
}

proof fn lemma_laid_alike(g: Ground, h: Ground, seeds: Seq<usize>, n: int)
    requires
        alike(g, h),
        0 <= n <= seeds.len(),
        forall|k: int| 0 <= k < seeds.len() ==> #[trigger] seeds[k] < g.width * g.height,
    ensures
        same_courses(g.laid(seeds, n).0, h.laid(seeds, n).0),
        g.laid(seeds, n).1 == h.laid(seeds, n).1,
        g.laid(seeds, n).1.len() == g.claimed.len(),
    decreases n,
{
    if n > 0 {
        lemma_laid_alike(g, h, seeds, n - 1);
        let (strokes, claimed) = g.laid(seeds, n - 1);
        let (others, same) = h.laid(seeds, n - 1);
        let here = g.with_claims(claimed);
        let there = h.with_claims(same);
        let seed = seeds[n - 1] as int;
        assert(alike(here, there));
        lemma_stroke_alike(here, there, seed);
        let s = here.stroke(seed);
        let t = there.stroke(seed);
        assert(here.claimed_with(s) =~= there.claimed_with(t));
        assert(same_courses(strokes.push(s), others.push(t)));
    }
}

proof fn lemma_seeds_alike(a: Seq<u8>, b: Seq<u8>, u: u8, v: u8, n: int)
    requires
        same_order(a, b),
        stand_alike(a, b, u as int, v as int),
        0 <= n <= a.len(),
        n <= usize::MAX,
    ensures
        seeds_upto(a, u, n) == seeds_upto(b, v, n),
        seeds_upto(a, u, n).len() <= n,
        forall|k: int|
            0 <= k < seeds_upto(a, u, n).len() ==> #[trigger] seeds_upto(a, u, n)[k] < n,
    decreases n,
{
    if n > 0 {
        lemma_seeds_alike(a, b, u, v, n - 1);
        assert(stand_alike(a, b, a[n - 1] as int, b[n - 1] as int));
        lemma_compare(a, b, a[n - 1] as int, b[n - 1] as int, u as int, v as int);
    }
}

proof fn lemma_seed_order_alike(a: Seq<u8>, b: Seq<u8>, u: u8, v: u8, n: int)
    requires
        same_order(a, b),
        stand_alike(a, b, u as int, v as int),
        0 <= n <= a.len(),
        n <= usize::MAX,
    ensures
        seeds_of(a, u, n) == seeds_of(b, v, n),
        forall|k: int| 0 <= k < seeds_of(a, u, n).len() ==> #[trigger] seeds_of(a, u, n)[k] < n,
{
    lemma_seeds_alike(a, b, u, v, n);
    let seeds = seeds_upto(a, u, n);
    let da = dimness(a, seeds);
    let db = dimness(b, seeds);
    let r = order_of(da);
    lemma_order_exists(da);
    lemma_order_exists(db);
    assert forall|p: int, q: int| 0 <= p < q < r.len() implies #[trigger] precedes(
        db,
        r[p] as int,
        r[q] as int,
    ) by {
        assert(precedes(da, r[p] as int, r[q] as int));
        let i = seeds[r[p] as int] as int;
        let j = seeds[r[q] as int] as int;
        assert(0 <= r[p] < seeds.len() && 0 <= r[q] < seeds.len());
        assert(0 <= i < n && 0 <= j < n);
        assert((a[i] < a[j]) == (b[i] < b[j]));
        assert((a[j] < a[i]) == (b[j] < b[i]));
    }
    assert(is_order(db, r));
    lemma_order_unique(db, r, order_of(db));
    assert(seeds_of(a, u, n) =~= seeds_of(b, v, n));
    assert forall|k: int| 0 <= k < seeds_of(a, u, n).len() implies #[trigger] seeds_of(a, u, n)[k]
        < n by {
        assert(0 <= r[k] < seeds.len());
    }
}

proof fn lemma_lengths_alike(s: Seq<Stroke>, t: Seq<Stroke>)
    requires
        same_courses(s, t),
    ensures
        longest_of(s) == longest_of(t),
    decreases s.len(),
{
    if s.len() > 0 {
        assert(same_course(s[s.len() - 1], t[t.len() - 1]));
        assert forall|k: int| 0 <= k < s.drop_last().len() implies same_course(
            #[trigger] s.drop_last()[k],
            t.drop_last()[k],
        ) by {
            assert(same_course(s[k], t[k]));
        }
        lemma_lengths_alike(s.drop_last(), t.drop_last());
    }
}

proof fn lemma_coverage_alike(s: Seq<Stroke>, t: Seq<Stroke>, n: int)
    requires
        same_courses(s, t),
    ensures
        covered_of(s, n) == covered_of(t, n),
    decreases n,
{
    if n > 0 {
        lemma_coverage_alike(s, t, n - 1);
        let x = n - 1;
        if is_covered(s, x) {
            let k = choose|k: int| 0 <= k < s.len() && (#[trigger] s[k]).x0 <= x <= s[k].x1;
            assert(same_course(s[k], t[k]));
            assert(t[k].x0 <= x <= t[k].x1);
        }
        if is_covered(t, x) {
            let k = choose|k: int| 0 <= k < t.len() && (#[trigger] t[k]).x0 <= x <= t[k].x1;
            assert(same_course(s[k], t[k]));
            assert(s[k].x0 <= x <= s[k].x1);
        }
    }
}

/// Brightness does not matter: two images whose pixels stand in the same order give the same
/// strokes through the same pixels, and the same lengths and coverage.
pub proof fn law_only_the_order_of_values_matters(
    a: Seq<u8>,
    b: Seq<u8>,
    width: int,
    height: int,
)
    requires
        same_order(a, b),
        0 <= width,
        0 <= height,
        width * height <= usize::MAX,
        height <= usize::MAX,
    ensures
        is_blank(a, width, height) == is_blank(b, width, height),
        !is_blank(a, width, height) ==> {
            let g = fresh_ground(a, width, height);
            let h = fresh_ground(b, width, height);
            let seeds = seeds_of(a, g.seed_level, width * height);
            let others = seeds_of(b, h.seed_level, width * height);
            let s = g.laid(seeds, seeds.len() as int).0;
            let t = h.laid(others, others.len() as int).0;
            &&& same_courses(s, t)
            &&& longest_of(s) == longest_of(t)
            &&& covered_of(s, width) == covered_of(t, width)
        },
{
    let n = a.len() as int;
    assert(seed_target(n) <= n && follow_target(n) <= n);
    lemma_levels_alike(a, b, seed_target(n));
    lemma_levels_alike(a, b, follow_target(n));
    lemma_compare(
        a,
        b,
        level_at(a, follow_target(n)),
        level_at(b, follow_target(n)),
        level_at(a, seed_target(n)),
        level_at(b, seed_target(n)),
    );
    if !is_blank(a, width, height) {
        let g = fresh_ground(a, width, height);
        let h = fresh_ground(b, width, height);
        let cells = width * height;
        assert(cells >= 0) by (nonlinear_arith)
            requires
                cells == width * height,
                width >= 0,
                height >= 0,
        ;
        lemma_seed_order_alike(a, b, g.seed_level, h.seed_level, cells);
        assert(alike(g, h));
        let seeds = seeds_of(a, g.seed_level, cells);
        lemma_laid_alike(g, h, seeds, seeds.len() as int);
        let s = g.laid(seeds, seeds.len() as int).0;
        let t = h.laid(seeds, seeds.len() as int).0;
        lemma_lengths_alike(s, t);
        lemma_coverage_alike(s, t, width);
    }
}

} // verus!
