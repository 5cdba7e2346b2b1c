//! Connected strokes of ink, and how much of the ink they hold.
//!
//! What ambience does not have is extent. A drawn stroke runs for hundreds of
//! pixels; ambient texture is fragments a few pixels long. Continuity measures
//! that directly, by joining ink into connected components and asking how much of
//! it belongs to strokes that are both long and thin.
use vstd::arithmetic::div_mod::{
    lemma_fundamental_div_mod, lemma_fundamental_div_mod_converse,
};
use vstd::prelude::*;
use vstd::set_lib::{lemma_int_range, lemma_len_subset, lemma_set_disjoint_lens, set_int_range};

verus! {

/// A row-major picture and the level from which a pixel counts as ink.
pub struct Page {
    pub image: Seq<u8>,
    pub width: int,
    pub height: int,
    pub threshold: u8,
}

/// The smallest rectangle, sides included, around some pixels.
pub struct Extent {
    pub x0: int,
    pub x1: int,
    pub y0: int,
    pub y1: int,
}

impl Page {
    pub open spec fn is_ink(self, i: int) -> bool {
        0 <= i < self.width * self.height && self.image[i] >= self.threshold
    }

    /// The two pixels are the same, or touch at a side or a corner.
    pub open spec fn touches(self, i: int, j: int) -> bool {
        &&& -1 <= i % self.width - j % self.width <= 1
        &&& -1 <= i / self.width - j / self.width <= 1
    }

    /// Stepping from ink to touching ink never leaves `s`.
    pub open spec fn is_closed(self, s: Set<int>) -> bool {
        forall|i: int, j: int|
            s.contains(i) && self.is_ink(i) && self.is_ink(j) && #[trigger] self.touches(i, j)
                ==> s.contains(j)
    }

    /// Ink `b` can be reached from ink `a` by steps between touching ink pixels: no
    /// set that such steps never leave holds `a` without `b`.
    pub open spec fn joined(self, a: int, b: int) -> bool {
        &&& self.is_ink(a)
        &&& self.is_ink(b)
        &&& forall|s: Set<int>| #[trigger] self.is_closed(s) && s.contains(a) ==> s.contains(b)
    }

    /// All the ink joined to `a`.
    pub open spec fn component(self, a: int) -> Set<int> {
        Set::new(|b: int| self.joined(a, b))
    }

    pub open spec fn bounds(self, s: Set<int>, e: Extent) -> bool {
        forall|i: int| #[trigger]
            s.contains(i) ==> e.x0 <= i % self.width <= e.x1 && e.y0 <= i / self.width <= e.y1
    }

    pub open spec fn is_extent(self, s: Set<int>, e: Extent) -> bool {
        &&& self.bounds(s, e)
        &&& exists|i: int| #[trigger] s.contains(i) && i % self.width == e.x0
        &&& exists|i: int| #[trigger] s.contains(i) && i % self.width == e.x1
        &&& exists|i: int| #[trigger] s.contains(i) && i / self.width == e.y0
        &&& exists|i: int| #[trigger] s.contains(i) && i / self.width == e.y1
    }

    pub open spec fn extent(self, s: Set<int>) -> Extent {
        choose|e: Extent| self.is_extent(s, e)
    }

    /// The connected ink `s` is a stroke: long for the page, thin for its own box,
    /// and going somewhere both in time and in frequency.
    pub open spec fn is_stroke(self, s: Set<int>) -> bool {
        let e = self.extent(s);
        stroke_shape(
            s.len() as int,
            e.x1 - e.x0 + 1,
            e.y1 - e.y0 + 1,
            self.width,
            self.height,
        )
    }

    pub open spec fn ink(self) -> Set<int> {
        Set::new(|i: int| self.is_ink(i))
    }

    pub open spec fn stroke_ink(self) -> Set<int> {
        Set::new(|i: int| self.is_ink(i) && self.is_stroke(self.component(i)))
    }
}

/// `area` pixels of ink in a box `w` by `h` make a stroke on a page `width` by
/// `height`:
/// * the box's diagonal is at least 18% of the page's, so the ink is long;
/// * at most 35% of the box is ink, so it is no blob;
/// * the box's short side is at least 15% of its long side: a held note and a click
///   run along one axis only, something drawn turns;
/// * the area is at most 40 times the box's diagonal: a line, not a mesh.
pub open spec fn stroke_shape(area: int, w: int, h: int, width: int, height: int) -> bool {
    let diagonal_sq = w * w + h * h;
    &&& 100 * 100 * diagonal_sq >= 18 * 18 * (width * width + height * height)
    &&& 100 * area <= 35 * (w * h)
    &&& 100 * (if w < h { w } else { h }) >= 15 * (if w < h { h } else { w })
    &&& area * area <= 40 * 40 * diagonal_sq
}

impl Page {
    /// The ink joined to some pixel is closed, and is in every closed set that holds
    /// the pixel.
    proof fn lemma_component_closed(self, a: int)
        ensures
            self.is_closed(self.component(a)),
            self.is_ink(a) ==> self.component(a).contains(a),
    {
        assert forall|i: int, j: int|
            self.component(a).contains(i) && self.is_ink(i) && self.is_ink(j)
                && #[trigger] self.touches(i, j) implies self.component(a).contains(j) by {
            assert forall|s: Set<int>| #[trigger] self.is_closed(s) && s.contains(a) implies s.contains(
                j,
            ) by {
                assert(s.contains(i));
            }
        }
    }

    /// Being joined is symmetric.
    pub proof fn lemma_joined_symmetric(self, a: int, b: int)
        requires
            self.joined(a, b),
        ensures
            self.joined(b, a),
    {
        assert forall|s: Set<int>| #[trigger] self.is_closed(s) && s.contains(b) implies s.contains(
            a,
        ) by {
            let rest = s.complement();
            assert(self.is_closed(rest)) by {
                assert forall|i: int, j: int|
                    rest.contains(i) && self.is_ink(i) && self.is_ink(j) && #[trigger] self.touches(
                        i,
                        j,
                    ) implies rest.contains(j) by {
                    if s.contains(j) {
                        assert(self.touches(j, i));
                    }
                }
            }
            if !s.contains(a) {
                assert(rest.contains(b));
            }
        }
    }

    /// All the pixels of a component have that same component.
    pub proof fn lemma_component_shared(self, a: int, b: int)
        requires
            self.joined(a, b),
        ensures
            self.component(a) == self.component(b),
    {
        self.lemma_joined_symmetric(a, b);
        assert forall|c: int| self.joined(a, c) implies self.joined(b, c) by {
            assert forall|s: Set<int>| #[trigger]
                self.is_closed(s) && s.contains(b) implies s.contains(c) by {
                assert(s.contains(a));
            }
        }
        assert forall|c: int| self.joined(b, c) implies self.joined(a, c) by {
            assert forall|s: Set<int>| #[trigger]
                self.is_closed(s) && s.contains(a) implies s.contains(c) by {
                assert(s.contains(b));
            }
        }
        assert(self.component(a) =~= self.component(b));
    }

    /// Some pixels have one extent only.
    proof fn lemma_extent_unique(self, s: Set<int>, e: Extent)
        requires
            self.is_extent(s, e),
        ensures
            self.extent(s) == e,
    {
        let f = self.extent(s);
        assert(self.is_extent(s, f));
        let i = choose|i: int| #[trigger] s.contains(i) && i % self.width == e.x0;
        let i = choose|i: int| #[trigger] s.contains(i) && i % self.width == e.x1;
        let i = choose|i: int| #[trigger] s.contains(i) && i / self.width == e.y0;
        let i = choose|i: int| #[trigger] s.contains(i) && i / self.width == e.y1;
        let i = choose|i: int| #[trigger] s.contains(i) && i % self.width == f.x0;
        let i = choose|i: int| #[trigger] s.contains(i) && i % self.width == f.x1;
        let i = choose|i: int| #[trigger] s.contains(i) && i / self.width == f.y0;
        let i = choose|i: int| #[trigger] s.contains(i) && i / self.width == f.y1;
    }

    /// Pixels of the page are finitely many.
    proof fn lemma_on_page(self, s: Set<int>)
        requires
            self.width * self.height >= 0,
            forall|i: int| #[trigger] s.contains(i) ==> 0 <= i < self.width * self.height,
        ensures
            s.finite(),
            s.len() <= self.width * self.height,
    {
        let all = set_int_range(0, self.width * self.height);
        lemma_int_range(0, self.width * self.height);
        assert(s.subset_of(all));
        lemma_len_subset(s, all);
    }
}

/// The pixels marked in `marks`.
pub open spec fn marked(marks: Seq<bool>) -> Set<int> {
    Set::new(|i: int| 0 <= i < marks.len() && marks[i])
}

/// Mark the unmarked ink that touches pixel `i`, and put it on the stack.
fn spread(
    image: &[u8],
    width: usize,
    height: usize,
    threshold: u8,
    i: usize,
    seen: &mut Vec<bool>,
    stack: &mut Vec<usize>,
    Ghost(page): Ghost<Page>,
)
    requires
        page == (Page {
            image: image@,
            width: width as int,
            height: height as int,
            threshold,
        }),
        width > 0,
        width * height <= image.len(),
        i < width * height,
        old(seen).len() == width * height,
        old(stack)@.no_duplicates(),
        forall|k: int| 0 <= k < old(stack).len() ==> #[trigger] old(stack)[k] < width * height
            && old(seen)[old(stack)[k] as int],
    ensures
        final(seen).len() == old(seen).len(),
        forall|j: int|
            0 <= j < width * height ==> #[trigger] final(seen)[j] == (old(seen)[j] || (page.is_ink(j)
                && page.touches(i as int, j))),
        final(stack)@.no_duplicates(),
        forall|k: int| 0 <= k < final(stack).len() ==> #[trigger] final(stack)[k] < width * height
            && final(seen)[final(stack)[k] as int],
        forall|j: usize| #[trigger] final(stack)@.contains(j) <==> old(stack)@.contains(j) || (j
            < width * height && !old(seen)[j as int] && page.is_ink(j as int) && page.touches(
            i as int,
            j as int,
        )),
{
    let x: usize = i % width;
    let y: usize = i / width;
    proof {
        lemma_div_below(i as int, width as int, height as int);
    }
    let x0: usize = if x == 0 { 0 } else { x - 1 };
    let y0: usize = if y == 0 { 0 } else { y - 1 };
    let mut ny: usize = y0;
    while ny < height && ny <= y + 1
        invariant
            page == (Page {
                image: image@,
                width: width as int,
                height: height as int,
                threshold,
            }),
            width > 0,
            width * height <= image.len(),
            i < width * height,
            x == i % width,
            y == i / width,
            x < width,
            y < height,
            x0 == (if x == 0 { 0 } else { x - 1 }),
            y0 == (if y == 0 { 0 } else { y - 1 }),
            y0 <= ny <= height,
            ny <= y + 2,
            old(seen).len() == width * height,
            seen.len() == width * height,
            stack@.no_duplicates(),
            forall|k: int| 0 <= k < stack.len() ==> #[trigger] stack[k] < width * height
                && seen[stack[k] as int],
            forall|j: int|
                0 <= j < width * height ==> #[trigger] seen[j] == (old(seen)[j] || (page.is_ink(j)
                    && page.touches(i as int, j) && j / (width as int) < ny)),
            forall|j: usize| #[trigger] stack@.contains(j) <==> old(stack)@.contains(j) || (j
                < width * height && !old(seen)[j as int] && page.is_ink(j as int) && page.touches(
                i as int,
                j as int,
            ) && j / width < ny),
        decreases height - ny,
    {
        let mut nx: usize = x0;
        while nx < width && nx <= x + 1
            invariant
                page == (Page {
                    image: image@,
                    width: width as int,
                    height: height as int,
                    threshold,
                }),
                width > 0,
                width * height <= image.len(),
                i < width * height,
                x == i % width,
                y == i / width,
                x < width,
                y < height,
                x0 == (if x == 0 { 0 } else { x - 1 }),
                y0 == (if y == 0 { 0 } else { y - 1 }),
                y0 <= ny < height,
                ny <= y + 1,
                x0 <= nx <= width,
                nx <= x + 2,
                old(seen).len() == width * height,
                seen.len() == width * height,
                stack@.no_duplicates(),
                forall|k: int| 0 <= k < stack.len() ==> #[trigger] stack[k] < width * height
                    && seen[stack[k] as int],
                forall|j: int|
                    0 <= j < width * height ==> #[trigger] seen[j] == (old(seen)[j] || (
                    page.is_ink(j) && page.touches(i as int, j) && (j / (width as int) < ny || (j / (
                    width as int) == ny && j % (width as int) < nx)))),
                forall|j: usize| #[trigger] stack@.contains(j) <==> old(stack)@.contains(j) || (j
                    < width * height && !old(seen)[j as int] && page.is_ink(j as int)
                    && page.touches(i as int, j as int) && (j / width < ny || (j / width == ny && j
                    % width < nx))),
            decreases width - nx,
        {
            proof {
                lemma_pixel(nx as int, ny as int, width as int, height as int);
            }
            let j: usize = ny * width + nx;
            let ghost seen0 = seen@;
            let ghost stack0 = stack@;
            proof {
                assert forall|k: int|
                    0 <= k < width * height && k != j && #[trigger] page.touches(
                        i as int,
                        k,
                    ) implies !(k / (width as int) == ny && k % (width as int) == nx) by {
                    lemma_fundamental_div_mod(k, width as int);
                    if k / (width as int) == ny && k % (width as int) == nx {
                        assert(width as int * (k / (width as int)) == ny * width) by (nonlinear_arith)
                            requires
                                k / (width as int) == ny,
                        ;
                    }
                }
            }
            if !seen[j] && image[j] >= threshold {
                seen.set(j, true);
                stack.push(j);
                proof {
                    assert(!stack0.contains(j)) by {
                        if stack0.contains(j) {
                            let k = choose|k: int| 0 <= k < stack0.len() && stack0[k] == j;
                            assert(seen0[stack0[k] as int]);
                        }
                    }
                    assert forall|c: usize| #[trigger] stack@.contains(c) <==> stack0.contains(c) || c
                        == j by {
                        if stack0.contains(c) {
                            let k = choose|k: int| 0 <= k < stack0.len() && stack0[k] == c;
                            assert(stack@[k] == c);
                        }
                        assert(stack@[stack0.len() as int] == j);
                    }
                }
            }
            nx = nx + 1;
        }
        ny = ny + 1;
    }
    proof {
        assert forall|j: int|
            0 <= j < width * height && #[trigger] page.touches(i as int, j) implies j / (
        width as int) < ny by {
            lemma_div_below(j, width as int, height as int);
        }
    }
}

/// The ink of a page, and how much of it belongs to strokes.
#[derive(Clone, Copy, Debug, PartialEq, Eq, Structural)]
pub struct Continuity {
    pub ink_total: usize,
    pub ink_in_strokes: usize,
}

/// The executable form of [`stroke_shape`].
fn has_stroke_shape(area: usize, w: usize, h: usize, width: usize, height: usize) -> (r: bool)
    requires
        0 < w <= width,
        0 < h <= height,
        area <= width * height <= usize::MAX,
    ensures
        r == stroke_shape(area as int, w as int, h as int, width as int, height as int),
{
    proof {
        assert(0 <= w * h <= width * height && 0 <= w * w <= width * width && 0 <= h * h
            <= height * height) by (nonlinear_arith)
            requires
                0 < w <= width,
                0 < h <= height,
        ;
        lemma_squares_fit(width as int, height as int, 0xffff_ffff_ffff_ffff);
        assert(0 <= area * area <= 0xffff_ffff_ffff_ffff * 0xffff_ffff_ffff_ffff)
            by (nonlinear_arith)
            requires
                0 <= area <= 0xffff_ffff_ffff_ffff,
        ;
    }
    let diagonal_sq: u128 = w as u128 * w as u128 + h as u128 * h as u128;
    let page_sq: u128 = width as u128 * width as u128 + height as u128 * height as u128;
    let area_sq: u128 = area as u128 * area as u128;
    let minor: usize = if w < h { w } else { h };
    let major: usize = if w < h { h } else { w };
    // Both squares may fill the type, so that no multiple of them is taken.
    let long: bool = diagonal_sq >= 81 * (page_sq / 2500) + (81 * (page_sq % 2500) + 2499) / 2500;
    let thin: bool = 100 * (area as u128) <= 35 * ((w * h) as u128);
    let turns: bool = 100 * (minor as u128) >= 15 * (major as u128);
    let narrow: bool = area_sq / 1600 < diagonal_sq || (area_sq / 1600 == diagonal_sq && area_sq
        % 1600 == 0);
    proof {
        let d = w * w + h * h;
        let p = width * width + height * height;
        assert(diagonal_sq == d && page_sq == p);
        lemma_long(d, p);
        assert(narrow == (area * area <= 1600 * d));
    }
    long && thin && turns && narrow
}

/// Whether 2500 times `d` is at least 81 times `p`, without taking multiples of them.
proof fn lemma_long(d: int, p: int)
    ensures
        d >= 81 * (p / 2500) + (81 * (p % 2500) + 2499) / 2500 <==> 100 * 100 * d >= 18 * 18 * p,
{
    let q = p / 2500;
    let rest = p % 2500;
    let c = (81 * rest + 2499) / 2500;
    assert(p == 2500 * q + rest);
    assert(81 * rest <= 2500 * c < 81 * rest + 2500);
    assert(100 * 100 * d == 10000 * d && 18 * 18 * p == 324 * p) by (nonlinear_arith);
    if d >= 81 * q + c {
        assert(2500 * d >= 81 * p);
    } else {
        assert(2500 * d < 81 * p);
    }
}

/// The squares of the sides of a picture of at most `most` pixels together are hardly more
/// than the square of `most`.
proof fn lemma_squares_fit(width: int, height: int, most: int)
    requires
        0 < width,
        0 < height,
        width * height <= most,
    ensures
        width * width + height * height <= most * most + 1,
{
    assert((width * width - 1) * (height * height - 1) >= 0) by (nonlinear_arith)
        requires
            width >= 1,
            height >= 1,
    ;
    assert((width * width) * (height * height) == (width * height) * (width * height))
        by (nonlinear_arith);
    assert((width * height) * (width * height) <= most * most) by (nonlinear_arith)
        requires
            0 <= width * height <= most,
    ;
    assert((width * width - 1) * (height * height - 1) == (width * width) * (height * height)
        - width * width - height * height + 1) by (nonlinear_arith);
}

/// One connected component, as the flood fill found it.
struct Blob {
    area: usize,
    w: usize,
    h: usize,
}

/// Mark all the ink joined to the unmarked ink pixel `start`.
fn fill(
    image: &[u8],
    width: usize,
    height: usize,
    threshold: u8,
    start: usize,
    seen: &mut Vec<bool>,
    Ghost(page): Ghost<Page>,
) -> (r: Blob)
    requires
        page == (Page {
            image: image@,
            width: width as int,
            height: height as int,
            threshold,
        }),
        width > 0,
        width * height <= image.len(),
        old(seen).len() == width * height,
        page.is_closed(marked(old(seen)@)),
        page.is_ink(start as int),
        !old(seen)[start as int],
        forall|i: int| 0 <= i < width * height && old(seen)[i] ==> #[trigger] page.is_ink(i),
    ensures
        final(seen).len() == old(seen).len(),
        marked(final(seen)@) == marked(old(seen)@).union(page.component(start as int)),
        marked(old(seen)@).disjoint(page.component(start as int)),
        page.component(start as int).finite(),
        r.area == page.component(start as int).len(),
        0 < r.w <= width,
        0 < r.h <= height,
        r.area <= width * height,
        r.w == page.extent(page.component(start as int)).x1 - page.extent(
            page.component(start as int),
        ).x0 + 1,
        r.h == page.extent(page.component(start as int)).y1 - page.extent(
            page.component(start as int),
        ).y0 + 1,
{
    let ghost whole = page.component(start as int);
    let ghost before = marked(old(seen)@);
    proof {
        lemma_div_below(start as int, width as int, height as int);
        page.lemma_component_closed(start as int);
    }
    let mut stack: Vec<usize> = Vec::new();
    stack.push(start);
    seen.set(start, true);
    assert(stack@[0] == start);
    let mut area: usize = 0;
    let mut x0: usize = start % width;
    let mut x1: usize = start % width;
    let mut y0: usize = start / width;
    let mut y1: usize = start / width;
    // The pixels taken off the stack so far.
    let ghost mut done: Set<int> = Set::empty();
    while stack.len() > 0
        invariant
            page == (Page {
                image: image@,
                width: width as int,
                height: height as int,
                threshold,
            }),
            width > 0,
            width * height <= image.len(),
            seen.len() == width * height,
            before == marked(old(seen)@),
            old(seen).len() == width * height,
            page.is_closed(before),
            page.is_ink(start as int),
            !old(seen)[start as int],
            whole == page.component(start as int),
            page.is_closed(whole),
            forall|i: int| before.contains(i) ==> #[trigger] page.is_ink(i),
            stack@.no_duplicates(),
            forall|k: int| 0 <= k < stack.len() ==> #[trigger] stack[k] < width * height
                && seen[stack[k] as int],
            // What is marked is what was marked before, what is done, and what waits.
            forall|j: usize| #[trigger] stack@.contains(j) ==> !done.contains(j as int) && !before.contains(
                j as int,
            ),
            forall|j: int| #[trigger] done.contains(j) ==> 0 <= j < width * height && seen[j]
                && !before.contains(j),
            forall|j: int|
                0 <= j < width * height && #[trigger] seen[j] ==> before.contains(j) || done.contains(j)
                    || stack@.contains(j as usize),
            forall|j: int| #[trigger] before.contains(j) ==> seen[j],
            seen[start as int],
            // Everything newly marked is joined to the start.
            forall|j: int|
                0 <= j < width * height && #[trigger] seen[j] && !before.contains(j)
                    ==> whole.contains(j),
            // What is done has no unmarked neighbour left.
            forall|i: int, j: int|
                done.contains(i) && page.is_ink(j) && #[trigger] page.touches(i, j) ==> seen[j],
            done.finite(),
            area == done.len(),
            x0 <= x1 < width,
            y0 <= y1 < height,
            page.bounds(
                done,
                (Extent { x0: x0 as int, x1: x1 as int, y0: y0 as int, y1: y1 as int }),
            ),
            done.len() == 0 ==> stack@ == seq![start] && x0 == x1 == start as int % width as int && y0
                == y1 == start as int / width as int,
            done.len() > 0 ==> page.is_extent(
                done,
                (Extent { x0: x0 as int, x1: x1 as int, y0: y0 as int, y1: y1 as int }),
            ),
        decreases width * height - done.len(),
    {
        let ghost stack0 = stack@;
        let ghost seen0 = seen@;
        let ghost done0 = done;
        let i: usize = stack.pop().unwrap();
        proof {
            assert(stack0[stack0.len() - 1] == i);
            assert(stack0.contains(i));
            assert(forall|j: usize| #[trigger]
                stack@.contains(j) ==> stack0.contains(j) && j != i) by {
                assert forall|j: usize| #[trigger] stack@.contains(j) implies stack0.contains(j) && j
                    != i by {
                    let k = choose|k: int| 0 <= k < stack@.len() && stack@[k] == j;
                    assert(stack0[k] == j);
                }
            }
            assert forall|j: usize| stack0.contains(j) && j != i implies #[trigger] stack@.contains(
                j,
            ) by {
                let k = choose|k: int| 0 <= k < stack0.len() && stack0[k] == j;
                assert(stack@[k] == j);
            }
            page.lemma_on_page(done);
            assert(page.is_ink(i as int)) by {
                assert(whole.contains(i as int));
            }
            done = done.insert(i as int);
            page.lemma_on_page(done);
            lemma_div_below(i as int, width as int, height as int);
        }
        let x: usize = i % width;
        let y: usize = i / width;
        area = area + 1;
        if x < x0 {
            x0 = x;
        }
        if x > x1 {
            x1 = x;
        }
        if y < y0 {
            y0 = y;
        }
        if y > y1 {
            y1 = y;
        }
        proof {
            let e = Extent { x0: x0 as int, x1: x1 as int, y0: y0 as int, y1: y1 as int };
            assert(done.contains(i as int));
            assert(forall|j: int| done0.contains(j) ==> done.contains(j));
            assert(page.is_extent(done, e));
        }
        spread(image, width, height, threshold, i, seen, &mut stack, Ghost(page));
        proof {
            assert forall|j: int| 0 <= j < width * height && #[trigger] seen[j] && !before.contains(
                j,
            ) implies whole.contains(j) by {
                if !seen0[j] {
                    assert(page.touches(i as int, j));
                    assert(whole.contains(i as int));
                }
            }
            assert forall|j: usize| #[trigger] stack@.contains(j) implies !done.contains(j as int)
                && !before.contains(j as int) by {}
            assert forall|j: int| 0 <= j < width * height && #[trigger] seen[j] implies before.contains(
                j,
            ) || done.contains(j) || stack@.contains(j as usize) by {
                if seen0[j] {
                    assert(before.contains(j) || done0.contains(j) || stack0.contains(j as usize));
                } else {
                    assert(stack@.contains(j as usize));
                }
            }
        }
    }
    proof {
        assert(stack@.len() == 0);
        assert(!done.is_empty()) by {
            assert(done.contains(start as int) || stack@.contains(start));
        }
        // Nothing that is done touches ink marked before, so `done` is closed.
        assert(page.is_closed(done)) by {
            assert forall|i: int, j: int|
                done.contains(i) && page.is_ink(i) && page.is_ink(j) && #[trigger] page.touches(
                    i,
                    j,
                ) implies done.contains(j) by {
                if before.contains(j) {
                    assert(page.touches(j, i));
                }
                assert(seen[j]);
            }
        }
        assert(done.contains(start as int)) by {
            assert(seen[start as int]);
        }
        assert(done =~= whole);
        assert(marked(seen@) =~= before.union(whole));
        page.lemma_on_page(done);
        page.lemma_extent_unique(
            done,
            (Extent { x0: x0 as int, x1: x1 as int, y0: y0 as int, y1: y1 as int }),
        );
    }
    Blob { area, w: x1 - x0 + 1, h: y1 - y0 + 1 }
}

/// How much ink there is, and how much of it belongs to long, thin, connected
/// strokes.
///
/// Flood-fills the ink into 8-connected components and keeps those that are both
/// long, measured by the diagonal of the bounding box, and thin, meaning that the
/// component covers only a small part of that box.
pub fn continuity(image: &[u8], width: usize, height: usize, ink_threshold: u8) -> (r: Continuity)
    requires
        width * height <= image.len(),
    ensures
        ({
            let page = Page {
                image: image@,
                width: width as int,
                height: height as int,
                threshold: ink_threshold,
            };
            &&& page.ink().finite()
            &&& r.ink_total == page.ink().len()
            &&& r.ink_in_strokes == page.stroke_ink().len()
        }),
        r.ink_in_strokes <= r.ink_total <= width * height,
{
    let ghost page = Page {
        image: image@,
        width: width as int,
        height: height as int,
        threshold: ink_threshold,
    };
    let mut ink_total: usize = 0;
    let mut ink_in_strokes: usize = 0;
    let mut seen: Vec<bool> = vec![false; width * height];
    let mut start: usize = 0;
    let ghost mut strokes: Set<int> = Set::empty();
    assert(marked(seen@) =~= Set::empty());
    while start < width * height
        invariant
            page == (Page {
                image: image@,
                width: width as int,
                height: height as int,
                threshold: ink_threshold,
            }),
            width * height <= image.len(),
                start <= width * height,
            seen.len() == width * height,
            page.is_closed(marked(seen@)),
            forall|i: int| 0 <= i < start && page.is_ink(i) ==> #[trigger] seen[i],
            forall|i: int| marked(seen@).contains(i) ==> #[trigger] page.is_ink(i),
            strokes == marked(seen@).intersect(page.stroke_ink()),
            marked(seen@).finite(),
            ink_total == marked(seen@).len(),
            strokes.finite(),
            ink_in_strokes == strokes.len(),
            ink_total <= width * height,
            ink_in_strokes <= ink_total,
        decreases width * height - start,
    {
        if !seen[start] && image[start] >= ink_threshold {
            assert(width > 0) by (nonlinear_arith)
                requires
                    width * height > 0,
                    width >= 0,
            ;
            let ghost seen0 = marked(seen@);
            let ghost whole = page.component(start as int);
            assert(page.is_ink(start as int));
            assert forall|i: int| 0 <= i < width * height && seen[i] implies #[trigger] page.is_ink(
                i,
            ) by {
                assert(seen0.contains(i));
            }
            let blob = fill(image, width, height, ink_threshold, start, &mut seen, Ghost(page));
            proof {
                page.lemma_component_closed(start as int);
                lemma_set_disjoint_lens(seen0, whole);
                assert(seen0 + whole == marked(seen@));
                page.lemma_on_page(marked(seen@));
                assert(page.is_closed(marked(seen@)));
                assert forall|i: int| 0 <= i < start + 1 && page.is_ink(i) implies #[trigger] seen[i] by {
                    if i < start {
                        assert(seen0.contains(i));
                        assert(marked(seen@).contains(i));
                    } else {
                        assert(whole.contains(start as int));
                        assert(marked(seen@).contains(i));
                    }
                }
                assert forall|i: int| whole.contains(i) implies page.component(i) == whole by {
                    page.lemma_component_shared(start as int, i);
                }
                let grown = marked(seen@).intersect(page.stroke_ink());
                if page.is_stroke(whole) {
                    assert(grown =~= strokes + whole);
                    lemma_set_disjoint_lens(strokes, whole);
                } else {
                    assert(grown =~= strokes);
                }
                strokes = grown;
                lemma_len_subset(strokes, marked(seen@));
            }
            ink_total = ink_total + blob.area;
            if has_stroke_shape(blob.area, blob.w, blob.h, width, height) {
                ink_in_strokes = ink_in_strokes + blob.area;
            }
        } else {
            assert forall|i: int| 0 <= i < start + 1 && page.is_ink(i) implies #[trigger] seen[i] by {}
        }
        start = start + 1;
    }
    proof {
        assert(marked(seen@) =~= page.ink());
        assert(strokes =~= page.stroke_ink());
    }
    Continuity { ink_total, ink_in_strokes }
}

proof fn lemma_pixel(x: int, y: int, width: int, height: int)
    requires
        0 <= x < width,
        0 <= y < height,
    ensures
        0 <= y * width + x < width * height,
        (y * width + x) % width == x,
        (y * width + x) / width == y,
{
    lemma_fundamental_div_mod_converse(y * width + x, width, y, x);
    assert(y * width + x < width * height) by (nonlinear_arith)
        requires
            0 <= x < width,
            0 <= y <= height - 1,
    ;
    assert(y * width >= 0) by (nonlinear_arith)
        requires
            y >= 0,
            width >= 0,
    ;
}

proof fn lemma_div_below(i: int, width: int, height: int)
    requires
        0 <= i < width * height,
        width > 0,
    ensures
        0 <= i / width < height,
        0 <= i % width < width,
{
    lemma_fundamental_div_mod(i, width);
    let q = i / width;
    assert(q < height) by (nonlinear_arith)
        requires
            width * q <= i,
            i < width * height,
            width > 0,
    ;
}

/// What makes a stroke: a filled box is none, however large; nor is a line along one axis of
/// seven pixels or more, which is a held note or a click. A line a pixel wide from one corner
/// of its box to the other, three pixels a side or more, is one where it is long enough for
/// the page. And less ink in the same box, or a smaller page, takes nothing from a stroke.
pub proof fn law_what_makes_a_stroke(area: int, w: int, h: int, width: int, height: int)
    requires
        0 < w,
        0 < h,
        0 < width,
        0 < height,
        0 <= area,
    ensures
        !stroke_shape(w * h, w, h, width, height),
        w >= 7 ==> !stroke_shape(area, w, 1, width, height),
        h >= 7 ==> !stroke_shape(area, 1, h, width, height),
        w >= 3 ==> (stroke_shape(w, w, w, width, height) <==> 2_500 * (w * w) * 2 >= 81 * (width
            * width + height * height)),
        forall|less: int|
            0 <= less <= area && #[trigger] stroke_shape(area, w, h, width, height)
                ==> #[trigger] stroke_shape(less, w, h, width, height),
        forall|wide: int, tall: int|
            width <= wide && height <= tall && #[trigger] stroke_shape(area, w, h, wide, tall)
                ==> stroke_shape(area, w, h, width, height),
{
    assert(w * h > 0) by (nonlinear_arith)
        requires
            w > 0,
            h > 0,
    ;
    assert(100 * 100 * (w * w + w * w) == 10_000 * (2 * (w * w)) && 18 * 18 * (width * width + height
        * height) == 324 * (width * width + height * height) && 2_500 * (w * w) * 2 == 5_000 * (w
        * w)) by (nonlinear_arith);
    if w >= 3 {
        assert(100 * w <= 35 * (w * w)) by (nonlinear_arith)
            requires
                w >= 3,
        ;
        assert(w * w <= 40 * 40 * (w * w + w * w)) by (nonlinear_arith);
    }
    assert forall|less: int|
        0 <= less <= area && #[trigger] stroke_shape(
            area,
            w,
            h,
            width,
            height,
        ) implies #[trigger] stroke_shape(less, w, h, width, height) by {
        assert(less * less <= area * area) by (nonlinear_arith)
            requires
                0 <= less <= area,
        ;
    }
    assert forall|wide: int, tall: int|
        width <= wide && height <= tall && #[trigger] stroke_shape(
            area,
            w,
            h,
            wide,
            tall,
        ) implies stroke_shape(area, w, h, width, height) by {
        assert(width * width + height * height <= wide * wide + tall * tall) by (nonlinear_arith)
            requires
                0 < width <= wide,
                0 < height <= tall,
        ;
        let a = width * width + height * height;
        let b = wide * wide + tall * tall;
        let d = w * w + h * h;
        assert(18 * 18 * a <= 18 * 18 * b) by (nonlinear_arith)
            requires
                a <= b,
        ;
    }
}

} // verus!
