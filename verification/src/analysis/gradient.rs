//! Edges of a picture: their strength, their direction, and how linear they are
//! locally.
use crate::arith::{
    grid_sum, is_root, isqrt, lemma_grid_sum_bound, lemma_row_sum_bound, root, row_sum,
};
use vstd::prelude::*;

verus! {

/// Number of orientation buckets. Gradient orientation is modulo 180 degrees, since
/// a line has no direction.
pub const ORIENTATION_BUCKETS: usize = 12;

/// Side of the neighbourhood coherence is measured over.
///
/// Coherence must be local. Accumulating one structure tensor across the whole region
/// asks whether the region has a single dominant orientation, which line art answers
/// with a resounding no. Asking whether each small neighbourhood is locally linear is
/// the question that separates strokes from mush.
pub const COHERENCE_CELL: usize = 8;

/// Gradient magnitudes below this are quantization noise, not an edge.
pub const EDGE_THRESHOLD: i64 = 12;

/// Everything from this level on counts as ink.
pub const INK_THRESHOLD: u8 = 96;

pub open spec fn pixel(image: Seq<u8>, width: int, x: int, y: int) -> int {
    image[y * width + x] as int
}

/// The Sobel derivative along time.
pub open spec fn gx(image: Seq<u8>, width: int, x: int, y: int) -> int {
    (pixel(image, width, x + 1, y - 1) + 2 * pixel(image, width, x + 1, y) + pixel(
        image,
        width,
        x + 1,
        y + 1,
    )) - (pixel(image, width, x - 1, y - 1) + 2 * pixel(image, width, x - 1, y) + pixel(
        image,
        width,
        x - 1,
        y + 1,
    ))
}

/// The Sobel derivative along frequency.
pub open spec fn gy(image: Seq<u8>, width: int, x: int, y: int) -> int {
    (pixel(image, width, x - 1, y + 1) + 2 * pixel(image, width, x, y + 1) + pixel(
        image,
        width,
        x + 1,
        y + 1,
    )) - (pixel(image, width, x - 1, y - 1) + 2 * pixel(image, width, x, y - 1) + pixel(
        image,
        width,
        x + 1,
        y - 1,
    ))
}

/// The square of the gradient's magnitude.
pub open spec fn strength(image: Seq<u8>, width: int, x: int, y: int) -> int {
    gx(image, width, x, y) * gx(image, width, x, y) + gy(image, width, x, y) * gy(
        image,
        width,
        x,
        y,
    )
}

pub open spec fn is_edge(image: Seq<u8>, width: int, x: int, y: int) -> bool {
    strength(image, width, x, y) >= EDGE_THRESHOLD * EDGE_THRESHOLD
}

/// The gradient's magnitude, in thousandths.
pub open spec fn magnitude(image: Seq<u8>, width: int, x: int, y: int) -> int {
    root(strength(image, width, x, y) * 1_000_000)
}

/// The sine of `k` times 15 degrees, in billionths, for `k` from 0 to 12.
pub open spec fn sine(k: int) -> int {
    if k > 6 {
        sine_quarter(12 - k)
    } else {
        sine_quarter(k)
    }
}

/// The cosine of `k` times 15 degrees, in billionths, for `k` from 0 to 12.
pub open spec fn cosine(k: int) -> int {
    if k > 6 {
        -sine_quarter(k - 6)
    } else {
        sine_quarter(6 - k)
    }
}

pub open spec fn sine_quarter(k: int) -> int {
    if k <= 0 {
        0
    } else if k == 1 {
        258_819_045
    } else if k == 2 {
        500_000_000
    } else if k == 3 {
        707_106_781
    } else if k == 4 {
        866_025_404
    } else if k == 5 {
        965_925_826
    } else {
        1_000_000_000
    }
}

/// The direction (`gx`, `gy`), in the upper half plane, lies at or past `k` times 15
/// degrees.
pub open spec fn at_or_past(gx: int, gy: int, k: int) -> bool {
    gx * sine(k) <= gy * cosine(k)
}

/// The bucket of a direction in the upper half plane that lies at or past the lower
/// end of bucket `k - 1`.
pub open spec fn sector_from(gx: int, gy: int, k: int) -> int
    decreases 12 - k,
{
    if k >= 12 || !at_or_past(gx, gy, k) {
        k - 1
    } else {
        sector_from(gx, gy, k + 1)
    }
}

/// The orientation bucket of a gradient, opposite directions taken as one. A gradient
/// due left lies at the upper end of the last bucket.
pub open spec fn orientation(gx: int, gy: int) -> int {
    if gy == 0 {
        if gx > 0 {
            0
        } else {
            11
        }
    } else if gy > 0 {
        sector_from(gx, gy, 1)
    } else {
        sector_from(-gx, -gy, 1)
    }
}

pub open spec fn edge_term(image: Seq<u8>, width: int) -> spec_fn(int, int) -> int {
    |x: int, y: int|
        if is_edge(image, width, x, y) {
            1
        } else {
            0
        }
}

pub open spec fn bright_term(image: Seq<u8>, width: int) -> spec_fn(int, int) -> int {
    |x: int, y: int|
        if pixel(image, width, x, y) >= INK_THRESHOLD {
            1
        } else {
            0
        }
}

pub open spec fn orientation_term(image: Seq<u8>, width: int, bucket: int) -> spec_fn(
    int,
    int,
) -> int {
    |x: int, y: int|
        if is_edge(image, width, x, y) && orientation(
            gx(image, width, x, y),
            gy(image, width, x, y),
        ) == bucket {
            magnitude(image, width, x, y)
        } else {
            0
        }
}

pub open spec fn xx_term(image: Seq<u8>, width: int) -> spec_fn(int, int) -> int {
    |x: int, y: int|
        if is_edge(image, width, x, y) {
            gx(image, width, x, y) * gx(image, width, x, y)
        } else {
            0
        }
}

pub open spec fn yy_term(image: Seq<u8>, width: int) -> spec_fn(int, int) -> int {
    |x: int, y: int|
        if is_edge(image, width, x, y) {
            gy(image, width, x, y) * gy(image, width, x, y)
        } else {
            0
        }
}

pub open spec fn xy_term(image: Seq<u8>, width: int) -> spec_fn(int, int) -> int {
    |x: int, y: int|
        if is_edge(image, width, x, y) {
            gx(image, width, x, y) * gy(image, width, x, y)
        } else {
            0
        }
}

/// The sum of `f` over the interior pixels of coherence cell (`cx`, `cy`).
pub open spec fn cell_sum(
    f: spec_fn(int, int) -> int,
    width: int,
    height: int,
    cx: int,
    cy: int,
) -> int {
    grid_sum(
        f,
        cell_start(cx),
        cell_end(cx, width),
        cell_start(cy),
        cell_end(cy, height),
    )
}

pub open spec fn cell_start(c: int) -> int {
    1 + c * COHERENCE_CELL
}

pub open spec fn cell_end(c: int, size: int) -> int {
    if cell_start(c) + COHERENCE_CELL < size - 1 {
        cell_start(c) + COHERENCE_CELL
    } else {
        size - 1
    }
}

/// How many cells the interior of a side of `size` pixels is cut into.
pub open spec fn cells(size: int) -> int {
    (size - 2 + COHERENCE_CELL - 1) / (COHERENCE_CELL as int)
}

/// The edge energy of a cell: the trace of its structure tensor.
pub open spec fn trace_term(image: Seq<u8>, width: int, height: int) -> spec_fn(int, int) -> int {
    |cx: int, cy: int|
        cell_sum(xx_term(image, width), width, height, cx, cy) + cell_sum(
            yy_term(image, width),
            width,
            height,
            cx,
            cy,
        )
}

/// The part of a cell's edge energy that points one way: the difference of the
/// eigenvalues of its structure tensor, in thousandths.
pub open spec fn linear_term(image: Seq<u8>, width: int, height: int) -> spec_fn(int, int) -> int {
    |cx: int, cy: int|
        {
            let diff = cell_sum(xx_term(image, width), width, height, cx, cy) - cell_sum(
                yy_term(image, width),
                width,
                height,
                cx,
                cy,
            );
            let xy = cell_sum(xy_term(image, width), width, height, cx, cy);
            root((diff * diff + 4 * (xy * xy)) * 1_000_000)
        }
}

/// What one raster pass over the interior of a picture counts.
pub struct EdgeCensus {
    pub edge_pixels: usize,
    pub bright_pixels: usize,
    /// Edge magnitude in each orientation bucket, in thousandths.
    pub orientations: [u128; 12],
}

/// The energy of a picture's edges, summed over its coherence cells.
pub struct CellEnergy {
    /// All of it.
    pub trace: u128,
    /// The part that points one way within its cell, in thousandths.
    pub linear: u128,
}

proof fn lemma_gradient_bound(image: Seq<u8>, width: int, x: int, y: int)
    ensures
        -1020 <= gx(image, width, x, y) <= 1020,
        -1020 <= gy(image, width, x, y) <= 1020,
        0 <= gx(image, width, x, y) * gx(image, width, x, y) <= 1_040_400,
        0 <= gy(image, width, x, y) * gy(image, width, x, y) <= 1_040_400,
        -1_040_400 <= gx(image, width, x, y) * gy(image, width, x, y) <= 1_040_400,
{
    let a = gx(image, width, x, y);
    let b = gy(image, width, x, y);
    assert(-1020 <= a <= 1020);
    assert(-1020 <= b <= 1020);
    lemma_product_bound(a, a);
    lemma_product_bound(b, b);
    lemma_product_bound(a, b);
    assert(a * a >= 0) by (nonlinear_arith);
    assert(b * b >= 0) by (nonlinear_arith);
}

proof fn lemma_product_bound(a: int, b: int)
    requires
        -1020 <= a <= 1020,
        -1020 <= b <= 1020,
    ensures
        -1_040_400 <= a * b <= 1_040_400,
{
    assert(-1_040_400 <= a * b <= 1_040_400) by (nonlinear_arith)
        requires
            -1020 <= a <= 1020,
            -1020 <= b <= 1020,
    ;
}

proof fn lemma_interior(image: Seq<u8>, width: int, height: int, x: int, y: int)
    requires
        1 <= x < width - 1,
        1 <= y < height - 1,
        width * height <= image.len(),
    ensures
        0 <= (y - 1) * width,
        (y + 1) * width + x + 1 < image.len(),
        (y - 1) * width == y * width - width,
        (y + 1) * width == y * width + width,
{
    assert(0 <= (y - 1) * width) by (nonlinear_arith)
        requires
            1 <= y,
            width >= 0,
    ;
    assert((y + 1) * width + width <= width * height) by (nonlinear_arith)
        requires
            y + 2 <= height,
            width >= 0,
    ;
    assert((y - 1) * width == y * width - width) by (nonlinear_arith);
    assert((y + 1) * width == y * width + width) by (nonlinear_arith);
}

/// The Sobel gradient at an interior pixel.
fn gradient(image: &[u8], width: usize, height: usize, x: usize, y: usize) -> (r: (i64, i64))
    requires
        1 <= x < width - 1,
        1 <= y < height - 1,
        width * height <= image.len(),
    ensures
        r.0 == gx(image@, width as int, x as int, y as int),
        r.1 == gy(image@, width as int, x as int, y as int),
        -1020 <= r.0 <= 1020,
        -1020 <= r.1 <= 1020,
{
    proof {
        lemma_interior(image@, width as int, height as int, x as int, y as int);
    }
    let mid: usize = y * width + x;
    let up: usize = mid - width;
    let down: usize = mid + width;
    let a: i64 = image[up - 1] as i64;
    let b: i64 = image[up] as i64;
    let c: i64 = image[up + 1] as i64;
    let d: i64 = image[mid - 1] as i64;
    let e: i64 = image[mid + 1] as i64;
    let f: i64 = image[down - 1] as i64;
    let g: i64 = image[down] as i64;
    let h: i64 = image[down + 1] as i64;
    ((c + 2 * e + h) - (a + 2 * d + f), (f + 2 * g + h) - (a + 2 * b + c))
}

fn sine_of(k: usize) -> (r: i64)
    ensures
        r == sine_quarter(k as int),
        0 <= r <= 1_000_000_000,
{
    if k == 0 {
        0
    } else if k == 1 {
        258_819_045
    } else if k == 2 {
        500_000_000
    } else if k == 3 {
        707_106_781
    } else if k == 4 {
        866_025_404
    } else if k == 5 {
        965_925_826
    } else {
        1_000_000_000
    }
}

/// The orientation bucket of a gradient.
pub fn orientation_bucket(dx: i64, dy: i64) -> (r: usize)
    requires
        -1020 <= dx <= 1020,
        -1020 <= dy <= 1020,
    ensures
        r == orientation(dx as int, dy as int),
        r < ORIENTATION_BUCKETS,
{
    if dy == 0 {
        return if dx > 0 { 0 } else { 11 };
    }
    let ux: i64 = if dy > 0 { dx } else { -dx };
    let uy: i64 = if dy > 0 { dy } else { -dy };
    let mut k: usize = 1;
    while k < 12
        invariant_except_break
            1 <= k <= 12,
            -1020 <= ux <= 1020,
            0 < uy <= 1020,
            sector_from(ux as int, uy as int, 1) == sector_from(ux as int, uy as int, k as int),
        ensures
            1 <= k <= 12,
            sector_from(ux as int, uy as int, 1) == k - 1,
        decreases 12 - k,
    {
        let s: i64 = if k > 6 { sine_of(12 - k) } else { sine_of(k) };
        let c: i64 = if k > 6 { -sine_of(k - 6) } else { sine_of(6 - k) };
        proof {
            lemma_scaled_bound(ux as int, s as int);
            lemma_scaled_bound(uy as int, c as int);
        }
        if ux * s > uy * c {
            break;
        }
        k = k + 1;
    }
    k - 1
}

proof fn lemma_scaled_bound(a: int, s: int)
    requires
        -1020 <= a <= 1020,
        -1_000_000_000 <= s <= 1_000_000_000,
    ensures
        -1_020_000_000_000 <= a * s <= 1_020_000_000_000,
{
    assert(-1_020_000_000_000 <= a * s <= 1_020_000_000_000) by (nonlinear_arith)
        requires
            -1020 <= a <= 1020,
            -1_000_000_000 <= s <= 1_000_000_000,
    ;
}

/// The gradient's magnitude in thousandths, from its squared strength.
fn magnitude_of(squared: i64) -> (r: u64)
    requires
        0 <= squared <= 2_080_800,
    ensures
        r == root(squared * 1_000_000),
        r <= 1_500_000,
{
    let r: u64 = isqrt((squared as u128) * 1_000_000);
    assert(r <= 1_500_000) by (nonlinear_arith)
        requires
            r * r <= squared * 1_000_000,
            squared <= 2_080_800,
            r >= 0,
    ;
    r
}

/// Count the edges and the ink of a picture's interior, and weigh the edges by
/// direction.
pub fn census(image: &[u8], width: usize, height: usize) -> (r: EdgeCensus)
    requires
        width >= 3,
        height >= 3,
        width * height <= image.len(),
    ensures
        r.edge_pixels == grid_sum(edge_term(image@, width as int), 1, width - 1, 1, height - 1),
        r.bright_pixels == grid_sum(bright_term(image@, width as int), 1, width - 1, 1, height - 1),
        forall|b: int|
            0 <= b < 12 ==> #[trigger] r.orientations[b] == grid_sum(
                orientation_term(image@, width as int, b),
                1,
                width - 1,
                1,
                height - 1,
            ),
        r.edge_pixels <= (width - 2) * (height - 2),
        r.bright_pixels <= (width - 2) * (height - 2),
        forall|b: int|
            0 <= b < 12 ==> #[trigger] r.orientations[b] <= 1_500_000 * ((width - 2) * (height - 2)),
{
    let ghost w = width as int;
    let ghost edges = edge_term(image@, w);
    let ghost brights = bright_term(image@, w);
    proof {
        assert((width - 2) * (height - 2) <= width * height) by (nonlinear_arith)
            requires
                width >= 3,
                height >= 3,
        ;
    }
    let mut edge_pixels: usize = 0;
    let mut bright_pixels: usize = 0;
    let mut orientations: [u128; 12] = [0u128; 12];
    let mut y: usize = 1;
    while y < height - 1
        invariant
            width >= 3,
            height >= 3,
            width * height <= image.len(),
            (width - 2) * (height - 2) <= width * height,
            w == width,
            edges == edge_term(image@, w),
            brights == bright_term(image@, w),
            1 <= y <= height - 1,
            edge_pixels == grid_sum(edges, 1, width - 1, 1, y as int),
            bright_pixels == grid_sum(brights, 1, width - 1, 1, y as int),
            forall|b: int|
                0 <= b < 12 ==> #[trigger] orientations[b] == grid_sum(
                    orientation_term(image@, w, b),
                    1,
                    width - 1,
                    1,
                    y as int,
                ),
        decreases height - y,
    {
        let mut x: usize = 1;
        while x < width - 1
            invariant
                width >= 3,
                height >= 3,
                width * height <= image.len(),
                (width - 2) * (height - 2) <= width * height,
                w == width,
                edges == edge_term(image@, w),
                brights == bright_term(image@, w),
                1 <= y < height - 1,
                1 <= x <= width - 1,
                edge_pixels == grid_sum(edges, 1, width - 1, 1, y as int) + row_sum(
                    edges,
                    1,
                    x as int,
                    y as int,
                ),
                bright_pixels == grid_sum(brights, 1, width - 1, 1, y as int) + row_sum(
                    brights,
                    1,
                    x as int,
                    y as int,
                ),
                forall|b: int|
                    0 <= b < 12 ==> #[trigger] orientations[b] == grid_sum(
                        orientation_term(image@, w, b),
                        1,
                        width - 1,
                        1,
                        y as int,
                    ) + row_sum(orientation_term(image@, w, b), 1, x as int, y as int),
            decreases width - x,
        {
            proof {
                lemma_interior(image@, w, height as int, x as int, y as int);
                lemma_gradient_bound(image@, w, x as int, y as int);
                assert((w - 2) * (y - 1) + (x - 1) < (w - 2) * (height - 2)) by (nonlinear_arith)
                    requires
                        y - 1 <= height - 3,
                        x - 1 < w - 2,
                ;
                lemma_grid_sum_bound(edges, 1, w - 1, 1, y as int, 0, 1);
                lemma_row_sum_bound(edges, 1, x as int, y as int, 0, 1);
                lemma_grid_sum_bound(brights, 1, w - 1, 1, y as int, 0, 1);
                lemma_row_sum_bound(brights, 1, x as int, y as int, 0, 1);
            }
            let (dx, dy) = gradient(image, width, height, x, y);
            let squared: i64 = dx * dx + dy * dy;
            if image[y * width + x] >= INK_THRESHOLD {
                bright_pixels = bright_pixels + 1;
            }
            if squared >= EDGE_THRESHOLD * EDGE_THRESHOLD {
                edge_pixels = edge_pixels + 1;
                let bucket: usize = orientation_bucket(dx, dy);
                let weight: u64 = magnitude_of(squared);
                proof {
                    lemma_orientation_sums(image@, w, bucket as int, x as int, y as int);
                    assert(1_500_000 * ((w - 2) * (y - 1)) + 1_500_000 * (x - 1) <= 1_500_000
                        * 0xffff_ffff_ffff_ffff) by (nonlinear_arith)
                        requires
                            (w - 2) * (y - 1) + (x - 1) <= 0xffff_ffff_ffff_ffff,
                    ;
                }
                orientations[bucket] = orientations[bucket] + weight as u128;
            }
            x = x + 1;
        }
        y = y + 1;
    }
    proof {
        lemma_grid_sum_bound(edges, 1, w - 1, 1, height - 1, 0, 1);
        lemma_grid_sum_bound(brights, 1, w - 1, 1, height - 1, 0, 1);
        assert forall|b: int| 0 <= b < 12 implies #[trigger] orientations[b] <= 1_500_000 * ((width
            - 2) * (height - 2)) by {
            lemma_orientation_sums(image@, w, b, 1, height - 1);
        }
    }
    EdgeCensus { edge_pixels, bright_pixels, orientations }
}

proof fn lemma_magnitude_bound(image: Seq<u8>, width: int, x: int, y: int)
    ensures
        0 <= magnitude(image, width, x, y) <= 1_500_000,
{
    lemma_gradient_bound(image, width, x, y);
    let n = strength(image, width, x, y) * 1_000_000;
    assert(exists|r: int| is_root(n, r)) by {
        lemma_root_exists(n);
    }
    let r = root(n);
    assert(is_root(n, r));
    assert(r <= 1_500_000) by (nonlinear_arith)
        requires
            r * r <= n,
            n <= 2_080_800 * 1_000_000,
            r >= 0,
    ;
}

proof fn lemma_root_exists(n: int)
    requires
        n >= 0,
    ensures
        exists|r: int| is_root(n, r),
    decreases n,
{
    if n == 0 {
        assert(is_root(0, 0));
    } else {
        lemma_root_exists(n - 1);
        let m = n - 1;
        let r = choose|r: int| is_root(m, r);
        if n < (r + 1) * (r + 1) {
            assert(is_root(n, r));
        } else {
            assert((r + 1) * (r + 1) < (r + 2) * (r + 2)) by (nonlinear_arith)
                requires
                    r >= 0,
            ;
            assert(is_root(n, r + 1));
        }
    }
}

proof fn lemma_orientation_sums(image: Seq<u8>, width: int, b: int, x: int, y: int)
    requires
        width >= 3,
        x >= 1,
        y >= 1,
    ensures
        0 <= grid_sum(orientation_term(image, width, b), 1, width - 1, 1, y) <= 1_500_000 * ((width
            - 2) * (y - 1)),
        0 <= row_sum(orientation_term(image, width, b), 1, x, y) <= 1_500_000 * (x - 1),
{
    let f = orientation_term(image, width, b);
    assert forall|u: int, v: int| 0 <= #[trigger] f(u, v) <= 1_500_000 by {
        lemma_magnitude_bound(image, width, u, v);
    }
    lemma_grid_sum_bound(f, 1, width - 1, 1, y, 0, 1_500_000);
    lemma_row_sum_bound(f, 1, x, y, 0, 1_500_000);
}

/// The structure tensor of one coherence cell, as its xx, yy and xy components.
struct Tensor {
    xx: i64,
    yy: i64,
    xy: i64,
}

proof fn lemma_term_bounds(image: Seq<u8>, width: int, x0: int, x1: int, y0: int, y1: int, y: int)
    requires
        x0 <= x1 <= x0 + 8,
        y0 <= y1 <= y0 + 8,
    ensures
        0 <= grid_sum(xx_term(image, width), x0, x1, y0, y1) <= 1_040_400 * 64,
        0 <= grid_sum(yy_term(image, width), x0, x1, y0, y1) <= 1_040_400 * 64,
        -1_040_400 * 64 <= grid_sum(xy_term(image, width), x0, x1, y0, y1) <= 1_040_400 * 64,
        0 <= row_sum(xx_term(image, width), x0, x1, y) <= 1_040_400 * 8,
        0 <= row_sum(yy_term(image, width), x0, x1, y) <= 1_040_400 * 8,
        -1_040_400 * 8 <= row_sum(xy_term(image, width), x0, x1, y) <= 1_040_400 * 8,
{
    let a = xx_term(image, width);
    let b = yy_term(image, width);
    let c = xy_term(image, width);
    assert forall|u: int, v: int| 0 <= #[trigger] a(u, v) <= 1_040_400 by {
        lemma_gradient_bound(image, width, u, v);
    }
    assert forall|u: int, v: int| 0 <= #[trigger] b(u, v) <= 1_040_400 by {
        lemma_gradient_bound(image, width, u, v);
    }
    assert forall|u: int, v: int| -1_040_400 <= #[trigger] c(u, v) <= 1_040_400 by {
        lemma_gradient_bound(image, width, u, v);
    }
    lemma_grid_sum_bound(a, x0, x1, y0, y1, 0, 1_040_400);
    lemma_grid_sum_bound(b, x0, x1, y0, y1, 0, 1_040_400);
    lemma_grid_sum_bound(c, x0, x1, y0, y1, -1_040_400, 1_040_400);
    lemma_row_sum_bound(a, x0, x1, y, 0, 1_040_400);
    lemma_row_sum_bound(b, x0, x1, y, 0, 1_040_400);
    lemma_row_sum_bound(c, x0, x1, y, -1_040_400, 1_040_400);
    assert((x1 - x0) * (y1 - y0) <= 64) by (nonlinear_arith)
        requires
            0 <= x1 - x0 <= 8,
            0 <= y1 - y0 <= 8,
    ;
}

fn cell_tensor(image: &[u8], width: usize, height: usize, cx: usize, cy: usize) -> (r: Tensor)
    requires
        width >= 3,
        height >= 3,
        width * height <= image.len(),
        cell_start(cx as int) < width - 1,
        cell_start(cy as int) < height - 1,
    ensures
        r.xx == cell_sum(xx_term(image@, width as int), width as int, height as int, cx as int, cy as int),
        r.yy == cell_sum(yy_term(image@, width as int), width as int, height as int, cx as int, cy as int),
        r.xy == cell_sum(xy_term(image@, width as int), width as int, height as int, cx as int, cy as int),
        0 <= r.xx <= 1_040_400 * 64,
        0 <= r.yy <= 1_040_400 * 64,
        -1_040_400 * 64 <= r.xy <= 1_040_400 * 64,
{
    let ghost w = width as int;
    let ghost fx = xx_term(image@, w);
    let ghost fy = yy_term(image@, w);
    let ghost fc = xy_term(image@, w);
    let x0: usize = 1 + cx * COHERENCE_CELL;
    let y0: usize = 1 + cy * COHERENCE_CELL;
    let x1: usize = if width - 1 - x0 > COHERENCE_CELL { x0 + COHERENCE_CELL } else { width - 1 };
    let y1: usize = if height - 1 - y0 > COHERENCE_CELL { y0 + COHERENCE_CELL } else { height - 1 };
    assert(x1 == cell_end(cx as int, w));
    assert(y1 == cell_end(cy as int, height as int));
    let mut t = Tensor { xx: 0, yy: 0, xy: 0 };
    let mut y: usize = y0;
    while y < y1
        invariant
            width * height <= image.len(),
            w == width,
            fx == xx_term(image@, w),
            fy == yy_term(image@, w),
            fc == xy_term(image@, w),
            1 <= x0 <= x1 <= width - 1,
            x1 <= x0 + 8,
            1 <= y0 <= y <= y1 <= height - 1,
            y1 <= y0 + 8,
            t.xx == grid_sum(fx, x0 as int, x1 as int, y0 as int, y as int),
            t.yy == grid_sum(fy, x0 as int, x1 as int, y0 as int, y as int),
            t.xy == grid_sum(fc, x0 as int, x1 as int, y0 as int, y as int),
        decreases y1 - y,
    {
        let mut x: usize = x0;
        while x < x1
            invariant
                width * height <= image.len(),
                w == width,
                fx == xx_term(image@, w),
                fy == yy_term(image@, w),
                fc == xy_term(image@, w),
                1 <= x0 <= x <= x1 <= width - 1,
                x1 <= x0 + 8,
                1 <= y0 <= y < y1 <= height - 1,
                y1 <= y0 + 8,
                t.xx == grid_sum(fx, x0 as int, x1 as int, y0 as int, y as int) + row_sum(
                    fx,
                    x0 as int,
                    x as int,
                    y as int,
                ),
                t.yy == grid_sum(fy, x0 as int, x1 as int, y0 as int, y as int) + row_sum(
                    fy,
                    x0 as int,
                    x as int,
                    y as int,
                ),
                t.xy == grid_sum(fc, x0 as int, x1 as int, y0 as int, y as int) + row_sum(
                    fc,
                    x0 as int,
                    x as int,
                    y as int,
                ),
            decreases x1 - x,
        {
            proof {
                lemma_gradient_bound(image@, w, x as int, y as int);
                lemma_term_bounds(image@, w, x0 as int, x1 as int, y0 as int, y as int, y as int);
                lemma_term_bounds(image@, w, x0 as int, x as int, y0 as int, y as int, y as int);
            }
            let (dx, dy) = gradient(image, width, height, x, y);
            if dx * dx + dy * dy >= EDGE_THRESHOLD * EDGE_THRESHOLD {
                t.xx = t.xx + dx * dx;
                t.yy = t.yy + dy * dy;
                t.xy = t.xy + dx * dy;
            }
            x = x + 1;
        }
        y = y + 1;
    }
    proof {
        lemma_term_bounds(image@, w, x0 as int, x1 as int, y0 as int, y1 as int, y0 as int);
    }
    t
}

/// The components of a cell's tensor have small squares.
proof fn lemma_linear_bound(xx: int, yy: int, xy: int)
    requires
        0 <= xx <= 1_040_400 * 64,
        0 <= yy <= 1_040_400 * 64,
        -1_040_400 * 64 <= xy <= 1_040_400 * 64,
    ensures
        0 <= (xx - yy) * (xx - yy) <= 4_433_700_000_000_000,
        0 <= xy * xy <= 4_433_700_000_000_000,
{
    assert(0 <= (xx - yy) * (xx - yy) <= 4_433_700_000_000_000) by (nonlinear_arith)
        requires
            -66_585_600 <= xx - yy <= 66_585_600,
    ;
    assert(0 <= xy * xy <= 4_433_700_000_000_000) by (nonlinear_arith)
        requires
            -66_585_600 <= xy <= 66_585_600,
    ;
}

/// Sum the edge energy over the coherence cells, all of it and the linear part.
pub fn cell_energy(image: &[u8], width: usize, height: usize) -> (r: CellEnergy)
    requires
        width >= 3,
        height >= 3,
        width * height <= image.len(),
    ensures
        r.trace == grid_sum(
            trace_term(image@, width as int, height as int),
            0,
            cells(width as int),
            0,
            cells(height as int),
        ),
        r.linear == grid_sum(
            linear_term(image@, width as int, height as int),
            0,
            cells(width as int),
            0,
            cells(height as int),
        ),
        r.trace <= 133_171_200 * (width * height),
        r.linear <= 200_000_000_000 * (width * height),
{
    let ghost w = width as int;
    let ghost h = height as int;
    let ghost ft = trace_term(image@, w, h);
    let ghost fl = linear_term(image@, w, h);
    let cells_x: usize = (width - 2 - 1) / COHERENCE_CELL + 1;
    let cells_y: usize = (height - 2 - 1) / COHERENCE_CELL + 1;
    assert(cells_x == cells(w));
    assert(cells_y == cells(h));
    assert(cells_x * cells_y <= width * height) by (nonlinear_arith)
        requires
            0 <= cells_x <= width,
            0 <= cells_y <= height,
    ;
    let mut trace: u128 = 0;
    let mut linear: u128 = 0;
    let mut cy: usize = 0;
    while cy < cells_y
        invariant
            width >= 3,
            height >= 3,
            width * height <= image.len(),
            w == width,
            h == height,
            ft == trace_term(image@, w, h),
            fl == linear_term(image@, w, h),
            cells_x == cells(w),
            cells_y == cells(h),
            cells_x * cells_y <= width * height,
            cy <= cells_y,
            trace == grid_sum(ft, 0, cells_x as int, 0, cy as int),
            linear == grid_sum(fl, 0, cells_x as int, 0, cy as int),
            0 <= trace <= 133_171_200 * (cells_x * cy),
            0 <= linear <= 200_000_000_000 * (cells_x * cy),
        decreases cells_y - cy,
    {
        let mut cx: usize = 0;
        assert(cells_x * cy + 0 == cells_x * cy);
        while cx < cells_x
            invariant
                width >= 3,
                height >= 3,
                width * height <= image.len(),
                w == width,
                h == height,
                ft == trace_term(image@, w, h),
                fl == linear_term(image@, w, h),
                cells_x == cells(w),
                cells_y == cells(h),
                cells_x * cells_y <= width * height,
                cy < cells_y,
                cx <= cells_x,
                trace == grid_sum(ft, 0, cells_x as int, 0, cy as int) + row_sum(
                    ft,
                    0,
                    cx as int,
                    cy as int,
                ),
                linear == grid_sum(fl, 0, cells_x as int, 0, cy as int) + row_sum(
                    fl,
                    0,
                    cx as int,
                    cy as int,
                ),
                0 <= trace <= 133_171_200 * (cells_x * cy + cx),
                0 <= linear <= 200_000_000_000 * (cells_x * cy + cx),
            decreases cells_x - cx,
        {
            let t = cell_tensor(image, width, height, cx, cy);
            let diff: i64 = t.xx - t.yy;
            proof {
                lemma_linear_bound(t.xx as int, t.yy as int, t.xy as int);
                assert(cells_x * cy + cx < cells_x * cells_y) by (nonlinear_arith)
                    requires
                        cy <= cells_y - 1,
                        cx < cells_x,
                ;
            }
            let unlike: i64 = diff * diff + 4 * (t.xy * t.xy);
            trace = trace + (t.xx + t.yy) as u128;
            let pointed: u64 = isqrt((unlike as u128) * 1_000_000);
            assert(pointed <= 200_000_000_000) by (nonlinear_arith)
                requires
                    pointed * pointed <= unlike * 1_000_000,
                    unlike <= 5 * 4_433_700_000_000_000,
                    pointed >= 0,
            ;
            linear = linear + pointed as u128;
            cx = cx + 1;
        }
        assert(cells_x * cy + cells_x == cells_x * (cy + 1)) by (nonlinear_arith);
        cy = cy + 1;
    }
    CellEnergy { trace, linear }
}

} // verus!
