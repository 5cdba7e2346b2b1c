//! Drawn-structure detection: is there a picture in this spectrogram?
use crate::analysis::drift::{drift_search, is_drift, Sweep};
use crate::analysis::gradient::{
    bright_term, cell_end, cell_energy, cell_start, cell_sum, cells, census, edge_term, gx, gy,
    linear_term, orientation_term, sine, trace_term, xx_term, xy_term, yy_term, INK_THRESHOLD,
};
use crate::analysis::sliding_median::{lemma_histogram_ranks, SlidingMedian};
use crate::analysis::strokes::{continuity, Page};
use crate::arith::{grid_sum, lemma_grid_sum_bound, row_sum, ONE};
use crate::rank;
use vstd::prelude::*;

verus! {

/// Half-width of the tone and transient filters.
///
/// This must be much larger than a stroke is wide, or the stroke looks sustained
/// within its own window and suppresses itself.
pub const FILTER_RADIUS: usize = 48;

/// The `n` pixels of `image` from `start` on, `stride` apart.
pub open spec fn line(image: Seq<u8>, start: int, stride: int, n: int) -> Seq<int> {
    Seq::new(n as nat, |k: int| image[start + k * stride] as int)
}

/// The part of a line within the filter's radius of position `k`.
pub open spec fn window(line: Seq<int>, k: int) -> Seq<int> {
    line.subrange(
        if k > FILTER_RADIUS { k - FILTER_RADIUS } else { 0 },
        if k + FILTER_RADIUS + 1 < line.len() { k + FILTER_RADIUS + 1 } else { line.len() as int },
    )
}

/// What persists through pixel (`x`, `y`) along time: the tone there.
pub open spec fn tone_at(image: Seq<u8>, width: int, x: int, y: int) -> int {
    rank::lower_median(window(line(image, y * width, 1, width), x))
}

/// What persists through pixel (`x`, `y`) along frequency: the transient there.
pub open spec fn transient_at(image: Seq<u8>, width: int, height: int, x: int, y: int) -> int {
    rank::lower_median(window(line(image, x, width, height), y))
}

/// What is left of a pixel once the louder of its tone and its transient is taken
/// away. Never below zero, so suppression can only ever remove ink.
pub open spec fn residual_at(image: Seq<u8>, width: int, height: int, x: int, y: int) -> int {
    let tone = tone_at(image, width, x, y);
    let transient = transient_at(image, width, height, x, y);
    let explained = if tone > transient { tone } else { transient };
    let pixel = image[y * width + x] as int;
    if pixel > explained { pixel - explained } else { 0 }
}

/// The lower median of the window around every position of one line of pixels.
fn line_medians(image: &[u8], start: usize, stride: usize, n: usize) -> (r: Vec<u8>)
    requires
        n > 0,
        start + (n - 1) * stride < image.len(),
    ensures
        r.len() == n,
        forall|k: int| 0 <= k < n ==> #[trigger] r[k] == rank::lower_median(
            window(line(image@, start as int, stride as int, n as int), k),
        ),
{
    let ghost pixels = line(image@, start as int, stride as int, n as int);
    let mut out: Vec<u8> = Vec::with_capacity(n);
    let mut hist = SlidingMedian::new();
    let mut lo: usize = 0;
    let mut hi: usize = 0;
    let mut k: usize = 0;
    while k < n
        invariant
            n > 0,
            start + (n - 1) * stride < image.len(),
            pixels == line(image@, start as int, stride as int, n as int),
            k <= n,
            lo == (if k > FILTER_RADIUS + 1 { k - FILTER_RADIUS - 1 } else { 0 }),
            hi == (if k == 0 { 0 } else if k + FILTER_RADIUS < n { k + FILTER_RADIUS } else { n as int }),
            hist.wf(),
            hist.size() == hi - lo,
            forall|u: int| #[trigger] hist.count(u) == rank::occurrences(
                pixels.subrange(lo as int, hi as int),
                u,
            ),
            out.len() == k,
            forall|j: int| 0 <= j < k ==> #[trigger] out[j] == rank::lower_median(window(pixels, j)),
        decreases n - k,
    {
        while hi < n && hi - k <= FILTER_RADIUS
            invariant
                n > 0,
                start + (n - 1) * stride < image.len(),
                pixels == line(image@, start as int, stride as int, n as int),
                lo <= k < n,
                k <= hi <= n,
                hi <= k + FILTER_RADIUS + 1,
                k - lo <= FILTER_RADIUS + 1,
                hist.wf(),
                hist.size() == hi - lo,
                forall|u: int| #[trigger] hist.count(u) == rank::occurrences(
                    pixels.subrange(lo as int, hi as int),
                    u,
                ),
            decreases n - hi,
        {
            proof {
                assert(hi * stride <= (n - 1) * stride) by (nonlinear_arith)
                    requires
                        hi <= n - 1,
                        stride >= 0,
                ;
                let w = pixels.subrange(lo as int, hi as int);
                assert(pixels.subrange(lo as int, hi + 1) =~= w.push(pixels[hi as int]));
                assert forall|u: int| #[trigger] rank::occurrences(
                    pixels.subrange(lo as int, hi + 1),
                    u,
                ) == rank::occurrences(w, u) + if u == pixels[hi as int] { 1int } else { 0 } by {
                    rank::lemma_push(w, pixels[hi as int], u);
                }
            }
            hist.add(image[start + hi * stride]);
            hi = hi + 1;
        }
        if k > FILTER_RADIUS {
            proof {
                assert(lo * stride <= (n - 1) * stride) by (nonlinear_arith)
                    requires
                        lo <= n - 1,
                        stride >= 0,
                ;
                let w = pixels.subrange(lo as int, hi as int);
                assert(pixels.subrange(lo + 1, hi as int) =~= w.drop_first());
                assert forall|u: int| #[trigger] rank::occurrences(
                    pixels.subrange(lo + 1, hi as int),
                    u,
                ) == rank::occurrences(w, u) - if u == pixels[lo as int] { 1int } else { 0 } by {
                    rank::lemma_drop_first(w, u);
                }
                rank::lemma_drop_first(w, pixels[lo as int]);
                rank::lemma_bounds(w.drop_first(), pixels[lo as int]);
                assert(w.first() == pixels[lo as int]);
            }
            hist.remove(image[start + lo * stride]);
            lo = lo + 1;
        }
        let ghost w = pixels.subrange(lo as int, hi as int);
        assert(w =~= window(pixels, k as int));
        let ghost held = hist;
        let m: u8 = hist.median();
        proof {
            assert forall|i: int| 0 <= i < w.len() implies 0 <= #[trigger] w[i] < 256 by {}
            lemma_histogram_ranks(&held, w, m as int);
            lemma_histogram_ranks(&held, w, m as int + 1);
            rank::lemma_rank_unique(w, (w.len() - 1) / 2, m as int);
        }
        out.push(m);
        k = k + 1;
    }
    out
}

/// Remove sustained tones and transients, leaving what is neither.
///
/// Harmonic/percussive source separation, applied for its residual rather than
/// for either component. A median filter along time keeps only what persists: the
/// harmonics. A median filter along frequency keeps only what is broadband at an
/// instant: the transients. Whatever is left over is neither, and a drawn stroke
/// is exactly that.
///
/// Returns a new image; the input is untouched. An image too small to filter, or
/// shorter than its own dimensions, comes back as it is.
pub fn suppress_tones_and_transients(image: &[u8], width: usize, height: usize) -> (r: Vec<u8>)
    requires
        width * height <= usize::MAX,
    ensures
        width < 3 || height < 3 || image.len() < width * height ==> r@ == image@,
        !(width < 3 || height < 3 || image.len() < width * height) ==> {
            &&& r.len() == width * height
            &&& forall|x: int, y: int|
                0 <= x < width && 0 <= y < height ==> #[trigger] r[y * width + x] == residual_at(
                    image@,
                    width as int,
                    height as int,
                    x,
                    y,
                )
        },
{
    if width < 3 || height < 3 || image.len() < width * height {
        return vstd::slice::slice_to_vec(image);
    }
    let mut harmonic: Vec<Vec<u8>> = Vec::with_capacity(height);
    let mut y: usize = 0;
    while y < height
        invariant
            width >= 3,
            height >= 3,
            image.len() >= width * height,
            y <= height,
            harmonic.len() == y,
            forall|b: int| 0 <= b < y ==> (#[trigger] harmonic[b]).len() == width,
            forall|a: int, b: int|
                0 <= a < width && 0 <= b < y ==> #[trigger] harmonic[b][a] == tone_at(
                    image@,
                    width as int,
                    a,
                    b,
                ),
        decreases height - y,
    {
        assert(y * width + (width - 1) < width * height) by (nonlinear_arith)
            requires
                y <= height - 1,
                width >= 3,
        ;
        harmonic.push(line_medians(image, y * width, 1, width));
        y = y + 1;
    }
    let mut percussive: Vec<Vec<u8>> = Vec::with_capacity(width);
    let mut x: usize = 0;
    while x < width
        invariant
            width >= 3,
            height >= 3,
            image.len() >= width * height,
            x <= width,
            percussive.len() == x,
            forall|a: int| 0 <= a < x ==> (#[trigger] percussive[a]).len() == height,
            forall|a: int, b: int|
                0 <= a < x && 0 <= b < height ==> #[trigger] percussive[a][b] == transient_at(
                    image@,
                    width as int,
                    height as int,
                    a,
                    b,
                ),
        decreases width - x,
    {
        assert(x + (height - 1) * width < width * height) by (nonlinear_arith)
            requires
                x < width,
                height >= 3,
        ;
        percussive.push(line_medians(image, x, width, height));
        x = x + 1;
    }
    let mut residual: Vec<u8> = Vec::with_capacity(width * height);
    y = 0;
    while y < height
        invariant
            width >= 3,
            height >= 3,
            image.len() >= width * height,
            width * height <= usize::MAX,
            y <= height,
            harmonic.len() == height,
            percussive.len() == width,
            forall|b: int| 0 <= b < height ==> (#[trigger] harmonic[b]).len() == width,
            forall|a: int| 0 <= a < width ==> (#[trigger] percussive[a]).len() == height,
            forall|a: int, b: int|
                0 <= a < width && 0 <= b < height ==> #[trigger] harmonic[b][a] == tone_at(
                    image@,
                    width as int,
                    a,
                    b,
                ),
            forall|a: int, b: int|
                0 <= a < width && 0 <= b < height ==> #[trigger] percussive[a][b]
                    == transient_at(image@, width as int, height as int, a, b),
            residual.len() == y * width,
            forall|a: int, b: int|
                0 <= a < width && 0 <= b < y ==> #[trigger] residual[b * width + a]
                    == residual_at(image@, width as int, height as int, a, b),
        decreases height - y,
    {
        x = 0;
        while x < width
            invariant
                width >= 3,
                height >= 3,
                image.len() >= width * height,
                width * height <= usize::MAX,
                x <= width,
                y < height,
                harmonic.len() == height,
                percussive.len() == width,
                forall|b: int| 0 <= b < height ==> (#[trigger] harmonic[b]).len() == width,
                forall|a: int| 0 <= a < width ==> (#[trigger] percussive[a]).len() == height,
                forall|a: int, b: int|
                    0 <= a < width && 0 <= b < height ==> #[trigger] harmonic[b][a] == tone_at(
                        image@,
                        width as int,
                        a,
                        b,
                    ),
                forall|a: int, b: int|
                    0 <= a < width && 0 <= b < height ==> #[trigger] percussive[a][b]
                        == transient_at(image@, width as int, height as int, a, b),
                residual.len() == y * width + x,
                forall|a: int, b: int|
                    0 <= a < width && 0 <= b && (b < y || (b == y && a < x))
                        ==> #[trigger] residual[b * width + a] == residual_at(
                        image@,
                        width as int,
                        height as int,
                        a,
                        b,
                    ),
            decreases width - x,
        {
            assert(y * width + x < width * height) by (nonlinear_arith)
                requires
                    y <= height - 1,
                    x < width,
            ;
            let tone: u8 = harmonic[y][x];
            let transient: u8 = percussive[x][y];
            let explained: u8 = if tone > transient { tone } else { transient };
            let ghost before = residual@;
            residual.push(image[y * width + x].saturating_sub(explained));
            assert forall|a: int, b: int|
                0 <= a < width && 0 <= b && (b < y || (b == y && a < x + 1)) implies #[trigger] residual[b * width + a]
                == residual_at(image@, width as int, height as int, a, b) by {
                if b == y && a == x {
                } else {
                    assert(b * width + a < y * width + x) by (nonlinear_arith)
                        requires
                            0 <= a < width,
                            b < y || (b == y && a < x),
                            0 <= x,
                    ;
                    assert(before[b * width + a] == residual[b * width + a]);
                }
            }
            x = x + 1;
        }
        assert(y * width + width == (y + 1) * width) by (nonlinear_arith);
        y = y + 1;
    }
    assert(height * width == width * height) by (nonlinear_arith);
    residual
}

/// How much a region of a spectrogram looks like a drawing. Ratios are in millionths.
#[derive(Clone, Copy, Debug)]
pub struct StructureScore {
    /// Structure-tensor coherence. High means locally linear.
    pub coherence: u64,
    /// Fraction of the region that is not bright. Line art is mostly ground.
    pub sparsity: u64,
    /// Edge magnitude in each orientation bucket, in thousandths: how many directions
    /// the gradients point in. A page of harmonics fills one bucket.
    pub orientations: [u128; 12],
    /// How much of the edge energy runs diagonally.
    ///
    /// In a spectrogram a vertical stroke is a broadband transient and a horizontal
    /// stroke a sustained tone. Neither is a drawing. A diagonal stroke is a frequency
    /// sweep over time, which is exactly what a drawn line is.
    pub diagonality: u64,
    /// Fraction of ink belonging to long, thin, connected strokes: ambience is
    /// fragments, a drawing is lines.
    pub continuity: u64,
    /// The strongest drift lines, shallow and steep. Continuity can only follow ink
    /// bright enough to cross a threshold; this sees lines that are not.
    pub drift: (Option<Sweep>, Option<Sweep>),
    /// Combined.
    pub score: u64,
    /// Pixels that carried enough gradient to be counted.
    pub edge_pixels: usize,
}

/// The middle of the window around a place of a line of pixels is itself a pixel's value.
proof fn lemma_window_median(line: Seq<int>, k: int)
    requires
        0 <= k < line.len(),
        forall|i: int| 0 <= i < line.len() ==> 0 <= #[trigger] line[i] < 256,
    ensures
        window(line, k).len() > 0,
        0 <= rank::lower_median(window(line, k)) < 256,
        rank::is_rank(
            window(line, k),
            (window(line, k).len() - 1) / 2,
            rank::lower_median(window(line, k)),
        ),
{
    let w = window(line, k);
    rank::lemma_extremes(w, 0, 256);
    rank::lemma_rank_exists(w, (w.len() - 1) / 2, 0, 256);
}

/// A pixel at most as bright as more than half of the window around it is no brighter than
/// the window's middle.
proof fn lemma_persists(line: Seq<int>, k: int, pixel: int)
    requires
        0 <= k < line.len(),
        forall|i: int| 0 <= i < line.len() ==> 0 <= #[trigger] line[i] < 256,
        2 * rank::below(window(line, k), pixel) < window(line, k).len(),
    ensures
        rank::lower_median(window(line, k)) >= pixel,
{
    lemma_window_median(line, k);
    let w = window(line, k);
    let m = rank::lower_median(w);
    if m < pixel {
        rank::lemma_monotone(w, m + 1, pixel);
    }
}

/// Suppression only ever removes ink.
pub proof fn law_suppression_only_removes(image: Seq<u8>, width: int, height: int, x: int, y: int)
    requires
        width > 0,
        height > 0,
        image.len() >= width * height,
        0 <= x < width,
        0 <= y < height,
    ensures
        0 <= residual_at(image, width, height, x, y) <= image[y * width + x],
{
    lemma_window_median(line(image, y * width, 1, width), x);
    lemma_window_median(line(image, x, width, height), y);
}

/// A held tone leaves nothing: a pixel goes where more than half of its row's window is
/// as bright.
pub proof fn law_a_held_tone_vanishes(image: Seq<u8>, width: int, height: int, x: int, y: int)
    requires
        width > 0,
        height > 0,
        image.len() >= width * height,
        0 <= x < width,
        0 <= y < height,
        ({
            let row = window(line(image, y * width, 1, width), x);
            2 * rank::below(row, image[y * width + x] as int) < row.len()
        }),
    ensures
        residual_at(image, width, height, x, y) == 0,
{
    lemma_persists(line(image, y * width, 1, width), x, image[y * width + x] as int);
}

/// A click leaves nothing: a pixel goes where more than half of its column's window is as
/// bright.
pub proof fn law_a_click_vanishes(image: Seq<u8>, width: int, height: int, x: int, y: int)
    requires
        width > 0,
        height > 0,
        image.len() >= width * height,
        0 <= x < width,
        0 <= y < height,
        ({
            let column = window(line(image, x, width, height), y);
            2 * rank::below(column, image[y * width + x] as int) < column.len()
        }),
    ensures
        residual_at(image, width, height, x, y) == 0,
{
    lemma_persists(line(image, x, width, height), y, image[y * width + x] as int);
}

/// A pixel that stands out of both its row and its column stays as it is: where at least
/// half of each window is dark, nothing is taken from it.
pub proof fn law_a_lone_stroke_stays(image: Seq<u8>, width: int, height: int, x: int, y: int)
    requires
        width > 0,
        height > 0,
        image.len() >= width * height,
        0 <= x < width,
        0 <= y < height,
        ({
            let row = window(line(image, y * width, 1, width), x);
            2 * rank::below(row, 1) >= row.len()
        }),
        ({
            let column = window(line(image, x, width, height), y);
            2 * rank::below(column, 1) >= column.len()
        }),
    ensures
        residual_at(image, width, height, x, y) == image[y * width + x],
{
    let row = window(line(image, y * width, 1, width), x);
    let column = window(line(image, x, width, height), y);
    lemma_window_median(line(image, y * width, 1, width), x);
    lemma_window_median(line(image, x, width, height), y);
    if rank::lower_median(row) >= 1 {
        rank::lemma_monotone(row, 1, rank::lower_median(row));
    }
    if rank::lower_median(column) >= 1 {
        rank::lemma_monotone(column, 1, rank::lower_median(column));
    }
}

/// Nothing can be said of the region: it is too small, or it is flat.
pub open spec fn is_unreadable(image: Seq<u8>, width: int, height: int) -> bool {
    width < 3 || height < 3 || image.len() < width * height || edge_count(image, width, height) == 0
}

pub open spec fn edge_count(image: Seq<u8>, width: int, height: int) -> int {
    grid_sum(edge_term(image, width), 1, width - 1, 1, height - 1)
}

pub open spec fn bright_count(image: Seq<u8>, width: int, height: int) -> int {
    grid_sum(bright_term(image, width), 1, width - 1, 1, height - 1)
}

/// The share of the edge energy that points one way within its cell.
pub open spec fn coherence_value(image: Seq<u8>, width: int, height: int) -> int {
    let trace = grid_sum(trace_term(image, width, height), 0, cells(width), 0, cells(height));
    let linear = grid_sum(linear_term(image, width, height), 0, cells(width), 0, cells(height));
    if trace == 0 {
        0
    } else if linear * 1_000 / trace > ONE {
        ONE as int
    } else {
        linear * 1_000 / trace
    }
}

pub open spec fn sparsity_value(image: Seq<u8>, width: int, height: int) -> int {
    ONE - bright_count(image, width, height) * ONE / ((width - 2) * (height - 2))
}

pub open spec fn continuity_value(image: Seq<u8>, width: int, height: int) -> int {
    let page = Page { image, width, height, threshold: INK_THRESHOLD };
    if page.ink().len() == 0 {
        0
    } else {
        page.stroke_ink().len() * ONE / (page.ink().len() as int)
    }
}

/// The first `n` weights together.
pub open spec fn weight_sum(weights: Seq<u128>, n: int) -> int
    decreases n,
{
    if n <= 0 {
        0
    } else {
        weight_sum(weights, n - 1) + weights[n - 1]
    }
}

/// The first `n` weights together, each by how diagonal the middle of its bucket is:
/// the sine of twice its angle.
pub open spec fn tilt_sum(weights: Seq<u128>, n: int) -> int
    decreases n,
{
    if n <= 0 {
        0
    } else {
        tilt_sum(weights, n - 1) + weights[n - 1] * sine((2 * (n - 1) + 1) % 12)
    }
}

pub open spec fn diagonality_value(weights: Seq<u128>) -> int {
    if weight_sum(weights, 12) == 0 {
        0
    } else {
        tilt_sum(weights, 12) / (1_000 * weight_sum(weights, 12))
    }
}

/// Continuity carries the score, with coherence supporting it: ink that happens to
/// connect still has to be locally linear to count as a stroke.
pub open spec fn score_value(image: Seq<u8>, width: int, height: int) -> int {
    if is_unreadable(image, width, height) {
        0
    } else {
        continuity_value(image, width, height) * (ONE + coherence_value(image, width, height)) / (2
            * ONE)
    }
}

impl StructureScore {
    pub open spec fn is_empty(&self) -> bool {
        &&& self.coherence == 0
        &&& self.sparsity == 0
        &&& forall|b: int| 0 <= b < 12 ==> #[trigger] self.orientations[b] == 0
        &&& self.diagonality == 0
        &&& self.continuity == 0
        &&& self.drift == (None::<Sweep>, None::<Sweep>)
        &&& self.score == 0
        &&& self.edge_pixels == 0
    }

    /// This is the score of a picture.
    pub open spec fn describes(&self, image: Seq<u8>, width: int, height: int) -> bool {
        if is_unreadable(image, width, height) {
            self.is_empty()
        } else {
            &&& self.coherence == coherence_value(image, width, height)
            &&& self.sparsity == sparsity_value(image, width, height)
            &&& forall|b: int|
                0 <= b < 12 ==> #[trigger] self.orientations[b] == grid_sum(
                    orientation_term(image, width, b),
                    1,
                    width - 1,
                    1,
                    height - 1,
                )
            &&& self.diagonality == diagonality_value(self.orientations@)
            &&& self.continuity == continuity_value(image, width, height)
            &&& self.score == score_value(image, width, height)
            &&& self.edge_pixels == edge_count(image, width, height)
            &&& is_drift(image, width, height, self.drift)
        }
    }

    pub fn empty() -> (r: Self)
        ensures
            r.is_empty(),
    {
        StructureScore {
            coherence: 0,
            sparsity: 0,
            orientations: [0u128; 12],
            diagonality: 0,
            continuity: 0,
            drift: (None, None),
            score: 0,
            edge_pixels: 0,
        }
    }

    pub fn is_present(&self, threshold: u64) -> (r: bool)
        ensures
            r == (self.score >= threshold),
    {
        self.score >= threshold
    }
}

/// The magnitude of the sine of `k` times 15 degrees, in billionths.
fn tilt_of(k: usize) -> (r: u128)
    requires
        k < 12,
    ensures
        r == sine(k as int),
        0 <= r <= 1_000_000_000,
{
    let q: usize = if k > 6 { 12 - k } else { k };
    if q == 0 {
        0
    } else if q == 1 {
        258_819_045
    } else if q == 2 {
        500_000_000
    } else if q == 3 {
        707_106_781
    } else if q == 4 {
        866_025_404
    } else if q == 5 {
        965_925_826
    } else {
        1_000_000_000
    }
}

fn diagonality_of(weights: &[u128; 12]) -> (r: u64)
    requires
        forall|b: int| 0 <= b < 12 ==> #[trigger] weights[b] <= 0x100_0000_0000_0000_0000_0000,
    ensures
        r == diagonality_value(weights@),
        r <= ONE,
{
    let mut total: u128 = 0;
    let mut tilted: u128 = 0;
    let mut b: usize = 0;
    while b < 12
        invariant
            forall|b: int| 0 <= b < 12 ==> #[trigger] weights[b] <= 0x100_0000_0000_0000_0000_0000,
            b <= 12,
            total == weight_sum(weights@, b as int),
            tilted == tilt_sum(weights@, b as int),
            total <= b * 0x100_0000_0000_0000_0000_0000,
            tilted <= total * 1_000_000_000,
        decreases 12 - b,
    {
        let k: usize = (2 * b + 1) % 12;
        let tilt: u128 = tilt_of(k);
        let weight: u128 = weights[b];
        proof {
            assert(0 <= weight * tilt <= weight * 1_000_000_000) by (nonlinear_arith)
                requires
                    0 <= tilt <= 1_000_000_000,
                    0 <= weight,
            ;
        }
        tilted = tilted + weight * tilt;
        total = total + weight;
        b = b + 1;
    }
    if total == 0 {
        0
    } else {
        proof {
            assert(tilted as int / (1_000 * total) <= 1_000_000) by (nonlinear_arith)
                requires
                    0 <= tilted <= total * 1_000_000_000,
                    total > 0,
            ;
        }
        (tilted / (1_000 * total)) as u64
    }
}

/// Analyze one rectangular region of a quantized spectrogram.
///
/// `image` is row-major, `width` wide, higher values louder. The score is empty when
/// the region is too small or too flat to say anything.
pub fn analyze(image: &[u8], width: usize, height: usize) -> (r: StructureScore)
    requires
        width >= 3 && height >= 3 ==> width * height <= usize::MAX,
    ensures
        r.describes(image@, width as int, height as int),
        r.score <= ONE,
{
    if width < 3 || height < 3 || image.len() < width * height {
        return StructureScore::empty();
    }
    let edges = census(image, width, height);
    if edges.edge_pixels == 0 {
        return StructureScore::empty();
    }
    proof {
        assert(0 < (width - 2) * (height - 2) <= width * height) by (nonlinear_arith)
            requires
                width >= 3,
                height >= 3,
        ;
    }
    let energy = cell_energy(image, width, height);
    let coherence: u64 = if energy.trace == 0 {
        0
    } else {
        let share: u128 = energy.linear * 1_000 / energy.trace;
        if share > ONE as u128 {
            ONE
        } else {
            share as u64
        }
    };
    let interior: u128 = ((width - 2) * (height - 2)) as u128;
    let lit: u128 = edges.bright_pixels as u128 * ONE as u128 / interior;
    proof {
        let b = edges.bright_pixels as int;
        assert(0 <= b * 1_000_000 / (interior as int) <= 1_000_000) by (nonlinear_arith)
            requires
                0 <= b <= interior,
                interior > 0,
        ;
    }
    let sparsity: u64 = ONE - lit as u64;
    let ink = continuity(image, width, height, INK_THRESHOLD);
    let continuous: u64 = if ink.ink_total == 0 {
        0
    } else {
        proof {
            let a = ink.ink_in_strokes as int;
            let b = ink.ink_total as int;
            assert(0 <= a * 1_000_000 / b <= 1_000_000) by (nonlinear_arith)
                requires
                    0 <= a <= b,
                    b > 0,
            ;
        }
        (ink.ink_in_strokes as u128 * ONE as u128 / ink.ink_total as u128) as u64
    };
    proof {
        assert(0 <= continuous * (ONE + coherence) <= ONE * (2 * ONE)) by (nonlinear_arith)
            requires
                0 <= continuous <= ONE,
                0 <= coherence <= ONE,
        ;
    }
    let score: u64 = continuous * (ONE + coherence) / (2 * ONE);
    StructureScore {
        coherence,
        sparsity,
        diagonality: diagonality_of(&edges.orientations),
        orientations: edges.orientations,
        continuity: continuous,
        drift: drift_search(image, width, height),
        score,
        edge_pixels: edges.edge_pixels,
    }
}

/// Sweeps a tile grid over a spectrogram and keeps the best-scoring region.
///
/// Tiling matters: a drawing occupying a corner of a five-minute waterfall would be
/// averaged into invisibility by a whole-image statistic.
#[derive(Clone, Copy, Debug, PartialEq, Eq, Structural)]
pub struct StructureScanner {
    pub tile_width: usize,
    pub tile_height: usize,
}

impl Default for StructureScanner {
    fn default() -> (r: Self)
        ensures
            r.tile_width == 64,
            r.tile_height == 64,
    {
        StructureScanner { tile_width: 64, tile_height: 64 }
    }
}

/// The part of a picture under a tile with its top left corner at (`x`, `y`).
pub open spec fn tile_at(image: Seq<u8>, width: int, x: int, y: int, tw: int, th: int) -> Seq<u8> {
    Seq::new((tw * th) as nat, |i: int| image[(y + i / tw) * width + x + i % tw])
}

/// Tiles advance by half of their size, so that a drawing straddling a tile boundary
/// is still seen whole by some tile.
pub open spec fn stride(size: int) -> int {
    if size / 2 > 1 {
        size / 2
    } else {
        1
    }
}

impl StructureScanner {
    pub open spec fn tile_w(&self, width: int) -> int {
        if self.tile_width < width {
            self.tile_width as int
        } else {
            width
        }
    }

    pub open spec fn tile_h(&self, height: int) -> int {
        if self.tile_height < height {
            self.tile_height as int
        } else {
            height
        }
    }

    /// Tile `i` of row `j` of the tile grid lies within the picture.
    pub open spec fn has_tile(&self, width: int, height: int, i: int, j: int) -> bool {
        &&& 0 <= i
        &&& 0 <= j
        &&& i * stride(self.tile_w(width)) + self.tile_w(width) <= width
        &&& j * stride(self.tile_h(height)) + self.tile_h(height) <= height
    }

    pub open spec fn tile(&self, image: Seq<u8>, width: int, height: int, i: int, j: int) -> Seq<u8> {
        tile_at(
            image,
            width,
            i * stride(self.tile_w(width)),
            j * stride(self.tile_h(height)),
            self.tile_w(width),
            self.tile_h(height),
        )
    }

    pub open spec fn tile_score(&self, image: Seq<u8>, width: int, height: int, i: int, j: int) -> int {
        score_value(
            self.tile(image, width, height, i, j),
            self.tile_w(width),
            self.tile_h(height),
        )
    }

    /// `r` is the first of the best tiles in reading order: its score and its top left
    /// corner. Where no tile scores there is none, and the corner is the picture's own.
    pub open spec fn is_best(
        &self,
        image: Seq<u8>,
        width: int,
        height: int,
        r: (StructureScore, usize, usize),
    ) -> bool {
        &&& forall|i: int, j: int| #[trigger]
            self.has_tile(width, height, i, j) ==> self.tile_score(image, width, height, i, j)
                <= r.0.score
        &&& r.0.score == 0 ==> r.0.is_empty() && r.1 == 0 && r.2 == 0
        &&& r.0.score > 0 ==> exists|i: int, j: int| #[trigger]
            self.has_tile(width, height, i, j) && self.is_first_best(image, width, height, r, i, j)
    }

    pub open spec fn is_first_best(
        &self,
        image: Seq<u8>,
        width: int,
        height: int,
        r: (StructureScore, usize, usize),
        i: int,
        j: int,
    ) -> bool {
        &&& r.1 == i * stride(self.tile_w(width))
        &&& r.2 == j * stride(self.tile_h(height))
        &&& r.0.describes(
            self.tile(image, width, height, i, j),
            self.tile_w(width),
            self.tile_h(height),
        )
        &&& forall|a: int, b: int| #[trigger]
            self.has_tile(width, height, a, b) && (b < j || (b == j && a < i)) ==> self.tile_score(
                image,
                width,
                height,
                a,
                b,
            ) < r.0.score
    }

    /// Best tile score in the image, with its top-left position.
    pub fn scan(&self, image: &[u8], width: usize, height: usize) -> (r: (
        StructureScore,
        usize,
        usize,
    ))
        requires
            width >= 3 && height >= 3 ==> width * height <= image.len(),
        ensures
            width < 3 || height < 3 ==> r.0.is_empty() && r.1 == 0 && r.2 == 0,
            width >= 3 && height >= 3 ==> self.is_best(image@, width as int, height as int, r),
    {
        let mut best = StructureScore::empty();
        if width < 3 || height < 3 {
            return (best, 0, 0);
        }
        let mut bx: usize = 0;
        let mut by: usize = 0;
        let ghost w = width as int;
        let ghost h = height as int;
        let tw: usize = if self.tile_width < width { self.tile_width } else { width };
        let th: usize = if self.tile_height < height { self.tile_height } else { height };
        let sx: usize = if tw / 2 > 1 { tw / 2 } else { 1 };
        let sy: usize = if th / 2 > 1 { th / 2 } else { 1 };
        proof {
            assert(0 <= tw * th <= width * height) by (nonlinear_arith)
                requires
                    0 <= tw <= width,
                    0 <= th <= height,
            ;
            assert(2 * width <= width * height && 2 * height <= width * height)
                by (nonlinear_arith)
                requires
                    width >= 3,
                    height >= 3,
            ;
        }
        // Where the best tile so far stands in the grid.
        let ghost mut bi: int = 0;
        let ghost mut bj: int = 0;
        let ghost mut j: int = 0;
        let mut y: usize = 0;
        while y <= height - th
            invariant
                width >= 3,
                height >= 3,
                width * height <= image.len(),
                w == width,
                h == height,
                tw == self.tile_w(w),
                th == self.tile_h(h),
                sx == stride(tw as int),
                sy == stride(th as int),
                tw <= width,
                th <= height,
                tw * th <= usize::MAX,
                2 * width <= usize::MAX,
                2 * height <= usize::MAX,
                j >= 0,
                y == j * sy,
                y <= height - th + sy,
                best.score <= ONE,
                forall|a: int, b: int| #[trigger]
                    self.has_tile(w, h, a, b) && b < j ==> self.tile_score(image@, w, h, a, b)
                        <= best.score,
                best.score == 0 ==> best.is_empty() && bx == 0 && by == 0,
                best.score > 0 ==> self.has_tile(w, h, bi, bj) && bj < j && self.is_first_best(
                    image@,
                    w,
                    h,
                    (best, bx, by),
                    bi,
                    bj,
                ),
            decreases height - th + sy - y,
        {
            let ghost mut i: int = 0;
            let mut x: usize = 0;
            while x <= width - tw
                invariant
                    width >= 3,
                    height >= 3,
                    width * height <= image.len(),
                    w == width,
                    h == height,
                    tw == self.tile_w(w),
                    th == self.tile_h(h),
                    sx == stride(tw as int),
                    sy == stride(th as int),
                    tw <= width,
                    th <= height,
                    tw * th <= usize::MAX,
                    2 * width <= usize::MAX,
                    2 * height <= usize::MAX,
                    i >= 0,
                    j >= 0,
                    y == j * sy,
                    y <= height - th,
                    x == i * sx,
                    x <= width - tw + sx,
                    best.score <= ONE,
                    forall|a: int, b: int| #[trigger]
                        self.has_tile(w, h, a, b) && (b < j || (b == j && a < i))
                            ==> self.tile_score(image@, w, h, a, b) <= best.score,
                    best.score == 0 ==> best.is_empty() && bx == 0 && by == 0,
                    best.score > 0 ==> self.has_tile(w, h, bi, bj) && (bj < j || (bj == j && bi < i))
                        && self.is_first_best(image@, w, h, (best, bx, by), bi, bj),
                decreases width - tw + sx - x,
            {
                let tile = copy_tile(image, width, height, x, y, tw, th);
                let score = analyze(tile.as_slice(), tw, th);
                assert(tile@ == self.tile(image@, w, h, i, j));
                assert(self.has_tile(w, h, i, j));
                assert(score.score == self.tile_score(image@, w, h, i, j));
                if score.score > best.score {
                    best = score;
                    bx = x;
                    by = y;
                    proof {
                        bi = i;
                        bj = j;
                    }
                }
                assert(i * sx + sx == (i + 1) * sx) by (nonlinear_arith);
                proof {
                    i = i + 1;
                }
                x = x + sx;
            }
            proof {
                assert forall|a: int, b: int| #[trigger]
                    self.has_tile(w, h, a, b) && b < j + 1 implies self.tile_score(image@, w, h, a, b)
                    <= best.score by {
                    if b == j && a >= i {
                        assert(a * sx >= i * sx) by (nonlinear_arith)
                            requires
                                a >= i,
                                sx >= 0,
                        ;
                    }
                }
                assert(j * sy + sy == (j + 1) * sy) by (nonlinear_arith);
                j = j + 1;
            }
            y = y + sy;
        }
        proof {
            assert forall|a: int, b: int| #[trigger] self.has_tile(w, h, a, b) implies self.tile_score(
                image@,
                w,
                h,
                a,
                b,
            ) <= best.score by {
                if b >= j {
                    assert(b * sy >= j * sy) by (nonlinear_arith)
                        requires
                            b >= j,
                            sy >= 0,
                    ;
                }
            }
        }
        (best, bx, by)
    }
}

/// The pixels under a tile.
fn copy_tile(
    image: &[u8],
    width: usize,
    height: usize,
    x: usize,
    y: usize,
    tw: usize,
    th: usize,
) -> (r: Vec<u8>)
    requires
        width * height <= image.len(),
        x + tw <= width,
        y + th <= height,
        tw * th <= usize::MAX,
    ensures
        r@ == tile_at(image@, width as int, x as int, y as int, tw as int, th as int),
{
    let mut tile: Vec<u8> = Vec::with_capacity(tw * th);
    let ghost want = tile_at(image@, width as int, x as int, y as int, tw as int, th as int);
    let mut row: usize = 0;
    while row < th
        invariant
            width * height <= image.len(),
            x + tw <= width,
            y + th <= height,
            tw * th <= usize::MAX,
            want == tile_at(image@, width as int, x as int, y as int, tw as int, th as int),
            row <= th,
            tile.len() == row * tw,
            forall|i: int| 0 <= i < tile.len() ==> #[trigger] tile[i] == want[i],
        decreases th - row,
    {
        let mut col: usize = 0;
        while col < tw
            invariant
                width * height <= image.len(),
                x + tw <= width,
                y + th <= height,
                tw * th <= usize::MAX,
                want == tile_at(image@, width as int, x as int, y as int, tw as int, th as int),
                row < th,
                col <= tw,
                tile.len() == row * tw + col,
                forall|i: int| 0 <= i < tile.len() ==> #[trigger] tile[i] == want[i],
            decreases tw - col,
        {
            proof {
                let i = row * tw + col;
                vstd::arithmetic::div_mod::lemma_fundamental_div_mod_converse(
                    i,
                    tw as int,
                    row as int,
                    col as int,
                );
                assert(i < tw * th) by (nonlinear_arith)
                    requires
                        i == row * tw + col,
                        row <= th - 1,
                        col < tw,
                ;
                assert((y + row) * width + width <= width * height) by (nonlinear_arith)
                    requires
                        y + row <= height - 1,
                        width >= 0,
                ;
            }
            tile.push(image[(y + row) * width + x + col]);
            col = col + 1;
        }
        assert(row * tw + tw == (row + 1) * tw) by (nonlinear_arith);
        row = row + 1;
    }
    assert(th * tw == tw * th) by (nonlinear_arith);
    assert(tile@ =~= want);
    tile
}

/// Continuity carries a score and coherence supports it: the score is the continuity where the
/// edges are wholly coherent, half of it where they are not at all, and in between in
/// proportion, rounded down.
pub proof fn law_continuity_carries_the_score(
    r: StructureScore,
    image: Seq<u8>,
    width: int,
    height: int,
)
    requires
        r.describes(image, width, height),
    ensures
        r.score * 2_000_000 <= r.continuity * (1_000_000 + r.coherence) < (r.score + 1) * 2_000_000,
        r.coherence <= ONE,
        r.score <= r.continuity <= 2 * r.score + 1,
        r.coherence == ONE ==> r.score == r.continuity,
{
    if !is_unreadable(image, width, height) {
        let k = r.continuity as int;
        let c = r.coherence as int;
        let x = k * (1_000_000 + c);
        assert(x == k * 1_000_000 + k * c) by (nonlinear_arith)
            requires
                x == k * (1_000_000 + c),
        ;
        assert(0 <= k * c <= k * 1_000_000) by (nonlinear_arith)
            requires
                0 <= k,
                0 <= c <= 1_000_000,
        ;
        if c == 1_000_000 {
            assert(k * c == k * 1_000_000);
        }
    } else {
        assert(r.continuity * (1_000_000 + r.coherence) == 0) by (nonlinear_arith)
            requires
                r.continuity == 0,
        ;
    }
}

/// Continuity is the share of the ink that is in strokes: one where all of it is, nothing where
/// none is or there is no ink. Ink is what is as bright as 96.
pub proof fn law_continuity_is_the_share_of_ink_in_strokes(
    r: StructureScore,
    image: Seq<u8>,
    width: int,
    height: int,
)
    requires
        r.describes(image, width, height),
        width >= 0,
        height >= 0,
        r.edge_pixels > 0,
    ensures
        ({
            let page = Page { image, width, height, threshold: 96u8 };
            let ink = Set::new(|i: int| 0 <= i < width * height && image[i] >= 96);
            let drawn = ink.filter(|i: int| page.is_stroke(page.component(i)));
            &&& ink.finite()
            &&& ink.len() == 0 ==> r.continuity == 0
            &&& ink.len() > 0 ==> r.continuity * ink.len() <= drawn.len() * ONE < (r.continuity + 1)
                * ink.len()
            &&& ink.len() > 0 && drawn == ink ==> r.continuity == ONE
            &&& drawn.len() == 0 ==> r.continuity == 0
        }),
{
    let page = Page { image, width, height, threshold: 96u8 };
    let ink = Set::new(|i: int| 0 <= i < width * height && image[i] >= 96);
    let drawn = ink.filter(|i: int| page.is_stroke(page.component(i)));
    assert(ink =~= page.ink());
    assert(drawn =~= page.stroke_ink());
    let n = width * height;
    vstd::set_lib::lemma_int_range(0, if n > 0 {
        n
    } else {
        0
    });
    let all = vstd::set_lib::set_int_range(0, if n > 0 {
        n
    } else {
        0
    });
    assert(ink.subset_of(all));
    vstd::set_lib::lemma_len_subset(ink, all);
    vstd::set_lib::lemma_len_subset(drawn, ink);
    if ink.len() > 0 {
        let a = drawn.len() as int;
        let b = ink.len() as int;
        let q = a * ONE / b;
        vstd::arithmetic::div_mod::lemma_fundamental_div_mod(a * ONE, b);
        assert(b * q == q * b && (q + 1) * b == q * b + b) by (nonlinear_arith);
        if a == b {
            vstd::arithmetic::div_mod::lemma_fundamental_div_mod_converse(a * ONE, b, ONE as int, 0);
        }
        if a == 0 {
            vstd::arithmetic::div_mod::lemma_fundamental_div_mod_converse(0, b, 0, 0);
        }
    }
}

proof fn lemma_tilts(weights: Seq<u128>, n: int, low: int, high: int)
    requires
        weights.len() == 12,
        0 <= n <= 12,
        0 <= low <= high,
        forall|b: int|
            0 <= b < 12 && #[trigger] weights[b] > 0 ==> low <= sine((2 * b + 1) % 12) <= high,
    ensures
        weight_sum(weights, n) >= 0,
        low * weight_sum(weights, n) <= tilt_sum(weights, n) <= high * weight_sum(weights, n),
    decreases n,
{
    if n > 0 {
        lemma_tilts(weights, n - 1, low, high);
        let w = weights[n - 1] as int;
        let t = sine((2 * (n - 1) + 1) % 12);
        let before = weight_sum(weights, n - 1);
        assert(low * (before + w) == low * before + low * w && high * (before + w) == high * before
            + high * w) by (nonlinear_arith);
        if w > 0 {
            assert(low * w <= w * t <= high * w) by (nonlinear_arith)
                requires
                    w >= 0,
                    low <= t <= high,
            ;
        } else {
            assert(low * 0 == 0 && high * 0 == 0 && 0 * t == 0);
            assert(w == 0);
        }
    } else {
        assert(low * 0 == 0 && high * 0 == 0);
    }
}

/// A drawing goes somewhere both in time and in frequency: strokes within 15 degrees of a held
/// tone or a click are hardly diagonal, at most 0.259; strokes within 15 degrees of the diagonal
/// nearly wholly, at least 0.965; and diagonality lies between nothing and one.
pub proof fn law_tones_and_clicks_are_not_diagonal(weights: Seq<u128>)
    requires
        weights.len() == 12,
    ensures
        0 <= diagonality_value(weights) <= ONE,
        (forall|b: int|
            0 <= b < 12 && b != 0 && b != 5 && b != 6 && b != 11 ==> #[trigger] weights[b] == 0)
            ==> diagonality_value(weights) <= 258_819,
        (forall|b: int|
            0 <= b < 12 && b != 2 && b != 3 && b != 8 && b != 9 ==> #[trigger] weights[b] == 0) && (
        weights[2] > 0 || weights[3] > 0 || weights[8] > 0 || weights[9] > 0) ==> diagonality_value(
            weights,
        ) >= 965_925,
{
    lemma_tilts(weights, 12, 0, 1_000_000_000);
    let total = weight_sum(weights, 12);
    let tilted = tilt_sum(weights, 12);
    let v = tilted / (1_000 * total);
    if total > 0 {
        assert(0 <= v <= 1_000_000) by (nonlinear_arith)
            requires
                0 <= tilted <= 1_000_000_000 * total,
                total > 0,
                v == tilted / (1_000 * total),
        ;
    }
    if forall|b: int|
        0 <= b < 12 && b != 0 && b != 5 && b != 6 && b != 11 ==> #[trigger] weights[b] == 0 {
        lemma_tilts(weights, 12, 0, 258_819_045);
        if total > 0 {
            assert(v <= 258_819) by (nonlinear_arith)
                requires
                    0 <= tilted <= 258_819_045 * total,
                    total > 0,
                    v == tilted / (1_000 * total),
            ;
        }
    }
    if (forall|b: int|
        0 <= b < 12 && b != 2 && b != 3 && b != 8 && b != 9 ==> #[trigger] weights[b] == 0) && (
    weights[2] > 0 || weights[3] > 0 || weights[8] > 0 || weights[9] > 0) {
        lemma_tilts(weights, 12, 965_925_826, 1_000_000_000);
        reveal_with_fuel(weight_sum, 13);
        assert(total > 0);
        assert(v >= 965_925) by (nonlinear_arith)
            requires
                tilted >= 965_925_826 * total,
                total > 0,
                v == tilted / (1_000 * total),
        ;
    }
}

/// Two sums over a grid whose terms are in proportion are in proportion.
proof fn lemma_grid_in_proportion(
    f: spec_fn(int, int) -> int,
    g: spec_fn(int, int) -> int,
    k: int,
    x1: int,
    y1: int,
)
    requires
        0 <= x1,
        0 <= y1,
        forall|x: int, y: int|
            0 <= x < x1 && 0 <= y < y1 ==> #[trigger] f(x, y) == k * g(x, y),
    ensures
        grid_sum(f, 0, x1, 0, y1) == k * grid_sum(g, 0, x1, 0, y1),
    decreases y1,
{
    if y1 > 0 {
        lemma_grid_in_proportion(f, g, k, x1, y1 - 1);
        lemma_row_in_proportion(f, g, k, x1, y1 - 1);
        let a = grid_sum(g, 0, x1, 0, y1 - 1);
        let b = row_sum(g, 0, x1, y1 - 1);
        assert(k * (a + b) == k * a + k * b) by (nonlinear_arith);
    } else {
        assert(k * 0 == 0);
    }
}

proof fn lemma_row_in_proportion(
    f: spec_fn(int, int) -> int,
    g: spec_fn(int, int) -> int,
    k: int,
    x1: int,
    y: int,
)
    requires
        0 <= x1,
        forall|x: int| 0 <= x < x1 ==> #[trigger] f(x, y) == k * g(x, y),
    ensures
        row_sum(f, 0, x1, y) == k * row_sum(g, 0, x1, y),
    decreases x1,
{
    if x1 > 0 {
        lemma_row_in_proportion(f, g, k, x1 - 1, y);
        let a = row_sum(g, 0, x1 - 1, y);
        let b = g(x1 - 1, y);
        assert(f(x1 - 1, y) == k * b);
        assert(k * (a + b) == k * a + k * b) by (nonlinear_arith);
    } else {
        assert(k * 0 == 0);
    }
}

/// Where edges point one way only, along a row or along a column, everything in a cell does.
proof fn lemma_one_way_cell(image: Seq<u8>, width: int, height: int, cx: int, cy: int)
    requires
        width >= 3,
        height >= 3,
        0 <= cx < cells(width),
        0 <= cy < cells(height),
        (forall|x: int, y: int|
            1 <= x < width - 1 && 1 <= y < height - 1 ==> #[trigger] gy(image, width, x, y) == 0)
            || (forall|x: int, y: int|
            1 <= x < width - 1 && 1 <= y < height - 1 ==> #[trigger] gx(image, width, x, y) == 0),
    ensures
        linear_term(image, width, height)(cx, cy) == 1_000 * trace_term(image, width, height)(
            cx,
            cy,
        ),
{
    let x0 = cell_start(cx);
    let x1 = cell_end(cx, width);
    let y0 = cell_start(cy);
    let y1 = cell_end(cy, height);
    let xx = cell_sum(xx_term(image, width), width, height, cx, cy);
    let yy = cell_sum(yy_term(image, width), width, height, cx, cy);
    let xy = cell_sum(xy_term(image, width), width, height, cx, cy);
    let fxx = xx_term(image, width);
    let fyy = yy_term(image, width);
    let fxy = xy_term(image, width);
    assert forall|x: int, y: int| x0 <= x < x1 && y0 <= y < y1 implies 0 <= #[trigger] fxx(x, y)
        <= 0x1_0000_0000 by {
        lemma_sobel(image, width, x, y);
        let a = gx(image, width, x, y);
        let b = gy(image, width, x, y);
        assert(a == 0 || b == 0);
        assert(0 <= a * a <= 1020 * 1020 && 0 <= b * b <= 1020 * 1020 && a * b == 0)
            by (nonlinear_arith)
            requires
                -1020 <= a <= 1020,
                -1020 <= b <= 1020,
                a == 0 || b == 0,
        ;
    }
    assert forall|x: int, y: int| x0 <= x < x1 && y0 <= y < y1 implies 0 <= #[trigger] fyy(x, y)
        <= 0x1_0000_0000 by {
        lemma_sobel(image, width, x, y);
        let a = gx(image, width, x, y);
        let b = gy(image, width, x, y);
        assert(a == 0 || b == 0);
        assert(0 <= a * a <= 1020 * 1020 && 0 <= b * b <= 1020 * 1020 && a * b == 0)
            by (nonlinear_arith)
            requires
                -1020 <= a <= 1020,
                -1020 <= b <= 1020,
                a == 0 || b == 0,
        ;
    }
    assert forall|x: int, y: int| x0 <= x < x1 && y0 <= y < y1 implies 0 <= #[trigger] fxy(x, y)
        <= 0 by {
        lemma_sobel(image, width, x, y);
        let a = gx(image, width, x, y);
        let b = gy(image, width, x, y);
        assert(a == 0 || b == 0);
        assert(0 <= a * a <= 1020 * 1020 && 0 <= b * b <= 1020 * 1020 && a * b == 0)
            by (nonlinear_arith)
            requires
                -1020 <= a <= 1020,
                -1020 <= b <= 1020,
                a == 0 || b == 0,
        ;
    }
    let area = (x1 - x0) * (y1 - y0);
    lemma_grid_sum_bound(xx_term(image, width), x0, x1, y0, y1, 0, 0x1_0000_0000);
    lemma_grid_sum_bound(yy_term(image, width), x0, x1, y0, y1, 0, 0x1_0000_0000);
    lemma_grid_sum_bound(xy_term(image, width), x0, x1, y0, y1, 0, 0);
    assert(0 * area == 0);
    if forall|x: int, y: int|
        1 <= x < width - 1 && 1 <= y < height - 1 ==> #[trigger] gy(image, width, x, y) == 0 {
        assert forall|x: int, y: int| x0 <= x < x1 && y0 <= y < y1 implies 0 <= #[trigger] yy_term(
            image,
            width,
        )(x, y) <= 0 by {
            assert(gy(image, width, x, y) == 0);
        }
        lemma_grid_sum_bound(yy_term(image, width), x0, x1, y0, y1, 0, 0);
    } else {
        assert forall|x: int, y: int| x0 <= x < x1 && y0 <= y < y1 implies 0 <= #[trigger] xx_term(
            image,
            width,
        )(x, y) <= 0 by {
            assert(gx(image, width, x, y) == 0);
        }
        lemma_grid_sum_bound(xx_term(image, width), x0, x1, y0, y1, 0, 0);
    }
    let diff = xx - yy;
    let sum = xx + yy;
    assert(sum >= 0 && xy == 0 && (xx == 0 || yy == 0));
    assert(diff * diff == sum * sum) by (nonlinear_arith)
        requires
            diff == xx - yy,
            sum == xx + yy,
            xx == 0 || yy == 0,
    ;
    assert(xy * xy == 0);
    let n = (sum * sum) * 1_000_000;
    assert((1_000 * sum) * (1_000 * sum) == n && n < (1_000 * sum + 1) * (1_000 * sum + 1))
        by (nonlinear_arith)
        requires
            n == (sum * sum) * 1_000_000,
            sum >= 0,
    ;
    crate::arith::lemma_root_unique(n, 1_000 * sum);
}

proof fn lemma_sobel(image: Seq<u8>, width: int, x: int, y: int)
    ensures
        -1020 <= gx(image, width, x, y) <= 1020,
        -1020 <= gy(image, width, x, y) <= 1020,
{
}

/// Parallel lines are coherent: a picture whose rows are all alike, or whose columns are, has
/// a coherence of one, if it has any edge at all.
pub proof fn law_parallel_lines_are_coherent(
    r: StructureScore,
    image: Seq<u8>,
    width: int,
    height: int,
)
    requires
        r.describes(image, width, height),
        r.edge_pixels > 0,
        width >= 3,
        height >= 3,
        (forall|x: int, y: int|
            0 <= x < width && 0 <= y < height ==> #[trigger] image[y * width + x] == image[x]) || (
        forall|x: int, y: int|
            0 <= x < width && 0 <= y < height ==> #[trigger] image[y * width + x] == image[y
                * width]),
    ensures
        r.coherence == ONE,
        r.score == r.continuity,
{
    let f = linear_term(image, width, height);
    let g = trace_term(image, width, height);
    let cw = cells(width);
    let ch = cells(height);
    if forall|x: int, y: int|
        0 <= x < width && 0 <= y < height ==> #[trigger] image[y * width + x] == image[x] {
        assert forall|x: int, y: int| 1 <= x < width - 1 && 1 <= y < height - 1 implies #[trigger] gy(
            image,
            width,
            x,
            y,
        ) == 0 by {
            assert(image[(y + 1) * width + (x - 1)] == image[x - 1]);
            assert(image[(y + 1) * width + x] == image[x]);
            assert(image[(y + 1) * width + (x + 1)] == image[x + 1]);
            assert(image[(y - 1) * width + (x - 1)] == image[x - 1]);
            assert(image[(y - 1) * width + x] == image[x]);
            assert(image[(y - 1) * width + (x + 1)] == image[x + 1]);
        }
    } else {
        assert forall|x: int, y: int| 1 <= x < width - 1 && 1 <= y < height - 1 implies #[trigger] gx(
            image,
            width,
            x,
            y,
        ) == 0 by {
            assert(image[(y - 1) * width + (x + 1)] == image[(y - 1) * width]);
            assert(image[y * width + (x + 1)] == image[y * width]);
            assert(image[(y + 1) * width + (x + 1)] == image[(y + 1) * width]);
            assert(image[(y - 1) * width + (x - 1)] == image[(y - 1) * width]);
            assert(image[y * width + (x - 1)] == image[y * width]);
            assert(image[(y + 1) * width + (x - 1)] == image[(y + 1) * width]);
        }
    }
    assert forall|cx: int, cy: int| 0 <= cx < cw && 0 <= cy < ch implies #[trigger] f(cx, cy)
        == 1_000 * g(cx, cy) by {
        lemma_one_way_cell(image, width, height, cx, cy);
    }
    lemma_grid_in_proportion(f, g, 1_000, cw, ch);
    let trace = grid_sum(g, 0, cw, 0, ch);
    lemma_edges_have_energy(image, width, height);
    assert((1_000 * trace) * 1_000 / trace == 1_000_000) by {
        vstd::arithmetic::div_mod::lemma_fundamental_div_mod_converse(
            (1_000 * trace) * 1_000,
            trace,
            1_000_000,
            0,
        );
    }
    law_continuity_carries_the_score(r, image, width, height);
}

proof fn lemma_row_witness(f: spec_fn(int, int) -> int, x0: int, x1: int, y: int) -> (x: int)
    requires
        x0 <= x1,
        row_sum(f, x0, x1, y) > 0,
    ensures
        x0 <= x < x1,
        f(x, y) > 0,
    decreases x1 - x0,
{
    if x1 > x0 && f(x1 - 1, y) > 0 {
        x1 - 1
    } else {
        lemma_row_witness(f, x0, x1 - 1, y)
    }
}

proof fn lemma_grid_witness(
    f: spec_fn(int, int) -> int,
    x0: int,
    x1: int,
    y0: int,
    y1: int,
) -> (p: (int, int))
    requires
        x0 <= x1,
        y0 <= y1,
        grid_sum(f, x0, x1, y0, y1) > 0,
    ensures
        x0 <= p.0 < x1,
        y0 <= p.1 < y1,
        f(p.0, p.1) > 0,
    decreases y1 - y0,
{
    if y1 > y0 && row_sum(f, x0, x1, y1 - 1) > 0 {
        (lemma_row_witness(f, x0, x1, y1 - 1), y1 - 1)
    } else {
        lemma_grid_witness(f, x0, x1, y0, y1 - 1)
    }
}

proof fn lemma_row_holds(f: spec_fn(int, int) -> int, x0: int, x1: int, y: int, x: int)
    requires
        x0 <= x < x1,
        forall|i: int| x0 <= i < x1 ==> 0 <= #[trigger] f(i, y),
    ensures
        row_sum(f, x0, x1, y) >= f(x, y),
    decreases x1 - x0,
{
    if x < x1 - 1 {
        lemma_row_holds(f, x0, x1 - 1, y, x);
        assert(0 <= f(x1 - 1, y));
    } else {
        lemma_row_nonnegative(f, x0, x1 - 1, y);
    }
}

proof fn lemma_row_nonnegative(f: spec_fn(int, int) -> int, x0: int, x1: int, y: int)
    requires
        forall|i: int| x0 <= i < x1 ==> 0 <= #[trigger] f(i, y),
    ensures
        row_sum(f, x0, x1, y) >= 0,
    decreases x1 - x0,
{
    if x0 < x1 {
        lemma_row_nonnegative(f, x0, x1 - 1, y);
        assert(0 <= f(x1 - 1, y));
    }
}

proof fn lemma_grid_nonnegative(
    f: spec_fn(int, int) -> int,
    x0: int,
    x1: int,
    y0: int,
    y1: int,
)
    requires
        forall|i: int, j: int| x0 <= i < x1 && y0 <= j < y1 ==> 0 <= #[trigger] f(i, j),
    ensures
        grid_sum(f, x0, x1, y0, y1) >= 0,
    decreases y1 - y0,
{
    if y0 < y1 {
        lemma_grid_nonnegative(f, x0, x1, y0, y1 - 1);
        lemma_row_nonnegative(f, x0, x1, y1 - 1);
    }
}

proof fn lemma_grid_holds(
    f: spec_fn(int, int) -> int,
    x0: int,
    x1: int,
    y0: int,
    y1: int,
    x: int,
    y: int,
)
    requires
        x0 <= x < x1,
        y0 <= y < y1,
        forall|i: int, j: int| x0 <= i < x1 && y0 <= j < y1 ==> 0 <= #[trigger] f(i, j),
    ensures
        grid_sum(f, x0, x1, y0, y1) >= f(x, y),
    decreases y1 - y0,
{
    if y < y1 - 1 {
        lemma_grid_holds(f, x0, x1, y0, y1 - 1, x, y);
        lemma_row_nonnegative(f, x0, x1, y1 - 1);
    } else {
        lemma_grid_nonnegative(f, x0, x1, y0, y1 - 1);
        lemma_row_holds(f, x0, x1, y, x);
    }
}

proof fn lemma_terms_nonnegative(image: Seq<u8>, width: int, x: int, y: int)
    ensures
        0 <= xx_term(image, width)(x, y),
        0 <= yy_term(image, width)(x, y),
        edge_term(image, width)(x, y) > 0 ==> xx_term(image, width)(x, y) + yy_term(image, width)(
            x,
            y,
        ) >= 144,
{
    let a = gx(image, width, x, y);
    let b = gy(image, width, x, y);
    assert(a * a >= 0 && b * b >= 0) by (nonlinear_arith);
}

/// Where there is an edge there is edge energy.
proof fn lemma_edges_have_energy(image: Seq<u8>, width: int, height: int)
    requires
        width >= 3,
        height >= 3,
        edge_count(image, width, height) > 0,
    ensures
        grid_sum(trace_term(image, width, height), 0, cells(width), 0, cells(height)) > 0,
{
    let p = lemma_grid_witness(edge_term(image, width), 1, width - 1, 1, height - 1);
    let (x, y) = p;
    let cx = (x - 1) / 8;
    let cy = (y - 1) / 8;
    let xx = xx_term(image, width);
    let yy = yy_term(image, width);
    let trace = trace_term(image, width, height);
    assert forall|i: int, j: int| 0 <= i < cells(width) && 0 <= j < cells(height) implies 0
        <= #[trigger] trace(i, j) by {
        assert forall|a: int, b: int|
            cell_start(i) <= a < cell_end(i, width) && cell_start(j) <= b < cell_end(
                j,
                height,
            ) implies 0 <= #[trigger] xx(a, b) by {
            lemma_terms_nonnegative(image, width, a, b);
        }
        assert forall|a: int, b: int|
            cell_start(i) <= a < cell_end(i, width) && cell_start(j) <= b < cell_end(
                j,
                height,
            ) implies 0 <= #[trigger] yy(a, b) by {
            lemma_terms_nonnegative(image, width, a, b);
        }
        lemma_grid_nonnegative(
            xx,
            cell_start(i),
            cell_end(i, width),
            cell_start(j),
            cell_end(j, height),
        );
        lemma_grid_nonnegative(
            yy,
            cell_start(i),
            cell_end(i, width),
            cell_start(j),
            cell_end(j, height),
        );
    }
    assert forall|a: int, b: int|
        cell_start(cx) <= a < cell_end(cx, width) && cell_start(cy) <= b < cell_end(
            cy,
            height,
        ) implies 0 <= #[trigger] xx(a, b) by {
        lemma_terms_nonnegative(image, width, a, b);
    }
    assert forall|a: int, b: int|
        cell_start(cx) <= a < cell_end(cx, width) && cell_start(cy) <= b < cell_end(
            cy,
            height,
        ) implies 0 <= #[trigger] yy(a, b) by {
        lemma_terms_nonnegative(image, width, a, b);
    }
    lemma_terms_nonnegative(image, width, x, y);
    lemma_grid_holds(
        xx,
        cell_start(cx),
        cell_end(cx, width),
        cell_start(cy),
        cell_end(cy, height),
        x,
        y,
    );
    lemma_grid_holds(
        yy,
        cell_start(cx),
        cell_end(cx, width),
        cell_start(cy),
        cell_end(cy, height),
        x,
        y,
    );
    assert(trace(cx, cy) > 0);
    lemma_grid_holds(trace, 0, cells(width), 0, cells(height), cx, cy);
}

/// Sparsity is how much of the picture is dark: one where none of it inside its border is ink,
/// nothing where all of it is.
pub proof fn law_sparsity_is_the_dark_share(
    r: StructureScore,
    image: Seq<u8>,
    width: int,
    height: int,
)
    requires
        r.describes(image, width, height),
        r.edge_pixels > 0,
        width >= 3,
        height >= 3,
    ensures
        r.sparsity <= ONE,
        (forall|x: int, y: int|
            1 <= x < width - 1 && 1 <= y < height - 1 ==> #[trigger] image[y * width + x] < 96)
            ==> r.sparsity == ONE,
        (forall|x: int, y: int|
            1 <= x < width - 1 && 1 <= y < height - 1 ==> #[trigger] image[y * width + x] >= 96)
            ==> r.sparsity == 0,
{
    let f = bright_term(image, width);
    let area = (width - 2) * (height - 2);
    assert(area > 0) by (nonlinear_arith)
        requires
            width >= 3,
            height >= 3,
            area == (width - 2) * (height - 2),
    ;
    lemma_grid_sum_bound(f, 1, width - 1, 1, height - 1, 0, 1);
    assert(0 * area == 0 && 1 * area == area);
    let n = bright_count(image, width, height);
    assert(0 <= n * 1_000_000 / area <= 1_000_000) by (nonlinear_arith)
        requires
            0 <= n <= area,
            area > 0,
    ;
    if forall|x: int, y: int|
        1 <= x < width - 1 && 1 <= y < height - 1 ==> #[trigger] image[y * width + x] < 96 {
        assert forall|x: int, y: int| 1 <= x < width - 1 && 1 <= y < height - 1 implies 0
            <= #[trigger] f(x, y) <= 0 by {
            assert(image[y * width + x] < 96);
        }
        lemma_grid_sum_bound(f, 1, width - 1, 1, height - 1, 0, 0);
        vstd::arithmetic::div_mod::lemma_fundamental_div_mod_converse(0, area, 0, 0);
    }
    if forall|x: int, y: int|
        1 <= x < width - 1 && 1 <= y < height - 1 ==> #[trigger] image[y * width + x] >= 96 {
        assert forall|x: int, y: int| 1 <= x < width - 1 && 1 <= y < height - 1 implies 1
            <= #[trigger] f(x, y) <= 1 by {
            assert(image[y * width + x] >= 96);
        }
        lemma_grid_sum_bound(f, 1, width - 1, 1, height - 1, 1, 1);
        vstd::arithmetic::div_mod::lemma_fundamental_div_mod_converse(
            n * ONE,
            area,
            ONE as int,
            0,
        );
    }
}

/// The filters look far to either side: what is compared with a pixel are the 48 before it on its
/// line, the 48 after, and itself, as far as the line goes.
pub proof fn law_the_filters_look_48_pixels_either_way(line: Seq<int>, k: int, i: int)
    requires
        0 <= k < line.len(),
        0 <= i < line.len(),
    ensures
        48 <= k && k + 48 < line.len() ==> window(line, k).len() == 97,
        line.len() <= 49 ==> window(line, k) == line,
        -48 <= i - k <= 48 ==> window(line, k).contains(line[i]),
        window(line, k).len() <= 97,
{
    let lo = if k > 48 {
        k - 48
    } else {
        0
    };
    if -48 <= i - k <= 48 {
        assert(window(line, k)[i - lo] == line[i]);
    }
    if line.len() <= 49 {
        assert(window(line, k) =~= line);
    }
}

} // verus!
