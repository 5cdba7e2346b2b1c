//! Coherent integration along candidate drift lines: a Radon transform.
//!
//! Continuity can only follow ink that crosses a brightness threshold. A stroke
//! fainter than that never becomes ink at all. Integrating along a candidate line
//! instead sums the stroke coherently while noise adds in quadrature: a line of `n`
//! pixels stands `sqrt(n)` further out of the noise than any single pixel of it does.
use crate::arith::{isqrt, root};
use crate::order::{sorted, values};
use crate::rank;
use vstd::prelude::*;

verus! {

/// Slopes tried per side, per axis.
///
/// Resolution is set by the requirement that a line stay inside its own accumulator
/// row: over a 64-pixel tile, adjacent slopes must differ by less than `2/64`, so a
/// range of one covers in about 32 steps.
pub const SLOPE_STEPS: usize = 32;

/// The slope of a step in 63rds: steps run evenly from a slope of -1 to a slope of 1.
pub open spec fn slope_63rds(step: int) -> int {
    2 * step - (2 * SLOPE_STEPS - 1)
}

/// The step is shallower than 0.08 rows per column: a line along it is a sustained
/// tone, which the suppression pass upstream is already removing.
pub open spec fn is_shallow(step: int) -> bool {
    -8 * 63 < 100 * slope_63rds(step) < 8 * 63
}

/// How far a line of this slope through the middle column has moved at column `x`, to
/// the nearest row, halves away from zero.
pub open spec fn line_shift(x: int, width: int, step: int) -> int {
    let num = (2 * x - width) * slope_63rds(step);
    if num >= 0 {
        (num + 63) / 126
    } else {
        -((-num + 63) / 126)
    }
}

/// The line through row `offset` of the middle column is inside the picture at
/// column `x`.
pub open spec fn is_inside(x: int, width: int, height: int, step: int, offset: int) -> bool {
    0 <= offset - line_shift(x, width, step) < height
}

/// The sum of `data` along a line, over its first `n` columns.
pub open spec fn line_sum(
    data: Seq<i128>,
    width: int,
    height: int,
    step: int,
    offset: int,
    n: int,
) -> int
    decreases n,
{
    if n <= 0 {
        0
    } else {
        line_sum(data, width, height, step, offset, n - 1) + if is_inside(
            n - 1,
            width,
            height,
            step,
            offset,
        ) {
            data[(offset - line_shift(n - 1, width, step)) * width + (n - 1)] as int
        } else {
            0
        }
    }
}

/// How many of a line's first `n` columns are inside the picture.
pub open spec fn line_count(width: int, height: int, step: int, offset: int, n: int) -> int
    decreases n,
{
    if n <= 0 {
        0
    } else {
        line_count(width, height, step, offset, n - 1) + if is_inside(
            n - 1,
            width,
            height,
            step,
            offset,
        ) {
            1int
        } else {
            0
        }
    }
}

/// A line sum over the root of its number of pixels, rounded toward zero. Dividing by
/// the root rather than by the number keeps the noise scale constant across lines of
/// different lengths.
pub open spec fn standing(sum: int, count: int) -> int {
    let scale = root(count * 1_000_000_000_000);
    if sum >= 0 {
        sum * 1_000_000 / scale
    } else {
        -(-sum * 1_000_000 / scale)
    }
}

/// The standings of the lines of one slope, for offsets below `offsets`, that cross
/// at least three fifths of the picture, each with its slope.
pub open spec fn slope_trials(
    data: Seq<i128>,
    width: int,
    height: int,
    step: int,
    offsets: int,
) -> Seq<(int, int)>
    decreases offsets,
{
    if offsets <= 0 {
        Seq::empty()
    } else {
        let before = slope_trials(data, width, height, step, offsets - 1);
        let count = line_count(width, height, step, offsets - 1, width);
        if count < width * 3 / 5 {
            before
        } else {
            before.push(
                (
                    standing(line_sum(data, width, height, step, offsets - 1, width), count),
                    step,
                ),
            )
        }
    }
}

/// The standings of all the lines of the slopes below `steps`.
pub open spec fn trials(data: Seq<i128>, width: int, height: int, steps: int) -> Seq<(int, int)>
    decreases steps,
{
    if steps <= 0 {
        Seq::empty()
    } else {
        let before = trials(data, width, height, steps - 1);
        if is_shallow(steps - 1) {
            before
        } else {
            before + slope_trials(data, width, height, steps - 1, height)
        }
    }
}

/// The first of the highest trials.
pub open spec fn highest(t: Seq<(int, int)>) -> (int, int)
    decreases t.len(),
{
    if t.len() <= 1 {
        t.first()
    } else {
        let before = highest(t.drop_last());
        if t.last().0 > before.0 {
            t.last()
        } else {
            before
        }
    }
}

pub open spec fn standings(t: Seq<(int, int)>) -> Seq<int> {
    t.map_values(|p: (int, int)| p.0)
}

/// What one orientation of the search found.
#[derive(Clone, Copy, Debug, PartialEq, Eq, Structural)]
pub struct Sweep {
    /// The strongest line.
    pub peak: i128,
    /// The slope step that produced it.
    pub step: usize,
    /// The middle of all the lines, and the quarters either side of it. Quartiles
    /// rather than a standard deviation: the peak is itself in this sample, and a
    /// handful of real strokes must not inflate the ruler they are measured with.
    pub median: i128,
    pub q1: i128,
    pub q3: i128,
    /// How many lines there were.
    pub trials: usize,
}

/// `s` sums up the trials `t`; there is nothing to sum up where they are fewer than
/// eight, or where their quartiles do not differ.
pub open spec fn sums_up(t: Seq<(int, int)>, s: Option<Sweep>) -> bool {
    let z = standings(t);
    let n = t.len() as int;
    match s {
        None => n < 8 || rank::ranked(z, 3 * n / 4) <= rank::ranked(z, n / 4),
        Some(s) => {
            &&& n >= 8
            &&& s.peak == highest(t).0
            &&& s.step == highest(t).1
            &&& s.median == rank::ranked(z, n / 2)
            &&& s.q1 == rank::ranked(z, n / 4)
            &&& s.q3 == rank::ranked(z, 3 * n / 4)
            &&& s.q3 > s.q1
            &&& s.trials == n
        },
    }
}

/// Pixel values above and below the mean, times the number of pixels.
pub open spec fn centred(image: Seq<u8>, n: int, i: int) -> int {
    image[i] * n - pixel_total(image, n)
}

pub open spec fn pixel_total(image: Seq<u8>, n: int) -> int
    decreases n,
{
    if n <= 0 {
        0
    } else {
        pixel_total(image, n - 1) + image[n - 1]
    }
}

/// The picture about its mean, so that a bright tile does not outrank a drawn one.
pub open spec fn centred_data(image: Seq<u8>, width: int, height: int) -> Seq<i128> {
    Seq::new((width * height) as nat, |i: int| centred(image, width * height, i) as i128)
}

/// The same with rows and columns exchanged.
pub open spec fn transposed_data(image: Seq<u8>, width: int, height: int) -> Seq<i128> {
    Seq::new(
        (width * height) as nat,
        |i: int| centred(image, width * height, (i % height) * width + i / height) as i128,
    )
}

proof fn lemma_shift_bound(x: int, width: int, step: int)
    requires
        0 <= x < width,
        0 <= step < 64,
    ensures
        -(width * 63) <= (2 * x - width) * slope_63rds(step) <= width * 63,
        -width <= line_shift(x, width, step) <= width,
{
    let d = 2 * x - width;
    let s = slope_63rds(step);
    assert(-(width * 63) <= d * s <= width * 63) by (nonlinear_arith)
        requires
            -width <= d <= width,
            -63 <= s <= 63,
    ;
}

fn shift_of(x: usize, width: usize, step: usize) -> (r: i128)
    requires
        x < width,
        step < 64,
    ensures
        r == line_shift(x as int, width as int, step as int),
        -(width as int) <= r <= width,
{
    proof {
        lemma_shift_bound(x as int, width as int, step as int);
    }
    let slope: i128 = 2 * (step as i128) - 63;
    let num: i128 = (2 * (x as i128) - width as i128) * slope;
    if num >= 0 {
        (num + 63) / 126
    } else {
        -((-num + 63) / 126)
    }
}

proof fn lemma_count_bound(width: int, height: int, step: int, offset: int, n: int)
    requires
        n >= 0,
    ensures
        0 <= line_count(width, height, step, offset, n) <= n,
    decreases n,
{
    if n > 0 {
        lemma_count_bound(width, height, step, offset, n - 1);
    }
}

/// Two columns at which a line that is not shallow is inside the picture are no further
/// apart than nine times its height.
proof fn lemma_inside_span(a: int, b: int, width: int, height: int, step: int, offset: int)
    requires
        0 <= a <= b < width,
        0 <= step < 64,
        !is_shallow(step),
        is_inside(a, width, height, step, offset),
        is_inside(b, width, height, step, offset),
    ensures
        b - a <= 9 * height,
{
    let s = slope_63rds(step);
    let at = (2 * a - width) * s;
    let bt = (2 * b - width) * s;
    let apart = 2 * (b - a) * s;
    assert(apart == bt - at) by (nonlinear_arith)
        requires
            at == (2 * a - width) * s,
            bt == (2 * b - width) * s,
            apart == 2 * (b - a) * s,
    ;
    assert(-126 * height <= apart <= 126 * height);
    if s >= 7 {
        assert(14 * (b - a) <= apart) by (nonlinear_arith)
            requires
                s >= 7,
                b >= a,
                apart == 2 * (b - a) * s,
        ;
    } else {
        assert(s <= -7);
        assert(14 * (b - a) <= -apart) by (nonlinear_arith)
            requires
                s <= -7,
                b >= a,
                apart == 2 * (b - a) * s,
        ;
    }
}

/// The first of `n` columns at which a line is inside the picture, or `n`.
proof fn lemma_first_inside(width: int, height: int, step: int, offset: int, n: int) -> (first: int)
    requires
        0 <= n,
    ensures
        0 <= first <= n,
        first < n ==> is_inside(first, width, height, step, offset),
        line_count(width, height, step, offset, n) <= n - first,
    decreases n,
{
    if n == 0 {
        0
    } else {
        let before = lemma_first_inside(width, height, step, offset, n - 1);
        if before < n - 1 || is_inside(n - 1, width, height, step, offset) {
            before
        } else {
            n
        }
    }
}

/// A line that is not shallow soon leaves the picture.
proof fn lemma_count_by_height(width: int, height: int, step: int, offset: int, n: int)
    requires
        0 <= n <= width,
        0 < height,
        0 <= step < 64,
        !is_shallow(step),
    ensures
        line_count(width, height, step, offset, n) <= 10 * height,
    decreases n,
{
    if n > 0 {
        if is_inside(n - 1, width, height, step, offset) {
            let first = lemma_first_inside(width, height, step, offset, n);
            if first < n {
                lemma_inside_span(first, n - 1, width, height, step, offset);
            }
        } else {
            lemma_count_by_height(width, height, step, offset, n - 1);
        }
    }
}

/// So it has few pixels, however long or tall the picture.
proof fn lemma_count_small(width: int, height: int, step: int, offset: int, n: int)
    requires
        0 <= n <= width,
        0 < height,
        0 <= step < 64,
        !is_shallow(step),
        width * height <= 0xffff_ffff_ffff_ffff,
    ensures
        0 <= line_count(width, height, step, offset, n) <= 0x4_0000_0000,
{
    let count = line_count(width, height, step, offset, n);
    lemma_count_bound(width, height, step, offset, n);
    lemma_count_by_height(width, height, step, offset, n);
    assert(count <= 0x4_0000_0000) by (nonlinear_arith)
        requires
            0 <= count <= width,
            count <= 10 * height,
            width * height <= 0xffff_ffff_ffff_ffff,
    ;
}

pub const DATA_MAX: i128 = 0xff_0000_0000_0000_0000;

/// The standing of one line, or nothing where it crosses too little of the picture.
fn line_trial(data: &Vec<i128>, width: usize, height: usize, step: usize, offset: usize) -> (r: Option<
    i128,
>)
    requires
        2 <= width,
        data.len() == width * height,
        forall|i: int| 0 <= i < data.len() ==> -DATA_MAX <= #[trigger] data[i] <= DATA_MAX,
        step < 64,
        !is_shallow(step as int),
        offset < height,
    ensures
        ({
            let count = line_count(width as int, height as int, step as int, offset as int, width as int);
            let sum = line_sum(
                data@,
                width as int,
                height as int,
                step as int,
                offset as int,
                width as int,
            );
            match r {
                None => count < width * 3 / 5,
                Some(z) => count >= width * 3 / 5 && z == standing(sum, count),
            }
        }),
{
    let mut sum: i128 = 0;
    let mut count: u64 = 0;
    let mut x: usize = 0;
    while x < width
        invariant
            data.len() == width * height,
            forall|i: int| 0 <= i < data.len() ==> -DATA_MAX <= #[trigger] data[i] <= DATA_MAX,
            step < 64,
            !is_shallow(step as int),
            offset < height,
            x <= width,
            count <= 0x4_0000_0000,
            count == line_count(width as int, height as int, step as int, offset as int, x as int),
            sum == line_sum(data@, width as int, height as int, step as int, offset as int, x as int),
            -(count * DATA_MAX) <= sum <= count * DATA_MAX,
        decreases width - x,
    {
        let row: i128 = offset as i128 - shift_of(x, width, step);
        proof {
            lemma_count_small(width as int, height as int, step as int, offset as int, x + 1);
            assert(count * DATA_MAX + DATA_MAX == (count + 1) * DATA_MAX) by (nonlinear_arith);
        }
        if 0 <= row && row < height as i128 {
            assert(0 <= row * width + x < width * height) by (nonlinear_arith)
                requires
                    0 <= row <= height - 1,
                    0 <= x < width,
            ;
            sum = sum + data[row as usize * width + x];
            count = count + 1;
        }
        x = x + 1;
    }
    let min_cover: u128 = width as u128 * 3 / 5;
    if (count as u128) < min_cover {
        return None;
    }
    let scale: u64 = isqrt((count as u128) * 1_000_000_000_000);
    assert(scale > 0) by (nonlinear_arith)
        requires
            (scale + 1) * (scale + 1) > count * 1_000_000_000_000,
            count >= 1,
            scale >= 0,
    ;
    let wide: i128 = scale as i128;
    if sum >= 0 {
        Some(sum * 1_000_000 / wide)
    } else {
        Some(-(-sum * 1_000_000 / wide))
    }
}

/// One orientation of the search.
pub fn sweep(data: &Vec<i128>, width: usize, height: usize) -> (r: Option<Sweep>)
    requires
        2 <= width,
        data.len() == width * height,
        forall|i: int| 0 <= i < data.len() ==> -DATA_MAX <= #[trigger] data[i] <= DATA_MAX,
    ensures
        sums_up(trials(data@, width as int, height as int, 2 * SLOPE_STEPS as int), r),
{
    let ghost w = width as int;
    let ghost h = height as int;
    let mut pooled: Vec<i128> = Vec::new();
    let mut peak: i128 = 0;
    let mut peak_step: usize = 0;
    let mut step: usize = 0;
    let ghost mut seen: Seq<(int, int)> = Seq::empty();
    while step < 2 * SLOPE_STEPS
        invariant
            2 <= width,
            data.len() == width * height,
            forall|i: int| 0 <= i < data.len() ==> -DATA_MAX <= #[trigger] data[i] <= DATA_MAX,
            w == width,
            h == height,
            step <= 2 * SLOPE_STEPS,
            seen == trials(data@, w, h, step as int),
            pooled.len() == seen.len(),
            forall|k: int| 0 <= k < seen.len() ==> #[trigger] pooled[k] == seen[k].0,
            seen.len() > 0 ==> highest(seen) == (peak as int, peak_step as int),
        decreases 2 * SLOPE_STEPS - step,
    {
        let slope: i64 = 2 * (step as i64) - 63;
        if !(-504 < 100 * slope && 100 * slope < 504) {
            let ghost before = seen;
            let mut offset: usize = 0;
            assert(before + slope_trials(data@, w, h, step as int, 0) =~= before);
            while offset < height
                invariant
                    2 <= width,
                    data.len() == width * height,
                    forall|i: int|
                        0 <= i < data.len() ==> -DATA_MAX <= #[trigger] data[i] <= DATA_MAX,
                    w == width,
                    h == height,
                    step < 2 * SLOPE_STEPS,
                    !is_shallow(step as int),
                    offset <= height,
                    seen == before + slope_trials(data@, w, h, step as int, offset as int),
                    pooled.len() == seen.len(),
                    forall|k: int| 0 <= k < seen.len() ==> #[trigger] pooled[k] == seen[k].0,
                    seen.len() > 0 ==> highest(seen) == (peak as int, peak_step as int),
                decreases height - offset,
            {
                match line_trial(data, width, height, step, offset) {
                    None => {},
                    Some(z) => {
                        proof {
                            let one = (z as int, step as int);
                            let inner = slope_trials(data@, w, h, step as int, offset as int);
                            assert(before + inner.push(one) =~= seen.push(one));
                            assert(seen.push(one).drop_last() =~= seen);
                            seen = seen.push(one);
                        }
                        if pooled.len() == 0 || z > peak {
                            peak = z;
                            peak_step = step;
                        }
                        pooled.push(z);
                    },
                }
                offset = offset + 1;
            }
        }
        step = step + 1;
    }
    let n: usize = pooled.len();
    if n < 8 {
        return None;
    }
    let ordered = sorted(pooled.as_slice());
    proof {
        assert(values(pooled@) =~= standings(seen));
    }
    let q1: i128 = ordered[n / 4];
    // Three quarters of `n`, without leaving the range of `usize`.
    let three: usize = n / 4 * 3 + n % 4 * 3 / 4;
    assert(three == 3 * (n as int) / 4);
    let q3: i128 = ordered[three];
    if q3 <= q1 {
        return None;
    }
    Some(Sweep { peak, step: peak_step, median: ordered[n / 2], q1, q3, trials: n })
}

proof fn lemma_total_bound(image: Seq<u8>, n: int)
    requires
        n >= 0,
    ensures
        0 <= pixel_total(image, n) <= 255 * n,
    decreases n,
{
    if n > 0 {
        lemma_total_bound(image, n - 1);
    }
}

proof fn lemma_centred_bound(image: Seq<u8>, n: int, i: int)
    requires
        0 <= n <= 0xffff_ffff_ffff_ffff,
    ensures
        -DATA_MAX <= centred(image, n, i) <= DATA_MAX,
{
    lemma_total_bound(image, n);
    assert(0 <= image[i] * n <= 255 * n) by (nonlinear_arith)
        requires
            0 <= image[i] <= 255,
            n >= 0,
    ;
}

/// `r` is the strongest line of either orientation: those closer to horizontal, which cross
/// every column, then those closer to vertical, which cross every row. Nothing is found in a
/// picture smaller than eight pixels a side.
pub open spec fn is_drift(
    image: Seq<u8>,
    width: int,
    height: int,
    r: (Option<Sweep>, Option<Sweep>),
) -> bool {
    if width < 8 || height < 8 {
        r == (None::<Sweep>, None::<Sweep>)
    } else {
        &&& sums_up(
            trials(centred_data(image, width, height), width, height, 2 * SLOPE_STEPS as int),
            r.0,
        )
        &&& sums_up(
            trials(transposed_data(image, width, height), height, width, 2 * SLOPE_STEPS as int),
            r.1,
        )
    }
}

/// The strongest line of either orientation: those closer to horizontal, which cross
/// every column, then those closer to vertical, which cross every row. Nothing is
/// found in a picture smaller than eight pixels a side.
pub fn drift_search(image: &[u8], width: usize, height: usize) -> (r: (Option<Sweep>, Option<Sweep>))
    requires
        width * height <= image.len(),
    ensures
        is_drift(image@, width as int, height as int, r),
{
    if width < 8 || height < 8 {
        return (None, None);
    }
    let n: usize = width * height;
    let mut total: i128 = 0;
    let mut i: usize = 0;
    while i < n
        invariant
            i <= n <= image.len(),
            total == pixel_total(image@, i as int),
            0 <= total <= 255 * i,
        decreases n - i,
    {
        total = total + image[i] as i128;
        i = i + 1;
    }
    let mut centre: Vec<i128> = Vec::with_capacity(n);
    i = 0;
    while i < n
        invariant
            i <= n <= image.len(),
            total == pixel_total(image@, n as int),
            0 <= total <= 255 * n,
            centre.len() == i,
            forall|k: int| 0 <= k < i ==> #[trigger] centre[k] == centred(image@, n as int, k),
        decreases n - i,
    {
        proof {
            lemma_centred_bound(image@, n as int, i as int);
            let p = image[i as int] as int;
            assert(0 <= p * n <= 255 * n) by (nonlinear_arith)
                requires
                    0 <= p <= 255,
                    n >= 0,
            ;
        }
        centre.push(image[i] as i128 * n as i128 - total);
        i = i + 1;
    }
    let mut turned: Vec<i128> = Vec::with_capacity(n);
    i = 0;
    while i < n
        invariant
            width >= 8,
            height >= 8,
            n == width * height,
            i <= n <= image.len(),
            centre.len() == n,
            forall|k: int| 0 <= k < n ==> #[trigger] centre[k] == centred(image@, n as int, k),
            turned.len() == i,
            forall|k: int|
                0 <= k < i ==> #[trigger] turned[k] == centred(
                    image@,
                    n as int,
                    (k % (height as int)) * width + k / (height as int),
                ),
        decreases n - i,
    {
        proof {
            let y = i as int % height as int;
            let x = i as int / height as int;
            vstd::arithmetic::div_mod::lemma_fundamental_div_mod(i as int, height as int);
            assert(x < width) by (nonlinear_arith)
                requires
                    height * x <= i,
                    i < width * height,
                    height > 0,
            ;
            assert(0 <= y * width + x < width * height) by (nonlinear_arith)
                requires
                    0 <= y <= height - 1,
                    0 <= x < width,
            ;
            assert(y * width >= 0) by (nonlinear_arith)
                requires
                    y >= 0,
                    width >= 0,
            ;
        }
        turned.push(centre[(i % height) * width + i / height]);
        i = i + 1;
    }
    proof {
        assert forall|k: int| 0 <= k < n implies -DATA_MAX <= #[trigger] centre[k] <= DATA_MAX by {
            lemma_centred_bound(image@, n as int, k);
        }
        assert forall|k: int| 0 <= k < n implies -DATA_MAX <= #[trigger] turned[k] <= DATA_MAX by {
            lemma_centred_bound(
                image@,
                n as int,
                (k % (height as int)) * width + k / (height as int),
            );
        }
        assert(centre@ =~= centred_data(image@, width as int, height as int));
        assert(turned@ =~= transposed_data(image@, width as int, height as int));
        assert(height * width == width * height) by (nonlinear_arith);
    }
    (sweep(&centre, width, height), sweep(&turned, height, width))
}

/// A line moves with its slope: at a column it has moved by the slope times the way from the
/// middle, to the nearest row, and the slopes run from minus one to one in equal steps, either
/// way alike.
pub proof fn law_a_line_keeps_to_its_slope(x: int, width: int, step: int)
    requires
        0 <= step <= 63,
    ensures
        -63 <= 126 * line_shift(x, width, step) - (2 * x - width) * (2 * step - 63) <= 63,
        line_shift(x, width, 63 - step) == -line_shift(x, width, step),
        is_shallow(63 - step) == is_shallow(step),
        // The steps either side of level, and two more each way, are too close to a tone.
        is_shallow(step) <==> 29 <= step <= 34,
{
    let d = 2 * x - width;
    let s = 2 * step - 63;
    assert(d * -s == -(d * s)) by (nonlinear_arith);
    assert(slope_63rds(63 - step) == -s);
}

/// A line is judged by its sum over the root of its length, so that lines of different lengths
/// compare: `scale` is that root in millionths, and the standing times it is the sum in
/// millionths, rounded toward nothing.
pub proof fn law_a_standing_is_a_sum_over_a_root(sum: int, count: int, scale: int)
    requires
        count > 0,
        scale > 0,
        scale * scale <= count * 1_000_000_000_000 < (scale + 1) * (scale + 1),
    ensures
        sum >= 0 ==> standing(sum, count) * scale <= sum * 1_000_000 < (standing(sum, count) + 1)
            * scale,
        standing(-sum, count) == -standing(sum, count),
{
    crate::arith::lemma_root_unique(count * 1_000_000_000_000, scale);
    if sum >= 0 {
        let x = sum * 1_000_000;
        vstd::arithmetic::div_mod::lemma_fundamental_div_mod(x, scale);
        let q = x / scale;
        assert(scale * q == q * scale && (q + 1) * scale == q * scale + scale) by (nonlinear_arith);
    }
    if sum == 0 {
        vstd::arithmetic::div_mod::lemma_fundamental_div_mod_converse(0, scale, 0, 0);
    }
}

/// A picture is looked at about its own mean: a brighter page with the same drawing on it is the
/// same to the search.
pub proof fn law_brightness_does_not_move_a_line(a: Seq<u8>, b: Seq<u8>, n: int, more: int, i: int)
    requires
        0 <= i < n <= a.len(),
        a.len() == b.len(),
        forall|k: int| 0 <= k < n ==> #[trigger] b[k] == a[k] + more,
    ensures
        centred(b, n, i) == centred(a, n, i),
{
    lemma_raised_total(a, b, n, more);
    assert((a[i] + more) * n == a[i] * n + n * more) by (nonlinear_arith);
}

proof fn lemma_raised_total(a: Seq<u8>, b: Seq<u8>, n: int, more: int)
    requires
        0 <= n <= a.len(),
        a.len() == b.len(),
        forall|k: int| 0 <= k < n ==> #[trigger] b[k] == a[k] + more,
    ensures
        pixel_total(b, n) == pixel_total(a, n) + n * more,
    decreases n,
{
    if n > 0 {
        lemma_raised_total(a, b, n - 1, more);
        assert(b[n - 1] == a[n - 1] + more);
        assert((n - 1) * more + more == n * more) by (nonlinear_arith);
    } else {
        assert(0 * more == 0);
    }
}

/// What a search found is the highest of all the lines it tried, and the middle and the quarters
/// of them lie where a half and a quarter of them do.
pub proof fn law_the_peak_is_the_highest_line(t: Seq<(int, int)>, s: Sweep, k: int)
    requires
        sums_up(t, Some(s)),
        0 <= k < t.len(),
    ensures
        t[k].0 <= s.peak,
        exists|i: int| 0 <= i < t.len() && #[trigger] t[i] == (s.peak as int, s.step as int),
        s.trials == t.len(),
        2 * standings(t).filter(|x: int| x < s.median).len() <= t.len() < 2 * standings(t).filter(
            |x: int| x <= s.median,
        ).len(),
        4 * standings(t).filter(|x: int| x < s.q1).len() <= t.len(),
        4 * standings(t).filter(|x: int| x <= s.q3).len() > 3 * t.len() - 4,
        s.q1 < s.q3,
{
    let z = standings(t);
    let n = t.len() as int;
    lemma_highest(t, k);
    rank::law_a_rank_is_a_count(z, n / 2);
    rank::law_a_rank_is_a_count(z, n / 4);
    rank::law_a_rank_is_a_count(z, 3 * n / 4);
    assert((|x: int| x < rank::ranked(z, n / 2)) =~= (|x: int| x < s.median));
    assert((|x: int| x <= rank::ranked(z, n / 2)) =~= (|x: int| x <= s.median));
    assert((|x: int| x < rank::ranked(z, n / 4)) =~= (|x: int| x < s.q1));
    assert((|x: int| x <= rank::ranked(z, 3 * n / 4)) =~= (|x: int| x <= s.q3));
}

proof fn lemma_highest(t: Seq<(int, int)>, k: int)
    requires
        0 <= k < t.len(),
    ensures
        t[k].0 <= highest(t).0,
        exists|i: int| 0 <= i < t.len() && #[trigger] t[i] == highest(t),
    decreases t.len(),
{
    if t.len() > 1 {
        let rest = t.drop_last();
        lemma_highest(rest, if k < rest.len() {
            k
        } else {
            0
        });
        let i = choose|i: int| 0 <= i < rest.len() && #[trigger] rest[i] == highest(rest);
        assert(t[i] == rest[i]);
        assert(t[t.len() - 1] == t.last());
    } else {
        assert(t[0] == highest(t));
    }
}

proof fn lemma_slope_trials(
    data: Seq<i128>,
    width: int,
    height: int,
    step: int,
    offsets: int,
    offset: int,
)
    requires
        0 <= offset < offsets,
        line_count(width, height, step, offset, width) >= width * 3 / 5,
    ensures
        slope_trials(data, width, height, step, offsets).contains(
            (
                standing(
                    line_sum(data, width, height, step, offset, width),
                    line_count(width, height, step, offset, width),
                ),
                step,
            ),
        ),
    decreases offsets,
{
    let here = (
        standing(
            line_sum(data, width, height, step, offset, width),
            line_count(width, height, step, offset, width),
        ),
        step,
    );
    let all = slope_trials(data, width, height, step, offsets);
    if offset < offsets - 1 {
        lemma_slope_trials(data, width, height, step, offsets - 1, offset);
        let before = slope_trials(data, width, height, step, offsets - 1);
        let i = choose|i: int| 0 <= i < before.len() && before[i] == here;
        assert(all[i] == here);
    } else {
        assert(all[all.len() - 1] == here);
    }
}

/// Every line is tried that is not as good as level, goes through a row of the middle column, and
/// crosses three fifths of the picture.
pub proof fn law_every_long_line_is_tried(
    data: Seq<i128>,
    width: int,
    height: int,
    step: int,
    steps: int,
    offset: int,
)
    requires
        0 <= step < steps <= 64,
        !is_shallow(step),
        0 <= offset < height,
        5 * line_count(width, height, step, offset, width) >= 3 * width,
    ensures
        trials(data, width, height, steps).contains(
            (
                standing(
                    line_sum(data, width, height, step, offset, width),
                    line_count(width, height, step, offset, width),
                ),
                step,
            ),
        ),
    decreases steps,
{
    let here = (
        standing(
            line_sum(data, width, height, step, offset, width),
            line_count(width, height, step, offset, width),
        ),
        step,
    );
    let all = trials(data, width, height, steps);
    let before = trials(data, width, height, steps - 1);
    if step < steps - 1 {
        law_every_long_line_is_tried(data, width, height, step, steps - 1, offset);
        let i = choose|i: int| 0 <= i < before.len() && before[i] == here;
        assert(all[i] == here);
    } else {
        lemma_slope_trials(data, width, height, step, height, offset);
        let mine = slope_trials(data, width, height, step, height);
        let i = choose|i: int| 0 <= i < mine.len() && mine[i] == here;
        assert(all[before.len() + i] == here);
    }
}

} // verus!
