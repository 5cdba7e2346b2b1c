//! What is decided of every frame: which tone the keying detector hears, what picture the
//! structure scan looks at, and where an event lies on the timeline.
use crate::analysis::direction::DirectionEstimate;
use crate::analysis::novelty::{DetectionEvent, FrameGeometry};
use crate::analysis::spectrogram::{band_between, band_bins, SpectrogramHistory};
use crate::arith::ONE;
use vstd::prelude::*;

pub mod engine;

verus! {

/// How far a candidate tone must stand above its neighbouring bins. A transmitted tone is a
/// narrow spike; low-frequency rumble is a broad hill whose peak happens to be somewhere on
/// top of it.
pub const PROMINENCE_MIN_RATIO: u64 = 12;

/// Bins either side of a peak that belong to its own leakage skirt.
pub const SKIRT: usize = 3;

/// Bins either side of a peak that it is compared with.
pub const WINDOW: usize = 40;

/// Time columns in the structure-scan image.
pub const SCAN_COLUMNS: usize = 512;

/// `r` is the first of the highest bins that stand at or above a threshold.
pub open spec fn is_dominant(excess: Seq<i64>, threshold: i64, r: Option<usize>) -> bool {
    match r {
        None => forall|i: int| 0 <= i < excess.len() ==> #[trigger] excess[i] < threshold,
        Some(k) => {
            &&& k < excess.len()
            &&& excess[k as int] >= threshold
            &&& forall|i: int| 0 <= i < excess.len() ==> #[trigger] excess[i] <= excess[k as int]
            &&& forall|i: int| 0 <= i < k ==> #[trigger] excess[i] < excess[k as int]
        },
    }
}

/// The dominant bin among those standing above the background.
pub fn dominant_bin(excess: &[i64], threshold: i64) -> (r: Option<usize>)
    ensures
        is_dominant(excess@, threshold, r),
{
    let mut best: Option<usize> = None;
    let mut high: i64 = threshold;
    let mut i: usize = 0;
    while i < excess.len()
        invariant
            i <= excess.len(),
            match best {
                None => high == threshold && forall|k: int|
                    0 <= k < i ==> #[trigger] excess@[k] < threshold,
                Some(b) => {
                    &&& b < i
                    &&& high == excess@[b as int]
                    &&& high >= threshold
                    &&& forall|k: int| 0 <= k < i ==> #[trigger] excess@[k] <= high
                    &&& forall|k: int| 0 <= k < b ==> #[trigger] excess@[k] < high
                },
            },
        decreases excess.len() - i,
    {
        let v: i64 = excess[i];
        if v >= threshold && (best.is_none() || v > high) {
            best = Some(i);
            high = v;
        }
        i = i + 1;
    }
    best
}

/// Bin `i` is compared with the peak: it is near, but not on the peak's own skirt.
pub open spec fn is_neighbour(i: int, bin: int) -> bool {
    -WINDOW <= i - bin <= WINDOW && !(-SKIRT <= i - bin <= SKIRT)
}

/// The powers of the neighbours of a bin among the first `n` bins, and how many they are.
pub open spec fn neighbour_power(powers: Seq<u64>, bin: int, n: int) -> int
    decreases n,
{
    if n <= 0 {
        0
    } else {
        neighbour_power(powers, bin, n - 1) + if is_neighbour(n - 1, bin) {
            powers[n - 1] as int
        } else {
            0
        }
    }
}

pub open spec fn neighbour_count(bin: int, n: int) -> int
    decreases n,
{
    if n <= 0 {
        0
    } else {
        neighbour_count(bin, n - 1) + if is_neighbour(n - 1, bin) {
            1int
        } else {
            0
        }
    }
}

/// A bin stands twelve times as high as the mean of its neighbours. With nothing to compare
/// it with it counts as prominent, so that a genuinely isolated tone is not discarded.
pub open spec fn stands_out(powers: Seq<u64>, bin: int) -> bool {
    let sum = neighbour_power(powers, bin, powers.len() as int);
    let count = neighbour_count(bin, powers.len() as int);
    sum == 0 || powers[bin] * count >= PROMINENCE_MIN_RATIO * sum
}

proof fn lemma_far_bins(powers: Seq<u64>, bin: int, n: int, m: int)
    requires
        0 <= n <= m <= powers.len(),
        m <= bin - WINDOW || n >= bin + WINDOW + 1,
    ensures
        neighbour_power(powers, bin, m) == neighbour_power(powers, bin, n),
        neighbour_count(bin, m) == neighbour_count(bin, n),
    decreases m,
{
    if n < m {
        lemma_far_bins(powers, bin, n, m - 1);
    }
}

/// Whether a bin stands out from its own neighbourhood. Comparing it with the whole spectrum
/// would be dominated by empty high bins, and any low-frequency hump would look tonal.
pub fn is_prominent(powers: &[u64], bin: usize) -> (r: bool)
    requires
        bin < powers.len(),
    ensures
        r == stands_out(powers@, bin as int),
{
    let bins: usize = powers.len();
    let low: usize = bin.saturating_sub(WINDOW);
    let high: usize = if bins - bin > WINDOW + 1 {
        bin + WINDOW + 1
    } else {
        bins
    };
    let mut sum: u128 = 0;
    let mut count: u128 = 0;
    let mut i: usize = low;
    proof {
        if low > 0 {
            lemma_far_bins(powers@, bin as int, 0, low as int);
        }
    }
    while i < high
        invariant
            bin < bins,
            bins == powers.len(),
            low <= i <= high <= bins,
            low == (if bin > WINDOW {
                bin - WINDOW
            } else {
                0
            }),
            high <= bin + WINDOW + 1,
            sum == neighbour_power(powers@, bin as int, i as int),
            count == neighbour_count(bin as int, i as int),
            count <= i - low,
            sum <= (i - low) * 0xffff_ffff_ffff_ffff,
        decreases high - i,
    {
        let away: usize = if i < bin {
            bin - i
        } else {
            i - bin
        };
        if away > SKIRT {
            sum = sum + powers[i] as u128;
            count = count + 1;
        }
        i = i + 1;
    }
    proof {
        if high < bins {
            lemma_far_bins(powers@, bin as int, high as int, bins as int);
        }
        let p = powers@[bin as int] as int;
        assert(0 <= p * count <= 0xffff_ffff_ffff_ffff * 81) by (nonlinear_arith)
            requires
                0 <= p <= 0xffff_ffff_ffff_ffff,
                0 <= count <= 81,
        ;
    }
    assert(sum <= 81 * 0xffff_ffff_ffff_ffff);
    sum == 0 || powers[bin] as u128 * count >= 12 * sum
}

/// What the keying detector is told of a frame: its loudest bin, the first where none stands
/// out, and whether it carried a tone. Standing above the background is not enough: a tone
/// lies at or above a floor, below which ship rumble lives, and stands out from its own
/// neighbourhood.
pub open spec fn is_verdict(
    excess: Seq<i64>,
    powers: Seq<u64>,
    threshold: i64,
    min_hz: i64,
    g: FrameGeometry,
    r: (usize, bool),
) -> bool {
    exists|best: Option<usize>|
        #![trigger is_dominant(excess, threshold, best)]
        {
            &&& is_dominant(excess, threshold, best)
            &&& r == match best {
                None => (0usize, false),
                Some(k) => (
                    k,
                    !g.is_below(k as int, min_hz as int) && stands_out(powers, k as int),
                ),
            }
        }
}

/// Decide what a frame says to the keying detector.
pub fn keying_verdict(
    excess: &[i64],
    powers: &[u64],
    threshold: i64,
    min_hz: i64,
    g: FrameGeometry,
) -> (r: (usize, bool))
    requires
        powers.len() == excess.len(),
    ensures
        is_verdict(excess@, powers@, threshold, min_hz, g, r),
{
    let best = dominant_bin(excess, threshold);
    match best {
        None => (0, false),
        Some(k) => {
            proof {
                let limit = 0x8000_0000_0000_0000int;
                let n = g.fft_size as int;
                let m = min_hz as int;
                assert(0 <= k * g.sample_rate <= 0x1_0000_0000_0000_0000 * 0x1_0000_0000)
                    by (nonlinear_arith)
                    requires
                        0 <= k <= 0x1_0000_0000_0000_0000,
                        0 <= g.sample_rate <= 0x1_0000_0000,
                ;
                assert(-(limit * (2 * limit)) <= m * n < limit * (2 * limit)) by (nonlinear_arith)
                    requires
                        -limit <= m < limit,
                        0 <= n < 2 * limit,
                        limit > 0,
                ;
            }
            let base: i128 = k as i128 * g.sample_rate as i128;
            let high_enough: bool = base * 1_000_000 >= min_hz as i128 * g.fft_size as i128;
            (k, high_enough && is_prominent(powers, k))
        },
    }
}

/// The highest byte of a frame from `lo` up to but not including `hi`.
pub open spec fn brightest(frame: Seq<u8>, lo: int, hi: int) -> int
    decreases hi - lo,
{
    if hi <= lo {
        0
    } else {
        let before = brightest(frame, lo, hi - 1);
        if frame[hi - 1] > before {
            frame[hi - 1] as int
        } else {
            before
        }
    }
}

/// The columns of a scan image: as many as there are frames, up to a limit.
pub open spec fn scan_columns(frames: int) -> int {
    if frames < SCAN_COLUMNS {
        frames
    } else {
        SCAN_COLUMNS as int
    }
}

/// A pixel of the scan image: the loudest of the bins of a row, in one of the newest frames.
/// Pooling is by maximum, so a one-pixel stroke survives being squeezed.
pub open spec fn scan_pixel(
    history: Seq<Seq<u8>>,
    rows: Seq<(usize, usize)>,
    col: int,
    row: int,
) -> int {
    let frame = history[history.len() - scan_columns(history.len() as int) + col];
    let end = if rows[row].1 < frame.len() {
        rows[row].1 as int
    } else {
        frame.len() as int
    };
    brightest(frame, rows[row].0 as int, end)
}

/// `image` is the scan image of a history, row by row.
pub open spec fn is_scan_image(
    history: Seq<Seq<u8>>,
    rows: Seq<(usize, usize)>,
    image: Seq<u8>,
) -> bool {
    let columns = scan_columns(history.len() as int);
    &&& image.len() == rows.len() * columns
    &&& forall|col: int, row: int|
        0 <= col < columns && 0 <= row < rows.len() ==> #[trigger] image[row * columns + col]
            == scan_pixel(history, rows, col, row)
}

fn brightest_of(frame: &[u8], lo: usize, hi: usize) -> (r: u8)
    ensures
        r == brightest(
            frame@,
            lo as int,
            if hi < frame.len() {
                hi as int
            } else {
                frame.len() as int
            },
        ),
{
    let end: usize = if hi < frame.len() {
        hi
    } else {
        frame.len()
    };
    let mut peak: u8 = 0;
    let mut i: usize = lo;
    while i < end
        invariant
            end <= frame.len(),
            lo <= i,
            i <= end || i == lo,
            peak == brightest(frame@, lo as int, i as int),
        decreases end - i,
    {
        if frame[i] > peak {
            peak = frame[i];
        }
        i = i + 1;
    }
    peak
}

/// Build the scan image of a history at a modest size: one row per band of bins, one column
/// per frame, the newest frames only.
pub fn scan_image(history: &SpectrogramHistory, rows: &Vec<(usize, usize)>) -> (r: Vec<u8>)
    requires
        history.wf(),
        rows.len() * SCAN_COLUMNS <= usize::MAX,
    ensures
        is_scan_image(history.held(), rows@, r@),
{
    let frames: usize = history.len();
    let columns: usize = if frames < SCAN_COLUMNS {
        frames
    } else {
        SCAN_COLUMNS
    };
    let start: usize = frames - columns;
    let ghost held = history.held();
    let ghost cols = columns as int;
    let mut image: Vec<u8> = Vec::new();
    let mut row: usize = 0;
    while row < rows.len()
        invariant
            history.wf(),
            held == history.held(),
            frames == held.len(),
            cols == columns,
            cols == scan_columns(frames as int),
            start == frames - columns,
            row <= rows.len(),
            image.len() == row * cols,
            forall|c: int, y: int|
                0 <= c < cols && 0 <= y < row ==> #[trigger] image[y * cols + c] == scan_pixel(
                    held,
                    rows@,
                    c,
                    y,
                ),
        decreases rows.len() - row,
    {
        let (lo, hi): (usize, usize) = rows[row];
        let mut col: usize = 0;
        while col < columns
            invariant
                history.wf(),
                held == history.held(),
                frames == held.len(),
                cols == columns,
                cols == scan_columns(frames as int),
                start == frames - columns,
                row < rows.len(),
                (lo, hi) == rows@[row as int],
                col <= columns,
                image.len() == row * cols + col,
                forall|c: int, y: int|
                    0 <= c < cols && 0 <= y && (y < row || (y == row && c < col))
                        ==> #[trigger] image[y * cols + c] == scan_pixel(held, rows@, c, y),
            decreases columns - col,
        {
            let v: u8 = match history.frame_at(start + col) {
                None => 0,
                Some(frame) => brightest_of(frame, lo, hi),
            };
            let ghost before = image@;
            image.push(v);
            proof {
                assert forall|c: int, y: int|
                    0 <= c < cols && 0 <= y && (y < row || (y == row && c < col + 1)) implies #[trigger] image[y
                    * cols + c] == scan_pixel(held, rows@, c, y) by {
                    if y == row && c == col {
                    } else {
                        assert(0 <= y * cols + c < row * cols + col) by (nonlinear_arith)
                            requires
                                0 <= c < cols,
                                0 <= y,
                                y < row || (y == row && c < col),
                                0 <= col,
                        ;
                        assert(before[y * cols + c] == image[y * cols + c]);
                    }
                }
            }
            col = col + 1;
        }
        assert(row * cols + cols == (row + 1) * cols) by (nonlinear_arith);
        row = row + 1;
    }
    image
}

/// The bins of each row of the scan image, highest frequency first so that the image reads
/// the same way up as a spectrogram, from the edges between the rows in ascending order.
pub open spec fn is_scan_rows(edges: Seq<u64>, bins: int, sample_rate: int, rows: Seq<(usize, usize)>) -> bool {
    let n = edges.len() - 1;
    &&& rows.len() == n
    &&& forall|row: int|
        0 <= row < n ==> {
            let band = band_between(
                edges[n - row - 1] as int,
                edges[n - row] as int,
                bins,
                sample_rate,
            );
            &&& (#[trigger] rows[row]).0 == band.0
            &&& rows[row].1 == band.1
        }
}

pub fn scan_rows(edges: &Vec<u64>, bins: usize, sample_rate: u32) -> (r: Vec<(usize, usize)>)
    requires
        edges.len() >= 1,
        bins >= 2,
        sample_rate > 0,
        forall|b: int| 0 <= b < edges.len() ==> #[trigger] edges[b] <= sample_rate * ONE,
    ensures
        is_scan_rows(edges@, bins as int, sample_rate as int, r@),
{
    let n: usize = edges.len() - 1;
    let mut rows: Vec<(usize, usize)> = Vec::with_capacity(n);
    let mut row: usize = 0;
    while row < n
        invariant
            n == edges.len() - 1,
            bins >= 2,
            sample_rate > 0,
            forall|b: int| 0 <= b < edges.len() ==> #[trigger] edges[b] <= sample_rate * ONE,
            row <= n,
            rows.len() == row,
            forall|k: int|
                0 <= k < row ==> {
                    let band = band_between(
                        edges[n - k - 1] as int,
                        edges[n - k] as int,
                        bins as int,
                        sample_rate as int,
                    );
                    &&& (#[trigger] rows[k]).0 == band.0
                    &&& rows[k].1 == band.1
                },
        decreases n - row,
    {
        rows.push(band_bins(edges[n - row - 1], edges[n - row], bins, sample_rate));
        row = row + 1;
    }
    rows
}

/// A detection with everything the writer and the UI need attached.
#[derive(Clone, Copy, Debug, PartialEq, Eq, Structural)]
pub struct Detection {
    pub event: DetectionEvent,
    pub direction: DirectionEstimate,
    /// Absolute frame on the capture timeline where the event began.
    pub start_sample: u64,
    pub end_sample: u64,
    /// True if a timeline gap fell inside the event, making its structure unreliable.
    pub spans_gap: bool,
}

/// An event placed on the capture timeline: from the first sample of its first frame to the
/// last of its last.
pub open spec fn placed(
    event: DetectionEvent,
    direction: DirectionEstimate,
    hop: int,
    fft_size: int,
    last_gap_end: int,
) -> Detection {
    let start = event.start_frame * hop;
    let end = event.end_frame * hop + fft_size;
    Detection {
        event,
        direction,
        start_sample: start as u64,
        end_sample: end as u64,
        spans_gap: start < last_gap_end <= end,
    }
}

/// Place an event on the capture timeline.
pub fn place(
    event: DetectionEvent,
    direction: DirectionEstimate,
    hop: usize,
    fft_size: usize,
    last_gap_end: u64,
) -> (r: Detection)
    requires
        event.start_frame * hop <= u64::MAX,
        event.end_frame * hop + fft_size <= u64::MAX,
    ensures
        r == placed(event, direction, hop as int, fft_size as int, last_gap_end as int),
{
    let start_sample: u64 = event.start_frame * hop as u64;
    let end_sample: u64 = event.end_frame * hop as u64 + fft_size as u64;
    Detection {
        event,
        direction,
        start_sample,
        end_sample,
        spans_gap: last_gap_end > start_sample && last_gap_end <= end_sample,
    }
}

/// One channel of interleaved samples.
pub open spec fn channel_of<T>(samples: Seq<T>, channels: int, c: int) -> Seq<T> {
    Seq::new((samples.len() as int / channels) as nat, |k: int| samples[k * channels + c])
}

/// Take one channel out of interleaved samples.
pub fn deinterleave<T: Copy>(samples: &[T], channels: usize, c: usize) -> (r: Vec<T>)
    requires
        c < channels,
        samples.len() as int % channels as int == 0,
    ensures
        r@ == channel_of(samples@, channels as int, c as int),
{
    let n: usize = samples.len() / channels;
    proof {
        vstd::arithmetic::div_mod::lemma_fundamental_div_mod(samples.len() as int, channels as int);
        assert(n * channels == channels * n) by (nonlinear_arith);
    }
    let mut r: Vec<T> = Vec::with_capacity(n);
    let mut k: usize = 0;
    while k < n
        invariant
            c < channels,
            n * channels == samples.len(),
            k <= n,
            r.len() == k,
            forall|j: int| 0 <= j < k ==> #[trigger] r[j] == samples@[j * channels + c],
        decreases n - k,
    {
        assert(0 <= k * channels && k * channels + c < n * channels) by (nonlinear_arith)
            requires
                0 <= k,
                k + 1 <= n,
                0 <= c < channels,
        ;
        r.push(samples[k * channels + c]);
        k = k + 1;
    }
    assert(r@ =~= channel_of(samples@, channels as int, c as int));
    r
}

/// The bins among the first `n` that stand above a threshold.
pub open spec fn loud_upto(excess: Seq<i64>, threshold: i64, n: int) -> Seq<usize>
    decreases n,
{
    if n <= 0 {
        Seq::empty()
    } else if excess[n - 1] >= threshold {
        loud_upto(excess, threshold, n - 1).push((n - 1) as usize)
    } else {
        loud_upto(excess, threshold, n - 1)
    }
}

/// The bins that the bearing of an event is taken from, low to high: a detection is
/// attributed to the material that caused it.
pub fn loud_bins(excess: &[i64], threshold: i64) -> (r: Vec<usize>)
    ensures
        r@ == loud_upto(excess@, threshold, excess.len() as int),
{
    let mut r: Vec<usize> = Vec::new();
    let mut i: usize = 0;
    while i < excess.len()
        invariant
            i <= excess.len(),
            r@ == loud_upto(excess@, threshold, i as int),
        decreases excess.len() - i,
    {
        if excess[i] >= threshold {
            r.push(i);
        }
        i = i + 1;
    }
    r
}

/// The bins among the first `n` that lie in a band.
pub open spec fn banded_upto(g: FrameGeometry, low: int, high: int, n: int) -> Seq<usize>
    decreases n,
{
    if n <= 0 {
        Seq::empty()
    } else if g.is_below(n - 1, low) || g.is_above(n - 1, high) {
        banded_upto(g, low, high, n - 1)
    } else {
        banded_upto(g, low, high, n - 1).push((n - 1) as usize)
    }
}

/// The bins that the live bearing is taken from, low to high: the whole detection band, or
/// the compass would sit dead while merely listening.
pub fn banded_bins(g: FrameGeometry, low_hz: i64, high_hz: i64) -> (r: Vec<usize>)
    ensures
        r@ == banded_upto(g, low_hz as int, high_hz as int, g.bin_count()),
{
    let bins: usize = g.bins();
    let mut r: Vec<usize> = Vec::new();
    let mut i: usize = 0;
    while i < bins
        invariant
            i <= bins,
            r@ == banded_upto(g, low_hz as int, high_hz as int, i as int),
        decreases bins - i,
    {
        if !g.is_outside(i, low_hz, high_hz) {
            r.push(i);
        }
        i = i + 1;
    }
    r
}

/// Whether the bearing of events starts afresh after a frame: nothing is going on any more,
/// or more than one detection has come out of it.
pub fn bearing_starts_afresh(detections: usize, open_events: usize) -> (r: bool)
    ensures
        r == (detections > 1 || open_events == 0),
{
    detections > 1 || open_events == 0
}

proof fn lemma_neighbour_bounds(powers: Seq<u64>, bin: int, n: int, least: int, most: int)
    requires
        0 <= n <= powers.len(),
        forall|i: int|
            0 <= i < n && 3 < #[trigger] (i - bin) <= 40 || 0 <= i < n && -40 <= i - bin < -3
                ==> least <= powers[i] <= most,
    ensures
        neighbour_count(bin, n) >= 0,
        neighbour_power(powers, bin, n) >= 0,
        neighbour_count(bin, n) == 0 ==> neighbour_power(powers, bin, n) == 0,
        neighbour_count(bin, n) * least <= neighbour_power(powers, bin, n) <= neighbour_count(bin, n)
            * most,
    decreases n,
{
    if n > 0 {
        lemma_neighbour_bounds(powers, bin, n - 1, least, most);
        let c = neighbour_count(bin, n - 1);
        assert((c + 1) * least == c * least + least && (c + 1) * most == c * most + most)
            by (nonlinear_arith);
        if is_neighbour(n - 1, bin) {
            let d = n - 1 - bin;
            assert(3 < d <= 40 || -40 <= d < -3);
            assert(least <= powers[n - 1] <= most);
        }
    } else {
        assert(0 * least == 0 && 0 * most == 0);
    }
}

/// A bin twelve times as high as every neighbour, from the fourth to the fortieth bin either
/// side, stands out; one with a neighbour, and less than twelve times as high as each, does not.
pub proof fn law_a_tone_is_twelve_times_its_neighbours(powers: Seq<u64>, bin: int, some: int)
    requires
        0 <= bin < powers.len(),
    ensures
        (forall|i: int|
            0 <= i < powers.len() && (4 <= #[trigger] (i - bin) <= 40 || -40 <= i - bin <= -4)
                ==> 12 * powers[i] <= powers[bin]) ==> stands_out(powers, bin),
        0 <= some < powers.len() && (4 <= some - bin <= 40 || -40 <= some - bin <= -4) && (forall|
            i: int,
        |
            0 <= i < powers.len() && (4 <= #[trigger] (i - bin) <= 40 || -40 <= i - bin <= -4)
                ==> 12 * powers[i] > powers[bin]) ==> !stands_out(powers, bin),
{
    let n = powers.len() as int;
    let p = powers[bin] as int;
    let count = neighbour_count(bin, n);
    let sum = neighbour_power(powers, bin, n);
    if forall|i: int|
        0 <= i < powers.len() && (4 <= #[trigger] (i - bin) <= 40 || -40 <= i - bin <= -4) ==> 12
            * powers[i] <= powers[bin] {
        let most = p / 12;
        assert forall|i: int|
            0 <= i < n && 3 < #[trigger] (i - bin) <= 40 || 0 <= i < n && -40 <= i - bin
                < -3 implies 0 <= powers[i] <= most by {
            assert(4 <= i - bin <= 40 || -40 <= i - bin <= -4);
            assert(12 * powers[i] <= p);
        }
        lemma_neighbour_bounds(powers, bin, n, 0, most);
        assert(12 * (count * most) <= p * count) by (nonlinear_arith)
            requires
                count >= 0,
                12 * most <= p,
        ;
    }
    if 0 <= some < powers.len() && (4 <= some - bin <= 40 || -40 <= some - bin <= -4) && (forall|
        i: int,
    |
        0 <= i < powers.len() && (4 <= #[trigger] (i - bin) <= 40 || -40 <= i - bin <= -4) ==> 12
            * powers[i] > powers[bin]) {
        let least = p / 12 + 1;
        assert forall|i: int|
            0 <= i < n && 3 < #[trigger] (i - bin) <= 40 || 0 <= i < n && -40 <= i - bin
                < -3 implies least <= powers[i] <= u64::MAX by {
            assert(4 <= i - bin <= 40 || -40 <= i - bin <= -4);
            assert(12 * powers[i] > p);
        }
        lemma_neighbour_bounds(powers, bin, n, least, u64::MAX as int);
        lemma_counted(bin, n, some);
        assert(sum > 0 && p * count < 12 * sum) by (nonlinear_arith)
            requires
                count >= 1,
                count * least <= sum,
                p < 12 * least,
                least >= 1,
        ;
    }
}

proof fn lemma_counted(bin: int, n: int, some: int)
    requires
        0 <= some < n,
        4 <= some - bin <= 40 || -40 <= some - bin <= -4,
    ensures
        neighbour_count(bin, n) >= 1,
    decreases n,
{
    if some < n - 1 {
        lemma_counted(bin, n - 1, some);
    } else {
        lemma_count_nonnegative(bin, n - 1);
    }
}

proof fn lemma_count_nonnegative(bin: int, n: int)
    ensures
        neighbour_count(bin, n) >= 0,
    decreases n,
{
    if n > 0 {
        lemma_count_nonnegative(bin, n - 1);
    }
}

proof fn lemma_same_neighbours(a: Seq<u64>, b: Seq<u64>, bin: int, n: int)
    requires
        0 <= n <= a.len(),
        a.len() == b.len(),
        forall|i: int|
            0 <= i < n && (4 <= #[trigger] (i - bin) <= 40 || -40 <= i - bin <= -4) ==> a[i] == b[i],
    ensures
        neighbour_power(a, bin, n) == neighbour_power(b, bin, n),
    decreases n,
{
    if n > 0 {
        lemma_same_neighbours(a, b, bin, n - 1);
        if is_neighbour(n - 1, bin) {
            let d = n - 1 - bin;
            assert(4 <= d <= 40 || -40 <= d <= -4);
        }
    }
}

/// Only the neighbours tell: neither the bins of a tone's own skirt, three either side, nor
/// those more than forty away change whether it stands out, and a louder tone stands out at
/// least as much.
pub proof fn law_only_neighbours_tell(a: Seq<u64>, b: Seq<u64>, bin: int)
    requires
        0 <= bin < a.len(),
        a.len() == b.len(),
        forall|i: int|
            0 <= i < a.len() && (4 <= #[trigger] (i - bin) <= 40 || -40 <= i - bin <= -4) ==> a[i]
                == b[i],
        a[bin] <= b[bin],
    ensures
        stands_out(a, bin) ==> stands_out(b, bin),
        a[bin] == b[bin] ==> stands_out(a, bin) == stands_out(b, bin),
{
    let n = a.len() as int;
    lemma_same_neighbours(a, b, bin, n);
    lemma_count_nonnegative(bin, n);
    let count = neighbour_count(bin, n);
    assert(a[bin] * count <= b[bin] * count) by (nonlinear_arith)
        requires
            a[bin] <= b[bin],
            count >= 0,
    ;
}

/// What a frame says to the keying detector: it carries a tone exactly where its highest bin
/// reaches the threshold, lies at the floor or above, and stands out from its neighbours; and
/// the bin named is then that bin, the first of equals.
pub proof fn law_a_tone_is_loud_high_and_narrow(
    excess: Seq<i64>,
    powers: Seq<u64>,
    threshold: i64,
    min_hz: i64,
    g: FrameGeometry,
    r: (usize, bool),
    i: int,
)
    requires
        is_verdict(excess, powers, threshold, min_hz, g, r),
        0 <= i < excess.len(),
    ensures
        excess[i] >= threshold ==> {
            &&& r.0 < excess.len()
            &&& excess[i] <= excess[r.0 as int]
            &&& i < r.0 ==> excess[i] < excess[r.0 as int]
            &&& r.1 <==> r.0 * g.sample_rate * ONE >= min_hz * g.fft_size && stands_out(
                powers,
                r.0 as int,
            )
        },
        r.1 ==> r.0 < excess.len() && excess[r.0 as int] >= threshold,
{
    let best = choose|best: Option<usize>|
        #![trigger is_dominant(excess, threshold, best)]
        {
            &&& is_dominant(excess, threshold, best)
            &&& r == match best {
                None => (0usize, false),
                Some(k) => (
                    k,
                    !g.is_below(k as int, min_hz as int) && stands_out(powers, k as int),
                ),
            }
        };
    assert(is_dominant(excess, threshold, best));
    if best is Some {
        assert(excess[i] <= excess[best->Some_0 as int]);
    } else {
        assert(excess[i] < threshold);
    }
}

proof fn lemma_brightest(frame: Seq<u8>, lo: int, hi: int, i: int)
    requires
        lo <= i < hi,
    ensures
        frame[i] <= brightest(frame, lo, hi) <= 255,
        brightest(frame, lo, hi) > 0 ==> exists|k: int|
            lo <= k < hi && #[trigger] frame[k] == brightest(frame, lo, hi),
    decreases hi - lo,
{
    let before = brightest(frame, lo, hi - 1);
    if hi - 1 > lo {
        lemma_brightest(frame, lo, hi - 1, if i < hi - 1 {
            i
        } else {
            lo
        });
    }
    if frame[hi - 1] > before {
        assert(frame[hi - 1] == brightest(frame, lo, hi));
    } else if before > 0 {
        let k = choose|k: int| lo <= k < hi - 1 && #[trigger] frame[k] == before;
        assert(frame[k] == brightest(frame, lo, hi));
    }
}

/// A stroke survives being squeezed: a pixel of the scan image is as bright as every bin of its
/// row in its frame, and as bright as one of them, and its columns are the newest frames, the
/// last of them the newest.
pub proof fn law_a_pixel_is_the_brightest_of_its_row(
    history: Seq<Seq<u8>>,
    rows: Seq<(usize, usize)>,
    image: Seq<u8>,
    back: int,
    row: int,
    bin: int,
)
    requires
        is_scan_image(history, rows, image),
        0 <= back < history.len(),
        back < 512,
        0 <= row < rows.len(),
        rows[row].0 <= bin < rows[row].1,
        bin < history[history.len() - 1 - back].len(),
    ensures
        ({
            let columns = if history.len() < 512 {
                history.len() as int
            } else {
                512
            };
            let frame = history[history.len() - 1 - back];
            let pixel = image[row * columns + (columns - 1 - back)];
            &&& frame[bin] <= pixel
            &&& exists|k: int|
                rows[row].0 <= k < rows[row].1 && k < frame.len() && #[trigger] frame[k] == pixel
        }),
{
    let columns = if history.len() < 512 {
        history.len() as int
    } else {
        512
    };
    let frame = history[history.len() - 1 - back];
    let col = columns - 1 - back;
    assert(image[row * columns + col] == scan_pixel(history, rows, col, row));
    let end = if rows[row].1 < frame.len() {
        rows[row].1 as int
    } else {
        frame.len() as int
    };
    lemma_brightest(frame, rows[row].0 as int, end, bin);
    if brightest(frame, rows[row].0 as int, end) == 0 {
        assert(frame[bin] == 0);
    }
}

/// An event holds every sample of every frame of it, and no more, and it spans a gap exactly
/// where the gap ended after its first sample and no later than its last.
pub proof fn law_an_event_holds_its_frames(
    event: DetectionEvent,
    direction: DirectionEstimate,
    hop: int,
    fft_size: int,
    gap: int,
    frame: int,
)
    requires
        0 < hop,
        0 <= fft_size,
        event.start_frame <= frame <= event.end_frame,
        event.end_frame * hop + fft_size <= u64::MAX,
    ensures
        ({
            let d = placed(event, direction, hop, fft_size, gap);
            &&& d.start_sample <= frame * hop
            &&& frame * hop + fft_size <= d.end_sample
            &&& frame == event.start_frame ==> d.start_sample == frame * hop
            &&& frame == event.end_frame ==> d.end_sample == frame * hop + fft_size
            &&& d.spans_gap <==> d.start_sample < gap <= d.end_sample
            &&& d.event == event
            &&& d.direction == direction
        }),
{
    assert(0 <= event.start_frame * hop <= frame * hop <= event.end_frame * hop) by (nonlinear_arith)
        requires
            0 <= event.start_frame <= frame <= event.end_frame,
            0 < hop,
    ;
}

/// Every sample of an interleaved block is in one channel, in its place.
pub proof fn law_channels_hold_every_sample<T>(samples: Seq<T>, channels: int, i: int)
    requires
        channels > 0,
        samples.len() as int % channels == 0,
        0 <= i < samples.len(),
    ensures
        channel_of(samples, channels, i % channels).len() * channels == samples.len(),
        0 <= i / channels < channel_of(samples, channels, i % channels).len(),
        channel_of(samples, channels, i % channels)[i / channels] == samples[i],
{
    let n = samples.len() as int;
    vstd::arithmetic::div_mod::lemma_fundamental_div_mod(n, channels);
    vstd::arithmetic::div_mod::lemma_fundamental_div_mod(i, channels);
    let q = i / channels;
    let m = n / channels;
    assert(m * channels == channels * m && q * channels == channels * q) by (nonlinear_arith);
    assert(0 <= q < m) by (nonlinear_arith)
        requires
            channels * q + i % channels == i,
            0 <= i % channels < channels,
            0 <= i < channels * m,
            channels > 0,
    ;
}

/// The bins that a bearing is taken from are those that reach the threshold, each once and
/// from low to high.
pub proof fn law_the_loud_bins_reach_the_threshold(excess: Seq<i64>, threshold: i64, n: int)
    requires
        0 <= n <= excess.len(),
        n <= usize::MAX,
    ensures
        forall|i: int|
            0 <= i < n ==> (#[trigger] excess[i] >= threshold <==> loud_upto(
                excess,
                threshold,
                n,
            ).contains(i as usize)),
        forall|i: int|
            0 <= i < loud_upto(excess, threshold, n).len() ==> (#[trigger] loud_upto(
                excess,
                threshold,
                n,
            )[i]) < n,
        forall|i: int, j: int|
            0 <= i < j < loud_upto(excess, threshold, n).len() ==> loud_upto(
                excess,
                threshold,
                n,
            )[i] < loud_upto(excess, threshold, n)[j],
    decreases n,
{
    if n > 0 {
        law_the_loud_bins_reach_the_threshold(excess, threshold, n - 1);
        let before = loud_upto(excess, threshold, n - 1);
        let now = loud_upto(excess, threshold, n);
        assert forall|i: int| 0 <= i < n implies (#[trigger] excess[i] >= threshold
            <==> now.contains(i as usize)) by {
            if i < n - 1 {
                if before.contains(i as usize) {
                    let k = choose|k: int| 0 <= k < before.len() && before[k] == i as usize;
                    assert(now[k] == i as usize);
                }
                if now.contains(i as usize) {
                    let k = choose|k: int| 0 <= k < now.len() && now[k] == i as usize;
                    assert(before[k] == i as usize);
                }
            } else if excess[i] >= threshold {
                assert(now[now.len() - 1] == i as usize);
            }
        }
    }
}

/// The bins of a band are those at its ends and between them, each once and from low to high.
pub proof fn law_the_banded_bins_lie_in_the_band(g: FrameGeometry, low: int, high: int, n: int)
    requires
        0 <= n <= usize::MAX,
    ensures
        forall|i: int|
            0 <= i < n ==> (low * g.fft_size <= #[trigger] (i * g.sample_rate) * 1_000_000 <= high
                * g.fft_size <==> banded_upto(g, low, high, n).contains(i as usize)),
        forall|i: int|
            0 <= i < banded_upto(g, low, high, n).len() ==> (#[trigger] banded_upto(
                g,
                low,
                high,
                n,
            )[i]) < n,
        forall|i: int, j: int|
            0 <= i < j < banded_upto(g, low, high, n).len() ==> banded_upto(g, low, high, n)[i]
                < banded_upto(g, low, high, n)[j],
    decreases n,
{
    if n > 0 {
        law_the_banded_bins_lie_in_the_band(g, low, high, n - 1);
        let before = banded_upto(g, low, high, n - 1);
        let now = banded_upto(g, low, high, n);
        assert forall|i: int| 0 <= i < n implies (low * g.fft_size <= #[trigger] (i * g.sample_rate)
            * 1_000_000 <= high * g.fft_size <==> now.contains(i as usize)) by {
            if i < n - 1 {
                if before.contains(i as usize) {
                    let k = choose|k: int| 0 <= k < before.len() && before[k] == i as usize;
                    assert(now[k] == i as usize);
                }
                if now.contains(i as usize) {
                    let k = choose|k: int| 0 <= k < now.len() && now[k] == i as usize;
                    assert(before[k] == i as usize);
                }
            } else if !g.is_below(i, low) && !g.is_above(i, high) {
                assert(now[now.len() - 1] == i as usize);
            }
        }
    }
}

} // verus!
