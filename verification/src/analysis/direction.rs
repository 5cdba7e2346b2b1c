//! Direction finding from inter-channel differences.
//!
//! Two estimators, chosen by how many directional channels the endpoint gives us. Stereo
//! inverts the constant-power pan law from the level difference between the two front
//! speakers, with the coherence of the channels for its confidence. Surround sums the
//! speakers as unit vectors: by amplitude for the bearing, by power for the confidence.
//!
//! Angles are in millionths of a degree from straight ahead, right of it positive.
use crate::audio::format::ChannelInfo;
use vstd::prelude::*;

verus! {

#[derive(Clone, Copy, Debug, PartialEq, Eq, Structural)]
pub enum DirectionMethod {
    /// Constant-power pan law inverted across two front speakers.
    StereoPanLaw,
    /// Vector sum over three or more directional speakers.
    SurroundVector,
    /// Not enough directional information to say anything.
    Insufficient,
}

#[derive(Clone, Copy, Debug, PartialEq, Eq, Structural)]
pub struct DirectionEstimate {
    /// Ship-relative azimuth. Meaningless when `method` is `Insufficient`.
    pub azimuth_deg: i64,
    /// For stereo this is coherence; for surround, energy concentration; in millionths.
    pub confidence: u64,
    pub method: DirectionMethod,
    /// True when the layout cannot distinguish front from rear, which is always the case for
    /// plain stereo.
    pub front_back_ambiguous: bool,
}

pub open spec fn no_direction() -> DirectionEstimate {
    DirectionEstimate {
        azimuth_deg: 0,
        confidence: 0,
        method: DirectionMethod::Insufficient,
        front_back_ambiguous: true,
    }
}

impl DirectionEstimate {
    pub fn insufficient() -> (r: Self)
        ensures
            r == no_direction(),
    {
        DirectionEstimate {
            azimuth_deg: 0,
            confidence: 0,
            method: DirectionMethod::Insufficient,
            front_back_ambiguous: true,
        }
    }

    pub fn is_usable(&self) -> (r: bool)
        ensures
            r == (self.method != DirectionMethod::Insufficient),
    {
        self.method != DirectionMethod::Insufficient
    }
}

/// A full turn.
pub const TURN: i64 = 360_000_000;

/// The angle between half a turn to the left, which is left out, and half a turn to the
/// right, that points the same way.
pub open spec fn wrapped(deg: int) -> int {
    let m = deg % (TURN as int);
    if m > 180_000_000 {
        m - TURN
    } else {
        m
    }
}

/// Wrap an angle into one turn about straight ahead.
pub fn wrap_deg(deg: i64) -> (r: i64)
    ensures
        r == wrapped(deg as int),
        -180_000_000 < r <= 180_000_000,
{
    let wide: i128 = deg as i128;
    // Lifted by a whole number of turns, to keep the remainder out of the negative.
    let lifted: i128 = wide + 360_000_000 * 0x1_0000_0000;
    proof {
        assert(-0x8000_0000_0000_0000 <= wide);
        vstd::arithmetic::div_mod::lemma_mod_multiples_vanish(
            0x1_0000_0000,
            wide as int,
            360_000_000,
        );
        assert(360_000_000 * 0x1_0000_0000 + wide == lifted);
    }
    if lifted < 0 {
        let far: i128 = lifted + 360_000_000 * 0x10_0000_0000;
        proof {
            vstd::arithmetic::div_mod::lemma_mod_multiples_vanish(
                0x10_0000_0000,
                lifted as int,
                360_000_000,
            );
        }
        let m: i64 = (far % 360_000_000) as i64;
        if m > 180_000_000 {
            m - TURN
        } else {
            m
        }
    } else {
        let m: i64 = (lifted % 360_000_000) as i64;
        if m > 180_000_000 {
            m - TURN
        } else {
            m
        }
    }
}

/// The smallest angle between two bearings.
pub open spec fn apart(a: int, b: int) -> int {
    let d = wrapped(a - b);
    if d < 0 {
        -d
    } else {
        d
    }
}

/// Smallest absolute angle between two bearings.
pub fn angular_error_deg(a: i64, b: i64) -> (r: i64)
    requires
        i64::MIN <= a - b <= i64::MAX,
    ensures
        r == apart(a as int, b as int),
        0 <= r <= 180_000_000,
{
    let d: i64 = wrap_deg(a - b);
    if d < 0 {
        -d
    } else {
        d
    }
}

/// Wrapping changes nothing about where an angle points, and is done once.
pub proof fn law_wrapping(deg: int)
    ensures
        -180_000_000 < wrapped(deg) <= 180_000_000,
        wrapped(wrapped(deg)) == wrapped(deg),
        (deg - wrapped(deg)) % (TURN as int) == 0,
{
}

/// The angle between two bearings does not depend on their order, nor on whole turns.
pub proof fn law_angles_are_symmetric(a: int, b: int)
    ensures
        apart(a, b) == apart(b, a),
        0 <= apart(a, b) <= 180_000_000,
        apart(a + TURN, b) == apart(a, b),
        apart(a, a) == 0,
{
    assert((a - b) % 360_000_000 == 0 ==> (b - a) % 360_000_000 == 0);
    assert((a - b) % 360_000_000 != 0 ==> (b - a) % 360_000_000 == 360_000_000 - (a - b)
        % 360_000_000);
}

/// The places of the channels that carry a bearing.
pub open spec fn directional(layout: Seq<ChannelInfo>) -> Seq<usize>
    decreases layout.len(),
{
    if layout.len() == 0 {
        Seq::empty()
    } else {
        let before = directional(layout.drop_last());
        if layout.last().azimuth_deg is Some {
            before.push((layout.len() - 1) as usize)
        } else {
            before
        }
    }
}

/// What the sums over the channels came to. There is no bearing in silence.
#[derive(Clone, Copy, Debug, PartialEq, Eq, Structural)]
pub struct Bearings {
    /// The pan law inverted between the two speakers of a pair.
    pub pan: Option<i64>,
    /// The magnitude-squared coherence of a pair, where its cross-spectrum is known.
    pub coherence: Option<u64>,
    /// The bearing of the amplitude-weighted sum.
    pub velocity: Option<i64>,
    /// The normalized length of the power-weighted sum.
    pub concentration: Option<u64>,
}

/// The two speakers of a stereo layout, the left one first, and the angle between them in
/// degrees.
pub open spec fn pair_of(layout: Seq<ChannelInfo>) -> Option<(usize, usize, int)> {
    let d = directional(layout);
    if d.len() != 2 {
        None
    } else {
        let a = layout[d[0] as int].azimuth_deg->Some_0;
        let b = layout[d[1] as int].azimuth_deg->Some_0;
        if a <= b {
            Some((d[0], d[1], b - a))
        } else {
            Some((d[1], d[0], a - b))
        }
    }
}

/// The estimate for a layout, from what the sums came to.
pub open spec fn estimate_of(layout: Seq<ChannelInfo>, b: Bearings) -> DirectionEstimate {
    let n = directional(layout).len();
    let concentration = match b.concentration {
        None => 0,
        Some(c) => c,
    };
    if n < 2 {
        no_direction()
    } else if n == 2 {
        match b.pan {
            None => no_direction(),
            Some(azimuth) => DirectionEstimate {
                azimuth_deg: azimuth,
                // Without a cross-spectrum it can only be said that something is there, not
                // that the two channels are related.
                confidence: match b.coherence {
                    Some(c) => c,
                    None => concentration,
                },
                method: DirectionMethod::StereoPanLaw,
                front_back_ambiguous: true,
            },
        }
    } else {
        match b.velocity {
            None => no_direction(),
            Some(azimuth) => DirectionEstimate {
                azimuth_deg: azimuth,
                confidence: concentration,
                method: DirectionMethod::SurroundVector,
                front_back_ambiguous: false,
            },
        }
    }
}

fn find_directional(layout: &[ChannelInfo]) -> (r: Vec<usize>)
    ensures
        r@ == directional(layout@),
        forall|k: int|
            0 <= k < r.len() ==> (#[trigger] r[k]) < layout.len() && layout@[r[k] as int].azimuth_deg is Some,
{
    let mut r: Vec<usize> = Vec::new();
    let mut i: usize = 0;
    assert(layout@.take(0) =~= Seq::empty());
    while i < layout.len()
        invariant
            i <= layout.len(),
            r@ == directional(layout@.take(i as int)),
            forall|k: int|
                0 <= k < r.len() ==> (#[trigger] r[k]) < layout.len()
                    && layout@[r[k] as int].azimuth_deg is Some,
        decreases layout.len() - i,
    {
        assert(layout@.take(i + 1).drop_last() =~= layout@.take(i as int));
        if layout[i].azimuth_deg.is_some() {
            r.push(i);
        }
        i = i + 1;
    }
    assert(layout@.take(layout.len() as int) =~= layout@);
    r
}

/// The two speakers of a stereo layout, ordered by azimuth so that a layout listing right
/// before left still works, and the whole angle between them in degrees.
pub fn speaker_pair(layout: &[ChannelInfo]) -> (r: Option<(usize, usize, i64)>)
    ensures
        match pair_of(layout@) {
            None => r is None,
            Some((l, m, spread)) => r is Some && r->Some_0.0 == l && r->Some_0.1 == m && r->Some_0.2
                == spread,
        },
{
    let d = find_directional(layout);
    if d.len() != 2 {
        return None;
    }
    assert(layout@[d[0] as int].azimuth_deg is Some);
    assert(layout@[d[1] as int].azimuth_deg is Some);
    match (layout[d[0]].azimuth_deg, layout[d[1]].azimuth_deg) {
        (Some(a), Some(b)) => {
            if a <= b {
                Some((d[0], d[1], b as i64 - a as i64))
            } else {
                Some((d[1], d[0], a as i64 - b as i64))
            }
        },
        _ => None,
    }
}

/// Pick an estimator for the layout and produce a bearing.
pub fn estimate(layout: &[ChannelInfo], sums: &Bearings) -> (r: DirectionEstimate)
    ensures
        r == estimate_of(layout@, *sums),
        layout@.filter(|c: ChannelInfo| c.azimuth_deg is Some).len() == 2 && sums.pan is Some
            ==> r.azimuth_deg == sums.pan->Some_0,
        layout@.filter(|c: ChannelInfo| c.azimuth_deg is Some).len() > 2 && sums.velocity is Some
            ==> r.azimuth_deg == sums.velocity->Some_0,
{
    proof {
        lemma_directional_filters(layout@, |c: ChannelInfo| c.azimuth_deg is Some);
    }
    let n: usize = find_directional(layout).len();
    let concentration: u64 = match sums.concentration {
        None => 0,
        Some(c) => c,
    };
    if n < 2 {
        return DirectionEstimate::insufficient();
    }
    if n == 2 {
        match sums.pan {
            None => DirectionEstimate::insufficient(),
            Some(azimuth) => DirectionEstimate {
                azimuth_deg: azimuth,
                confidence: match sums.coherence {
                    Some(c) => c,
                    None => concentration,
                },
                method: DirectionMethod::StereoPanLaw,
                front_back_ambiguous: true,
            },
        }
    } else {
        match sums.velocity {
            None => DirectionEstimate::insufficient(),
            Some(azimuth) => DirectionEstimate {
                azimuth_deg: azimuth,
                confidence: concentration,
                method: DirectionMethod::SurroundVector,
                front_back_ambiguous: false,
            },
        }
    }
}

proof fn lemma_directional_filters(layout: Seq<ChannelInfo>, pred: spec_fn(ChannelInfo) -> bool)
    requires
        forall|c: ChannelInfo| #[trigger] pred(c) == c.azimuth_deg is Some,
    ensures
        directional(layout).len() == layout.filter(pred).len(),
    decreases layout.len(),
{
    reveal(Seq::filter);
    if layout.len() > 0 {
        lemma_directional_filters(layout.drop_last(), pred);
    }
}

proof fn lemma_directional_places(layout: Seq<ChannelInfo>)
    requires
        layout.len() <= usize::MAX,
    ensures
        forall|i: int|
            0 <= i < directional(layout).len() ==> (#[trigger] directional(layout)[i])
                < layout.len() && layout[directional(layout)[i] as int].azimuth_deg is Some,
        forall|i: int, j: int|
            0 <= i < j < directional(layout).len() ==> directional(layout)[i] < directional(
                layout,
            )[j],
        forall|k: int|
            0 <= k < layout.len() && (#[trigger] layout[k]).azimuth_deg is Some ==> directional(
                layout,
            ).contains(k as usize),
    decreases layout.len(),
{
    if layout.len() > 0 {
        let rest = layout.drop_last();
        let d = directional(layout);
        let e = directional(rest);
        lemma_directional_places(rest);
        assert forall|k: int| 0 <= k < layout.len() && (#[trigger] layout[k]).azimuth_deg is Some implies d.contains(
            k as usize,
        ) by {
            if k < rest.len() {
                assert(rest[k] == layout[k]);
                let i = choose|i: int| 0 <= i < e.len() && e[i] == k as usize;
                assert(d[i] == k as usize);
            } else {
                assert(d[d.len() - 1] == k as usize);
            }
        }
    }
}

/// Of two channels with a bearing, the estimate has the bearing that the pan law gave, as it
/// is, and the coherence of the channels for its confidence, or where that is not known the
/// concentration of the energy. It never tells front from rear.
pub proof fn law_a_pair_points_where_it_is_panned(layout: Seq<ChannelInfo>, b: Bearings)
    requires
        layout.filter(|c: ChannelInfo| c.azimuth_deg is Some).len() == 2,
    ensures
        ({
            let r = estimate_of(layout, b);
            &&& b.pan is Some <==> r.method == DirectionMethod::StereoPanLaw
            &&& b.pan is None <==> r.method == DirectionMethod::Insufficient
            &&& b.pan is Some ==> r.azimuth_deg == b.pan->Some_0
            &&& b.pan is Some && b.coherence is Some ==> r.confidence == b.coherence->Some_0
            &&& b.pan is Some && b.coherence is None && b.concentration is Some ==> r.confidence
                == b.concentration->Some_0
            &&& b.pan is Some && b.coherence is None && b.concentration is None ==> r.confidence
                == 0
            &&& b.pan is None ==> r.confidence == 0
            &&& r.front_back_ambiguous
        }),
{
    lemma_directional_filters(layout, |c: ChannelInfo| c.azimuth_deg is Some);
}

/// Of two channels with a bearing the louder has it: where the pan law leans right exactly
/// where the right speaker is the louder, so does the estimate, and likewise to the left; and
/// in between it points straight ahead.
pub proof fn law_the_louder_speaker_has_the_bearing(
    layout: Seq<ChannelInfo>,
    b: Bearings,
    left: int,
    right: int,
)
    requires
        layout.filter(|c: ChannelInfo| c.azimuth_deg is Some).len() == 2,
        b.pan is Some,
        b.pan->Some_0 > 0 <==> right > left,
        b.pan->Some_0 < 0 <==> left > right,
    ensures
        estimate_of(layout, b).azimuth_deg > 0 <==> right > left,
        estimate_of(layout, b).azimuth_deg < 0 <==> left > right,
        estimate_of(layout, b).azimuth_deg == 0 <==> left == right,
{
    lemma_directional_filters(layout, |c: ChannelInfo| c.azimuth_deg is Some);
}

/// Swapping the levels of two channels turns the bearing to the other side, by as much, and
/// changes neither how far it is to be trusted nor how it was found.
pub proof fn law_swapping_the_levels_turns_the_bearing(
    layout: Seq<ChannelInfo>,
    b: Bearings,
    swapped: Bearings,
)
    requires
        layout.filter(|c: ChannelInfo| c.azimuth_deg is Some).len() == 2,
        b.pan is Some,
        swapped.pan is Some,
        swapped.pan->Some_0 == -b.pan->Some_0,
        swapped.coherence == b.coherence,
        swapped.concentration == b.concentration,
    ensures
        estimate_of(layout, swapped).azimuth_deg == -estimate_of(layout, b).azimuth_deg,
        estimate_of(layout, swapped).confidence == estimate_of(layout, b).confidence,
        estimate_of(layout, swapped).method == estimate_of(layout, b).method,
{
    lemma_directional_filters(layout, |c: ChannelInfo| c.azimuth_deg is Some);
}

/// Of three channels or more with a bearing, the estimate has the bearing of the amplitudes
/// and the concentration of the energy, and tells front from rear.
pub proof fn law_surround_points_where_its_sum_does(layout: Seq<ChannelInfo>, b: Bearings)
    requires
        layout.filter(|c: ChannelInfo| c.azimuth_deg is Some).len() > 2,
    ensures
        ({
            let r = estimate_of(layout, b);
            &&& b.velocity is Some <==> r.method == DirectionMethod::SurroundVector
            &&& b.velocity is None <==> r.method == DirectionMethod::Insufficient
            &&& b.velocity is Some ==> r.azimuth_deg == b.velocity->Some_0
            &&& b.velocity is Some && b.concentration is Some ==> r.confidence
                == b.concentration->Some_0
            &&& b.velocity is None || b.concentration is None ==> r.confidence == 0
            &&& b.velocity is Some <==> !r.front_back_ambiguous
        }),
{
    lemma_directional_filters(layout, |c: ChannelInfo| c.azimuth_deg is Some);
}

/// A layout with fewer than two channels that have a bearing says nothing of direction.
pub proof fn law_one_speaker_has_no_bearing(layout: Seq<ChannelInfo>, b: Bearings)
    requires
        layout.filter(|c: ChannelInfo| c.azimuth_deg is Some).len() < 2,
    ensures
        estimate_of(layout, b).method == DirectionMethod::Insufficient,
        estimate_of(layout, b).confidence == 0,
        estimate_of(layout, b).front_back_ambiguous,
{
    lemma_directional_filters(layout, |c: ChannelInfo| c.azimuth_deg is Some);
}

/// The pair of a layout is its two channels with a bearing, the one further left first, with
/// the angle from it to the other; there is one exactly where there are two such channels.
pub proof fn law_the_left_speaker_comes_first(layout: Seq<ChannelInfo>)
    requires
        layout.len() <= usize::MAX,
    ensures
        pair_of(layout) is Some <==> layout.filter(
            |c: ChannelInfo| c.azimuth_deg is Some,
        ).len() == 2,
        pair_of(layout) matches Some((left, right, spread)) ==> {
            &&& left < layout.len()
            &&& right < layout.len()
            &&& left != right
            &&& layout[left as int].azimuth_deg is Some
            &&& layout[right as int].azimuth_deg is Some
            &&& spread == layout[right as int].azimuth_deg->Some_0
                - layout[left as int].azimuth_deg->Some_0
            &&& spread >= 0
            &&& spread == 0 ==> left < right
            &&& forall|k: int|
                0 <= k < layout.len() && k != left && k != right ==> (
                #[trigger] layout[k]).azimuth_deg is None
        },
{
    lemma_directional_filters(layout, |c: ChannelInfo| c.azimuth_deg is Some);
    lemma_directional_places(layout);
    let d = directional(layout);
    if d.len() == 2 {
        assert(d[0] < d[1]);
        let (left, right, spread) = pair_of(layout)->Some_0;
        assert forall|k: int| 0 <= k < layout.len() && k != left && k != right implies (
        #[trigger] layout[k]).azimuth_deg is None by {
            if layout[k].azimuth_deg is Some {
                let i = choose|i: int| 0 <= i < d.len() && d[i] == k as usize;
                assert(i == 0 || i == 1);
            }
        }
    }
}

/// The strongest lag is the highest of all the lags searched, and no lag before it is as high.
pub proof fn law_no_lag_is_stronger(corr: Seq<i64>, reach: int, lag: int)
    requires
        0 <= reach,
        2 * reach < corr.len(),
        -reach <= lag <= reach,
    ensures
        ({
            let n = corr.len() as int;
            let best = best_lag(corr, reach, reach + 1);
            &&& -reach <= best <= reach
            &&& corr[(lag + n) % n] <= corr[(best + n) % n]
            &&& lag < best ==> corr[(lag + n) % n] < corr[(best + n) % n]
        }),
{
    lemma_best_lag(corr, reach, reach + 1, lag);
    let n = corr.len() as int;
    lemma_lag_place(lag, n);
    lemma_lag_place(best_lag(corr, reach, reach + 1), n);
}

proof fn lemma_lag_place(lag: int, n: int)
    requires
        -n < lag < n,
    ensures
        lag_place(lag, n) == (lag + n) % n,
{
    if lag >= 0 {
        vstd::arithmetic::div_mod::lemma_fundamental_div_mod_converse(lag + n, n, 1, lag);
    } else {
        vstd::arithmetic::div_mod::lemma_fundamental_div_mod_converse(lag + n, n, 0, lag + n);
    }
}

proof fn lemma_best_lag(corr: Seq<i64>, reach: int, end: int, lag: int)
    requires
        0 <= reach,
        -reach < end,
        -reach <= lag < end,
    ensures
        ({
            let n = corr.len() as int;
            let best = best_lag(corr, reach, end);
            &&& -reach <= best < end
            &&& corr[lag_place(lag, n)] <= corr[lag_place(best, n)]
            &&& lag < best ==> corr[lag_place(lag, n)] < corr[lag_place(best, n)]
        }),
    decreases end + reach,
{
    if end > -reach + 1 {
        lemma_best_lag(corr, reach, end - 1, if lag < end - 1 {
            lag
        } else {
            -reach
        });
    }
}

/// Where the value of a lag stands in a circular correlation: negative lags count from its
/// end.
pub open spec fn lag_place(lag: int, n: int) -> int {
    if lag >= 0 {
        lag
    } else {
        n + lag
    }
}

/// The first of the highest lags from `-reach` up to but not including `end`.
pub open spec fn best_lag(corr: Seq<i64>, reach: int, end: int) -> int
    decreases end + reach,
{
    if end <= -reach + 1 {
        -reach
    } else {
        let before = best_lag(corr, reach, end - 1);
        if corr[lag_place(end - 1, corr.len() as int)] > corr[lag_place(before, corr.len() as int)] {
            end - 1
        } else {
            before
        }
    }
}

/// How far a correlation is searched either way: no further than it holds both signs.
pub open spec fn lag_reach(n: int, max_lag: int) -> int {
    if max_lag < n / 2 - 1 {
        max_lag
    } else {
        n / 2 - 1
    }
}

/// The strongest lag of a circular correlation, positive for a delay, and its value.
///
/// Game audio is usually panned by amplitude alone, in which case this is lag 0.
pub fn strongest_lag(corr: &[i64], max_lag: usize) -> (r: (i64, i64))
    requires
        corr.len() >= 2,
        corr.len() <= i64::MAX,
    ensures
        ({
            let reach = lag_reach(corr.len() as int, max_lag as int);
            &&& r.0 == best_lag(corr@, reach, reach + 1)
            &&& r.1 == corr@[lag_place(r.0 as int, corr.len() as int)]
            &&& -reach <= r.0 <= reach
        }),
{
    let n: usize = corr.len();
    let half: usize = n / 2 - 1;
    let reach: usize = if max_lag < half {
        max_lag
    } else {
        half
    };
    let far: i64 = reach as i64;
    let mut best: i64 = -far;
    let start: usize = if reach == 0 {
        0
    } else {
        n - reach
    };
    let mut value: i64 = corr[start];
    let mut lag: i64 = 1 - far;
    while lag <= far
        invariant
            n == corr.len(),
            n <= i64::MAX,
            0 <= far <= n / 2 - 1,
            1 - far <= lag <= far + 1,
            -far <= best < lag,
            best == best_lag(corr@, far as int, lag as int),
            value == corr@[lag_place(best as int, n as int)],
        decreases far + 1 - lag,
    {
        let at: usize = if lag >= 0 {
            lag as usize
        } else {
            n - (-lag) as usize
        };
        if corr[at] > value {
            value = corr[at];
            best = lag;
        }
        lag = lag + 1;
    }
    (best, value)
}

} // verus!
