//! Order statistics of finite sequences, stated by counting.
use vstd::prelude::*;

verus! {

/// How many elements of `s` lie strictly below `v`.
pub open spec fn below(s: Seq<int>, v: int) -> int
    decreases s.len(),
{
    if s.len() == 0 {
        0
    } else {
        below(s.drop_last(), v) + if s.last() < v { 1int } else { 0 }
    }
}

/// How often `v` occurs in `s`.
pub open spec fn occurrences(s: Seq<int>, v: int) -> int
    decreases s.len(),
{
    if s.len() == 0 {
        0
    } else {
        occurrences(s.drop_last(), v) + if s.last() == v { 1int } else { 0 }
    }
}

/// `v` is the element at position `k` of `s` once `s` is put in ascending order.
pub open spec fn is_rank(s: Seq<int>, k: int, v: int) -> bool {
    below(s, v) <= k < below(s, v + 1)
}

/// The element at position `k` of `s` once `s` is put in ascending order.
pub open spec fn ranked(s: Seq<int>, k: int) -> int {
    choose|v: int| is_rank(s, k, v)
}

/// The middle element: the upper of the two where the length is even.
pub open spec fn median(s: Seq<int>) -> int {
    ranked(s, s.len() as int / 2)
}

/// The middle element: the lower of the two where the length is even.
pub open spec fn lower_median(s: Seq<int>) -> int {
    ranked(s, (s.len() - 1) / 2)
}

pub proof fn lemma_push(s: Seq<int>, x: int, v: int)
    ensures
        below(s.push(x), v) == below(s, v) + if x < v { 1int } else { 0 },
        occurrences(s.push(x), v) == occurrences(s, v) + if x == v { 1int } else { 0 },
{
    assert(s.push(x).drop_last() =~= s);
}

pub proof fn lemma_drop_first(s: Seq<int>, v: int)
    requires
        s.len() > 0,
    ensures
        below(s.drop_first(), v) == below(s, v) - if s.first() < v { 1int } else { 0 },
        occurrences(s.drop_first(), v) == occurrences(s, v) - if s.first() == v {
            1int
        } else {
            0
        },
    decreases s.len(),
{
    if s.len() == 1 {
        assert(s.drop_first() =~= Seq::empty());
        assert(s.drop_last() =~= Seq::empty());
    } else {
        lemma_drop_first(s.drop_last(), v);
        assert(s.drop_first().drop_last() =~= s.drop_last().drop_first());
    }
}

pub proof fn lemma_bounds(s: Seq<int>, v: int)
    ensures
        0 <= below(s, v) <= s.len(),
        0 <= occurrences(s, v) <= s.len(),
        below(s, v + 1) == below(s, v) + occurrences(s, v),
    decreases s.len(),
{
    if s.len() > 0 {
        lemma_bounds(s.drop_last(), v);
    }
}

pub proof fn lemma_monotone(s: Seq<int>, v: int, w: int)
    requires
        v <= w,
    ensures
        below(s, v) <= below(s, w),
    decreases s.len(),
{
    if s.len() > 0 {
        lemma_monotone(s.drop_last(), v, w);
    }
}

/// A sequence has only one element of each rank.
pub proof fn lemma_rank_unique(s: Seq<int>, k: int, v: int)
    requires
        is_rank(s, k, v),
    ensures
        ranked(s, k) == v,
{
    let w = ranked(s, k);
    assert(is_rank(s, k, w));
    if v < w {
        lemma_monotone(s, v + 1, w);
    } else if w < v {
        lemma_monotone(s, w + 1, v);
    }
}

/// Nothing is below a value that every element reaches, and everything is below
/// a value that none reaches.
pub proof fn lemma_extremes(s: Seq<int>, lo: int, hi: int)
    requires
        forall|i: int| 0 <= i < s.len() ==> lo <= #[trigger] s[i] < hi,
    ensures
        below(s, lo) == 0,
        below(s, hi) == s.len(),
    decreases s.len(),
{
    if s.len() > 0 {
        let t = s.drop_last();
        assert forall|i: int| 0 <= i < t.len() implies lo <= #[trigger] t[i] < hi by {
            assert(t[i] == s[i]);
        }
        assert(s.last() == s[s.len() - 1]);
        lemma_extremes(t, lo, hi);
    }
}

/// There is an element of each rank, and it lies where all the elements do.
pub proof fn lemma_rank_exists(s: Seq<int>, k: int, lo: int, hi: int)
    requires
        0 <= k < s.len(),
        below(s, lo) <= k < below(s, hi),
    ensures
        lo <= ranked(s, k) < hi,
        is_rank(s, k, ranked(s, k)),
    decreases hi - lo,
{
    if lo >= hi {
        lemma_monotone(s, hi, lo);
    }
    if below(s, lo + 1) > k {
        assert(is_rank(s, k, lo));
        lemma_rank_unique(s, k, lo);
    } else {
        lemma_rank_exists(s, k, lo + 1, hi);
    }
}

proof fn lemma_below_filters(s: Seq<int>, v: int, pred: spec_fn(int) -> bool)
    requires
        forall|x: int| #[trigger] pred(x) == (x < v),
    ensures
        below(s, v) == s.filter(pred).len(),
    decreases s.len(),
{
    reveal(Seq::filter);
    if s.len() > 0 {
        lemma_below_filters(s.drop_last(), v, pred);
    }
}

/// Some value is below every element, and some above.
proof fn lemma_bounded(s: Seq<int>) -> (r: (int, int))
    ensures
        forall|i: int| 0 <= i < s.len() ==> r.0 <= #[trigger] s[i] < r.1,
    decreases s.len(),
{
    if s.len() == 0 {
        (0, 0)
    } else {
        let t = s.drop_last();
        let (lo, hi) = lemma_bounded(t);
        let r = (
            if s.last() < lo {
                s.last()
            } else {
                lo
            },
            if s.last() >= hi {
                s.last() + 1
            } else {
                hi
            },
        );
        assert forall|i: int| 0 <= i < s.len() implies r.0 <= #[trigger] s[i] < r.1 by {
            if i < t.len() {
                assert(t[i] == s[i]);
            }
        }
        r
    }
}

pub proof fn lemma_rank_total(s: Seq<int>, k: int)
    requires
        0 <= k < s.len(),
    ensures
        is_rank(s, k, ranked(s, k)),
{
    let (lo, hi) = lemma_bounded(s);
    lemma_extremes(s, lo, hi);
    lemma_rank_exists(s, k, lo, hi);
}

/// What occurs in a sequence stands somewhere in it.
proof fn lemma_occurs(s: Seq<int>, v: int)
    requires
        occurrences(s, v) > 0,
    ensures
        s.contains(v),
    decreases s.len(),
{
    if s.last() == v {
        assert(s[s.len() - 1] == v);
    } else {
        lemma_occurs(s.drop_last(), v);
        let i = choose|i: int| 0 <= i < s.drop_last().len() && s.drop_last()[i] == v;
        assert(s[i] == v);
    }
}

/// The element of rank `k` is one of the elements; no more than `k` of them are smaller, and
/// more than `k` are no larger.
pub proof fn law_a_rank_is_a_count(s: Seq<int>, k: int)
    requires
        0 <= k < s.len(),
    ensures
        s.contains(ranked(s, k)),
        s.filter(|x: int| x < ranked(s, k)).len() <= k < s.filter(|x: int| x <= ranked(s, k)).len(),
{
    let v = ranked(s, k);
    lemma_rank_total(s, k);
    lemma_bounds(s, v);
    lemma_occurs(s, v);
    lemma_below_filters(s, v, |x: int| x < ranked(s, k));
    lemma_below_filters(s, v + 1, |x: int| x <= ranked(s, k));
}

/// The median is one of the elements, and no more than half of them lie on either side of it.
pub proof fn law_half_lie_either_side_of_the_median(s: Seq<int>)
    requires
        s.len() > 0,
    ensures
        s.contains(median(s)),
        2 * s.filter(|x: int| x < median(s)).len() <= s.len(),
        2 * s.filter(|x: int| x <= median(s)).len() > s.len(),
{
    law_a_rank_is_a_count(s, s.len() as int / 2);
    assert((|x: int| x < median(s)) =~= (|x: int| x < ranked(s, s.len() as int / 2)));
    assert((|x: int| x <= median(s)) =~= (|x: int| x <= ranked(s, s.len() as int / 2)));
}

/// The lower median is one of the elements, and fewer than half of them lie below it.
pub proof fn law_half_reach_the_lower_median(s: Seq<int>)
    requires
        s.len() > 0,
    ensures
        s.contains(lower_median(s)),
        2 * s.filter(|x: int| x < lower_median(s)).len() < s.len(),
        2 * s.filter(|x: int| x <= lower_median(s)).len() >= s.len(),
{
    law_a_rank_is_a_count(s, (s.len() - 1) / 2);
    assert((|x: int| x < lower_median(s)) =~= (|x: int| x < ranked(s, (s.len() - 1) / 2)));
    assert((|x: int| x <= lower_median(s)) =~= (|x: int| x <= ranked(s, (s.len() - 1) / 2)));
}

} // verus!
