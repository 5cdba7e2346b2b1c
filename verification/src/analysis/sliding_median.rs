//! The median of a window that slides over bytes.
use crate::rank;
use vstd::prelude::*;

verus! {

/// Median of a sliding window of `u8`, in constant time per step.
///
/// A histogram of the 256 possible values, with the median position carried
/// between steps: each step adjusts a few counters.
pub struct SlidingMedian {
    counts: [u64; 256],
    total: u64,
    /// Current median value, and how many elements sit strictly below it.
    value: usize,
    below: u64,
}

impl Default for SlidingMedian {
    fn default() -> (r: Self)
        ensures
            r.wf(),
            r.size() == 0,
            forall|v: int| r.count(v) == 0,
    {
        SlidingMedian::new()
    }
}

impl SlidingMedian {
    /// How often `v` is in the window.
    pub closed spec fn count(&self, v: int) -> int {
        if 0 <= v < 256 {
            self.counts[v] as int
        } else {
            0
        }
    }

    /// How many elements of the window lie strictly below `v`.
    pub open spec fn count_below(&self, v: int) -> int
        decreases v,
    {
        if v <= 0 {
            0
        } else {
            self.count_below(v - 1) + self.count(v - 1)
        }
    }

    /// How many elements are in the window.
    pub closed spec fn size(&self) -> int {
        self.total as int
    }

    pub closed spec fn wf(&self) -> bool {
        &&& self.value < 256
        &&& self.below == self.count_below(self.value as int)
        &&& self.total == self.count_below(256)
    }

    proof fn lemma_counts_monotone(&self, v: int, w: int)
        requires
            v <= w,
        ensures
            0 <= self.count_below(v) <= self.count_below(w),
        decreases w,
    {
        if 0 < w {
            if v < w {
                self.lemma_counts_monotone(v, w - 1);
            } else {
                self.lemma_counts_monotone(v - 1, w - 1);
            }
        }
    }

    /// One element more or less moves the count below every larger value by one.
    proof fn lemma_one_changed(a: &Self, b: &Self, v: u8, up: int)
        requires
            forall|u: int| #[trigger] b.count(u) == a.count(u) + if u == v { 1int } else { 0 },
        ensures
            b.count_below(up) == a.count_below(up) + if (v as int) < up { 1int } else { 0 },
        decreases up,
    {
        if up > 0 {
            Self::lemma_one_changed(a, b, v, up - 1);
        }
    }

    /// An empty window.
    pub fn new() -> (r: Self)
        ensures
            r.wf(),
            r.size() == 0,
            forall|v: int| r.count(v) == 0,
    {
        let r = SlidingMedian { counts: [0u64; 256], total: 0, value: 0, below: 0 };
        proof {
            r.lemma_empty(256);
        }
        r
    }

    proof fn lemma_empty(&self, v: int)
        requires
            forall|u: int| 0 <= u < 256 ==> self.counts[u] == 0,
        ensures
            self.count_below(v) == 0,
        decreases v,
    {
        if v > 0 {
            self.lemma_empty(v - 1);
        }
    }

    pub fn reset(&mut self)
        ensures
            final(self).wf(),
            final(self).size() == 0,
            forall|v: int| final(self).count(v) == 0,
    {
        self.counts = [0u64; 256];
        self.total = 0;
        self.value = 0;
        self.below = 0;
        proof {
            self.lemma_empty(256);
        }
    }

    pub fn add(&mut self, v: u8)
        requires
            old(self).wf(),
            old(self).size() < u64::MAX,
        ensures
            final(self).wf(),
            final(self).size() == old(self).size() + 1,
            forall|u: int| #[trigger]
                final(self).count(u) == old(self).count(u) + if u == v { 1int } else { 0 },
    {
        proof {
            self.lemma_counts_monotone(v as int + 1, 256);
            self.lemma_counts_monotone(v as int, 256);
            self.lemma_counts_monotone(self.value as int, 256);
        }
        self.counts[v as usize] = self.counts[v as usize] + 1;
        self.total = self.total + 1;
        if (v as usize) < self.value {
            self.below = self.below + 1;
        }
        proof {
            Self::lemma_one_changed(old(self), self, v, 256);
            Self::lemma_one_changed(old(self), self, v, self.value as int);
        }
    }

    pub fn remove(&mut self, v: u8)
        requires
            old(self).wf(),
            old(self).count(v as int) > 0,
        ensures
            final(self).wf(),
            final(self).size() == old(self).size() - 1,
            forall|u: int| #[trigger]
                final(self).count(u) == old(self).count(u) - if u == v { 1int } else { 0 },
    {
        proof {
            self.lemma_counts_monotone(v as int + 1, 256);
            self.lemma_counts_monotone(v as int, 256);
            if (v as int) < self.value {
                self.lemma_counts_monotone(v as int + 1, self.value as int);
                self.lemma_counts_monotone(0, v as int);
            }
            self.lemma_counts_monotone(0, v as int);
        }
        self.counts[v as usize] = self.counts[v as usize] - 1;
        self.total = self.total - 1;
        if (v as usize) < self.value {
            self.below = self.below - 1;
        }
        proof {
            assert forall|u: int| #[trigger]
                old(self).count(u) == self.count(u) + if u == v { 1int } else { 0 } by {}
            Self::lemma_one_changed(self, old(self), v, 256);
            Self::lemma_one_changed(self, old(self), v, self.value as int);
        }
    }

    /// The lower median of the window, rebalancing from wherever the pointer was left; 0 for
    /// an empty window.
    pub fn median(&mut self) -> (r: u8)
        requires
            old(self).wf(),
        ensures
            final(self).wf(),
            final(self).size() == old(self).size(),
            forall|v: int| final(self).count(v) == old(self).count(v),
            old(self).size() == 0 ==> r == 0,
            old(self).size() > 0 ==> old(self).count_below(r as int) <= (old(self).size() - 1) / 2
                < old(self).count_below(r as int + 1),
    {
        if self.total == 0 {
            return 0;
        }
        let target: u64 = (self.total - 1) / 2;
        self.seek(target)
    }

    /// The upper median of the window, rebalancing in the same way; 0 for an empty window.
    pub fn upper_median(&mut self) -> (r: u8)
        requires
            old(self).wf(),
        ensures
            final(self).wf(),
            final(self).size() == old(self).size(),
            forall|v: int| final(self).count(v) == old(self).count(v),
            old(self).size() == 0 ==> r == 0,
            old(self).size() > 0 ==> old(self).count_below(r as int) <= old(self).size() / 2
                < old(self).count_below(r as int + 1),
    {
        if self.total == 0 {
            return 0;
        }
        let target: u64 = self.total / 2;
        self.seek(target)
    }

    /// Walk the pointer to the element at position `target` of the window put in ascending
    /// order.
    fn seek(&mut self, target: u64) -> (r: u8)
        requires
            old(self).wf(),
            target < old(self).size(),
        ensures
            final(self).wf(),
            final(self).size() == old(self).size(),
            forall|v: int| final(self).count(v) == old(self).count(v),
            old(self).count_below(r as int) <= target < old(self).count_below(r as int + 1),
    {
        let ghost before = *self;
        while self.below > target
            invariant
                self.wf(),
                self.counts == before.counts,
                self.total == before.total,
                target < self.total,
            decreases self.value,
        {
            let ghost prev = *self;
            proof {
                self.lemma_counts_monotone(0, self.value as int - 1);
            }
            self.value = self.value - 1;
            self.below = self.below - self.counts[self.value];
            proof {
                Self::lemma_same(&prev, self, 256);
                Self::lemma_same(&prev, self, self.value as int);
            }
        }
        proof {
            self.lemma_counts_monotone(self.value as int + 1, 256);
        }
        while self.below + self.counts[self.value] <= target
            invariant
                self.wf(),
                self.counts == before.counts,
                self.total == before.total,
                target < self.total,
                self.below <= target,
                self.count_below(self.value as int + 1) <= self.total,
            decreases 256 - self.value,
        {
            let ghost prev = *self;
            self.below = self.below + self.counts[self.value];
            self.value = self.value + 1;
            proof {
                assert(self.value < 256) by {
                    reveal_with_fuel(SlidingMedian::count_below, 2);
                }
                Self::lemma_same(&prev, self, 256);
                Self::lemma_same(&prev, self, self.value as int);
                self.lemma_counts_monotone(self.value as int + 1, 256);
            }
        }
        proof {
            Self::lemma_same(old(self), self, self.value as int);
            Self::lemma_same(old(self), self, self.value as int + 1);
        }
        self.value as u8
    }

    /// The element at position `k` of the window put in ascending order.
    pub fn at_rank(&self, k: u64) -> (r: u8)
        requires
            self.wf(),
            k < self.size(),
        ensures
            self.count_below(r as int) <= k < self.count_below(r as int + 1),
    {
        let mut v: usize = 0;
        let mut seen: u64 = 0;
        proof {
            self.lemma_counts_monotone(1, 256);
        }
        while seen + self.counts[v] <= k
            invariant
                self.wf(),
                k < self.size(),
                v < 256,
                seen == self.count_below(v as int),
                seen <= k,
                self.count_below(v as int + 1) <= self.size(),
            decreases 256 - v,
        {
            seen = seen + self.counts[v];
            v = v + 1;
            proof {
                self.lemma_counts_monotone(v as int + 1, 256);
            }
        }
        v as u8
    }

    proof fn lemma_same(a: &Self, b: &Self, v: int)
        requires
            a.counts == b.counts,
        ensures
            a.count_below(v) == b.count_below(v),
        decreases v,
    {
        if v > 0 {
            Self::lemma_same(a, b, v - 1);
        }
    }
}

/// A window's histogram ranks values as the window itself does.
pub proof fn lemma_histogram_ranks(hist: &SlidingMedian, s: Seq<int>, v: int)
    requires
        forall|u: int| #[trigger] hist.count(u) == rank::occurrences(s, u),
        forall|i: int| 0 <= i < s.len() ==> 0 <= #[trigger] s[i] < 256,
        v >= 0,
    ensures
        hist.count_below(v) == rank::below(s, v),
    decreases v,
{
    if v == 0 {
        rank::lemma_extremes(s, 0, 256);
    } else {
        lemma_histogram_ranks(hist, s, v - 1);
        rank::lemma_bounds(s, v - 1);
    }
}

} // verus!
