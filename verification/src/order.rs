//! Stable ordering by an integer key.
use crate::rank;
use vstd::prelude::*;
use vstd::set_lib::{lemma_int_range, lemma_len_subset, lemma_map_size, set_int_range};

verus! {

/// Item `i` comes before item `j`: its key is smaller, or the keys are equal and it
/// came first.
pub open spec fn precedes(keys: Seq<i128>, i: int, j: int) -> bool {
    keys[i] < keys[j] || (keys[i] == keys[j] && i < j)
}

/// `r` holds indices from `lo` up to but not including `hi`, in strictly ascending
/// order.
pub open spec fn ascending(keys: Seq<i128>, r: Seq<usize>, lo: int, hi: int) -> bool {
    &&& forall|p: int| 0 <= p < r.len() ==> lo <= #[trigger] r[p] < hi
    &&& forall|p: int, q: int|
        0 <= p < q < r.len() ==> #[trigger] precedes(keys, r[p] as int, r[q] as int)
}

/// `r` lists every index of `keys` once, smallest key first, equal keys in the order
/// in which they came.
pub open spec fn is_order(keys: Seq<i128>, r: Seq<usize>) -> bool {
    &&& r.len() == keys.len()
    &&& ascending(keys, r, 0, keys.len() as int)
}

/// The one list of the indices of `keys`, smallest key first, equal keys in the order
/// in which they came.
pub open spec fn order_of(keys: Seq<i128>) -> Seq<usize> {
    choose|r: Seq<usize>| is_order(keys, r)
}

/// The keys as mathematical integers.
pub open spec fn values(keys: Seq<i128>) -> Seq<int> {
    keys.map_values(|k: i128| k as int)
}

fn merge(keys: &[i128], a: &Vec<usize>, b: &Vec<usize>, lo: usize, mid: usize, hi: usize) -> (r: Vec<
    usize,
>)
    requires
        lo <= mid <= hi <= keys.len(),
        ascending(keys@, a@, lo as int, mid as int),
        ascending(keys@, b@, mid as int, hi as int),
    ensures
        r.len() == a.len() + b.len(),
        ascending(keys@, r@, lo as int, hi as int),
{
    let mut r: Vec<usize> = Vec::new();
    let mut i: usize = 0;
    let mut j: usize = 0;
    while i < a.len() || j < b.len()
        invariant
            lo <= mid <= hi <= keys.len(),
            ascending(keys@, a@, lo as int, mid as int),
            ascending(keys@, b@, mid as int, hi as int),
            i <= a.len(),
            j <= b.len(),
            r.len() == i + j,
            ascending(keys@, r@, lo as int, hi as int),
            forall|p: int|
                0 <= p < r.len() && i < a.len() ==> precedes(
                    keys@,
                    (#[trigger] r[p]) as int,
                    a[i as int] as int,
                ),
            forall|p: int|
                0 <= p < r.len() && j < b.len() ==> precedes(
                    keys@,
                    (#[trigger] r[p]) as int,
                    b[j as int] as int,
                ),
        decreases a.len() - i + (b.len() - j),
    {
        let left: bool = if i >= a.len() {
            false
        } else if j >= b.len() {
            true
        } else {
            keys[a[i]] <= keys[b[j]]
        };
        proof {
            if i + 1 < a.len() {
                assert(precedes(keys@, a[i as int] as int, a[i + 1] as int));
            }
            if j + 1 < b.len() {
                assert(precedes(keys@, b[j as int] as int, b[j + 1] as int));
            }
        }
        if left {
            r.push(a[i]);
            i = i + 1;
        } else {
            r.push(b[j]);
            j = j + 1;
        }
    }
    r
}

fn order_range(keys: &[i128], lo: usize, hi: usize) -> (r: Vec<usize>)
    requires
        lo <= hi <= keys.len(),
    ensures
        r.len() == hi - lo,
        ascending(keys@, r@, lo as int, hi as int),
    decreases hi - lo,
{
    if hi - lo <= 1 {
        let mut r: Vec<usize> = Vec::new();
        if lo < hi {
            r.push(lo);
        }
        return r;
    }
    let mid: usize = lo + (hi - lo) / 2;
    let a = order_range(keys, lo, mid);
    let b = order_range(keys, mid, hi);
    merge(keys, &a, &b, lo, mid, hi)
}

/// The indices of `keys`, smallest key first, equal keys in the order in which they
/// came.
pub fn stable_order(keys: &[i128]) -> (r: Vec<usize>)
    ensures
        is_order(keys@, r@),
        r@ == order_of(keys@),
{
    let r = order_range(keys, 0, keys.len());
    proof {
        assert(is_order(keys@, r@));
        lemma_order_unique(keys@, r@, order_of(keys@));
    }
    r
}

/// An order lists every index.
pub proof fn lemma_order_complete(keys: Seq<i128>, r: Seq<usize>, j: int)
    requires
        is_order(keys, r),
        0 <= j < keys.len(),
    ensures
        exists|p: int| 0 <= p < r.len() && #[trigger] r[p] == j,
{
    let n = keys.len() as int;
    let places = set_int_range(0, n);
    lemma_int_range(0, n);
    let f = |p: int| r[p] as int;
    let image = places.map(f);
    assert forall|p: int, q: int|
        places.contains(p) && places.contains(q) && #[trigger] f(p) == #[trigger] f(q) implies p
        == q by {
        if p < q {
            assert(precedes(keys, r[p] as int, r[q] as int));
        } else if q < p {
            assert(precedes(keys, r[q] as int, r[p] as int));
        }
    }
    lemma_map_size(places, image, f);
    assert(image.subset_of(places)) by {
        assert forall|v: int| image.contains(v) implies places.contains(v) by {
            let p = choose|p: int| places.contains(p) && f(p) == v;
            assert(0 <= r[p] < n);
        }
    }
    vstd::set_lib::lemma_subset_equality(image, places);
    assert(image.contains(j));
    let p = choose|p: int| places.contains(p) && f(p) == j;
    assert(r[p] == j);
}

/// Two orders of the same keys are the same order.
pub proof fn lemma_order_unique(keys: Seq<i128>, r: Seq<usize>, s: Seq<usize>)
    requires
        is_order(keys, r),
        is_order(keys, s),
    ensures
        r == s,
{
    assert forall|k: int| 0 <= k <= r.len() implies #[trigger] r.take(k) == s.take(k) by {
        lemma_order_unique_to(keys, r, s, k);
    }
    assert(r.take(r.len() as int) == r);
    assert(s.take(s.len() as int) == s);
}

proof fn lemma_order_unique_to(keys: Seq<i128>, r: Seq<usize>, s: Seq<usize>, k: int)
    requires
        is_order(keys, r),
        is_order(keys, s),
        0 <= k <= r.len(),
    ensures
        r.take(k) == s.take(k),
    decreases k,
{
    if k > 0 {
        lemma_order_unique_to(keys, r, s, k - 1);
        assert forall|p: int| 0 <= p < k - 1 implies r[p] == s[p] by {
            assert(r.take(k - 1)[p] == s.take(k - 1)[p]);
        }
        lemma_order_complete(keys, s, r[k - 1] as int);
        lemma_order_complete(keys, r, s[k - 1] as int);
        let p = choose|p: int| 0 <= p < s.len() && #[trigger] s[p] == r[k - 1];
        let q = choose|q: int| 0 <= q < r.len() && #[trigger] r[q] == s[k - 1];
        if p < k - 1 {
            assert(r[p] == r[k - 1]);
            assert(precedes(keys, r[p] as int, r[k - 1] as int));
        }
        if q < k - 1 {
            assert(s[q] == s[k - 1]);
            assert(precedes(keys, s[q] as int, s[k - 1] as int));
        }
        if p > k - 1 && q > k - 1 {
            assert(precedes(keys, s[k - 1] as int, s[p] as int));
            assert(precedes(keys, r[k - 1] as int, r[q] as int));
        }
        assert(r[k - 1] == s[k - 1]);
        assert(r.take(k) =~= r.take(k - 1).push(r[k - 1]));
        assert(s.take(k) =~= s.take(k - 1).push(s[k - 1]));
    }
}

/// The number of elements below `v`, as the size of a set of positions.
proof fn lemma_below_is_size(s: Seq<int>, v: int)
    ensures
        Set::new(|i: int| 0 <= i < s.len() && s[i] < v).finite(),
        rank::below(s, v) == Set::new(|i: int| 0 <= i < s.len() && s[i] < v).len(),
    decreases s.len(),
{
    let all = Set::new(|i: int| 0 <= i < s.len() && s[i] < v);
    if s.len() == 0 {
        assert(all =~= Set::empty());
    } else {
        let t = s.drop_last();
        lemma_below_is_size(t, v);
        let rest = Set::new(|i: int| 0 <= i < t.len() && t[i] < v);
        let last = s.len() - 1;
        if s[last] < v {
            assert(all =~= rest.insert(last));
        } else {
            assert(all =~= rest);
        }
    }
}

/// Position `k` of an order holds the element of rank `k`.
pub proof fn lemma_order_ranks(keys: Seq<i128>, r: Seq<usize>, k: int)
    requires
        is_order(keys, r),
        0 <= k < r.len(),
    ensures
        rank::is_rank(values(keys), k, keys[r[k] as int] as int),
        rank::ranked(values(keys), k) == keys[r[k] as int],
{
    let s = values(keys);
    let v = keys[r[k] as int] as int;
    let n = keys.len() as int;
    // Positions up to `k` hold everything below `v`.
    lemma_below_is_size(s, v);
    let low = Set::new(|i: int| 0 <= i < s.len() && s[i] < v);
    let f = |p: int| r[p] as int;
    let early = set_int_range(0, k);
    lemma_int_range(0, k);
    let early_image = early.map(f);
    assert forall|p: int, q: int|
        0 <= p < n && 0 <= q < n && #[trigger] f(p) == #[trigger] f(q) implies p == q by {
        if p < q {
            assert(precedes(keys, r[p] as int, r[q] as int));
        } else if q < p {
            assert(precedes(keys, r[q] as int, r[p] as int));
        }
    }
    lemma_map_size(early, early_image, f);
    assert(low.subset_of(early_image)) by {
        assert forall|i: int| low.contains(i) implies early_image.contains(i) by {
            lemma_order_complete(keys, r, i);
            let p = choose|p: int| 0 <= p < r.len() && #[trigger] r[p] == i;
            if p > k {
                assert(precedes(keys, r[k] as int, r[p] as int));
            }
            assert(p < k);
            assert(early.contains(p) && f(p) == i);
        }
    }
    early.lemma_map_finite(f);
    lemma_len_subset(low, early_image);
    // And positions up to and including `k` hold nothing above it.
    lemma_below_is_size(s, v + 1);
    let high = Set::new(|i: int| 0 <= i < s.len() && s[i] < v + 1);
    let upto = set_int_range(0, k + 1);
    lemma_int_range(0, k + 1);
    let upto_image = upto.map(f);
    lemma_map_size(upto, upto_image, f);
    assert(upto_image.subset_of(high)) by {
        assert forall|i: int| upto_image.contains(i) implies high.contains(i) by {
            let p = choose|p: int| upto.contains(p) && f(p) == i;
            if p < k {
                assert(precedes(keys, r[p] as int, r[k] as int));
            }
        }
    }
    lemma_len_subset(upto_image, high);
    rank::lemma_rank_unique(s, k, v);
}

/// The keys in ascending order.
pub fn sorted(keys: &[i128]) -> (r: Vec<i128>)
    ensures
        r.len() == keys.len(),
        forall|k: int|
            0 <= k < r.len() ==> #[trigger] r[k] == rank::ranked(values(keys@), k),
        forall|k: int|
            0 <= k < r.len() ==> rank::is_rank(values(keys@), k, (#[trigger] r[k]) as int),
        forall|p: int, q: int| 0 <= p <= q < r.len() ==> r[p] <= r[q],
{
    let order = stable_order(keys);
    let mut r: Vec<i128> = Vec::with_capacity(keys.len());
    let mut k: usize = 0;
    while k < order.len()
        invariant
            is_order(keys@, order@),
            k <= order.len(),
            r.len() == k,
            forall|p: int| 0 <= p < k ==> #[trigger] r[p] == keys[order[p] as int],
        decreases order.len() - k,
    {
        r.push(keys[order[k]]);
        k = k + 1;
    }
    proof {
        assert forall|k: int| 0 <= k < r.len() implies #[trigger] r[k] == rank::ranked(
            values(keys@),
            k,
        ) && rank::is_rank(values(keys@), k, r[k] as int) by {
            lemma_order_ranks(keys@, order@, k);
        }
        assert forall|p: int, q: int| 0 <= p <= q < r.len() implies r[p] <= r[q] by {
            if p < q {
                assert(precedes(keys@, order[p] as int, order[q] as int));
            }
        }
    }
    r
}

/// The place of the first entry of an order, from `i` on, whose key is above `k`.
spec fn place_of(keys: Seq<i128>, r: Seq<usize>, k: i128, i: int) -> int
    decreases r.len() - i,
{
    if i >= r.len() || keys[r[i] as int] > k {
        i
    } else {
        place_of(keys, r, k, i + 1)
    }
}

proof fn lemma_place_of(keys: Seq<i128>, r: Seq<usize>, k: i128, i: int)
    requires
        ascending(keys, r, 0, keys.len() as int),
        0 <= i <= r.len(),
        forall|q: int| 0 <= q < i ==> keys[(#[trigger] r[q]) as int] <= k,
    ensures
        i <= place_of(keys, r, k, i) <= r.len(),
        forall|q: int| 0 <= q < place_of(keys, r, k, i) ==> keys[(#[trigger] r[q]) as int] <= k,
        forall|q: int|
            place_of(keys, r, k, i) <= q < r.len() ==> keys[(#[trigger] r[q]) as int] > k,
    decreases r.len() - i,
{
    if i < r.len() {
        if keys[r[i] as int] > k {
            assert forall|q: int| i <= q < r.len() implies keys[(#[trigger] r[q]) as int] > k by {
                if q > i {
                    assert(precedes(keys, r[i] as int, r[q] as int));
                }
            }
        } else {
            lemma_place_of(keys, r, k, i + 1);
        }
    }
}

/// Keys can always be put in order.
pub proof fn lemma_order_exists(keys: Seq<i128>)
    requires
        keys.len() <= usize::MAX,
    ensures
        is_order(keys, order_of(keys)),
    decreases keys.len(),
{
    if keys.len() == 0 {
        assert(is_order(keys, Seq::<usize>::empty()));
    } else {
        let rest = keys.drop_last();
        lemma_order_exists(rest);
        let r = order_of(rest);
        let last = keys.len() - 1;
        let k = keys[last];
        assert(ascending(keys, r, 0, keys.len() as int)) by {
            assert forall|p: int, q: int| 0 <= p < q < r.len() implies #[trigger] precedes(
                keys,
                r[p] as int,
                r[q] as int,
            ) by {
                assert(precedes(rest, r[p] as int, r[q] as int));
            }
        }
        lemma_place_of(keys, r, k, 0);
        let at = place_of(keys, r, k, 0);
        let grown = r.insert(at, last as usize);
        assert forall|p: int, q: int| 0 <= p < q < grown.len() implies #[trigger] precedes(
            keys,
            grown[p] as int,
            grown[q] as int,
        ) by {
            let a = if p < at {
                p
            } else {
                p - 1
            };
            let b = if q < at {
                q
            } else {
                q - 1
            };
            if p != at && q != at {
                assert(grown[p] == r[a] && grown[q] == r[b]);
                assert(precedes(keys, r[a] as int, r[b] as int));
            } else if p == at {
                assert(grown[q] == r[b]);
            } else {
                assert(grown[p] == r[a]);
            }
        }
        assert forall|p: int| 0 <= p < grown.len() implies 0 <= #[trigger] grown[p] < keys.len() by {
            if p < at {
                assert(grown[p] == r[p]);
            } else if p > at {
                assert(grown[p] == r[p - 1]);
            }
        }
        assert(is_order(keys, grown));
    }
}

pub open spec fn sum_of(s: Seq<int>) -> int
    decreases s.len(),
{
    if s.len() == 0 {
        0
    } else {
        sum_of(s.drop_last()) + s.last()
    }
}

/// The sum of the sizes once those of the first `n` items of an order are taken away.
pub open spec fn left_after(sizes: Seq<int>, order: Seq<usize>, n: int) -> int
    decreases n,
{
    if n <= 0 {
        sum_of(sizes)
    } else {
        left_after(sizes, order, n - 1) - sizes[order[n - 1] as int]
    }
}

/// The sizes, with those of the first `n` items of an order taken for nothing.
spec fn zeroed(sizes: Seq<int>, order: Seq<usize>, n: int) -> Seq<int>
    decreases n,
{
    if n <= 0 {
        sizes
    } else {
        zeroed(sizes, order, n - 1).update(order[n - 1] as int, 0)
    }
}

pub open spec fn all_nonnegative(s: Seq<int>) -> bool {
    forall|i: int| 0 <= i < s.len() ==> 0 <= #[trigger] s[i]
}

pub proof fn lemma_sum_nonnegative(s: Seq<int>)
    requires
        all_nonnegative(s),
    ensures
        0 <= sum_of(s),
    decreases s.len(),
{
    if s.len() > 0 {
        assert forall|i: int| 0 <= i < s.drop_last().len() implies 0 <= #[trigger] s.drop_last()[i] by {
            assert(0 <= s[i]);
        }
        assert(0 <= s[s.len() - 1]);
        lemma_sum_nonnegative(s.drop_last());
    }
}

/// The sum of the first elements is no more than the sum of all.
pub proof fn lemma_sum_take(s: Seq<int>, n: int)
    requires
        all_nonnegative(s),
        0 <= n <= s.len(),
    ensures
        0 <= sum_of(s.take(n)) <= sum_of(s),
        n > 0 ==> sum_of(s.take(n)) == sum_of(s.take(n - 1)) + s[n - 1],
    decreases s.len() - n,
{
    assert forall|i: int| 0 <= i < s.take(n).len() implies 0 <= #[trigger] s.take(n)[i] by {
        assert(0 <= s[i]);
    }
    lemma_sum_nonnegative(s.take(n));
    if n < s.len() {
        lemma_sum_take(s, n + 1);
        assert(0 <= s[n]);
    } else {
        assert(s.take(n) =~= s);
    }
    if n > 0 {
        assert(s.take(n).drop_last() =~= s.take(n - 1));
    }
}

proof fn lemma_sum_update(s: Seq<int>, k: int, v: int)
    requires
        0 <= k < s.len(),
    ensures
        sum_of(s.update(k, v)) == sum_of(s) - s[k] + v,
    decreases s.len(),
{
    let u = s.update(k, v);
    if k == s.len() - 1 {
        assert(u.drop_last() =~= s.drop_last());
    } else {
        lemma_sum_update(s.drop_last(), k, v);
        assert(u.drop_last() =~= s.drop_last().update(k, v));
    }
}

proof fn lemma_zero_sum(s: Seq<int>)
    requires
        forall|i: int| 0 <= i < s.len() ==> #[trigger] s[i] == 0,
    ensures
        sum_of(s) == 0,
    decreases s.len(),
{
    if s.len() > 0 {
        assert forall|i: int| 0 <= i < s.drop_last().len() implies #[trigger] s.drop_last()[i] == 0 by {
            assert(s[i] == 0);
        }
        assert(s[s.len() - 1] == 0);
        lemma_zero_sum(s.drop_last());
    }
}

proof fn lemma_zeroed(sizes: Seq<int>, keys: Seq<i128>, order: Seq<usize>, n: int)
    requires
        is_order(keys, order),
        sizes.len() == keys.len(),
        all_nonnegative(sizes),
        0 <= n <= order.len(),
    ensures
        zeroed(sizes, order, n).len() == sizes.len(),
        all_nonnegative(zeroed(sizes, order, n)),
        left_after(sizes, order, n) == sum_of(zeroed(sizes, order, n)),
        forall|p: int|
            0 <= p < n ==> zeroed(sizes, order, n)[(#[trigger] order[p]) as int] == 0,
        forall|p: int|
            n <= p < order.len() ==> zeroed(sizes, order, n)[(#[trigger] order[p]) as int]
                == sizes[order[p] as int],
    decreases n,
{
    if n > 0 {
        lemma_zeroed(sizes, keys, order, n - 1);
        let before = zeroed(sizes, order, n - 1);
        let after = zeroed(sizes, order, n);
        let k = order[n - 1] as int;
        assert(before[k] == sizes[k]);
        lemma_sum_update(before, k, 0);
        assert forall|i: int| 0 <= i < after.len() implies 0 <= #[trigger] after[i] by {
            assert(0 <= before[i]);
        }
        assert forall|p: int| n <= p < order.len() implies after[(#[trigger] order[p]) as int]
            == sizes[order[p] as int] by {
            assert(precedes(keys, order[n - 1] as int, order[p] as int));
        }
    }
}

/// What is left is never negative, is nothing once all are gone, and covers what goes next.
pub proof fn lemma_left(sizes: Seq<int>, keys: Seq<i128>, order: Seq<usize>, n: int)
    requires
        is_order(keys, order),
        sizes.len() == keys.len(),
        all_nonnegative(sizes),
        0 <= n <= order.len(),
    ensures
        0 <= left_after(sizes, order, n) <= sum_of(sizes),
        n == order.len() ==> left_after(sizes, order, n) == 0,
        n < order.len() ==> left_after(sizes, order, n) >= sizes[order[n] as int],
    decreases n,
{
    lemma_zeroed(sizes, keys, order, n);
    let rest = zeroed(sizes, order, n);
    lemma_sum_nonnegative(rest);
    if n > 0 {
        lemma_left(sizes, keys, order, n - 1);
        assert(0 <= sizes[order[n - 1] as int]);
    }
    if n == order.len() {
        assert forall|i: int| 0 <= i < rest.len() implies #[trigger] rest[i] == 0 by {
            lemma_order_complete(keys, order, i);
            let p = choose|p: int| 0 <= p < order.len() && #[trigger] order[p] == i;
            assert(rest[order[p] as int] == 0);
        }
        lemma_zero_sum(rest);
    } else {
        lemma_zeroed(sizes, keys, order, n + 1);
        lemma_sum_nonnegative(zeroed(sizes, order, n + 1));
    }
}

} // verus!
