//! Fixed-point ratios, integer roots and sums over grids.
use vstd::prelude::*;

verus! {

/// One, as fractional quantities are held: in millionths. This goes for ratios and
/// scores, and for seconds, hertz, decibels and pixels where they are not whole.
pub const ONE: u64 = 1_000_000;

/// The integer square root: the largest `r` whose square is at most `n`.
pub open spec fn root(n: int) -> int {
    choose|r: int| is_root(n, r)
}

pub open spec fn is_root(n: int, r: int) -> bool {
    0 <= r && r * r <= n < (r + 1) * (r + 1)
}

pub proof fn lemma_root_unique(n: int, r: int)
    requires
        is_root(n, r),
    ensures
        root(n) == r,
{
    let q = root(n);
    assert(is_root(n, q));
    assert(q == r) by (nonlinear_arith)
        requires
            0 <= r,
            0 <= q,
            r * r <= n < (r + 1) * (r + 1),
            q * q <= n < (q + 1) * (q + 1),
    ;
}

/// The integer square root of `n`.
pub fn isqrt(n: u128) -> (r: u64)
    ensures
        is_root(n as int, r as int),
        r == root(n as int),
{
    let mut lo: u128 = 0;
    let mut hi: u128 = 0x1_0000_0000_0000_0000;
    assert(hi * hi == 0x1_0000_0000_0000_0000_0000_0000_0000_0000) by (nonlinear_arith)
        requires
            hi == 0x1_0000_0000_0000_0000,
    ;
    while hi - lo > 1
        invariant
            lo < hi <= 0x1_0000_0000_0000_0000,
            lo * lo <= n < hi * hi,
        decreases hi - lo,
    {
        let mid: u128 = lo + (hi - lo) / 2;
        assert(mid * mid <= 0xffff_ffff_ffff_ffff * 0xffff_ffff_ffff_ffff) by (nonlinear_arith)
            requires
                0 <= mid <= 0xffff_ffff_ffff_ffff,
        ;
        if mid * mid <= n {
            lo = mid;
        } else {
            hi = mid;
        }
    }
    assert(hi == lo + 1);
    proof {
        lemma_root_unique(n as int, lo as int);
    }
    lo as u64
}

/// The sum of `f` along one row of a grid, for columns `x0` up to but not including
/// `x1`.
pub open spec fn row_sum(f: spec_fn(int, int) -> int, x0: int, x1: int, y: int) -> int
    decreases x1 - x0,
{
    if x1 <= x0 {
        0
    } else {
        row_sum(f, x0, x1 - 1, y) + f(x1 - 1, y)
    }
}

/// The sum of `f` over the cells of a grid, for columns `x0` up to but not including
/// `x1` of rows `y0` up to but not including `y1`.
pub open spec fn grid_sum(
    f: spec_fn(int, int) -> int,
    x0: int,
    x1: int,
    y0: int,
    y1: int,
) -> int
    decreases y1 - y0,
{
    if y1 <= y0 {
        0
    } else {
        grid_sum(f, x0, x1, y0, y1 - 1) + row_sum(f, x0, x1, y1 - 1)
    }
}

pub proof fn lemma_row_sum_bound(
    f: spec_fn(int, int) -> int,
    x0: int,
    x1: int,
    y: int,
    lo: int,
    hi: int,
)
    requires
        x0 <= x1,
        forall|x: int| x0 <= x < x1 ==> lo <= #[trigger] f(x, y) <= hi,
    ensures
        lo * (x1 - x0) <= row_sum(f, x0, x1, y) <= hi * (x1 - x0),
    decreases x1 - x0,
{
    if x0 < x1 {
        lemma_row_sum_bound(f, x0, x1 - 1, y, lo, hi);
        assert(lo * (x1 - x0) == lo * (x1 - 1 - x0) + lo) by (nonlinear_arith);
        assert(hi * (x1 - x0) == hi * (x1 - 1 - x0) + hi) by (nonlinear_arith);
        assert(lo <= f(x1 - 1, y) <= hi);
    } else {
        assert(x1 - x0 == 0);
        assert(lo * 0 == 0 && hi * 0 == 0);
    }
}

pub proof fn lemma_grid_sum_bound(
    f: spec_fn(int, int) -> int,
    x0: int,
    x1: int,
    y0: int,
    y1: int,
    lo: int,
    hi: int,
)
    requires
        x0 <= x1,
        y0 <= y1,
        forall|x: int, y: int| x0 <= x < x1 && y0 <= y < y1 ==> lo <= #[trigger] f(x, y) <= hi,
    ensures
        lo * ((x1 - x0) * (y1 - y0)) <= grid_sum(f, x0, x1, y0, y1) <= hi * ((x1 - x0) * (y1
            - y0)),
    decreases y1 - y0,
{
    if y0 < y1 {
        lemma_grid_sum_bound(f, x0, x1, y0, y1 - 1, lo, hi);
        lemma_row_sum_bound(f, x0, x1, y1 - 1, lo, hi);
        let w = x1 - x0;
        assert(lo * (w * (y1 - y0)) == lo * (w * (y1 - 1 - y0)) + lo * w) by (nonlinear_arith);
        assert(hi * (w * (y1 - y0)) == hi * (w * (y1 - 1 - y0)) + hi * w) by (nonlinear_arith);
    } else {
        assert((x1 - x0) * (y1 - y0) == 0) by (nonlinear_arith)
            requires
                y1 == y0,
        ;
        assert(lo * 0 == 0 && hi * 0 == 0);
    }
}

/// Division rounding down, for either sign of `a`.
pub fn floor_div(a: i128, b: i128) -> (r: i128)
    requires
        0 < b <= 0x1_0000_0000_0000_0000,
        -0x4000_0000_0000_0000_0000_0000_0000_0000 <= a <= 0x4000_0000_0000_0000_0000_0000_0000_0000,
    ensures
        r == a as int / b as int,
{
    if a >= 0 {
        a / b
    } else {
        let up: i128 = (-a + b - 1) / b;
        proof {
            let m = -a as int;
            let n = b as int;
            let q = (m + n - 1) / n;
            vstd::arithmetic::div_mod::lemma_fundamental_div_mod(m + n - 1, n);
            let t = (m + n - 1) % n;
            // m + n - 1 == n * q + t, so a == n * (-q) + (n - 1 - t).
            assert(n * q == -(n * -q)) by (nonlinear_arith);
            assert(-q * n == n * -q) by (nonlinear_arith);
            vstd::arithmetic::div_mod::lemma_fundamental_div_mod_converse(
                a as int,
                n,
                -q,
                n - 1 - t,
            );
        }
        -up
    }
}

/// Whether `a` times `x` is at most `b` times `y`, without taking either product: the
/// fractions `a / b` and `y / x` are compared by their whole parts, and where those are equal
/// by what is left, turned over.
pub fn at_most(a: u128, x: u128, b: u128, y: u128) -> (r: bool)
    requires
        b > 0,
        x > 0,
    ensures
        r == (a * x <= b * y),
    decreases b + x,
{
    let p: u128 = a / b;
    let q: u128 = y / x;
    let c: u128 = a % b;
    let z: u128 = y % x;
    proof {
        vstd::arithmetic::div_mod::lemma_fundamental_div_mod(a as int, b as int);
        vstd::arithmetic::div_mod::lemma_fundamental_div_mod(y as int, x as int);
        lemma_whole_parts(
            a as int,
            x as int,
            b as int,
            y as int,
            p as int,
            q as int,
            c as int,
            z as int,
        );
    }
    if p != q {
        p < q
    } else if c == 0 {
        assert(c * x == 0 && b * z >= 0) by (nonlinear_arith)
            requires
                c == 0,
                b >= 0,
                z >= 0,
        ;
        true
    } else if z == 0 {
        assert(c * x > 0 && b * z == 0) by (nonlinear_arith)
            requires
                z == 0,
                c > 0,
                x > 0,
        ;
        false
    } else {
        assert(x * c == c * x && z * b == b * z) by (nonlinear_arith);
        at_most(x, c, z, b)
    }
}

proof fn lemma_whole_parts(a: int, x: int, b: int, y: int, p: int, q: int, c: int, z: int)
    requires
        b > 0,
        x > 0,
        a == b * p + c,
        y == x * q + z,
        0 <= c < b,
        0 <= z < x,
    ensures
        p < q ==> a * x <= b * y,
        p > q ==> a * x > b * y,
        p == q ==> (a * x <= b * y <==> c * x <= b * z),
{
    let s = b * x;
    assert(a * x == s * p + c * x && b * y == s * q + b * z) by (nonlinear_arith)
        requires
            a == b * p + c,
            y == x * q + z,
            s == b * x,
    ;
    assert(0 <= c * x < s && 0 <= b * z < s) by (nonlinear_arith)
        requires
            0 <= c < b,
            0 <= z < x,
            s == b * x,
    ;
    if p < q {
        assert(s * p + s <= s * q) by (nonlinear_arith)
            requires
                p + 1 <= q,
                s >= 0,
        ;
    } else if p > q {
        assert(s * q + s <= s * p) by (nonlinear_arith)
            requires
                q + 1 <= p,
                s >= 0,
        ;
    }
}

/// The share that `a` times `x` is of `b` times `y`, in millionths, rounded down, and one at
/// most. Neither product is taken.
pub fn capped_share(a: u128, x: u64, b: u128, y: u64) -> (r: u64)
    requires
        b > 0,
        y > 0,
    ensures
        r == if a * x >= b * y {
            ONE as int
        } else {
            a * x * ONE / (b * y)
        },
        r <= ONE,
{
    let ghost top = a * x;
    let ghost whole = b * y;
    proof {
        assert(whole > 0) by (nonlinear_arith)
            requires
                b > 0,
                y > 0,
                whole == b * y,
        ;
        assert(top >= 0) by (nonlinear_arith)
            requires
                a >= 0,
                x >= 0,
                top == a * x,
        ;
    }
    if a == 0 {
        assert(top == 0) by (nonlinear_arith)
            requires
                a == 0,
                top == a * x,
        ;
        assert(0 * ONE == 0);
        assert(0int / whole == 0) by (nonlinear_arith)
            requires
                whole > 0,
        ;
        return 0;
    }
    if at_most(b, y as u128, a, x as u128) {
        return ONE;
    }
    let mut lo: u64 = 0;
    let mut hi: u64 = ONE;
    assert(0 * whole == 0);
    assert(top * ONE < ONE * whole) by (nonlinear_arith)
        requires
            top < whole,
            ONE > 0,
    ;
    assert(top * ONE >= 0);
    while hi - lo > 1
        invariant
            a > 0,
            b > 0,
            y > 0,
            top == a * x,
            whole == b * y,
            lo < hi <= ONE,
            lo * whole <= top * ONE < hi * whole,
        decreases hi - lo,
    {
        let mid: u64 = lo + (hi - lo) / 2;
        proof {
            assert(0 < mid * y <= 1_000_000 * y) by (nonlinear_arith)
                requires
                    0 < mid <= 1_000_000,
                    0 < y,
            ;
            assert(b * (mid * y) == mid * whole) by (nonlinear_arith)
                requires
                    whole == b * y,
            ;
            assert(a * (x * 1_000_000) == top * 1_000_000) by (nonlinear_arith)
                requires
                    top == a * x,
            ;
        }
        if at_most(b, mid as u128 * y as u128, a, x as u128 * 1_000_000) {
            lo = mid;
        } else {
            hi = mid;
        }
    }
    proof {
        let rest = top * ONE - lo * whole;
        assert((lo + 1) * whole == lo * whole + whole) by (nonlinear_arith);
        vstd::arithmetic::div_mod::lemma_fundamental_div_mod_converse(
            top * ONE,
            whole,
            lo as int,
            rest,
        );
    }
    lo
}

} // verus!
