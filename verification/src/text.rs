//! Numbers as decimal text.
use crate::arith::ONE;
use vstd::prelude::*;
use vstd::string::*;

verus! {

pub open spec fn digit(d: int) -> char {
    if d == 0 {
        '0'
    } else if d == 1 {
        '1'
    } else if d == 2 {
        '2'
    } else if d == 3 {
        '3'
    } else if d == 4 {
        '4'
    } else if d == 5 {
        '5'
    } else if d == 6 {
        '6'
    } else if d == 7 {
        '7'
    } else if d == 8 {
        '8'
    } else {
        '9'
    }
}

/// A whole number in decimal, with no leading zeros.
pub open spec fn digits(n: int) -> Seq<char>
    decreases n,
{
    if n < 10 {
        seq![digit(n)]
    } else {
        digits(n / 10).push(digit(n % 10))
    }
}

/// The last `width` decimal digits of a whole number, leading zeros included.
pub open spec fn padded(n: int, width: nat) -> Seq<char>
    decreases width,
{
    if width == 0 {
        Seq::empty()
    } else {
        padded(n / 10, (width - 1) as nat).push(digit(n % 10))
    }
}

/// Ten to the power `places`.
pub open spec fn ten_to(places: nat) -> int
    decreases places,
{
    if places == 0 {
        1
    } else {
        10 * ten_to((places - 1) as nat)
    }
}

/// `v` millionths to a number of decimal places, in units of the last of them. The nearest
/// count of units is taken, and of two that are as near the even one.
pub open spec fn rounded(v: int, places: nat) -> int {
    let scaled = v * ten_to(places);
    let below = scaled / (ONE as int);
    let rest = scaled % (ONE as int);
    if 2 * rest < ONE || (2 * rest == ONE && below % 2 == 0) {
        below
    } else {
        below + 1
    }
}

/// `v` millionths as text with `places` decimals, for `v` not negative.
pub open spec fn fixed(v: int, places: nat) -> Seq<char> {
    let n = rounded(v, places);
    if places == 0 {
        digits(n)
    } else {
        digits(n / ten_to(places)).push('.') + padded(n % ten_to(places), places)
    }
}

fn push_digit(s: &mut String, d: u64)
    requires
        d < 10,
    ensures
        final(s)@ == old(s)@.push(digit(d as int)),
{
    proof {
        reveal_strlit("0");
        reveal_strlit("1");
        reveal_strlit("2");
        reveal_strlit("3");
        reveal_strlit("4");
        reveal_strlit("5");
        reveal_strlit("6");
        reveal_strlit("7");
        reveal_strlit("8");
        reveal_strlit("9");
    }
    let one: &str = if d == 0 {
        "0"
    } else if d == 1 {
        "1"
    } else if d == 2 {
        "2"
    } else if d == 3 {
        "3"
    } else if d == 4 {
        "4"
    } else if d == 5 {
        "5"
    } else if d == 6 {
        "6"
    } else if d == 7 {
        "7"
    } else if d == 8 {
        "8"
    } else {
        "9"
    };
    s.append(one);
    assert(s@ =~= old(s)@.push(digit(d as int)));
}

/// Write a whole number in decimal.
pub fn push_decimal(s: &mut String, n: u64)
    ensures
        final(s)@ == old(s)@ + digits(n as int),
    decreases n,
{
    if n >= 10 {
        push_decimal(s, n / 10);
    }
    push_digit(s, n % 10);
    assert(s@ =~= old(s)@ + digits(n as int));
}

/// Write the last `width` decimal digits of a whole number.
pub fn push_padded(s: &mut String, n: u64, width: u32)
    ensures
        final(s)@ == old(s)@ + padded(n as int, width as nat),
    decreases width,
{
    if width > 0 {
        push_padded(s, n / 10, width - 1);
        push_digit(s, n % 10);
    }
    assert(s@ =~= old(s)@ + padded(n as int, width as nat));
}

/// Write `v` millionths with one or two decimals, or none.
pub fn push_fixed(s: &mut String, v: u64, places: u32)
    requires
        places <= 2,
    ensures
        final(s)@ == old(s)@ + fixed(v as int, places as nat),
{
    proof {
        reveal_strlit(".");
        reveal_with_fuel(ten_to, 3);
    }
    let power: u64 = if places == 0 {
        1
    } else if places == 1 {
        10
    } else {
        100
    };
    assert(power == ten_to(places as nat));
    proof {
        assert(0 <= v * power <= 100 * v) by (nonlinear_arith)
            requires
                0 <= power <= 100,
                v >= 0,
        ;
    }
    let scaled: u128 = (v as u128) * (power as u128);
    let below: u64 = (scaled / ONE as u128) as u64;
    let rest: u64 = (scaled % ONE as u128) as u64;
    let n: u64 = if 2 * rest < ONE || (2 * rest == ONE && below % 2 == 0) {
        below
    } else {
        below + 1
    };
    proof {
        let exact = (v as int) * ten_to(places as nat);
        assert(exact == scaled) by (nonlinear_arith)
            requires
                power == ten_to(places as nat),
                scaled == (v as int) * power,
                exact == (v as int) * ten_to(places as nat),
        ;
        assert(below == scaled as int / (ONE as int));
        assert(rest == scaled as int % (ONE as int));
    }
    assert(n == rounded(v as int, places as nat));
    if places == 0 {
        push_decimal(s, n);
    } else {
        push_decimal(s, n / power);
        s.append(".");
        push_padded(s, n % power, places);
        assert(s@ =~= old(s)@ + fixed(v as int, places as nat));
    }
}

/// A number is shown to the nearest of its last place: within half of it, and where it lies just
/// between two the even one is taken.
pub proof fn law_a_number_is_shown_to_the_nearest(v: int, places: nat)
    requires
        v >= 0,
    ensures
        -1_000_000 <= 2 * (rounded(v, places) * 1_000_000 - v * ten_to(places)) <= 1_000_000,
        2 * (rounded(v, places) * 1_000_000 - v * ten_to(places)) == 1_000_000 || 2 * (rounded(
            v,
            places,
        ) * 1_000_000 - v * ten_to(places)) == -1_000_000 ==> rounded(v, places) % 2 == 0,
{
}

} // verus!
