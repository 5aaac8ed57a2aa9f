//! Decimal rendering of integers and of rationals rounded to two places,
//! together with the integer square root used by the standard-deviation
//! statistics.

use vstd::prelude::*;
use vstd::string::*;

verus! {

/// The decimal digit character for a value below ten.
pub open spec fn digit_char(d: int) -> char {
    if d == 0 {
        '0'
    } else if d == 1 {
        '1'
    } else if d == 2 {
        '2'
    } else if d == 3 {
        '3'
    } else if d == 4 {
        '4'
    } else if d == 5 {
        '5'
    } else if d == 6 {
        '6'
    } else if d == 7 {
        '7'
    } else if d == 8 {
        '8'
    } else {
        '9'
    }
}

/// The usual decimal notation of a non-negative integer, most significant
/// digit first, with no leading zeros (a lone zero for the value zero).
pub open spec fn dec_rep(n: int) -> Seq<char>
    decreases n,
{
    if n < 10 {
        seq![digit_char(n)]
    } else {
        dec_rep(n / 10) + seq![digit_char(n % 10)]
    }
}

fn digit_str(d: u128) -> (s: &'static str)
    requires
        d < 10,
    ensures
        s@ == seq![digit_char(d as int)],
{
    proof {
        reveal_strlit("0");
        reveal_strlit("1");
        reveal_strlit("2");
        reveal_strlit("3");
        reveal_strlit("4");
        reveal_strlit("5");
        reveal_strlit("6");
        reveal_strlit("7");
        reveal_strlit("8");
        reveal_strlit("9");
    }
    if d == 0 {
        "0"
    } else if d == 1 {
        "1"
    } else if d == 2 {
        "2"
    } else if d == 3 {
        "3"
    } else if d == 4 {
        "4"
    } else if d == 5 {
        "5"
    } else if d == 6 {
        "6"
    } else if d == 7 {
        "7"
    } else if d == 8 {
        "8"
    } else {
        "9"
    }
}

/// Appends the decimal notation of `n` to `s`.
pub fn push_decimal(s: &mut String, n: u128)
    ensures
        final(s)@ == old(s)@ + dec_rep(n as int),
    decreases n,
{
    if n < 10 {
        s.append(digit_str(n));
    } else {
        push_decimal(s, n / 10);
        s.append(digit_str(n % 10));
    }
}

/// The decimal notation of `n` as a fresh string.
pub fn decimal_string(n: u64) -> (s: String)
    ensures
        s@ == dec_rep(n as int),
{
    let mut s = String::new();
    push_decimal(&mut s, n as u128);
    assert(s@ =~= dec_rep(n as int));
    s
}

/// `num / den` rounded to the nearest integer, halves rounded up.
pub open spec fn rounded_div(num: int, den: int) -> int {
    (2 * num + den) / (2 * den)
}

/// The value `v`, given in hundredths, written with exactly two decimal
/// places: the integer part, a point, then two digits.
pub open spec fn two_places(v: int) -> Seq<char> {
    dec_rep(v / 100) + seq!['.', digit_char((v / 10) % 10), digit_char(v % 10)]
}

/// Appends `v` hundredths in fixed two-decimal notation.
pub fn push_two_places(s: &mut String, v: u128)
    ensures
        final(s)@ == old(s)@ + two_places(v as int),
{
    push_decimal(s, v / 100);
    proof {
        reveal_strlit(".");
    }
    s.append(".");
    s.append(digit_str((v / 10) % 10));
    s.append(digit_str(v % 10));
    assert(s@ =~= old(s)@ + two_places(v as int));
}

/// Whether `r` is the integer square root of `x`, rounded down.
pub open spec fn is_sqrt_floor(r: int, x: int) -> bool {
    0 <= r && r * r <= x < (r + 1) * (r + 1)
}

/// The largest integer whose square does not exceed `x`.
pub open spec fn sqrt_floor(x: int) -> int {
    choose|r: int| #[trigger] is_sqrt_floor(r, x)
}

pub proof fn lemma_sqrt_exists(x: int)
    requires
        0 <= x,
    ensures
        exists|r: int| is_sqrt_floor(r, x),
    decreases x,
{
    if x == 0 {
        assert(is_sqrt_floor(0, x));
    } else {
        lemma_sqrt_exists(x - 1);
        let r = choose|r: int| #[trigger] is_sqrt_floor(r, x - 1);
        if (r + 1) * (r + 1) <= x {
            assert(x == (r + 1) * (r + 1));
            assert((r + 2) * (r + 2) > x) by (nonlinear_arith)
                requires x == (r + 1) * (r + 1) && r >= 0;
            assert(is_sqrt_floor(r + 1, x));
        } else {
            assert(is_sqrt_floor(r, x));
        }
    }
}

pub proof fn lemma_sqrt_unique(x: int, r: int)
    requires
        is_sqrt_floor(r, x),
    ensures
        sqrt_floor(x) == r,
{
    lemma_sqrt_exists(x);
    let s = sqrt_floor(x);
    assert(is_sqrt_floor(s, x));
    if s < r {
        assert((s + 1) * (s + 1) <= r * r) by (nonlinear_arith)
            requires 0 <= s && s < r;
        assert(false);
    }
    if r < s {
        assert((r + 1) * (r + 1) <= s * s) by (nonlinear_arith)
            requires 0 <= r && r < s;
        assert(false);
    }
}

/// The integer square root, rounded down.
pub fn isqrt(x: u128) -> (r: u128)
    ensures
        r * r <= x,
        (r + 1) * (r + 1) > x,
        r == sqrt_floor(x as int),
{
    let mut lo: u128 = 0;
    let mut hi: u128 = 0x1_0000_0000_0000_0000;
    // Invariant: lo * lo <= x < hi * hi, as mathematical integers.
    assert((0x1_0000_0000_0000_0000u128 as int) * (0x1_0000_0000_0000_0000u128 as int) > u128::MAX)
        by (nonlinear_arith);
    while lo + 1 < hi
        invariant
            lo < hi,
            hi <= 0x1_0000_0000_0000_0000,
            (lo as int) * (lo as int) <= x as int,
            (hi as int) * (hi as int) > x as int,
        decreases hi - lo,
    {
        let mid = lo + (hi - lo) / 2;
        assert(mid < 0x1_0000_0000_0000_0000);
        assert((mid as int) * (mid as int) < u128::MAX) by (nonlinear_arith)
            requires mid < 0x1_0000_0000_0000_0000u128;
        let sq = mid * mid;
        if sq <= x {
            lo = mid;
        } else {
            hi = mid;
        }
    }
    proof {
        lemma_sqrt_unique(x as int, lo as int);
    }
    lo
}

} // verus!
