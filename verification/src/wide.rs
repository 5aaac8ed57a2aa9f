//! Exact comparison of 256-bit products.
//!
//! Probabilities are exact rationals whose parts are products of 64-bit
//! counts, and the statistics scale squared sums by constants; comparing such
//! values exactly needs products wider than the machine offers. A product of
//! two 128-bit values is decomposed into four 64-bit limbs and compared
//! limbwise.

use vstd::prelude::*;

verus! {

/// One more than the largest 64-bit value.
pub const TWO64: u128 = 0x1_0000_0000_0000_0000;

/// The value of four 64-bit limbs read most significant first.
pub open spec fn limb_value(l3: int, l2: int, l1: int, l0: int) -> int {
    ((l3 * 0x1_0000_0000_0000_0000 + l2) * 0x1_0000_0000_0000_0000 + l1)
        * 0x1_0000_0000_0000_0000 + l0
}

/// Splits the product `a * b` into four 64-bit limbs, most significant first.
fn mul_limbs(a: u128, b: u128) -> (l: (u128, u128, u128, u128))
    ensures
        l.0 < TWO64 && l.1 < TWO64 && l.2 < TWO64 && l.3 < TWO64,
        limb_value(l.0 as int, l.1 as int, l.2 as int, l.3 as int) == a * b,
{
    let ah: u128 = a / TWO64;
    let al: u128 = a % TWO64;
    let bh: u128 = b / TWO64;
    let bl: u128 = b % TWO64;
    assert(ah < TWO64 && bh < TWO64);
    assert(ah * bl < TWO64 * TWO64 && al * bh < TWO64 * TWO64 && al * bl < TWO64 * TWO64 && ah * bh
        < TWO64 * TWO64) by (nonlinear_arith)
        requires ah < TWO64 && al < TWO64 && bh < TWO64 && bl < TWO64;
    let p0: u128 = al * bl;
    let p1: u128 = ah * bl;
    let p2: u128 = al * bh;
    let p3: u128 = ah * bh;
    let r0: u128 = p0 % TWO64;
    let t1: u128 = p0 / TWO64 + p1 % TWO64 + p2 % TWO64;
    let r1: u128 = t1 % TWO64;
    let t2: u128 = t1 / TWO64 + p1 / TWO64 + p2 / TWO64 + p3 % TWO64;
    let r2: u128 = t2 % TWO64;
    let t3: u128 = t2 / TWO64 + p3 / TWO64;
    let r3: u128 = t3;
    proof {
        let w: int = TWO64 as int;
        let ai = a as int;
        let bi = b as int;
        let ahi = ah as int;
        let ali = al as int;
        let bhi = bh as int;
        let bli = bl as int;
        let p0i = p0 as int;
        let p1i = p1 as int;
        let p2i = p2 as int;
        let p3i = p3 as int;
        let t1i = t1 as int;
        let t2i = t2 as int;
        let t3i = t3 as int;
        let r0i = r0 as int;
        let r1i = r1 as int;
        let r2i = r2 as int;
        let r3i = r3 as int;
        vstd::arithmetic::div_mod::lemma_fundamental_div_mod(ai, w);
        vstd::arithmetic::div_mod::lemma_fundamental_div_mod(bi, w);
        vstd::arithmetic::div_mod::lemma_fundamental_div_mod(p0i, w);
        vstd::arithmetic::div_mod::lemma_fundamental_div_mod(p1i, w);
        vstd::arithmetic::div_mod::lemma_fundamental_div_mod(p2i, w);
        vstd::arithmetic::div_mod::lemma_fundamental_div_mod(p3i, w);
        vstd::arithmetic::div_mod::lemma_fundamental_div_mod(t1i, w);
        vstd::arithmetic::div_mod::lemma_fundamental_div_mod(t2i, w);
        assert(ai == ahi * w + ali && bi == bhi * w + bli);
        assert((ahi * w + ali) * (bhi * w + bli) == (ahi * bhi) * w * w + (ahi * bli) * w + (ali
            * bhi) * w + ali * bli) by (nonlinear_arith)
            requires w == TWO64 as int;
        assert(ai * bi == p3i * w * w + p1i * w + p2i * w + p0i);
        let c0 = p0i / w;
        let c1 = t1i / w;
        let c2 = t2i / w;
        let q1 = p1i / w;
        let m1 = p1i % w;
        let q2 = p2i / w;
        let m2 = p2i % w;
        let q3 = p3i / w;
        let m3 = p3i % w;
        // Reconstruct the value limb by limb, peeling one factor of w at a
        // time.
        assert(r3i * w + r2i == t2i + q3 * w) by (nonlinear_arith)
            requires
                r3i == c2 + q3,
                t2i == w * c2 + r2i;
        assert((t2i + q3 * w) * w + r1i == t1i + q1 * w + q2 * w + m3 * w + q3 * w * w)
            by (nonlinear_arith)
            requires
                t2i == c1 + q1 + q2 + m3,
                t1i == w * c1 + r1i;
        assert((t1i + q1 * w + q2 * w + m3 * w + q3 * w * w) * w + r0i == p0i + p1i * w + p2i * w
            + p3i * w * w) by (nonlinear_arith)
            requires
                t1i == c0 + m1 + m2,
                p0i == w * c0 + r0i,
                p1i == w * q1 + m1,
                p2i == w * q2 + m2,
                p3i == w * q3 + m3;
        assert(((r3i * w + r2i) * w + r1i) * w + r0i == ai * bi) by (nonlinear_arith)
            requires
                r3i * w + r2i == t2i + q3 * w,
                (t2i + q3 * w) * w + r1i == t1i + q1 * w + q2 * w + m3 * w + q3 * w * w,
                (t1i + q1 * w + q2 * w + m3 * w + q3 * w * w) * w + r0i == p0i + p1i * w + p2i * w
                    + p3i * w * w,
                ai * bi == p3i * w * w + p1i * w + p2i * w + p0i;
        assert(limb_value(r3i, r2i, r1i, r0i) == ((r3i * w + r2i) * w + r1i) * w + r0i);
        // The top limb fits in 64 bits because the product is below w^4.
        assert(ai * bi < w * w * w * w) by (nonlinear_arith)
            requires 0 <= ai < w * w && 0 <= bi < w * w;
        assert(r3i < w) by (nonlinear_arith)
            requires
                ((r3i * w + r2i) * w + r1i) * w + r0i == ai * bi,
                ai * bi < w * w * w * w,
                r0i >= 0 && r1i >= 0 && r2i >= 0 && r3i >= 0,
                w > 0;
    }
    (r3, r2, r1, r0)
}

proof fn lemma_limb_le(a3: int, a2: int, a1: int, a0: int, b3: int, b2: int, b1: int, b0: int)
    requires
        0 <= a3 < 0x1_0000_0000_0000_0000,
        0 <= a2 < 0x1_0000_0000_0000_0000,
        0 <= a1 < 0x1_0000_0000_0000_0000,
        0 <= a0 < 0x1_0000_0000_0000_0000,
        0 <= b3 < 0x1_0000_0000_0000_0000,
        0 <= b2 < 0x1_0000_0000_0000_0000,
        0 <= b1 < 0x1_0000_0000_0000_0000,
        0 <= b0 < 0x1_0000_0000_0000_0000,
    ensures
        (limb_value(a3, a2, a1, a0) <= limb_value(b3, b2, b1, b0)) == (a3 < b3 || (a3 == b3 && (a2
            < b2 || (a2 == b2 && (a1 < b1 || (a1 == b1 && a0 <= b0)))))),
{
    let w: int = 0x1_0000_0000_0000_0000;
    assert((((a3 * w + a2) * w + a1) * w + a0 <= ((b3 * w + b2) * w + b1) * w + b0) == (a3 < b3 || (
    a3 == b3 && (a2 < b2 || (a2 == b2 && (a1 < b1 || (a1 == b1 && a0 <= b0)))))))
        by (nonlinear_arith)
        requires
            0 <= a3 < w && 0 <= a2 < w && 0 <= a1 < w && 0 <= a0 < w,
            0 <= b3 < w && 0 <= b2 < w && 0 <= b1 < w && 0 <= b0 < w,
            w == 0x1_0000_0000_0000_0000;
}

/// Whether `a * b <= c * d`, exactly, with no overflow.
pub fn mul_le(a: u128, b: u128, c: u128, d: u128) -> (r: bool)
    ensures
        r == (a * b <= c * d),
{
    let (x3, x2, x1, x0) = mul_limbs(a, b);
    let (y3, y2, y1, y0) = mul_limbs(c, d);
    proof {
        lemma_limb_le(
            x3 as int,
            x2 as int,
            x1 as int,
            x0 as int,
            y3 as int,
            y2 as int,
            y1 as int,
            y0 as int,
        );
    }
    x3 < y3 || (x3 == y3 && (x2 < y2 || (x2 == y2 && (x1 < y1 || (x1 == y1 && x0 <= y0)))))
}

} // verus!
