//! Summary statistics of a depth sequence.
//!
//! Every statistic is exact integer arithmetic. The mean, standard deviation
//! (population form, dividing by the count) and coefficient of variation are
//! rendered in hundredths, rounded to nearest with halves up:
//! `100·std = 100·√M/n` where `M = n·Σx² − (Σx)²`, so the rounded value is
//! `(⌊√(40000·M)⌋ + n) / (2n)`, and the coefficient of variation divides by
//! `Σx` in place of `n`.

use crate::numfmt::is_sqrt_floor;
use crate::numfmt::lemma_sqrt_unique;
use crate::numfmt::push_two_places;
use crate::numfmt::rounded_div;
use crate::numfmt::sqrt_floor;
use crate::numfmt::two_places;
use crate::wide::mul_le;
use vstd::prelude::*;

verus! {

/// The sum of the values.
pub open spec fn sum_of(s: Seq<u32>) -> int
    decreases s.len(),
{
    if s.len() == 0 {
        0
    } else {
        sum_of(s.drop_last()) + s.last()
    }
}

/// The sum of the squared values.
pub open spec fn sumsq_of(s: Seq<u32>) -> int
    decreases s.len(),
{
    if s.len() == 0 {
        0
    } else {
        sumsq_of(s.drop_last()) + s.last() * s.last()
    }
}

/// The least value, zero for an empty sequence.
pub open spec fn min_of(s: Seq<u32>) -> u32
    decreases s.len(),
{
    if s.len() == 0 {
        0u32
    } else if s.len() == 1 {
        s.last()
    } else if s.last() < min_of(s.drop_last()) {
        s.last()
    } else {
        min_of(s.drop_last())
    }
}

/// The greatest value, zero for an empty sequence.
pub open spec fn max_of(s: Seq<u32>) -> u32
    decreases s.len(),
{
    if s.len() == 0 {
        0u32
    } else if s.last() > max_of(s.drop_last()) {
        s.last()
    } else {
        max_of(s.drop_last())
    }
}

/// How many values are at least `t`.
pub open spec fn count_ge(s: Seq<u32>, t: u32) -> int
    decreases s.len(),
{
    if s.len() == 0 {
        0
    } else {
        count_ge(s.drop_last(), t) + if s.last() >= t {
            1int
        } else {
            0int
        }
    }
}

/// `n·Σx² − (Σx)²`: the population variance times `n²`.
pub open spec fn m_of(s: Seq<u32>) -> int {
    s.len() * sumsq_of(s) - sum_of(s) * sum_of(s)
}

/// The mean in hundredths, rounded; zero for an empty sequence.
pub open spec fn mean_scaled(s: Seq<u32>) -> int {
    if s.len() == 0 {
        0
    } else {
        rounded_div(100 * sum_of(s), s.len() as int)
    }
}

/// The population standard deviation in hundredths, rounded; zero for an
/// empty sequence.
pub open spec fn std_scaled(s: Seq<u32>) -> int {
    if s.len() == 0 {
        0
    } else {
        (sqrt_floor(40000 * m_of(s)) + s.len()) / (2 * s.len() as int)
    }
}

/// The coefficient of variation in hundredths, rounded; zero when the mean
/// is zero.
pub open spec fn cv_scaled(s: Seq<u32>) -> int {
    if sum_of(s) == 0 {
        0
    } else {
        (sqrt_floor(40000 * m_of(s)) + sum_of(s)) / (2 * sum_of(s))
    }
}

/// The fraction of values at least `t`, in hundredths, rounded; zero for an
/// empty sequence.
pub open spec fn pct_scaled(s: Seq<u32>, t: u32) -> int {
    if s.len() == 0 {
        0
    } else {
        rounded_div(100 * count_ge(s, t), s.len() as int)
    }
}

/// Sums are non-negative and at most the count times the largest value.
pub proof fn lemma_sum_bounds(s: Seq<u32>)
    ensures
        0 <= sum_of(s) <= s.len() * 0xFFFF_FFFF,
        0 <= sumsq_of(s) <= s.len() * (0xFFFF_FFFF * 0xFFFF_FFFF),
    decreases s.len(),
{
    if s.len() == 0 {
    } else {
        lemma_sum_bounds(s.drop_last());
        let n = s.drop_last().len() as int;
        let x = s.last() as int;
        assert(x * x <= 0xFFFF_FFFF * 0xFFFF_FFFF) by (nonlinear_arith)
            requires 0 <= x <= 0xFFFF_FFFF;
        assert(n * 0xFFFF_FFFF + 0xFFFF_FFFF == (n + 1) * 0xFFFF_FFFF) by (nonlinear_arith);
        assert(n * (0xFFFF_FFFF * 0xFFFF_FFFF) + 0xFFFF_FFFF * 0xFFFF_FFFF == (n + 1) * (
        0xFFFF_FFFF * 0xFFFF_FFFF)) by (nonlinear_arith);
    }
}

/// The square of a sum never exceeds the count times the sum of squares, so
/// the variance numerator `m_of` is never negative.
pub proof fn lemma_m_nonneg(s: Seq<u32>)
    ensures
        sum_of(s) * sum_of(s) <= s.len() * sumsq_of(s),
    decreases s.len(),
{
    if s.len() == 0 {
    } else {
        let t = s.drop_last();
        lemma_m_nonneg(t);
        lemma_sum_bounds(t);
        let n = t.len() as int;
        let sp = sum_of(t);
        let q = sumsq_of(t);
        let x = s.last() as int;
        if n == 0 {
            assert(sum_of(s) * sum_of(s) <= s.len() * sumsq_of(s)) by (nonlinear_arith)
                requires
                    sum_of(s) == x && sumsq_of(s) == x * x && s.len() == 1;
        } else {
            assert(2 * n * (sp * x) <= sp * sp + (n * n) * (x * x)) by (nonlinear_arith)
                requires n >= 1;
            assert(2 * n * (sp * x) <= n * q + (n * n) * (x * x)) by (nonlinear_arith)
                requires
                    2 * n * (sp * x) <= sp * sp + (n * n) * (x * x),
                    sp * sp <= n * q;
            assert(2 * (sp * x) <= q + n * (x * x)) by (nonlinear_arith)
                requires
                    2 * n * (sp * x) <= n * q + (n * n) * (x * x),
                    n >= 1;
            assert((sp + x) * (sp + x) <= (n + 1) * (q + x * x)) by (nonlinear_arith)
                requires
                    sp * sp <= n * q,
                    2 * (sp * x) <= q + n * (x * x);
            assert(sum_of(s) == sp + x && sumsq_of(s) == q + x * x && s.len() == n + 1);
        }
    }
}

/// The integer square root of the product `c * d`, rounded down, computed
/// without forming the product.
#[verifier::loop_isolation(false)]
pub fn isqrt_prod(c: u128, d: u128) -> (r: u128)
    ensures
        r == sqrt_floor(c * d),
{
    let mut lo: u128 = 0;
    let mut hi: u128 = u128::MAX;
    assert((hi as int + 1) * (hi as int + 1) > c * d) by (nonlinear_arith)
        requires c <= u128::MAX && d <= u128::MAX && hi == u128::MAX;
    while lo < hi
        invariant
            lo <= hi,
            (lo as int) * (lo as int) <= c * d,
            c * d < (hi as int + 1) * (hi as int + 1),
        decreases hi - lo,
    {
        let mid = hi - (hi - lo) / 2;
        if mul_le(mid, mid, c, d) {
            lo = mid;
        } else {
            hi = mid - 1;
        }
    }
    proof {
        lemma_sqrt_unique(c * d, lo as int);
    }
    lo
}

/// The sum of the values.
#[verifier::loop_isolation(false)]
pub fn sum_vec(s: &Vec<u32>) -> (t: u128)
    ensures
        t == sum_of(s@),
{
    let mut t: u128 = 0;
    let mut i: usize = 0;
    while i < s.len()
        invariant
            0 <= i <= s@.len(),
            t == sum_of(s@.take(i as int)),
        decreases s@.len() - i,
    {
        proof {
            lemma_sum_bounds(s@.take(i as int));
            assert(s@.take(i as int).len() * 0xFFFF_FFFF <= s@.len() * 0xFFFF_FFFF)
                by (nonlinear_arith)
                requires s@.take(i as int).len() <= s@.len();
            assert(s@.len() * 0xFFFF_FFFF < u128::MAX) by (nonlinear_arith)
                requires s@.len() <= usize::MAX;
            assert(s@.take(i as int + 1).drop_last() =~= s@.take(i as int));
        }
        t = t + s[i] as u128;
        i = i + 1;
    }
    assert(s@.take(s@.len() as int) =~= s@);
    t
}

/// The sum of the squared values.
#[verifier::loop_isolation(false)]
pub fn sumsq_vec(s: &Vec<u32>) -> (t: u128)
    ensures
        t == sumsq_of(s@),
{
    let mut t: u128 = 0;
    let mut i: usize = 0;
    while i < s.len()
        invariant
            0 <= i <= s@.len(),
            t == sumsq_of(s@.take(i as int)),
        decreases s@.len() - i,
    {
        proof {
            lemma_sum_bounds(s@.take(i as int));
            assert(s@.take(i as int).len() * (0xFFFF_FFFF * 0xFFFF_FFFF) <= s@.len() * (0xFFFF_FFFF
                * 0xFFFF_FFFF)) by (nonlinear_arith)
                requires s@.take(i as int).len() <= s@.len();
            assert(s@.len() * (0xFFFF_FFFF * 0xFFFF_FFFF) < u128::MAX - 0xFFFF_FFFF * 0xFFFF_FFFF)
                by (nonlinear_arith)
                requires s@.len() <= usize::MAX;
            assert((s[i as int] as int) * (s[i as int] as int) <= 0xFFFF_FFFF * 0xFFFF_FFFF)
                by (nonlinear_arith)
                requires s[i as int] <= 0xFFFF_FFFF;
            assert(s@.take(i as int + 1).drop_last() =~= s@.take(i as int));
        }
        t = t + (s[i] as u128) * (s[i] as u128);
        i = i + 1;
    }
    assert(s@.take(s@.len() as int) =~= s@);
    t
}

/// The least value, if any.
#[verifier::loop_isolation(false)]
pub fn min_vec(s: &Vec<u32>) -> (o: Option<u32>)
    ensures
        o == if s@.len() == 0 {
            Option::<u32>::None
        } else {
            Option::Some(min_of(s@))
        },
{
    if s.len() == 0 {
        return None;
    }
    let mut m: u32 = s[0];
    let mut i: usize = 1;
    assert(s@.take(1).len() == 1 && s@.take(1).last() == s@[0]);
    while i < s.len()
        invariant
            1 <= i <= s@.len(),
            m == min_of(s@.take(i as int)),
        decreases s@.len() - i,
    {
        proof {
            assert(s@.take(i as int + 1).drop_last() =~= s@.take(i as int));
        }
        if s[i] < m {
            m = s[i];
        }
        i = i + 1;
    }
    assert(s@.take(s@.len() as int) =~= s@);
    Some(m)
}

/// The greatest value, if any.
#[verifier::loop_isolation(false)]
pub fn max_vec(s: &Vec<u32>) -> (o: Option<u32>)
    ensures
        o == if s@.len() == 0 {
            Option::<u32>::None
        } else {
            Option::Some(max_of(s@))
        },
{
    if s.len() == 0 {
        return None;
    }
    let mut m: u32 = 0;
    let mut i: usize = 0;
    while i < s.len()
        invariant
            0 <= i <= s@.len(),
            m == max_of(s@.take(i as int)),
        decreases s@.len() - i,
    {
        proof {
            assert(s@.take(i as int + 1).drop_last() =~= s@.take(i as int));
        }
        if s[i] > m {
            m = s[i];
        }
        i = i + 1;
    }
    assert(s@.take(s@.len() as int) =~= s@);
    Some(m)
}

/// How many values are at least `t`.
#[verifier::loop_isolation(false)]
pub fn count_ge_vec(s: &Vec<u32>, t: u32) -> (n: usize)
    ensures
        n == count_ge(s@, t),
{
    let mut n: usize = 0;
    let mut i: usize = 0;
    while i < s.len()
        invariant
            0 <= i <= s@.len(),
            0 <= n <= i,
            n == count_ge(s@.take(i as int), t),
        decreases s@.len() - i,
    {
        proof {
            assert(s@.take(i as int + 1).drop_last() =~= s@.take(i as int));
        }
        if s[i] >= t {
            n = n + 1;
        }
        i = i + 1;
    }
    assert(s@.take(s@.len() as int) =~= s@);
    n
}

/// Appends the mean in fixed two-decimal notation.
pub fn push_mean(out: &mut String, s: &Vec<u32>)
    ensures
        final(out)@ == old(out)@ + two_places(mean_scaled(s@)),
{
    let n = s.len();
    if n == 0 {
        push_two_places(out, 0);
    } else {
        let total = sum_vec(s);
        proof {
            lemma_sum_bounds(s@);
            assert(s@.len() * 0xFFFF_FFFF < u128::MAX / 256) by (nonlinear_arith)
                requires s@.len() <= usize::MAX;
        }
        let v = (200 * total + n as u128) / (2 * n as u128);
        assert(v == rounded_div(100 * sum_of(s@), s@.len() as int));
        push_two_places(out, v);
    }
}

/// Appends the fraction of values at least `t` in fixed two-decimal
/// notation.
pub fn push_pct(out: &mut String, s: &Vec<u32>, t: u32)
    ensures
        final(out)@ == old(out)@ + two_places(pct_scaled(s@, t)),
{
    let n = s.len();
    if n == 0 {
        push_two_places(out, 0);
    } else {
        let cnt = count_ge_vec(s, t);
        let v = (200 * cnt as u128 + n as u128) / (2 * n as u128);
        assert(v == rounded_div(100 * count_ge(s@, t), s@.len() as int));
        push_two_places(out, v);
    }
}

/// Appends the population standard deviation in fixed two-decimal notation.
pub fn push_std(out: &mut String, s: &Vec<u32>)
    requires
        s@.len() < 0x1_0000_0000,
    ensures
        final(out)@ == old(out)@ + two_places(std_scaled(s@)),
{
    let n = s.len();
    if n == 0 {
        push_two_places(out, 0);
    } else {
        let m = m_value(s);
        let sq = isqrt_prod(40000, m);
        proof {
            lemma_sqrt_small(40000 * (m as int));
        }
        let v = (sq + n as u128) / (2 * n as u128);
        push_two_places(out, v);
    }
}

/// Appends the coefficient of variation in fixed two-decimal notation.
pub fn push_cv(out: &mut String, s: &Vec<u32>)
    requires
        s@.len() < 0x1_0000_0000,
    ensures
        final(out)@ == old(out)@ + two_places(cv_scaled(s@)),
{
    let total = sum_vec(s);
    proof {
        lemma_sum_bounds(s@);
        assert(s@.len() * 0xFFFF_FFFF < u128::MAX / 4) by (nonlinear_arith)
            requires s@.len() <= usize::MAX;
    }
    if total == 0 {
        push_two_places(out, 0);
    } else {
        let m = m_value(s);
        let sq = isqrt_prod(40000, m);
        proof {
            lemma_sqrt_small(40000 * (m as int));
        }
        let v = (sq + total) / (2 * total);
        push_two_places(out, v);
    }
}

/// `n·Σx² − (Σx)²`, the variance numerator.
fn m_value(s: &Vec<u32>) -> (m: u128)
    requires
        s@.len() < 0x1_0000_0000,
    ensures
        m == m_of(s@),
{
    let n = s.len();
    let total = sum_vec(s);
    let sq = sumsq_vec(s);
    proof {
        lemma_sum_bounds(s@);
        lemma_m_nonneg(s@);
        let ni = s@.len() as int;
        let si = sum_of(s@);
        let qi = sumsq_of(s@);
        assert(ni * qi < 0x1_0000_0000 * (0x1_0000_0000 * (0xFFFF_FFFF * 0xFFFF_FFFF)))
            by (nonlinear_arith)
            requires
                0 <= ni < 0x1_0000_0000,
                0 <= qi <= ni * (0xFFFF_FFFF * 0xFFFF_FFFF);
        assert(si * si <= (ni * 0xFFFF_FFFF) * (ni * 0xFFFF_FFFF)) by (nonlinear_arith)
            requires 0 <= si <= ni * 0xFFFF_FFFF;
        assert((ni * 0xFFFF_FFFF) * (ni * 0xFFFF_FFFF) < 0x1_0000_0000 * (0x1_0000_0000 * (
        0xFFFF_FFFF * 0xFFFF_FFFF))) by (nonlinear_arith)
            requires 0 <= ni < 0x1_0000_0000;
    }
    let nq = (n as u128) * sq;
    nq - (total * total)
}

/// A square root of a value this small fits far below the machine's range.
proof fn lemma_sqrt_small(x: int)
    requires
        0 <= x <= 40000 * (u128::MAX as int),
    ensures
        0 <= sqrt_floor(x) < u128::MAX - 0x1_0000_0000_0000_0000,
{
    let r = sqrt_floor(x);
    crate::numfmt::lemma_sqrt_exists(x);
    assert(is_sqrt_floor(r, x));
    assert(r < u128::MAX - 0x1_0000_0000_0000_0000) by (nonlinear_arith)
        requires
            0 <= r,
            r * r <= x,
            x <= 40000 * (u128::MAX as int);
}

} // verus!
