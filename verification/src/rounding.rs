//! Rounding a ratio whose denominator is a square root.
//!
//! A stroke offset is half a thickness times a unit vector. Its components
//! have the shape `num / (2 * sqrt(m))` with integers `num` and `m`, and this
//! module rounds such a value to the nearest integer without ever leaving
//! integer arithmetic: `k - 1/2 <= p / (2 * sqrt(m))` holds exactly when
//! `k <= 0` or `(2k - 1)^2 * m <= p^2`.

use vstd::prelude::*;

verus! {

/// The magnitude of an integer.
pub open spec fn magnitude(v: int) -> int {
    if v < 0 {
        -v
    } else {
        v
    }
}

/// For `p >= 0` and `m > 0`: `k - 1/2 <= p / (2 * sqrt(m))`.
pub open spec fn reaches(k: int, p: int, m: int) -> bool {
    k <= 0 || (2 * k - 1) * (2 * k - 1) * m <= p * p
}

/// For `p >= 0` and `m > 0`: `k` is `p / (2 * sqrt(m))` rounded to the
/// nearest integer, a half rounded up.
pub open spec fn is_nearest_magnitude(k: int, p: int, m: int) -> bool {
    &&& 0 <= k
    &&& reaches(k, p, m)
    &&& !reaches(k + 1, p, m)
}

/// For `m > 0`: `k` is `num / (2 * sqrt(m))` rounded to the nearest integer,
/// a half rounded away from zero.
pub open spec fn is_nearest(k: int, num: int, m: int) -> bool {
    if num >= 0 {
        is_nearest_magnitude(k, num, m)
    } else {
        is_nearest_magnitude(-k, -num, m)
    }
}

/// `num / (2 * sqrt(m))` rounded to the nearest integer, a half rounded away
/// from zero. Meaningful for `m > 0`.
pub open spec fn round_half_sqrt(num: int, m: int) -> int {
    choose|k: int| is_nearest(k, num, m)
}

/// Squares of naturals are ordered as the naturals are.
pub proof fn lemma_square_monotone(a: int, b: int)
    requires
        0 <= a <= b,
    ensures
        a * a <= b * b,
{
    assert(a * a <= b * b) by (nonlinear_arith)
        requires
            0 <= a <= b,
    ;
}

/// Scaling both sides of an inequality by a natural keeps it.
pub proof fn lemma_scale_le(a: int, b: int, m: int)
    requires
        a <= b,
        0 <= m,
    ensures
        a * m <= b * m,
{
    assert(a * m <= b * m) by (nonlinear_arith)
        requires
            a <= b,
            0 <= m,
    ;
}

/// Scaling both sides of a strict inequality by a positive integer keeps it.
pub proof fn lemma_scale_lt(a: int, b: int, m: int)
    requires
        a < b,
        0 < m,
    ensures
        a * m < b * m,
{
    assert(a * m < b * m) by (nonlinear_arith)
        requires
            a < b,
            0 < m,
    ;
}

/// Whatever reaches `k` reaches every smaller integer too.
pub proof fn lemma_reaches_downward(j: int, k: int, p: int, m: int)
    requires
        0 < m,
        j <= k,
        reaches(k, p, m),
    ensures
        reaches(j, p, m),
{
    if j > 0 {
        lemma_square_monotone(2 * j - 1, 2 * k - 1);
        lemma_scale_le((2 * j - 1) * (2 * j - 1), (2 * k - 1) * (2 * k - 1), m);
    }
}

/// At most one integer is the nearest one.
pub proof fn lemma_nearest_unique(k1: int, k2: int, num: int, m: int)
    requires
        0 < m,
        is_nearest(k1, num, m),
        is_nearest(k2, num, m),
    ensures
        k1 == k2,
{
    let p = if num >= 0 { num } else { -num };
    let a = if num >= 0 { k1 } else { -k1 };
    let b = if num >= 0 { k2 } else { -k2 };
    if a < b {
        lemma_reaches_downward(a + 1, b, p, m);
    }
    if b < a {
        lemma_reaches_downward(b + 1, a, p, m);
    }
}

/// An integer that is the nearest one is the rounded value.
pub proof fn lemma_round_is(k: int, num: int, m: int)
    requires
        0 < m,
        is_nearest(k, num, m),
    ensures
        round_half_sqrt(num, m) == k,
{
    lemma_nearest_unique(k, round_half_sqrt(num, m), num, m);
}

/// Zero rounds to zero.
pub proof fn lemma_round_zero(m: int)
    requires
        0 < m,
    ensures
        round_half_sqrt(0, m) == 0,
{
    lemma_zero_reaches_nothing(1, m);
    lemma_round_is(0, 0, m);
}

/// A positive integer is reached only by a positive magnitude: zero
/// reaches none.
pub proof fn lemma_zero_reaches_nothing(k: int, m: int)
    requires
        0 < m,
        0 < k,
    ensures
        !reaches(k, 0, m),
{
    let odd = 2 * k - 1;
    lemma_square_monotone(1, odd);
    lemma_scale_le(1, odd * odd, m);
}

/// Below any integer that is not reached lies the nearest one.
pub proof fn lemma_nearest_magnitude_below(p: int, m: int, hi: int) -> (k: int)
    requires
        0 < m,
        0 < hi,
        !reaches(hi, p, m),
    ensures
        0 <= k < hi,
        is_nearest_magnitude(k, p, m),
    decreases hi,
{
    if reaches(hi - 1, p, m) {
        hi - 1
    } else {
        lemma_nearest_magnitude_below(p, m, hi - 1)
    }
}

/// Every ratio has a nearest integer, and the rounded value is that one.
pub proof fn lemma_round_is_nearest(num: int, m: int)
    requires
        0 < m,
    ensures
        is_nearest(round_half_sqrt(num, m), num, m),
{
    let p = if num >= 0 { num } else { -num };
    lemma_not_reached_above(p, 1, m, p + 1);
    assert(p * 1 == p) by (nonlinear_arith);
    let k = lemma_nearest_magnitude_below(p, m, p + 1);
    let signed = if num >= 0 { k } else { -k };
    assert(is_nearest(signed, num, m));
}

/// Rounding is odd: the opposite ratio rounds to the opposite integer.
pub proof fn lemma_round_odd(num: int, m: int)
    requires
        0 < m,
    ensures
        round_half_sqrt(-num, m) == -round_half_sqrt(num, m),
{
    lemma_round_is_nearest(num, m);
    let k = round_half_sqrt(num, m);
    if num == 0 {
        lemma_round_zero(m);
    } else {
        assert(is_nearest(-k, -num, m));
        lemma_round_is(-k, -num, m);
    }
}

/// When `a^2 <= m`, the rounded value of `t * a / (2 * sqrt(m))` is at most
/// `(t + 1) / 2` in magnitude: half the thickness, rounded.
pub proof fn lemma_round_bounded(t: int, a: int, m: int)
    requires
        0 <= t,
        0 < m,
        a * a <= m,
    ensures
        -((t + 1) / 2) <= round_half_sqrt(t * a, m) <= (t + 1) / 2,
{
    let mag = if a >= 0 { a } else { -a };
    let top = (t + 1) / 2;
    assert(mag * mag == a * a) by (nonlinear_arith)
        requires
            mag == a || mag == -a,
    ;
    lemma_not_reached_above(t, mag, m, top + 1);
    let k = lemma_nearest_magnitude_below(t * mag, m, top + 1);
    assert(0 <= t * mag) by (nonlinear_arith)
        requires
            0 <= t,
            0 <= mag,
    ;
    assert(is_nearest(k, t * mag, m));
    lemma_round_is(k, t * mag, m);
    if a < 0 {
        assert(t * a == -(t * mag)) by (nonlinear_arith)
            requires
                mag == -a,
        ;
        lemma_round_odd(t * mag, m);
    }
}

/// When `a^2 <= m`, the magnitude of `t * a / (2 * sqrt(m))` stays below
/// `(t + 1) / 2 + 1/2`: no integer above `(t + 1) / 2` is reached.
pub proof fn lemma_not_reached_above(t: int, a: int, m: int, k: int)
    requires
        0 <= t,
        0 <= a,
        0 < m,
        a * a <= m,
        t + 1 <= 2 * k - 1,
    ensures
        !reaches(k, t * a, m),
{
    let p = t * a;
    let odd = 2 * k - 1;
    assert(p * p == (t * t) * (a * a)) by (nonlinear_arith)
        requires
            p == t * a,
    ;
    assert(0 <= t * t) by (nonlinear_arith);
    lemma_scale_le(a * a, m, t * t);
    assert((a * a) * (t * t) == (t * t) * (a * a)) by (nonlinear_arith);
    assert(m * (t * t) == (t * t) * m) by (nonlinear_arith);
    lemma_square_monotone(t + 1, odd);
    assert(t * t < (t + 1) * (t + 1)) by (nonlinear_arith)
        requires
            0 <= t,
    ;
    lemma_scale_lt(t * t, odd * odd, m);
}

/// Rounding keeps the sign: the rounded value is never on the other side of
/// zero than the ratio.
pub proof fn lemma_round_sign(num: int, m: int)
    requires
        0 < m,
    ensures
        num >= 0 ==> round_half_sqrt(num, m) >= 0,
        num <= 0 ==> round_half_sqrt(num, m) <= 0,
        num * round_half_sqrt(num, m) >= 0,
{
    lemma_round_is_nearest(num, m);
    let k = round_half_sqrt(num, m);
    if num == 0 {
        lemma_round_zero(m);
    }
    assert(num * k >= 0) by (nonlinear_arith)
        requires
            (num >= 0 && k >= 0) || (num <= 0 && k <= 0),
    ;
}

/// Squares of naturals are strictly ordered as the naturals are.
pub proof fn lemma_square_strictly_monotone(a: int, b: int)
    requires
        0 <= a < b,
    ensures
        a * a < b * b,
{
    assert(a * a < b * b) by (nonlinear_arith)
        requires
            0 <= a < b,
    ;
}

/// Two magnitudes in the proportion `a * pa == b * pb` round to integers in
/// nearly the same proportion: `a * (k1 - 1/2) <= b * (k2 + 1/2)`.
pub proof fn lemma_proportion_one_sided(a: int, pa: int, k1: int, b: int, pb: int, k2: int, m: int)
    requires
        0 < m,
        0 <= a,
        0 <= b,
        0 <= pa,
        0 <= pb,
        a * pa == b * pb,
        is_nearest_magnitude(k1, pa, m),
        is_nearest_magnitude(k2, pb, m),
    ensures
        (2 * k1 - 1) * a <= (2 * k2 + 1) * b,
{
    let u = 2 * k1 - 1;
    let w = 2 * k2 + 1;
    assert(0 <= w * b) by (nonlinear_arith)
        requires
            0 <= w,
            0 <= b,
    ;
    if a == 0 || k1 == 0 {
        assert(u * a <= 0) by (nonlinear_arith)
            requires
                a == 0 || u == -1,
                0 <= a,
        ;
    } else if u * a > w * b {
        // u >= 1 and a >= 1: the first magnitude reaches k1 >= 1
        assert(2 * (k2 + 1) - 1 == w);
        lemma_square_monotone(1, u);
        lemma_scale_le(1, u * u, m);
        assert(0 < pa * pa);
        if b == 0 {
            assert(a * pa == 0) by (nonlinear_arith)
                requires
                    a * pa == b * pb,
                    b == 0,
            ;
            assert(pa == 0) by (nonlinear_arith)
                requires
                    a * pa == 0,
                    a >= 1,
                    pa >= 0,
            ;
            assert(pa * pa == 0) by (nonlinear_arith)
                requires
                    pa == 0,
            ;
        } else {
            let (x, y) = (u * u, w * w);
            let (aa, bb) = (a * a, b * b);
            assert(0 <= aa && 0 < bb) by (nonlinear_arith)
                requires
                    aa == a * a,
                    bb == b * b,
                    b >= 1,
            ;
            lemma_scale_le(x * m, pa * pa, aa);
            lemma_scale_lt(pb * pb, y * m, bb);
            assert((pa * pa) * aa == (pb * pb) * bb) by (nonlinear_arith)
                requires
                    a * pa == b * pb,
                    aa == a * a,
                    bb == b * b,
            ;
            assert((x * m) * aa == (x * aa) * m && (y * m) * bb == (y * bb) * m)
                by (nonlinear_arith);
            assert((x * aa) * m < (y * bb) * m);
            if x * aa >= y * bb {
                lemma_scale_le(y * bb, x * aa, m);
            }
            assert(x * aa < y * bb);
            lemma_square_strictly_monotone(w * b, u * a);
            assert((u * a) * (u * a) == x * aa && (w * b) * (w * b) == y * bb)
                by (nonlinear_arith)
                requires
                    x == u * u,
                    y == w * w,
                    aa == a * a,
                    bb == b * b,
            ;
        }
    }
}

/// Two magnitudes in the proportion `a * pa == b * pb` round to integers
/// that keep the proportion up to half of `a + b`.
pub proof fn lemma_proportion_kept(a: int, pa: int, b: int, pb: int, m: int)
    requires
        0 < m,
        0 <= a,
        0 <= b,
        0 <= pa,
        0 <= pb,
        a * pa == b * pb,
    ensures
        -(a + b) <= 2 * (a * round_half_sqrt(pa, m) - b * round_half_sqrt(pb, m)) <= a + b,
{
    let k1 = round_half_sqrt(pa, m);
    let k2 = round_half_sqrt(pb, m);
    lemma_round_is_nearest(pa, m);
    lemma_round_is_nearest(pb, m);
    lemma_proportion_one_sided(a, pa, k1, b, pb, k2, m);
    lemma_proportion_one_sided(b, pb, k2, a, pa, k1, m);
    assert((2 * k1 - 1) * a == 2 * (a * k1) - a && (2 * k2 + 1) * b == 2 * (b * k2) + b)
        by (nonlinear_arith);
    assert((2 * k2 - 1) * b == 2 * (b * k2) - b && (2 * k1 + 1) * a == 2 * (a * k1) + a)
        by (nonlinear_arith);
}

/// Two ratios that cancel in the combination `c1 * num1 + c2 * num2` round
/// to integers that nearly cancel in it: what is left is at most half of
/// `|c1| + |c2|`, the most that two rounding errors of a half can add up to.
pub proof fn lemma_balance_kept(c1: int, num1: int, c2: int, num2: int, m: int)
    requires
        0 < m,
        c1 * num1 + c2 * num2 == 0,
    ensures
        ({
            let rest = c1 * round_half_sqrt(num1, m) + c2 * round_half_sqrt(num2, m);
            2 * magnitude(rest) <= magnitude(c1) + magnitude(c2)
        }),
{
    let k1 = round_half_sqrt(num1, m);
    let k2 = round_half_sqrt(num2, m);
    // magnitudes of the ratios, with the signs moved into the coefficients
    let pa = if num1 < 0 { -num1 } else { num1 };
    let pb = if num2 < 0 { -num2 } else { num2 };
    let e1 = if num1 < 0 { -c1 } else { c1 };
    let e2 = if num2 < 0 { -c2 } else { c2 };
    let j1 = round_half_sqrt(pa, m);
    let j2 = round_half_sqrt(pb, m);
    if num1 < 0 {
        lemma_round_odd(num1, m);
    }
    if num2 < 0 {
        lemma_round_odd(num2, m);
    }
    assert(c1 * k1 == e1 * j1 && c1 * num1 == e1 * pa) by (nonlinear_arith)
        requires
            (e1 == c1 && j1 == k1 && pa == num1) || (e1 == -c1 && j1 == -k1 && pa == -num1),
    ;
    assert(c2 * k2 == e2 * j2 && c2 * num2 == e2 * pb) by (nonlinear_arith)
        requires
            (e2 == c2 && j2 == k2 && pb == num2) || (e2 == -c2 && j2 == -k2 && pb == -num2),
    ;
    lemma_round_sign(pa, m);
    lemma_round_sign(pb, m);
    if e1 >= 0 && e2 <= 0 {
        assert(e1 * pa == (-e2) * pb) by (nonlinear_arith)
            requires
                e1 * pa + e2 * pb == 0,
        ;
        lemma_proportion_kept(e1, pa, -e2, pb, m);
        assert((-e2) * j2 == -(e2 * j2)) by (nonlinear_arith);
    } else if e1 <= 0 && e2 >= 0 {
        assert(e2 * pb == (-e1) * pa) by (nonlinear_arith)
            requires
                e1 * pa + e2 * pb == 0,
        ;
        lemma_proportion_kept(e2, pb, -e1, pa, m);
        assert((-e1) * j1 == -(e1 * j1)) by (nonlinear_arith);
    } else {
        // both coefficients on the same side of zero: both ratios are zero
        assert(pa == 0 && pb == 0) by (nonlinear_arith)
            requires
                e1 * pa + e2 * pb == 0,
                (e1 > 0 && e2 > 0) || (e1 < 0 && e2 < 0),
                pa >= 0,
                pb >= 0,
        ;
        lemma_round_zero(m);
        assert(e1 * j1 == 0 && e2 * j2 == 0) by (nonlinear_arith)
            requires
                j1 == 0,
                j2 == 0,
        ;
    }
}

/// A ratio of magnitude at least one half rounds to an integer that is not
/// zero: `num^2 >= m` says that `|num| / (2 * sqrt(m)) >= 1/2`.
pub proof fn lemma_round_nonzero(num: int, m: int)
    requires
        0 < m,
        m <= num * num,
    ensures
        round_half_sqrt(num, m) != 0,
{
    lemma_round_is_nearest(num, m);
    let p = if num < 0 { -num } else { num };
    assert(p * p == num * num) by (nonlinear_arith)
        requires
            p == num || p == -num,
    ;
    assert((2 * 1 - 1) * (2 * 1 - 1) * m == m) by (nonlinear_arith);
    assert(reaches(1, p, m));
}

/// Rounding looks at the ratio alone: stretching the numerator by `c` and
/// the square under the root by `c^2` changes nothing.
pub proof fn lemma_round_scale(c: int, num: int, m: int)
    requires
        0 < c,
        0 < m,
    ensures
        round_half_sqrt(c * num, c * c * m) == round_half_sqrt(num, m),
{
    lemma_round_is_nearest(num, m);
    let k = round_half_sqrt(num, m);
    let p = magnitude(num);
    let j = if num >= 0 { k } else { -k };
    let cc = c * c;
    assert(0 < cc) by (nonlinear_arith)
        requires
            0 < c,
            cc == c * c,
    ;
    assert(0 < cc * m) by (nonlinear_arith)
        requires
            0 < cc,
            0 < m,
    ;
    assert((c * p) * (c * p) == cc * (p * p)) by (nonlinear_arith)
        requires
            cc == c * c,
    ;
    assert(c * p >= 0 && (c * p == 0 <==> p == 0)) by (nonlinear_arith)
        requires
            0 < c,
            0 <= p,
    ;
    assert(c * num == (if num >= 0 { c * p } else { -(c * p) })) by (nonlinear_arith)
        requires
            p == (if num >= 0 { num } else { -num }),
    ;
    // what the magnitude reaches, the stretched magnitude reaches
    if j > 0 {
        let low = (2 * j - 1) * (2 * j - 1);
        lemma_scale_le(low * m, p * p, cc);
        assert(low * (cc * m) == (low * m) * cc && (p * p) * cc == cc * (p * p))
            by (nonlinear_arith);
    }
    let high = (2 * (j + 1) - 1) * (2 * (j + 1) - 1);
    lemma_scale_lt(p * p, high * m, cc);
    assert(high * (cc * m) == (high * m) * cc && (p * p) * cc == cc * (p * p))
        by (nonlinear_arith);
    assert(is_nearest_magnitude(j, c * p, cc * m));
    lemma_round_is(k, c * num, cc * m);
}

/// The integer nearest to `t * a / (2 * sqrt(m))`, a half rounded away from
/// zero, for a thickness `t` and a component `a` of a vector whose squared
/// length is `m`.
pub fn round_scaled(t: i32, a: i64, m: u128) -> (k: i32)
    requires
        0 <= t,
        0 < m < 0x4_0000_0000_0000_0000,
        a * a <= m,
    ensures
        k == round_half_sqrt(t * a, m as int),
        -((t + 1) / 2) <= k <= (t + 1) / 2,
{
    let wide: i128 = a as i128;
    let mag: u128 = if wide < 0 { (-wide) as u128 } else { wide as u128 };
    proof {
        assert(mag * mag == a * a) by (nonlinear_arith)
            requires
                mag == a || mag == -a,
        ;
        if mag >= 0x2_0000_0000 {
            lemma_square_monotone(0x2_0000_0000, mag as int);
        }
        assert(mag < 0x2_0000_0000);
        assert(t * mag < 0x8000_0000 * 0x2_0000_0000) by (nonlinear_arith)
            requires
                0 <= t < 0x8000_0000,
                0 <= mag < 0x2_0000_0000,
        ;
    }
    let p: u128 = (t as u128) * mag;
    proof {
        assert(p * p < 0x1_0000_0000_0000_0000 * 0x1_0000_0000_0000_0000) by (nonlinear_arith)
            requires
                0 <= p < 0x1_0000_0000_0000_0000,
        ;
    }
    let pp: u128 = p * p;
    let top: u32 = ((t as u32) + 1) / 2;
    let mut lo: u32 = 0;
    let mut hi: u32 = top + 1;
    proof {
        lemma_not_reached_above(t as int, mag as int, m as int, hi as int);
    }
    while hi - lo > 1
        invariant
            0 <= t,
            0 < m < 0x4_0000_0000_0000_0000,
            p == t * mag,
            pp == p * p,
            top == (t + 1) / 2,
            lo < hi <= top + 1,
            reaches(lo as int, p as int, m as int),
            !reaches(hi as int, p as int, m as int),
        decreases hi - lo,
    {
        let mid: u32 = lo + (hi - lo) / 2;
        let odd: u128 = (2 * mid - 1) as u128;
        proof {
            assert(odd * odd < 0x8000_0000 * 0x8000_0000) by (nonlinear_arith)
                requires
                    0 <= odd < 0x8000_0000,
            ;
            assert(odd * odd * m < 0x4000_0000_0000_0000 * 0x4_0000_0000_0000_0000)
                by (nonlinear_arith)
                requires
                    0 <= odd * odd < 0x4000_0000_0000_0000,
                    0 <= m < 0x4_0000_0000_0000_0000,
            ;
        }
        let reach: u128 = odd * odd * m;
        if reach <= pp {
            lo = mid;
        } else {
            hi = mid;
        }
    }
    proof {
        assert(is_nearest_magnitude(lo as int, p as int, m as int));
        if a >= 0 {
            assert(t * a == p);
            lemma_round_is(lo as int, t * a, m as int);
        } else {
            assert(t * a == -p) by (nonlinear_arith)
                requires
                    p == t * mag,
                    mag == -a,
            ;
            if p == 0 {
                if lo > 0 {
                    lemma_zero_reaches_nothing(lo as int, m as int);
                }
                lemma_round_zero(m as int);
            } else {
                lemma_round_is(-(lo as int), t * a, m as int);
            }
        }
    }
    if a < 0 {
        -(lo as i32)
    } else {
        lo as i32
    }
}

} // verus!
