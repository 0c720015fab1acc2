//! Fixed-point scalars.
//!
//! A scalar is an `i64` that counts millionths: the raw value `1_400_000`
//! stands for 1.4. Sums saturate at the ends of the `i64` range; products and
//! quotients are truncated toward zero and then saturate.
use vstd::prelude::*;

verus! {

/// The raw value that stands for one.
pub const UNIT: i64 = 1_000_000;

/// The raw value that stands for one half.
pub const HALF: i64 = 500_000;

/// `x` brought into the `i64` range.
pub open spec fn sat(x: int) -> int {
    if x < i64::MIN {
        i64::MIN as int
    } else if x > i64::MAX {
        i64::MAX as int
    } else {
        x
    }
}

/// The quotient of `a` by `b`, truncated toward zero (`b` is not zero).
pub open spec fn tdiv(a: int, b: int) -> int {
    if a >= 0 {
        if b > 0 {
            a / b
        } else {
            -(a / (-b))
        }
    } else {
        if b > 0 {
            -((-a) / b)
        } else {
            (-a) / (-b)
        }
    }
}

/// The integer nearest to `a / b`, a tie going away from zero (`b` is positive).
pub open spec fn round_div(a: int, b: int) -> int {
    if a >= 0 {
        (2 * a + b) / (2 * b)
    } else {
        -((2 * (-a) + b) / (2 * b))
    }
}

/// The sum, saturated.
pub open spec fn spec_add(a: int, b: int) -> int {
    sat(a + b)
}

/// The difference, saturated.
pub open spec fn spec_sub(a: int, b: int) -> int {
    sat(a - b)
}

/// The negative, saturated.
pub open spec fn spec_neg(a: int) -> int {
    sat(-a)
}

/// The fixed-point product: `a * b / UNIT`, truncated, saturated.
pub open spec fn spec_mul(a: int, b: int) -> int {
    sat(tdiv(a * b, UNIT as int))
}

/// The fixed-point quotient: `a * UNIT / b`, truncated, saturated.
pub open spec fn spec_div(a: int, b: int) -> int {
    sat(tdiv(a * UNIT, b))
}

/// `n` times the scalar `a`, for a plain count `n`, saturated.
pub open spec fn spec_times(n: int, a: int) -> int {
    sat(n * a)
}

/// `r` is the fixed-point square root of `a`, rounded down; zero below zero.
pub open spec fn is_sqrt(a: int, r: int) -> bool {
    if a <= 0 {
        r == 0
    } else {
        r >= 0 && r * r <= a * UNIT < (r + 1) * (r + 1)
    }
}

/// The fixed-point square root of `a`, rounded down; zero below zero.
pub open spec fn spec_sqrt(a: int) -> int {
    choose|r: int| is_sqrt(a, r)
}

/// The distance from zero.
pub open spec fn spec_abs(a: int) -> int {
    if a < 0 {
        -a
    } else {
        a
    }
}

/// A wide integer brought into the `i64` range.
pub fn fx_clamp(x: i128) -> (r: i64)
    ensures
        r == sat(x as int),
{
    if x < i64::MIN as i128 {
        i64::MIN
    } else if x > i64::MAX as i128 {
        i64::MAX
    } else {
        x as i64
    }
}

/// Truncating division on wide integers.
fn wide_div(n: i128, d: i128) -> (r: i128)
    requires
        d != 0,
        -0x4000_0000_0000_0000_0000_0000_0000_0000 <= n <= 0x4000_0000_0000_0000_0000_0000_0000_0000,
        -0x4000_0000_0000_0000_0000_0000_0000_0000 <= d <= 0x4000_0000_0000_0000_0000_0000_0000_0000,
    ensures
        r == tdiv(n as int, d as int),
        spec_abs(r as int) <= spec_abs(n as int),
{
    if n >= 0 {
        if d > 0 {
            let q: i128 = n / d;
            assert(0 <= (n as int) / (d as int) <= n) by (nonlinear_arith)
                requires
                    n >= 0,
                    d > 0,
            ;
            q
        } else {
            let m: i128 = -d;
            assert(0 <= (n as int) / (m as int) <= n) by (nonlinear_arith)
                requires
                    n >= 0,
                    m > 0,
            ;
            let q: i128 = n / m;
            -q
        }
    } else {
        let p: i128 = -n;
        if d > 0 {
            assert(0 <= (p as int) / (d as int) <= p) by (nonlinear_arith)
                requires
                    p >= 0,
                    d > 0,
            ;
            let q: i128 = p / d;
            -q
        } else {
            let m: i128 = -d;
            assert(0 <= (p as int) / (m as int) <= p) by (nonlinear_arith)
                requires
                    p >= 0,
                    m > 0,
            ;
            p / m
        }
    }
}

/// The product of two 64-bit numbers fits in 128 bits with room to spare.
pub proof fn lemma_product_fits(a: int, b: int)
    requires
        -0x8000_0000_0000_0000 <= a <= 0x8000_0000_0000_0000,
        -0x8000_0000_0000_0000 <= b <= 0x8000_0000_0000_0000,
    ensures
        -0x4000_0000_0000_0000_0000_0000_0000_0000 <= a * b
            <= 0x4000_0000_0000_0000_0000_0000_0000_0000,
{
    assert(-0x4000_0000_0000_0000_0000_0000_0000_0000 <= a * b
        <= 0x4000_0000_0000_0000_0000_0000_0000_0000) by (nonlinear_arith)
        requires
            -0x8000_0000_0000_0000 <= a <= 0x8000_0000_0000_0000,
            -0x8000_0000_0000_0000 <= b <= 0x8000_0000_0000_0000,
    ;
}

/// The sum of two scalars.
pub fn fx_add(a: i64, b: i64) -> (r: i64)
    ensures
        r == spec_add(a as int, b as int),
{
    fx_clamp(a as i128 + b as i128)
}

/// The difference of two scalars.
pub fn fx_sub(a: i64, b: i64) -> (r: i64)
    ensures
        r == spec_sub(a as int, b as int),
{
    fx_clamp(a as i128 - b as i128)
}

/// The scalar with its sign turned.
pub fn fx_neg(a: i64) -> (r: i64)
    ensures
        r == spec_neg(a as int),
{
    fx_clamp(-(a as i128))
}

/// The product of two scalars.
pub fn fx_mul(a: i64, b: i64) -> (r: i64)
    ensures
        r == spec_mul(a as int, b as int),
{
    proof {
        lemma_product_fits(a as int, b as int);
    }
    let wide: i128 = (a as i128) * (b as i128);
    fx_clamp(wide_div(wide, UNIT as i128))
}

/// The quotient of two scalars.
pub fn fx_div(a: i64, b: i64) -> (r: i64)
    requires
        b != 0,
    ensures
        r == spec_div(a as int, b as int),
{
    proof {
        lemma_product_fits(a as int, UNIT as int);
    }
    let wide: i128 = (a as i128) * (UNIT as i128);
    fx_clamp(wide_div(wide, b as i128))
}

/// A plain count times a scalar.
pub fn fx_times(n: i64, a: i64) -> (r: i64)
    ensures
        r == spec_times(n as int, a as int),
{
    proof {
        lemma_product_fits(n as int, a as int);
    }
    fx_clamp((n as i128) * (a as i128))
}

/// The distance of a scalar from zero, as a wide integer.
pub fn fx_abs(a: i64) -> (r: i128)
    ensures
        r == spec_abs(a as int),
{
    if a < 0 {
        -(a as i128)
    } else {
        a as i128
    }
}

/// The square root of a scalar, rounded down; zero for a scalar below zero.
pub fn fx_sqrt(a: i64) -> (r: i64)
    ensures
        is_sqrt(a as int, r as int),
        r == spec_sqrt(a as int),
{
    if a <= 0 {
        proof {
            lemma_sqrt_unique(a as int, 0);
        }
        return 0;
    }
    proof {
        lemma_product_fits(a as int, UNIT as int);
    }
    let n: i128 = (a as i128) * (UNIT as i128);
    let mut lo: i128 = 0;
    let mut hi: i128 = 4_000_000_000_000;
    assert(n < hi * hi) by (nonlinear_arith)
        requires
            n == a * 1_000_000,
            a <= 0x7fff_ffff_ffff_ffff,
            hi == 4_000_000_000_000,
    ;
    while hi - lo > 1
        invariant
            0 <= lo < hi <= 4_000_000_000_000,
            lo * lo <= n < hi * hi,
        decreases hi - lo,
    {
        let mid: i128 = lo + (hi - lo) / 2;
        assert(0 <= mid * mid <= 16_000_000_000_000_000_000_000_000) by (nonlinear_arith)
            requires
                0 <= mid <= 4_000_000_000_000,
        ;
        if mid * mid <= n {
            lo = mid;
        } else {
            hi = mid;
        }
    }
    proof {
        assert((lo + 1) * (lo + 1) == hi * hi);
        lemma_sqrt_unique(a as int, lo as int);
    }
    lo as i64
}

/// The square root of a scalar above zero is above zero.
pub proof fn lemma_sqrt_positive(a: int, r: int)
    requires
        is_sqrt(a, r),
        a > 0,
    ensures
        r > 0,
{
    assert(r != 0) by (nonlinear_arith)
        requires
            a > 0,
            r * r <= a * 1_000_000 < (r + 1) * (r + 1),
    ;
}

/// A number has one square root.
pub proof fn lemma_sqrt_unique(a: int, r: int)
    requires
        is_sqrt(a, r),
    ensures
        spec_sqrt(a) == r,
{
    let s = spec_sqrt(a);
    assert(is_sqrt(a, s));
    if a > 0 {
        let n = a * UNIT;
        assert(s == r) by (nonlinear_arith)
            requires
                r >= 0,
                s >= 0,
                r * r <= n < (r + 1) * (r + 1),
                s * s <= n < (s + 1) * (s + 1),
        {
            if s > r {
                assert(s * s >= (r + 1) * (r + 1));
            } else if r > s {
                assert(r * r >= (s + 1) * (s + 1));
            }
        }
    }
}

/// The integer nearest to `a / b`, a tie going away from zero.
pub fn fx_round_div(a: i64, b: i64) -> (r: i64)
    requires
        b > 0,
    ensures
        r == round_div(a as int, b as int),
{
    let m: i128 = fx_abs(a);
    let q: i128 = (2 * m + b as i128) / (2 * (b as i128));
    assert(0 <= (2 * m + b) / (2 * b) <= m) by (nonlinear_arith)
        requires
            m >= 0,
            b >= 1,
            q == (2 * m + b) / (2 * b),
    {
        assert((2 * m + b) / (2 * b) <= m) by {
            if m == 0 {
                assert((0 + b) / (2 * b) == 0);
            } else {
                assert(2 * m + b <= 2 * b * m + 2 * b - 1);
                assert((2 * b * m + 2 * b - 1) / (2 * b) == m);
            }
        }
    }
    assert(m <= 0x8000_0000_0000_0000);
    if a >= 0 {
        q as i64
    } else {
        (-q) as i64
    }
}

/// An `a` that is nearer to zero than `b` has a nearest multiple of `b` among
/// `-b`, zero and `b`.
pub proof fn lemma_round_div_small(a: int, b: int)
    requires
        b > 0,
        spec_abs(a) <= b,
    ensures
        -1 <= round_div(a, b) <= 1,
{
    let m = spec_abs(a);
    assert(0 <= (2 * m + b) / (2 * b) <= 1) by (nonlinear_arith)
        requires
            0 <= m <= b,
            b > 0,
    ;
}

/// The nearest multiple of `b` to `a` is no further from zero than `a` times.
pub proof fn lemma_round_div_bound(a: int, b: int)
    requires
        b > 0,
    ensures
        spec_abs(round_div(a, b)) <= spec_abs(a),
{
    let m = spec_abs(a);
    assert(0 <= (2 * m + b) / (2 * b) <= m) by (nonlinear_arith)
        requires
            m >= 0,
            b >= 1,
    {
        if m == 0 {
            assert((0 + b) / (2 * b) == 0);
        } else {
            assert(2 * m + b <= 2 * b * m + 2 * b - 1);
            assert((2 * b * m + 2 * b - 1) / (2 * b) == m);
        }
    }
}

/// A product of two scalars that are not below zero is not below zero.
pub proof fn lemma_mul_sign(a: int, b: int)
    requires
        a >= 0,
        b >= 0,
    ensures
        spec_mul(a, b) >= 0,
{
    assert(a * b >= 0) by (nonlinear_arith)
        requires
            a >= 0,
            b >= 0,
    ;
    assert((a * b) / (UNIT as int) >= 0) by (nonlinear_arith)
        requires
            a * b >= 0,
    ;
}

/// What is left of `a` once the nearest multiple of `b` is taken out is at
/// most half of `b`; and an `a` under half of `b` has zero as its nearest
/// multiple.
pub proof fn lemma_round_div_remainder(a: int, b: int)
    requires
        b > 0,
    ensures
        2 * spec_abs(a - round_div(a, b) * b) <= b,
        2 * spec_abs(a) < b ==> round_div(a, b) == 0,
{
    let m = spec_abs(a);
    let q = (2 * m + b) / (2 * b);
    assert(0 <= 2 * m + b - q * (2 * b) < 2 * b && (2 * m < b ==> q == 0)) by (nonlinear_arith)
        requires
            m >= 0,
            b > 0,
            q == (2 * m + b) / (2 * b),
    ;
    assert(2 * (m - q * b) == 2 * m - q * (2 * b)) by (nonlinear_arith);
    if a < 0 {
        assert((-q) * b == -(q * b)) by (nonlinear_arith);
    }
}

/// The nearest multiple is the only one closer than half of `b`.
pub proof fn lemma_round_div_nearest(a: int, b: int, k: int)
    requires
        b > 0,
        2 * spec_abs(a - k * b) < b,
    ensures
        round_div(a, b) == k,
{
    lemma_round_div_remainder(a, b);
    let q = round_div(a, b);
    assert(q == k) by (nonlinear_arith)
        requires
            b > 0,
            2 * spec_abs(a - k * b) < b,
            2 * spec_abs(a - q * b) <= b,
    {
        if q > k {
            assert((q - k) * b >= b);
            assert(q * b - k * b == (q - k) * b);
        } else if q < k {
            assert((k - q) * b >= b);
            assert(k * b - q * b == (k - q) * b);
        }
    }
}

/// A product with zero is zero.
pub proof fn lemma_mul_zero(a: int)
    ensures
        spec_mul(0, a) == 0,
        spec_mul(a, 0) == 0,
{
    assert(0 * a == 0 && a * 0 == 0) by (nonlinear_arith);
}

/// A product with a scalar that is not below zero has the sign of the other
/// scalar.
pub proof fn lemma_mul_keeps_sign(d: int, t: int)
    requires
        t >= 0,
    ensures
        d >= 0 ==> spec_mul(d, t) >= 0,
        d <= 0 ==> spec_mul(d, t) <= 0,
{
    let u = UNIT as int;
    if d >= 0 {
        assert(d * t >= 0) by (nonlinear_arith)
            requires
                d >= 0,
                t >= 0,
        ;
        assert((d * t) / u >= 0) by (nonlinear_arith)
            requires
                d * t >= 0,
                u == 1_000_000,
        ;
    }
    if d <= 0 {
        assert(d * t <= 0) by (nonlinear_arith)
            requires
                d <= 0,
                t >= 0,
        ;
        assert((-(d * t)) / u >= 0) by (nonlinear_arith)
            requires
                d * t <= 0,
                u == 1_000_000,
        ;
    }
}

/// A quotient of a scalar that is not below zero by one above zero is not
/// below zero; so is that of a scalar not above zero by one below zero.
pub proof fn lemma_div_sign(a: int, b: int)
    requires
        (a >= 0 && b > 0) || (a <= 0 && b < 0),
    ensures
        spec_div(a, b) >= 0,
{
    let u = UNIT as int;
    if b > 0 {
        assert(a * u >= 0 && (a * u) / b >= 0) by (nonlinear_arith)
            requires
                a >= 0,
                b > 0,
                u == 1_000_000,
        ;
    } else {
        assert(a * u <= 0 && (-(a * u)) / (-b) >= 0 && (a * u) / (-b) <= 0) by (nonlinear_arith)
            requires
                a <= 0,
                b < 0,
                u == 1_000_000,
        ;
    }
}

/// Going on at the rate `d` for no longer than it takes to cover `gap`
/// covers no more than `gap`.
pub proof fn lemma_stops_short(d: int, gap: int, t: int)
    requires
        d > 0,
        gap >= 0,
        0 <= t <= spec_div(gap, d),
    ensures
        0 <= tdiv(d * t, UNIT as int) <= gap,
{
    let u = UNIT as int;
    let q = (gap * u) / d;
    assert(gap * u >= 0 && q >= 0 && d * q <= gap * u) by (nonlinear_arith)
        requires
            gap >= 0,
            d > 0,
            u == 1_000_000,
            q == (gap * u) / d,
    ;
    assert(t <= q);
    assert(0 <= d * t <= d * q) by (nonlinear_arith)
        requires
            d > 0,
            0 <= t <= q,
    ;
    assert(0 <= (d * t) / u <= gap) by (nonlinear_arith)
        requires
            0 <= d * t <= gap * u,
            u == 1_000_000,
    ;
}

/// The same on the way down: at the rate `d` below zero, no more than the
/// `gap` below zero is covered.
pub proof fn lemma_stops_short_down(d: int, gap: int, t: int)
    requires
        d < 0,
        gap <= 0,
        0 <= t <= spec_div(gap, d),
    ensures
        gap <= tdiv(d * t, UNIT as int) <= 0,
{
    let u = UNIT as int;
    assert((-gap) * u == -(gap * u)) by (nonlinear_arith);
    assert((-d) * t == -(d * t)) by (nonlinear_arith);
    assert(gap * u <= 0) by (nonlinear_arith)
        requires
            gap <= 0,
            u == 1_000_000,
    ;
    assert(d * t <= 0) by (nonlinear_arith)
        requires
            d < 0,
            t >= 0,
    ;
    assert(spec_div(gap, d) == spec_div(-gap, -d));
    lemma_stops_short(-d, -gap, t);
}

/// A mover at `p` whose distance `sat(p - o)` from `o` is at most `w` keeps
/// it at most `w` when it goes on by `d` for the time `t`, if on the way up
/// `t` is no longer than it takes to come to `w`.
pub proof fn lemma_stays_below(p: int, o: int, w: int, d: int, t: int)
    requires
        i64::MIN <= p <= i64::MAX,
        i64::MIN <= o <= i64::MAX,
        i64::MIN <= w <= i64::MAX,
        sat(p - o) <= w,
        t >= 0,
        d > 0 ==> t <= spec_div(spec_sub(w, sat(p - o)), d),
    ensures
        sat(sat(p + spec_mul(d, t)) - o) <= w,
{
    let rel = sat(p - o);
    lemma_mul_keeps_sign(d, t);
    if d > 0 {
        let gap = spec_sub(w, rel);
        lemma_stops_short(d, gap, t);
    }
}

/// The same from above: a distance that is at least `w` stays at least `w`.
pub proof fn lemma_stays_above(p: int, o: int, w: int, d: int, t: int)
    requires
        i64::MIN <= p <= i64::MAX,
        i64::MIN <= o <= i64::MAX,
        i64::MIN <= w <= i64::MAX,
        sat(p - o) >= w,
        t >= 0,
        d < 0 ==> t <= spec_div(spec_sub(w, sat(p - o)), d),
    ensures
        sat(sat(p + spec_mul(d, t)) - o) >= w,
{
    let rel = sat(p - o);
    lemma_mul_keeps_sign(d, t);
    if d < 0 {
        let gap = spec_sub(w, rel);
        lemma_stops_short_down(d, gap, t);
    }
}

} // verus!
