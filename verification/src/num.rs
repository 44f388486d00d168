//! Integer arithmetic primitives for the fixed-point plane: a floor square
//! root and a truncating (round-toward-zero) division, with the bounds the
//! planner's geometry proofs rest on.

use vstd::prelude::*;

verus! {

/// Magnitude of an integer.
pub open spec fn iabs(a: int) -> int {
    if a >= 0 {
        a
    } else {
        -a
    }
}

/// `r` is the floor of the square root of `n`.
pub open spec fn is_isqrt(n: int, r: int) -> bool {
    0 <= r && r * r <= n && n < (r + 1) * (r + 1)
}

/// The floor of the square root of `n` (meaningful for `n >= 0`).
pub open spec fn sqrt_floor(n: int) -> int {
    choose|r: int| is_isqrt(n, r)
}

/// Every nonnegative integer has a floor square root.
pub proof fn lemma_sqrt_exists(n: int)
    requires
        n >= 0,
    ensures
        is_isqrt(n, sqrt_floor(n)),
    decreases n,
{
    if n == 0 {
        assert(is_isqrt(0, 0));
    } else {
        lemma_sqrt_exists(n - 1);
        let r = sqrt_floor(n - 1);
        if (r + 1) * (r + 1) == n {
            assert(is_isqrt(n, r + 1)) by (nonlinear_arith)
                requires
                    0 <= r,
                    (r + 1) * (r + 1) == n,
            ;
        } else {
            assert(is_isqrt(n, r));
        }
    }
    assert(exists|r: int| is_isqrt(n, r));
}

/// The floor square root is unique.
pub proof fn lemma_sqrt_unique(n: int, r1: int, r2: int)
    by (nonlinear_arith)
    requires
        is_isqrt(n, r1),
        is_isqrt(n, r2),
    ensures
        r1 == r2,
{
}

/// The floor square root of zero is zero.
pub proof fn lemma_sqrt_zero()
    ensures
        sqrt_floor(0) == 0,
{
    lemma_sqrt_exists(0);
    let r = sqrt_floor(0);
    assert(r == 0) by (nonlinear_arith)
        requires
            0 <= r,
            r * r <= 0,
    ;
}

/// If `n <= b * b` then the floor square root of `n` is at most `b`.
pub proof fn lemma_sqrt_le(n: int, b: int)
    requires
        0 <= n,
        0 <= b,
        n <= b * b,
    ensures
        sqrt_floor(n) <= b,
{
    lemma_sqrt_exists(n);
    let r = sqrt_floor(n);
    assert(r <= b) by (nonlinear_arith)
        requires
            0 <= r,
            0 <= b,
            r * r <= n,
            n <= b * b,
    ;
}

/// Floor square root of `u64` values by bisection.
pub fn isqrt(n: u64) -> (r: u64)
    ensures
        is_isqrt(n as int, r as int),
        r as int == sqrt_floor(n as int),
        r < 4294967296,
{
    let mut lo: u64 = 0;
    let mut hi: u64 = 4294967296;
    while hi - lo > 1
        invariant
            lo < hi,
            hi <= 4294967296,
            (lo as int) * (lo as int) <= n as int,
            (n as int) < (hi as int) * (hi as int),
        decreases hi - lo,
    {
        let mid: u64 = lo + (hi - lo) / 2;
        assert((mid as int) * (mid as int) < 4294967296 * 4294967296) by (nonlinear_arith)
            requires
                mid < 4294967296,
        ;
        if mid * mid <= n {
            lo = mid;
        } else {
            hi = mid;
        }
    }
    proof {
        assert(is_isqrt(n as int, lo as int));
        lemma_sqrt_exists(n as int);
        lemma_sqrt_unique(n as int, lo as int, sqrt_floor(n as int));
    }
    lo
}

/// Division that rounds toward zero, as the machine's signed division does
/// (meaningful for `b > 0`).
pub open spec fn tdiv(a: int, b: int) -> int {
    if a >= 0 {
        a / b
    } else {
        -((-a) / b)
    }
}

/// Truncating division of `i64` values.
pub fn tdiv_i64(a: i64, b: i64) -> (q: i64)
    requires
        b > 0,
        a > i64::MIN,
    ensures
        q == tdiv(a as int, b as int),
{
    if a >= 0 {
        let q: u64 = (a as u64) / (b as u64);
        proof {
            vstd::arithmetic::div_mod::lemma_div_nonincreasing(a as int, b as int);
            vstd::arithmetic::div_mod::lemma_div_pos_is_pos(a as int, b as int);
        }
        q as i64
    } else {
        let na: i64 = -a;
        let q: u64 = (na as u64) / (b as u64);
        proof {
            vstd::arithmetic::div_mod::lemma_div_nonincreasing(na as int, b as int);
            vstd::arithmetic::div_mod::lemma_div_pos_is_pos(na as int, b as int);
        }
        -(q as i64)
    }
}

/// A truncated quotient lies between `0` and its numerator's sign side, and
/// scaling back by the divisor stays within the numerator's magnitude.
pub proof fn lemma_tdiv_mag(a: int, b: int)
    requires
        b > 0,
    ensures
        iabs(tdiv(a, b)) * b <= iabs(a),
        0 <= iabs(tdiv(a, b)),
        a >= 0 ==> 0 <= tdiv(a, b) <= a,
        a < 0 ==> a <= tdiv(a, b) <= 0,
{
    if a >= 0 {
        vstd::arithmetic::div_mod::lemma_fundamental_div_mod(a, b);
        vstd::arithmetic::div_mod::lemma_div_pos_is_pos(a, b);
        vstd::arithmetic::div_mod::lemma_div_nonincreasing(a, b);
        assert((a / b) * b <= a) by (nonlinear_arith)
            requires
                b > 0,
                a == b * (a / b) + a % b,
                0 <= a % b,
        ;
    } else {
        vstd::arithmetic::div_mod::lemma_fundamental_div_mod(-a, b);
        vstd::arithmetic::div_mod::lemma_div_pos_is_pos(-a, b);
        vstd::arithmetic::div_mod::lemma_div_nonincreasing(-a, b);
        assert(((-a) / b) * b <= -a) by (nonlinear_arith)
            requires
                b > 0,
                -a == b * ((-a) / b) + (-a) % b,
                0 <= (-a) % b,
        ;
    }
}

/// Multiplying by `i <= 5` and dividing by `5` keeps a value between `0`
/// and `d`: an interpolation step never leaves the segment's bounding box.
pub proof fn lemma_scale_frac_bounds(d: int, i: int)
    requires
        0 <= i <= 5,
    ensures
        d >= 0 ==> 0 <= tdiv(d * i, 5) <= d,
        d < 0 ==> d <= tdiv(d * i, 5) <= 0,
{
    if d >= 0 {
        assert(0 <= d * i && d * i <= d * 5) by (nonlinear_arith)
            requires
                0 <= i <= 5,
                d >= 0,
        ;
        vstd::arithmetic::div_mod::lemma_div_pos_is_pos(d * i, 5);
        vstd::arithmetic::div_mod::lemma_div_is_ordered(d * i, d * 5, 5);
        vstd::arithmetic::div_mod::lemma_div_multiples_vanish(d, 5);
        assert(d * 5 == 5 * d);
        assert(tdiv(d * i, 5) <= d);
    } else {
        let e = -d;
        assert(0 <= e * i && e * i <= e * 5) by (nonlinear_arith)
            requires
                0 <= i <= 5,
                e >= 0,
        ;
        vstd::arithmetic::div_mod::lemma_div_pos_is_pos(e * i, 5);
        vstd::arithmetic::div_mod::lemma_div_is_ordered(e * i, e * 5, 5);
        vstd::arithmetic::div_mod::lemma_div_multiples_vanish(e, 5);
        assert(e * 5 == 5 * e);
        assert(d * i == -(e * i)) by (nonlinear_arith)
            requires
                e == -d,
        ;
        assert(tdiv(d * i, 5) == -((e * i) / 5));
    }
}

/// Scaling a vector's components by `s / c` with `s <= c` does not grow
/// their magnitudes, and keeps each between `0` and the original component.
pub proof fn lemma_tdiv_scale_le(d: int, s: int, c: int)
    requires
        0 < s <= c,
    ensures
        d >= 0 ==> 0 <= tdiv(d * s, c) <= d,
        d < 0 ==> d <= tdiv(d * s, c) <= 0,
{
    if d >= 0 {
        assert(0 <= d * s && d * s <= d * c) by (nonlinear_arith)
            requires
                0 < s <= c,
                d >= 0,
        ;
        vstd::arithmetic::div_mod::lemma_div_pos_is_pos(d * s, c);
        vstd::arithmetic::div_mod::lemma_div_is_ordered(d * s, d * c, c);
        vstd::arithmetic::div_mod::lemma_div_multiples_vanish(d, c);
        vstd::arithmetic::mul::lemma_mul_is_commutative(d, c);
        assert(tdiv(d * s, c) <= d);
    } else {
        let e = -d;
        assert(0 <= e * s && e * s <= e * c) by (nonlinear_arith)
            requires
                0 < s <= c,
                e >= 0,
        ;
        vstd::arithmetic::div_mod::lemma_div_pos_is_pos(e * s, c);
        vstd::arithmetic::div_mod::lemma_div_is_ordered(e * s, e * c, c);
        vstd::arithmetic::div_mod::lemma_div_multiples_vanish(e, c);
        vstd::arithmetic::mul::lemma_mul_is_commutative(e, c);
        assert(d * s == -(e * s)) by (nonlinear_arith)
            requires
                e == -d,
        ;
        assert(tdiv(d * s, c) == -((e * s) / c));
    }
}

/// Clamping a vector of squared length at most `c * c` onto the circle of
/// radius `s` by the ratio `s / c` yields a vector of squared length at
/// most `s * s`.
pub proof fn lemma_clamp_sq_bound(dx: int, dy: int, c: int, s: int)
    requires
        c > 0,
        s > 0,
        dx * dx + dy * dy <= c * c,
    ensures
        ({
            let qx = tdiv(dx * s, c);
            let qy = tdiv(dy * s, c);
            qx * qx + qy * qy <= s * s
        }),
{
    let qx = tdiv(dx * s, c);
    let qy = tdiv(dy * s, c);
    lemma_tdiv_mag(dx * s, c);
    lemma_tdiv_mag(dy * s, c);
    let ax = iabs(qx);
    let ay = iabs(qy);
    let axs = iabs(dx * s);
    let ays = iabs(dy * s);
    assert(qx * qx * (c * c) <= (dx * dx) * (s * s)) by (nonlinear_arith)
        requires
            c > 0,
            s > 0,
            ax * c <= axs,
            0 <= ax,
            ax == qx || ax == -qx,
            axs == dx * s || axs == -(dx * s),
    ;
    assert(qy * qy * (c * c) <= (dy * dy) * (s * s)) by (nonlinear_arith)
        requires
            c > 0,
            s > 0,
            ay * c <= ays,
            0 <= ay,
            ay == qy || ay == -qy,
            ays == dy * s || ays == -(dy * s),
    ;
    assert(qx * qx + qy * qy <= s * s) by (nonlinear_arith)
        requires
            c > 0,
            s > 0,
            qx * qx * (c * c) <= (dx * dx) * (s * s),
            qy * qy * (c * c) <= (dy * dy) * (s * s),
            dx * dx + dy * dy <= c * c,
    ;
}

} // verus!
