//! Fixed-point arithmetic used for all prices, sizes, returns and factors.
//!
//! A quantity is stored as an integer count of units of `1 / SCALE`, so the
//! raw value `1_500_000` stands for `1.5`. Multiplication and division
//! truncate toward zero, like the underlying machine division on magnitudes;
//! where a ratio's sign must survive the rounding, division rounds away from
//! zero instead, so a nonzero quotient never reports as zero.

use vstd::prelude::*;

verus! {

use vstd::arithmetic::div_mod::lemma_div_is_ordered_by_denominator;
use vstd::arithmetic::div_mod::lemma_div_is_ordered;
use vstd::arithmetic::div_mod::lemma_div_multiples_vanish;

/// Number of raw units per whole unit.
pub const SCALE: u64 = 1_000_000;

/// Largest raw magnitude admitted for a stored price or size.
pub const MAX_UNITS: u64 = 1_000_000_000_000;

/// Magnitude of an integer.
pub open spec fn mag(a: int) -> int {
    if a >= 0 {
        a
    } else {
        -a
    }
}

/// Division truncated toward zero, the rounding used throughout this crate.
pub open spec fn tdiv(a: int, b: int) -> int
    recommends
        b != 0,
{
    if (a >= 0) == (b >= 0) {
        mag(a) / mag(b)
    } else {
        -(mag(a) / mag(b))
    }
}

/// Fixed-point product: `a * b` rescaled back to raw units.
pub open spec fn fx_mul(a: int, b: int) -> int {
    tdiv(a * b, SCALE as int)
}

/// Fixed-point quotient: `a / b` expressed in raw units.
pub open spec fn fx_div(a: int, b: int) -> int
    recommends
        b != 0,
{
    tdiv(a * (SCALE as int), b)
}

/// Division rounded away from zero: the magnitude is the ceiling of the
/// magnitude quotient, so a nonzero numerator never rounds to zero and the
/// result's sign is exactly the quotient's sign.
pub open spec fn tdiv_away(a: int, b: int) -> int
    recommends
        b != 0,
{
    let q = (mag(a) + mag(b) - 1) / mag(b);
    if (a >= 0) == (b >= 0) {
        q
    } else {
        -q
    }
}

/// Fixed-point quotient rounded away from zero; used where a ratio's sign
/// must be preserved exactly.
pub open spec fn fx_div_away(a: int, b: int) -> int
    recommends
        b != 0,
{
    tdiv_away(a * (SCALE as int), b)
}

/// `r` is the integer square root of `x`.
pub open spec fn is_sqrt(x: int, r: int) -> bool {
    0 <= r && r * r <= x && x < (r + 1) * (r + 1)
}

/// The square-root predicate admits one value only, so a contract stated
/// with it pins its result.
pub proof fn lemma_is_sqrt_unique(x: int, r1: int, r2: int)
    requires
        is_sqrt(x, r1),
        is_sqrt(x, r2),
    ensures
        r1 == r2,
{
    assert(r1 == r2) by (nonlinear_arith)
        requires
            is_sqrt(x, r1),
            is_sqrt(x, r2),
    ;
}

pub proof fn lemma_div_le(n: int, d: int)
    requires
        0 <= n,
        1 <= d,
    ensures
        0 <= n / d <= n,
{
    lemma_div_is_ordered_by_denominator(n, 1, d);
}

/// Truncated division never grows the magnitude when the divisor is at least one.
pub proof fn lemma_tdiv_mag(a: int, b: int)
    requires
        1 <= b,
    ensures
        mag(tdiv(a, b)) <= mag(a),
        a >= 0 ==> 0 <= tdiv(a, b) <= a,
        a < 0 ==> a <= tdiv(a, b) <= 0,
{
    lemma_div_le(mag(a), b);
}

/// A ratio of a part to a whole, rescaled by `s`, stays within `[0, s]`.
pub proof fn lemma_ratio_bounded(n: int, d: int, s: int)
    requires
        0 <= n <= d,
        1 <= d,
        0 <= s,
    ensures
        0 <= (n * s) / d <= s,
{
    assert(n * s <= d * s) by (nonlinear_arith)
        requires
            n <= d,
            0 <= s,
    ;
    assert(0 <= n * s) by (nonlinear_arith)
        requires
            0 <= n,
            0 <= s,
    ;
    lemma_div_is_ordered(n * s, d * s, d);
    lemma_div_multiples_vanish(s, d);
    lemma_div_le(n * s, d);
}

/// A fixed-point ratio whose numerator does not exceed its denominator in
/// magnitude stays within one whole unit either way.
pub proof fn lemma_fx_div_bounded(n: int, d: int)
    requires
        d != 0,
        mag(n) <= mag(d),
    ensures
        -(SCALE as int) <= fx_div(n, d) <= SCALE as int,
        n == 0 ==> fx_div(n, d) == 0,
        (n >= 0) == (d >= 0) ==> fx_div(n, d) >= 0,
        (n >= 0) != (d >= 0) ==> fx_div(n, d) <= 0,
{
    lemma_mag_mul(n, SCALE as int);
    lemma_ratio_bounded(mag(n), mag(d), SCALE as int);
    assert(mag(n * (SCALE as int)) == mag(n) * (SCALE as int));
    if n == 0 {
        assert(mag(0int) / mag(d) == 0) by {
            lemma_div_le(0, mag(d));
        }
    }
}

/// An average of values bounded by `r` in magnitude is itself bounded by `r`.
pub proof fn lemma_tdiv_scaled_bound(a: int, n: int, r: int)
    requires
        1 <= n,
        0 <= r,
        mag(a) <= n * r,
    ensures
        mag(tdiv(a, n)) <= r,
{
    lemma_div_is_ordered(mag(a), n * r, n);
    lemma_div_multiples_vanish(r, n);
    assert(n * r == r * n) by (nonlinear_arith);
}

/// An away-rounded fixed-point ratio of a part to a whole stays within one
/// unit either way, and its sign equals the sign of the numerator exactly.
pub proof fn lemma_fx_div_away_bounded(n: int, d: int)
    requires
        1 <= d,
        mag(n) <= d,
    ensures
        -(SCALE as int) <= fx_div_away(n, d) <= SCALE as int,
        n > 0 <==> fx_div_away(n, d) > 0,
        n == 0 <==> fx_div_away(n, d) == 0,
        n < 0 <==> fx_div_away(n, d) < 0,
{
    lemma_mag_mul(n, SCALE as int);
    let m = mag(n);
    let q = (m * (SCALE as int) + d - 1) / d;
    assert(mag(n * (SCALE as int)) == m * (SCALE as int));
    assert(fx_div_away(n, d) == if n >= 0 {
        q
    } else {
        -q
    });
    assert(m * (SCALE as int) <= d * (SCALE as int)) by (nonlinear_arith)
        requires
            m <= d,
    ;
    assert(0 <= m * (SCALE as int)) by (nonlinear_arith)
        requires
            0 <= m,
    ;
    lemma_div_is_ordered(m * (SCALE as int) + d - 1, d * (SCALE as int) + d - 1, d);
    assert(d * (SCALE as int) + d - 1 == d * (SCALE as int + 1) - 1) by (nonlinear_arith);
    vstd::arithmetic::div_mod::lemma_div_multiples_vanish_fancy(SCALE as int, d - 1, d);
    assert(d * (SCALE as int) + (d - 1) == (d * (SCALE as int + 1) - 1));
    assert(q <= SCALE as int);
    if m == 0 {
        vstd::arithmetic::div_mod::lemma_div_multiples_vanish_fancy(0, d - 1, d);
        assert(q == 0);
    } else {
        assert(m * (SCALE as int) >= SCALE as int) by (nonlinear_arith)
            requires
                m >= 1,
        ;
        lemma_div_is_ordered(d, m * (SCALE as int) + d - 1, d);
        lemma_div_multiples_vanish(1, d);
        assert(q >= 1);
    }
}

/// Flooring each summand before adding never exceeds flooring the sum.
pub proof fn lemma_div_add_le(a: int, b: int, d: int)
    requires
        0 <= a,
        0 <= b,
        1 <= d,
    ensures
        a / d + b / d <= (a + b) / d,
{
    vstd::arithmetic::div_mod::lemma_fundamental_div_mod(a, d);
    vstd::arithmetic::div_mod::lemma_fundamental_div_mod(b, d);
    vstd::arithmetic::div_mod::lemma_mod_bound(a, d);
    vstd::arithmetic::div_mod::lemma_mod_bound(b, d);
    assert(a + b >= d * (a / d + b / d)) by (nonlinear_arith)
        requires
            a == d * (a / d) + (a % d),
            b == d * (b / d) + (b % d),
            a % d >= 0,
            b % d >= 0,
    ;
    lemma_div_is_ordered(d * (a / d + b / d), a + b, d);
    lemma_div_multiples_vanish(a / d + b / d, d);
}

pub proof fn lemma_mag_mul(a: int, b: int)
    ensures
        mag(a * b) == mag(a) * mag(b),
{
    assert(mag(a * b) == mag(a) * mag(b)) by (nonlinear_arith);
}

/// Truncated division of `a` by a positive `b`, on machine integers.
pub fn div_tr(a: i128, b: i128) -> (r: i128)
    requires
        b != 0,
        i128::MIN < a,
        i128::MIN < b,
    ensures
        r as int == tdiv(a as int, b as int),
        mag(r as int) <= mag(a as int),
{
    proof {
        if b >= 1 {
            lemma_tdiv_mag(a as int, b as int);
        } else {
            lemma_div_le(mag(a as int), mag(b as int));
        }
    }
    let am: u128 = if a < 0 {
        (-a) as u128
    } else {
        a as u128
    };
    let bm: u128 = if b < 0 {
        (-b) as u128
    } else {
        b as u128
    };
    let q: u128 = am / bm;
    proof {
        lemma_div_le(am as int, bm as int);
    }
    if (a < 0) != (b < 0) {
        -(q as i128)
    } else {
        q as i128
    }
}

/// Fixed-point multiply on machine integers.
pub fn mul_fx(a: i128, b: i128) -> (r: i128)
    requires
        mag(a as int) * mag(b as int) <= i128::MAX as int,
    ensures
        r as int == fx_mul(a as int, b as int),
        mag(r as int) <= mag(a as int) * mag(b as int),
{
    proof {
        lemma_mag_mul(a as int, b as int);
    }
    let p: i128 = a * b;
    div_tr(p, SCALE as i128)
}

/// Fixed-point divide on machine integers; the divisor must be nonzero.
pub fn div_fx(a: i128, b: i128) -> (r: i128)
    requires
        b != 0,
        i128::MIN < b,
        mag(a as int) * (SCALE as int) <= i128::MAX as int,
    ensures
        r as int == fx_div(a as int, b as int),
        mag(r as int) <= mag(a as int) * (SCALE as int),
{
    proof {
        lemma_mag_mul(a as int, SCALE as int);
    }
    let p: i128 = a * (SCALE as i128);
    div_tr(p, b)
}

/// Division rounded away from zero, on machine integers.
pub fn div_away(a: i128, b: i128) -> (r: i128)
    requires
        b != 0,
        i128::MIN < a,
        i128::MIN < b,
        mag(a as int) + mag(b as int) <= i128::MAX as int,
    ensures
        r as int == tdiv_away(a as int, b as int),
        mag(r as int) <= mag(a as int),
{
    let am: u128 = if a < 0 {
        (-a) as u128
    } else {
        a as u128
    };
    let bm: u128 = if b < 0 {
        (-b) as u128
    } else {
        b as u128
    };
    let q: u128 = (am + (bm - 1)) / bm;
    proof {
        if am == 0 {
            vstd::arithmetic::div_mod::lemma_basic_div(bm as int - 1, bm as int);
        } else {
            assert(am as int + bm as int - 1 <= (am as int) * (bm as int)) by (nonlinear_arith)
                requires
                    1 <= am as int,
                    1 <= bm as int,
            ;
            lemma_div_is_ordered(am as int + bm as int - 1, (am as int) * (bm as int), bm as int);
            lemma_div_multiples_vanish(am as int, bm as int);
            assert((am as int) * (bm as int) == (bm as int) * (am as int)) by (nonlinear_arith);
        }
        assert(q as int <= am as int);
        assert(am as int == mag(a as int));
        assert(bm as int == mag(b as int));
        assert(q as int == (mag(a as int) + mag(b as int) - 1) / mag(b as int));
        assert(q <= i128::MAX as u128);
    }
    if (a < 0) != (b < 0) {
        -(q as i128)
    } else {
        q as i128
    }
}

/// Fixed-point divide rounded away from zero, on machine integers.
pub fn div_fx_away(a: i128, b: i128) -> (r: i128)
    requires
        b != 0,
        i128::MIN < b,
        mag(a as int) * (SCALE as int) + mag(b as int) <= i128::MAX as int,
    ensures
        r as int == fx_div_away(a as int, b as int),
        mag(r as int) <= mag(a as int) * (SCALE as int),
{
    proof {
        lemma_mag_mul(a as int, SCALE as int);
    }
    let p: i128 = a * (SCALE as i128);
    div_away(p, b)
}

/// Upper bound admitted by `isqrt`: two to the power 61.
pub const SQRT_IN_CAP: u128 = 0x2000000000000000;

/// Integer square root by bisection.
pub fn isqrt(x: u128) -> (r: u128)
    requires
        (x as int) < (SQRT_IN_CAP as int) * (SQRT_IN_CAP as int),
    ensures
        is_sqrt(x as int, r as int),
{
    let mut lo: u128 = 0;
    let mut hi: u128 = SQRT_IN_CAP;
    assert(lo * lo <= x);
    while lo + 1 < hi
        invariant
            0 <= lo < hi <= SQRT_IN_CAP,
            (lo as int) * (lo as int) <= x as int,
            (x as int) < (hi as int) * (hi as int),
        decreases hi - lo,
    {
        let mid: u128 = lo + (hi - lo) / 2;
        assert(lo < mid < hi);
        assert((mid as int) * (mid as int) <= (SQRT_IN_CAP as int) * (SQRT_IN_CAP as int))
            by (nonlinear_arith)
            requires
                0 <= mid <= SQRT_IN_CAP,
        ;
        if mid * mid <= x {
            lo = mid;
        } else {
            hi = mid;
        }
    }
    assert(hi == lo + 1);
    lo
}

} // verus!
