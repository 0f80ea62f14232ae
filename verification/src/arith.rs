//! Integer helpers: Rust's truncating division and remainder on `int`, the
//! range of `i64`, and floor division and the Euclidean remainder on `i64`.

use vstd::prelude::*;

verus! {

/// Whether `x` is a value of `i64`.
pub open spec fn fits_i64(x: int) -> bool {
    i64::MIN <= x <= i64::MAX
}

/// Division as Rust's `/` computes it on signed integers: rounded toward zero.
pub open spec fn tdiv(a: int, b: int) -> int {
    if a >= 0 && b > 0 {
        a / b
    } else if a < 0 && b < 0 {
        (-a) / (-b)
    } else if a < 0 {
        -((-a) / b)
    } else {
        -(a / (-b))
    }
}

/// Remainder as Rust's `%` computes it on signed integers: it takes the sign of `a`.
pub open spec fn tmod(a: int, b: int) -> int {
    a - b * tdiv(a, b)
}

/// Absolute value.
pub open spec fn abs(x: int) -> int {
    if x < 0 { -x } else { x }
}

/// For a non-negative dividend and positive divisor, truncating and Euclidean
/// division agree.
pub proof fn lemma_tdiv_nonneg(a: int, b: int)
    requires
        a >= 0,
        b > 0,
    ensures
        tdiv(a, b) == a / b,
        tmod(a, b) == a % b,
{
    vstd::arithmetic::div_mod::lemma_fundamental_div_mod(a, b);
}

/// Floor division and the Euclidean remainder by a positive divisor, in terms
/// of Rust's truncating ones: they differ exactly when the truncated remainder
/// is negative.
pub proof fn lemma_floor_trunc(x: int, d: int)
    requires
        d > 0,
    ensures
        tmod(x, d) < 0 ==> x / d == tdiv(x, d) - 1 && x % d == tmod(x, d) + d,
        tmod(x, d) >= 0 ==> x / d == tdiv(x, d) && x % d == tmod(x, d),
        -d < tmod(x, d) < d,
        tdiv(x, d) == (if x >= 0 { x / d } else { -((-x) / d) }),
        tmod(x, d) == (if x >= 0 { x % d } else { -((-x) % d) }),
{
    if x >= 0 {
        lemma_tdiv_nonneg(x, d);
        vstd::arithmetic::div_mod::lemma_fundamental_div_mod(x, d);
    } else {
        let q = (-x) / d;
        let r = (-x) % d;
        vstd::arithmetic::div_mod::lemma_fundamental_div_mod(-x, d);
        assert(tdiv(x, d) == -q);
        assert(d * tdiv(x, d) == -(d * q)) by (nonlinear_arith)
            requires
                tdiv(x, d) == -q,
        ;
        assert(tmod(x, d) == -r);
        if r == 0 {
            vstd::arithmetic::div_mod::lemma_fundamental_div_mod_converse(x, d, -q, 0);
        } else {
            assert(x == (-q - 1) * d + (d - r)) by (nonlinear_arith)
                requires
                    -x == d * q + r,
            ;
            vstd::arithmetic::div_mod::lemma_fundamental_div_mod_converse(x, d, -q - 1, d - r);
        }
    }
}

/// `x` divided by the positive `d`, rounded down (`div_euclid`).
pub fn floor_div(x: i64, d: i64) -> (q: i64)
    requires
        d > 0,
    ensures
        q == x as int / d as int,
{
    let t = x / d;
    let r = x % d;
    proof {
        lemma_floor_trunc(x as int, d as int);
        assert(t as int == tdiv(x as int, d as int));
        assert(r as int == tmod(x as int, d as int));
        if r < 0 {
            assert(x < 0 && d > 1);
            vstd::arithmetic::div_mod::lemma_div_is_ordered_by_denominator(-x, 2, d as int);
            vstd::arithmetic::div_mod::lemma_fundamental_div_mod(-x, 2);
        }
    }
    if r < 0 {
        t - 1
    } else {
        t
    }
}

/// The remainder of `x` by the positive `d` in `0..d` (`rem_euclid`).
pub fn floor_mod(x: i64, d: i64) -> (m: i64)
    requires
        d > 0,
    ensures
        m == x as int % d as int,
        0 <= m < d,
{
    let r = x % d;
    proof {
        lemma_floor_trunc(x as int, d as int);
        assert(r as int == tmod(x as int, d as int));
    }
    if r < 0 {
        r + d
    } else {
        r
    }
}

/// Dividing by `c` and then by `d`, each time rounding down, is dividing by
/// `c * d` rounding down, for every dividend.
pub proof fn lemma_floor_div_div(x: int, c: int, d: int)
    requires
        c > 0,
        d > 0,
    ensures
        (x / c) / d == x / (c * d),
{
    let q1 = x / c;
    let r1 = x % c;
    vstd::arithmetic::div_mod::lemma_fundamental_div_mod(x, c);
    vstd::arithmetic::div_mod::lemma_fundamental_div_mod(q1, d);
    let q2 = q1 / d;
    let r2 = q1 % d;
    assert(x == q2 * (c * d) + (c * r2 + r1)) by (nonlinear_arith)
        requires
            x == c * q1 + r1,
            q1 == d * q2 + r2,
    ;
    assert(0 <= c * r2 + r1 < c * d) by (nonlinear_arith)
        requires
            0 <= r2 < d,
            0 <= r1 < c,
            c > 0,
    ;
    vstd::arithmetic::div_mod::lemma_fundamental_div_mod_converse(x, c * d, q2, c * r2 + r1);
}
} // verus!
