//! Signed Q24 fixed-point arithmetic.
//!
//! A real value `v` is represented by the integer `v * 2^24`, held in an
//! `i64`.  Products are truncated toward zero, matching the usual rounding
//! of a narrowing integer division; every operation here is total on its
//! stated domain and exactly characterized by a spec function.

use vstd::prelude::*;

verus! {

/// The Q24 unit: `1.0` in fixed point.
pub const SCALE: i64 = 16777216;

/// Absolute value of a mathematical integer.
pub open spec fn abs_int(a: int) -> int {
    if a < 0 {
        -a
    } else {
        a
    }
}

/// Quotient of `n / d` rounded toward zero (`d > 0`).
pub open spec fn div_trunc(n: int, d: int) -> int {
    if n >= 0 {
        n / d
    } else {
        -((-n) / d)
    }
}

/// The Q24 product: `a * b` rescaled to Q24, truncated toward zero.
pub open spec fn fmul(a: int, b: int) -> int {
    div_trunc(a * b, SCALE as int)
}

/// Absolute value of an `i64` as a `u64`.
pub fn abs64(a: i64) -> (r: u64)
    requires
        a != i64::MIN,
    ensures
        r == abs_int(a as int),
{
    if a < 0 {
        (-a) as u64
    } else {
        a as u64
    }
}

/// `|a * b| == |a| * |b|`.
pub proof fn lemma_abs_mul(a: int, b: int)
    ensures
        abs_int(a * b) == abs_int(a) * abs_int(b),
{
    assert(abs_int(a * b) == abs_int(a) * abs_int(b)) by (nonlinear_arith);
}

/// Truncated division shrinks the magnitude: `|n / d| <= |n|` for `d >= 1`.
pub proof fn lemma_div_trunc_bounds(n: int, d: int)
    requires
        d >= 1,
    ensures
        abs_int(div_trunc(n, d)) <= abs_int(n),
        abs_int(div_trunc(n, d)) * d <= abs_int(n),
        n >= 0 ==> div_trunc(n, d) >= 0,
        n <= 0 ==> div_trunc(n, d) <= 0,
{
    if n >= 0 {
        vstd::arithmetic::div_mod::lemma_fundamental_div_mod(n, d);
        assert((n / d) * d <= n && n / d >= 0) by (nonlinear_arith)
            requires
                d >= 1 && n >= 0 && n == d * (n / d) + n % d && 0 <= n % d < d,
        ;
        assert(n / d <= n) by (nonlinear_arith)
            requires
                d >= 1 && n >= 0 && (n / d) * d <= n && n / d >= 0,
        ;
    } else {
        vstd::arithmetic::div_mod::lemma_fundamental_div_mod(-n, d);
        assert(((-n) / d) * d <= -n && (-n) / d >= 0) by (nonlinear_arith)
            requires
                d >= 1 && n < 0 && -n == d * ((-n) / d) + (-n) % d && 0 <= (-n) % d < d,
        ;
        assert((-n) / d <= -n) by (nonlinear_arith)
            requires
                d >= 1 && n < 0 && ((-n) / d) * d <= -n && (-n) / d >= 0,
        ;
    }
}

/// A magnitude bound for the Q24 product: if `|a| <= ba` and `|b| <= bb`
/// then `|fmul(a, b)| <= ba * bb / SCALE`, rounded up to the next integer.
pub proof fn lemma_fmul_bound(a: int, b: int, ba: int, bb: int)
    requires
        abs_int(a) <= ba,
        abs_int(b) <= bb,
    ensures
        abs_int(fmul(a, b)) * (SCALE as int) <= ba * bb,
        a >= 0 && b >= 0 ==> fmul(a, b) >= 0,
{
    lemma_abs_mul(a, b);
    lemma_div_trunc_bounds(a * b, SCALE as int);
    assert(abs_int(a) * abs_int(b) <= ba * bb) by (nonlinear_arith)
        requires
            0 <= abs_int(a) <= ba && 0 <= abs_int(b) <= bb,
    ;
}

/// The Q24 product, on operands small enough that the wide product
/// fits a 64-bit integer.
pub fn fixed_mul(a: i64, b: i64) -> (r: i64)
    requires
        abs_int(a as int) <= 0x8000_0000,
        abs_int(b as int) <= 0x8000_0000,
    ensures
        r == fmul(a as int, b as int),
        abs_int(r as int) * (SCALE as int) <= abs_int(a as int) * abs_int(b as int),
{
    proof {
        lemma_abs_mul(a as int, b as int);
        lemma_div_trunc_bounds(a as int * b as int, SCALE as int);
        assert(abs_int(a as int) * abs_int(b as int) <= 0x8000_0000 * 0x8000_0000)
            by (nonlinear_arith)
            requires
                0 <= abs_int(a as int) <= 0x8000_0000 && 0 <= abs_int(b as int) <= 0x8000_0000,
        ;
    }
    let ua: u64 = abs64(a);
    let ub: u64 = abs64(b);
    let p: u64 = ua * ub;
    let q: u64 = p / 16777216u64;
    proof {
        assert(p as int == abs_int(a as int * b as int));
        assert(q as int == abs_int(a as int * b as int) / (SCALE as int));
    }
    if (a < 0) == (b < 0) {
        proof {
            assert(a as int * b as int >= 0) by (nonlinear_arith)
                requires
                    ((a as int) < 0 && (b as int) < 0) || ((a as int) >= 0 && (b as int) >= 0),
            ;
            assert(fmul(a as int, b as int) == q as int);
        }
        q as i64
    } else {
        proof {
            assert(a as int * b as int <= 0) by (nonlinear_arith)
                requires
                    ((a as int) < 0 && (b as int) >= 0) || ((a as int) >= 0 && (b as int) < 0),
            ;
            assert(fmul(a as int, b as int) == -(q as int));
        }
        -(q as i64)
    }
}

/// Truncated signed division by a positive divisor, for reducing an
/// accumulated sum to a mean.
pub fn div_trunc_i64(n: i64, d: u64) -> (r: i64)
    requires
        d >= 1,
        abs_int(n as int) <= 0x4000_0000_0000_0000,
    ensures
        r == div_trunc(n as int, d as int),
{
    proof {
        lemma_div_trunc_bounds(n as int, d as int);
    }
    if n < 0 {
        let un: u64 = (-n) as u64;
        -((un / d) as i64)
    } else {
        ((n as u64) / d) as i64
    }
}

} // verus!
