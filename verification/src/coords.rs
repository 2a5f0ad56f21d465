//! Pixel-to-parameter coordinate mapping.
//!
//! A pixel index `p` on an axis of `extent` pixels is mapped linearly into
//! parameter space, in Q24 fixed point: the escape-time map sends the grid
//! onto the square `[-2, 2] x [-2, 2]`, the Lyapunov map onto `[2, 4] x [2, 4]`.

use vstd::prelude::*;
use crate::fixed::SCALE;

verus! {

/// Escape-time mapping: `p * (4 / extent) - 2`, in Q24.
pub open spec fn spec_julia_coord(p: int, extent: int) -> int {
    (p * (4 * SCALE as int)) / extent - 2 * SCALE as int
}

/// Lyapunov mapping: `2 + 2 * (p / extent)`, in Q24.
pub open spec fn spec_lyapunov_coord(p: int, extent: int) -> int {
    2 * SCALE as int + (p * (2 * SCALE as int)) / extent
}

proof fn lemma_scaled_div_range(p: int, extent: int, s: int)
    requires
        extent >= 1,
        0 <= p < extent,
        s >= 1,
    ensures
        0 <= (p * s) / extent < s,
        p == 0 ==> (p * s) / extent == 0,
{
    vstd::arithmetic::div_mod::lemma_fundamental_div_mod(p * s, extent);
    assert(0 <= (p * s) % extent < extent) by (nonlinear_arith)
        requires
            extent >= 1,
    ;
    let q = (p * s) / extent;
    assert(0 <= q < s) by (nonlinear_arith)
        requires
            p * s == extent * q + (p * s) % extent,
            0 <= (p * s) % extent < extent,
            0 <= p < extent,
            s >= 1,
            extent >= 1,
    ;
    if p == 0 {
        assert(q == 0) by (nonlinear_arith)
            requires
                0 * s == extent * q + (0 * s) % extent,
                0 <= (0 * s) % extent < extent,
                extent >= 1,
                0 <= q,
        ;
    }
}

/// The escape-time coordinate of a pixel: in `[-2, 2)` (Q24), exact at `p == 0`.
pub fn julia_coord(p: u32, extent: u32) -> (r: i64)
    requires
        extent >= 1,
        p < extent,
    ensures
        r as int == spec_julia_coord(p as int, extent as int),
        -2 * SCALE as int <= r as int && (r as int) < 2 * SCALE as int,
        p == 0 ==> r as int == -2 * SCALE as int,
{
    proof {
        lemma_scaled_div_range(p as int, extent as int, 4 * SCALE as int);
    }
    let num: u64 = (p as u64) * 67108864u64;
    let q: u64 = num / (extent as u64);
    (q as i64) - 33554432i64
}

/// The Lyapunov coordinate of a pixel: in `[2, 4)` (Q24), exact at `p == 0`.
pub fn lyapunov_coord(p: u32, extent: u32) -> (r: i64)
    requires
        extent >= 1,
        p < extent,
    ensures
        r as int == spec_lyapunov_coord(p as int, extent as int),
        2 * SCALE as int <= r as int && (r as int) < 4 * SCALE as int,
        p == 0 ==> r as int == 2 * SCALE as int,
{
    proof {
        lemma_scaled_div_range(p as int, extent as int, 2 * SCALE as int);
    }
    let num: u64 = (p as u64) * 33554432u64;
    let q: u64 = num / (extent as u64);
    (q as i64) + 33554432i64
}

/// Pixel `0` of an axis maps exactly onto `-2`, and the last pixel maps to
/// within one pixel width (plus one fixed-point grain) below `2`.
pub proof fn lemma_julia_coord_bounds(extent: int)
    requires
        extent >= 1,
    ensures
        spec_julia_coord(0, extent) == -2 * SCALE as int,
        spec_julia_coord(extent - 1, extent) < 2 * SCALE as int,
        2 * SCALE as int - spec_julia_coord(extent - 1, extent) <= (4 * SCALE as int) / extent + 1,
{
    let s = 4 * SCALE as int;
    lemma_scaled_div_range(0, extent, s);
    if extent == 1 {
        lemma_scaled_div_range(extent - 1, extent, s);
        vstd::arithmetic::div_mod::lemma_fundamental_div_mod(s, extent);
    } else {
        lemma_scaled_div_range(extent - 1, extent, s);
        let q = ((extent - 1) * s) / extent;
        let d = s / extent;
        vstd::arithmetic::div_mod::lemma_fundamental_div_mod((extent - 1) * s, extent);
        vstd::arithmetic::div_mod::lemma_fundamental_div_mod(s, extent);
        assert(0 <= ((extent - 1) * s) % extent < extent && 0 <= s % extent < extent)
            by (nonlinear_arith)
            requires
                extent >= 1,
        ;
        assert(q >= s - d - 1) by (nonlinear_arith)
            requires
                (extent - 1) * s == extent * q + ((extent - 1) * s) % extent,
                s == extent * d + s % extent,
                0 <= ((extent - 1) * s) % extent < extent,
                0 <= s % extent < extent,
                extent >= 1,
        ;
    }
}

} // verus!
