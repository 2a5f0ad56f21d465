//! Deterministic scalar-to-color mapping.
//!
//! Escape indices become 8-bit luminance values, clamped (never wrapped).
//! Lyapunov exponents become RGB triples: yellow shades for negative
//! exponents, pure yellow at zero, blue shades for positive exponents, and
//! black for an exponent with no finite value.  Every narrowing is a
//! saturating clamp into `[0, 255]`.

use vstd::prelude::*;
use crate::fixed::{SCALE, abs_int, abs64};
use crate::logistic::LyapunovValue;

verus! {

/// An 8-bit RGB color.
#[derive(Clone, Copy, PartialEq, Eq, Structural, Debug)]
pub struct Rgb {
    pub r: u8,
    pub g: u8,
    pub b: u8,
}

/// Saturating narrowing of a nonnegative value into an 8-bit channel.
pub open spec fn sat_u8(v: int) -> u8 {
    if v > 255 {
        255u8
    } else {
        v as u8
    }
}

/// The luminance of an escape index: the index itself, clamped to `255`.
pub open spec fn spec_luma(index: int) -> u8 {
    sat_u8(index)
}

/// The color of a Lyapunov exponent `v` (Q24):
/// - negative: `(255 * |v|, 255 * |v|, 0)`, channels clamped;
/// - zero: `(255, 255, 0)`;
/// - positive: `(0, 0.42 * v, 255 * v)` (the green factor is `42/100`),
///   channels clamped;
/// - no finite value: black `(0, 0, 0)`.
/// Channel products are evaluated at Q24 and floored to an integer.
pub open spec fn spec_lyapunov_color(lam: LyapunovValue) -> Rgb {
    match lam {
        LyapunovValue::NegInfinity => Rgb { r: 0u8, g: 0u8, b: 0u8 },
        LyapunovValue::Finite(v) => {
            if v < 0 {
                let ch = sat_u8((255 * abs_int(v as int)) / (SCALE as int));
                Rgb { r: ch, g: ch, b: 0u8 }
            } else if v == 0 {
                Rgb { r: 255u8, g: 255u8, b: 0u8 }
            } else {
                Rgb {
                    r: 0u8,
                    g: sat_u8((42 * (v as int)) / (100 * SCALE as int)),
                    b: sat_u8((255 * (v as int)) / (SCALE as int)),
                }
            }
        },
    }
}

/// Clamps an escape index into an 8-bit luminance value.
pub fn luma_of_index(index: u16) -> (l: u8)
    ensures
        l == spec_luma(index as int),
        index <= 255 ==> l as int == index as int,
        index > 255 ==> l == 255u8,
{
    if index > 255 {
        255
    } else {
        index as u8
    }
}

fn channel_scaled(numerator: u64, denominator: u64) -> (ch: u8)
    requires
        denominator >= 1,
    ensures
        ch == sat_u8((numerator as int) / (denominator as int)),
{
    proof {
        crate::fixed::lemma_div_trunc_bounds(numerator as int, denominator as int);
    }
    let q: u64 = numerator / denominator;
    if q > 255 {
        255
    } else {
        q as u8
    }
}

/// Maps a Lyapunov exponent to its pixel color.
pub fn lyapunov_color(lam: LyapunovValue) -> (c: Rgb)
    requires
        lam matches LyapunovValue::Finite(v) ==> abs_int(v as int) <= 0x2000_0000_0000,
    ensures
        c == spec_lyapunov_color(lam),
{
    match lam {
        LyapunovValue::NegInfinity => Rgb { r: 0, g: 0, b: 0 },
        LyapunovValue::Finite(v) => {
            if v < 0 {
                let mag: u64 = abs64(v);
                let ch: u8 = channel_scaled(255u64 * mag, 16777216u64);
                Rgb { r: ch, g: ch, b: 0 }
            } else if v == 0 {
                Rgb { r: 255, g: 255, b: 0 }
            } else {
                let vv: u64 = v as u64;
                let g: u8 = channel_scaled(42u64 * vv, 1677721600u64);
                let b: u8 = channel_scaled(255u64 * vv, 16777216u64);
                proof {
                    assert(100 * SCALE as int == 1677721600);
                }
                Rgb { r: 0, g, b }
            }
        },
    }
}

} // verus!
