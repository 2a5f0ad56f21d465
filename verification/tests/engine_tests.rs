use fract::color::{luma_of_index, lyapunov_color, Rgb};
use fract::complex::{escape_index, Complex};
use fract::coords::{julia_coord, lyapunov_coord};
use fract::engine::{render_julia, render_lyapunov, ConfigError};
use fract::fixed::SCALE;
use fract::logistic::{compute_r, lyapunov_exponent, ForcingPattern, LyapunovValue};

fn q24(v: f64) -> i64 {
    (v * (SCALE as f64)).round() as i64
}

fn to_f64(v: i64) -> f64 {
    (v as f64) / (SCALE as f64)
}

#[test]
fn julia_coord_maps_first_pixel_exactly() {
    assert_eq!(julia_coord(0, 500), -2 * SCALE);
    assert_eq!(julia_coord(0, 1), -2 * SCALE);
    assert_eq!(julia_coord(0, 7919), -2 * SCALE);
}

#[test]
fn julia_coord_last_pixel_within_one_pixel_of_two() {
    let w: u32 = 500;
    let r: i64 = julia_coord(w - 1, w);
    let pixel_width: i64 = 4 * SCALE / (w as i64);
    assert!(r < 2 * SCALE);
    assert!(2 * SCALE - r <= pixel_width + 1);
}

#[test]
fn lyapunov_coord_bounds() {
    assert_eq!(lyapunov_coord(0, 500), 2 * SCALE);
    let r: i64 = lyapunov_coord(499, 500);
    assert!(r >= 2 * SCALE && r < 4 * SCALE);
}

#[test]
fn escape_index_immediate_divergence_is_zero() {
    // |z0| > 2, so the very first norm check fails: index 0.
    let c = Complex { re: 10 * SCALE, im: 10 * SCALE };
    assert_eq!(escape_index(Complex { re: 3 * SCALE, im: 0 }, c, 128), 0);
    assert_eq!(escape_index(Complex { re: 0, im: -3 * SCALE }, c, 128), 0);
    assert_eq!(escape_index(Complex { re: 2 * SCALE, im: 2 * SCALE }, c, 1), 0);
}

#[test]
fn escape_index_bounded_orbit_exhausts_budget() {
    // c = 0, z0 = 0 never diverges: index max_iterations - 1.
    let zero = Complex { re: 0, im: 0 };
    assert_eq!(escape_index(zero, zero, 1), 0);
    assert_eq!(escape_index(zero, zero, 7), 6);
    assert_eq!(escape_index(zero, zero, 128), 127);
    assert_eq!(escape_index(zero, zero, 65535), 65534);
}

#[test]
fn lyapunov_hand_case_hits_negative_infinity() {
    // pattern always selects a, a = b = 2.0: x1 = 2 * 0.5 * 0.5 = 0.5, so
    // |1 - 2 * x1| = 0 and the first log term has no finite value.
    let pattern = ForcingPattern { choices: vec![0, 0, 0, 0, 0] };
    let lam = lyapunov_exponent(2 * SCALE, 2 * SCALE, &pattern, 3);
    assert_eq!(lam, LyapunovValue::NegInfinity);
}

#[test]
fn lyapunov_finite_case_matches_formula() {
    // a = 3.0: x1 = 0.75, x2 = 0.5625, both exact in Q24, so the derivative
    // terms are exactly 3 * |1 - 1.5| = 1.5 and 3 * |1 - 1.125| = 0.375, and
    // the exponent is (ln 1.5 + ln 0.375) / 3.
    let pattern = ForcingPattern { choices: vec![0] };
    let lam = lyapunov_exponent(3 * SCALE, 3 * SCALE, &pattern, 3);
    let expected: f64 = ((3.0f64 * 0.5).ln() + (3.0f64 * 0.125).ln()) / 3.0;
    match lam {
        LyapunovValue::Finite(v) => {
            assert!((to_f64(v) - expected).abs() < 1e-4);
        }
        LyapunovValue::NegInfinity => panic!("expected a finite exponent"),
    }
}

#[test]
fn lyapunov_color_boundaries() {
    // Exactly zero: pure yellow.
    assert_eq!(
        lyapunov_color(LyapunovValue::Finite(0)),
        Rgb { r: 255, g: 255, b: 0 }
    );
    // -1.0: 255 * |-1| = 255, clamped, not wrapped.
    assert_eq!(
        lyapunov_color(LyapunovValue::Finite(-SCALE)),
        Rgb { r: 255, g: 255, b: 0 }
    );
    // -2.0: 510 would wrap an 8-bit channel; it must clamp to 255.
    assert_eq!(
        lyapunov_color(LyapunovValue::Finite(-2 * SCALE)),
        Rgb { r: 255, g: 255, b: 0 }
    );
    // -0.5: 127.5 floors to 127.
    assert_eq!(
        lyapunov_color(LyapunovValue::Finite(-SCALE / 2)),
        Rgb { r: 127, g: 127, b: 0 }
    );
    // No finite value: the documented black fallback.
    assert_eq!(
        lyapunov_color(LyapunovValue::NegInfinity),
        Rgb { r: 0, g: 0, b: 0 }
    );
    // +1.0: green channel floors 0.42 to 0, blue saturates the unit.
    assert_eq!(
        lyapunov_color(LyapunovValue::Finite(SCALE)),
        Rgb { r: 0, g: 0, b: 255 }
    );
    // +3.0: green channel is floor(0.42 * 3) = 1.
    assert_eq!(
        lyapunov_color(LyapunovValue::Finite(3 * SCALE)),
        Rgb { r: 0, g: 1, b: 255 }
    );
    // +5000.0: both scaled channels clamp.
    assert_eq!(
        lyapunov_color(LyapunovValue::Finite(5000 * SCALE)),
        Rgb { r: 0, g: 255, b: 255 }
    );
}

#[test]
fn luma_clamps_instead_of_wrapping() {
    assert_eq!(luma_of_index(0), 0);
    assert_eq!(luma_of_index(127), 127);
    assert_eq!(luma_of_index(255), 255);
    assert_eq!(luma_of_index(256), 255);
    assert_eq!(luma_of_index(300), 255);
    assert_eq!(luma_of_index(65535), 255);
}

#[test]
fn compute_r_cycles_through_the_pattern() {
    let pattern = ForcingPattern { choices: vec![0, 1] };
    let a: i64 = q24(2.5);
    let b: i64 = q24(3.5);
    assert_eq!(compute_r(0, a, b, &pattern), a);
    assert_eq!(compute_r(1, a, b, &pattern), b);
    assert_eq!(compute_r(2, a, b, &pattern), a);
    assert_eq!(compute_r(5, a, b, &pattern), b);
}

#[test]
fn render_julia_rejects_bad_configuration() {
    let c = Complex { re: q24(-0.4), im: q24(0.6) };
    assert_eq!(render_julia(0, 10, 16, c).unwrap_err(), ConfigError::ZeroResolution);
    assert_eq!(render_julia(10, 0, 16, c).unwrap_err(), ConfigError::ZeroResolution);
    assert_eq!(render_julia(0, 0, 0, c).unwrap_err(), ConfigError::ZeroResolution);
    assert_eq!(render_julia(10, 10, 0, c).unwrap_err(), ConfigError::ZeroIterations);
}

#[test]
fn render_lyapunov_rejects_bad_configuration() {
    let good = ForcingPattern { choices: vec![0, 1, 0, 1, 1] };
    let empty = ForcingPattern { choices: vec![] };
    let nonbinary = ForcingPattern { choices: vec![0, 2, 0, 0, 0] };
    assert_eq!(
        render_lyapunov(0, 10, 16, &good).unwrap_err(),
        ConfigError::ZeroResolution
    );
    assert_eq!(
        render_lyapunov(10, 10, 0, &good).unwrap_err(),
        ConfigError::ZeroIterations
    );
    assert_eq!(
        render_lyapunov(10, 10, 16, &empty).unwrap_err(),
        ConfigError::MalformedPattern
    );
    assert_eq!(
        render_lyapunov(10, 10, 16, &nonbinary).unwrap_err(),
        ConfigError::MalformedPattern
    );
}

#[test]
fn render_julia_is_deterministic_and_complete() {
    let c = Complex { re: q24(-0.4), im: q24(0.6) };
    let b1 = render_julia(16, 16, 64, c).unwrap();
    let b2 = render_julia(16, 16, 64, c).unwrap();
    assert_eq!(b1.width, 16);
    assert_eq!(b1.height, 16);
    assert_eq!(b1.data.len(), 256);
    assert_eq!(b1.data, b2.data);
    // Pixel (0, 0) maps to z0 = (-2, -2), whose squared norm 8 exceeds the
    // threshold at once: escape index 0, luminance 0.
    assert_eq!(b1.get(0, 0), 0);
    // Row-major layout: get(x, y) reads cell y * width + x.
    assert_eq!(b1.get(3, 2), b1.data[2 * 16 + 3]);
}

#[test]
fn render_lyapunov_is_deterministic_and_complete() {
    let pattern = ForcingPattern { choices: vec![0, 1, 0, 1, 1] };
    let b1 = render_lyapunov(8, 8, 32, &pattern).unwrap();
    let b2 = render_lyapunov(8, 8, 32, &pattern).unwrap();
    assert_eq!(b1.width, 8);
    assert_eq!(b1.height, 8);
    assert_eq!(b1.data.len(), 64);
    assert_eq!(b1.data, b2.data);
    assert_eq!(b1.get(5, 7), b1.data[7 * 8 + 5]);
}

#[test]
fn lyapunov_exponent_is_deterministic() {
    let pattern = ForcingPattern { choices: vec![0, 1, 0, 1, 1] };
    let a: i64 = q24(3.25);
    let b: i64 = q24(3.75);
    let l1 = lyapunov_exponent(a, b, &pattern, 128);
    let l2 = lyapunov_exponent(a, b, &pattern, 128);
    assert_eq!(l1, l2);
}

#[test]
fn lyapunov_exponent_known_negative_region() {
    // The unforced logistic map at r = 2.0 is strongly contracting away from
    // the trivial hand case: with pattern [1] and b = 2.5 the exponent is
    // finite and negative (x converges toward 0.6, |1 - 2x| toward 0.2).
    let pattern = ForcingPattern { choices: vec![1] };
    let lam = lyapunov_exponent(2 * SCALE, q24(2.5), &pattern, 64);
    match lam {
        LyapunovValue::Finite(v) => assert!(v < 0),
        LyapunovValue::NegInfinity => panic!("expected a finite exponent"),
    }
}

#[test]
fn render_julia_pixel_matches_direct_computation() {
    let c = Complex { re: q24(-0.4), im: q24(0.6) };
    let buf = render_julia(16, 16, 64, c).unwrap();
    let z0 = Complex { re: julia_coord(5, 16), im: julia_coord(9, 16) };
    let expected = luma_of_index(escape_index(z0, c, 64));
    assert_eq!(buf.get(5, 9), expected);
}

#[test]
fn render_lyapunov_pixel_matches_direct_computation() {
    let pattern = ForcingPattern { choices: vec![0, 1, 0, 1, 1] };
    let buf = render_lyapunov(8, 8, 32, &pattern).unwrap();
    let a = lyapunov_coord(3, 8);
    let b = lyapunov_coord(2, 8);
    let expected = lyapunov_color(lyapunov_exponent(a, b, &pattern, 32));
    assert_eq!(buf.get(3, 2), expected);
}
