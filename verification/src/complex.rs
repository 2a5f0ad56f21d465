//! Escape-time iteration of `z <- z*z + c` over the complex plane.
//!
//! A complex number is a pair of Q24 fixed-point coordinates.  A point is
//! iterated until its squared norm exceeds `4` (norm threshold `2`, compared
//! in squared form) or the iteration budget runs out; the reported escape
//! index is the last loop count recorded before divergence was detected.
//! A point that diverges on the very first check reports index `0`, which is
//! indistinguishable from a point that completes exactly one step and then
//! diverges: the sentinel initial index coincides with the first recorded
//! count.  A point that never diverges reports `max_iterations - 1`.

use vstd::prelude::*;
use crate::fixed::{SCALE, abs_int, fmul, abs64, fixed_mul, lemma_abs_mul};

verus! {

/// A complex number; both coordinates are Q24 fixed point.
#[derive(Clone, Copy, PartialEq, Eq, Structural, Debug)]
pub struct Complex {
    pub re: i64,
    pub im: i64,
}

/// Coordinates small enough for the iteration arithmetic: at most `64.0`
/// in magnitude (`2^30` raw).
pub open spec fn in_range(z: Complex) -> bool {
    abs_int(z.re as int) <= 0x4000_0000 && abs_int(z.im as int) <= 0x4000_0000
}

/// The squared norm `re*re + im*im`, exact (at scale `SCALE * SCALE`).
pub open spec fn spec_norm_sq(z: Complex) -> int {
    (z.re as int) * (z.re as int) + (z.im as int) * (z.im as int)
}

/// The squared-norm escape threshold, `4` at scale `SCALE * SCALE`.
pub open spec fn escape_limit() -> int {
    4 * (SCALE as int) * (SCALE as int)
}

/// One escape-time step, `z*z + c`, in Q24: the real part is
/// `re*re - im*im + c.re`, the imaginary part `(2*re)*im + c.im`.
pub open spec fn spec_julia_step(z: Complex, c: Complex) -> Complex {
    Complex {
        re: (fmul(z.re as int, z.re as int) - fmul(z.im as int, z.im as int) + c.re as int) as i64,
        im: (fmul(2 * z.re as int, z.im as int) + c.im as int) as i64,
    }
}

/// The number of steps taken before the squared norm first exceeds the
/// escape threshold, capped by the remaining budget `fuel`.
pub open spec fn escape_count(z: Complex, c: Complex, fuel: nat) -> nat
    decreases fuel,
{
    if fuel == 0 {
        0
    } else if spec_norm_sq(z) > escape_limit() {
        0
    } else {
        1 + escape_count(spec_julia_step(z, c), c, (fuel - 1) as nat)
    }
}

/// The reported escape index: the last recorded loop count, with `0` doing
/// double duty as the sentinel for a point that escapes before any step.
pub open spec fn spec_escape_index(z0: Complex, c: Complex, max_iterations: nat) -> nat {
    let n = escape_count(z0, c, max_iterations);
    if n == 0 {
        0
    } else {
        (n - 1) as nat
    }
}

/// The squared norm of `z`, computed without overflow.
pub fn norm_sq(z: Complex) -> (n: u64)
    requires
        abs_int(z.re as int) <= 0x8000_0000,
        abs_int(z.im as int) <= 0x8000_0000,
    ensures
        n as int == spec_norm_sq(z),
{
    let ar: u64 = abs64(z.re);
    let ai: u64 = abs64(z.im);
    proof {
        assert(ar as int * ar as int <= 0x8000_0000 * 0x8000_0000 && ai as int * ai as int
            <= 0x8000_0000 * 0x8000_0000) by (nonlinear_arith)
            requires
                0 <= ar as int <= 0x8000_0000 && 0 <= ai as int <= 0x8000_0000,
        ;
        lemma_abs_mul(z.re as int, z.re as int);
        lemma_abs_mul(z.im as int, z.im as int);
        assert((z.re as int) * (z.re as int) >= 0 && (z.im as int) * (z.im as int) >= 0)
            by (nonlinear_arith);
    }
    ar * ar + ai * ai
}

/// One executable escape-time step.
pub fn julia_step(z: Complex, c: Complex) -> (r: Complex)
    requires
        spec_norm_sq(z) <= escape_limit(),
        in_range(c),
    ensures
        r == spec_julia_step(z, c),
        abs_int(r.re as int) <= 4 * (SCALE as int) + abs_int(c.re as int),
        abs_int(r.im as int) <= 8 * (SCALE as int) + abs_int(c.im as int),
{
    proof {
        assert(abs_int(z.re as int) <= 2 * (SCALE as int) && abs_int(z.im as int) <= 2 * (
        SCALE as int)) by (nonlinear_arith)
            requires
                (z.re as int) * (z.re as int) + (z.im as int) * (z.im as int) <= 4 * (SCALE as int)
                    * (SCALE as int),
        ;
    }
    let rr: i64 = fixed_mul(z.re, z.re);
    let ii: i64 = fixed_mul(z.im, z.im);
    let ri: i64 = fixed_mul(2 * z.re, z.im);
    proof {
        assert(abs_int(rr as int) <= 4 * (SCALE as int) && abs_int(ii as int) <= 4 * (SCALE as int)
            && abs_int(ri as int) <= 8 * (SCALE as int)) by (nonlinear_arith)
            requires
                abs_int(rr as int) * (SCALE as int) <= abs_int(z.re as int) * abs_int(z.re as int)
                    && abs_int(ii as int) * (SCALE as int) <= abs_int(z.im as int) * abs_int(
                    z.im as int,
                ) && abs_int(ri as int) * (SCALE as int) <= abs_int(2 * z.re as int) * abs_int(
                    z.im as int,
                ) && abs_int(z.re as int) <= 2 * (SCALE as int) && abs_int(z.im as int) <= 2 * (
                SCALE as int) && abs_int(2 * z.re as int) == 2 * abs_int(z.re as int) && SCALE
                    == 16777216,
        ;
        assert(abs_int(2 * z.re as int) == 2 * abs_int(z.re as int));
        assert((z.re as int) * (z.re as int) >= 0 && (z.im as int) * (z.im as int) >= 0)
            by (nonlinear_arith);
        crate::fixed::lemma_div_trunc_bounds((z.re as int) * (z.re as int), SCALE as int);
        crate::fixed::lemma_div_trunc_bounds((z.im as int) * (z.im as int), SCALE as int);
        assert(rr as int >= 0 && ii as int >= 0);
    }
    Complex { re: rr - ii + c.re, im: ri + c.im }
}

/// Bounded escape-time iteration: repeatedly applies `z <- z*z + c`, at most
/// `max_iterations` times, stopping as soon as the squared norm exceeds the
/// escape threshold, and reports the last recorded loop count.
pub fn escape_index(z0: Complex, c: Complex, max_iterations: u16) -> (index: u16)
    requires
        in_range(z0),
        in_range(c),
    ensures
        index as nat == spec_escape_index(z0, c, max_iterations as nat),
        index as int <= if max_iterations == 0 {
            0int
        } else {
            max_iterations as int - 1
        },
{
    let mut z: Complex = z0;
    let mut index: u16 = 0;
    let mut t: u16 = 0;
    while t < max_iterations
        invariant_except_break
            t <= max_iterations,
            in_range(c),
            abs_int(z.re as int) <= 8 * (SCALE as int) + 0x4000_0000,
            abs_int(z.im as int) <= 8 * (SCALE as int) + 0x4000_0000,
            escape_count(z0, c, max_iterations as nat) == t as nat + escape_count(
                z,
                c,
                (max_iterations - t) as nat,
            ),
            index as int == if t == 0 {
                0int
            } else {
                t as int - 1
            },
        ensures
            t <= max_iterations,
            escape_count(z0, c, max_iterations as nat) == t as nat,
            index as int == if t == 0 {
                0int
            } else {
                t as int - 1
            },
        decreases max_iterations as int - t as int,
    {
        let n: u64 = norm_sq(z);
        if n > 1125899906842624u64 {
            proof {
                assert(escape_limit() == 1125899906842624);
                assert(escape_count(z, c, (max_iterations - t) as nat) == 0);
            }
            break ;
        }
        z = julia_step(z, c);
        index = t;
        t = t + 1;
    }
    index
}

/// A starting point already past the escape threshold reports index `0`,
/// whatever the constant and the budget.
pub proof fn lemma_escape_immediate(z0: Complex, c: Complex, max_iterations: nat)
    requires
        spec_norm_sq(z0) > escape_limit(),
    ensures
        spec_escape_index(z0, c, max_iterations) == 0,
{
}

proof fn lemma_origin_count(fuel: nat)
    ensures
        escape_count(Complex { re: 0, im: 0 }, Complex { re: 0, im: 0 }, fuel) == fuel,
    decreases fuel,
{
    let zero = Complex { re: 0, im: 0 };
    if fuel > 0 {
        assert(spec_norm_sq(zero) == 0);
        assert(spec_julia_step(zero, zero) == zero);
        lemma_origin_count((fuel - 1) as nat);
    }
}

/// The orbit of the origin under the constant `0` never diverges: it
/// exhausts the budget and reports `max_iterations - 1`.
pub proof fn lemma_origin_never_escapes(max_iterations: nat)
    requires
        max_iterations >= 1,
    ensures
        spec_escape_index(
            Complex { re: 0, im: 0 },
            Complex { re: 0, im: 0 },
            max_iterations,
        ) == (max_iterations - 1) as nat,
{
    lemma_origin_count(max_iterations);
}

} // verus!
