//! Forced logistic iteration and its Lyapunov exponent.
//!
//! A cyclic pattern of binary choices selects, at every step, which of two
//! parameters `a` and `b` drives the logistic recurrence
//! `x <- r * x * (1 - x)`.  The Lyapunov exponent is the mean of
//! `ln(|r| * |1 - 2x|)` over the run.  All values are Q24 fixed point; the
//! logarithm is computed by binary digit extraction of the base-2 logarithm
//! followed by a scaling with `ln 2`, so the whole computation is exact
//! integer arithmetic.  A step whose derivative term `|r| * |1 - 2x|`
//! truncates to zero has no finite logarithm: the exponent of such a run is
//! reported as negative infinity.

use vstd::prelude::*;
use crate::fixed::{
    SCALE,
    abs_int,
    div_trunc,
    fmul,
    abs64,
    fixed_mul,
    div_trunc_i64,
    lemma_fmul_bound,
    lemma_div_trunc_bounds,
};

verus! {

/// A cyclic forcing pattern: a nonempty sequence of binary choices.
#[derive(Clone, Debug)]
pub struct ForcingPattern {
    pub choices: Vec<u8>,
}

impl ForcingPattern {
    /// Well-formed: nonempty, every choice `0` or `1`.
    pub open spec fn wf(&self) -> bool {
        self.choices@.len() >= 1 && forall|i: int|
            0 <= i < self.choices@.len() ==> self.choices@[i] <= 1
    }

    /// Checks well-formedness at run time.
    pub fn is_well_formed(&self) -> (ok: bool)
        ensures
            ok == self.wf(),
    {
        if self.choices.len() == 0 {
            return false;
        }
        let mut i: usize = 0;
        while i < self.choices.len()
            invariant
                i <= self.choices@.len(),
                forall|k: int| 0 <= k < i ==> self.choices@[k] <= 1,
            decreases self.choices@.len() - i,
        {
            if self.choices[i] > 1 {
                return false;
            }
            i = i + 1;
        }
        true
    }
}

/// The forcing coefficient of step `n`: `a` where the pattern reads `0`,
/// else `b`; the pattern index is `n` modulo the pattern length.
pub open spec fn spec_r(a: int, b: int, pat: Seq<u8>, n: int) -> int {
    if pat[n % pat.len() as int] == 0 {
        a
    } else {
        b
    }
}

/// Selects the forcing coefficient of step `n`.
pub fn compute_r(n: usize, a: i64, b: i64, pattern: &ForcingPattern) -> (r: i64)
    requires
        pattern.wf(),
    ensures
        r as int == spec_r(a as int, b as int, pattern.choices@, n as int),
        r == a || r == b,
{
    let idx: usize = n % pattern.choices.len();
    if pattern.choices[idx] == 0 {
        a
    } else {
        b
    }
}

/// The logistic trajectory: `x_0 = 1/2`, and
/// `x_i = r(i-1) * x_{i-1} * (1 - x_{i-1})`, all Q24.
pub open spec fn spec_traj(a: int, b: int, pat: Seq<u8>, i: int) -> int
    decreases i,
{
    if i <= 0 {
        (SCALE as int) / 2
    } else {
        let x = spec_traj(a, b, pat, i - 1);
        fmul(fmul(spec_r(a, b, pat, i - 1), x), SCALE as int - x)
    }
}

/// The derivative magnitude of step `i`: `|r(i)| * |1 - 2 * x_i|`, Q24.
pub open spec fn spec_term(a: int, b: int, pat: Seq<u8>, i: int) -> int {
    fmul(abs_int(spec_r(a, b, pat, i)), abs_int(SCALE as int - 2 * spec_traj(a, b, pat, i)))
}

/// Whether every derivative term of steps `1 .. k` is positive, so that each
/// has a finite logarithm.
pub open spec fn spec_terms_positive(a: int, b: int, pat: Seq<u8>, k: int) -> bool {
    forall|j: int| 1 <= j < k ==> spec_term(a, b, pat, j) >= 1
}

/// Powers of two.
pub open spec fn two_pow(n: nat) -> int
    decreases n,
{
    if n == 0 {
        1
    } else {
        2 * two_pow((n - 1) as nat)
    }
}

proof fn lemma_two_pow_pos(n: nat)
    ensures
        two_pow(n) >= 1,
    decreases n,
{
    if n > 0 {
        lemma_two_pow_pos((n - 1) as nat);
    }
}

proof fn lemma_two_pow_mono(m: nat, n: nat)
    requires
        m <= n,
    ensures
        two_pow(m) <= two_pow(n),
    decreases n,
{
    lemma_two_pow_pos(m);
    if m < n {
        lemma_two_pow_mono(m, (n - 1) as nat);
    }
}

/// Halves `u` until it drops below `2 * SCALE`, counting the halvings.
pub open spec fn norm_down(u: int) -> (int, int)
    decreases u,
{
    if u < 2 * SCALE as int {
        (u, 0int)
    } else {
        let r = norm_down(u / 2);
        (r.0, r.1 + 1)
    }
}

/// Doubles `u` until it reaches `SCALE`, counting the doublings negatively;
/// the fuel caps the recursion.
pub open spec fn norm_up(u: int, fuel: nat) -> (int, int)
    decreases fuel,
{
    if fuel == 0 || u >= SCALE as int || u < 1 {
        (u, 0int)
    } else {
        let r = norm_up(2 * u, (fuel - 1) as nat);
        (r.0, r.1 - 1)
    }
}

/// Binary digit extraction of the fractional part of `log2(u / SCALE)`
/// for `u` in `[SCALE, 2 * SCALE)`: `k` repeated squarings, accumulating
/// one bit each into `f`.
pub open spec fn frac_acc(u: int, k: nat, f: int) -> int
    decreases k,
{
    if k == 0 {
        f
    } else {
        let y = (u * u) / (SCALE as int);
        if y >= 2 * SCALE as int {
            frac_acc(y / 2, (k - 1) as nat, 2 * f + 1)
        } else {
            frac_acc(y, (k - 1) as nat, 2 * f)
        }
    }
}

/// `ln(p / SCALE)` in Q24 for `p >= 1`: normalize `p` into `[SCALE, 2*SCALE)`
/// keeping the binary exponent, extract 24 fractional bits of the base-2
/// logarithm, and rescale by `ln 2` (`11629080` in Q24).
pub open spec fn spec_ln(p: int) -> int {
    let d = norm_down(p);
    let u = norm_up(d.0, 24);
    fmul((d.1 + u.1) * (SCALE as int) + frac_acc(u.0, 24, 0), 11629080)
}

/// The running logarithm sum of steps `1 .. k`.
pub open spec fn spec_ln_sum(a: int, b: int, pat: Seq<u8>, k: int) -> int
    decreases k,
{
    if k <= 1 {
        0
    } else {
        spec_ln_sum(a, b, pat, k - 1) + spec_ln(spec_term(a, b, pat, k - 1))
    }
}

/// A Lyapunov exponent: a finite Q24 value, or negative infinity when some
/// step's derivative term vanished.
#[derive(Clone, Copy, PartialEq, Eq, Structural, Debug)]
pub enum LyapunovValue {
    Finite(i64),
    NegInfinity,
}

/// The Lyapunov exponent of a run of `max_iterations` steps: the mean of the
/// step logarithms, or negative infinity if any derivative term vanished.
pub open spec fn spec_lyapunov(a: int, b: int, pat: Seq<u8>, max_iterations: int) -> LyapunovValue {
    if spec_terms_positive(a, b, pat, max_iterations) {
        LyapunovValue::Finite(
            div_trunc(spec_ln_sum(a, b, pat, max_iterations), max_iterations) as i64,
        )
    } else {
        LyapunovValue::NegInfinity
    }
}

/// 24 squaring steps extracting the fractional bits of `log2(u0 / SCALE)`.
fn log2_frac(u0: u64) -> (f: u64)
    requires
        16777216 <= u0 < 33554432,
    ensures
        f as int == frac_acc(u0 as int, 24, 0),
        f < 16777216,
{
    let mut u: u64 = u0;
    let mut f: u64 = 0;
    let mut j: u64 = 0;
    while j < 24
        invariant
            16777216 <= u < 33554432,
            j <= 24,
            (f as int) < two_pow(j as nat),
            frac_acc(u0 as int, 24, 0) == frac_acc(u as int, (24 - j) as nat, f as int),
        decreases 24 - j,
    {
        proof {
            lemma_two_pow_mono(j as nat, 23);
            reveal_with_fuel(two_pow, 25);
            assert((u as int) * (u as int) < 0x4_0000_0000_0000) by (nonlinear_arith)
                requires
                    0 <= (u as int) < 33554432,
            ;
            assert((u as int) * (u as int) >= 16777216 * 16777216) by (nonlinear_arith)
                requires
                    (u as int) >= 16777216,
            ;
        }
        let y: u64 = (u * u) / 16777216u64;
        proof {
            vstd::arithmetic::div_mod::lemma_fundamental_div_mod(
                (u as int) * (u as int),
                16777216,
            );
            assert(16777216 <= (y as int) && (y as int) < 4 * 16777216) by (nonlinear_arith)
                requires
                    (u as int) * (u as int) == 16777216 * (y as int) + ((u as int) * (u as int))
                        % 16777216,
                    0 <= ((u as int) * (u as int)) % 16777216 < 16777216,
                    16777216 * 16777216 <= (u as int) * (u as int),
                    (u as int) * (u as int) < 4 * 16777216 * 16777216,
            ;
        }
        if y >= 33554432 {
            u = y / 2;
            f = 2 * f + 1;
        } else {
            u = y;
            f = 2 * f;
        }
        j = j + 1;
    }
    proof {
        reveal_with_fuel(two_pow, 25);
    }
    f
}

/// `ln(p / SCALE)` in Q24 for `p` in `[1, 4 * SCALE]`, matching `spec_ln`.
fn ln_q24(p: i64) -> (r: i64)
    requires
        1 <= p <= 4 * SCALE as int,
    ensures
        r as int == spec_ln(p as int),
        abs_int(r as int) <= 279097920,
{
    let mut u: u64 = p as u64;
    let mut e: i64 = 0;
    while u >= 33554432
        invariant
            1 <= p as int <= 4 * SCALE as int,
            1 <= u <= 4 * SCALE as int,
            0 <= e <= 2,
            e >= 1 ==> u >= 16777216,
            (u as int) * two_pow(e as nat) <= p as int,
            norm_down(p as int).0 == norm_down(u as int).0,
            norm_down(p as int).1 == e as int + norm_down(u as int).1,
        decreases u,
    {
        proof {
            lemma_two_pow_pos(e as nat);
            assert(two_pow((e + 1) as nat) == 2 * two_pow(e as nat));
            assert((u as int / 2) * (2 * two_pow(e as nat)) <= (u as int) * two_pow(e as nat))
                by (nonlinear_arith)
                requires
                    two_pow(e as nat) >= 1,
                    2 * (u as int / 2) <= u as int,
                    u as int >= 0,
            ;
            if e == 2 {
                reveal_with_fuel(two_pow, 4);
                assert((u as int) * two_pow(2nat) == 4 * u as int) by (nonlinear_arith)
                    requires
                        two_pow(2nat) == 4,
                ;
                assert(false);
            }
        }
        u = u / 2;
        e = e + 1;
    }
    let ghost e1: int = e as int;
    let ghost u1: int = u as int;
    proof {
        assert(norm_down(u as int) == (u as int, 0int));
        assert(norm_down(p as int) == (u1, e1));
    }
    while u < 16777216
        invariant
            1 <= u < 33554432,
            0 <= e1 <= 2,
            e <= e1,
            e1 - e <= 24,
            (u as int) >= two_pow((e1 - e) as nat),
            norm_up(u1, 24).0 == norm_up(u as int, (24 - (e1 - e)) as nat).0,
            norm_up(u1, 24).1 == (e as int - e1) + norm_up(u as int, (24 - (e1 - e)) as nat).1,
        decreases 24 - (e1 - e as int),
    {
        proof {
            let k = (e1 - e) as nat;
            lemma_two_pow_pos(k);
            if k >= 24 {
                lemma_two_pow_mono(24, k);
                reveal_with_fuel(two_pow, 25);
                assert(false);
            }
            assert(two_pow((k + 1) as nat) == 2 * two_pow(k));
            assert(norm_up(u as int, (24 - k) as nat) == (
                norm_up(2 * u as int, (24 - k - 1) as nat).0,
                norm_up(2 * u as int, (24 - k - 1) as nat).1 - 1,
            ));
        }
        u = 2 * u;
        e = e - 1;
    }
    proof {
        assert(norm_up(u as int, (24 - (e1 - e)) as nat) == (u as int, 0int));
        assert(norm_up(u1, 24).0 == u as int);
        assert(norm_up(u1, 24).1 == e as int - e1);
        assert(-24 <= e as int && e as int <= 2);
    }
    let f: u64 = log2_frac(u);
    let lq: i64 = e * 16777216 + (f as i64);
    proof {
        assert(abs_int(lq as int) <= 24 * 16777216);
        assert(abs_int(11629080int) <= 11629080);
    }
    let r: i64 = fixed_mul(lq, 11629080);
    proof {
        assert(abs_int(r as int) * 16777216 <= abs_int(lq as int) * 11629080);
        assert(abs_int(lq as int) * 11629080 <= 24 * 16777216 * 11629080) by (nonlinear_arith)
            requires
                0 <= abs_int(lq as int) <= 24 * 16777216,
        ;
        assert(abs_int(r as int) <= 279097920);
    }
    r
}

/// Runs the forced logistic recurrence for `max_iterations` steps from
/// `x_0 = 1/2` and returns the Lyapunov exponent: the mean over steps
/// `1 .. max_iterations` of `ln(|r(i)| * |1 - 2 * x_i|)`, or negative
/// infinity as soon as one of those derivative terms truncates to zero.
/// The parameters `a` and `b` are Q24 values in `[0, 4]`, the domain on
/// which the logistic map keeps its state inside `[0, 1]`.
pub fn lyapunov_exponent(a: i64, b: i64, pattern: &ForcingPattern, max_iterations: u16) -> (lam:
    LyapunovValue)
    requires
        pattern.wf(),
        0 <= a <= 4 * SCALE as int,
        0 <= b <= 4 * SCALE as int,
        max_iterations >= 1,
    ensures
        lam == spec_lyapunov(a as int, b as int, pattern.choices@, max_iterations as int),
        lam matches LyapunovValue::Finite(v) ==> abs_int(v as int) <= 65534 * 279097920,
{
    let ghost pat = pattern.choices@;
    let mut x: i64 = 8388608;
    let mut sum: i64 = 0;
    let mut i: u16 = 1;
    let mut diverged: bool = false;
    while i < max_iterations
        invariant_except_break
            1 <= i <= max_iterations,
            pattern.wf(),
            pat == pattern.choices@,
            0 <= a <= 4 * SCALE as int,
            0 <= b <= 4 * SCALE as int,
            0 <= x <= SCALE as int,
            x as int == spec_traj(a as int, b as int, pat, i as int - 1),
            sum as int == spec_ln_sum(a as int, b as int, pat, i as int),
            abs_int(sum as int) <= (i as int - 1) * 279097920,
            spec_terms_positive(a as int, b as int, pat, i as int),
            !diverged,
        ensures
            pat == pattern.choices@,
            diverged ==> !spec_terms_positive(a as int, b as int, pat, max_iterations as int),
            !diverged ==> i == max_iterations && sum as int == spec_ln_sum(
                a as int,
                b as int,
                pat,
                max_iterations as int,
            ) && spec_terms_positive(a as int, b as int, pat, max_iterations as int) && abs_int(
                sum as int,
            ) <= 65534 * 279097920,
        decreases max_iterations as int - i as int,
    {
        let r_prev: i64 = compute_r((i - 1) as usize, a, b, pattern);
        let t1: i64 = fixed_mul(r_prev, x);
        proof {
            lemma_fmul_bound(r_prev as int, x as int, 4 * SCALE as int, SCALE as int);
            assert(t1 >= 0);
        }
        let x_next: i64 = fixed_mul(t1, SCALE - x);
        proof {
            lemma_fmul_bound(t1 as int, SCALE as int - x as int, 4 * SCALE as int, SCALE as int);
            assert(x_next >= 0);
            assert((x_next as int) * 16777216 <= (t1 as int) * (SCALE as int - x as int));
            assert((t1 as int) * 16777216 <= (r_prev as int) * (x as int));
            assert(x_next as int <= 16777216) by (nonlinear_arith)
                requires
                    (x_next as int) * 16777216 <= (t1 as int) * (16777216 - x as int),
                    (t1 as int) * 16777216 <= (r_prev as int) * (x as int),
                    0 <= x as int <= 16777216,
                    0 <= r_prev as int <= 4 * 16777216,
                    0 <= t1 as int,
                    0 <= x_next as int,
            ;
            assert(x_next as int == spec_traj(a as int, b as int, pat, i as int));
        }
        x = x_next;
        let m: i64 = compute_r(i as usize, a, b, pattern);
        let d: i64 = SCALE - 2 * x;
        let d_abs: i64 = abs64(d) as i64;
        let p: i64 = fixed_mul(m, d_abs);
        proof {
            assert(abs_int(m as int) == m as int);
            assert(d_abs as int == abs_int(SCALE as int - 2 * spec_traj(a as int, b as int, pat, i as int)));
            assert(0 <= d_abs as int <= 16777216);
            lemma_fmul_bound(m as int, d_abs as int, 4 * SCALE as int, SCALE as int);
            assert(p >= 0);
            assert(p as int <= 4 * 16777216) by (nonlinear_arith)
                requires
                    (p as int) * 16777216 <= (m as int) * (d_abs as int),
                    0 <= m as int <= 4 * 16777216,
                    0 <= d_abs as int <= 16777216,
                    0 <= p as int,
            ;
            assert(p as int == spec_term(a as int, b as int, pat, i as int));
        }
        if p == 0 {
            proof {
                assert(spec_term(a as int, b as int, pat, i as int) == 0);
                assert(!spec_terms_positive(
                    a as int,
                    b as int,
                    pat,
                    max_iterations as int,
                ));
            }
            diverged = true;
            break ;
        }
        let step_ln: i64 = ln_q24(p);
        proof {
            assert forall|j: int| 1 <= j < i as int + 1 implies spec_term(
                a as int,
                b as int,
                pat,
                j,
            ) >= 1 by {
                if j < i as int {
                    assert(spec_term(a as int, b as int, pat, j) >= 1);
                }
            }
            assert(sum as int + step_ln as int == spec_ln_sum(
                a as int,
                b as int,
                pat,
                i as int + 1,
            ));
            assert(abs_int(sum as int + step_ln as int) <= (i as int) * 279097920);
        }
        sum = sum + step_ln;
        i = i + 1;
    }
    if diverged {
        LyapunovValue::NegInfinity
    } else {
        proof {
            lemma_div_trunc_bounds(sum as int, max_iterations as int);
        }
        LyapunovValue::Finite(div_trunc_i64(sum, max_iterations as u64))
    }
}

} // verus!
