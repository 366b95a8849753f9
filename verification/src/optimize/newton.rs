//! Newton's method: in the order a spreadsheet performs it, down to a given
//! residual, and with absolute tolerances for periodic payments.

use crate::double::{Double, MINUS_ONE, NAN_BITS, ONE, TWO};
use crate::host;
use crate::integers;
use vstd::prelude::*;

verus! {

/// `1e-10`, the spreadsheet's tolerance on both the step and the value.
/// Absolute, as it is in a spreadsheet.
pub const EXCEL_EPS: u64 = 0x3ddb_7cdf_d9d7_bdbb;

/// Steps per attempt.
pub const EXCEL_MAX_ITER: u32 = 50;

/// Attempts: one from the guess, the others from the rescan grid.
pub const EXCEL_MAX_SCAN: u32 = 200;

/// `-0.99`, the lowest seed of the rescan grid.
pub const EXCEL_SCAN_START: u64 = 0xbfef_ae14_7ae1_47ae;

/// `0.01`, the spacing of the rescan grid.
pub const EXCEL_SCAN_STEP: u64 = 0x3f84_7ae1_47ae_147b;

/// Steps of [`newton_to_residual`].
pub const RESIDUAL_MAX_ITER: u32 = 50;

/// `1e-12`. A step below this part of the rate, or of one for smaller rates,
/// has stopped moving.
pub const STALLED_STEP: u64 = 0x3d71_9799_812d_ea11;

/// `1e-9`, the tolerance of [`newton_raphson`] on value and step.
pub const MAX_ERROR: u64 = 0x3e11_2e0b_e826_d695;

/// Steps of [`newton_raphson`].
pub const MAX_ITERATIONS: u32 = 50;

// ---------------------------------------------------------------------------
// Spreadsheet order
// ---------------------------------------------------------------------------

/// Where one Newton step leads from `rate`. `m` gives value and derivative.
pub open spec fn newton_step(m: spec_fn(Double) -> (Double, Double), rate: Double) -> Double {
    rate.difference(m(rate).0.quotient(m(rate).1))
}

/// Both the step from `rate` and the value at `rate` are still above the
/// spreadsheet's tolerance.
pub open spec fn unsettled(m: spec_fn(Double) -> (Double, Double), rate: Double) -> bool {
    let eps = Double::from_bits(EXCEL_EPS);
    &&& eps.lt(newton_step(m, rate).difference(rate).magnitude())
    &&& eps.lt(m(rate).0.magnitude())
}

/// The last rate at which an attempt from `rate` evaluates the function, when
/// it may take `left` steps: the first settled one, or the one at which the
/// steps run out.
pub open spec fn last_rate(
    m: spec_fn(Double) -> (Double, Double),
    rate: Double,
    left: nat,
) -> Double
    decreases left,
{
    if left <= 1 || !unsettled(m, rate) {
        rate
    } else {
        last_rate(m, newton_step(m, rate), (left - 1) as nat)
    }
}

/// What an attempt from `seed` yields: the rate it steps to from the last one,
/// unless that one is unsettled or something is not finite.
pub open spec fn attempt(m: spec_fn(Double) -> (Double, Double), seed: Double) -> Option<Double> {
    let last = last_rate(m, seed, EXCEL_MAX_ITER as nat);
    let rate = newton_step(m, last);
    if !unsettled(m, last) && rate.finite() && m(last).0.finite() {
        Some(rate)
    } else {
        None
    }
}

/// Where the attempt of a given number starts: the guess, then the grid.
pub open spec fn scan_seed(guess: Double, scan: int) -> Double {
    if scan < 1 {
        guess
    } else {
        Double::from_bits(EXCEL_SCAN_START).sum(
            integers::whole(scan).difference(Double::from_bits(ONE)).product(
                Double::from_bits(EXCEL_SCAN_STEP),
            ),
        )
    }
}

/// The rate of the first attempt from number `scan` on that yields one.
pub open spec fn first_attempt(
    m: spec_fn(Double) -> (Double, Double),
    guess: Double,
    scan: int,
) -> Double
    decreases EXCEL_MAX_SCAN - scan,
{
    if scan >= EXCEL_MAX_SCAN {
        Double::from_bits(NAN_BITS)
    } else {
        match attempt(m, scan_seed(guess, scan)) {
            Some(rate) => rate,
            None => first_attempt(m, guess, scan + 1),
        }
    }
}

/// The spreadsheet's rate; NaN where a spreadsheet shows an error.
pub open spec fn excel_order(m: spec_fn(Double) -> (Double, Double), guess: Double) -> Double {
    if !guess.finite() || guess.le(Double::from_bits(MINUS_ONE)) {
        Double::from_bits(NAN_BITS)
    } else {
        first_attempt(m, guess, 0)
    }
}

/// Newton's method in the exact order a spreadsheet performs it. `fd` gives
/// value and derivative.
///
/// Returns NaN where a spreadsheet shows an error. An attempt stops as soon as
/// either the step or the value is small, so the rate need not be a root, and
/// a zero derivative makes it infinite, which starts the next attempt.
pub fn newton_excel_order<Func>(guess: Double, fd: &Func) -> (rate: Double)
    where Func: Fn(Double) -> (Double, Double)
    requires
        host::total(*fd),
    ensures
        forall|m: spec_fn(Double) -> (Double, Double)| #[trigger]
            host::follows(*fd, m) ==> rate == excel_order(m, guess),
        rate.finite() || rate == Double::from_bits(NAN_BITS),
        !guess.finite() || guess.le(Double::from_bits(MINUS_ONE)) ==> rate.nan(),
{
    if !guess.is_finite() || guess.is_le(Double::from_bits(MINUS_ONE)) {
        return Double::from_bits(NAN_BITS);
    }
    let mut scan: u32 = 0;
    while scan < EXCEL_MAX_SCAN
        invariant
            host::total(*fd),
            scan <= EXCEL_MAX_SCAN,
            guess.finite(),
            !guess.le(Double::from_bits(MINUS_ONE)),
            forall|m: spec_fn(Double) -> (Double, Double)| #[trigger]
                host::follows(*fd, m) ==> excel_order(m, guess) == first_attempt(
                    m,
                    guess,
                    scan as int,
                ),
        decreases EXCEL_MAX_SCAN - scan,
    {
        let seed = if scan >= 1 {
            Double::from_bits(EXCEL_SCAN_START).plus(
                Double::from_i64(scan as i64).minus(Double::from_bits(ONE)).times(
                    Double::from_bits(EXCEL_SCAN_STEP),
                ),
            )
        } else {
            guess
        };
        match newton_attempt(seed, fd) {
            Some(rate) => {
                return rate;
            },
            None => {},
        }
        scan = scan + 1;
    }
    Double::from_bits(NAN_BITS)
}

/// One attempt of the spreadsheet's search.
fn newton_attempt<Func>(seed: Double, fd: &Func) -> (found: Option<Double>)
    where Func: Fn(Double) -> (Double, Double)
    requires
        host::total(*fd),
    ensures
        forall|m: spec_fn(Double) -> (Double, Double)| #[trigger]
            host::follows(*fd, m) ==> found == attempt(m, seed),
        found matches Some(rate) ==> rate.finite(),
{
    let eps = Double::from_bits(EXCEL_EPS);
    let mut rate = seed;
    let mut iter: u32 = 0;
    loop
        invariant
            host::total(*fd),
            iter < EXCEL_MAX_ITER,
            eps == Double::from_bits(EXCEL_EPS),
            forall|m: spec_fn(Double) -> (Double, Double)| #[trigger]
                host::follows(*fd, m) ==> last_rate(m, seed, EXCEL_MAX_ITER as nat) == last_rate(
                    m,
                    rate,
                    (EXCEL_MAX_ITER - iter) as nat,
                ),
        decreases EXCEL_MAX_ITER - iter,
    {
        let (value, deriv) = fd(rate);
        let new_rate = rate.minus(value.over(deriv));
        let rate_eps = new_rate.minus(rate).abs();
        let cont = eps.is_lt(rate_eps) && eps.is_lt(value.abs());
        iter = iter + 1;
        if !cont || iter >= EXCEL_MAX_ITER {
            return if cont || !new_rate.is_finite() || !value.is_finite() {
                None
            } else {
                Some(new_rate)
            };
        }
        rate = new_rate;
    }
}

// ---------------------------------------------------------------------------
// To a residual
// ---------------------------------------------------------------------------

/// Below this size a step to `rate` has stopped moving.
pub open spec fn stalled_below(rate: Double) -> Double {
    let floor = Double::from_bits(STALLED_STEP);
    if Double::from_bits(ONE).lt(rate.magnitude()) {
        floor.product(rate.magnitude())
    } else {
        floor
    }
}

/// What Newton's method reaches from `rate` within `left` steps when it stops
/// at a value within `tol` or at a step that has stopped moving; NaN if it
/// meets a value that is not finite or a zero derivative, or runs out of steps.
pub open spec fn residual_search(
    m: spec_fn(Double) -> (Double, Double),
    rate: Double,
    tol: Double,
    left: nat,
) -> Double
    decreases left,
{
    let (value, deriv) = m(rate);
    let step = value.quotient(deriv);
    let next = rate.difference(step);
    if left == 0 || !value.finite() || deriv.zero() {
        Double::from_bits(NAN_BITS)
    } else if value.magnitude().le(tol) {
        rate
    } else if step.magnitude().lt(stalled_below(next)) {
        next
    } else {
        residual_search(m, next, tol, (left - 1) as nat)
    }
}

/// Newton's method that stops on a residual tolerance of the caller's, or once
/// the step stops moving relative to the rate.
pub fn newton_to_residual<FD>(start: Double, fd: &FD, residual_tol: Double) -> (rate: Double)
    where FD: Fn(Double) -> (Double, Double)
    requires
        host::total(*fd),
    ensures
        forall|m: spec_fn(Double) -> (Double, Double)| #[trigger]
            host::follows(*fd, m) ==> rate == residual_search(
                m,
                start,
                residual_tol,
                RESIDUAL_MAX_ITER as nat,
            ),
{
    let mut rate = start;
    let mut iter: u32 = 0;
    while iter < RESIDUAL_MAX_ITER
        invariant
            host::total(*fd),
            iter <= RESIDUAL_MAX_ITER,
            forall|m: spec_fn(Double) -> (Double, Double)| #[trigger]
                host::follows(*fd, m) ==> residual_search(
                    m,
                    start,
                    residual_tol,
                    RESIDUAL_MAX_ITER as nat,
                ) == residual_search(
                    m,
                    rate,
                    residual_tol,
                    (RESIDUAL_MAX_ITER - iter) as nat,
                ),
        decreases RESIDUAL_MAX_ITER - iter,
    {
        let (value, deriv) = fd(rate);
        if !value.is_finite() || deriv.is_zero() {
            return Double::from_bits(NAN_BITS);
        }
        if value.abs().is_le(residual_tol) {
            return rate;
        }
        let step = value.over(deriv);
        rate = rate.minus(step);
        let floor = Double::from_bits(STALLED_STEP);
        let stalled = if Double::from_bits(ONE).is_lt(rate.abs()) {
            floor.times(rate.abs())
        } else {
            floor
        };
        if step.abs().is_lt(stalled) {
            return rate;
        }
        iter = iter + 1;
    }
    Double::from_bits(NAN_BITS)
}

// ---------------------------------------------------------------------------
// Absolute tolerances
// ---------------------------------------------------------------------------

/// What plain Newton iteration reaches from `x` within `left` steps, given the
/// function and its derivative.
pub open spec fn raphson(
    f: spec_fn(Double) -> Double,
    d: spec_fn(Double) -> Double,
    x: Double,
    left: nat,
) -> Double
    decreases left,
{
    let tol = Double::from_bits(MAX_ERROR);
    let delta = f(x).quotient(d(x));
    if left == 0 {
        Double::from_bits(NAN_BITS)
    } else if f(x).magnitude().lt(tol) {
        x
    } else if delta.magnitude().lt(tol) {
        x.difference(delta)
    } else {
        raphson(f, d, x.difference(delta), (left - 1) as nat)
    }
}

/// Newton's method with absolute tolerances, for periodic payments. NaN if
/// neither value nor step becomes small.
pub fn newton_raphson<Func, Deriv>(start: Double, f: &Func, d: &Deriv) -> (rate: Double)
    where Func: Fn(Double) -> Double, Deriv: Fn(Double) -> Double
    requires
        host::total(*f),
        host::total(*d),
    ensures
        forall|mf: spec_fn(Double) -> Double, md: spec_fn(Double) -> Double| #[trigger]
            host::follows(*f, mf) && #[trigger] host::follows(*d, md) ==> rate == raphson(
                mf,
                md,
                start,
                MAX_ITERATIONS as nat,
            ),
{
    let tol = Double::from_bits(MAX_ERROR);
    let mut x = start;
    let mut iter: u32 = 0;
    while iter < MAX_ITERATIONS
        invariant
            host::total(*f),
            host::total(*d),
            tol == Double::from_bits(MAX_ERROR),
            iter <= MAX_ITERATIONS,
            forall|mf: spec_fn(Double) -> Double, md: spec_fn(Double) -> Double| #[trigger]
                host::follows(*f, mf) && #[trigger] host::follows(*d, md) ==> raphson(
                    mf,
                    md,
                    start,
                    MAX_ITERATIONS as nat,
                ) == raphson(mf, md, x, (MAX_ITERATIONS - iter) as nat),
        decreases MAX_ITERATIONS - iter,
    {
        let y = f(x);
        if y.abs().is_lt(tol) {
            return x;
        }
        let delta = y.over(d(x));
        if delta.abs().is_lt(tol) {
            return x.minus(delta);
        }
        x = x.minus(delta);
        iter = iter + 1;
    }
    Double::from_bits(NAN_BITS)
}

/// The symmetric difference quotient over the tolerance to either side.
pub open spec fn default_deriv(f: spec_fn(Double) -> Double, x: Double) -> Double {
    let e = Double::from_bits(MAX_ERROR);
    f(x.sum(e)).difference(f(x.difference(e))).quotient(Double::from_bits(TWO).product(e))
}

/// [`newton_raphson`] with a difference quotient for the derivative.
pub fn newton_raphson_with_default_deriv<Func>(start: Double, f: Func) -> (rate: Double)
    where Func: Fn(Double) -> Double
    requires
        host::total(f),
    ensures
        forall|m: spec_fn(Double) -> Double| #[trigger]
            host::follows(f, m) ==> rate == raphson(
                m,
                |x: Double| default_deriv(m, x),
                start,
                MAX_ITERATIONS as nat,
            ),
{
    let f = &f;
    let df = |x: Double| -> (r: Double)
        ensures
            forall|m: spec_fn(Double) -> Double| #[trigger]
                host::follows(*f, m) ==> r == default_deriv(m, x),
        {
            let e = Double::from_bits(MAX_ERROR);
            f(x.plus(e)).minus(f(x.minus(e))).over(Double::from_bits(TWO).times(e))
        };
    let rate = newton_raphson(start, f, &df);
    proof {
        assert forall|m: spec_fn(Double) -> Double| #[trigger] host::follows(*f, m) implies rate
            == raphson(m, |x: Double| default_deriv(m, x), start, MAX_ITERATIONS as nat) by {
            let md = |x: Double| default_deriv(m, x);
            assert(host::follows(df, md));
        }
    }
    rate
}

} // verus!
