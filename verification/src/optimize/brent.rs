//! Brent's method: bracketed root finding by inverse interpolation, secant
//! steps and bisection.

use crate::double::{Double, NAN_BITS, TWO};
use crate::host;
use vstd::prelude::*;

verus! {

/// `2e-14`, the absolute part of the tolerance on the root.
pub const XTOL: u64 = 0x3d16_849b_86a1_2b9b;

/// `4 * 2^-52`, the relative part of the tolerance on the root.
pub const RTOL: u64 = 0x3cd0_0000_0000_0000;

/// `3.0`.
pub const THREE: u64 = 0x4008_0000_0000_0000;

/// `0.001`, the residual that [`brentq_grid_search`] accepts.
pub const GRID_SEARCH_TOL: u64 = 0x3f50_624d_d2f1_a9fc;

/// Evaluations that [`brentq_grid_search`] spends on one bracket.
pub const GRID_SEARCH_ITER: usize = 100;

/// The signs of the two values differ. A NaN has no sign in common with
/// anything.
pub open spec fn signs_differ(a: Double, b: Double) -> bool {
    a.nan() || b.nan() || a.negative() != b.negative()
}

fn have_different_signs(a: Double, b: Double) -> (r: bool)
    ensures
        r == signs_differ(a, b),
{
    a.is_nan() || b.is_nan() || a.is_negative() != b.is_negative()
}

/// The state of the search: the previous point, the current one, and one on
/// the other side of the root, each with its value, and the last two steps.
#[derive(Clone, Copy)]
pub struct Brent {
    pub xpre: Double,
    pub xcur: Double,
    pub xblk: Double,
    pub fpre: Double,
    pub fcur: Double,
    pub fblk: Double,
    pub spre: Double,
    pub scur: Double,
}

impl Brent {
    /// The search between `xa` and `xb` before its first step.
    pub open spec fn start(m: spec_fn(Double) -> Double, xa: Double, xb: Double) -> Brent {
        let zero = Double::from_bits(0);
        Brent {
            xpre: xa,
            xcur: xb,
            xblk: zero,
            fpre: m(xa),
            fcur: m(xb),
            fblk: zero,
            spre: zero,
            scur: zero,
        }
    }

    /// With the previous point as the one across the root, where the function
    /// changes sign between it and the current one.
    pub open spec fn bracketed(self) -> Brent {
        if !self.fpre.zero() && !self.fcur.zero() && signs_differ(self.fpre, self.fcur) {
            let width = self.xcur.difference(self.xpre);
            Brent { xblk: self.xpre, fblk: self.fpre, spre: width, scur: width, ..self }
        } else {
            self
        }
    }

    /// With the better of the two bracket ends as the current point.
    pub open spec fn best_first(self) -> Brent {
        if self.fblk.magnitude().lt(self.fcur.magnitude()) {
            Brent {
                xpre: self.xcur,
                xcur: self.xblk,
                xblk: self.xcur,
                fpre: self.fcur,
                fcur: self.fblk,
                fblk: self.fcur,
                ..self
            }
        } else {
            self
        }
    }

    /// Half the tolerance at the current point: the smallest step taken.
    pub open spec fn delta(self) -> Double {
        Double::from_bits(XTOL).sum(Double::from_bits(RTOL).product(self.xcur.magnitude())).quotient(
            Double::from_bits(TWO),
        )
    }

    /// The step to the middle of the bracket.
    pub open spec fn sbis(self) -> Double {
        self.xblk.difference(self.xcur).quotient(Double::from_bits(TWO))
    }

    /// The current point is a root, or the bracket is within tolerance.
    pub open spec fn done(self) -> bool {
        self.fcur.zero() || self.sbis().magnitude().lt(self.delta())
    }

    /// The step that interpolation suggests: a secant step where the previous
    /// point is the one across the root, inverse quadratic otherwise.
    pub open spec fn stry(self) -> Double {
        if self.xpre.same(self.xblk) {
            self.fcur.opposite().product(self.xcur.difference(self.xpre)).quotient(
                self.fcur.difference(self.fpre),
            )
        } else {
            let dpre = self.fpre.difference(self.fcur).quotient(self.xpre.difference(self.xcur));
            let dblk = self.fblk.difference(self.fcur).quotient(self.xblk.difference(self.xcur));
            self.fcur.opposite().product(
                self.fblk.product(dblk).difference(self.fpre.product(dpre)),
            ).quotient(dblk.product(dpre).product(self.fblk.difference(self.fpre)))
        }
    }

    /// The longest step that interpolation may ask for, doubled.
    pub open spec fn stry_limit(self) -> Double {
        let bound = Double::from_bits(THREE).product(self.sbis().magnitude()).difference(
            self.delta(),
        );
        lesser(self.spre.magnitude(), bound)
    }

    /// Interpolation is worth trying, and its step is short enough.
    pub open spec fn interpolates(self) -> bool {
        &&& self.delta().lt(self.spre.magnitude())
        &&& self.fcur.magnitude().lt(self.fpre.magnitude())
        &&& Double::from_bits(TWO).product(self.stry().magnitude()).lt(self.stry_limit())
    }

    /// The last two steps, once the next one is chosen.
    pub open spec fn steps(self) -> (Double, Double) {
        if self.interpolates() {
            (self.scur, self.stry())
        } else {
            (self.sbis(), self.sbis())
        }
    }

    /// The next point: the chosen step away, and no nearer than `delta`.
    pub open spec fn next_point(self) -> Double {
        let scur = self.steps().1;
        if self.delta().lt(scur.magnitude()) {
            self.xcur.sum(scur)
        } else if self.sbis().positive() {
            self.xcur.sum(self.delta())
        } else {
            self.xcur.sum(self.delta().opposite())
        }
    }

    /// The state after one step.
    pub open spec fn advanced(self, m: spec_fn(Double) -> Double) -> Brent {
        Brent {
            xpre: self.xcur,
            fpre: self.fcur,
            xcur: self.next_point(),
            fcur: m(self.next_point()),
            spre: self.steps().0,
            scur: self.steps().1,
            ..self
        }
    }

    /// The state in which the search checks whether it is done.
    pub open spec fn prepared(self) -> Brent {
        self.bracketed().best_first()
    }

    fn prepare(self) -> (s: Brent)
        ensures
            s == self.prepared(),
    {
        let mut s = self;
        if !s.fpre.is_zero() && !s.fcur.is_zero() && have_different_signs(s.fpre, s.fcur) {
            s.xblk = s.xpre;
            s.fblk = s.fpre;
            s.spre = s.xcur.minus(s.xpre);
            s.scur = s.spre;
        }
        if s.fblk.abs().is_lt(s.fcur.abs()) {
            s.xpre = s.xcur;
            s.xcur = s.xblk;
            s.xblk = s.xpre;
            s.fpre = s.fcur;
            s.fcur = s.fblk;
            s.fblk = s.fpre;
        }
        s
    }

    fn half_tolerance(self) -> (r: Double)
        ensures
            r == self.delta(),
    {
        Double::from_bits(XTOL).plus(Double::from_bits(RTOL).times(self.xcur.abs())).over(
            Double::from_bits(TWO),
        )
    }

    fn bisection_step(self) -> (r: Double)
        ensures
            r == self.sbis(),
    {
        self.xblk.minus(self.xcur).over(Double::from_bits(TWO))
    }

    fn interpolation_step(self) -> (r: Double)
        ensures
            r == self.stry(),
    {
        if self.xpre.is_eq(self.xblk) {
            self.fcur.neg().times(self.xcur.minus(self.xpre)).over(self.fcur.minus(self.fpre))
        } else {
            let dpre = self.fpre.minus(self.fcur).over(self.xpre.minus(self.xcur));
            let dblk = self.fblk.minus(self.fcur).over(self.xblk.minus(self.xcur));
            self.fcur.neg().times(self.fblk.times(dblk).minus(self.fpre.times(dpre))).over(
                dblk.times(dpre).times(self.fblk.minus(self.fpre)),
            )
        }
    }

    fn choose_steps(self) -> (r: (Double, Double))
        ensures
            r == self.steps(),
    {
        let delta = self.half_tolerance();
        let sbis = self.bisection_step();
        if delta.is_lt(self.spre.abs()) && self.fcur.abs().is_lt(self.fpre.abs()) {
            let stry = self.interpolation_step();
            let bound = Double::from_bits(THREE).times(sbis.abs()).minus(delta);
            let limit = the_lesser(self.spre.abs(), bound);
            if Double::from_bits(TWO).times(stry.abs()).is_lt(limit) {
                return (self.scur, stry);
            }
        }
        (sbis, sbis)
    }
}

/// The lesser of two numbers; the other one where one is NaN.
pub open spec fn lesser(a: Double, b: Double) -> Double {
    if b.lt(a) || a.nan() {
        b
    } else {
        a
    }
}

fn the_lesser(a: Double, b: Double) -> (r: Double)
    ensures
        r == lesser(a, b),
{
    if b.is_lt(a) || a.is_nan() {
        b
    } else {
        a
    }
}

/// What the search reaches from `s` with `left` evaluations; NaN when they run
/// out.
pub open spec fn brent_search(m: spec_fn(Double) -> Double, s: Brent, left: nat) -> Double
    decreases left,
{
    if left == 0 {
        Double::from_bits(NAN_BITS)
    } else if s.prepared().done() {
        s.prepared().xcur
    } else {
        brent_search(m, s.prepared().advanced(m), (left - 1) as nat)
    }
}

/// The root that Brent's method finds between `xa` and `xb`. NaN where a value
/// at an end is not finite or the two have one sign.
pub open spec fn brent(
    m: spec_fn(Double) -> Double,
    xa: Double,
    xb: Double,
    iter: nat,
) -> Double {
    if !m(xa).finite() || !m(xb).finite() {
        Double::from_bits(NAN_BITS)
    } else if m(xa).zero() {
        xa
    } else if m(xb).zero() {
        xb
    } else if !signs_differ(m(xa), m(xb)) {
        Double::from_bits(NAN_BITS)
    } else {
        brent_search(m, Brent::start(m, xa, xb), iter)
    }
}

/// Brent's method between `xa` and `xb`, with `iter` evaluations to spend.
///
/// The caller decides whether the root is good enough: its tolerance is the
/// one that means something.
pub fn brentq<Func>(f: &Func, xa: Double, xb: Double, iter: usize) -> (root: Double)
    where Func: Fn(Double) -> Double
    requires
        host::total(*f),
    ensures
        forall|m: spec_fn(Double) -> Double| #[trigger]
            host::follows(*f, m) ==> root == brent(m, xa, xb, iter as nat),
{
    let fa = f(xa);
    let fb = f(xb);
    if !fa.is_finite() || !fb.is_finite() {
        return Double::from_bits(NAN_BITS);
    }
    if fa.is_zero() {
        return xa;
    }
    if fb.is_zero() {
        return xb;
    }
    if !have_different_signs(fa, fb) {
        return Double::from_bits(NAN_BITS);
    }
    let zero = Double::from_bits(0);
    let mut s = Brent {
        xpre: xa,
        xcur: xb,
        xblk: zero,
        fpre: fa,
        fcur: fb,
        fblk: zero,
        spre: zero,
        scur: zero,
    };
    let mut spent: usize = 0;
    while spent < iter
        invariant
            host::total(*f),
            spent <= iter,
            forall|m: spec_fn(Double) -> Double| #[trigger]
                host::follows(*f, m) ==> brent(m, xa, xb, iter as nat) == brent_search(
                    m,
                    s,
                    (iter - spent) as nat,
                ),
        decreases iter - spent,
    {
        let p = s.prepare();
        let delta = p.half_tolerance();
        let sbis = p.bisection_step();
        if p.fcur.is_zero() || sbis.abs().is_lt(delta) {
            return p.xcur;
        }
        let (spre, scur) = p.choose_steps();
        let next = if delta.is_lt(scur.abs()) {
            p.xcur.plus(scur)
        } else if sbis.is_positive() {
            p.xcur.plus(delta)
        } else {
            p.xcur.plus(delta.neg())
        };
        let fnext = f(next);
        s = Brent {
            xpre: p.xcur,
            fpre: p.fcur,
            xcur: next,
            fcur: fnext,
            xblk: p.xblk,
            fblk: p.fblk,
            spre,
            scur,
        };
        spent = spent + 1;
    }
    Double::from_bits(NAN_BITS)
}

// ---------------------------------------------------------------------------
// Grid search
// ---------------------------------------------------------------------------

/// `r` was found, and the residual there is small.
pub open spec fn accepted(m: spec_fn(Double) -> Double, r: Double) -> bool {
    r.finite() && m(r).magnitude().lt(Double::from_bits(GRID_SEARCH_TOL))
}

/// The accepted roots between the first `n` pairs of neighbouring points.
pub open spec fn roots_between(
    m: spec_fn(Double) -> Double,
    points: Seq<Double>,
    n: int,
) -> Seq<Double>
    decreases n,
{
    if n <= 0 {
        Seq::empty()
    } else {
        let rest = roots_between(m, points, n - 1);
        let r = brent(m, points[n - 1], points[n], GRID_SEARCH_ITER as nat);
        if accepted(m, r) {
            rest.push(r)
        } else {
            rest
        }
    }
}

/// The accepted roots of the first `n` runs of points, run by run.
pub open spec fn grid_search(
    m: spec_fn(Double) -> Double,
    runs: Seq<Vec<Double>>,
    n: int,
) -> Seq<Double>
    decreases n,
{
    if n <= 0 {
        Seq::empty()
    } else {
        grid_search(m, runs, n - 1) + roots_between(m, runs[n - 1]@, runs[n - 1]@.len() - 1)
    }
}

/// Runs Brent's method between neighbouring breakpoints of each run and keeps
/// the roots whose residual is small.
pub fn brentq_grid_search<Func>(breakpoints: &Vec<Vec<Double>>, f: &Func) -> (roots: Vec<Double>)
    where Func: Fn(Double) -> Double
    requires
        host::total(*f),
    ensures
        forall|m: spec_fn(Double) -> Double| #[trigger]
            host::follows(*f, m) ==> roots@ == grid_search(
                m,
                breakpoints@,
                breakpoints@.len() as int,
            ),
{
    let mut roots: Vec<Double> = Vec::new();
    let mut i: usize = 0;
    while i < breakpoints.len()
        invariant
            host::total(*f),
            i <= breakpoints.len(),
            forall|m: spec_fn(Double) -> Double| #[trigger]
                host::follows(*f, m) ==> roots@ == grid_search(m, breakpoints@, i as int),
        decreases breakpoints.len() - i,
    {
        let points = &breakpoints[i];
        let mut j: usize = 1;
        let ghost done = roots@;
        assert(forall|m: spec_fn(Double) -> Double| #[trigger]
            host::follows(*f, m) ==> roots@ == done + roots_between(m, points@, 0));
        while j < points.len()
            invariant
                host::total(*f),
                1 <= j,
                j <= points.len() || (j == 1 && points.len() == 0),
                forall|m: spec_fn(Double) -> Double| #[trigger]
                    host::follows(*f, m) ==> roots@ == done + roots_between(m, points@, j - 1),
            decreases points.len() - j,
        {
            let r = brentq(f, points[j - 1], points[j], GRID_SEARCH_ITER);
            if r.is_finite() && f(r).abs().is_lt(Double::from_bits(GRID_SEARCH_TOL)) {
                roots.push(r);
            }
            j = j + 1;
        }
        i = i + 1;
    }
    roots
}

} // verus!
