//! Root finders see ratios only: multiplying a function by a power of two does
//! not move what they return, as long as nothing underflows or overflows.

use crate::arithmetic;
use crate::double;
use crate::double::Double;
use crate::optimize::brent;
use crate::optimize::brent::Brent;
use crate::optimize::crossings;
use crate::optimize::crossings::Crossing;
use crate::optimize::laws;
use crate::optimize::newton;
use crate::scaling_laws;
use crate::search;
use vstd::arithmetic::mul::*;
use vstd::arithmetic::power2::*;
use vstd::prelude::*;

verus! {

// ---------------------------------------------------------------------------
// Numbers
// ---------------------------------------------------------------------------

/// Scaling keeps zeros and signs, and commutes with both.
pub proof fn lemma_scaled_sign(x: Double, a: Double, k: nat)
    requires
        scaling_laws::scales(x, a, k),
    ensures
        x.zero() == a.zero(),
        x.positive() == a.positive(),
        scaling_laws::scales(x.opposite(), a.opposite(), k),
        scaling_laws::scales(x.magnitude(), a.magnitude(), k),
{
    let c = pow2(k) as int;
    lemma_pow2_pos(k);
    let u = double::units(x.mag());
    arithmetic::lemma_units_order(x.mag(), x.mag());
    arithmetic::lemma_units_order(a.mag(), a.mag());
    assert(u > 0 <==> u * c > 0) by (nonlinear_arith)
        requires
            u >= 0,
            c > 0,
    ;
}

/// Scaling keeps the order.
pub proof fn lemma_scaled_order(x: Double, y: Double, a: Double, b: Double, k: nat)
    requires
        scaling_laws::scales(x, a, k),
        scaling_laws::scales(y, b, k),
    ensures
        x.lt(y) == a.lt(b),
        x.le(y) == a.le(b),
{
    let c = pow2(k) as int;
    lemma_pow2_pos(k);
    lemma_scaled_sign(x, a, k);
    lemma_scaled_sign(y, b, k);
    let (u, v) = (double::units(x.mag()), double::units(y.mag()));
    arithmetic::lemma_units_order(x.mag(), y.mag());
    arithmetic::lemma_units_order(y.mag(), x.mag());
    arithmetic::lemma_units_order(a.mag(), b.mag());
    arithmetic::lemma_units_order(b.mag(), a.mag());
    assert(u < v <==> u * c < v * c) by (nonlinear_arith)
        requires
            c > 0,
    ;
    assert(v < u <==> v * c < u * c) by (nonlinear_arith)
        requires
            c > 0,
    ;
}

/// Differences of scaled numbers are scaled, unless they overflow.
proof fn lemma_difference_scales(x: Double, y: Double, a: Double, b: Double, k: nat)
    requires
        scaling_laws::scales(x, a, k),
        scaling_laws::scales(y, b, k),
        a.difference(b).finite(),
    ensures
        scaling_laws::scales(x.difference(y), a.difference(b), k),
{
    lemma_scaled_sign(y, b, k);
    scaling_laws::lemma_sum_scales(x, y.opposite(), a, b.opposite(), k);
}

/// The factors of a product multiply.
proof fn lemma_product_of_scaled(x: Double, y: Double, a: Double, b: Double, k: nat, j: nat)
    requires
        scaling_laws::scales(x, a, k),
        scaling_laws::scales(y, b, j),
        scaling_laws::product_kept(x, y),
        a.product(b).finite(),
    ensures
        scaling_laws::scales(x.product(y), a.product(b), k + j),
{
    let (c, d) = (pow2(k) as int, pow2(j) as int);
    let p = pow2(1074) as int;
    lemma_pow2_pos(k);
    lemma_pow2_pos(j);
    lemma_pow2_pos(1074);
    lemma_pow2_adds(k, j);
    let (u, v) = (double::units(x.mag()), double::units(y.mag()));
    arithmetic::lemma_units_order(x.mag(), x.mag());
    arithmetic::lemma_units_order(y.mag(), y.mag());
    let exact = u * v;
    let cd = pow2(k + j) as int;
    assert((u * c) * (v * d) == exact * cd && exact >= 0 && exact * cd >= 0) by (nonlinear_arith)
        requires
            exact == u * v,
            cd == c * d,
            u >= 0,
            v >= 0,
            c > 0,
            d > 0,
    ;
    arithmetic::lemma_round_range(exact, p);
    arithmetic::lemma_round_range(exact * cd, p);
    arithmetic::lemma_round_zero(p);
    arithmetic::lemma_units_order(0, 0);
    if exact == 0 {
        lemma_mul_basics(cd);
    } else {
        scaling_laws::lemma_round_shifts(exact, p, k + j);
    }
}

// ---------------------------------------------------------------------------
// Brent's method
// ---------------------------------------------------------------------------

/// The search from `s` chooses a step in state `p` within `left` steps.
pub open spec fn search_reaches(
    m: spec_fn(Double) -> Double,
    s: Brent,
    left: nat,
    p: Brent,
) -> bool
    decreases left,
{
    &&& left > 0
    &&& !s.prepared().done()
    &&& p == s.prepared() || search_reaches(m, s.prepared().advanced(m), (left - 1) as nat, p)
}

/// Brent's method between `xa` and `xb` chooses a step in state `p`.
pub open spec fn brent_reaches(
    m: spec_fn(Double) -> Double,
    xa: Double,
    xb: Double,
    iter: nat,
    p: Brent,
) -> bool {
    laws::searches(m, xa, xb) && search_reaches(m, Brent::start(m, xa, xb), iter, p)
}

/// The same points, with the values that another function has there.
pub open spec fn carried(n: spec_fn(Double) -> Double, p: Brent) -> Brent {
    Brent { fpre: n(p.xpre), fcur: n(p.xcur), fblk: n(p.xblk), ..p }
}

/// The difference quotient of two values is finite and keeps its digits, and
/// the larger one, of `a` and `b`, does not overflow.
pub open spec fn slope_kept(x: Double, y: Double, a: Double, b: Double, run: Double) -> bool {
    &&& run.finite() && !run.zero()
    &&& a.difference(b).finite()
    &&& scaling_laws::quotient_kept(x.difference(y), run)
    &&& a.difference(b).quotient(run).finite()
}

/// The product keeps its digits, and the larger one, of `a` and `b`, does not
/// overflow.
pub open spec fn times_kept(x: Double, y: Double, a: Double, b: Double) -> bool {
    scaling_laws::product_kept(x, y) && a.product(b).finite()
}

/// Where interpolation is tried in state `p`, nothing is lost in working out its
/// step, and nothing overflows in state `q`, which has the larger values.
pub open spec fn interpolation_kept(p: Brent, q: Brent) -> bool {
    p.delta().lt(p.spre.magnitude()) && p.fcur.magnitude().lt(p.fpre.magnitude()) ==> {
        if p.xpre.same(p.xblk) {
            let back = p.xcur.difference(p.xpre);
            &&& back.finite()
            &&& times_kept(p.fcur.opposite(), back, q.fcur.opposite(), back)
            &&& q.fcur.difference(q.fpre).finite()
        } else {
            let before = p.xpre.difference(p.xcur);
            let ahead = p.xblk.difference(p.xcur);
            let (dp, dq) = (
                p.fpre.difference(p.fcur).quotient(before),
                q.fpre.difference(q.fcur).quotient(before),
            );
            let (ep, eq) = (
                p.fblk.difference(p.fcur).quotient(ahead),
                q.fblk.difference(q.fcur).quotient(ahead),
            );
            let (sp, sq) = (
                p.fblk.product(ep).difference(p.fpre.product(dp)),
                q.fblk.product(eq).difference(q.fpre.product(dq)),
            );
            &&& slope_kept(p.fpre, p.fcur, q.fpre, q.fcur, before)
            &&& slope_kept(p.fblk, p.fcur, q.fblk, q.fcur, ahead)
            &&& times_kept(p.fblk, ep, q.fblk, eq)
            &&& times_kept(p.fpre, dp, q.fpre, dq)
            &&& sq.finite()
            &&& times_kept(p.fcur.opposite(), sp, q.fcur.opposite(), sq)
            &&& times_kept(ep, dp, eq, dq)
            &&& q.fblk.difference(q.fpre).finite()
            &&& times_kept(
                ep.product(dp),
                p.fblk.difference(p.fpre),
                eq.product(dq),
                q.fblk.difference(q.fpre),
            )
        }
    }
}

/// Nothing is lost between `xa` and `xb`: `n` is `2^k` times `m` wherever the
/// method evaluates it, and no step loses digits.
pub open spec fn bracket_kept(
    m: spec_fn(Double) -> Double,
    n: spec_fn(Double) -> Double,
    xa: Double,
    xb: Double,
    iter: nat,
    k: nat,
) -> bool {
    &&& forall|x: Double| #[trigger]
        laws::brent_visits(m, xa, xb, iter, x) ==> scaling_laws::scales(m(x), n(x), k)
    &&& forall|p: Brent| #[trigger]
        brent_reaches(m, xa, xb, iter, p) ==> interpolation_kept(p, carried(n, p))
}

/// Brent's method returns the same root of a function and of `2^k` times it,
/// bit for bit, as long as nothing is lost.
pub proof fn law_brent_sees_ratios_only(
    m: spec_fn(Double) -> Double,
    n: spec_fn(Double) -> Double,
    xa: Double,
    xb: Double,
    iter: nat,
    k: nat,
)
    requires
        bracket_kept(m, n, xa, xb, iter, k),
    ensures
        brent::brent(m, xa, xb, iter) == brent::brent(n, xa, xb, iter),
{
    assert(laws::brent_visits(m, xa, xb, iter, xa));
    assert(laws::brent_visits(m, xa, xb, iter, xb));
    lemma_scaled_sign(m(xa), n(xa), k);
    lemma_scaled_sign(m(xb), n(xb), k);
    if laws::searches(m, xa, xb) {
        let (s, t) = (Brent::start(m, xa, xb), Brent::start(n, xa, xb));
        assert forall|x: Double| #[trigger]
            laws::search_visits(m, s, iter, x) implies scaling_laws::scales(m(x), n(x), k) by {
            assert(laws::brent_visits(m, xa, xb, iter, x));
        }
        assert forall|p: Brent| #[trigger]
            search_reaches(m, s, iter, p) implies interpolation_kept(p, carried(n, p)) by {
            assert(brent_reaches(m, xa, xb, iter, p));
        }
        arithmetic::lemma_units_order(0, 0);
        lemma_mul_basics(pow2(k) as int);
        lemma_same_search(m, n, s, t, iter, k);
    }
}

/// The two searches are at the same points with scaled values. Unless the next
/// preparation brackets the root anew, the value across belongs to its point.
spec fn in_step(
    m: spec_fn(Double) -> Double,
    n: spec_fn(Double) -> Double,
    s: Brent,
    t: Brent,
    k: nat,
) -> bool {
    &&& t == Brent { fpre: t.fpre, fcur: t.fcur, fblk: t.fblk, ..s }
    &&& s.fpre == m(s.xpre) && t.fpre == n(s.xpre) && scaling_laws::scales(s.fpre, t.fpre, k)
    &&& s.fcur == m(s.xcur) && t.fcur == n(s.xcur) && scaling_laws::scales(s.fcur, t.fcur, k)
    &&& scaling_laws::scales(s.fblk, t.fblk, k)
    &&& {
        ||| !s.fpre.zero() && !s.fcur.zero() && s.fpre.negative() != s.fcur.negative()
        ||| s.fblk == m(s.xblk) && t.fblk == n(s.xblk)
    }
}

proof fn lemma_same_search(
    m: spec_fn(Double) -> Double,
    n: spec_fn(Double) -> Double,
    s: Brent,
    t: Brent,
    left: nat,
    k: nat,
)
    requires
        in_step(m, n, s, t, k),
        forall|x: Double| #[trigger]
            laws::search_visits(m, s, left, x) ==> scaling_laws::scales(m(x), n(x), k),
        forall|p: Brent| #[trigger]
            search_reaches(m, s, left, p) ==> interpolation_kept(p, carried(n, p)),
    ensures
        brent::brent_search(m, s, left) == brent::brent_search(n, t, left),
    decreases left,
{
    if left > 0 {
        lemma_scaled_sign(s.fpre, t.fpre, k);
        lemma_scaled_sign(s.fcur, t.fcur, k);
        let (x, y) = (s.bracketed(), t.bracketed());
        assert(y == Brent { fpre: y.fpre, fcur: y.fcur, fblk: y.fblk, ..x });
        assert(scaling_laws::scales(x.fblk, y.fblk, k));
        lemma_scaled_sign(x.fblk, y.fblk, k);
        lemma_scaled_order(
            x.fblk.magnitude(),
            x.fcur.magnitude(),
            y.fblk.magnitude(),
            y.fcur.magnitude(),
            k,
        );
        let (p, q) = (s.prepared(), t.prepared());
        assert(q == carried(n, p));
        assert(p.fblk == m(p.xblk) && p.fcur == m(p.xcur) && p.fpre == m(p.xpre));
        assert(scaling_laws::scales(p.fcur, q.fcur, k));
        assert(scaling_laws::scales(p.fpre, q.fpre, k));
        assert(scaling_laws::scales(p.fblk, q.fblk, k));
        lemma_scaled_sign(p.fcur, q.fcur, k);
        assert(p.delta() == q.delta() && p.sbis() == q.sbis());
        if !p.done() {
            assert(search_reaches(m, s, left, p));
            assert(laws::search_visits(m, s, left, p.next_point()));
            lemma_same_steps(p, q, k);
            let (u, v) = (p.advanced(m), q.advanced(n));
            assert forall|z: Double| #[trigger]
                laws::search_visits(m, u, (left - 1) as nat, z) implies scaling_laws::scales(
                m(z),
                n(z),
                k,
            ) by {
                assert(laws::search_visits(m, s, left, z));
            }
            assert forall|z: Brent| #[trigger]
                search_reaches(m, u, (left - 1) as nat, z) implies interpolation_kept(
                z,
                carried(n, z),
            ) by {
                assert(search_reaches(m, s, left, z));
            }
            lemma_same_search(m, n, u, v, (left - 1) as nat, k);
        }
    }
}

/// The two searches choose the same step.
proof fn lemma_same_steps(p: Brent, q: Brent, k: nat)
    requires
        q == (Brent { fpre: q.fpre, fcur: q.fcur, fblk: q.fblk, ..p }),
        scaling_laws::scales(p.fpre, q.fpre, k),
        scaling_laws::scales(p.fcur, q.fcur, k),
        scaling_laws::scales(p.fblk, q.fblk, k),
        interpolation_kept(p, q),
    ensures
        p.steps() == q.steps(),
        p.next_point() == q.next_point(),
{
    lemma_scaled_sign(p.fcur, q.fcur, k);
    lemma_scaled_sign(p.fpre, q.fpre, k);
    lemma_scaled_order(
        p.fcur.magnitude(),
        p.fpre.magnitude(),
        q.fcur.magnitude(),
        q.fpre.magnitude(),
        k,
    );
    assert(p.delta() == q.delta() && p.sbis() == q.sbis());
    assert(p.stry_limit() == q.stry_limit());
    if p.delta().lt(p.spre.magnitude()) && p.fcur.magnitude().lt(p.fpre.magnitude()) {
        lemma_same_stry(p, q, k);
    }
}

proof fn lemma_same_stry(p: Brent, q: Brent, k: nat)
    requires
        q == (Brent { fpre: q.fpre, fcur: q.fcur, fblk: q.fblk, ..p }),
        scaling_laws::scales(p.fpre, q.fpre, k),
        scaling_laws::scales(p.fcur, q.fcur, k),
        scaling_laws::scales(p.fblk, q.fblk, k),
        interpolation_kept(p, q),
        p.delta().lt(p.spre.magnitude()),
        p.fcur.magnitude().lt(p.fpre.magnitude()),
    ensures
        p.stry() == q.stry(),
{
    lemma_scaled_sign(p.fcur, q.fcur, k);
    if p.xpre.same(p.xblk) {
        let back = p.xcur.difference(p.xpre);
        let (tp, tq) = (p.fcur.opposite().product(back), q.fcur.opposite().product(back));
        let (lp, lq) = (p.fcur.difference(p.fpre), q.fcur.difference(q.fpre));
        scaling_laws::lemma_product_scales(p.fcur.opposite(), q.fcur.opposite(), back, k);
        lemma_difference_scales(p.fcur, p.fpre, q.fcur, q.fpre, k);
        scaling_laws::lemma_quotient_unmoved(tp, lp, tq, lq, k);
    } else {
        let before = p.xpre.difference(p.xcur);
        let ahead = p.xblk.difference(p.xcur);
        let (ap, aq) = (p.fpre.difference(p.fcur), q.fpre.difference(q.fcur));
        let (bp, bq) = (p.fblk.difference(p.fcur), q.fblk.difference(q.fcur));
        let (dp, dq) = (ap.quotient(before), aq.quotient(before));
        let (ep, eq) = (bp.quotient(ahead), bq.quotient(ahead));
        lemma_difference_scales(p.fpre, p.fcur, q.fpre, q.fcur, k);
        scaling_laws::lemma_quotient_scales(ap, aq, before, k);
        lemma_difference_scales(p.fblk, p.fcur, q.fblk, q.fcur, k);
        scaling_laws::lemma_quotient_scales(bp, bq, ahead, k);
        lemma_product_of_scaled(p.fblk, ep, q.fblk, eq, k, k);
        lemma_product_of_scaled(p.fpre, dp, q.fpre, dq, k, k);
        let (sp, sq) = (
            p.fblk.product(ep).difference(p.fpre.product(dp)),
            q.fblk.product(eq).difference(q.fpre.product(dq)),
        );
        lemma_difference_scales(
            p.fblk.product(ep),
            p.fpre.product(dp),
            q.fblk.product(eq),
            q.fpre.product(dq),
            k + k,
        );
        lemma_product_of_scaled(p.fcur.opposite(), sp, q.fcur.opposite(), sq, k, k + k);
        lemma_product_of_scaled(ep, dp, eq, dq, k, k);
        let (wp, wq) = (p.fblk.difference(p.fpre), q.fblk.difference(q.fpre));
        lemma_difference_scales(p.fblk, p.fpre, q.fblk, q.fpre, k);
        lemma_product_of_scaled(ep.product(dp), wp, eq.product(dq), wq, k + k, k);
        scaling_laws::lemma_quotient_unmoved(
            p.fcur.opposite().product(sp),
            ep.product(dp).product(wp),
            q.fcur.opposite().product(sq),
            eq.product(dq).product(wq),
            k + k + k,
        );
    }
}

// ---------------------------------------------------------------------------
// Newton's method
// ---------------------------------------------------------------------------

/// Newton's method to a residual evaluates the function at `x` within `left`
/// steps.
pub open spec fn residual_visits(
    m: spec_fn(Double) -> (Double, Double),
    rate: Double,
    tol: Double,
    left: nat,
    x: Double,
) -> bool
    decreases left,
{
    let (value, deriv) = m(rate);
    let step = value.quotient(deriv);
    let next = rate.difference(step);
    &&& left > 0
    &&& {
        ||| x == rate
        ||| {
            &&& value.finite() && !deriv.zero() && !value.magnitude().le(tol)
            &&& !step.magnitude().lt(newton::stalled_below(next))
            &&& residual_visits(m, next, tol, (left - 1) as nat, x)
        }
    }
}

/// Newton's method down to an exact zero ends at the same place for a function
/// and for `2^k` times it.
pub proof fn law_residual_search_sees_ratios_only(
    m: spec_fn(Double) -> (Double, Double),
    n: spec_fn(Double) -> (Double, Double),
    rate: Double,
    left: nat,
    k: nat,
)
    requires
        forall|x: Double| #[trigger]
            residual_visits(m, rate, Double::from_bits(0), left, x) ==> scaling_laws::scales(
                m(x).0,
                n(x).0,
                k,
            ) && scaling_laws::scales(m(x).1, n(x).1, k),
    ensures
        newton::residual_search(m, rate, Double::from_bits(0), left) == newton::residual_search(
            n,
            rate,
            Double::from_bits(0),
            left,
        ),
    decreases left,
{
    let zero = Double::from_bits(0);
    if left > 0 {
        assert(residual_visits(m, rate, zero, left, rate));
        let ((v, d), (w, e)) = (m(rate), n(rate));
        lemma_scaled_sign(v, w, k);
        lemma_scaled_sign(d, e, k);
        scaling_laws::lemma_quotient_unmoved(v, d, w, e, k);
        let step = v.quotient(d);
        let next = rate.difference(step);
        if v.finite() && !d.zero() && !v.magnitude().le(zero) && !step.magnitude().lt(
            newton::stalled_below(next),
        ) {
            assert forall|x: Double| #[trigger]
                residual_visits(m, next, zero, (left - 1) as nat, x) implies scaling_laws::scales(
                m(x).0,
                n(x).0,
                k,
            ) && scaling_laws::scales(m(x).1, n(x).1, k) by {
                assert(residual_visits(m, rate, zero, left, x));
            }
            law_residual_search_sees_ratios_only(m, n, next, (left - 1) as nat, k);
        }
    }
}

// ---------------------------------------------------------------------------
// A scan of a grid
// ---------------------------------------------------------------------------

/// The scan meets a change of sign between `lo` and `hi`.
pub open spec fn scan_brackets(
    m: spec_fn(Double) -> Double,
    grid: Seq<Double>,
    lo: Double,
    hi: Double,
) -> bool {
    crossings::crossings(m, grid, grid.len() as int).contains(Crossing::Bracket(lo, hi))
}

/// The scan of a grid for roots evaluates the function at `x`.
pub open spec fn scan_visits(
    m: spec_fn(Double) -> Double,
    grid: Seq<Double>,
    x: Double,
) -> bool {
    ||| grid.contains(x)
    ||| exists|lo: Double, hi: Double| #[trigger]
        scan_brackets(m, grid, lo, hi) && laws::brent_visits(
            m,
            lo,
            hi,
            search::BRENT_ITER as nat,
            x,
        )
}

/// The scan of a grid for roots chooses a step of Brent's method in state `p`.
pub open spec fn scan_reaches(
    m: spec_fn(Double) -> Double,
    grid: Seq<Double>,
    p: Brent,
) -> bool {
    exists|lo: Double, hi: Double| #[trigger]
        scan_brackets(m, grid, lo, hi) && brent_reaches(m, lo, hi, search::BRENT_ITER as nat, p)
}

/// A scan of a grid gathers the same roots of a function and of `2^k` times it.
pub proof fn law_a_scan_sees_ratios_only(
    m: spec_fn(Double) -> Double,
    n: spec_fn(Double) -> Double,
    grid: Seq<Double>,
    bound: nat,
    k: nat,
)
    requires
        forall|x: Double| #[trigger]
            scan_visits(m, grid, x) ==> scaling_laws::scales(m(x), n(x), k),
        forall|p: Brent| #[trigger]
            scan_reaches(m, grid, p) ==> interpolation_kept(p, carried(n, p)),
    ensures
        search::crossing_roots(m, grid, bound) == search::crossing_roots(n, grid, bound),
{
    let len = grid.len() as int;
    let found = crossings::crossings(m, grid, len);
    assert forall|i: int| 0 <= i < grid.len() implies scaling_laws::scales(
        m(#[trigger] grid[i]),
        n(grid[i]),
        k,
    ) by {
        assert(scan_visits(m, grid, grid[i]));
    }
    lemma_same_crossings(m, n, grid, len, k);
    assert forall|lo: Double, hi: Double| #[trigger]
        found.contains(Crossing::Bracket(lo, hi)) implies bracket_kept(
        m,
        n,
        lo,
        hi,
        search::BRENT_ITER as nat,
        k,
    ) by {
        let iter = search::BRENT_ITER as nat;
        assert(scan_brackets(m, grid, lo, hi));
        assert forall|x: Double| #[trigger]
            laws::brent_visits(m, lo, hi, iter, x) implies scaling_laws::scales(m(x), n(x), k) by {
            assert(scan_visits(m, grid, x));
        }
        assert forall|p: Brent| #[trigger]
            brent_reaches(m, lo, hi, iter, p) implies interpolation_kept(p, carried(n, p)) by {
            assert(scan_reaches(m, grid, p));
        }
    }
    lemma_same_gathered(m, n, found, found.len() as int, bound, k);
}

proof fn lemma_same_crossings(
    m: spec_fn(Double) -> Double,
    n: spec_fn(Double) -> Double,
    grid: Seq<Double>,
    len: int,
    k: nat,
)
    requires
        0 <= len <= grid.len(),
        forall|i: int|
            0 <= i < grid.len() ==> scaling_laws::scales(m(#[trigger] grid[i]), n(grid[i]), k),
    ensures
        crossings::crossings(m, grid, len) == crossings::crossings(n, grid, len),
    decreases len,
{
    if len > 0 {
        lemma_same_crossings(m, n, grid, len - 1, k);
        lemma_scaled_sign(m(grid[len - 1]), n(grid[len - 1]), k);
        if len > 1 {
            lemma_scaled_sign(m(grid[len - 2]), n(grid[len - 2]), k);
        }
    }
}

proof fn lemma_same_gathered(
    m: spec_fn(Double) -> Double,
    n: spec_fn(Double) -> Double,
    found: Seq<Crossing>,
    len: int,
    bound: nat,
    k: nat,
)
    requires
        0 <= len <= found.len(),
        forall|lo: Double, hi: Double| #[trigger]
            found.contains(Crossing::Bracket(lo, hi)) ==> bracket_kept(
                m,
                n,
                lo,
                hi,
                search::BRENT_ITER as nat,
                k,
            ),
    ensures
        search::gathered(m, found, len, bound) == search::gathered(n, found, len, bound),
    decreases len,
{
    if len > 0 {
        lemma_same_gathered(m, n, found, len - 1, bound, k);
        match found[len - 1] {
            Crossing::Bracket(lo, hi) => {
                assert(found.contains(Crossing::Bracket(lo, hi)));
                law_brent_sees_ratios_only(m, n, lo, hi, search::BRENT_ITER as nat, k);
            },
            Crossing::Exact(_) => {},
        }
    }
}

} // verus!
