//! Brent's method never leaves the bracket it is given.

use crate::arithmetic;
use crate::double;
use crate::double::{Double, HIDDEN_BIT, NAN_BITS, TWO};
use crate::optimize::brent;
use crate::optimize::brent::Brent;
use crate::optimize::laws;
use crate::rounding;
use crate::rounding_laws;
use crate::sign_laws;
use vstd::arithmetic::power2::*;
use vstd::prelude::*;

verus! {

/// `x` is finite and lies between `a` and `b`, in whichever order they come.
pub open spec fn between(a: Double, b: Double, x: Double) -> bool {
    &&& x.finite()
    &&& a.key() <= x.key() <= b.key() || b.key() <= x.key() <= a.key()
}

/// Both ends are finite, and so is the width of the bracket.
pub open spec fn bracket_ok(xa: Double, xb: Double) -> bool {
    &&& xa.finite()
    &&& xb.finite()
    &&& xb.difference(xa).finite()
}

/// On a bracket where the function is a number, Brent's method evaluates it at
/// points of the bracket only.
pub proof fn law_brent_stays_in_the_bracket(
    m: spec_fn(Double) -> Double,
    xa: Double,
    xb: Double,
    iter: nat,
    x: Double,
)
    requires
        bracket_ok(xa, xb),
        forall|y: Double| #[trigger] between(xa, xb, y) ==> !m(y).nan(),
        laws::brent_visits(m, xa, xb, iter, x),
    ensures
        between(xa, xb, x),
{
    assert(between(xa, xb, xa) && between(xa, xb, xb));
    if laws::searches(m, xa, xb) {
        let s = Brent::start(m, xa, xb);
        if laws::search_visits(m, s, iter, x) {
            lemma_search_inside(m, xa, xb, s, iter, x);
        }
    }
}

/// On a bracket where the function is a number, Brent's method returns NaN, an
/// exact zero, or a point within tolerance of which the function changes sign.
/// What it returns lies in the bracket, and so does the other side of the sign
/// change.
pub proof fn law_brent_finds_a_root_of_the_bracket(
    m: spec_fn(Double) -> Double,
    xa: Double,
    xb: Double,
    iter: nat,
)
    requires
        bracket_ok(xa, xb),
        forall|y: Double| #[trigger] between(xa, xb, y) ==> !m(y).nan(),
    ensures
        ({
            let r = brent::brent(m, xa, xb, iter);
            ||| r == Double::from_bits(NAN_BITS)
            ||| between(xa, xb, r) && m(r).zero()
            ||| between(xa, xb, r) && exists|y: Double| #[trigger]
                between(xa, xb, y) && laws::sign_change_nearby(m, r, y)
        }),
{
    assert(between(xa, xb, xa) && between(xa, xb, xb));
    if laws::searches(m, xa, xb) {
        lemma_search_finds(m, xa, xb, Brent::start(m, xa, xb), iter);
    }
}

// ---------------------------------------------------------------------------
// The invariant
// ---------------------------------------------------------------------------

/// The search before it prepares a step: its points lie in the bracket, and the
/// root lies between the last two of them or is still enclosed by the one
/// across, towards which the last step went.
spec fn enclosed(m: spec_fn(Double) -> Double, xa: Double, xb: Double, s: Brent) -> bool {
    &&& between(xa, xb, s.xpre) && between(xa, xb, s.xcur)
    &&& s.fpre == m(s.xpre) && s.fcur == m(s.xcur)
    &&& !s.fpre.zero()
    &&& {
        ||| !s.fcur.zero() && s.fpre.negative() != s.fcur.negative() && !s.fblk.nan()
        ||| {
            &&& s.fcur.zero() || s.fpre.negative() == s.fcur.negative()
            &&& between(xa, xb, s.xblk) && between(s.xpre, s.xblk, s.xcur)
            &&& s.fblk == m(s.xblk) && !s.fblk.zero() && s.fblk.negative() != s.fpre.negative()
        }
    }
}

/// The search once it has prepared a step, with no root at the current point:
/// that point and the one across enclose a root, and the previous point is
/// either the one across or lies on the far side of the current one.
spec fn poised(m: spec_fn(Double) -> Double, xa: Double, xb: Double, p: Brent) -> bool {
    &&& between(xa, xb, p.xpre) && between(xa, xb, p.xcur) && between(xa, xb, p.xblk)
    &&& p.fpre == m(p.xpre) && p.fcur == m(p.xcur) && p.fblk == m(p.xblk)
    &&& !p.fcur.zero() && !p.fblk.zero() && !p.fpre.zero()
    &&& p.fcur.negative() != p.fblk.negative()
    &&& {
        ||| p.xpre == p.xblk && p.fpre == p.fblk
        ||| between(p.xpre, p.xblk, p.xcur) && p.fpre.negative() == p.fcur.negative()
    }
}

proof fn lemma_prepared(m: spec_fn(Double) -> Double, xa: Double, xb: Double, s: Brent)
    requires
        forall|y: Double| #[trigger] between(xa, xb, y) ==> !m(y).nan(),
        enclosed(m, xa, xb, s),
    ensures
        s.prepared().fcur.zero() ==> between(xa, xb, s.prepared().xcur) && m(
            s.prepared().xcur,
        ).zero(),
        !s.prepared().fcur.zero() ==> poised(m, xa, xb, s.prepared()),
{
}

proof fn lemma_advanced(m: spec_fn(Double) -> Double, xa: Double, xb: Double, p: Brent)
    requires
        bracket_ok(xa, xb),
        forall|y: Double| #[trigger] between(xa, xb, y) ==> !m(y).nan(),
        poised(m, xa, xb, p),
        !p.done(),
    ensures
        between(xa, xb, p.next_point()),
        enclosed(m, xa, xb, p.advanced(m)),
{
    lemma_next_point(m, xa, xb, p);
    let next = p.next_point();
    assert(between(xa, xb, next));
    assert(!m(next).nan());
}

proof fn lemma_search_inside(
    m: spec_fn(Double) -> Double,
    xa: Double,
    xb: Double,
    s: Brent,
    left: nat,
    x: Double,
)
    requires
        bracket_ok(xa, xb),
        forall|y: Double| #[trigger] between(xa, xb, y) ==> !m(y).nan(),
        enclosed(m, xa, xb, s),
        laws::search_visits(m, s, left, x),
    ensures
        between(xa, xb, x),
    decreases left,
{
    lemma_prepared(m, xa, xb, s);
    let p = s.prepared();
    lemma_advanced(m, xa, xb, p);
    if x != p.next_point() {
        lemma_search_inside(m, xa, xb, p.advanced(m), (left - 1) as nat, x);
    }
}

proof fn lemma_search_finds(
    m: spec_fn(Double) -> Double,
    xa: Double,
    xb: Double,
    s: Brent,
    left: nat,
)
    requires
        bracket_ok(xa, xb),
        forall|y: Double| #[trigger] between(xa, xb, y) ==> !m(y).nan(),
        enclosed(m, xa, xb, s),
    ensures
        ({
            let r = brent::brent_search(m, s, left);
            ||| r == Double::from_bits(NAN_BITS)
            ||| between(xa, xb, r) && m(r).zero()
            ||| between(xa, xb, r) && exists|y: Double| #[trigger]
                between(xa, xb, y) && laws::sign_change_nearby(m, r, y)
        }),
    decreases left,
{
    if left > 0 {
        lemma_prepared(m, xa, xb, s);
        let p = s.prepared();
        if p.done() {
            if !p.fcur.zero() {
                laws::lemma_within_tolerance(p);
                assert(between(xa, xb, p.xblk) && laws::sign_change_nearby(m, p.xcur, p.xblk));
            }
        } else {
            lemma_advanced(m, xa, xb, p);
            lemma_search_finds(m, xa, xb, p.advanced(m), (left - 1) as nat);
        }
    }
}

// ---------------------------------------------------------------------------
// One step
// ---------------------------------------------------------------------------

/// Rounding a sum does not carry it past a number it does not reach exactly.
pub proof fn lemma_sum_order(a: Double, b: Double, y: Double)
    requires
        a.finite(),
        b.finite(),
        y.finite(),
    ensures
        !a.sum(b).nan(),
        a.value() + b.value() <= y.value() ==> a.sum(b).key() <= y.key(),
        a.value() + b.value() >= y.value() ==> a.sum(b).key() >= y.key(),
{
    let exact = a.value() + b.value();
    let size = if exact < 0 {
        -exact
    } else {
        exact
    };
    let u = double::units(y.mag());
    arithmetic::lemma_round_range(size, 1);
    arithmetic::lemma_round_zero(1);
    arithmetic::lemma_units_order(y.mag(), y.mag());
    rounding_laws::lemma_round_exact(y.mag(), 1);
    assert(u * 1 == u);
    if size <= u {
        rounding_laws::lemma_round_order(size, u, 1);
    }
    if size >= u {
        rounding_laws::lemma_round_order(u, size, 1);
    }
}

/// The keys of finite numbers are ordered as their values.
pub proof fn lemma_value_order(a: Double, b: Double)
    requires
        a.finite(),
        b.finite(),
    ensures
        a.key() <= b.key() <==> a.value() <= b.value(),
{
    arithmetic::lemma_units_order(a.mag(), b.mag());
    arithmetic::lemma_units_order(b.mag(), a.mag());
}

/// A difference is the exact one rounded; points of a bracket are no further
/// apart than its ends.
pub proof fn lemma_gap(xa: Double, xb: Double, x: Double, y: Double)
    requires
        bracket_ok(xa, xb),
        between(xa, xb, x),
        between(xa, xb, y),
    ensures
        y.difference(x).finite(),
        y.key() > x.key() ==> !y.difference(x).negative(),
        y.key() < x.key() ==> y.difference(x).negative(),
        y.key() == x.key() ==> y.difference(x).zero(),
        ({
            let gap = y.value() - x.value();
            y.difference(x).mag() == rounding::round(
                if gap < 0 {
                    -gap
                } else {
                    gap
                },
                1,
            )
        }),
{
    lemma_value_order(xa, xb);
    lemma_value_order(xb, xa);
    lemma_value_order(xa, x);
    lemma_value_order(x, xa);
    lemma_value_order(xb, x);
    lemma_value_order(x, xb);
    lemma_value_order(xa, y);
    lemma_value_order(y, xa);
    lemma_value_order(xb, y);
    lemma_value_order(y, xb);
    lemma_value_order(x, y);
    lemma_value_order(y, x);
    assert(x.opposite().value() == -x.value());
    assert(xa.opposite().value() == -xa.value());
    let gap = y.value() - x.value();
    let size = if gap < 0 {
        -gap
    } else {
        gap
    };
    let width = xb.value() - xa.value();
    let full = if width < 0 {
        -width
    } else {
        width
    };
    arithmetic::lemma_round_range(size, 1);
    arithmetic::lemma_round_range(full, 1);
    arithmetic::lemma_round_zero(1);
    rounding_laws::lemma_round_order(size, full, 1);
}

/// A step towards `y` that is shorter than the distance, as computed, does not
/// pass it.
proof fn lemma_step_inside(xa: Double, xb: Double, x: Double, y: Double, step: Double)
    requires
        bracket_ok(xa, xb),
        between(xa, xb, x),
        between(xa, xb, y),
        step.mag() < y.difference(x).mag(),
        step.negative() == y.difference(x).negative(),
    ensures
        between(x, y, x.sum(step)),
{
    lemma_gap(xa, xb, x, y);
    lemma_value_order(x, y);
    lemma_value_order(y, x);
    let gap = y.value() - x.value();
    let size = if gap < 0 {
        -gap
    } else {
        gap
    };
    let u = double::units(step.mag());
    arithmetic::lemma_units_order(step.mag(), step.mag());
    rounding_laws::lemma_round_exact(step.mag(), 1);
    assert(u * 1 == u);
    if size <= u {
        rounding_laws::lemma_round_order(size, u, 1);
    }
    lemma_sum_order(x, step, x);
    lemma_sum_order(x, step, y);
}

/// The next point lies between the current one and the one across.
proof fn lemma_next_point(m: spec_fn(Double) -> Double, xa: Double, xb: Double, p: Brent)
    requires
        bracket_ok(xa, xb),
        forall|y: Double| #[trigger] between(xa, xb, y) ==> !m(y).nan(),
        poised(m, xa, xb, p),
        !p.done(),
    ensures
        between(p.xcur, p.xblk, p.next_point()),
{
    lemma_gap(xa, xb, p.xcur, p.xblk);
    let gap = p.xblk.difference(p.xcur);
    lemma_lengths(p, gap);
    let scur = p.steps().1;
    if p.delta().lt(scur.magnitude()) {
        if p.interpolates() {
            lemma_stry_sign(m, xa, xb, p);
            lemma_stry_length(p, gap);
        }
        lemma_step_inside(xa, xb, p.xcur, p.xblk, scur);
    } else if p.sbis().positive() {
        lemma_step_inside(xa, xb, p.xcur, p.xblk, p.delta());
    } else {
        lemma_step_inside(xa, xb, p.xcur, p.xblk, p.delta().opposite());
    }
}

/// While the search goes on, the bracket is wide: its half is exact, and longer
/// than the least step.
proof fn lemma_lengths(p: Brent, gap: Double)
    requires
        p.xcur.finite(),
        gap == p.xblk.difference(p.xcur),
        gap.finite(),
        !p.done(),
    ensures
        gap.mag() >= 2 * HIDDEN_BIT,
        p.sbis().mag() == gap.mag() - HIDDEN_BIT,
        p.sbis().negative() == gap.negative(),
        0 < p.delta().mag() <= p.sbis().mag(),
        !p.delta().negative(),
        double::units(gap.mag()) == 2 * double::units(p.sbis().mag()),
{
    let two = Double::from_bits(TWO);
    let t = laws::tolerance(p.xcur);
    assert(p.delta() == t.quotient(two));
    assert(p.sbis() == gap.quotient(two));
    lemma_tolerance_above(p.xcur);
    lemma_units_of_two();
    lemma_pow2_pos(1074);
    let w = pow2(1074) as int;
    let u = double::units(gap.mag());
    arithmetic::lemma_units_order(gap.mag(), gap.mag());
    assert(0 <= u * w <= u * (2 * w)) by (nonlinear_arith)
        requires
            u >= 0,
            w > 0,
    ;
    arithmetic::lemma_round_range(u * w, 2 * w);
    rounding_laws::lemma_round_exact(gap.mag(), 2 * w);
    rounding_laws::lemma_round_order(u * w, u * (2 * w), 2 * w);
    assert(p.sbis().mag() <= gap.mag());
    if t.finite() {
        lemma_halved(t);
    }
    assert(p.delta().mag() >= 2 * HIDDEN_BIT);
    lemma_quotient_sign(t, two);
    assert(p.sbis().finite());
    lemma_quotient_sign(gap, two);
    assert(p.sbis().magnitude().mag() == p.sbis().mag());
    lemma_halved(gap);
}

/// The tolerance is at least its absolute part.
proof fn lemma_tolerance_above(x: Double)
    requires
        x.finite(),
    ensures
        laws::tolerance(x).mag() >= brent::XTOL,
        !laws::tolerance(x).negative(),
        !laws::tolerance(x).nan(),
{
    let a = Double::from_bits(brent::XTOL);
    let b = Double::from_bits(brent::RTOL).product(x.magnitude());
    sign_laws::lemma_product_sign(Double::from_bits(brent::RTOL), x.magnitude());
    if b.finite() {
        arithmetic::lemma_units_order(b.mag(), b.mag());
        lemma_sum_order(a, b, a);
    }
}

/// A quotient that is a number has the sign it should, and so do its parts.
proof fn lemma_quotient_sign(a: Double, b: Double)
    requires
        !a.quotient(b).nan(),
    ensures
        !a.nan(),
        !b.nan(),
        a.quotient(b).negative() == (a.negative() != b.negative()),
        !(a.infinite() && b.infinite()),
        a.infinite() ==> a.quotient(b).infinite(),
{
    if a.finite() && b.finite() && !b.zero() {
        let n = double::units(a.mag()) * pow2(1074);
        arithmetic::lemma_units_order(a.mag(), a.mag());
        arithmetic::lemma_units_order(b.mag(), b.mag());
        lemma_pow2_pos(1074);
        assert(n >= 0) by (nonlinear_arith)
            requires
                n == double::units(a.mag()) * pow2(1074),
                double::units(a.mag()) >= 0,
        ;
        arithmetic::lemma_round_range(n, double::units(b.mag()));
    }
}

/// A product that is a number has the sign it should, and so do its parts.
proof fn lemma_product_sign(a: Double, b: Double)
    requires
        !a.product(b).nan(),
    ensures
        !a.nan(),
        !b.nan(),
        a.product(b).negative() == (a.negative() != b.negative()),
        a.infinite() || b.infinite() ==> a.product(b).infinite(),
{
    if a.finite() && b.finite() {
        sign_laws::lemma_product_sign(a, b);
    }
}

/// A difference of numbers of opposite signs, not both zero, has the sign of
/// the first.
proof fn lemma_difference_sign(a: Double, b: Double)
    requires
        !a.nan(),
        !b.nan(),
        a.negative() != b.negative(),
    ensures
        !a.difference(b).nan(),
        a.difference(b).negative() == a.negative(),
{
    arithmetic::lemma_units_order(a.mag(), a.mag());
    arithmetic::lemma_units_order(b.mag(), b.mag());
    if a.finite() && b.finite() {
        let exact = a.value() - b.value();
        assert(b.opposite().value() == -b.value());
        arithmetic::lemma_round_range(if exact < 0 { -exact } else { exact }, 1);
    }
}

/// A difference of numbers of one sign, the first the larger, has that sign.
proof fn lemma_excess_sign(a: Double, b: Double)
    requires
        !a.nan(),
        a.negative() == b.negative(),
        b.mag() < a.mag(),
    ensures
        !a.difference(b).nan(),
        a.difference(b).negative() == a.negative(),
        !a.difference(b).zero(),
{
    arithmetic::lemma_units_order(b.mag(), a.mag());
    if a.finite() {
        let exact = a.value() - b.value();
        assert(b.opposite().value() == -b.value());
        let size = if exact < 0 {
            -exact
        } else {
            exact
        };
        arithmetic::lemma_round_range(size, 1);
        rounding_laws::lemma_round_positive(size, 1);
    }
}

/// A step that interpolation suggests goes towards the point across.
proof fn lemma_stry_sign(m: spec_fn(Double) -> Double, xa: Double, xb: Double, p: Brent)
    requires
        bracket_ok(xa, xb),
        forall|y: Double| #[trigger] between(xa, xb, y) ==> !m(y).nan(),
        poised(m, xa, xb, p),
        !p.done(),
        p.fcur.magnitude().lt(p.fpre.magnitude()),
        !p.stry().nan(),
    ensures
        p.stry().negative() == p.xblk.difference(p.xcur).negative(),
{
    lemma_gap(xa, xb, p.xcur, p.xblk);
    let gap = p.xblk.difference(p.xcur);
    lemma_lengths(p, gap);
    if p.xpre.same(p.xblk) {
        let back = p.xcur.difference(p.xpre);
        lemma_gap(xa, xb, p.xpre, p.xcur);
        let top = p.fcur.opposite().product(back);
        let low = p.fcur.difference(p.fpre);
        lemma_quotient_sign(top, low);
        lemma_product_sign(p.fcur.opposite(), back);
        lemma_difference_sign(p.fcur, p.fpre);
    } else {
        let before = p.xpre.difference(p.xcur);
        lemma_gap(xa, xb, p.xcur, p.xpre);
        let dpre = p.fpre.difference(p.fcur).quotient(before);
        let dblk = p.fblk.difference(p.fcur).quotient(gap);
        let slope = p.fblk.product(dblk).difference(p.fpre.product(dpre));
        let top = p.fcur.opposite().product(slope);
        let low = dblk.product(dpre).product(p.fblk.difference(p.fpre));
        lemma_quotient_sign(top, low);
        lemma_product_sign(p.fcur.opposite(), slope);
        lemma_product_sign(dblk.product(dpre), p.fblk.difference(p.fpre));
        lemma_product_sign(dblk, dpre);
        lemma_difference_sign(p.fblk, p.fpre);
        lemma_excess_sign(p.fpre, p.fcur);
        lemma_difference_sign(p.fblk, p.fcur);
        lemma_quotient_sign(p.fpre.difference(p.fcur), before);
        lemma_quotient_sign(p.fblk.difference(p.fcur), gap);
        assert(!p.fblk.product(dblk).nan() && !p.fpre.product(dpre).nan());
        lemma_product_sign(p.fblk, dblk);
        lemma_product_sign(p.fpre, dpre);
        if before.zero() {
            assert(dpre.infinite());
            assert(low.infinite());
            assert(slope.infinite());
            assert(false);
        }
        lemma_difference_sign(p.fblk.product(dblk), p.fpre.product(dpre));
    }
}

/// A step that interpolation takes is shorter than the bracket.
proof fn lemma_stry_length(p: Brent, gap: Double)
    requires
        p.interpolates(),
        gap.finite(),
        p.sbis().finite(),
        p.delta().mag() <= p.sbis().mag(),
        !p.delta().negative(),
        double::units(gap.mag()) == 2 * double::units(p.sbis().mag()),
    ensures
        p.stry().mag() < gap.mag(),
{
    let two = Double::from_bits(TWO);
    let three = Double::from_bits(brent::THREE);
    let half = p.sbis().magnitude();
    let stry = p.stry().magnitude();
    let reach = three.product(half);
    let bound = reach.difference(p.delta());
    sign_laws::lemma_product_sign(three, half);
    let d = p.delta();
    if reach.finite() {
        assert(d.opposite().value() == -d.value());
        arithmetic::lemma_units_order(d.mag(), d.mag());
        lemma_sum_order(reach, d.opposite(), reach);
    }
    assert(bound.key() <= reach.key() && !bound.nan());
    assert(two.product(stry).key() < reach.key());
    if gap.mag() <= p.stry().mag() {
        lemma_units_of_two();
        lemma_units_of_three();
        lemma_pow2_pos(1074);
        assert(stry.finite());
        sign_laws::lemma_product_sign(two, stry);
        arithmetic::lemma_units_order(gap.mag(), stry.mag());
        arithmetic::lemma_units_order(half.mag(), half.mag());
        let w = pow2(1074) as int;
        let (u, v) = (double::units(half.mag()), double::units(stry.mag()));
        assert(0 <= (3 * w) * u <= (2 * w) * v) by (nonlinear_arith)
            requires
                2 * u <= v,
                0 <= u,
                w > 0,
        ;
        rounding_laws::lemma_round_order((3 * w) * u, (2 * w) * v, w);
    }
}

/// `3.0` is three times `2^1074` units.
proof fn lemma_units_of_three()
    ensures
        double::units(Double::from_bits(brent::THREE).mag()) == 3 * pow2(1074),
{
    lemma2_to64();
    lemma2_to64_rest();
    assert(double::exponent(brent::THREE as int) == 1023);
    assert(double::significand(brent::THREE as int) == 3 * pow2(51));
    lemma_pow2_adds(51, 1023);
    assert((3 * pow2(51)) * pow2(1023) == 3 * (pow2(51) * pow2(1023))) by (nonlinear_arith);
}

/// Halving a number well above the smallest ones is exact.
pub proof fn lemma_halved(x: Double)
    requires
        x.finite(),
        x.mag() >= 2 * HIDDEN_BIT,
    ensures
        x.quotient(Double::from_bits(TWO)).mag() == x.mag() - HIDDEN_BIT,
        x.quotient(Double::from_bits(TWO)).finite(),
        double::units(x.mag()) == 2 * double::units(x.mag() - HIDDEN_BIT),
{
    let p = pow2(1074) as int;
    let half = double::units(x.mag() - HIDDEN_BIT);
    let e = double::exponent(x.mag());
    lemma2_to64();
    lemma_pow2_pos(1074);
    assert(double::exponent(x.mag() - HIDDEN_BIT) == e - 1);
    assert(double::significand(x.mag() - HIDDEN_BIT) == double::significand(x.mag()));
    lemma_pow2_unfold(e as nat);
    let sig = double::significand(x.mag());
    assert(sig * (2 * pow2((e - 1) as nat)) == 2 * (sig * pow2((e - 1) as nat)))
        by (nonlinear_arith);
    lemma_units_of_two();
    assert((2 * half) * p == half * (2 * p)) by (nonlinear_arith);
    rounding_laws::lemma_round_exact(x.mag() - HIDDEN_BIT, 2 * p);
}

/// `2.0` is twice `2^1074` units.
proof fn lemma_units_of_two()
    ensures
        double::units(Double::from_bits(TWO).mag()) == 2 * pow2(1074),
{
    lemma2_to64();
    lemma2_to64_rest();
    assert(double::exponent(TWO as int) == 1023);
    assert(double::significand(TWO as int) == HIDDEN_BIT);
    lemma_pow2_adds(52, 1023);
    lemma_pow2_unfold(1075);
}

} // verus!
