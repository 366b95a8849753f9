//! What the objective's value and the size of its terms satisfy as computed:
//! neither overflows, neither is lost to underflow, and the value is at most
//! the size.

use crate::arithmetic;
use crate::double;
use crate::double::{Double, MINUS_ONE, ONE};
use crate::flow;
use crate::flow::Flow;
use crate::host::Call;
use crate::log_rate;
use crate::netted;
use crate::netted::Term;
use crate::rounding_laws;
use crate::sign_laws;
use vstd::arithmetic::power2::*;
use vstd::prelude::*;

verus! {

/// The elementary functions have the signs they have on paper, and powers of
/// `e` with exponents up to zero are at most one.
pub open spec fn discounting(m: spec_fn(Call) -> Double) -> bool {
    &&& sign_laws::elementary(m)
    &&& forall|x: Double|
        !x.positive() && !x.nan() ==> (#[trigger] m(Call::Exp(x))).le(Double::from_bits(ONE))
}

/// The sizes of the first `n` amounts, summed.
pub open spec fn total_size(terms: Seq<Term>, n: int) -> Double
    decreases n,
{
    if n <= 0 {
        Double::from_bits(0)
    } else {
        total_size(terms, n - 1).sum(terms[n - 1].amount.magnitude())
    }
}

/// The index of the term that keeps its full size at log-rate `u`.
pub open spec fn reference_index(terms: Seq<Term>, u: Double) -> int {
    if Double::from_bits(0).le(u) {
        0
    } else {
        terms.len() - 1
    }
}

// ---------------------------------------------------------------------------
// Value and size
// ---------------------------------------------------------------------------

/// The value is at most the gross size, so that the part of it that survives
/// cancellation lies between none and all. The value is NaN only where the
/// gross size has overflowed.
pub proof fn law_value_is_at_most_the_gross_size(
    m: spec_fn(Call) -> Double,
    terms: Seq<Term>,
    u: Double,
    n: int,
)
    requires
        sign_laws::elementary(m),
        netted::well_netted(terms),
        sign_laws::spans_finitely(terms),
        sign_laws::amounts_ok(terms),
        u.finite(),
        0 <= n <= terms.len(),
    ensures
        ({
            let value = netted::g_value(m, terms, u, n);
            let gross = netted::g_gross(m, terms, u, n);
            &&& !gross.nan()
            &&& !value.nan() ==> value.magnitude().le(gross)
            &&& gross.finite() ==> value.finite() && value.magnitude().le(gross)
        }),
    decreases n,
{
    sign_laws::lemma_gross_above(m, terms, u, 0, n);
    if n > 0 {
        law_value_is_at_most_the_gross_size(m, terms, u, n - 1);
        sign_laws::lemma_gross_above(m, terms, u, 0, n - 1);
        sign_laws::lemma_term(m, terms, u, n - 1);
        let w = netted::weight(m, terms, u, n - 1);
        let a = terms[n - 1].amount;
        let value = netted::g_value(m, terms, u, n - 1);
        let gross = netted::g_gross(m, terms, u, n - 1);
        if !value.nan() {
            lemma_sum_within(value, a.product(w), gross, a.magnitude().product(w));
        }
    }
}

/// A sum is within the sum of the bounds of its parts.
proof fn lemma_sum_within(x: Double, y: Double, g: Double, h: Double)
    requires
        !x.nan() && !y.nan() && !g.nan() && !h.nan(),
        -g.key() <= x.key() <= g.key(),
        -h.key() <= y.key() <= h.key(),
    ensures
        !g.sum(h).nan(),
        !x.sum(y).nan() ==> -g.sum(h).key() <= x.sum(y).key() <= g.sum(h).key(),
        g.sum(h).finite() ==> !x.sum(y).nan(),
{
    if g.finite() && h.finite() {
        arithmetic::lemma_units_order(x.mag(), g.mag());
        arithmetic::lemma_units_order(y.mag(), h.mag());
        arithmetic::lemma_units_order(g.mag(), h.mag());
        arithmetic::lemma_units_order(h.mag(), g.mag());
        arithmetic::lemma_units_order(0, 0);
        let exact = x.value() + y.value();
        let bound = double::units(g.mag()) + double::units(h.mag());
        let size = if exact < 0 { -exact } else { exact };
        rounding_laws::lemma_round_order(size, bound, 1);
        arithmetic::lemma_round_range(size, 1);
        arithmetic::lemma_round_range(bound, 1);
        arithmetic::lemma_round_zero(1);
    }
}

/// The gross size is zero exactly for a flow without terms: it never vanishes
/// by underflow.
pub proof fn law_gross_size_vanishes_only_without_terms(
    m: spec_fn(Call) -> Double,
    terms: Seq<Term>,
    u: Double,
)
    requires
        sign_laws::elementary(m),
        netted::well_netted(terms),
        sign_laws::spans_finitely(terms),
        sign_laws::amounts_ok(terms),
        u.finite(),
    ensures
        netted::g_gross(m, terms, u, terms.len() as int).zero() <==> terms.len() == 0,
        terms.len() > 0 ==> netted::g_gross(m, terms, u, terms.len() as int).positive(),
        terms.len() > 0 ==> terms[reference_index(terms, u)].amount.magnitude().le(
            netted::g_gross(m, terms, u, terms.len() as int),
        ),
{
    if terms.len() > 0 {
        let r = reference_index(terms, u);
        sign_laws::law_scaled_exponents_are_not_positive(terms, u, r);
        assert(netted::weight(m, terms, u, r) == Double::from_bits(ONE));
        sign_laws::lemma_times_one(terms[r].amount.magnitude());
        sign_laws::lemma_gross_above(m, terms, u, r, terms.len() as int);
    }
}

/// Discounting only shrinks: the gross size is at most the sum of the sizes of
/// the amounts, at every log-rate, and does not overflow where that sum does
/// not.
pub proof fn law_discounting_only_shrinks(
    m: spec_fn(Call) -> Double,
    terms: Seq<Term>,
    u: Double,
    n: int,
)
    requires
        discounting(m),
        netted::well_netted(terms),
        sign_laws::spans_finitely(terms),
        sign_laws::amounts_ok(terms),
        u.finite(),
        0 <= n <= terms.len(),
    ensures
        netted::g_gross(m, terms, u, n).le(total_size(terms, n)),
    decreases n,
{
    sign_laws::lemma_gross_above(m, terms, u, 0, n);
    if n > 0 {
        law_discounting_only_shrinks(m, terms, u, n - 1);
        sign_laws::lemma_gross_above(m, terms, u, 0, n - 1);
        sign_laws::lemma_term(m, terms, u, n - 1);
        sign_laws::law_scaled_exponents_are_not_positive(terms, u, n - 1);
        let w = netted::weight(m, terms, u, n - 1);
        let a = terms[n - 1].amount.magnitude();
        assert(w.le(Double::from_bits(ONE)) && !w.negative());
        lemma_shrunk(a, w);
        lemma_sum_within(
            netted::g_gross(m, terms, u, n - 1),
            a.product(w),
            total_size(terms, n - 1),
            a,
        );
    }
}

/// A number times a factor of at most one is no larger.
proof fn lemma_shrunk(a: Double, w: Double)
    requires
        a.finite(),
        !a.negative(),
        !w.negative(),
        w.le(Double::from_bits(ONE)),
    ensures
        a.product(w).key() <= a.key(),
{
    let one = Double::from_bits(ONE);
    let p = pow2(1074) as int;
    lemma_pow2_pos(1074);
    sign_laws::lemma_times_one(a);
    sign_laws::lemma_product_sign(a, w);
    sign_laws::lemma_product_sign(a, one);
    arithmetic::lemma_units_order(w.mag(), one.mag());
    arithmetic::lemma_units_order(a.mag(), a.mag());
    let (x, y, z) = (double::units(a.mag()), double::units(w.mag()), double::units(one.mag()));
    assert(0 <= x * y <= x * z) by (nonlinear_arith)
        requires
            0 <= x,
            0 <= y <= z,
    ;
    rounding_laws::lemma_round_order(x * y, x * z, p);
}

/// Amounts whose sizes have a finite sum are finite themselves.
proof fn lemma_total_size(terms: Seq<Term>, i: int, n: int)
    requires
        0 <= n,
        total_size(terms, n).finite(),
    ensures
        total_size(terms, n).key() >= 0,
        0 <= i < n ==> terms[i].amount.finite(),
    decreases n,
{
    if n > 0 {
        let rest = total_size(terms, n - 1);
        let a = terms[n - 1].amount.magnitude();
        assert(rest.finite() && a.finite());
        lemma_total_size(terms, i, n - 1);
        sign_laws::lemma_sum_above(rest, a);
    }
}

proof fn lemma_amounts_ok(terms: Seq<Term>)
    requires
        netted::well_netted(terms),
        total_size(terms, terms.len() as int).finite(),
    ensures
        sign_laws::amounts_ok(terms),
{
    assert forall|i: int| 0 <= i < terms.len() implies (#[trigger] terms[i]).amount.finite()
        && !terms[i].amount.zero() by {
        lemma_total_size(terms, i, terms.len() as int);
    }
}

/// Where the sizes of the amounts have a finite sum, value and gross size are
/// finite at every log-rate, the value is at most the gross size, and the gross
/// size is zero exactly without terms: their ratio lies between zero and one.
pub proof fn law_cancellation_ratio_is_at_most_one(
    m: spec_fn(Call) -> Double,
    terms: Seq<Term>,
    u: Double,
)
    requires
        discounting(m),
        netted::well_netted(terms),
        sign_laws::spans_finitely(terms),
        total_size(terms, terms.len() as int).finite(),
        u.finite(),
    ensures
        ({
            let value = netted::g_value(m, terms, u, terms.len() as int);
            let gross = netted::g_gross(m, terms, u, terms.len() as int);
            &&& value.finite() && gross.finite()
            &&& value.magnitude().le(gross)
            &&& gross.zero() <==> terms.len() == 0
            &&& terms.len() > 0 ==> gross.positive()
        }),
{
    let n = terms.len() as int;
    lemma_amounts_ok(terms);
    lemma_total_size(terms, 0, n);
    law_discounting_only_shrinks(m, terms, u, n);
    sign_laws::lemma_gross_above(m, terms, u, 0, n);
    law_value_is_at_most_the_gross_size(m, terms, u, n);
    law_gross_size_vanishes_only_without_terms(m, terms, u);
}

/// Terms of one sign keep it: where the sizes of the amounts have a finite sum,
/// the value is finite at every log-rate, has the sign of the amounts, and is at
/// least as large as the amount of the reference term. It neither overflows nor
/// vanishes.
pub proof fn law_terms_of_one_sign_are_not_lost(
    m: spec_fn(Call) -> Double,
    terms: Seq<Term>,
    u: Double,
)
    requires
        discounting(m),
        netted::well_netted(terms),
        sign_laws::spans_finitely(terms),
        terms.len() > 0,
        total_size(terms, terms.len() as int).finite(),
        netted::changes(terms, terms.len() as int) == 0,
        u.finite(),
    ensures
        ({
            let value = netted::g_value(m, terms, u, terms.len() as int);
            &&& value.finite() && !value.zero()
            &&& value.positive() == terms[0].amount.positive()
            &&& terms[reference_index(terms, u)].amount.magnitude().le(value.magnitude())
        }),
{
    lemma_amounts_ok(terms);
    law_cancellation_ratio_is_at_most_one(m, terms, u);
    law_gross_size_vanishes_only_without_terms(m, terms, u);
    sign_laws::lemma_mirrored(m, terms, u, terms.len() as int);
}

// ---------------------------------------------------------------------------
// The root test
// ---------------------------------------------------------------------------

/// The root test is a test of the cancellation ratio. A rate of the domain is a
/// root of a flow that has terms exactly if the value is at most the tolerance
/// times the gross size as computed. It is one wherever the exact ratio is
/// within the tolerance; and where it is one, the ratio is within the tolerance
/// up to the last digit of the value.
pub proof fn law_root_test_is_a_ratio_test(flow: Flow, m: spec_fn(Call) -> Double, rate: Double)
    requires
        discounting(m),
        !flow.poisoned(),
        netted::well_netted(flow.terms()),
        sign_laws::spans_finitely(flow.terms()),
        total_size(flow.terms(), flow.terms().len() as int).finite(),
    ensures
        ({
            let u = log_rate::log_rate(m, rate);
            let tol = Double::from_bits(flow::RESIDUAL_REL_TOL);
            let value = flow.g(m, u).0.magnitude();
            let gross = flow.gross(m, u);
            let eligible = rate.finite() && !rate.le(Double::from_bits(MINUS_ONE))
                && flow.terms().len() > 0;
            let allowed = double::units(tol.mag()) * double::units(gross.mag());
            &&& flow.is_root(m, rate) <==> eligible && value.le(tol.product(gross))
            &&& eligible && double::units(value.mag()) * pow2(1074) <= allowed ==> flow.is_root(
                m,
                rate,
            )
            &&& flow.is_root(m, rate) && !value.zero() ==> double::units(value.mag() - 1) * pow2(
                1074,
            ) < allowed
        }),
{
    if rate.finite() && !rate.le(Double::from_bits(MINUS_ONE)) {
        let u = log_rate::log_rate(m, rate);
        let tol = Double::from_bits(flow::RESIDUAL_REL_TOL);
        let value = flow.g(m, u).0.magnitude();
        let gross = flow.gross(m, u);
        let p = pow2(1074) as int;
        lemma_pow2_pos(1074);
        assert(u.finite());
        law_cancellation_ratio_is_at_most_one(m, flow.terms(), u);
        sign_laws::lemma_product_sign(tol, gross);
        let allowed = double::units(tol.mag()) * double::units(gross.mag());
        arithmetic::lemma_units_order(tol.mag(), tol.mag());
        arithmetic::lemma_units_order(gross.mag(), gross.mag());
        arithmetic::lemma_units_order(value.mag(), value.mag());
        assert(allowed >= 0) by (nonlinear_arith)
            requires
                allowed == double::units(tol.mag()) * double::units(gross.mag()),
                double::units(tol.mag()) >= 0,
                double::units(gross.mag()) >= 0,
        ;
        arithmetic::lemma_round_range(allowed, p);
        let v = double::units(value.mag());
        if v * p <= allowed {
            assert(v * p >= 0) by (nonlinear_arith)
                requires
                    v >= 0,
                    p > 0,
            ;
            rounding_laws::lemma_round_exact(value.mag(), p);
            rounding_laws::lemma_round_order(v * p, allowed, p);
        }
        if !value.zero() {
            let below = double::units(value.mag() - 1);
            if below * p >= allowed {
                rounding_laws::lemma_round_exact(value.mag() - 1, p);
                rounding_laws::lemma_round_order(allowed, below * p, p);
            }
        }
    }
}

} // verus!
