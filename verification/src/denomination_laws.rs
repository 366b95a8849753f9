//! Denomination in the robust search: multiplying every amount by a power of
//! two moves neither the root test nor the roots nor the rate of any policy, as
//! long as nothing underflows or overflows.

use crate::arithmetic;
use crate::double;
use crate::double::{Double, MINUS_ONE};
use crate::flow;
use crate::flow::{Flow, RootPolicy};
use crate::host::Call;
use crate::log_rate;
use crate::netted;
use crate::netted::Term;
use crate::optimize::brent::Brent;
use crate::optimize::laws;
use crate::optimize::newton;
use crate::optimize::ratio_laws;
use crate::scaling_laws;
use crate::sorting;
use vstd::arithmetic::mul::*;
use vstd::arithmetic::power2::*;
use vstd::prelude::*;

verus! {

// ---------------------------------------------------------------------------
// Netting
// ---------------------------------------------------------------------------

/// The terms differ in the amounts alone, and there by a factor of `2^k`.
pub open spec fn terms_scale(s: Seq<Term>, t: Seq<Term>, k: nat) -> bool {
    &&& s.len() == t.len()
    &&& forall|i: int|
        #![trigger s[i]]
        #![trigger t[i]]
        0 <= i < s.len() ==> s[i].delta == t[i].delta && scaling_laws::scales(
            s[i].amount,
            t[i].amount,
            k,
        )
}

/// No amount overflows where those due at one time are summed.
pub open spec fn nets_finitely(flow: Flow) -> bool {
    let s = netted::merged(
        sorting::sorted(
            netted::finite_terms(
                flow.deltas,
                flow.amounts,
                netted::paired(flow.deltas, flow.amounts),
            ),
        ),
    );
    forall|i: int| 0 <= i < s.len() ==> (#[trigger] s[i]).amount.finite()
}

/// The flows differ in the amounts alone, there by a factor of `2^k`, and no
/// netted amount of the larger one overflows.
pub open spec fn netted_alike(a: Flow, b: Flow, k: nat) -> bool {
    scaling_laws::redenominated(a, b, k) && nets_finitely(b)
}

/// Netting commutes with a change of denomination, which therefore moves neither
/// the sign changes nor what they prove.
pub proof fn law_denomination_does_not_move_the_sign_changes(a: Flow, b: Flow, k: nat)
    requires
        netted_alike(a, b, k),
    ensures
        terms_scale(a.terms(), b.terms(), k),
        a.change_count() == b.change_count(),
        a.poisoned() == b.poisoned(),
        a.shape() == b.shape(),
{
    let n = netted::paired(a.deltas, a.amounts);
    let s = netted::finite_terms(a.deltas, a.amounts, n);
    let t = netted::finite_terms(b.deltas, b.amounts, n);
    lemma_same_finite(a, b, k, n);
    lemma_same_sorted(s, t, k);
    lemma_same_merged(sorting::sorted(s), sorting::sorted(t), k);
    lemma_same_nonzero(
        netted::merged(sorting::sorted(s)),
        netted::merged(sorting::sorted(t)),
        k,
    );
    lemma_same_changes(a.terms(), b.terms(), k, a.terms().len() as int);
    if netted::all_finite(a.deltas) {
        assert forall|i: int| 0 <= i < a.amounts.len() implies a.amounts[i].finite()
            && #[trigger] b.amounts[i].finite() by {
            assert(scaling_laws::scales(a.amounts[i], b.amounts[i], k));
        }
        assert(netted::all_finite(a.amounts));
    }
}

proof fn lemma_same_finite(a: Flow, b: Flow, k: nat, n: int)
    requires
        scaling_laws::redenominated(a, b, k),
        n <= a.amounts.len(),
    ensures
        terms_scale(
            netted::finite_terms(a.deltas, a.amounts, n),
            netted::finite_terms(b.deltas, b.amounts, n),
            k,
        ),
    decreases n,
{
    if n > 0 {
        lemma_same_finite(a, b, k, n - 1);
        assert(scaling_laws::scales(a.amounts[n - 1], b.amounts[n - 1], k));
    }
}

proof fn lemma_same_inserted(s: Seq<Term>, t: Seq<Term>, x: Term, y: Term, k: nat)
    requires
        terms_scale(s, t, k),
        x.delta == y.delta,
        scaling_laws::scales(x.amount, y.amount, k),
    ensures
        terms_scale(sorting::inserted(s, x), sorting::inserted(t, y), k),
    decreases s.len(),
{
    if s.len() > 0 {
        assert(s.last().delta == t.last().delta);
        if s.last().delta.rank() > x.delta.rank() {
            lemma_same_inserted(s.drop_last(), t.drop_last(), x, y, k);
        }
    }
}

proof fn lemma_same_sorted(s: Seq<Term>, t: Seq<Term>, k: nat)
    requires
        terms_scale(s, t, k),
    ensures
        terms_scale(sorting::sorted(s), sorting::sorted(t), k),
    decreases s.len(),
{
    if s.len() > 0 {
        lemma_same_sorted(s.drop_last(), t.drop_last(), k);
        assert(s.last().delta == t.last().delta);
        lemma_same_inserted(
            sorting::sorted(s.drop_last()),
            sorting::sorted(t.drop_last()),
            s.last(),
            t.last(),
            k,
        );
    }
}

proof fn lemma_same_merged(s: Seq<Term>, t: Seq<Term>, k: nat)
    requires
        terms_scale(s, t, k),
        forall|i: int|
            0 <= i < netted::merged(t).len() ==> (#[trigger] netted::merged(t)[i]).amount.finite(),
    ensures
        terms_scale(netted::merged(s), netted::merged(t), k),
    decreases s.len(),
{
    if s.len() > 0 {
        let rest = netted::merged(t.drop_last());
        let all = netted::merged(t);
        let y = t.last();
        assert(s.last().delta == y.delta && scaling_laws::scales(s.last().amount, y.amount, k));
        assert forall|i: int| 0 <= i < rest.len() implies (#[trigger] rest[i]).amount.finite() by {
            assert(all[i].amount.finite());
            if i == rest.len() - 1 && rest.last().delta.same(y.delta) {
                assert(all[i].amount == rest[i].amount.sum(y.amount));
            } else {
                assert(all[i] == rest[i]);
            }
        }
        lemma_same_merged(s.drop_last(), t.drop_last(), k);
        let base = netted::merged(s.drop_last());
        if rest.len() > 0 {
            assert(base.last().delta == rest.last().delta);
            if rest.last().delta.same(y.delta) {
                assert(all[rest.len() - 1].amount.finite());
                scaling_laws::lemma_sum_scales(
                    base.last().amount,
                    s.last().amount,
                    rest.last().amount,
                    y.amount,
                    k,
                );
            }
        }
    }
}

proof fn lemma_same_nonzero(s: Seq<Term>, t: Seq<Term>, k: nat)
    requires
        terms_scale(s, t, k),
    ensures
        terms_scale(netted::nonzero(s), netted::nonzero(t), k),
    decreases s.len(),
{
    if s.len() > 0 {
        lemma_same_nonzero(s.drop_last(), t.drop_last(), k);
        assert(s.last().delta == t.last().delta);
        ratio_laws::lemma_scaled_sign(s.last().amount, t.last().amount, k);
    }
}

proof fn lemma_same_changes(s: Seq<Term>, t: Seq<Term>, k: nat, n: int)
    requires
        terms_scale(s, t, k),
        n <= s.len(),
    ensures
        netted::changes(s, n) == netted::changes(t, n),
    decreases n,
{
    if n > 1 {
        lemma_same_changes(s, t, k, n - 1);
        assert(s[n - 2].delta == t[n - 2].delta && s[n - 1].delta == t[n - 1].delta);
        ratio_laws::lemma_scaled_sign(s[n - 2].amount, t[n - 2].amount, k);
        ratio_laws::lemma_scaled_sign(s[n - 1].amount, t[n - 1].amount, k);
    }
}

// ---------------------------------------------------------------------------
// The objective
// ---------------------------------------------------------------------------

/// Term `i` is discounted at log-rate `u` without loss: its weight is finite, no
/// digits of it or of its derivative are lost, and the larger ones, of `t`, do
/// not overflow.
pub open spec fn term_kept(
    s: Seq<Term>,
    t: Seq<Term>,
    m: spec_fn(Call) -> Double,
    u: Double,
    i: int,
) -> bool {
    let w = netted::weight(m, s, u, i);
    let (x, y) = (s[i].amount.product(w), t[i].amount.product(w));
    &&& w.finite() && s[i].delta.finite()
    &&& scaling_laws::product_kept(s[i].amount, w) && y.finite()
    &&& scaling_laws::product_kept(x, s[i].delta) && s[i].delta.product(y).finite()
}

/// The sums over the first `i` terms do not overflow at log-rate `u`.
pub open spec fn sums_finite(
    t: Seq<Term>,
    m: spec_fn(Call) -> Double,
    u: Double,
    i: int,
) -> bool {
    &&& netted::g_value(m, t, u, i).finite()
    &&& netted::g_deriv(m, t, u, i).finite()
    &&& netted::g_gross(m, t, u, i).finite()
}

/// Nothing is lost at log-rate `u`: every term is discounted without loss, and no
/// partial sum of `b` overflows.
pub open spec fn kept_at_log_rate(
    a: Flow,
    b: Flow,
    m: spec_fn(Call) -> Double,
    u: Double,
) -> bool {
    &&& forall|i: int|
        0 <= i < a.terms().len() ==> #[trigger] term_kept(a.terms(), b.terms(), m, u, i)
    &&& forall|i: int| 0 <= i <= b.terms().len() ==> #[trigger] sums_finite(b.terms(), m, u, i)
}

/// Where nothing is lost, a change of denomination multiplies the objective, its
/// derivative and its size.
pub proof fn law_denomination_scales_the_objective(
    a: Flow,
    b: Flow,
    m: spec_fn(Call) -> Double,
    u: Double,
    k: nat,
)
    requires
        netted_alike(a, b, k),
        kept_at_log_rate(a, b, m, u),
    ensures
        scaling_laws::scales(a.g(m, u).0, b.g(m, u).0, k),
        scaling_laws::scales(a.g(m, u).1, b.g(m, u).1, k),
        scaling_laws::scales(a.gross(m, u), b.gross(m, u), k),
{
    law_denomination_does_not_move_the_sign_changes(a, b, k);
    lemma_objective(a.terms(), b.terms(), m, u, k, a.terms().len() as int);
}

proof fn lemma_objective(
    s: Seq<Term>,
    t: Seq<Term>,
    m: spec_fn(Call) -> Double,
    u: Double,
    k: nat,
    n: int,
)
    requires
        terms_scale(s, t, k),
        0 <= n <= s.len(),
        forall|i: int| 0 <= i < s.len() ==> #[trigger] term_kept(s, t, m, u, i),
        forall|i: int| 0 <= i <= t.len() ==> #[trigger] sums_finite(t, m, u, i),
    ensures
        scaling_laws::scales(netted::g_value(m, s, u, n), netted::g_value(m, t, u, n), k),
        scaling_laws::scales(netted::g_deriv(m, s, u, n), netted::g_deriv(m, t, u, n), k),
        scaling_laws::scales(netted::g_gross(m, s, u, n), netted::g_gross(m, t, u, n), k),
    decreases n,
{
    if n == 0 {
        lemma_pow2_pos(k);
        arithmetic::lemma_units_order(0, 0);
        lemma_mul_basics(pow2(k) as int);
    } else {
        let i = n - 1;
        lemma_objective(s, t, m, u, k, i);
        assert(term_kept(s, t, m, u, i));
        assert(s[0].delta == t[0].delta && s[s.len() - 1].delta == t[t.len() - 1].delta);
        assert(s[i].delta == t[i].delta && scaling_laws::scales(s[i].amount, t[i].amount, k));
        let w = netted::weight(m, s, u, i);
        assert(netted::weight(m, t, u, i) == w);
        let d = s[i].delta;
        let (x, y) = (s[i].amount.product(w), t[i].amount.product(w));
        scaling_laws::lemma_product_scales(s[i].amount, t[i].amount, w, k);
        lemma_commutes(d, x);
        lemma_commutes(d, y);
        scaling_laws::lemma_product_scales(x, y, d, k);
        ratio_laws::lemma_scaled_sign(s[i].amount, t[i].amount, k);
        let (p, q) = (s[i].amount.magnitude(), t[i].amount.magnitude());
        assert(p.mag() == s[i].amount.mag() && q.mag() == t[i].amount.mag());
        assert(q.product(w).mag() == y.mag()) by {
            lemma_size(t[i].amount, w);
        }
        scaling_laws::lemma_product_scales(p, q, w, k);
        assert(sums_finite(t, m, u, n));
        scaling_laws::lemma_sum_scales(
            netted::g_value(m, s, u, i),
            x,
            netted::g_value(m, t, u, i),
            y,
            k,
        );
        ratio_laws::lemma_scaled_sign(d.product(x), d.product(y), k);
        scaling_laws::lemma_sum_scales(
            netted::g_deriv(m, s, u, i),
            d.product(x).opposite(),
            netted::g_deriv(m, t, u, i),
            d.product(y).opposite(),
            k,
        );
        scaling_laws::lemma_sum_scales(
            netted::g_gross(m, s, u, i),
            p.product(w),
            netted::g_gross(m, t, u, i),
            q.product(w),
            k,
        );
    }
}

/// Products commute.
proof fn lemma_commutes(x: Double, y: Double)
    ensures
        x.product(y) == y.product(x),
{
    lemma_mul_is_commutative(double::units(x.mag()), double::units(y.mag()));
}

/// The size of a product is that of the size times the other factor.
proof fn lemma_size(x: Double, w: Double)
    requires
        x.finite(),
        w.finite(),
    ensures
        x.magnitude().product(w).mag() == x.product(w).mag(),
{
    let p = pow2(1074) as int;
    let (u, v) = (double::units(x.mag()), double::units(w.mag()));
    arithmetic::lemma_units_order(x.mag(), x.mag());
    arithmetic::lemma_units_order(w.mag(), w.mag());
    lemma_pow2_pos(1074);
    assert(u * v >= 0) by (nonlinear_arith)
        requires
            u >= 0,
            v >= 0,
    ;
    arithmetic::lemma_round_range(u * v, p);
}

// ---------------------------------------------------------------------------
// The root test
// ---------------------------------------------------------------------------

/// Nothing is lost in testing whether `rate` is a root. Outside the domain there
/// is nothing to lose.
pub open spec fn root_test_kept(
    a: Flow,
    b: Flow,
    m: spec_fn(Call) -> Double,
    rate: Double,
) -> bool {
    let u = log_rate::log_rate(m, rate);
    let tol = Double::from_bits(flow::RESIDUAL_REL_TOL);
    rate.finite() && !rate.le(Double::from_bits(MINUS_ONE)) ==> {
        &&& kept_at_log_rate(a, b, m, u)
        &&& scaling_laws::product_kept(a.gross(m, u), tol)
        &&& tol.product(b.gross(m, u)).finite()
    }
}

/// A change of denomination does not move the root test.
pub proof fn law_denomination_does_not_move_the_root_test(
    a: Flow,
    b: Flow,
    m: spec_fn(Call) -> Double,
    rate: Double,
    k: nat,
)
    requires
        netted_alike(a, b, k),
        root_test_kept(a, b, m, rate),
    ensures
        a.is_root(m, rate) == b.is_root(m, rate),
{
    law_denomination_does_not_move_the_sign_changes(a, b, k);
    if rate.finite() && !rate.le(Double::from_bits(MINUS_ONE)) {
        let u = log_rate::log_rate(m, rate);
        let tol = Double::from_bits(flow::RESIDUAL_REL_TOL);
        let (v, w) = (a.g(m, u).0, b.g(m, u).0);
        let (x, y) = (a.gross(m, u), b.gross(m, u));
        law_denomination_scales_the_objective(a, b, m, u, k);
        lemma_commutes(tol, x);
        lemma_commutes(tol, y);
        scaling_laws::lemma_product_scales(x, y, tol, k);
        ratio_laws::lemma_scaled_sign(v, w, k);
        ratio_laws::lemma_scaled_sign(x, y, k);
        ratio_laws::lemma_scaled_order(
            v.magnitude(),
            tol.product(x),
            w.magnitude(),
            tol.product(y),
            k,
        );
    }
}

// ---------------------------------------------------------------------------
// The roots
// ---------------------------------------------------------------------------

/// The enumeration of the roots evaluates the objective or its derivative at
/// log-rate `u`.
pub open spec fn roots_visit(a: Flow, m: spec_fn(Call) -> Double, u: Double) -> bool {
    ||| ratio_laws::scan_visits(a.deriv_fn(m), log_rate::log_rate_nodes(), u)
    ||| ratio_laws::scan_visits(a.value_fn(m), a.refined_grid(m), u)
}

/// Nothing is lost in enumerating the roots: not at the log-rates that are tried,
/// not in the steps of Brent's method, and not in the root test of a candidate.
pub open spec fn roots_kept(a: Flow, b: Flow, m: spec_fn(Call) -> Double) -> bool {
    &&& forall|u: Double| #[trigger] roots_visit(a, m, u) ==> kept_at_log_rate(a, b, m, u)
    &&& forall|p: Brent| #[trigger]
        ratio_laws::scan_reaches(a.deriv_fn(m), log_rate::log_rate_nodes(), p)
            ==> ratio_laws::interpolation_kept(p, ratio_laws::carried(b.deriv_fn(m), p))
    &&& forall|p: Brent| #[trigger]
        ratio_laws::scan_reaches(a.value_fn(m), a.refined_grid(m), p)
            ==> ratio_laws::interpolation_kept(p, ratio_laws::carried(b.value_fn(m), p))
    &&& forall|i: int|
        0 <= i < a.candidates(m).len() ==> root_test_kept(
            a,
            b,
            m,
            log_rate::rate_of(m, #[trigger] a.candidates(m)[i]),
        )
}

/// A change of denomination does not move the roots by a bit.
pub proof fn law_denomination_does_not_move_the_roots(
    a: Flow,
    b: Flow,
    m: spec_fn(Call) -> Double,
    k: nat,
)
    requires
        netted_alike(a, b, k),
        roots_kept(a, b, m),
    ensures
        a.candidates(m) == b.candidates(m),
        a.roots(m) == b.roots(m),
{
    law_denomination_does_not_move_the_sign_changes(a, b, k);
    let nodes = log_rate::log_rate_nodes();
    assert forall|u: Double| #[trigger]
        ratio_laws::scan_visits(a.deriv_fn(m), nodes, u) implies scaling_laws::scales(
        a.deriv_fn(m)(u),
        b.deriv_fn(m)(u),
        k,
    ) by {
        assert(roots_visit(a, m, u));
        law_denomination_scales_the_objective(a, b, m, u, k);
    }
    ratio_laws::law_a_scan_sees_ratios_only(
        a.deriv_fn(m),
        b.deriv_fn(m),
        nodes,
        usize::MAX as nat,
        k,
    );
    assert(a.extrema(m) == b.extrema(m));
    let grid = a.refined_grid(m);
    assert forall|u: Double| #[trigger]
        ratio_laws::scan_visits(a.value_fn(m), grid, u) implies scaling_laws::scales(
        a.value_fn(m)(u),
        b.value_fn(m)(u),
        k,
    ) by {
        assert(roots_visit(a, m, u));
        law_denomination_scales_the_objective(a, b, m, u, k);
    }
    ratio_laws::law_a_scan_sees_ratios_only(
        a.value_fn(m),
        b.value_fn(m),
        grid,
        a.root_bound(),
        k,
    );
    assert(a.crossed(m) == b.crossed(m));
    let us = a.candidates(m);
    lemma_same_roots_among(a, b, m, us, us.len() as int, k);
}

proof fn lemma_same_roots_among(
    a: Flow,
    b: Flow,
    m: spec_fn(Call) -> Double,
    us: Seq<Double>,
    n: int,
    k: nat,
)
    requires
        netted_alike(a, b, k),
        n <= us.len(),
        forall|i: int|
            0 <= i < us.len() ==> root_test_kept(
                a,
                b,
                m,
                log_rate::rate_of(m, #[trigger] us[i]),
            ),
    ensures
        a.roots_among(m, us, n) == b.roots_among(m, us, n),
    decreases n,
{
    if n > 0 {
        lemma_same_roots_among(a, b, m, us, n - 1, k);
        let rate = log_rate::rate_of(m, us[n - 1]);
        law_denomination_does_not_move_the_root_test(a, b, m, rate, k);
    }
}

// ---------------------------------------------------------------------------
// The rate
// ---------------------------------------------------------------------------

/// Newton's method from seed `u` evaluates the objective at log-rate `x`.
pub open spec fn newton_visits(
    a: Flow,
    m: spec_fn(Call) -> Double,
    u: Double,
    x: Double,
) -> bool {
    ratio_laws::residual_visits(
        a.g_fn(m),
        u,
        Double::from_bits(0),
        newton::RESIDUAL_MAX_ITER as nat,
        x,
    )
}

/// Nothing is lost in the last resort: not at the log-rates that Newton's method
/// comes by, and not in the root test of where it ends.
pub open spec fn fallback_kept(
    a: Flow,
    b: Flow,
    m: spec_fn(Call) -> Double,
    guess: Double,
) -> bool {
    let seeds = flow::fallback_seeds(m, guess);
    forall|i: int|
        0 <= i < seeds.len() && (#[trigger] seeds[i]).finite() ==> {
            &&& root_test_kept(a, b, m, a.newton_rate(m, seeds[i]))
            &&& forall|x: Double| #[trigger]
                newton_visits(a, m, seeds[i], x) ==> kept_at_log_rate(a, b, m, x)
        }
}

/// A change of denomination does not move the rate of the robust search. Where
/// the enumeration finds a root, nothing is asked of the last resort.
pub proof fn law_denomination_does_not_move_the_robust_rate(
    a: Flow,
    b: Flow,
    m: spec_fn(Call) -> Double,
    guess: Double,
    k: nat,
)
    requires
        netted_alike(a, b, k),
        roots_kept(a, b, m),
        a.roots(m).len() == 0 ==> fallback_kept(a, b, m, guess),
    ensures
        a.robust_rate(m, guess) == b.robust_rate(m, guess),
{
    law_denomination_does_not_move_the_sign_changes(a, b, k);
    law_denomination_does_not_move_the_roots(a, b, m, k);
    if a.roots(m).len() == 0 {
        lemma_same_first_root(a, b, m, guess, 0, k);
    }
}

proof fn lemma_same_first_root(
    a: Flow,
    b: Flow,
    m: spec_fn(Call) -> Double,
    guess: Double,
    i: int,
    k: nat,
)
    requires
        netted_alike(a, b, k),
        fallback_kept(a, b, m, guess),
        0 <= i <= flow::fallback_seeds(m, guess).len(),
    ensures
        a.first_root_from(m, flow::fallback_seeds(m, guess), i) == b.first_root_from(
            m,
            flow::fallback_seeds(m, guess),
            i,
        ),
    decreases flow::fallback_seeds(m, guess).len() - i,
{
    let seeds = flow::fallback_seeds(m, guess);
    if i < seeds.len() {
        let u = seeds[i];
        lemma_same_first_root(a, b, m, guess, i + 1, k);
        if u.finite() {
            let left = newton::RESIDUAL_MAX_ITER as nat;
            assert forall|x: Double| #[trigger]
                ratio_laws::residual_visits(
                a.g_fn(m),
                u,
                Double::from_bits(0),
                left,
                x,
            ) implies scaling_laws::scales(a.g_fn(m)(x).0, b.g_fn(m)(x).0, k)
                && scaling_laws::scales(a.g_fn(m)(x).1, b.g_fn(m)(x).1, k) by {
                assert(newton_visits(a, m, u, x));
                law_denomination_scales_the_objective(a, b, m, x, k);
            }
            ratio_laws::law_residual_search_sees_ratios_only(a.g_fn(m), b.g_fn(m), u, left, k);
            law_denomination_does_not_move_the_root_test(a, b, m, a.newton_rate(m, u), k);
        }
    }
}

/// Multiplying every amount by a power of two does not move the rate of any
/// policy by a bit, as long as nothing is lost on the way to it.
pub proof fn law_denomination_does_not_move_the_rate_of_a_policy(
    a: Flow,
    b: Flow,
    m: spec_fn(Call) -> Double,
    guess: Double,
    policy: RootPolicy,
    k: nat,
)
    requires
        netted_alike(a, b, k),
        forall|rate: Double| #[trigger]
            laws::excel_visits(a.npv_fn(m), guess, rate) ==> scaling_laws::kept_at(a, b, m, rate),
        roots_kept(a, b, m),
        a.roots(m).len() == 0 ==> fallback_kept(a, b, m, guess),
        root_test_kept(a, b, m, a.spreadsheet_rate(m, guess)),
    ensures
        a.rate(m, guess, policy) == b.rate(m, guess, policy),
{
    scaling_laws::law_denomination_does_not_move_the_rate(a, b, m, guess, k);
    law_denomination_does_not_move_the_roots(a, b, m, k);
    law_denomination_does_not_move_the_robust_rate(a, b, m, guess, k);
    law_denomination_does_not_move_the_root_test(a, b, m, a.spreadsheet_rate(m, guess), k);
}

} // verus!
