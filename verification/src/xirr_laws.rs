//! What a solve promises.

use crate::double;
use crate::double::{Double, MINUS_ONE, NAN_BITS};
use crate::flow;
use crate::flow::{Flow, RootPolicy};
use crate::host::Call;
use crate::netted;
use crate::netted::Shape;
use crate::optimize::crossings;
use crate::optimize::laws;
use crate::optimize::newton;
use crate::search;
use crate::sign_laws;
use crate::sorting;
use crate::sorting::Ranked;
use crate::xirr;
use crate::xirr::Outcome;
use vstd::prelude::*;

verus! {

// ---------------------------------------------------------------------------
// Enumeration
// ---------------------------------------------------------------------------

/// Every enumerated rate is a root, is finite and lies above `-1`.
pub proof fn law_enumerated_rates_are_roots(flow: Flow, m: spec_fn(Call) -> Double, i: int)
    requires
        0 <= i < flow.roots(m).len(),
    ensures
        flow.is_root(m, flow.roots(m)[i]),
        flow.roots(m)[i].finite(),
        !flow.roots(m)[i].le(Double::from_bits(MINUS_ONE)),
{
    let us = flow.candidates(m);
    let rates = flow.roots_among(m, us, us.len() as int);
    let tol = Double::from_bits(flow::DISTINCT_ROOT_TOL);
    let r = flow.roots(m)[i];
    sorting::lemma_sorted(rates);
    sorting::lemma_thinned(sorting::sorted(rates), sorting::within(tol));
    assert(flow.roots(m).contains(r));
    assert(sorting::sorted(rates).contains(r));
    sorting::lemma_sorted_contains(rates, r);
    let k = choose|k: int| 0 <= k < rates.len() && rates[k] == r;
    lemma_roots_among(flow, m, us, us.len() as int, k);
}

proof fn lemma_roots_among(
    flow: Flow,
    m: spec_fn(Call) -> Double,
    us: Seq<Double>,
    n: int,
    k: int,
)
    requires
        0 <= k < flow.roots_among(m, us, n).len(),
    ensures
        flow.is_root(m, flow.roots_among(m, us, n)[k]),
    decreases n,
{
    if n > 0 && k < flow.roots_among(m, us, n - 1).len() {
        lemma_roots_among(flow, m, us, n - 1, k);
    }
}

/// Enumerated roots strictly ascend, and neighbours are further apart than the
/// distance at which two rates count as one.
pub proof fn law_enumerated_roots_ascend_apart(
    flow: Flow,
    m: spec_fn(Call) -> Double,
    i: int,
    j: int,
)
    requires
        0 <= i < j < flow.roots(m).len(),
    ensures
        flow.roots(m)[i].lt(flow.roots(m)[j]),
        j == i + 1 ==> Double::from_bits(flow::DISTINCT_ROOT_TOL).lt(
            flow.roots(m)[j].difference(flow.roots(m)[i]).magnitude(),
        ),
{
    let us = flow.candidates(m);
    let rates = flow.roots_among(m, us, us.len() as int);
    let tol = Double::from_bits(flow::DISTINCT_ROOT_TOL);
    let roots = flow.roots(m);
    sorting::lemma_sorted(rates);
    sorting::lemma_thinned(sorting::sorted(rates), sorting::within(tol));
    law_enumerated_rates_are_roots(flow, m, i);
    law_enumerated_rates_are_roots(flow, m, j - 1);
    law_enumerated_rates_are_roots(flow, m, j);
    assert(roots[i].place() <= roots[j - 1].place());
    assert(roots[j - 1].place() <= roots[j].place());
    double::lemma_rank_key(roots[i], roots[j - 1]);
    double::lemma_rank_key(roots[j - 1], roots[j]);
    assert(!sorting::within(tol)(roots[j], roots[j - 1]));
    lemma_apart(roots[j], roots[j - 1]);
}

/// Finite numbers that are apart differ, and their difference is a number.
proof fn lemma_apart(a: Double, b: Double)
    requires
        a.finite(),
        b.finite(),
    ensures
        !a.difference(b).nan(),
        a.key() == b.key() ==> a.difference(b).zero(),
{
    let exact = a.value() - b.value();
    assert(b.opposite().value() == -b.value());
    crate::arithmetic::lemma_units_order(0, 0);
    if exact > 0 {
        crate::arithmetic::lemma_round_range(exact, 1);
    } else if exact < 0 {
        crate::arithmetic::lemma_round_range(-exact, 1);
    }
}

/// A flow that is proved rootless has no enumerated root, and neither has one
/// with an amount or a year fraction that is not finite.
pub proof fn law_nothing_is_enumerated_without_cause(flow: Flow, m: spec_fn(Call) -> Double)
    ensures
        flow.shape() == Shape::NoRootExists ==> flow.roots(m).len() == 0,
        flow.poisoned() ==> flow.roots(m).len() == 0,
{
    if flow.poisoned() && flow.roots(m).len() > 0 {
        law_enumerated_rates_are_roots(flow, m, 0);
    }
}

/// The enumeration, and what counts as a root, depend on the netted terms
/// alone: two flows with the same terms have the same roots.
pub proof fn law_roots_depend_on_netted_terms_alone(
    a: Flow,
    b: Flow,
    m: spec_fn(Call) -> Double,
    rate: Double,
)
    requires
        a.terms() == b.terms(),
        a.poisoned() == b.poisoned(),
    ensures
        a.roots(m) == b.roots(m),
        a.is_root(m, rate) == b.is_root(m, rate),
        a.change_count() == b.change_count(),
        a.shape() == b.shape(),
{
    assert(a.value_fn(m) =~= b.value_fn(m));
    assert(a.deriv_fn(m) =~= b.deriv_fn(m));
    assert(a.candidates(m) == b.candidates(m));
    let us = a.candidates(m);
    lemma_same_roots_among(a, b, m, us, us.len() as int);
}

proof fn lemma_same_roots_among(
    a: Flow,
    b: Flow,
    m: spec_fn(Call) -> Double,
    us: Seq<Double>,
    n: int,
)
    requires
        a.terms() == b.terms(),
        a.poisoned() == b.poisoned(),
    ensures
        a.roots_among(m, us, n) == b.roots_among(m, us, n),
    decreases n,
{
    if n > 0 {
        lemma_same_roots_among(a, b, m, us, n - 1);
    }
}

/// With an odd number of sign changes the grid brackets a root, provided it
/// reaches far enough: that the objective is finite on it, and has at its lower
/// end the sign of the last amount and at its upper end that of the first.
pub proof fn law_odd_sign_changes_are_bracketed(flow: Flow, m: spec_fn(Call) -> Double)
    requires
        flow.change_count() % 2 == 1,
        flow.refined_grid(m).len() > 0,
        forall|i: int|
            0 <= i < flow.refined_grid(m).len() ==> flow.g(
                m,
                #[trigger] flow.refined_grid(m)[i],
            ).0.finite(),
        ({
            let low = flow.g(m, flow.refined_grid(m)[0]).0;
            let high = flow.g(m, flow.refined_grid(m).last()).0;
            &&& !low.zero() && low.positive() == flow.terms().last().amount.positive()
            &&& !high.zero() && high.positive() == flow.terms()[0].amount.positive()
        }),
    ensures
        crossings::crossings(
            flow.value_fn(m),
            flow.refined_grid(m),
            flow.refined_grid(m).len() as int,
        ).len() > 0,
{
    let grid = flow.refined_grid(m);
    let f = flow.value_fn(m);
    assert(flow.terms().len() > 0);
    sign_laws::law_parity_of_sign_changes(flow.terms());
    assert forall|i: int| 0 <= i < grid.len() implies f(#[trigger] grid[i]).finite() by {
        assert(flow.g(m, grid[i]).0.finite());
    }
    assert(flow.g(m, grid[grid.len() - 1]).0.finite());
    laws::law_opposite_ends_are_crossed(f, grid);
}

// ---------------------------------------------------------------------------
// The nearest root
// ---------------------------------------------------------------------------

/// The distance of a root from the guess.
pub open spec fn distance(root: Double, guess: Double) -> Double {
    root.difference(guess).magnitude()
}

/// The nearest root is one of the roots, no other is nearer to the guess, and
/// of those as near it is the smallest. There is one exactly if there are roots.
pub proof fn law_nearest_root_is_nearest(roots: Seq<Double>, guess: Double)
    requires
        netted::all_finite(roots),
        guess.finite(),
    ensures
        match search::nearest(roots, guess, roots.len() as int) {
            None => roots.len() == 0,
            Some(c) => {
                &&& roots.contains(c)
                &&& forall|i: int|
                    0 <= i < roots.len() ==> distance(c, guess).le(
                        distance(#[trigger] roots[i], guess),
                    )
                &&& forall|i: int|
                    0 <= i < roots.len() && distance(c, guess).same(
                        distance(#[trigger] roots[i], guess),
                    ) ==> c.le(roots[i])
            },
        },
{
    lemma_nearest(roots, guess, roots.len() as int);
}

proof fn lemma_nearest(roots: Seq<Double>, guess: Double, n: int)
    requires
        netted::all_finite(roots),
        guess.finite(),
        0 <= n <= roots.len(),
    ensures
        match search::nearest(roots, guess, n) {
            None => n == 0,
            Some(c) => {
                &&& roots.contains(c)
                &&& c.finite()
                &&& forall|i: int|
                    0 <= i < n ==> distance(c, guess).le(distance(#[trigger] roots[i], guess))
                &&& forall|i: int|
                    0 <= i < n && distance(c, guess).same(distance(#[trigger] roots[i], guess))
                        ==> c.le(roots[i])
            },
        },
    decreases n,
{
    if n > 0 {
        lemma_nearest(roots, guess, n - 1);
        let x = roots[n - 1];
        assert(x.finite());
        lemma_apart(x, guess);
        if n > 1 {
            let best = search::nearest(roots, guess, n - 1)->0;
            lemma_apart(best, guess);
        }
    }
}

// ---------------------------------------------------------------------------
// Policies
// ---------------------------------------------------------------------------

/// The default never contradicts a spreadsheet: where a spreadsheet has a rate,
/// it is that rate, bit for bit.
pub proof fn law_default_never_contradicts_a_spreadsheet(
    flow: Flow,
    m: spec_fn(Call) -> Double,
    guess: Double,
)
    requires
        flow.rate(m, guess, RootPolicy::SpreadsheetCompat).finite(),
    ensures
        flow.rate(m, guess, RootPolicy::SpreadsheetThenRobust) == flow.rate(
            m,
            guess,
            RootPolicy::SpreadsheetCompat,
        ),
{
}

/// Where a spreadsheet has no rate, the default has a root or none at all.
pub proof fn law_default_adds_only_roots(flow: Flow, m: spec_fn(Call) -> Double, guess: Double)
    requires
        guess.finite(),
        !flow.rate(m, guess, RootPolicy::SpreadsheetCompat).finite(),
    ensures
        ({
            let rate = flow.rate(m, guess, RootPolicy::SpreadsheetThenRobust);
            flow.is_root(m, rate) || rate == Double::from_bits(NAN_BITS)
        }),
{
    lemma_robust_rate(flow, m, guess);
}

proof fn lemma_robust_rate(flow: Flow, m: spec_fn(Call) -> Double, guess: Double)
    requires
        guess.finite(),
    ensures
        flow.is_root(m, flow.robust_rate(m, guess)) || flow.robust_rate(m, guess)
            == Double::from_bits(NAN_BITS),
{
    if flow.shape() != Shape::NoRootExists {
        let roots = flow.roots(m);
        lemma_roots_finite(flow, m);
        law_nearest_root_is_nearest(roots, guess);
        match search::nearest(roots, guess, roots.len() as int) {
            Some(c) => {
                let i = choose|i: int| 0 <= i < roots.len() && roots[i] == c;
                law_enumerated_rates_are_roots(flow, m, i);
            },
            None => {
                lemma_first_root(flow, m, flow::fallback_seeds(m, guess), 0);
            },
        }
    }
}

pub proof fn lemma_roots_finite(flow: Flow, m: spec_fn(Call) -> Double)
    ensures
        netted::all_finite(flow.roots(m)),
{
    assert forall|i: int| 0 <= i < flow.roots(m).len() implies (
    #[trigger] flow.roots(m)[i]).finite() by {
        law_enumerated_rates_are_roots(flow, m, i);
    }
}

proof fn lemma_first_root(flow: Flow, m: spec_fn(Call) -> Double, seeds: Seq<Double>, i: int)
    ensures
        flow.is_root(m, flow.first_root_from(m, seeds, i)) || flow.first_root_from(m, seeds, i)
            == Double::from_bits(NAN_BITS),
    decreases seeds.len() - i,
{
    if i < seeds.len() {
        lemma_first_root(flow, m, seeds, i + 1);
    }
}

/// The two policies that trade parity for correctness return a root or nothing.
pub proof fn law_correctness_policies_return_roots(
    flow: Flow,
    m: spec_fn(Call) -> Double,
    guess: Double,
    policy: RootPolicy,
)
    requires
        guess.finite(),
        policy == RootPolicy::Lowest || policy == RootPolicy::ClosestToGuess,
    ensures
        ({
            let rate = flow.rate(m, guess, policy);
            flow.is_root(m, rate) || rate == Double::from_bits(NAN_BITS)
        }),
{
    let roots = flow.roots(m);
    lemma_roots_finite(flow, m);
    law_nearest_root_is_nearest(roots, guess);
    if roots.len() > 0 {
        law_enumerated_rates_are_roots(flow, m, 0);
        let c = search::nearest(roots, guess, roots.len() as int)->0;
        let i = choose|i: int| 0 <= i < roots.len() && roots[i] == c;
        law_enumerated_rates_are_roots(flow, m, i);
    }
}

/// The lowest policy returns the smallest enumerated root.
pub proof fn law_lowest_is_the_smallest_root(
    flow: Flow,
    m: spec_fn(Call) -> Double,
    guess: Double,
    i: int,
)
    requires
        0 <= i < flow.roots(m).len(),
    ensures
        flow.rate(m, guess, RootPolicy::Lowest).le(flow.roots(m)[i]),
        flow.roots(m).contains(flow.rate(m, guess, RootPolicy::Lowest)),
{
    law_enumerated_rates_are_roots(flow, m, 0);
    assert(flow.roots(m)[0] == flow.rate(m, guess, RootPolicy::Lowest));
    if i > 0 {
        law_enumerated_roots_ascend_apart(flow, m, 0, i);
    }
}

/// The closest policy returns the enumerated root nearest the guess, and the
/// smaller of two that are as near.
pub proof fn law_closest_is_the_nearest_root(
    flow: Flow,
    m: spec_fn(Call) -> Double,
    guess: Double,
    i: int,
)
    requires
        guess.finite(),
        0 <= i < flow.roots(m).len(),
    ensures
        ({
            let rate = flow.rate(m, guess, RootPolicy::ClosestToGuess);
            let root = flow.roots(m)[i];
            &&& flow.roots(m).contains(rate)
            &&& distance(rate, guess).le(distance(root, guess))
            &&& distance(rate, guess).same(distance(root, guess)) ==> rate.le(root)
        }),
{
    lemma_roots_finite(flow, m);
    law_nearest_root_is_nearest(flow.roots(m), guess);
}

/// Where exactly one root is enumerated, the two enumerating policies and the
/// robust search agree on it, whatever the guess.
pub proof fn law_policies_agree_on_a_single_root(
    flow: Flow,
    m: spec_fn(Call) -> Double,
    guess: Double,
)
    requires
        guess.finite(),
        flow.roots(m).len() == 1,
    ensures
        flow.rate(m, guess, RootPolicy::Lowest) == flow.roots(m)[0],
        flow.rate(m, guess, RootPolicy::ClosestToGuess) == flow.roots(m)[0],
        flow.robust_rate(m, guess) == flow.roots(m)[0],
{
    reveal_with_fuel(search::nearest, 2);
}

/// A rate is finite or the NaN that stands for none.
pub proof fn law_rates_are_finite_or_nan(
    flow: Flow,
    m: spec_fn(Call) -> Double,
    guess: Double,
    policy: RootPolicy,
)
    requires
        guess.finite(),
    ensures
        flow.rate(m, guess, policy).finite() || flow.rate(m, guess, policy) == Double::from_bits(
            NAN_BITS,
        ),
{
    lemma_excel_rate(flow.npv_fn(m), guess, 0);
    lemma_robust_rate(flow, m, guess);
    match policy {
        RootPolicy::Lowest => {
            law_correctness_policies_return_roots(flow, m, guess, policy);
        },
        RootPolicy::ClosestToGuess => {
            law_correctness_policies_return_roots(flow, m, guess, policy);
        },
        _ => {},
    }
}

proof fn lemma_excel_rate(fd: spec_fn(Double) -> (Double, Double), guess: Double, scan: int)
    ensures
        newton::first_attempt(fd, guess, scan).finite() || newton::first_attempt(fd, guess, scan)
            == Double::from_bits(NAN_BITS),
    decreases newton::EXCEL_MAX_SCAN - scan,
{
    if scan < newton::EXCEL_MAX_SCAN {
        lemma_excel_rate(fd, guess, scan + 1);
    }
}

/// A flow whose netted amounts have one sign has no rate under the policies that
/// return roots only.
pub proof fn law_rootless_flows_have_no_rate(
    flow: Flow,
    m: spec_fn(Call) -> Double,
    guess: Double,
    policy: RootPolicy,
)
    requires
        sign_laws::elementary(m),
        netted::well_netted(flow.terms()),
        sign_laws::spans_finitely(flow.terms()),
        sign_laws::amounts_ok(flow.terms()),
        flow.change_count() == 0,
        guess.finite(),
        policy == RootPolicy::Lowest || policy == RootPolicy::ClosestToGuess,
    ensures
        flow.rate(m, guess, policy).nan(),
{
    law_correctness_policies_return_roots(flow, m, guess, policy);
    sign_laws::law_no_sign_change_means_no_rate_passes(flow, m, flow.rate(m, guess, policy));
}

// ---------------------------------------------------------------------------
// Outcomes
// ---------------------------------------------------------------------------

/// The outcome carries the rate of the plain solve exactly: the rate where that
/// is a number, and none where it is not.
pub proof fn law_outcome_rate_is_the_plain_rate(
    flow: Flow,
    m: spec_fn(Call) -> Double,
    rate: Double,
    policy: RootPolicy,
)
    ensures
        xirr::outcome_of(flow, m, rate, policy).rate() == if rate.finite() {
            Some(rate)
        } else {
            None
        },
{
}

/// Labels are true: what is called a root is one, what is called unverified is
/// not, several roots are listed ascending where several are claimed, and a
/// flow is called rootless only where its signs prove it.
pub proof fn law_labels_are_true(
    flow: Flow,
    m: spec_fn(Call) -> Double,
    rate: Double,
    policy: RootPolicy,
)
    ensures
        match xirr::outcome_of(flow, m, rate, policy) {
            Outcome::Root(r) => r == rate && flow.is_root(m, r),
            Outcome::MultipleRoots(r, all) => {
                &&& r == rate && flow.is_root(m, r)
                &&& all == flow.roots(m) && all.len() >= 2
                &&& flow.change_count() >= 2
            },
            Outcome::UnverifiedRate(r, roots) => {
                &&& r == rate && !flow.is_root(m, r)
                &&& roots.len() > 0 ==> roots == flow.roots(m)
            },
            Outcome::NoRootExists => {
                &&& !rate.finite()
                &&& !flow.poisoned() && flow.change_count() == 0
            },
            Outcome::DidNotConverge => {
                &&& !rate.finite() && policy != RootPolicy::SpreadsheetCompat
                &&& flow.poisoned() || flow.change_count() > 0
            },
            Outcome::SpreadsheetNumError => {
                &&& !rate.finite() && policy == RootPolicy::SpreadsheetCompat
                &&& flow.poisoned() || flow.change_count() > 0
            },
        },
{
}

/// Under the policies that return roots only, no rate is labelled unverified.
pub proof fn law_correctness_policies_are_never_unverified(
    flow: Flow,
    m: spec_fn(Call) -> Double,
    guess: Double,
    policy: RootPolicy,
)
    requires
        guess.finite(),
        policy == RootPolicy::Lowest || policy == RootPolicy::ClosestToGuess,
    ensures
        !(xirr::outcome_of(flow, m, flow.rate(m, guess, policy), policy) is UnverifiedRate),
{
    law_correctness_policies_return_roots(flow, m, guess, policy);
}

/// Where several roots are reported under a policy that enumerates, the one
/// selected is among those listed.
pub proof fn law_selected_root_is_listed(
    flow: Flow,
    m: spec_fn(Call) -> Double,
    guess: Double,
    policy: RootPolicy,
)
    requires
        guess.finite(),
        policy == RootPolicy::Lowest || policy == RootPolicy::ClosestToGuess || (policy
            == RootPolicy::SpreadsheetThenRobust && !flow.spreadsheet_rate(m, guess).finite()),
    ensures
        xirr::outcome_of(flow, m, flow.rate(m, guess, policy), policy) matches
            Outcome::MultipleRoots(selected, all) ==> all.contains(selected),
{
    let roots = flow.roots(m);
    lemma_roots_finite(flow, m);
    law_nearest_root_is_nearest(roots, guess);
    if roots.len() > 0 {
        assert(roots.contains(roots[0]));
    }
}

} // verus!
