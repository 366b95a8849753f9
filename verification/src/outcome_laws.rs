//! What a solve returns and what it is called: the root test, the sign changes,
//! the policies, and the outcomes, each pinned from both sides.

use crate::double::{Double, MINUS_ONE, NAN_BITS};
use crate::flow;
use crate::flow::{Flow, RootPolicy};
use crate::host::Call;
use crate::log_rate;
use crate::netted;
use crate::netted::{NettedFlow, Shape, Term};
use crate::search;
use crate::xirr;
use crate::xirr::{Outcome, XirrOutcome};
use crate::xirr_laws;
use vstd::prelude::*;

verus! {

// ---------------------------------------------------------------------------
// Sign changes
// ---------------------------------------------------------------------------

/// The places at which a term is positive and the one before it is not, or the
/// other way round.
pub open spec fn turns(terms: Seq<Term>) -> Set<int> {
    Set::new(
        |i: int|
            1 <= i < terms.len() && (Double::from_bits(0).lt(terms[i - 1].amount)
                != Double::from_bits(0).lt(terms[i].amount)),
    )
}

/// The sign changes of a flow are the places at which its netted terms turn, all
/// of them, however many terms there are.
pub proof fn law_sign_changes_count_the_turns(flow: Flow)
    ensures
        turns(flow.terms()).finite(),
        flow.change_count() == turns(flow.terms()).len(),
{
    lemma_turns(flow.terms());
}

/// The same of terms that are netted already.
pub proof fn law_sign_changes_of_netted_terms_count_the_turns(flow: NettedFlow)
    ensures
        turns(flow.terms@).finite(),
        flow.change_count() == turns(flow.terms@).len(),
{
    lemma_turns(flow.terms@);
}

proof fn lemma_turns(terms: Seq<Term>)
    ensures
        turns(terms).finite(),
        netted::changes(terms, terms.len() as int) == turns(terms).len(),
    decreases terms.len(),
{
    if terms.len() <= 1 {
        assert(turns(terms) =~= Set::empty());
    } else {
        let rest = terms.drop_last();
        let n = terms.len() as int;
        lemma_turns(rest);
        lemma_changes_of_prefix(terms, n - 1);
        let a = terms[n - 2].amount;
        let b = terms[n - 1].amount;
        assert(a.positive() == Double::from_bits(0).lt(a));
        assert(b.positive() == Double::from_bits(0).lt(b));
        if a.positive() != b.positive() {
            assert(turns(terms) =~= turns(rest).insert(n - 1));
            assert(!turns(rest).contains(n - 1));
        } else {
            assert(turns(terms) =~= turns(rest));
        }
    }
}

proof fn lemma_changes_of_prefix(terms: Seq<Term>, n: int)
    requires
        0 <= n < terms.len(),
    ensures
        netted::changes(terms, n) == netted::changes(terms.drop_last(), n),
    decreases n,
{
    if n > 1 {
        lemma_changes_of_prefix(terms, n - 1);
    }
}

/// What the sign changes prove: nothing where something is not finite, that there
/// is no root where there are none, that there is one where their number is odd.
pub proof fn law_sign_changes_prove(flow: Flow)
    ensures
        flow.poisoned() <==> (exists|i: int|
            0 <= i < flow.amounts.len() && !(#[trigger] flow.amounts[i]).finite()) || (exists|
            i: int,
        | 0 <= i < flow.deltas.len() && !(#[trigger] flow.deltas[i]).finite()),
        flow.shape() == Shape::Undefined <==> flow.poisoned(),
        flow.shape() == Shape::NoRootExists <==> !flow.poisoned() && flow.change_count() == 0,
        flow.shape() == Shape::RootGuaranteed <==> !flow.poisoned() && flow.change_count() % 2
            == 1,
        flow.shape() == Shape::RootPossible <==> !flow.poisoned() && flow.change_count() > 0
            && flow.change_count() % 2 == 0,
{
}

/// The same of terms that are netted already.
pub proof fn law_sign_changes_of_netted_terms_prove(flow: NettedFlow)
    ensures
        flow.shape_spec() == Shape::Undefined <==> flow.poisoned,
        flow.shape_spec() == Shape::NoRootExists <==> !flow.poisoned && flow.change_count() == 0,
        flow.shape_spec() == Shape::RootGuaranteed <==> !flow.poisoned && flow.change_count() % 2
            == 1,
        flow.shape_spec() == Shape::RootPossible <==> !flow.poisoned && flow.change_count() > 0
            && flow.change_count() % 2 == 0,
{
}

// ---------------------------------------------------------------------------
// The root test
// ---------------------------------------------------------------------------

/// A rate passes exactly if it is finite and above `-1`, every amount and year
/// fraction is finite, and at its log-rate the objective is finite and no larger
/// than `1e-9` times its size, which is above zero.
pub proof fn law_what_passes_as_a_root(flow: Flow, m: spec_fn(Call) -> Double, rate: Double)
    ensures
        flow.is_root(m, rate) <==> {
            let u = m(Call::Ln1p(rate));
            &&& rate.finite() && Double::from_bits(MINUS_ONE).lt(rate)
            &&& netted::all_finite(flow.amounts) && netted::all_finite(flow.deltas)
            &&& flow.g(m, u).0.finite()
            &&& Double::from_bits(0).lt(flow.gross(m, u))
            &&& flow.g(m, u).0.magnitude().le(
                Double::from_bits(0x3e11_2e0b_e826_d695).product(flow.gross(m, u)),
            )
        },
        flow.is_root(m, rate) ==> flow.verified(m, rate) == rate,
        !flow.is_root(m, rate) ==> flow.verified(m, rate).nan(),
{
}

/// Log-rates and rates: `ln(1 + r)` one way; `exp(u) - 1` the other, with the
/// nearer end of the searched range for a log-rate outside it, and no number for
/// one that is not finite.
pub proof fn law_log_rates_and_rates(m: spec_fn(Call) -> Double, x: Double)
    ensures
        log_rate::log_rate(m, x) == m(Call::Ln1p(x)),
        ({
            let low = Double::from_bits(0xc042_5e4f_7b27_37fa);
            let high = Double::from_bits(0x4086_2e42_fefa_39ef);
            &&& low.le(x) && x.le(high) ==> log_rate::rate_of(m, x) == m(Call::ExpM1(x))
            &&& x.finite() && x.lt(low) ==> log_rate::rate_of(m, x) == m(Call::ExpM1(low))
            &&& x.finite() && high.lt(x) ==> log_rate::rate_of(m, x) == m(Call::ExpM1(high))
            &&& !x.finite() ==> log_rate::rate_of(m, x).nan()
        }),
{
}

// ---------------------------------------------------------------------------
// Policies
// ---------------------------------------------------------------------------

/// The strict policy is the spreadsheet's rate, error or not. The default one is
/// that rate where there is one. Where there is none it is the listed root nearest
/// the guess; where none is listed either, a root that Newton's method reaches.
pub proof fn law_the_default_falls_back_on_the_listed_roots(
    flow: Flow,
    m: spec_fn(Call) -> Double,
    guess: Double,
)
    requires
        guess.finite(),
    ensures
        flow.rate(m, guess, RootPolicy::SpreadsheetCompat) == flow.spreadsheet_rate(m, guess),
        !flow.spreadsheet_rate(m, guess).finite() ==> flow.rate(
            m,
            guess,
            RootPolicy::SpreadsheetThenRobust,
        ) == flow.robust_rate(m, guess),
        flow.roots(m).len() > 0 ==> search::nearest(
            flow.roots(m),
            guess,
            flow.roots(m).len() as int,
        ) == Some(flow.robust_rate(m, guess)),
        flow.spreadsheet_rate(m, guess).finite() ==> flow.rate(
            m,
            guess,
            RootPolicy::SpreadsheetThenRobust,
        ) == flow.spreadsheet_rate(m, guess),
        !flow.spreadsheet_rate(m, guess).finite() && flow.roots(m).len() > 0 ==> {
            let rate = flow.rate(m, guess, RootPolicy::SpreadsheetThenRobust);
            &&& flow.roots(m).contains(rate)
            &&& forall|i: int|
                0 <= i < flow.roots(m).len() ==> rate.difference(guess).magnitude().le(
                    (#[trigger] flow.roots(m)[i]).difference(guess).magnitude(),
                )
            &&& forall|i: int|
                0 <= i < flow.roots(m).len() && rate.difference(guess).magnitude().same(
                    (#[trigger] flow.roots(m)[i]).difference(guess).magnitude(),
                ) ==> rate.le(flow.roots(m)[i])
        },
{
    let roots = flow.roots(m);
    xirr_laws::lemma_roots_finite(flow, m);
    xirr_laws::law_nearest_root_is_nearest(roots, guess);
    xirr_laws::law_nothing_is_enumerated_without_cause(flow, m);
    let c = search::nearest(roots, guess, roots.len() as int);
    if !flow.spreadsheet_rate(m, guess).finite() && roots.len() > 0 {
        let rate = flow.rate(m, guess, RootPolicy::SpreadsheetThenRobust);
        assert(c == Some(rate));
        assert forall|i: int| 0 <= i < roots.len() implies rate.difference(guess).magnitude().le(
            (#[trigger] roots[i]).difference(guess).magnitude(),
        ) by {
            assert(xirr_laws::distance(rate, guess).le(xirr_laws::distance(roots[i], guess)));
        }
        assert forall|i: int|
            0 <= i < roots.len() && rate.difference(guess).magnitude().same(
                (#[trigger] roots[i]).difference(guess).magnitude(),
            ) implies rate.le(roots[i]) by {
            assert(xirr_laws::distance(rate, guess).same(xirr_laws::distance(roots[i], guess)));
        }
    }
}

/// The enumerating policies give up only where nothing is listed and the
/// spreadsheet's rate, if any, is no root; that rate is theirs where nothing is
/// listed and it is one.
pub proof fn law_the_enumerating_policies_give_up_last(
    flow: Flow,
    m: spec_fn(Call) -> Double,
    guess: Double,
    policy: RootPolicy,
)
    requires
        guess.finite(),
        policy == RootPolicy::Lowest || policy == RootPolicy::ClosestToGuess,
    ensures
        flow.roots(m).len() > 0 ==> flow.rate(m, guess, policy).finite() && flow.roots(
            m,
        ).contains(flow.rate(m, guess, policy)),
        flow.roots(m).len() == 0 && flow.is_root(m, flow.spreadsheet_rate(m, guess)) ==> flow.rate(
            m,
            guess,
            policy,
        ) == flow.spreadsheet_rate(m, guess),
        flow.roots(m).len() == 0 && !flow.is_root(m, flow.spreadsheet_rate(m, guess))
            ==> flow.rate(m, guess, policy) == Double::from_bits(NAN_BITS),
        policy == RootPolicy::Lowest ==> forall|i: int|
            0 <= i < flow.roots(m).len() ==> flow.rate(m, guess, policy).le(
                #[trigger] flow.roots(m)[i],
            ),
{
    let roots = flow.roots(m);
    xirr_laws::lemma_roots_finite(flow, m);
    xirr_laws::law_nearest_root_is_nearest(roots, guess);
    if roots.len() > 0 {
        assert(roots[0].finite());
        let rate = flow.rate(m, guess, policy);
        if policy == RootPolicy::Lowest {
            assert(roots.contains(roots[0]));
            assert forall|i: int| 0 <= i < roots.len() implies rate.le(#[trigger] roots[i]) by {
                xirr_laws::law_lowest_is_the_smallest_root(flow, m, guess, i);
            }
        }
        let k = choose|k: int| 0 <= k < roots.len() && roots[k] == rate;
        assert(roots[k].finite());
    }
}

/// Where the last resort starts, in order: at the log-rate of the guess, at those of
/// the rates 0, -0.5, -0.9, 0.5, 2 and 10, and at the log-rates -20, -5, 5, 20, 60,
/// 150, 350 and 650.
pub open spec fn resort(m: spec_fn(Call) -> Double, guess: Double, i: int) -> Double {
    if i == 0 {
        m(Call::Ln1p(guess))
    } else if i == 1 {
        m(Call::Ln1p(Double::from_bits(0)))
    } else if i == 2 {
        m(Call::Ln1p(Double::from_bits(0xbfe0_0000_0000_0000)))
    } else if i == 3 {
        m(Call::Ln1p(Double::from_bits(0xbfec_cccc_cccc_cccd)))
    } else if i == 4 {
        m(Call::Ln1p(Double::from_bits(0x3fe0_0000_0000_0000)))
    } else if i == 5 {
        m(Call::Ln1p(Double::from_bits(0x4000_0000_0000_0000)))
    } else if i == 6 {
        m(Call::Ln1p(Double::from_bits(0x4024_0000_0000_0000)))
    } else if i == 7 {
        Double::from_bits(0xc034_0000_0000_0000)
    } else if i == 8 {
        Double::from_bits(0xc014_0000_0000_0000)
    } else if i == 9 {
        Double::from_bits(0x4014_0000_0000_0000)
    } else if i == 10 {
        Double::from_bits(0x4034_0000_0000_0000)
    } else if i == 11 {
        Double::from_bits(0x404e_0000_0000_0000)
    } else if i == 12 {
        Double::from_bits(0x4062_c000_0000_0000)
    } else if i == 13 {
        Double::from_bits(0x4075_e000_0000_0000)
    } else {
        Double::from_bits(0x4084_5000_0000_0000)
    }
}

/// From there Newton's method reaches a root.
pub open spec fn resort_succeeds(
    flow: Flow,
    m: spec_fn(Call) -> Double,
    guess: Double,
    i: int,
) -> bool {
    &&& resort(m, guess, i).finite()
    &&& flow.is_root(m, flow.newton_rate(m, resort(m, guess, i)))
}

/// The last resort is not skipped. Where no root is listed, though the sign changes
/// allow one, the rate of the robust search is the root that Newton's method reaches
/// from the first of its starting points from which it reaches one. Only where it
/// reaches none from any is there none. A flow proved rootless has none either.
pub proof fn law_the_last_resort_is_tried(
    flow: Flow,
    m: spec_fn(Call) -> Double,
    guess: Double,
    i: int,
)
    requires
        flow.roots(m).len() == 0,
        0 <= i <= 15,
        forall|j: int| 0 <= j < i ==> !#[trigger] resort_succeeds(flow, m, guess, j),
    ensures
        flow.shape() == Shape::NoRootExists ==> flow.robust_rate(m, guess).nan(),
        flow.shape() != Shape::NoRootExists && i == 15 ==> flow.robust_rate(m, guess).nan(),
        flow.shape() != Shape::NoRootExists && i < 15 && resort_succeeds(flow, m, guess, i)
            ==> flow.robust_rate(m, guess) == flow.newton_rate(m, resort(m, guess, i)),
{
    let seeds = flow::fallback_seeds(m, guess);
    assert forall|j: int| 0 <= j < 15 implies #[trigger] resort(m, guess, j) == seeds[j] by {
        lemma_resort(m, guess, j);
    }
    lemma_first_root_from(flow, m, guess, seeds, 0, i);
    if flow.shape() != Shape::NoRootExists {
        assert(search::nearest(flow.roots(m), guess, 0) is None);
        assert(flow.robust_rate(m, guess) == flow.first_root_from(m, seeds, 0));
    }
}

proof fn lemma_resort(m: spec_fn(Call) -> Double, guess: Double, i: int)
    requires
        0 <= i < 15,
    ensures
        flow::fallback_seeds(m, guess).len() == 15,
        resort(m, guess, i) == flow::fallback_seeds(m, guess)[i],
{
}

proof fn lemma_first_root_from(
    flow: Flow,
    m: spec_fn(Call) -> Double,
    guess: Double,
    seeds: Seq<Double>,
    from: int,
    i: int,
)
    requires
        0 <= from <= i <= seeds.len(),
        seeds.len() == 15,
        forall|j: int| 0 <= j < 15 ==> #[trigger] resort(m, guess, j) == seeds[j],
        forall|j: int| 0 <= j < i ==> !#[trigger] resort_succeeds(flow, m, guess, j),
    ensures
        i == 15 ==> flow.first_root_from(m, seeds, from) == Double::from_bits(NAN_BITS),
        i < 15 && resort_succeeds(flow, m, guess, i) ==> flow.first_root_from(m, seeds, from)
            == flow.newton_rate(m, seeds[i]),
    decreases i - from,
{
    if from < i {
        assert(!resort_succeeds(flow, m, guess, from));
        assert(resort(m, guess, from) == seeds[from]);
        lemma_first_root_from(flow, m, guess, seeds, from + 1, i);
    } else if i < 15 {
        assert(resort(m, guess, i) == seeds[i]);
    }
}

// ---------------------------------------------------------------------------
// Outcomes
// ---------------------------------------------------------------------------

/// Which outcome a rate has, from both sides. A finite rate that passes is a root:
/// one of several exactly if the sign changes allow several and several are
/// listed, and then all of them are told. A finite rate that does not pass is
/// unverified, and told with it is every root that is listed, where the sign
/// changes allow several. A rate that is missing is explained by the sign changes
/// and the policy.
pub proof fn law_which_outcome_a_rate_has(
    flow: Flow,
    m: spec_fn(Call) -> Double,
    rate: Double,
    policy: RootPolicy,
)
    ensures
        ({
            let outcome = xirr::outcome_of(flow, m, rate, policy);
            let several = flow.change_count() >= 2 && flow.roots(m).len() >= 2;
            &&& rate.finite() && flow.is_root(m, rate) && several ==> outcome
                == Outcome::MultipleRoots(rate, flow.roots(m))
            &&& rate.finite() && flow.is_root(m, rate) && !several ==> outcome == Outcome::Root(
                rate,
            )
            &&& rate.finite() && !flow.is_root(m, rate) && flow.change_count() >= 2 ==> outcome
                == Outcome::UnverifiedRate(rate, flow.roots(m))
            &&& rate.finite() && !flow.is_root(m, rate) && flow.change_count() < 2 ==> outcome
                == Outcome::UnverifiedRate(rate, Seq::empty())
            &&& !rate.finite() && !flow.poisoned() && flow.change_count() == 0 ==> outcome
                == Outcome::NoRootExists
            &&& !rate.finite() && (flow.poisoned() || flow.change_count() > 0) && policy
                == RootPolicy::SpreadsheetCompat ==> outcome == Outcome::SpreadsheetNumError
            &&& !rate.finite() && (flow.poisoned() || flow.change_count() > 0) && policy
                != RootPolicy::SpreadsheetCompat ==> outcome == Outcome::DidNotConverge
        }),
{
}

/// Several rates of return are never passed off as one: a rate that is called the
/// root of a flow with two sign changes or more is so called only if at most one
/// root is listed.
pub proof fn law_ambiguity_is_told(
    flow: Flow,
    m: spec_fn(Call) -> Double,
    rate: Double,
    policy: RootPolicy,
)
    requires
        xirr::outcome_of(flow, m, rate, policy) is Root,
        flow.change_count() >= 2,
    ensures
        flow.roots(m).len() <= 1,
{
    law_which_outcome_a_rate_has(flow, m, rate, policy);
}

/// What an outcome holds: the rate that was produced, the number of roots it
/// claims, and whether they are several.
pub proof fn law_what_an_outcome_holds(outcome: XirrOutcome)
    ensures
        match outcome {
            XirrOutcome::Root(r) => outcome@.rate() == Some(r) && outcome@.root_count() == 1
                && outcome@ == Outcome::Root(r),
            XirrOutcome::MultipleRoots { selected, all } => outcome@.rate() == Some(selected)
                && outcome@.root_count() == all@.len() && outcome@ == Outcome::MultipleRoots(
                selected,
                all@,
            ),
            XirrOutcome::UnverifiedRate { rate, roots } => outcome@.rate() == Some(rate)
                && outcome@.root_count() == 0 && outcome@ == Outcome::UnverifiedRate(rate, roots@),
            XirrOutcome::NoRootExists => outcome@.rate() is None && outcome@.root_count() == 0
                && outcome@ == Outcome::NoRootExists,
            XirrOutcome::DidNotConverge => outcome@.rate() is None && outcome@.root_count() == 0
                && outcome@ == Outcome::DidNotConverge,
            XirrOutcome::SpreadsheetNumError => outcome@.rate() is None && outcome@.root_count()
                == 0 && outcome@ == Outcome::SpreadsheetNumError,
        },
{
}

} // verus!
