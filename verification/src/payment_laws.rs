//! What payments mean: when they are due, which are refused, and which guess and
//! policy a solve goes by.

use crate::double::{Double, MINUS_ONE};
use crate::flow;
use crate::flow::RootPolicy;
use crate::host::{Call, DayCount};
use crate::integers;
use crate::payments;
use crate::payments::{DateLike, InvalidPaymentsError};
use crate::xirr;
use crate::xirr_laws;
use vstd::prelude::*;

verus! {

// ---------------------------------------------------------------------------
// When payments are due
// ---------------------------------------------------------------------------

/// Years run from the first date to the date of the payment, in that order:
/// three conventions divide the days between by 365, 364 and 360, and every other
/// one is what the surroundings answer for that span.
pub proof fn law_years_run_from_the_first_date(
    m: spec_fn(Call) -> Double,
    first: DateLike,
    date: DateLike,
    convention: DayCount,
)
    ensures
        ({
            let years = payments::year_fraction(m, first, date, convention);
            let days = integers::whole(date.day - first.day);
            &&& convention == DayCount::ACT_365F ==> years == days.quotient(
                Double::from_bits(0x4076_d000_0000_0000),
            )
            &&& convention == DayCount::ACT_364 ==> years == days.quotient(
                Double::from_bits(0x4076_c000_0000_0000),
            )
            &&& convention == DayCount::ACT_360 ==> years == days.quotient(
                Double::from_bits(0x4076_8000_0000_0000),
            )
            &&& convention != DayCount::ACT_365F && convention != DayCount::ACT_364 && convention
                != DayCount::ACT_360 ==> years == m(
                Call::YearFraction(convention, first.day, date.day),
            )
        }),
{
}

/// Each payment has the year fraction of its own date, counted from the first
/// date in input order. Without a convention, days are divided by 365.
pub proof fn law_year_fractions_keep_their_places(
    m: spec_fn(Call) -> Double,
    dates: Seq<DateLike>,
    amounts: Seq<Double>,
    day_count: Option<DayCount>,
    i: int,
)
    requires
        0 <= i < dates.len(),
    ensures
        flow::flow_of(m, dates, amounts, day_count).amounts == amounts,
        flow::flow_of(m, dates, amounts, day_count).deltas.len() == dates.len(),
        day_count matches Some(convention) ==> flow::flow_of(
            m,
            dates,
            amounts,
            day_count,
        ).deltas[i] == payments::year_fraction(m, dates[0], dates[i], convention),
        day_count is None ==> flow::flow_of(m, dates, amounts, day_count).deltas[i]
            == integers::whole(dates[i].day - dates[0].day).quotient(
            Double::from_bits(0x4076_d000_0000_0000),
        ),
{
}

/// Surroundings that answer later dates with more years make later payments due
/// later, under every convention they are asked for.
pub proof fn law_later_payments_are_due_later(
    m: spec_fn(Call) -> Double,
    dates: Seq<DateLike>,
    amounts: Seq<Double>,
    convention: DayCount,
    i: int,
    j: int,
)
    requires
        convention != DayCount::ACT_365F,
        convention != DayCount::ACT_364,
        convention != DayCount::ACT_360,
        forall|from: i32, a: i32, b: i32|
            #![trigger m(Call::YearFraction(convention, from, a)), m(
                Call::YearFraction(convention, from, b),
            )]
            a < b ==> m(Call::YearFraction(convention, from, a)).lt(
                m(Call::YearFraction(convention, from, b)),
            ),
        0 <= i < dates.len(),
        0 <= j < dates.len(),
        dates[i].day < dates[j].day,
    ensures
        ({
            let deltas = flow::flow_of(m, dates, amounts, Some(convention)).deltas;
            deltas[i].lt(deltas[j])
        }),
{
    law_years_run_from_the_first_date(m, dates[0], dates[i], convention);
    law_years_run_from_the_first_date(m, dates[0], dates[j], convention);
    law_year_fractions_keep_their_places(m, dates, amounts, Some(convention), i);
    law_year_fractions_keep_their_places(m, dates, amounts, Some(convention), j);
}

/// One more payment leaves the others where they are.
pub proof fn law_a_further_payment_moves_no_other(
    m: spec_fn(Call) -> Double,
    dates: Seq<DateLike>,
    amounts: Seq<Double>,
    day_count: Option<DayCount>,
    date: DateLike,
    amount: Double,
)
    requires
        dates.len() > 0,
    ensures
        ({
            let before = flow::flow_of(m, dates, amounts, day_count);
            let after = flow::flow_of(m, dates.push(date), amounts.push(amount), day_count);
            &&& after.amounts == before.amounts.push(amount)
            &&& after.deltas == before.deltas.push(after.deltas.last())
        }),
{
    let before = flow::flow_of(m, dates, amounts, day_count);
    let after = flow::flow_of(m, dates.push(date), amounts.push(amount), day_count);
    assert(after.deltas =~= before.deltas.push(after.deltas.last()));
}

// ---------------------------------------------------------------------------
// What is refused
// ---------------------------------------------------------------------------

/// Some amount is above zero, and some below it.
pub open spec fn both_signs(amounts: Seq<Double>) -> bool {
    &&& exists|i: int|
        0 <= i < amounts.len() && Double::from_bits(0).lt(#[trigger] amounts[i])
    &&& exists|i: int|
        0 <= i < amounts.len() && (#[trigger] amounts[i]).lt(Double::from_bits(0))
}

/// No date lies before the first.
pub open spec fn none_before_the_first(dates: Seq<DateLike>) -> bool {
    forall|i: int| 0 <= i < dates.len() ==> dates[0].day <= (#[trigger] dates[i]).day
}

/// Payments are accepted exactly if there are as many amounts as dates, amounts
/// of both signs, and no date before the first. Otherwise the first of the three
/// that fails is the error.
pub proof fn law_payments_are_refused_for_a_reason(dates: Seq<DateLike>, amounts: Seq<Double>)
    ensures
        flow::payment_error(dates, amounts) is None <==> amounts.len() == dates.len()
            && both_signs(amounts) && none_before_the_first(dates),
        flow::payment_error(dates, amounts) == Some(InvalidPaymentsError::DifferentLengths)
            <==> amounts.len() != dates.len(),
        flow::payment_error(dates, amounts) == Some(InvalidPaymentsError::OneSided)
            <==> amounts.len() == dates.len() && !both_signs(amounts),
        flow::payment_error(dates, amounts) == Some(InvalidPaymentsError::DateBeforeFirst)
            <==> amounts.len() == dates.len() && both_signs(amounts) && !none_before_the_first(
            dates,
        ),
{
    lemma_signs(amounts);
    lemma_first(dates);
}

proof fn lemma_signs(amounts: Seq<Double>)
    ensures
        payments::some_positive(amounts) && payments::some_negative(amounts) <==> both_signs(
            amounts,
        ),
{
    let zero = Double::from_bits(0);
    if payments::some_positive(amounts) {
        let i = choose|i: int| 0 <= i < amounts.len() && (#[trigger] amounts[i]).positive();
        assert(zero.lt(amounts[i]));
    }
    if payments::some_negative(amounts) {
        let i = choose|i: int|
            0 <= i < amounts.len() && (#[trigger] amounts[i]).opposite().positive();
        assert(amounts[i].lt(zero));
    }
    if both_signs(amounts) {
        let i = choose|i: int| 0 <= i < amounts.len() && zero.lt(#[trigger] amounts[i]);
        assert(amounts[i].positive());
        let j = choose|j: int| 0 <= j < amounts.len() && (#[trigger] amounts[j]).lt(zero);
        assert(amounts[j].opposite().positive());
    }
}

proof fn lemma_first(dates: Seq<DateLike>)
    ensures
        payments::some_before_first(dates) <==> !none_before_the_first(dates),
{
    if !payments::some_before_first(dates) {
        assert forall|i: int| 0 <= i < dates.len() implies dates[0].day <= (
        #[trigger] dates[i]).day by {
            assert(!(dates[i].day < dates[0].day));
        }
    }
}

/// What is refused is said in words of its own.
pub proof fn law_refusals_have_words(e: InvalidPaymentsError)
    ensures
        e.text() == match e {
            InvalidPaymentsError::DifferentLengths =>
                "the amounts and dates arrays are of different lengths",
            InvalidPaymentsError::OneSided => "negative and positive payments are required",
            InvalidPaymentsError::DateBeforeFirst =>
                "all dates must be on or after the first date",
            InvalidPaymentsError::InvalidGuess => "guess must be a finite number greater than -1",
        },
{
}

/// A guess is refused exactly if it is given and is not a finite number above
/// `-1`, and only of payments that are themselves accepted. Anything else that a
/// solve refuses, it refuses for the payments' sake.
pub proof fn law_a_guess_is_refused_for_a_reason(
    dates: Seq<DateLike>,
    amounts: Seq<Double>,
    guess: Option<Double>,
)
    ensures
        flow::payment_error(dates, amounts) is Some ==> xirr::solve_error(dates, amounts, guess)
            == flow::payment_error(dates, amounts),
        flow::payment_error(dates, amounts) is None && guess is None ==> xirr::solve_error(
            dates,
            amounts,
            guess,
        ) is None,
        flow::payment_error(dates, amounts) is None && guess is Some ==> xirr::solve_error(
            dates,
            amounts,
            guess,
        ) == if guess->0.finite() && Double::from_bits(MINUS_ONE).lt(guess->0) {
            None::<InvalidPaymentsError>
        } else {
            Some(InvalidPaymentsError::InvalidGuess)
        },
{
}

// ---------------------------------------------------------------------------
// Guess and policy
// ---------------------------------------------------------------------------

/// A guess that is given is the one used, whatever it is, and `0.1` is where none
/// is; so is a policy that is given, and the spreadsheet's answer with the robust
/// search behind it is where none is.
pub proof fn law_what_is_given_is_used(guess: Double, policy: RootPolicy)
    ensures
        xirr::guess_or_default(Some(guess)) == guess,
        xirr::guess_or_default(None) == Double::from_bits(0x3fb9_9999_9999_999a),
        xirr::policy_or_default(Some(policy)) == policy,
        xirr::policy_or_default(None) == RootPolicy::SpreadsheetThenRobust,
{
}

/// Under the closest policy the rate is a listed root no further from the guess
/// given than any other.
pub proof fn law_the_rate_is_closest_to_the_guess_given(
    m: spec_fn(Call) -> Double,
    dates: Seq<DateLike>,
    amounts: Seq<Double>,
    day_count: Option<DayCount>,
    guess: Double,
    i: int,
)
    requires
        guess.finite(),
        0 <= i < flow::flow_of(m, dates, amounts, day_count).roots(m).len(),
    ensures
        ({
            let flow = flow::flow_of(m, dates, amounts, day_count);
            let rate = flow.rate(
                m,
                xirr::guess_or_default(Some(guess)),
                xirr::policy_or_default(Some(RootPolicy::ClosestToGuess)),
            );
            &&& flow.roots(m).contains(rate)
            &&& rate.difference(guess).magnitude().le(
                flow.roots(m)[i].difference(guess).magnitude(),
            )
        }),
{
    let flow = flow::flow_of(m, dates, amounts, day_count);
    law_what_is_given_is_used(guess, RootPolicy::ClosestToGuess);
    xirr_laws::law_closest_is_the_nearest_root(flow, m, guess, i);
}

} // verus!
