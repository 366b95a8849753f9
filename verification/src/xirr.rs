//! Internal rate of return for an irregular schedule of cash flows.
//!
//! The rate is the one a spreadsheet shows, including which root it picks where
//! there are several, and the library only deviates where a spreadsheet gives
//! up.

use crate::cash_flow::CashFlow;
use crate::double::{Double, MINUS_ONE};
use crate::flow;
use crate::flow::RootPolicy;
use crate::host;
use crate::host::{Call, DayCount};
use crate::netted::{NettedFlow, Shape};
use crate::payments;
use crate::payments::{DateLike, InvalidPaymentsError};
use vstd::prelude::*;

verus! {

/// `0.1`, the starting rate where the caller gives none.
pub const DEFAULT_GUESS: u64 = 0x3fb9_9999_9999_999a;

/// The result of a solve, with every non-answer named.
#[derive(Clone, Debug, PartialEq)]
pub enum XirrOutcome {
    /// One rate solves the cash flow, and this is it.
    Root(Double),
    /// Several rates do. `selected` is what [`xirr`] returns; `all` is every
    /// root found, ascending.
    MultipleRoots { selected: Double, all: Vec<Double> },
    /// A rate was produced, but the net present value does not vanish there.
    /// `rate` is what [`xirr`] returns; `roots` are the rates at which it does.
    UnverifiedRate { rate: Double, roots: Vec<Double> },
    /// No rate can solve the cash flow: once netted, its amounts have one sign.
    NoRootExists,
    /// A root may exist, but none was found.
    DidNotConverge,
    /// The spreadsheet's error was reproduced, on a cash flow that may well
    /// have a root.
    SpreadsheetNumError,
}

/// [`XirrOutcome`] with the lists as sequences.
pub enum Outcome {
    Root(Double),
    MultipleRoots(Double, Seq<Double>),
    UnverifiedRate(Double, Seq<Double>),
    NoRootExists,
    DidNotConverge,
    SpreadsheetNumError,
}

impl View for XirrOutcome {
    type V = Outcome;

    open spec fn view(&self) -> Outcome {
        match *self {
            XirrOutcome::Root(r) => Outcome::Root(r),
            XirrOutcome::MultipleRoots { selected, all } => Outcome::MultipleRoots(selected, all@),
            XirrOutcome::UnverifiedRate { rate, roots } => Outcome::UnverifiedRate(rate, roots@),
            XirrOutcome::NoRootExists => Outcome::NoRootExists,
            XirrOutcome::DidNotConverge => Outcome::DidNotConverge,
            XirrOutcome::SpreadsheetNumError => Outcome::SpreadsheetNumError,
        }
    }
}

impl Outcome {
    /// The rate, where one was produced.
    pub open spec fn rate(self) -> Option<Double> {
        match self {
            Outcome::Root(r) => Some(r),
            Outcome::MultipleRoots(selected, _) => Some(selected),
            Outcome::UnverifiedRate(rate, _) => Some(rate),
            _ => None,
        }
    }

    /// The number of roots the outcome claims.
    pub open spec fn root_count(self) -> nat {
        match self {
            Outcome::Root(_) => 1,
            Outcome::MultipleRoots(_, all) => all.len(),
            _ => 0,
        }
    }
}

impl XirrOutcome {
    /// The rate, if one was produced.
    pub fn rate(&self) -> (r: Option<Double>)
        ensures
            r == self@.rate(),
    {
        match self {
            XirrOutcome::Root(r) => Some(*r),
            XirrOutcome::MultipleRoots { selected, all: _ } => Some(*selected),
            XirrOutcome::UnverifiedRate { rate, roots: _ } => Some(*rate),
            _ => None,
        }
    }

    /// How many roots were found. Zero where none is claimed.
    pub fn root_count(&self) -> (n: usize)
        ensures
            n == self@.root_count(),
    {
        match self {
            XirrOutcome::Root(_) => 1,
            XirrOutcome::MultipleRoots { selected: _, all } => all.len(),
            _ => 0,
        }
    }

    /// Whether the rate is one of several valid answers.
    pub fn is_ambiguous(&self) -> (r: bool)
        ensures
            r == (self@ is MultipleRoots),
    {
        match self {
            XirrOutcome::MultipleRoots { selected: _, all: _ } => true,
            _ => false,
        }
    }
}

/// The guess to use.
pub open spec fn guess_or_default(guess: Option<Double>) -> Double {
    match guess {
        Some(g) => g,
        None => Double::from_bits(DEFAULT_GUESS),
    }
}

/// The guess lies in the domain: finite, and above `-1`.
pub open spec fn guess_ok(guess: Double) -> bool {
    guess.finite() && !guess.le(Double::from_bits(MINUS_ONE))
}

/// The policy to use.
pub open spec fn policy_or_default(policy: Option<RootPolicy>) -> RootPolicy {
    match policy {
        Some(p) => p,
        None => RootPolicy::SpreadsheetThenRobust,
    }
}

/// What is wrong with the arguments of a solve, if anything.
pub open spec fn solve_error(
    dates: Seq<DateLike>,
    amounts: Seq<Double>,
    guess: Option<Double>,
) -> Option<InvalidPaymentsError> {
    match flow::payment_error(dates, amounts) {
        Some(e) => Some(e),
        None => if guess_ok(guess_or_default(guess)) {
            None
        } else {
            Some(InvalidPaymentsError::InvalidGuess)
        },
    }
}

/// The guess, or the default one where there is none. It must lie in the
/// domain.
pub fn checked_guess(guess: Option<Double>) -> (r: Result<Double, InvalidPaymentsError>)
    ensures
        r == if guess_ok(guess_or_default(guess)) {
            Ok::<Double, InvalidPaymentsError>(guess_or_default(guess))
        } else {
            Err(InvalidPaymentsError::InvalidGuess)
        },
{
    let guess = match guess {
        Some(g) => g,
        None => Double::from_bits(DEFAULT_GUESS),
    };
    if !guess.is_finite() || guess.is_le(Double::from_bits(MINUS_ONE)) {
        return Err(InvalidPaymentsError::InvalidGuess);
    }
    Ok(guess)
}

/// Internal rate of return for an irregular schedule; NaN where there is none.
pub fn xirr<H>(
    host: &H,
    dates: &[DateLike],
    amounts: &[Double],
    guess: Option<Double>,
    day_count: Option<DayCount>,
    policy: Option<RootPolicy>,
) -> (r: Result<Double, InvalidPaymentsError>)
    where H: Fn(Call) -> Double
    requires
        host::total(*host),
    ensures
        match r {
            Ok(rate) => {
                &&& solve_error(dates@, amounts@, guess) is None
                &&& forall|m: spec_fn(Call) -> Double| #[trigger]
                    host::follows(*host, m) ==> rate == flow::flow_of(
                        m,
                        dates@,
                        amounts@,
                        day_count,
                    ).rate(m, guess_or_default(guess), policy_or_default(policy))
            },
            Err(e) => solve_error(dates@, amounts@, guess) == Some(e),
        },
{
    let flow = match CashFlow::new(host, dates, amounts, day_count) {
        Ok(flow) => flow,
        Err(e) => {
            return Err(e);
        },
    };
    let guess = match checked_guess(guess) {
        Ok(guess) => guess,
        Err(e) => {
            return Err(e);
        },
    };
    let policy = match policy {
        Some(p) => p,
        None => RootPolicy::SpreadsheetThenRobust,
    };
    Ok(flow.solve(host, guess, policy))
}

/// How a rate that a policy selected is to be labelled.
pub open spec fn outcome_of(
    flow: flow::Flow,
    m: spec_fn(Call) -> Double,
    rate: Double,
    policy: RootPolicy,
) -> Outcome {
    let roots = flow.roots(m);
    if !rate.finite() {
        if flow.shape() == Shape::NoRootExists {
            Outcome::NoRootExists
        } else if policy == RootPolicy::SpreadsheetCompat {
            Outcome::SpreadsheetNumError
        } else {
            Outcome::DidNotConverge
        }
    } else if flow.change_count() < 2 {
        if flow.is_root(m, rate) {
            Outcome::Root(rate)
        } else {
            Outcome::UnverifiedRate(rate, Seq::empty())
        }
    } else if !flow.is_root(m, rate) {
        Outcome::UnverifiedRate(rate, roots)
    } else if roots.len() > 1 {
        Outcome::MultipleRoots(rate, roots)
    } else {
        Outcome::Root(rate)
    }
}

/// [`xirr`], with every non-answer named instead of collapsed to NaN. The rate
/// is the same.
///
/// A spreadsheet's search may return a rate for a flow without a sign change,
/// which no rate solves. Such a rate is handed on, as the spreadsheet's answer
/// always is, and named unverified; only where the search returns none is the
/// flow named rootless.
pub fn xirr_outcome<H>(
    host: &H,
    dates: &[DateLike],
    amounts: &[Double],
    guess: Option<Double>,
    day_count: Option<DayCount>,
    policy: Option<RootPolicy>,
) -> (r: Result<XirrOutcome, InvalidPaymentsError>)
    where H: Fn(Call) -> Double
    requires
        host::total(*host),
    ensures
        match r {
            Ok(outcome) => {
                &&& solve_error(dates@, amounts@, guess) is None
                &&& forall|m: spec_fn(Call) -> Double| #[trigger]
                    host::follows(*host, m) ==> outcome@ == outcome_of(
                        flow::flow_of(m, dates@, amounts@, day_count),
                        m,
                        flow::flow_of(m, dates@, amounts@, day_count).rate(
                            m,
                            guess_or_default(guess),
                            policy_or_default(policy),
                        ),
                        policy_or_default(policy),
                    )
            },
            Err(e) => solve_error(dates@, amounts@, guess) == Some(e),
        },
{
    let flow = match CashFlow::new(host, dates, amounts, day_count) {
        Ok(flow) => flow,
        Err(e) => {
            return Err(e);
        },
    };
    let guess = match checked_guess(guess) {
        Ok(guess) => guess,
        Err(e) => {
            return Err(e);
        },
    };
    let policy = match policy {
        Some(p) => p,
        None => RootPolicy::SpreadsheetThenRobust,
    };
    let rate = flow.solve(host, guess, policy);
    Ok(label(host, &flow, rate, policy))
}

/// Labels a rate that a policy selected.
fn label<H>(host: &H, flow: &CashFlow, rate: Double, policy: RootPolicy) -> (outcome: XirrOutcome)
    where H: Fn(Call) -> Double
    requires
        host::total(*host),
        flow.wf(),
    ensures
        forall|m: spec_fn(Call) -> Double| #[trigger]
            host::follows(*host, m) ==> outcome@ == outcome_of(flow@, m, rate, policy),
{
    if !rate.is_finite() {
        return match flow.netted.shape() {
            Shape::NoRootExists => XirrOutcome::NoRootExists,
            _ => {
                if policy == RootPolicy::SpreadsheetCompat {
                    XirrOutcome::SpreadsheetNumError
                } else {
                    XirrOutcome::DidNotConverge
                }
            },
        };
    }
    if flow.netted.sign_changes() < 2 {
        return if flow.is_root(host, rate) {
            XirrOutcome::Root(rate)
        } else {
            let roots: Vec<Double> = Vec::new();
            XirrOutcome::UnverifiedRate { rate, roots }
        };
    }
    let all = flow.roots(host);
    if !flow.is_root(host, rate) {
        return XirrOutcome::UnverifiedRate { rate, roots: all };
    }
    if all.len() > 1 {
        XirrOutcome::MultipleRoots { selected: rate, all }
    } else {
        XirrOutcome::Root(rate)
    }
}

/// Every rate found at which the net present value crosses zero, ascending.
pub fn xirr_all_roots<H>(
    host: &H,
    dates: &[DateLike],
    amounts: &[Double],
    day_count: Option<DayCount>,
) -> (r: Result<Vec<Double>, InvalidPaymentsError>)
    where H: Fn(Call) -> Double
    requires
        host::total(*host),
    ensures
        match r {
            Ok(roots) => {
                &&& flow::payment_error(dates@, amounts@) is None
                &&& forall|m: spec_fn(Call) -> Double| #[trigger]
                    host::follows(*host, m) ==> roots@ == flow::flow_of(
                        m,
                        dates@,
                        amounts@,
                        day_count,
                    ).roots(m)
            },
            Err(e) => flow::payment_error(dates@, amounts@) == Some(e),
        },
{
    match CashFlow::new(host, dates, amounts, day_count) {
        Ok(flow) => Ok(flow.roots(host)),
        Err(e) => Err(e),
    }
}

/// Net present value of an irregular schedule at a rate. Needs no amounts of
/// both signs, so that it can check any rate.
pub fn xnpv<H>(
    host: &H,
    rate: Double,
    dates: &[DateLike],
    amounts: &[Double],
    day_count: Option<DayCount>,
) -> (r: Result<Double, InvalidPaymentsError>)
    where H: Fn(Call) -> Double
    requires
        host::total(*host),
    ensures
        match r {
            Ok(value) => {
                &&& amounts@.len() == dates@.len()
                &&& dates@.len() == 0 ==> value == Double::from_bits(0)
                &&& dates@.len() > 0 ==> forall|m: spec_fn(Call) -> Double| #[trigger]
                    host::follows(*host, m) ==> value == flow::flow_of(
                        m,
                        dates@,
                        amounts@,
                        day_count,
                    ).npv(m, rate).0
            },
            Err(e) => amounts@.len() != dates@.len() && e
                == InvalidPaymentsError::DifferentLengths,
        },
{
    match payments::validate_length(amounts, dates) {
        Ok(_) => {},
        Err(e) => {
            return Err(e);
        },
    }
    if dates.len() == 0 {
        return Ok(Double::from_bits(0));
    }
    Ok(CashFlow::unvalidated(host, amounts, dates, day_count).xnpv(host, rate))
}

/// Sign changes of the cash flow once netted by date: what bounds the number of
/// its roots.
pub fn sign_changes<H>(
    host: &H,
    dates: &[DateLike],
    amounts: &[Double],
    day_count: Option<DayCount>,
) -> (r: Result<usize, InvalidPaymentsError>)
    where H: Fn(Call) -> Double
    requires
        host::total(*host),
    ensures
        match r {
            Ok(n) => {
                &&& amounts@.len() == dates@.len()
                &&& forall|m: spec_fn(Call) -> Double| #[trigger]
                    host::follows(*host, m) ==> n == flow::flow_of(
                        m,
                        dates@,
                        amounts@,
                        day_count,
                    ).change_count()
            },
            Err(e) => amounts@.len() != dates@.len() && e
                == InvalidPaymentsError::DifferentLengths,
        },
{
    match payments::validate_length(amounts, dates) {
        Ok(_) => {},
        Err(e) => {
            return Err(e);
        },
    }
    let deltas = payments::year_fractions(host, dates, day_count);
    Ok(NettedFlow::new(&deltas, amounts).sign_changes())
}

} // verus!
