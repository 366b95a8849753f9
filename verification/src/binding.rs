//! The surface that a scripting host calls: dates as epoch milliseconds,
//! conventions and policies as strings, and results that never hold a NaN.

use crate::double::Double;
use crate::flow;
use crate::flow::RootPolicy;
use crate::host;
use crate::host::{Call, DayCount};
use crate::payments::{DateLike, InvalidPaymentsError};
use crate::xirr;
use crate::xirr::{Outcome, XirrOutcome};
use vstd::prelude::*;

verus! {

/// `86400000.0`.
pub const MS_PER_DAY: u64 = 0x4194_9970_0000_0000;

/// `86400.0`.
pub const SECONDS_PER_DAY: u64 = 0x40f5_1800_0000_0000;

/// The first second of the year -9999.
pub const MIN_TIMESTAMP: i64 = -377_705_116_800;

/// The last second of the year 9999.
pub const MAX_TIMESTAMP: i64 = 253_402_300_799;

/// The Julian day number of the first of January 1970.
pub const EPOCH_JULIAN_DAY: i32 = 2_440_588;

/// A timestamp outside the calendar's range, as the calendar reports it.
#[verifier::external_type_specification]
#[verifier::external_body]
pub struct ExComponentRange(time::error::ComponentRange);

/// The Julian day number of the UTC day that holds a second counted from the
/// epoch.
///
/// Calls `time::OffsetDateTime::from_unix_timestamp`, and takes the date's
/// Julian day number out of its result. Without the crate's `large-dates`
/// feature it accepts the years from -9999 to 9999 and refuses every other
/// second; whole days are counted from the epoch, rounding down. Nothing is
/// said of the error but when it comes.
#[verifier::external_body]
fn julian_day_of(timestamp: i64) -> (r: Result<i32, time::error::ComponentRange>)
    ensures
        r is Ok <==> MIN_TIMESTAMP <= timestamp <= MAX_TIMESTAMP,
        r matches Ok(day) ==> day == (timestamp as int) / 86_400 + EPOCH_JULIAN_DAY,
{
    match time::OffsetDateTime::from_unix_timestamp(timestamp) {
        Ok(moment) => Ok(moment.date().to_julian_day()),
        Err(e) => Err(e),
    }
}

/// Why a call was rejected.
#[derive(Debug)]
pub enum BindingError {
    /// A date is not a finite number.
    DateNotFinite(Double),
    /// A date lies outside the calendar's range.
    InvalidDate(Double, time::error::ComponentRange),
    /// No day count convention has this name.
    UnknownDayCount(String),
    /// No root policy has this name.
    UnknownRootPolicy(String),
    /// The payments or the guess are invalid.
    InvalidPayments(InvalidPaymentsError),
}

// ---------------------------------------------------------------------------
// Dates
// ---------------------------------------------------------------------------

/// The second at which the UTC day of an instant begins.
pub open spec fn day_start(ms: Double) -> int {
    ms.quotient(Double::from_bits(MS_PER_DAY)).floored().product(
        Double::from_bits(SECONDS_PER_DAY),
    ).truncated()
}

/// The instant has a date.
pub open spec fn datable(ms: Double) -> bool {
    ms.finite() && MIN_TIMESTAMP <= day_start(ms) <= MAX_TIMESTAMP
}

/// The UTC date of an instant.
pub open spec fn date_of(ms: Double) -> DateLike {
    DateLike { day: (day_start(ms) / 86_400 + EPOCH_JULIAN_DAY) as i32 }
}

/// The UTC dates of instants.
pub open spec fn dates_of(ms: Seq<Double>) -> Seq<DateLike> {
    Seq::new(ms.len(), |i: int| date_of(ms[i]))
}

/// Every instant has a date.
pub open spec fn all_datable(ms: Seq<Double>) -> bool {
    forall|i: int| 0 <= i < ms.len() ==> datable(#[trigger] ms[i])
}

/// `ms` has no date, and `e` says why.
pub open spec fn date_error(ms: Double, e: BindingError) -> bool {
    if !ms.finite() {
        e matches BindingError::DateNotFinite(x) && x == ms
    } else {
        e matches BindingError::InvalidDate(x, _) && x == ms && !datable(ms)
    }
}

/// `e` says why the first of the instants without a date has none.
pub open spec fn first_date_error(ms: Seq<Double>, e: BindingError) -> bool {
    exists|i: int|
        0 <= i < ms.len() && !datable(#[trigger] ms[i]) && date_error(ms[i], e) && all_datable(
            ms.take(i),
        )
}

/// Epoch milliseconds to the UTC calendar day they fall on.
pub fn to_date(ms: Double) -> (r: Result<DateLike, BindingError>)
    ensures
        match r {
            Ok(date) => datable(ms) && date == date_of(ms),
            Err(e) => !datable(ms) && date_error(ms, e),
        },
{
    if !ms.is_finite() {
        return Err(BindingError::DateNotFinite(ms));
    }
    let secs = ms.over(Double::from_bits(MS_PER_DAY)).floor().times(
        Double::from_bits(SECONDS_PER_DAY),
    );
    match julian_day_of(secs.to_i64()) {
        Ok(day) => Ok(DateLike { day }),
        Err(e) => Err(BindingError::InvalidDate(ms, e)),
    }
}

/// [`to_date`] for each instant, up to the first that has no date.
pub fn to_dates(ms: &[Double]) -> (r: Result<Vec<DateLike>, BindingError>)
    ensures
        match r {
            Ok(dates) => all_datable(ms@) && dates@ == dates_of(ms@),
            Err(e) => first_date_error(ms@, e),
        },
{
    let mut dates: Vec<DateLike> = Vec::with_capacity(ms.len());
    let mut i: usize = 0;
    while i < ms.len()
        invariant
            i <= ms.len(),
            dates@.len() == i,
            forall|j: int|
                0 <= j < i ==> datable(#[trigger] ms@[j]) && dates@[j] == date_of(ms@[j]),
        decreases ms.len() - i,
    {
        match to_date(ms[i]) {
            Ok(date) => {
                dates.push(date);
            },
            Err(e) => {
                assert(!datable(ms@[i as int]));
                return Err(e);
            },
        }
        i = i + 1;
    }
    Ok(dates)
}

// ---------------------------------------------------------------------------
// Names
// ---------------------------------------------------------------------------

/// The convention of a name.
pub open spec fn convention_named(name: Seq<char>) -> Option<DayCount> {
    if name == "act/365f"@ {
        Some(DayCount::ACT_365F)
    } else if name == "act/365a"@ {
        Some(DayCount::ACT_365A)
    } else if name == "act/364"@ {
        Some(DayCount::ACT_364)
    } else if name == "act/360"@ {
        Some(DayCount::ACT_360)
    } else if name == "act/act"@ {
        Some(DayCount::ACT_ACT)
    } else if name == "act/act_isda"@ {
        Some(DayCount::ACT_ACT_ISDA)
    } else if name == "act/act_afb"@ {
        Some(DayCount::ACT_ACT_AFB)
    } else if name == "30/360"@ {
        Some(DayCount::THIRTY_360)
    } else if name == "30e/360"@ {
        Some(DayCount::THIRTY_E_360)
    } else if name == "30e+/360"@ {
        Some(DayCount::THIRTY_E_PLUS_360)
    } else if name == "30u/360"@ {
        Some(DayCount::THIRTY_U_360)
    } else if name == "nl/365"@ {
        Some(DayCount::NL_365)
    } else {
        None
    }
}

/// The policy of a name.
pub open spec fn policy_named(name: Seq<char>) -> Option<RootPolicy> {
    if name == "spreadsheet"@ || name == "spreadsheetCompat"@ {
        Some(RootPolicy::SpreadsheetCompat)
    } else if name == "spreadsheetThenRobust"@ || name == "default"@ {
        Some(RootPolicy::SpreadsheetThenRobust)
    } else if name == "lowest"@ {
        Some(RootPolicy::Lowest)
    } else if name == "closestToGuess"@ {
        Some(RootPolicy::ClosestToGuess)
    } else {
        None
    }
}

fn is_named(s: &String, name: &str) -> (r: bool)
    ensures
        r == (s@ == name@),
{
    *s == name.to_string()
}

/// The convention that a string names. None is no error.
pub fn day_count(s: Option<String>) -> (r: Result<Option<DayCount>, BindingError>)
    ensures
        match s {
            None => r == Ok::<Option<DayCount>, BindingError>(None),
            Some(name) => match convention_named(name@) {
                Some(c) => r == Ok::<Option<DayCount>, BindingError>(Some(c)),
                None => r matches Err(BindingError::UnknownDayCount(x)) && x@ == name@,
            },
        },
{
    let s = match s {
        Some(s) => s,
        None => {
            return Ok(None);
        },
    };
    let convention = if is_named(&s, "act/365f") {
        DayCount::ACT_365F
    } else if is_named(&s, "act/365a") {
        DayCount::ACT_365A
    } else if is_named(&s, "act/364") {
        DayCount::ACT_364
    } else if is_named(&s, "act/360") {
        DayCount::ACT_360
    } else if is_named(&s, "act/act") {
        DayCount::ACT_ACT
    } else if is_named(&s, "act/act_isda") {
        DayCount::ACT_ACT_ISDA
    } else if is_named(&s, "act/act_afb") {
        DayCount::ACT_ACT_AFB
    } else if is_named(&s, "30/360") {
        DayCount::THIRTY_360
    } else if is_named(&s, "30e/360") {
        DayCount::THIRTY_E_360
    } else if is_named(&s, "30e+/360") {
        DayCount::THIRTY_E_PLUS_360
    } else if is_named(&s, "30u/360") {
        DayCount::THIRTY_U_360
    } else if is_named(&s, "nl/365") {
        DayCount::NL_365
    } else {
        return Err(BindingError::UnknownDayCount(s));
    };
    Ok(Some(convention))
}

/// The policy that a string names. An unknown name is an error rather than a
/// silent default.
pub fn root_policy(s: Option<String>) -> (r: Result<Option<RootPolicy>, BindingError>)
    ensures
        match s {
            None => r == Ok::<Option<RootPolicy>, BindingError>(None),
            Some(name) => match policy_named(name@) {
                Some(p) => r == Ok::<Option<RootPolicy>, BindingError>(Some(p)),
                None => r matches Err(BindingError::UnknownRootPolicy(x)) && x@ == name@,
            },
        },
{
    let s = match s {
        Some(s) => s,
        None => {
            return Ok(None);
        },
    };
    let policy = if is_named(&s, "spreadsheet") || is_named(&s, "spreadsheetCompat") {
        RootPolicy::SpreadsheetCompat
    } else if is_named(&s, "spreadsheetThenRobust") || is_named(&s, "default") {
        RootPolicy::SpreadsheetThenRobust
    } else if is_named(&s, "lowest") {
        RootPolicy::Lowest
    } else if is_named(&s, "closestToGuess") {
        RootPolicy::ClosestToGuess
    } else {
        return Err(BindingError::UnknownRootPolicy(s));
    };
    Ok(Some(policy))
}

// ---------------------------------------------------------------------------
// Results
// ---------------------------------------------------------------------------

/// The result of a solve, with every non-answer named.
#[derive(Debug)]
pub struct XirrResult {
    /// One of `root`, `multipleRoots`, `unverifiedRate`, `noRootExists`,
    /// `didNotConverge` and `spreadsheetNumError`.
    pub status: String,
    /// The rate; none for every failure. Never a NaN.
    pub rate: Option<Double>,
    /// Every root found, ascending. Empty for every failure.
    pub roots: Vec<Double>,
}

/// The name of an outcome.
pub open spec fn status_of(outcome: Outcome) -> &'static str {
    match outcome {
        Outcome::Root(_) => "root",
        Outcome::MultipleRoots(_, _) => "multipleRoots",
        Outcome::UnverifiedRate(_, _) => "unverifiedRate",
        Outcome::NoRootExists => "noRootExists",
        Outcome::DidNotConverge => "didNotConverge",
        Outcome::SpreadsheetNumError => "spreadsheetNumError",
    }
}

/// The roots of an outcome.
pub open spec fn roots_of(outcome: Outcome) -> Seq<Double> {
    match outcome {
        Outcome::Root(r) => seq![r],
        Outcome::MultipleRoots(_, all) => all,
        Outcome::UnverifiedRate(_, roots) => roots,
        _ => Seq::empty(),
    }
}

impl XirrResult {
    /// The result says what the outcome says.
    pub open spec fn reports(&self, outcome: Outcome) -> bool {
        &&& self.status@ == status_of(outcome)@
        &&& self.rate == outcome.rate()
        &&& self.roots@ == roots_of(outcome)
    }

    pub fn from_outcome(outcome: XirrOutcome) -> (r: XirrResult)
        ensures
            r.reports(outcome@),
    {
        match outcome {
            XirrOutcome::Root(r) => {
                let roots = vec![r];
                assert(roots@ =~= seq![r]);
                XirrResult { status: "root".to_string(), rate: Some(r), roots }
            },
            XirrOutcome::MultipleRoots { selected, all } => XirrResult {
                status: "multipleRoots".to_string(),
                rate: Some(selected),
                roots: all,
            },
            XirrOutcome::UnverifiedRate { rate, roots } => XirrResult {
                status: "unverifiedRate".to_string(),
                rate: Some(rate),
                roots,
            },
            XirrOutcome::NoRootExists => XirrResult {
                status: "noRootExists".to_string(),
                rate: None,
                roots: Vec::new(),
            },
            XirrOutcome::DidNotConverge => XirrResult {
                status: "didNotConverge".to_string(),
                rate: None,
                roots: Vec::new(),
            },
            XirrOutcome::SpreadsheetNumError => XirrResult {
                status: "spreadsheetNumError".to_string(),
                rate: None,
                roots: Vec::new(),
            },
        }
    }
}

/// `v` where it is finite.
pub fn finite(v: Double) -> (r: Option<Double>)
    ensures
        r == if v.finite() { Some(v) } else { None },
{
    if v.is_finite() {
        Some(v)
    } else {
        None
    }
}

// ---------------------------------------------------------------------------
// Calls
// ---------------------------------------------------------------------------

/// The convention that an argument names.
pub open spec fn chosen_convention(s: Option<String>) -> Option<DayCount> {
    match s {
        None => None,
        Some(name) => convention_named(name@),
    }
}

/// The policy that an argument names.
pub open spec fn chosen_policy(s: Option<String>) -> Option<RootPolicy> {
    match s {
        None => None,
        Some(name) => policy_named(name@),
    }
}

/// The dates can be read, and the convention is known.
pub open spec fn readable(ms: Seq<Double>, convention: Option<String>) -> bool {
    &&& all_datable(ms)
    &&& convention is None || chosen_convention(convention) is Some
}

/// `e` says why dates or convention cannot be read. Dates come first.
pub open spec fn read_error(ms: Seq<Double>, convention: Option<String>, e: BindingError) -> bool {
    if !all_datable(ms) {
        first_date_error(ms, e)
    } else {
        &&& convention is Some && chosen_convention(convention) is None
        &&& e matches BindingError::UnknownDayCount(x) && x@ == convention->0@
    }
}

/// The policy is known.
pub open spec fn policy_known(policy: Option<String>) -> bool {
    policy is None || chosen_policy(policy) is Some
}

/// `e` says that the policy is not known.
pub open spec fn policy_error(policy: Option<String>, e: BindingError) -> bool {
    &&& !policy_known(policy)
    &&& e matches BindingError::UnknownRootPolicy(x) && x@ == policy->0@
}

/// Reads the dates and the convention.
fn read(ms: &[Double], convention: Option<String>) -> (r: Result<
    (Vec<DateLike>, Option<DayCount>),
    BindingError,
>)
    ensures
        match r {
            Ok(args) => {
                &&& readable(ms@, convention)
                &&& args.0@ == dates_of(ms@)
                &&& args.1 == chosen_convention(convention)
            },
            Err(e) => !readable(ms@, convention) && read_error(ms@, convention, e),
        },
{
    let dates = match to_dates(ms) {
        Ok(dates) => dates,
        Err(e) => {
            return Err(e);
        },
    };
    match day_count(convention) {
        Ok(dc) => Ok((dates, dc)),
        Err(e) => Err(e),
    }
}

/// Internal rate of return for an irregular schedule, with every non-answer
/// named.
pub fn xirr<H>(
    host: &H,
    dates: &[Double],
    amounts: &[Double],
    guess: Option<Double>,
    day_count_convention: Option<String>,
    policy: Option<String>,
) -> (r: Result<XirrResult, BindingError>)
    where H: Fn(Call) -> Double
    requires
        host::total(*host),
    ensures
        match r {
            Ok(result) => {
                let dc = chosen_convention(day_count_convention);
                let p = xirr::policy_or_default(chosen_policy(policy));
                &&& readable(dates@, day_count_convention)
                &&& policy_known(policy)
                &&& xirr::solve_error(dates_of(dates@), amounts@, guess) is None
                &&& forall|m: spec_fn(Call) -> Double| #[trigger]
                    host::follows(*host, m) ==> {
                        let flow = flow::flow_of(m, dates_of(dates@), amounts@, dc);
                        let rate = flow.rate(m, xirr::guess_or_default(guess), p);
                        result.reports(xirr::outcome_of(flow, m, rate, p))
                    }
            },
            Err(e) => if !readable(dates@, day_count_convention) {
                read_error(dates@, day_count_convention, e)
            } else if !policy_known(policy) {
                policy_error(policy, e)
            } else {
                e matches BindingError::InvalidPayments(x) && xirr::solve_error(
                    dates_of(dates@),
                    amounts@,
                    guess,
                ) == Some(x)
            },
        },
{
    let (d, dc) = match read(dates, day_count_convention) {
        Ok(args) => args,
        Err(e) => {
            return Err(e);
        },
    };
    let p = match root_policy(policy) {
        Ok(p) => p,
        Err(e) => {
            return Err(e);
        },
    };
    match xirr::xirr_outcome(host, &d, amounts, guess, dc, p) {
        Ok(outcome) => Ok(XirrResult::from_outcome(outcome)),
        Err(e) => Err(BindingError::InvalidPayments(e)),
    }
}

/// The rate alone, or none if there is not one.
pub fn xirr_rate<H>(
    host: &H,
    dates: &[Double],
    amounts: &[Double],
    guess: Option<Double>,
    day_count_convention: Option<String>,
    policy: Option<String>,
) -> (r: Result<Option<Double>, BindingError>)
    where H: Fn(Call) -> Double
    requires
        host::total(*host),
    ensures
        match r {
            Ok(found) => {
                let dc = chosen_convention(day_count_convention);
                let p = xirr::policy_or_default(chosen_policy(policy));
                &&& readable(dates@, day_count_convention)
                &&& policy_known(policy)
                &&& xirr::solve_error(dates_of(dates@), amounts@, guess) is None
                &&& found matches Some(rate) ==> rate.finite()
                &&& forall|m: spec_fn(Call) -> Double| #[trigger]
                    host::follows(*host, m) ==> {
                        let flow = flow::flow_of(m, dates_of(dates@), amounts@, dc);
                        let rate = flow.rate(m, xirr::guess_or_default(guess), p);
                        found == if rate.finite() { Some(rate) } else { None }
                    }
            },
            Err(e) => if !readable(dates@, day_count_convention) {
                read_error(dates@, day_count_convention, e)
            } else if !policy_known(policy) {
                policy_error(policy, e)
            } else {
                e matches BindingError::InvalidPayments(x) && xirr::solve_error(
                    dates_of(dates@),
                    amounts@,
                    guess,
                ) == Some(x)
            },
        },
{
    let (d, dc) = match read(dates, day_count_convention) {
        Ok(args) => args,
        Err(e) => {
            return Err(e);
        },
    };
    let p = match root_policy(policy) {
        Ok(p) => p,
        Err(e) => {
            return Err(e);
        },
    };
    match xirr::xirr(host, &d, amounts, guess, dc, p) {
        Ok(rate) => Ok(finite(rate)),
        Err(e) => Err(BindingError::InvalidPayments(e)),
    }
}

/// Net present value of an irregular schedule at a rate.
pub fn xnpv<H>(
    host: &H,
    rate: Double,
    dates: &[Double],
    amounts: &[Double],
    day_count_convention: Option<String>,
) -> (r: Result<Double, BindingError>)
    where H: Fn(Call) -> Double
    requires
        host::total(*host),
    ensures
        match r {
            Ok(value) => {
                let dc = chosen_convention(day_count_convention);
                &&& readable(dates@, day_count_convention)
                &&& amounts@.len() == dates@.len()
                &&& dates@.len() == 0 ==> value == Double::from_bits(0)
                &&& dates@.len() > 0 ==> forall|m: spec_fn(Call) -> Double| #[trigger]
                    host::follows(*host, m) ==> value == flow::flow_of(
                        m,
                        dates_of(dates@),
                        amounts@,
                        dc,
                    ).npv(m, rate).0
            },
            Err(e) => if !readable(dates@, day_count_convention) {
                read_error(dates@, day_count_convention, e)
            } else {
                &&& amounts@.len() != dates@.len()
                &&& e matches BindingError::InvalidPayments(x) && x
                    == InvalidPaymentsError::DifferentLengths
            },
        },
{
    let (d, dc) = match read(dates, day_count_convention) {
        Ok(args) => args,
        Err(e) => {
            return Err(e);
        },
    };
    match xirr::xnpv(host, rate, &d, amounts, dc) {
        Ok(value) => Ok(value),
        Err(e) => Err(BindingError::InvalidPayments(e)),
    }
}

/// Every rate found at which the net present value crosses zero, ascending.
pub fn xirr_all_roots<H>(
    host: &H,
    dates: &[Double],
    amounts: &[Double],
    day_count_convention: Option<String>,
) -> (r: Result<Vec<Double>, BindingError>)
    where H: Fn(Call) -> Double
    requires
        host::total(*host),
    ensures
        match r {
            Ok(roots) => {
                let dc = chosen_convention(day_count_convention);
                &&& readable(dates@, day_count_convention)
                &&& flow::payment_error(dates_of(dates@), amounts@) is None
                &&& forall|m: spec_fn(Call) -> Double| #[trigger]
                    host::follows(*host, m) ==> roots@ == flow::flow_of(
                        m,
                        dates_of(dates@),
                        amounts@,
                        dc,
                    ).roots(m)
            },
            Err(e) => if !readable(dates@, day_count_convention) {
                read_error(dates@, day_count_convention, e)
            } else {
                e matches BindingError::InvalidPayments(x) && flow::payment_error(
                    dates_of(dates@),
                    amounts@,
                ) == Some(x)
            },
        },
{
    let (d, dc) = match read(dates, day_count_convention) {
        Ok(args) => args,
        Err(e) => {
            return Err(e);
        },
    };
    match xirr::xirr_all_roots(host, &d, amounts, dc) {
        Ok(roots) => Ok(roots),
        Err(e) => Err(BindingError::InvalidPayments(e)),
    }
}

/// Sign changes of the cash flow once netted by date.
pub fn sign_changes<H>(
    host: &H,
    dates: &[Double],
    amounts: &[Double],
    day_count_convention: Option<String>,
) -> (r: Result<u32, BindingError>)
    where H: Fn(Call) -> Double
    requires
        host::total(*host),
    ensures
        match r {
            Ok(n) => {
                let dc = chosen_convention(day_count_convention);
                &&& readable(dates@, day_count_convention)
                &&& amounts@.len() == dates@.len()
                &&& forall|m: spec_fn(Call) -> Double| #[trigger]
                    host::follows(*host, m) ==> n == flow::flow_of(
                        m,
                        dates_of(dates@),
                        amounts@,
                        dc,
                    ).change_count() as u32
            },
            Err(e) => if !readable(dates@, day_count_convention) {
                read_error(dates@, day_count_convention, e)
            } else {
                &&& amounts@.len() != dates@.len()
                &&& e matches BindingError::InvalidPayments(x) && x
                    == InvalidPaymentsError::DifferentLengths
            },
        },
{
    let (d, dc) = match read(dates, day_count_convention) {
        Ok(args) => args,
        Err(e) => {
            return Err(e);
        },
    };
    match xirr::sign_changes(host, &d, amounts, dc) {
        Ok(n) => Ok(#[verifier::truncate] (n as u32)),
        Err(e) => Err(BindingError::InvalidPayments(e)),
    }
}

} // verus!
