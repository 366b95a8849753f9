//! Dated payments: what makes them valid, and the year fractions between them.

use crate::double::Double;
use crate::host;
use crate::host::{Call, DayCount};
use crate::integers;
use vstd::prelude::*;

verus! {

/// `365.0`, the days of a year under ACT/365F.
pub const DAYS_PER_YEAR: u64 = 0x4076_d000_0000_0000;

/// `364.0`, the days of a year under ACT/364.
pub const DAYS_PER_YEAR_364: u64 = 0x4076_c000_0000_0000;

/// `360.0`, the days of a year under ACT/360.
pub const DAYS_PER_YEAR_360: u64 = 0x4076_8000_0000_0000;

/// A calendar day, held as its number on a count of days without gaps.
#[derive(Clone, Copy, Debug, PartialEq, Eq, Structural)]
pub struct DateLike {
    pub day: i32,
}

/// Why payments or their arguments were rejected.
#[derive(Clone, Copy, Debug, PartialEq, Eq, Structural)]
pub enum InvalidPaymentsError {
    /// There are not as many amounts as dates.
    DifferentLengths,
    /// No amount is positive, or none is negative.
    OneSided,
    /// A date precedes the first one.
    DateBeforeFirst,
    /// The guess is not finite, or not greater than `-1`.
    InvalidGuess,
}

impl InvalidPaymentsError {
    /// The reason in words.
    pub open spec fn text(self) -> &'static str {
        match self {
            InvalidPaymentsError::DifferentLengths =>
                "the amounts and dates arrays are of different lengths",
            InvalidPaymentsError::OneSided => "negative and positive payments are required",
            InvalidPaymentsError::DateBeforeFirst =>
                "all dates must be on or after the first date",
            InvalidPaymentsError::InvalidGuess => "guess must be a finite number greater than -1",
        }
    }

    pub fn message(self) -> (s: &'static str)
        ensures
            s@ == self.text()@,
    {
        match self {
            InvalidPaymentsError::DifferentLengths => {
                "the amounts and dates arrays are of different lengths"
            },
            InvalidPaymentsError::OneSided => "negative and positive payments are required",
            InvalidPaymentsError::DateBeforeFirst => "all dates must be on or after the first date",
            InvalidPaymentsError::InvalidGuess => "guess must be a finite number greater than -1",
        }
    }
}

/// Some number in `s` is greater than zero.
pub open spec fn some_positive(s: Seq<Double>) -> bool {
    exists|i: int| 0 <= i < s.len() && (#[trigger] s[i]).positive()
}

/// Some number in `s` is less than zero.
pub open spec fn some_negative(s: Seq<Double>) -> bool {
    exists|i: int| 0 <= i < s.len() && (#[trigger] s[i]).opposite().positive()
}

/// Some date precedes the first.
pub open spec fn some_before_first(dates: Seq<DateLike>) -> bool {
    exists|i: int| 0 <= i < dates.len() && (#[trigger] dates[i]).day < dates[0].day
}

/// There are as many amounts as dates.
pub fn validate_length(amounts: &[Double], dates: &[DateLike]) -> (r: Result<
    (),
    InvalidPaymentsError,
>)
    ensures
        r == if amounts@.len() == dates@.len() {
            Ok(())
        } else {
            Err::<(), InvalidPaymentsError>(InvalidPaymentsError::DifferentLengths)
        },
{
    if amounts.len() == dates.len() {
        Ok(())
    } else {
        Err(InvalidPaymentsError::DifferentLengths)
    }
}

/// There are as many amounts as dates, and amounts of both signs.
pub fn validate(amounts: &[Double], dates: &[DateLike]) -> (r: Result<(), InvalidPaymentsError>)
    ensures
        r == if amounts@.len() != dates@.len() {
            Err::<(), InvalidPaymentsError>(InvalidPaymentsError::DifferentLengths)
        } else if !(some_positive(amounts@) && some_negative(amounts@)) {
            Err(InvalidPaymentsError::OneSided)
        } else {
            Ok(())
        },
{
    if amounts.len() != dates.len() {
        return Err(InvalidPaymentsError::DifferentLengths);
    }
    let mut positive = false;
    let mut negative = false;
    let mut i: usize = 0;
    while i < amounts.len()
        invariant
            i <= amounts.len(),
            positive == exists|j: int| 0 <= j < i && (#[trigger] amounts@[j]).positive(),
            negative == exists|j: int|
                0 <= j < i && (#[trigger] amounts@[j]).opposite().positive(),
        decreases amounts.len() - i,
    {
        let a = amounts[i];
        assert(amounts@[i as int] == a);
        if a.is_positive() {
            positive = true;
        }
        if a.neg().is_positive() {
            negative = true;
        }
        i = i + 1;
    }
    if positive && negative {
        Ok(())
    } else {
        Err(InvalidPaymentsError::OneSided)
    }
}

/// No date may precede the first one: a spreadsheet reports an error there
/// rather than reordering.
pub fn reject_dates_before_the_first(dates: &[DateLike]) -> (r: Result<(), InvalidPaymentsError>)
    ensures
        r == if some_before_first(dates@) {
            Err::<(), InvalidPaymentsError>(InvalidPaymentsError::DateBeforeFirst)
        } else {
            Ok(())
        },
{
    let mut i: usize = 1;
    while i < dates.len()
        invariant
            1 <= i,
            i <= dates.len() || (i == 1 && dates.len() == 0),
            forall|j: int| 0 <= j < i && j < dates.len() ==> dates@[0].day <= (
            #[trigger] dates@[j]).day,
        decreases dates.len() - i,
    {
        if dates[i].day < dates[0].day {
            assert(dates@[i as int].day < dates@[0].day);
            return Err(InvalidPaymentsError::DateBeforeFirst);
        }
        i = i + 1;
    }
    Ok(())
}

/// The days of a year under a convention that counts days and divides them by a
/// fixed number; none under the others.
pub open spec fn fixed_year(convention: DayCount) -> Option<Double> {
    match convention {
        DayCount::ACT_365F => Some(Double::from_bits(DAYS_PER_YEAR)),
        DayCount::ACT_364 => Some(Double::from_bits(DAYS_PER_YEAR_364)),
        DayCount::ACT_360 => Some(Double::from_bits(DAYS_PER_YEAR_360)),
        _ => None,
    }
}

fn days_of_a_year(convention: DayCount) -> (r: Option<Double>)
    ensures
        r == fixed_year(convention),
{
    match convention {
        DayCount::ACT_365F => Some(Double::from_bits(DAYS_PER_YEAR)),
        DayCount::ACT_364 => Some(Double::from_bits(DAYS_PER_YEAR_364)),
        DayCount::ACT_360 => Some(Double::from_bits(DAYS_PER_YEAR_360)),
        _ => None,
    }
}

/// Years from one day to another under a convention: the days between, over the
/// days of a year, where a year has a fixed number of them.
pub open spec fn year_fraction(
    m: spec_fn(Call) -> Double,
    first: DateLike,
    date: DateLike,
    convention: DayCount,
) -> Double {
    match fixed_year(convention) {
        Some(year) => integers::whole(date.day - first.day).quotient(year),
        None => m(Call::YearFraction(convention, first.day, date.day)),
    }
}

/// The convention to use where none is given.
pub open spec fn convention_or_default(day_count: Option<DayCount>) -> DayCount {
    match day_count {
        Some(convention) => convention,
        None => DayCount::ACT_365F,
    }
}

/// Years from the first date, in input order, to each date.
pub open spec fn year_fraction_seq(
    m: spec_fn(Call) -> Double,
    dates: Seq<DateLike>,
    day_count: Option<DayCount>,
) -> Seq<Double> {
    Seq::new(
        dates.len(),
        |i: int| year_fraction(m, dates[0], dates[i], convention_or_default(day_count)),
    )
}

/// Year fractions measured from the first payment in input order, which need
/// not be the earliest.
pub fn year_fractions<H>(
    host: &H,
    dates: &[DateLike],
    day_count: Option<DayCount>,
) -> (deltas: Vec<Double>)
    where H: Fn(Call) -> Double
    requires
        host::total(*host),
    ensures
        deltas@.len() == dates@.len(),
        forall|m: spec_fn(Call) -> Double| #[trigger]
            host::follows(*host, m) ==> deltas@ == year_fraction_seq(m, dates@, day_count),
{
    let convention = match day_count {
        Some(convention) => convention,
        None => DayCount::ACT_365F,
    };
    let fixed = days_of_a_year(convention);
    let mut deltas: Vec<Double> = Vec::with_capacity(dates.len());
    let mut i: usize = 0;
    while i < dates.len()
        invariant
            host::total(*host),
            convention == convention_or_default(day_count),
            fixed == fixed_year(convention),
            i <= dates.len(),
            deltas@.len() == i,
            forall|m: spec_fn(Call) -> Double| #[trigger]
                host::follows(*host, m) ==> forall|j: int|
                    0 <= j < i ==> #[trigger] deltas@[j] == year_fraction(
                        m,
                        dates@[0],
                        dates@[j],
                        convention,
                    ),
        decreases dates.len() - i,
    {
        let delta = match fixed {
            Some(year) => {
                let days: i64 = dates[i].day as i64 - dates[0].day as i64;
                Double::from_i64(days).over(year)
            },
            None => host(Call::YearFraction(convention, dates[0].day, dates[i].day)),
        };
        deltas.push(delta);
        i = i + 1;
    }
    deltas
}

} // verus!
