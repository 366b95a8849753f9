//! What the solver asks of its surroundings: the elementary functions, whose
//! last digit the platform decides, and the year fractions of the day count
//! conventions whose years vary with the calendar.

use crate::double::Double;
use vstd::prelude::*;

verus! {

/// Day count conventions.
#[derive(Clone, Copy, Debug, PartialEq, Eq, Structural)]
#[allow(non_camel_case_types)]
pub enum DayCount {
    ACT_365F,
    ACT_365A,
    ACT_364,
    ACT_360,
    ACT_ACT,
    ACT_ACT_ISDA,
    ACT_ACT_AFB,
    THIRTY_360,
    THIRTY_E_360,
    THIRTY_E_PLUS_360,
    THIRTY_U_360,
    NL_365,
}

/// One question to the surroundings, answered with a number.
#[derive(Clone, Copy, Debug)]
pub enum Call {
    /// `e` to the power of the argument.
    Exp(Double),
    /// The natural logarithm of one plus the argument.
    Ln1p(Double),
    /// `e` to the power of the argument, less one.
    ExpM1(Double),
    /// The first argument to the power of the second.
    Powf(Double, Double),
    /// The years from the first day to the second under a convention that does
    /// not divide days by a fixed number. Days are day numbers.
    YearFraction(DayCount, i32, i32),
}

/// `f` can be called on anything.
pub open spec fn total<A, B, F: Fn(A) -> B>(f: F) -> bool {
    forall|x: A| #[trigger] call_requires(f, (x,))
}

/// `f` answers as the function `m` does.
pub open spec fn follows<A, B, F: Fn(A) -> B>(f: F, m: spec_fn(A) -> B) -> bool {
    forall|x: A, y: B| #[trigger] call_ensures(f, (x,), y) ==> y == m(x)
}

} // verus!
