//! The outer surface: dates as epoch milliseconds, names as strings, and
//! results without a NaN.

use xirr::binding::{
    day_count, finite, root_policy, sign_changes, to_date, to_dates, xirr, xirr_all_roots,
    xirr_rate, xnpv, BindingError, XirrResult,
};
use xirr::double::Double;
use xirr::flow::RootPolicy;
use xirr::host::{Call, DayCount};
use xirr::payments::InvalidPaymentsError;
use xirr::xirr::XirrOutcome;

fn d(x: f64) -> Double {
    Double { bits: x.to_bits() }
}

fn f(x: Double) -> f64 {
    f64::from_bits(x.bits)
}

fn ds(v: &[f64]) -> Vec<Double> {
    v.iter().map(|x| d(*x)).collect()
}

fn host(call: Call) -> Double {
    d(match call {
        Call::Exp(x) => f(x).exp(),
        Call::Ln1p(x) => f(x).ln_1p(),
        Call::ExpM1(x) => f(x).exp_m1(),
        Call::Powf(x, y) => f(x).powf(f(y)),
        Call::YearFraction(other, _, _) => panic!("no test uses {other:?}"),
    })
}

fn name(s: &str) -> Option<String> {
    Some(s.to_string())
}

/// Midnight UTC, in epoch milliseconds.
fn utc(year: i32, month: u8, day: u8) -> f64 {
    let month = time::Month::try_from(month).unwrap();
    let date = time::Date::from_calendar_date(year, month, day).unwrap();
    (date.to_julian_day() as f64 - 2_440_588.0) * 86_400_000.0
}

fn quick_start() -> (Vec<Double>, Vec<Double>) {
    (
        ds(&[utc(2020, 1, 1), utc(2021, 1, 1), utc(2022, 1, 1)]),
        ds(&[-1000.0, 750.0, 500.0]),
    )
}

#[test]
fn instants_fall_on_the_utc_day_that_holds_them() {
    for (ms, day) in [
        (0.0, 2_440_588),
        (1.0, 2_440_588),
        (86_399_999.0, 2_440_588),
        (86_400_000.0, 2_440_589),
        (-1.0, 2_440_587),
        (-86_400_000.0, 2_440_587),
        (-86_400_001.0, 2_440_586),
        (0.5, 2_440_588),
        (-0.5, 2_440_587),
        (1_577_836_800_000.0, 2_458_850),
    ] {
        assert_eq!(to_date(d(ms)).unwrap().day, day, "{ms}");
    }
}

#[test]
fn every_day_of_the_calendar_is_read_from_both_its_ends() {
    let mut day = -4_371_587i64;
    while day <= 2_932_896 {
        let start = day * 86_400_000;
        for ms in [start, start + 1, start + 86_399_999] {
            let got = to_date(d(ms as f64)).unwrap().day as i64;
            assert_eq!(got, day + 2_440_588, "{ms}");
        }
        day += 997;
    }
}

#[test]
fn dates_outside_the_calendar_are_refused() {
    for bad in [f64::NAN, f64::INFINITY, f64::NEG_INFINITY] {
        assert!(matches!(to_date(d(bad)), Err(BindingError::DateNotFinite(_))), "{bad}");
    }
    let last = 2_932_896.0 * 86_400_000.0;
    let first = -4_371_587.0 * 86_400_000.0;
    assert_eq!(to_date(d(last + 86_399_999.0)).unwrap().day, 5_373_484);
    assert_eq!(to_date(d(first)).unwrap().day, -1_930_999);
    for bad in [last + 86_400_000.0, first - 1.0, 1e300, -1e300] {
        match to_date(d(bad)) {
            Err(BindingError::InvalidDate(ms, _)) => assert_eq!(f(ms), bad),
            other => panic!("{bad}: {other:?}"),
        }
    }
}

#[test]
fn the_first_bad_date_is_the_one_reported() {
    let dates = to_dates(&ds(&[0.0, 86_400_000.0])).unwrap();
    assert_eq!(dates.iter().map(|x| x.day).collect::<Vec<_>>(), vec![2_440_588, 2_440_589]);
    match to_dates(&ds(&[0.0, 1e300, f64::NAN])) {
        Err(BindingError::InvalidDate(ms, _)) => assert_eq!(f(ms), 1e300),
        other => panic!("{other:?}"),
    }
    assert!(to_dates(&[]).unwrap().is_empty());
}

#[test]
fn conventions_go_by_their_names() {
    for (s, convention) in [
        ("act/365f", DayCount::ACT_365F),
        ("act/365a", DayCount::ACT_365A),
        ("act/364", DayCount::ACT_364),
        ("act/360", DayCount::ACT_360),
        ("act/act", DayCount::ACT_ACT),
        ("act/act_isda", DayCount::ACT_ACT_ISDA),
        ("act/act_afb", DayCount::ACT_ACT_AFB),
        ("30/360", DayCount::THIRTY_360),
        ("30e/360", DayCount::THIRTY_E_360),
        ("30e+/360", DayCount::THIRTY_E_PLUS_360),
        ("30u/360", DayCount::THIRTY_U_360),
        ("nl/365", DayCount::NL_365),
    ] {
        assert_eq!(day_count(name(s)).unwrap(), Some(convention), "{s}");
    }
    assert_eq!(day_count(None).unwrap(), None);
    match day_count(name("act/999")) {
        Err(BindingError::UnknownDayCount(s)) => assert_eq!(s, "act/999"),
        other => panic!("{other:?}"),
    }
}

#[test]
fn policies_go_by_their_names() {
    for (s, policy) in [
        ("spreadsheet", RootPolicy::SpreadsheetCompat),
        ("spreadsheetCompat", RootPolicy::SpreadsheetCompat),
        ("spreadsheetThenRobust", RootPolicy::SpreadsheetThenRobust),
        ("default", RootPolicy::SpreadsheetThenRobust),
        ("lowest", RootPolicy::Lowest),
        ("closestToGuess", RootPolicy::ClosestToGuess),
    ] {
        assert_eq!(root_policy(name(s)).unwrap(), Some(policy), "{s}");
    }
    assert_eq!(root_policy(None).unwrap(), None);
    match root_policy(name("highest")) {
        Err(BindingError::UnknownRootPolicy(s)) => assert_eq!(s, "highest"),
        other => panic!("{other:?}"),
    }
    assert_eq!(RootPolicy::default(), RootPolicy::SpreadsheetThenRobust);
}

#[test]
fn a_rate_is_reported_with_its_status() {
    let (dates, amounts) = quick_start();
    let result = xirr(&host, &dates, &amounts, None, None, None).unwrap();
    assert_eq!(result.status, "root");
    let rate = f(result.rate.unwrap());
    assert!((rate - 0.175_009_264_615_451).abs() < 1e-12, "{rate}");
    assert_eq!(result.roots, vec![result.rate.unwrap()]);
    let alone = xirr_rate(&host, &dates, &amounts, None, None, None).unwrap();
    assert_eq!(alone, result.rate);
    let residual = f(xnpv(&host, result.rate.unwrap(), &dates, &amounts, None).unwrap());
    assert!(residual.abs() < 1e-9);
    let roots = xirr_all_roots(&host, &dates, &amounts, None).unwrap();
    assert_eq!(roots.len(), 1);
    assert_eq!(sign_changes(&host, &dates, &amounts, None).unwrap(), 1);
}

#[test]
fn the_convention_reaches_the_rate() {
    let (dates, amounts) = quick_start();
    let plain = xirr_rate(&host, &dates, &amounts, None, name("act/365f"), None).unwrap();
    let other = xirr_rate(&host, &dates, &amounts, None, name("act/360"), None).unwrap();
    assert_eq!(plain, xirr_rate(&host, &dates, &amounts, None, None, None).unwrap());
    assert!((f(plain.unwrap()) - f(other.unwrap())).abs() > 1e-6);
}

#[test]
fn several_roots_are_listed() {
    let dates = ds(&[utc(2015, 1, 1), utc(2016, 1, 1), utc(2017, 1, 1), utc(2018, 1, 1)]);
    let amounts = ds(&[-1000.0, 3000.0, -2500.0, 600.0]);
    let result = xirr(&host, &dates, &amounts, None, None, None).unwrap();
    assert_eq!(result.status, "multipleRoots");
    assert!((f(result.rate.unwrap()) - -0.571_885_951_525_731).abs() < 1e-9);
    let roots: Vec<f64> = result.roots.into_iter().map(f).collect();
    assert_eq!(roots.len(), 3);
    for (got, want) in roots.iter().zip([-0.571_885_951_525_731, -0.219_242_967_85, 0.795_911_78]) {
        assert!((got - want).abs() < 1e-6, "{got} {want}");
    }
    for (policy, want) in [("lowest", -0.571_885_951_525_731), ("closestToGuess", -0.219_242_967_85)] {
        let rate = xirr_rate(&host, &dates, &amounts, None, None, name(policy)).unwrap();
        assert!((f(rate.unwrap()) - want).abs() < 1e-8, "{policy}");
    }
}

#[test]
fn failures_hold_neither_rate_nor_roots() {
    let one_day = ds(&[utc(2023, 1, 1), utc(2023, 1, 1)]);
    let netted = ds(&[-11_000.0, 20_000.0]);
    let result = xirr(&host, &one_day, &netted, None, None, None).unwrap();
    assert_eq!(result.status, "noRootExists");
    assert_eq!(result.rate, None);
    assert!(result.roots.is_empty());
    assert_eq!(sign_changes(&host, &one_day, &netted, None).unwrap(), 0);
    assert_eq!(xirr_rate(&host, &one_day, &netted, None, None, None).unwrap(), None);

    let dates = ds(&[utc(2020, 1, 1), utc(2021, 1, 1)]);
    let amounts = ds(&[-1000.0, 1.0]);
    let result = xirr(&host, &dates, &amounts, None, None, name("spreadsheet")).unwrap();
    assert_eq!(result.status, "spreadsheetNumError");
    assert_eq!(result.rate, None);
    assert!(result.roots.is_empty());

    let three = ds(&[utc(2020, 1, 1), utc(2021, 1, 1), utc(2022, 1, 1)]);
    let convex = ds(&[100.0, -100.0, 100.0]);
    let result = xirr(&host, &three, &convex, None, None, None).unwrap();
    assert_eq!(result.status, "didNotConverge");
    assert_eq!(result.rate, None);
    assert!(result.roots.is_empty());
}

#[test]
fn an_asymptote_is_reported_as_unverified() {
    let dates = ds(&[
        utc(2020, 1, 1),
        utc(2020, 1, 1),
        utc(2021, 1, 1),
        utc(2022, 1, 1),
        utc(2023, 1, 1),
    ]);
    let amounts = ds(&[-100.0, 100.0, -1000.0, 300.0, -50.0]);
    let result = xirr(&host, &dates, &amounts, None, None, None).unwrap();
    assert_eq!(result.status, "unverifiedRate");
    assert!(result.rate.unwrap().is_finite());
    assert!(result.roots.is_empty());
}

#[test]
fn results_say_what_outcomes_say() {
    let all = ds(&[0.1, 0.2]);
    for (outcome, status, rate, roots) in [
        (XirrOutcome::Root(d(0.1)), "root", Some(d(0.1)), ds(&[0.1])),
        (
            XirrOutcome::MultipleRoots { selected: d(0.2), all: all.clone() },
            "multipleRoots",
            Some(d(0.2)),
            all.clone(),
        ),
        (
            XirrOutcome::UnverifiedRate { rate: d(0.3), roots: all.clone() },
            "unverifiedRate",
            Some(d(0.3)),
            all.clone(),
        ),
        (XirrOutcome::NoRootExists, "noRootExists", None, vec![]),
        (XirrOutcome::DidNotConverge, "didNotConverge", None, vec![]),
        (XirrOutcome::SpreadsheetNumError, "spreadsheetNumError", None, vec![]),
    ] {
        assert_eq!(outcome.rate(), rate);
        let result = XirrResult::from_outcome(outcome);
        assert_eq!(result.status, status);
        assert_eq!(result.rate, rate);
        assert_eq!(result.roots, roots);
    }
}

#[test]
fn invalid_calls_say_what_is_wrong() {
    let (dates, amounts) = quick_start();
    let payments = |r: Result<XirrResult, BindingError>| match r {
        Err(BindingError::InvalidPayments(e)) => e,
        other => panic!("{other:?}"),
    };
    assert_eq!(
        payments(xirr(&host, &dates[..2], &amounts, None, None, None)),
        InvalidPaymentsError::DifferentLengths
    );
    assert_eq!(
        payments(xirr(&host, &dates, &ds(&[1.0, 2.0, 3.0]), None, None, None)),
        InvalidPaymentsError::OneSided
    );
    let turned: Vec<Double> = dates.iter().rev().copied().collect();
    assert_eq!(
        payments(xirr(&host, &turned, &amounts, None, None, None)),
        InvalidPaymentsError::DateBeforeFirst
    );
    assert_eq!(
        payments(xirr(&host, &dates, &amounts, Some(d(-1.0)), None, None)),
        InvalidPaymentsError::InvalidGuess
    );
    assert!(matches!(
        xirr(&host, &dates, &amounts, None, name("x"), name("y")),
        Err(BindingError::UnknownDayCount(_))
    ));
    assert!(matches!(
        xirr_rate(&host, &dates, &amounts, None, None, name("y")),
        Err(BindingError::UnknownRootPolicy(_))
    ));
    assert!(matches!(
        xnpv(&host, d(0.1), &ds(&[f64::NAN]), &amounts, name("x")),
        Err(BindingError::DateNotFinite(_))
    ));
    assert!(matches!(
        xnpv(&host, d(0.1), &dates[..1], &amounts, None),
        Err(BindingError::InvalidPayments(InvalidPaymentsError::DifferentLengths))
    ));
    assert!(matches!(
        sign_changes(&host, &dates[..1], &amounts, None),
        Err(BindingError::InvalidPayments(InvalidPaymentsError::DifferentLengths))
    ));
    assert!(matches!(
        xirr_all_roots(&host, &dates, &ds(&[1.0, 2.0, 3.0]), None),
        Err(BindingError::InvalidPayments(InvalidPaymentsError::OneSided))
    ));
}

#[test]
fn reasons_are_put_in_words() {
    assert_eq!(
        InvalidPaymentsError::DateBeforeFirst.message(),
        "all dates must be on or after the first date"
    );
    assert_eq!(
        InvalidPaymentsError::InvalidGuess.message(),
        "guess must be a finite number greater than -1"
    );
    assert!(InvalidPaymentsError::OneSided.message().contains("positive"));
    assert!(InvalidPaymentsError::DifferentLengths.message().contains("lengths"));
}

#[test]
fn only_finite_numbers_pass() {
    assert_eq!(finite(d(0.5)), Some(d(0.5)));
    for bad in [f64::NAN, f64::INFINITY, f64::NEG_INFINITY] {
        assert_eq!(finite(d(bad)), None);
    }
}

#[test]
fn one_sided_and_empty_schedules_have_a_present_value() {
    assert_eq!(f(xnpv(&host, d(0.1), &[], &[], None).unwrap()), 0.0);
    let dates = ds(&[utc(2021, 1, 1), utc(2022, 1, 1)]);
    let value = f(xnpv(&host, d(0.1), &dates, &ds(&[100.0, 110.0]), None).unwrap());
    assert!((value - 200.0).abs() < 1e-9, "{value}");
    let value = f(xnpv(&host, d(-1.0), &dates, &ds(&[100.0, 110.0]), None).unwrap());
    assert_eq!(value, f64::INFINITY);
}
