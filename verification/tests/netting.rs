//! Netting, signs, sorting, and the pieces of the root search.

use xirr::cash_flow::CashFlow;
use xirr::double::Double;
use xirr::flow::RootPolicy;
use xirr::host::{Call, DayCount};
use xirr::log_rate::{from_log_rate, log_rate_grid, to_log_rate};
use xirr::netted::{NettedFlow, Shape, Term};
use xirr::payments::{
    reject_dates_before_the_first, validate, validate_length, year_fractions, DateLike,
    InvalidPaymentsError,
};
use xirr::search::{closest_to, is_straddled};
use xirr::sorting::{dedup, dedup_within, sort};

fn d(x: f64) -> Double {
    Double { bits: x.to_bits() }
}

fn f(x: Double) -> f64 {
    f64::from_bits(x.bits)
}

fn ds(v: &[f64]) -> Vec<Double> {
    v.iter().map(|x| d(*x)).collect()
}

fn fs(v: &[Double]) -> Vec<f64> {
    v.iter().map(|x| f(*x)).collect()
}

fn host(call: Call) -> Double {
    d(match call {
        Call::Exp(x) => f(x).exp(),
        Call::Ln1p(x) => f(x).ln_1p(),
        Call::ExpM1(x) => f(x).exp_m1(),
        Call::Powf(x, y) => f(x).powf(f(y)),
        Call::YearFraction(other, _, _) => panic!("no test uses {other:?}"),
    })
}

fn days(v: &[i32]) -> Vec<DateLike> {
    v.iter().map(|day| DateLike { day: *day }).collect()
}

fn net(deltas: &[f64], amounts: &[f64]) -> Vec<(f64, f64)> {
    NettedFlow::new(&ds(deltas), &ds(amounts))
        .terms
        .iter()
        .map(|t| (f(t.delta), f(t.amount)))
        .collect()
}

#[test]
fn netting_sums_sorts_and_drops_zeros() {
    assert_eq!(
        net(&[1.0, 0.0, 2.0, 1.0, 3.0], &[5.0, -1.0, 0.0, -2.0, 4.0]),
        vec![(0.0, -1.0), (1.0, 3.0), (3.0, 4.0)]
    );
    assert_eq!(net(&[0.0, 0.0], &[5.0, -5.0]), vec![]);
    assert_eq!(net(&[], &[]), vec![]);
    assert_eq!(net(&[-0.0, 0.0], &[1.0, 2.0]), vec![(0.0, 3.0)]);
    assert_eq!(net(&[0.0, 1.0], &[7.0]), vec![(0.0, 7.0)]);
}

#[test]
fn netting_ignores_order_zeros_and_splits() {
    let plain = net(&[0.0, 1.0, 2.0], &[-100.0, 30.0, 90.0]);
    assert_eq!(net(&[0.0, 2.0, 1.0], &[-100.0, 90.0, 30.0]), plain);
    assert_eq!(net(&[0.0, 1.5, 1.0, 2.0, 2.0], &[-100.0, 0.0, 30.0, 0.0, 90.0]), plain);
    assert_eq!(net(&[0.0, 0.0, 1.0, 2.0], &[-60.0, -40.0, 30.0, 90.0]), plain);
    assert_eq!(net(&[0.0, 0.0, 1.0, 2.0], &[-40.0, -60.0, 30.0, 90.0]), plain);
    assert_eq!(net(&[0.0, 1.5, 1.5, 1.0, 2.0], &[-100.0, 7.0, -7.0, 30.0, 90.0]), plain);
}

#[test]
fn netting_keeps_the_order_within_a_date() {
    // Rounding tells the orders apart.
    assert_eq!(net(&[0.0, 0.0, 0.0], &[1e16, 1.0, -1e16]), vec![]);
    assert_eq!(net(&[0.0, 0.0, 0.0], &[1e16, -1e16, 1.0]), vec![(0.0, 1.0)]);
}

#[test]
fn sign_changes_decide_the_shape() {
    let shape = |amounts: &[f64]| {
        let deltas: Vec<f64> = (0..amounts.len()).map(|i| i as f64).collect();
        let flow = NettedFlow::new(&ds(&deltas), &ds(amounts));
        (flow.sign_changes(), flow.shape())
    };
    assert_eq!(shape(&[1.0, 2.0, 3.0]), (0, Shape::NoRootExists));
    assert_eq!(shape(&[-1.0, -2.0]), (0, Shape::NoRootExists));
    assert_eq!(shape(&[]), (0, Shape::NoRootExists));
    assert_eq!(shape(&[-1.0, 2.0, 3.0]), (1, Shape::RootGuaranteed));
    assert_eq!(shape(&[-1.0, 2.0, -3.0]), (2, Shape::RootPossible));
    assert_eq!(shape(&[-1.0, 2.0, -3.0, 4.0]), (3, Shape::RootGuaranteed));
    assert_eq!(shape(&[-1.0, f64::NAN, 3.0]), (1, Shape::Undefined));
    assert_eq!(shape(&[1.0, f64::INFINITY]), (0, Shape::Undefined));
}

#[test]
fn the_objective_never_overflows_or_vanishes_by_underflow() {
    let flow = NettedFlow::new(&ds(&[0.0, 1.0, 50.0]), &ds(&[-1.0, 20.0, 30.0]));
    for u in [-700.0, -36.0, -1.0, 0.0, 1.0, 36.0, 700.0] {
        let (value, deriv) = flow.scaled_g(&host, d(u));
        assert!(value.is_finite() && deriv.is_finite(), "{u}");
        assert!(!value.is_zero(), "{u}");
        let gross = f(flow.scaled_gross(&host, d(u)));
        assert!(f(value).abs() <= gross && gross.is_finite(), "{u}");
    }
    // At a large log-rate the first amount alone is left, at a low one the last.
    assert_eq!(f(flow.scaled_g(&host, d(700.0)).0), -1.0);
    assert_eq!(f(flow.scaled_g(&host, d(-700.0)).0), 30.0);
    let empty = NettedFlow::new(&[], &[]);
    assert_eq!(f(empty.scaled_g(&host, d(1.0)).0), 0.0);
    assert_eq!(f(empty.scaled_gross(&host, d(1.0))), 0.0);
}

#[test]
fn the_objective_is_the_discounted_sum() {
    let flow = NettedFlow::new(&ds(&[0.0, 1.0, 2.0]), &ds(&[-100.0, 60.0, 60.0]));
    let u: f64 = 0.1;
    let (value, deriv) = flow.scaled_g(&host, d(u));
    let terms = [-100.0, 60.0 * (-u).exp(), 60.0 * (-2.0 * u).exp()];
    assert_eq!(f(value), terms[0] + terms[1] + terms[2]);
    assert_eq!(f(deriv), 0.0 - terms[1] - 2.0 * terms[2]);
    assert_eq!(f(flow.scaled_gross(&host, d(u))), 100.0 + terms[1] + terms[2]);
}

#[test]
fn no_rate_passes_on_a_one_sided_flow() {
    for sign in [1.0, -1.0] {
        let amounts = ds(&[sign * 9000.0, sign * 20_000.0, sign * 1e-300]);
        let flow = CashFlow::unvalidated(&host, &amounts, &days(&[0, 100, 400]), None);
        for u in [-36.0f64, -5.0, -0.1, 0.0, 0.1, 5.0, 50.0, 400.0, 700.0] {
            assert!(!flow.is_root(&host, d(u.exp_m1())), "{u}");
        }
        assert!(flow.roots(&host).is_empty());
        for policy in [RootPolicy::Lowest, RootPolicy::ClosestToGuess] {
            assert!(flow.solve(&host, d(0.1), policy).is_nan());
        }
    }
}

#[test]
fn nothing_passes_on_a_poisoned_flow_or_outside_the_domain() {
    let amounts = ds(&[-100.0, 110.0]);
    let flow = CashFlow::unvalidated(&host, &amounts, &days(&[0, 365]), None);
    assert!(flow.is_root(&host, d(0.1)));
    assert!(!flow.is_root(&host, d(0.2)));
    for bad in [-1.0, -2.0, f64::NAN, f64::INFINITY] {
        assert!(!flow.is_root(&host, d(bad)), "{bad}");
    }
    assert_eq!(f(flow.verified_or_nan(&host, d(0.1))), 0.1);
    assert!(flow.verified_or_nan(&host, d(0.2)).is_nan());
    let poisoned = ds(&[-100.0, 110.0, f64::NAN]);
    let flow = CashFlow::unvalidated(&host, &poisoned, &days(&[0, 365, 400]), None);
    assert!(!flow.is_root(&host, d(0.1)));
    assert!(flow.roots(&host).is_empty());
}

#[test]
fn present_value_and_derivative_agree() {
    let amounts = ds(&[-100.0, 60.0, 60.0]);
    let flow = CashFlow::unvalidated(&host, &amounts, &days(&[0, 365, 730]), None);
    let (value, deriv) = flow.xnpv_with_deriv(&host, d(0.1));
    assert_eq!(value, flow.xnpv(&host, d(0.1)));
    let want = -100.0 + 60.0 * 1.1f64.powf(-1.0) + 60.0 * 1.1f64.powf(-2.0);
    assert_eq!(f(value), want);
    let slope = -60.0 * 1.1f64.powf(-1.0) / 1.1 + 60.0 * 1.1f64.powf(-2.0) * -2.0 / 1.1;
    assert_eq!(f(deriv), slope);
    let (value, deriv) = flow.xnpv_with_deriv(&host, d(-1.0));
    assert_eq!((f(value), f(deriv)), (f64::INFINITY, f64::INFINITY));
}

#[test]
fn newton_in_log_rates_reaches_the_root() {
    let amounts = ds(&[-100.0, 110.0]);
    let flow = CashFlow::unvalidated(&host, &amounts, &days(&[0, 365]), None);
    for u in [-1.0, 0.0, 2.0] {
        let rate = f(flow.newton_from(&host, d(u)));
        assert!((rate - 0.1).abs() < 1e-12, "{u}: {rate}");
    }
    let rate = f(flow.solve_robustly(&host, d(0.5)));
    assert!((rate - 0.1).abs() < 1e-12);
}

#[test]
fn turning_points_lie_between_roots() {
    // Roots at ten and twenty percent.
    let amounts = ds(&[-100.0, 230.0, -132.0]);
    let flow = CashFlow::unvalidated(&host, &amounts, &days(&[0, 365, 730]), None);
    let points = flow.turning_points(&host, &log_rate_grid());
    assert_eq!(points.len(), 1);
    let rate = f(from_log_rate(&host, points[0]));
    assert!(rate > 0.1 && rate < 0.2, "{rate}");
    let roots = fs(&flow.roots(&host));
    assert_eq!(roots.len(), 2);
    assert!((roots[0] - 0.1).abs() < 1e-9 && (roots[1] - 0.2).abs() < 1e-9);
}

#[test]
fn log_rates_go_both_ways_and_stay_in_the_domain() {
    for rate in [-0.9, 0.0, 0.1, 1e20] {
        let u = to_log_rate(&host, d(rate));
        assert_eq!(f(u), rate.ln_1p());
        let back = f(from_log_rate(&host, u));
        assert!((back - rate).abs() <= 1e-13 * (1.0 + rate.abs()), "{rate}: {back}");
    }
    assert!(from_log_rate(&host, d(f64::NAN)).is_nan());
    assert!(from_log_rate(&host, d(f64::INFINITY)).is_nan());
    assert_eq!(f(from_log_rate(&host, d(1e6))), 709.782_712_893_384f64.exp_m1());
    assert_eq!(f(from_log_rate(&host, d(-1e6))), (-36.736_800_569_677_1f64).exp_m1());
}

#[test]
fn the_grid_spans_the_searched_domain() {
    let grid = fs(&log_rate_grid());
    assert_eq!(grid[0], -36.736_800_569_677_1);
    assert_eq!(*grid.last().unwrap(), 709.782_712_893_384);
    assert!(grid.windows(2).all(|w| w[0] < w[1] && w[1] - w[0] <= 0.5));
    assert_eq!(grid.len(), 115 + 1600 + 1404 + 1);
    assert_eq!(grid[115], -8.0);
    assert_eq!(grid[116], -8.0 + 0.01);
    assert_eq!(grid[1715], 8.0);
    assert_eq!(grid[1716], 8.5);
}

#[test]
fn the_nearest_root_wins_and_ties_go_down() {
    let closest = |roots: &[f64], guess: f64| closest_to(&ds(roots), d(guess)).map(f);
    assert_eq!(closest(&[], 0.1), None);
    assert_eq!(closest(&[-0.5, 0.2, 3.0], 0.1), Some(0.2));
    assert_eq!(closest(&[-0.5, 0.2, 3.0], -0.4), Some(-0.5));
    assert_eq!(closest(&[0.0, 1.0], 0.5), Some(0.0));
    assert_eq!(closest(&[1.0, 0.0], 0.5), Some(0.0));
    assert_eq!(closest(&[-f64::MAX, f64::MAX], 1e300), Some(f64::MAX));
}

#[test]
fn a_point_is_straddled_by_roots_on_both_sides() {
    let found = ds(&[0.1, 0.3]);
    assert!(is_straddled(&found, d(0.2)));
    assert!(is_straddled(&found, d(0.3)));
    assert!(!is_straddled(&found, d(0.1)));
    assert!(!is_straddled(&found, d(0.4)));
    assert!(!is_straddled(&vec![], d(0.4)));
}

#[test]
fn sorting_is_total_and_stable() {
    let sorted = sort(&ds(&[2.0, -1.0, 0.0, -0.0, f64::INFINITY, -3.0]));
    let bits: Vec<u64> = sorted.iter().map(|x| x.bits).collect();
    let want: Vec<u64> = [-3.0, -1.0, -0.0, 0.0, 2.0, f64::INFINITY]
        .iter()
        .map(|x: &f64| x.to_bits())
        .collect();
    assert_eq!(bits, want);
    let term = |delta: f64, amount: f64| Term { delta: d(delta), amount: d(amount) };
    let sorted = sort(&vec![term(1.0, 1.0), term(0.0, 2.0), term(1.0, 3.0), term(0.0, 4.0)]);
    assert_eq!(
        sorted,
        vec![term(0.0, 2.0), term(0.0, 4.0), term(1.0, 1.0), term(1.0, 3.0)]
    );
}

#[test]
fn thinning_measures_from_the_last_one_kept() {
    assert_eq!(fs(&dedup(&ds(&[1.0, 1.0, 2.0, 1.0]))), vec![1.0, 2.0, 1.0]);
    assert_eq!(dedup(&ds(&[-0.0, 0.0])).len(), 1);
    let kept = dedup_within(&ds(&[0.0, 0.4, 0.8, 1.2, 2.0]), d(0.5));
    assert_eq!(fs(&kept), vec![0.0, 0.8, 2.0]);
}

#[test]
fn year_fractions_count_from_the_first_payment() {
    let fractions = fs(&year_fractions(&host, &days(&[100, 100, 465, 50]), None));
    assert_eq!(fractions, vec![0.0, 0.0, 1.0, -50.0 / 365.0]);
    let other = fs(&year_fractions(&host, &days(&[0, 360]), Some(DayCount::ACT_360)));
    assert_eq!(other, vec![0.0, 1.0]);
    let other = fs(&year_fractions(&host, &days(&[400, 581, 36]), Some(DayCount::ACT_364)));
    assert_eq!(other, vec![0.0, 181.0 / 364.0, -1.0]);
    assert!(year_fractions(&host, &[], None).is_empty());
}

#[test]
fn year_fractions_tell_days_apart() {
    let dates: Vec<DateLike> = (0..200_000).map(|day| DateLike { day }).collect();
    let fractions = fs(&year_fractions(&host, &dates, None));
    assert!(fractions.windows(2).all(|w| w[0] < w[1]));
    let far = days(&[i32::MIN, i32::MAX - 1, i32::MAX]);
    let fractions = fs(&year_fractions(&host, &far, None));
    assert!(fractions[1] < fractions[2]);
}

#[test]
fn payments_are_validated_in_order() {
    let amounts = ds(&[-1.0, 1.0]);
    assert_eq!(validate(&amounts, &days(&[1, 2])), Ok(()));
    assert_eq!(validate(&amounts, &days(&[1])), Err(InvalidPaymentsError::DifferentLengths));
    assert_eq!(validate(&ds(&[1.0, 0.0]), &days(&[1, 2])), Err(InvalidPaymentsError::OneSided));
    assert_eq!(validate(&ds(&[-1.0, -0.0]), &days(&[1, 2])), Err(InvalidPaymentsError::OneSided));
    assert_eq!(
        validate(&ds(&[-1.0, f64::NAN]), &days(&[1, 2])),
        Err(InvalidPaymentsError::OneSided)
    );
    assert_eq!(validate_length(&amounts, &days(&[1, 2])), Ok(()));
    assert_eq!(
        validate_length(&amounts, &days(&[])),
        Err(InvalidPaymentsError::DifferentLengths)
    );
    assert_eq!(reject_dates_before_the_first(&days(&[])), Ok(()));
    assert_eq!(reject_dates_before_the_first(&days(&[5])), Ok(()));
    assert_eq!(reject_dates_before_the_first(&days(&[5, 5, 9, 6])), Ok(()));
    assert_eq!(
        reject_dates_before_the_first(&days(&[5, 9, 4])),
        Err(InvalidPaymentsError::DateBeforeFirst)
    );
}

#[test]
fn constructors_refuse_what_cannot_be_solved() {
    assert!(CashFlow::new(&host, &days(&[1, 2]), &ds(&[-1.0, 2.0]), None).is_ok());
    for (dates, amounts, error) in [
        (days(&[1]), ds(&[-1.0, 2.0]), InvalidPaymentsError::DifferentLengths),
        (days(&[1, 2]), ds(&[1.0, 2.0]), InvalidPaymentsError::OneSided),
        (days(&[2, 1]), ds(&[-1.0, 2.0]), InvalidPaymentsError::DateBeforeFirst),
    ] {
        match CashFlow::new(&host, &dates, &amounts, None) {
            Err(e) => assert_eq!(e, error),
            Ok(_) => panic!("{error:?} expected"),
        }
    }
}

#[test]
fn roots_do_not_outnumber_sign_changes() {
    for amounts in [
        vec![-100.0, 110.0],
        vec![-100.0, 230.0, -132.0],
        vec![-1000.0, 3000.0, -2500.0, 600.0],
        vec![-1.0, 5.0, -7.0, 3.0],
        vec![100.0, -100.0, 100.0],
        vec![-5.0, -4.0, 3.0, 9.0],
        vec![1.0, 2.0],
    ] {
        let dates: Vec<DateLike> =
            (0..amounts.len()).map(|i| DateLike { day: 365 * i as i32 }).collect();
        let flow = CashFlow::unvalidated(&host, &ds(&amounts), &dates, None);
        let roots = flow.roots(&host);
        assert!(roots.len() <= flow.netted.sign_changes(), "{amounts:?}: {roots:?}");
        for pair in roots.windows(2) {
            assert!(f(pair[1]) - f(pair[0]) > 1e-7);
        }
        for root in roots {
            assert!(flow.is_root(&host, root) && f(root) > -1.0);
        }
    }
}

#[test]
fn the_default_adds_roots_and_changes_no_spreadsheet_rate() {
    for amounts in [
        vec![-1000.0, 1.0],
        vec![-100.0, 230.0, -132.0],
        vec![-1000.0, 3000.0, -2500.0, 600.0],
        vec![100.0, -100.0, 100.0],
    ] {
        let dates: Vec<DateLike> =
            (0..amounts.len()).map(|i| DateLike { day: 366 * i as i32 }).collect();
        let flow = CashFlow::unvalidated(&host, &ds(&amounts), &dates, None);
        let strict = flow.solve(&host, d(0.1), RootPolicy::SpreadsheetCompat);
        let default = flow.solve(&host, d(0.1), RootPolicy::SpreadsheetThenRobust);
        if strict.is_finite() {
            assert_eq!(strict, default);
        } else {
            assert!(default.is_nan() || flow.is_root(&host, default));
        }
        for policy in [RootPolicy::Lowest, RootPolicy::ClosestToGuess] {
            let rate = flow.solve(&host, d(0.1), policy);
            assert!(rate.is_nan() || flow.is_root(&host, rate));
        }
    }
}

#[test]
fn every_log_rate_has_a_rate_above_total_loss() {
    for u in [-1e300, -700.0, -36.8, -36.7, -1e-300, 0.0, 1e-300, 0.5, 709.7, 709.8, 1e300] {
        let rate = from_log_rate(&host, d(u));
        assert!(rate.is_finite() && f(rate) > -1.0, "{u}");
    }
    assert_eq!(f(from_log_rate(&host, d(0.0))), 0.0);
    assert_eq!(f(from_log_rate(&host, d(-0.0))), 0.0);
}

#[test]
fn terms_of_one_sign_keep_the_reference_amount() {
    for sign in [1.0, -1.0] {
        let flow = NettedFlow::new(
            &ds(&[0.5, 1.0, 90.0]),
            &ds(&[sign * 3.0, sign * 1e300, sign * 7.0]),
        );
        for u in [-709.0, -36.0, -0.5, -0.0, 0.0, 0.5, 36.0, 709.0] {
            let value = f(flow.scaled_g(&host, d(u)).0);
            let amount = if u >= 0.0 { 3.0 } else { 7.0 };
            assert!(value.is_finite() && value * sign >= amount, "{u}: {value}");
        }
    }
}

#[test]
fn the_value_is_at_most_the_gross_size() {
    let flow = NettedFlow::new(&ds(&[0.0, 1.0, 2.0, 3.0]), &ds(&[-1000.0, 3000.0, -2500.0, 600.0]));
    let mut u = -36.0;
    while u < 700.0 {
        let value = f(flow.scaled_g(&host, d(u)).0).abs();
        let gross = f(flow.scaled_gross(&host, d(u)));
        assert!(value <= gross && gross > 0.0, "{u}");
        u += 0.37;
    }
}

#[test]
fn the_root_test_is_a_ratio_test() {
    let amounts = ds(&[-100.0, 110.0]);
    let flow = CashFlow::unvalidated(&host, &amounts, &days(&[0, 365]), None);
    for (rate, passes) in [(0.1 + 1e-10, true), (0.1 + 1e-8, false), (0.1 - 1e-10, true)] {
        let u = d(f64::ln_1p(rate));
        let value = f(flow.netted.scaled_g(&host, u).0).abs();
        let gross = f(flow.netted.scaled_gross(&host, u));
        assert_eq!(value / gross <= 1e-9, passes, "{rate}");
        assert_eq!(flow.is_root(&host, d(rate)), passes, "{rate}");
    }
}

#[test]
fn rescaling_moves_neither_the_root_test_nor_the_roots() {
    let dates = days(&[0, 365, 731, 1096]);
    let amounts = [-1000.0, 3000.0, -2500.0, 600.0];
    let flow = CashFlow::unvalidated(&host, &ds(&amounts), &dates, None);
    let roots = flow.roots(&host);
    assert!(roots.len() >= 2);
    for exponent in [-20i32, -3, 5, 40] {
        let k = 2f64.powi(exponent);
        let scaled: Vec<f64> = amounts.iter().map(|a| a * k).collect();
        let other = CashFlow::unvalidated(&host, &ds(&scaled), &dates, None);
        assert_eq!(other.roots(&host), roots);
        for rate in [-0.99, -0.5, 0.0, 0.1, 0.5, 1.0, 20.0] {
            assert_eq!(other.is_root(&host, d(rate)), flow.is_root(&host, d(rate)), "{rate}");
        }
        for root in &roots {
            assert!(other.is_root(&host, *root));
        }
    }
}
