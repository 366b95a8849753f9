//! The root finders, and the constants they work with.

use xirr::double::Double;
use xirr::optimize::{brent, crossings, newton};
use xirr::{binding, double, flow, log_rate, payments};
use xirr::optimize::brent::{brentq, brentq_grid_search};
use xirr::optimize::crossings::{find_brackets, find_crossings, Crossing};
use xirr::optimize::newton::{
    newton_excel_order, newton_raphson, newton_raphson_with_default_deriv, newton_to_residual,
};

fn d(x: f64) -> Double {
    Double { bits: x.to_bits() }
}

fn f(x: Double) -> f64 {
    f64::from_bits(x.bits)
}

#[test]
fn excel_order_finds_the_leftmost_of_three_roots() {
    let e = [0.0, 1.0, 2.002_739_726_027_397_4, 3.002_739_726_027_397_4];
    let a = [-1000., 3000., -2500., 600.];
    let fd = |r: Double| {
        let r = f(r);
        if r <= -1.0 {
            return (d(f64::INFINITY), d(f64::INFINITY));
        }
        let b = 1.0 + r;
        let (v, dv) = a.iter().zip(e.iter()).fold((0., 0.), |acc, (p, e)| {
            let y0 = p * b.powf(-e);
            (acc.0 + y0, acc.1 + y0 * -e / b)
        });
        (d(v), d(dv))
    };
    let r = f(newton_excel_order(d(0.1), &fd));
    assert!((r - -0.571885951525731).abs() < 1e-9, "got {r}");
}

#[test]
fn excel_order_rejects_invalid_guess() {
    let fd = |_r: Double| (d(1.0), d(1.0));
    assert!(newton_excel_order(d(-1.0), &fd).is_nan());
    assert!(newton_excel_order(d(f64::NAN), &fd).is_nan());
}

#[test]
fn brackets_capture_every_sign_change() {
    let cubic = |x: f64| (x - 0.05) * (x - 0.5) * (x - 3.0);
    let g = |x: Double| d(cubic(f(x)));
    let b = find_brackets(&g, d(1.0e6));
    assert_eq!(b.len(), 3);
    for (lo, hi) in b {
        let r = f(brentq(&g, lo, hi, 100));
        assert!(cubic(r).abs() < 1e-9);
    }
}

#[test]
fn excel_order_stops_where_only_the_step_is_small() {
    // The value stays at one while the step is tiny: no root, yet an answer.
    let fd = |_r: Double| (d(1.0), d(1e12));
    let r = f(newton_excel_order(d(0.5), &fd));
    assert_eq!(r, 0.5 - 1.0 / 1e12);
}

#[test]
fn excel_order_rescans_past_a_zero_derivative() {
    // Flat above zero, so that only seeds below it move.
    let fd = |r: Double| {
        let r = f(r);
        if r > 0.0 {
            (d(1.0), d(0.0))
        } else {
            (d(r + 0.5), d(1.0))
        }
    };
    let r = f(newton_excel_order(d(0.1), &fd));
    assert!((r + 0.5).abs() < 1e-12, "got {r}");
}

#[test]
fn excel_order_gives_up_without_a_root() {
    let fd = |r: Double| (d(1.0 + f(r) * f(r)), d(2.0 * f(r)));
    assert!(newton_excel_order(d(0.1), &fd).is_nan());
}

#[test]
fn residual_newton_stops_on_value_step_and_failure() {
    let square = |x: Double| (d(f(x) * f(x) - 2.0), d(2.0 * f(x)));
    let r = f(newton_to_residual(d(1.0), &square, d(1e-12)));
    assert!((r - 2f64.sqrt()).abs() < 1e-12);
    let r = f(newton_to_residual(d(1.0), &square, d(0.0)));
    assert!((r - 2f64.sqrt()).abs() < 1e-15);

    let flat = |_x: Double| (d(1.0), d(0.0));
    assert!(newton_to_residual(d(1.0), &flat, d(0.0)).is_nan());
    let infinite = |_x: Double| (d(f64::INFINITY), d(1.0));
    assert!(newton_to_residual(d(1.0), &infinite, d(0.0)).is_nan());
    let never = |_x: Double| (d(1.0), d(1.0));
    assert!(newton_to_residual(d(1.0), &never, d(0.0)).is_nan());
}

#[test]
fn residual_newton_measures_its_step_relative_to_the_rate() {
    // A step of one tenth is nothing next to a rate of 1e12.
    let slow = |_x: Double| (d(0.1), d(1.0));
    assert_eq!(f(newton_to_residual(d(1e12), &slow, d(0.0))), 1e12 - 0.1);
}

#[test]
fn plain_newton_stops_on_value_or_step() {
    let g = |x: Double| d(f(x) * f(x) - 2.0);
    let dg = |x: Double| d(2.0 * f(x));
    let r = f(newton_raphson(d(1.0), &g, &dg));
    assert!((r - 2f64.sqrt()).abs() < 1e-9);
    let r = f(newton_raphson_with_default_deriv(d(1.0), g));
    assert!((r - 2f64.sqrt()).abs() < 1e-9);

    let one = |_x: Double| d(1.0);
    let steep = |_x: Double| d(1e10);
    assert_eq!(f(newton_raphson(d(3.0), &one, &steep)), 3.0 - 1e-10);
    assert!(newton_raphson(d(3.0), &one, &one).is_nan());
}

#[test]
fn brent_answers_at_the_ends_and_refuses_without_a_sign_change() {
    let g = |x: Double| d(f(x) - 1.0);
    assert_eq!(f(brentq(&g, d(1.0), d(2.0), 100)), 1.0);
    assert_eq!(f(brentq(&g, d(0.0), d(1.0), 100)), 1.0);
    assert!(brentq(&g, d(2.0), d(3.0), 100).is_nan());
    let r = f(brentq(&g, d(0.0), d(3.5), 100));
    assert!((r - 1.0).abs() < 1e-14);
    assert!(brentq(&g, d(0.0), d(3.5), 0).is_nan());
    let pole = |x: Double| d(1.0 / f(x));
    assert!(brentq(&pole, d(0.0), d(1.0), 100).is_nan());
}

#[test]
fn brent_follows_the_same_path_as_machine_arithmetic() {
    for (lo, hi) in [(0.0, 2.0), (-3.0, 5.0), (1.0, 100.0)] {
        let g = |x: Double| d(f(x).exp() - 3.0);
        let got = f(brentq(&g, d(lo), d(hi), 100));
        assert_eq!(got.to_bits(), machine_brentq(|x| x.exp() - 3.0, lo, hi, 100).to_bits());
    }
}

#[test]
fn brent_stops_within_tolerance_of_a_sign_change() {
    // A jump has a sign change and no zero; outside the bracket there is no value.
    for place in [0.3, 17.25, -4.0e5] {
        let g = |x: Double| {
            let x = f(x);
            d(if x < place - 1.0 || x > place + 2.0 {
                f64::NAN
            } else if x < place {
                -1.0
            } else {
                1.0
            })
        };
        let r = f(brentq(&g, d(place - 1.0), d(place + 2.0), 200));
        let tolerance = 2e-14 + 8.9e-16 * r.abs();
        assert!((r - place).abs() <= tolerance, "{place}: {r}");
    }
}

#[test]
fn brent_stays_in_the_bracket() {
    let functions: [fn(f64) -> f64; 5] = [
        |x| x.powi(9) - 1e-3,
        |x| (x - 0.3).tanh() * 1e-280,
        |x| if x < 0.7 { -1e300 } else { 1e-300 },
        |x| (500.0 * (x - 0.1)).exp_m1(),
        |x| (x - 0.9) / (1.0001 - x),
    ];
    for (i, g) in functions.iter().enumerate() {
        for (xa, xb) in [(0.0, 1.0), (1.0, 0.0), (-0.2, 1.0)] {
            let inside = |x: Double| {
                let x = f(x);
                assert!(x >= f64::min(xa, xb) && x <= f64::max(xa, xb), "{i}: {x}");
                d(g(x))
            };
            let r = f(brentq(&inside, d(xa), d(xb), 200));
            assert!(r >= f64::min(xa, xb) && r <= f64::max(xa, xb), "{i}: {r}");
        }
    }
}

fn machine_brentq(g: impl Fn(f64) -> f64, xa: f64, xb: f64, iter: usize) -> f64 {
    let (mut xpre, mut xcur) = (xa, xb);
    let (mut xblk, mut fblk, mut spre, mut scur) = (0., 0., 0., 0.);
    let (mut fpre, mut fcur): (f64, f64) = (g(xpre), g(xcur));
    for _ in 0..iter {
        if fpre != 0. && fcur != 0. && fpre.signum() != fcur.signum() {
            xblk = xpre;
            fblk = fpre;
            spre = xcur - xpre;
            scur = spre;
        }
        if f64::abs(fblk) < fcur.abs() {
            xpre = xcur;
            xcur = xblk;
            xblk = xpre;
            fpre = fcur;
            fcur = fblk;
            fblk = fpre;
        }
        let delta = (2e-14 + 8.881_784_197_001_252e-16 * xcur.abs()) / 2.;
        let sbis: f64 = (xblk - xcur) / 2.;
        if fcur == 0. || sbis.abs() < delta {
            return xcur;
        }
        if f64::abs(spre) > delta && fcur.abs() < fpre.abs() {
            let stry = if xpre == xblk {
                -fcur * (xcur - xpre) / (fcur - fpre)
            } else {
                let dpre = (fpre - fcur) / (xpre - xcur);
                let dblk = (fblk - fcur) / (xblk - xcur);
                -fcur * (fblk * dblk - fpre * dpre) / (dblk * dpre * (fblk - fpre))
            };
            if 2. * stry.abs() < f64::abs(spre).min(3. * sbis.abs() - delta) {
                spre = scur;
                scur = stry;
            } else {
                spre = sbis;
                scur = sbis;
            }
        } else {
            spre = sbis;
            scur = sbis;
        }
        xpre = xcur;
        fpre = fcur;
        if f64::abs(scur) > delta {
            xcur += scur;
        } else {
            xcur += if sbis > 0. { delta } else { -delta };
        }
        fcur = g(xcur);
    }
    f64::NAN
}

#[test]
fn crossings_tell_exact_zeros_from_sign_changes() {
    let grid: Vec<Double> = [-2.0, -1.0, 0.0, 1.0, 2.0, 3.0].iter().map(|x| d(*x)).collect();
    // Zero at zero, a sign change between two and three.
    let g = |x: Double| {
        let x = f(x);
        d(x * (2.5 - x))
    };
    let found = find_crossings(&grid, &g);
    assert_eq!(
        found,
        vec![Crossing::Exact(d(0.0)), Crossing::Bracket(d(2.0), d(3.0))]
    );
    // Touching zero is no sign change.
    let touch = |x: Double| d(f(x) * f(x));
    assert_eq!(find_crossings(&grid, &touch), vec![Crossing::Exact(d(0.0))]);
    // Nothing is read across a value that is not finite.
    let pole = |x: Double| d(1.0 / f(x));
    assert_eq!(find_crossings(&grid, &pole), Vec::<Crossing>::new());
    assert_eq!(find_crossings(&[], &touch), Vec::<Crossing>::new());
}

#[test]
fn brackets_lie_on_the_rate_grid() {
    let g = |x: Double| d(f(x) - 0.5001);
    let found = find_brackets(&g, d(10.0));
    assert_eq!(found.len(), 1);
    let (lo, hi) = (f(found[0].0), f(found[0].1));
    assert!(lo < 0.5001 && 0.5001 < hi);
    assert!((hi - lo - 0.005).abs() < 1e-12);
    let near_loss = |x: Double| d(f(x) + 0.995);
    let found = find_brackets(&near_loss, d(10.0));
    assert_eq!(found.len(), 1);
    assert_eq!((f(found[0].0), f(found[0].1)), (-0.999_999_999_9, -0.99));
    let high = |x: Double| d(f(x) - 9.99);
    let found = find_brackets(&high, d(10.0));
    assert_eq!(found.len(), 1);
    assert_eq!(f(found[0].1), 10.0);
}

#[test]
fn grid_search_keeps_small_residuals_run_by_run() {
    let g = |x: Double| d((f(x) - 1.0) * (f(x) - 2.0));
    let runs = vec![
        vec![d(0.0), d(1.5), d(4.0)],
        vec![],
        vec![d(1.5), d(3.0)],
        vec![d(5.0), d(6.0)],
    ];
    let roots: Vec<f64> = brentq_grid_search(&runs, &g).into_iter().map(f).collect();
    assert_eq!(roots.len(), 3);
    assert!((roots[0] - 1.0).abs() < 1e-12);
    assert!((roots[1] - 2.0).abs() < 1e-12);
    assert!((roots[2] - 2.0).abs() < 1e-12);
    // A jump over zero brackets, but its residual is not small.
    let jump = |x: Double| d(if f(x) < 0.3 { -1.0 } else { 1.0 });
    assert!(brentq_grid_search(&vec![vec![d(0.0), d(1.0)]], &jump).is_empty());
}

#[test]
fn constants_are_the_doubles_they_are_said_to_be() {
    for (bits, value) in [
        (double::ONE, 1.0),
        (double::TWO, 2.0),
        (double::MINUS_ONE, -1.0),
        (newton::EXCEL_EPS, 1e-10),
        (newton::EXCEL_SCAN_START, -0.99),
        (newton::EXCEL_SCAN_STEP, 0.01),
        (newton::STALLED_STEP, 1e-12),
        (newton::MAX_ERROR, 1e-9),
        (brent::XTOL, 2e-14),
        (brent::RTOL, 8.881_784_197_001_252e-16),
        (brent::THREE, 3.0),
        (brent::GRID_SEARCH_TOL, 1e-3),
        (crossings::BRACKET_LO, -0.999_999_999_9),
        (crossings::BRACKET_FINE_START, -0.99),
        (crossings::BRACKET_FINE_STEP, 0.005),
        (crossings::BRACKET_GROWTH, 1.05),
        (flow::RESIDUAL_REL_TOL, 1e-9),
        (flow::DISTINCT_ROOT_TOL, 1e-7),
        (flow::DISTINCT_ROOT_U_TOL, 1e-7),
        (log_rate::MIN_SEARCHED_LOG_RATE, -36.736_800_569_677_1),
        (log_rate::MAX_SEARCHED_LOG_RATE, 709.782_712_893_384),
        (log_rate::FINE_HALF_WIDTH, 8.0),
        (log_rate::FINE_STEP, 0.01),
        (log_rate::LOW_STEP, 0.25),
        (log_rate::HIGH_STEP, 0.5),
        (payments::DAYS_PER_YEAR, 365.0),
        (payments::DAYS_PER_YEAR_364, 364.0),
        (payments::DAYS_PER_YEAR_360, 360.0),
        (binding::MS_PER_DAY, 86_400_000.0),
        (binding::SECONDS_PER_DAY, 86_400.0),
        (xirr::xirr::DEFAULT_GUESS, 0.1),
    ] {
        assert_eq!(bits, f64::to_bits(value), "{value}");
    }
}
