//! How many roots the enumeration lists.

use crate::double::Double;
use crate::flow;
use crate::flow::Flow;
use crate::grid_laws;
use crate::host::Call;
use crate::log_rate;
use crate::netted::Shape;
use crate::optimize::bracket_laws;
use crate::optimize::brent;
use crate::optimize::crossings;
use crate::optimize::crossings::Crossing;
use crate::optimize::laws;
use crate::search;
use crate::sorting;
use crate::sorting::Ranked;
use crate::xirr_laws;
use vstd::prelude::*;

verus! {

/// The turning points that are offered as roots: those that no two crossings
/// straddle.
pub open spec fn offered(flow: Flow, m: spec_fn(Call) -> Double) -> Seq<Double> {
    search::lone(flow.extrema(m), flow.crossed(m), flow.extrema(m).len() as int)
}

/// The log-rates whose rate passes as a root.
pub open spec fn passes(flow: Flow, m: spec_fn(Call) -> Double) -> spec_fn(Double) -> bool {
    |u: Double| flow.is_root(m, log_rate::rate_of(m, u))
}

/// How many elements of `s` satisfy `p`.
pub open spec fn tally(s: Seq<Double>, p: spec_fn(Double) -> bool) -> nat
    decreases s.len(),
{
    if s.len() == 0 {
        0
    } else if p(s.last()) {
        tally(s.drop_last(), p) + 1
    } else {
        tally(s.drop_last(), p)
    }
}

/// No more roots are listed than there are sign changes and offered turning
/// points that pass.
pub proof fn law_listed_roots_are_bounded(flow: Flow, m: spec_fn(Call) -> Double)
    ensures
        flow.roots(m).len() <= flow.change_count() + tally(offered(flow, m), passes(flow, m)),
{
    xirr_laws::law_nothing_is_enumerated_without_cause(flow, m);
    if flow.shape() != Shape::NoRootExists && !flow.poisoned() {
        let p = passes(flow, m);
        let found = flow.crossed(m);
        let all = found + offered(flow, m);
        let us = flow.candidates(m);
        let rates = flow.roots_among(m, us, us.len() as int);
        let tol = Double::from_bits(flow::DISTINCT_ROOT_TOL);
        let u_tol = Double::from_bits(flow::DISTINCT_ROOT_U_TOL);
        lemma_thinned_len(sorting::sorted(rates), sorting::within(tol));
        sorting::lemma_sorted(rates);
        lemma_roots_tally(flow, m, us, us.len() as int);
        assert(us.take(us.len() as int) =~= us);
        lemma_thinned_tally(sorting::sorted(all), sorting::within(u_tol), p);
        lemma_sorted_tally(all, p);
        lemma_tally_parts(found, offered(flow, m), p);
        lemma_tally_len(found, p);
        let grid = flow.refined_grid(m);
        let c = crossings::crossings(flow.value_fn(m), grid, grid.len() as int);
        lemma_gathered_len(flow.value_fn(m), c, c.len() as int, flow.root_bound());
    }
}

/// No more roots are listed than there are sign changes, where no offered
/// turning point passes as a root.
pub proof fn law_listed_roots_do_not_outnumber_sign_changes(
    flow: Flow,
    m: spec_fn(Call) -> Double,
)
    requires
        forall|i: int|
            0 <= i < offered(flow, m).len() ==> !flow.is_root(
                m,
                log_rate::rate_of(m, #[trigger] offered(flow, m)[i]),
            ),
    ensures
        flow.roots(m).len() <= flow.change_count(),
{
    law_listed_roots_are_bounded(flow, m);
    lemma_tally_none(offered(flow, m), passes(flow, m));
}

/// Every crossing that the scan meets leads to a rate that passes as a root.
pub open spec fn crossings_pass(flow: Flow, m: spec_fn(Call) -> Double) -> bool {
    let grid = flow.refined_grid(m);
    let met = crossings::crossings(flow.value_fn(m), grid, grid.len() as int);
    forall|i: int|
        0 <= i < met.len() ==> flow.is_root(
            m,
            log_rate::rate_of(m, search::refined(flow.value_fn(m), #[trigger] met[i])),
        )
}

/// With one sign change and no turning point on offer, exactly one root is
/// listed: provided the grid reaches far enough, as for any odd number of sign
/// changes, and the crossings it meets lead to rates that pass.
pub proof fn law_one_sign_change_lists_one_root(flow: Flow, m: spec_fn(Call) -> Double)
    requires
        flow.change_count() == 1,
        offered(flow, m).len() == 0,
        flow.refined_grid(m).len() > 0,
        forall|i: int|
            0 <= i < flow.refined_grid(m).len() ==> flow.g(
                m,
                #[trigger] flow.refined_grid(m)[i],
            ).0.finite(),
        ({
            let low = flow.g(m, flow.refined_grid(m)[0]).0;
            let high = flow.g(m, flow.refined_grid(m).last()).0;
            &&& !low.zero() && low.positive() == flow.terms().last().amount.positive()
            &&& !high.zero() && high.positive() == flow.terms()[0].amount.positive()
        }),
        crossings_pass(flow, m),
    ensures
        flow.roots(m).len() == 1,
        flow.is_root(m, flow.roots(m)[0]),
{
    xirr_laws::law_odd_sign_changes_are_bracketed(flow, m);
    lemma_one_listed(flow, m);
}

proof fn lemma_one_listed(flow: Flow, m: spec_fn(Call) -> Double)
    requires
        flow.change_count() == 1,
        offered(flow, m).len() == 0,
        crossings_pass(flow, m),
        crossings::crossings(
            flow.value_fn(m),
            flow.refined_grid(m),
            flow.refined_grid(m).len() as int,
        ).len() > 0,
    ensures
        flow.roots(m).len() == 1,
        flow.is_root(m, flow.roots(m)[0]),
{
    let f = flow.value_fn(m);
    let grid = flow.refined_grid(m);
    let met = crossings::crossings(f, grid, grid.len() as int);
    let u = search::refined(f, met[0]);
    let rate = log_rate::rate_of(m, u);
    assert(flow.is_root(m, rate));
    assert(u.finite());
    lemma_gathered_one(f, met, met.len() as int);
    assert(flow.crossed(m) =~= seq![u]);
    let all = flow.crossed(m) + offered(flow, m);
    assert(all =~= seq![u]);
    lemma_alone(u, sorting::within(Double::from_bits(flow::DISTINCT_ROOT_U_TOL)));
    assert(flow.candidates(m) == seq![u]);
    reveal_with_fuel(Flow::roots_among, 2);
    assert(flow.roots_among(m, seq![u], 1) =~= seq![rate]);
    lemma_alone(rate, sorting::within(Double::from_bits(flow::DISTINCT_ROOT_TOL)));
}

// ---------------------------------------------------------------------------
// Completeness
// ---------------------------------------------------------------------------

/// `r` stands for `x`: it is `x`, or at most `1e-7` away.
pub open spec fn stands_for(r: Double, x: Double) -> bool {
    r == x || x.difference(r).magnitude().le(Double::from_bits(0x3e7a_d7f2_9abc_af48))
}

/// The crossings that the scan of the objective meets, in order.
pub open spec fn met(flow: Flow, m: spec_fn(Call) -> Double) -> Seq<Crossing> {
    let grid = flow.refined_grid(m);
    crossings::crossings(flow.value_fn(m), grid, grid.len() as int)
}

/// Every log-rate that is tried and whose rate passes is listed, up to the
/// distance at which two roots count as one.
pub proof fn law_every_candidate_that_passes_is_listed(
    flow: Flow,
    m: spec_fn(Call) -> Double,
    u: Double,
)
    requires
        flow.candidates(m).contains(u),
        flow.change_count() > 0,
        flow.is_root(m, log_rate::rate_of(m, u)),
    ensures
        exists|r: Double| #[trigger]
            flow.roots(m).contains(r) && stands_for(r, log_rate::rate_of(m, u)),
{
    let us = flow.candidates(m);
    let rate = log_rate::rate_of(m, u);
    let rates = flow.roots_among(m, us, us.len() as int);
    let close = sorting::within(Double::from_bits(flow::DISTINCT_ROOT_TOL));
    let k = choose|k: int| 0 <= k < us.len() && us[k] == u;
    lemma_passing_is_kept(flow, m, us, us.len() as int, k);
    sorting::lemma_sorted_contains(rates, rate);
    sorting::lemma_thinned_covers(sorting::sorted(rates), close, rate);
    let roots = flow.roots(m);
    if roots.contains(rate) {
        assert(stands_for(rate, rate));
    } else {
        let r = choose|r: Double| #[trigger] roots.contains(r) && close(rate, r);
        assert(stands_for(r, rate));
    }
}

proof fn lemma_passing_is_kept(
    flow: Flow,
    m: spec_fn(Call) -> Double,
    us: Seq<Double>,
    n: int,
    k: int,
)
    requires
        0 <= k < n <= us.len(),
        flow.is_root(m, log_rate::rate_of(m, us[k])),
    ensures
        flow.roots_among(m, us, n).contains(log_rate::rate_of(m, us[k])),
    decreases n,
{
    let rate = log_rate::rate_of(m, us[k]);
    let rest = flow.roots_among(m, us, n - 1);
    let all = flow.roots_among(m, us, n);
    if k < n - 1 {
        lemma_passing_is_kept(flow, m, us, n - 1, k);
        let j = choose|j: int| 0 <= j < rest.len() && rest[j] == rate;
        assert(all[j] == rate);
    } else {
        assert(all[rest.len() as int] == rate);
    }
}

/// A scan for roots leads to every crossing it meets, up to as many as it may
/// list.
proof fn lemma_gathers_all(
    f: spec_fn(Double) -> Double,
    met: Seq<Crossing>,
    n: int,
    bound: nat,
    i: int,
)
    requires
        0 <= i < n <= met.len(),
        i < bound,
        search::refined(f, met[i]).finite(),
    ensures
        search::gathered(f, met, n, bound).contains(search::refined(f, met[i])),
    decreases n,
{
    let u = search::refined(f, met[i]);
    let rest = search::gathered(f, met, n - 1, bound);
    let all = search::gathered(f, met, n, bound);
    if i < n - 1 {
        lemma_gathers_all(f, met, n - 1, bound, i);
        let j = choose|j: int| 0 <= j < rest.len() && rest[j] == u;
        assert(all[j] == u);
    } else {
        lemma_gathered_few(f, met, i, bound);
        assert(all[rest.len() as int] == u);
    }
}

proof fn lemma_gathered_few(f: spec_fn(Double) -> Double, met: Seq<Crossing>, n: int, bound: nat)
    requires
        0 <= n,
    ensures
        search::gathered(f, met, n, bound).len() <= n,
    decreases n,
{
    if n > 0 {
        lemma_gathered_few(f, met, n - 1, bound);
    }
}

/// A scan of any grid gathers what its crossings lead to: all of it up to the number
/// it may list, in order, no more than that, and nothing else.
pub proof fn law_a_scan_gathers_what_it_meets(
    f: spec_fn(Double) -> Double,
    grid: Seq<Double>,
    bound: nat,
    i: int,
    x: Double,
)
    ensures
        ({
            let c = crossings::crossings(f, grid, grid.len() as int);
            let roots = search::crossing_roots(f, grid, bound);
            &&& roots.len() <= bound
            &&& 0 <= i < c.len() && i < bound && search::refined(f, c[i]).finite()
                ==> roots.contains(search::refined(f, c[i]))
            &&& roots.contains(x) ==> x.finite() && exists|j: int|
                0 <= j < c.len() && search::refined(f, #[trigger] c[j]) == x
        }),
{
    let c = crossings::crossings(f, grid, grid.len() as int);
    lemma_gathered_len(f, c, c.len() as int, bound);
    if 0 <= i < c.len() && i < bound && search::refined(f, c[i]).finite() {
        lemma_gathers_all(f, c, c.len() as int, bound, i);
    }
    if search::crossing_roots(f, grid, bound).contains(x) {
        lemma_gathers_nothing_else(f, c, c.len() as int, bound, x);
    }
}

proof fn lemma_gathers_nothing_else(
    f: spec_fn(Double) -> Double,
    met: Seq<Crossing>,
    n: int,
    bound: nat,
    x: Double,
)
    requires
        0 <= n <= met.len(),
        search::gathered(f, met, n, bound).contains(x),
    ensures
        x.finite(),
        exists|j: int| 0 <= j < met.len() && search::refined(f, #[trigger] met[j]) == x,
    decreases n,
{
    let all = search::gathered(f, met, n, bound);
    let k = choose|k: int| 0 <= k < all.len() && all[k] == x;
    let rest = search::gathered(f, met, n - 1, bound);
    if k < rest.len() {
        assert(rest[k] == x);
        lemma_gathers_nothing_else(f, met, n - 1, bound, x);
    } else {
        assert(search::refined(f, met[n - 1]) == x);
    }
}

/// Every crossing of the objective that the scan meets is tried: as many of them,
/// in order, as there are sign changes, and at least one. What is tried is where
/// the crossing leads, or something at most `1e-7` from that which stands for it.
pub proof fn law_every_crossing_is_tried(flow: Flow, m: spec_fn(Call) -> Double, i: int)
    requires
        0 <= i < met(flow, m).len(),
        i == 0 || i < flow.change_count(),
        search::refined(flow.value_fn(m), met(flow, m)[i]).finite(),
    ensures
        exists|u: Double| #[trigger]
            flow.candidates(m).contains(u) && stands_for(
                u,
                search::refined(flow.value_fn(m), met(flow, m)[i]),
            ),
{
    let f = flow.value_fn(m);
    let c = met(flow, m);
    let x = search::refined(f, c[i]);
    let found = flow.crossed(m);
    let all = found + offered(flow, m);
    lemma_gathers_all(f, c, c.len() as int, flow.root_bound(), i);
    let j = choose|j: int| 0 <= j < found.len() && found[j] == x;
    assert(all[j] == x);
    lemma_tried(flow, m, all, x);
}

/// What a scan finds is kept among the candidates, or something close to it is.
proof fn lemma_tried(flow: Flow, m: spec_fn(Call) -> Double, all: Seq<Double>, x: Double)
    requires
        all == flow.crossed(m) + offered(flow, m),
        all.contains(x),
    ensures
        exists|u: Double| #[trigger] flow.candidates(m).contains(u) && stands_for(u, x),
{
    let close = sorting::within(Double::from_bits(flow::DISTINCT_ROOT_U_TOL));
    let us = flow.candidates(m);
    sorting::lemma_sorted_contains(all, x);
    sorting::lemma_thinned_covers(sorting::sorted(all), close, x);
    if us.contains(x) {
        assert(stands_for(x, x));
    } else {
        let u = choose|u: Double| #[trigger] us.contains(u) && close(x, u);
        assert(stands_for(u, x));
    }
}

/// The enumeration is complete: every crossing that the scan meets, up to as many
/// as there are sign changes, is listed, if the rate it leads to passes, and with
/// it whatever else is tried at most `1e-7` away. Two log-rates and then two rates
/// that close count as one.
pub proof fn law_every_crossing_is_listed(flow: Flow, m: spec_fn(Call) -> Double, i: int)
    requires
        0 <= i < met(flow, m).len(),
        i < flow.change_count(),
        ({
            let x = search::refined(flow.value_fn(m), met(flow, m)[i]);
            &&& x.finite()
            &&& forall|u: Double| #[trigger]
                flow.candidates(m).contains(u) && stands_for(u, x) ==> flow.is_root(
                    m,
                    log_rate::rate_of(m, u),
                )
        }),
    ensures
        ({
            let x = search::refined(flow.value_fn(m), met(flow, m)[i]);
            exists|u: Double, r: Double|
                #![trigger flow.candidates(m).contains(u), flow.roots(m).contains(r)]
                {
                    &&& flow.candidates(m).contains(u) && stands_for(u, x)
                    &&& flow.roots(m).contains(r) && stands_for(r, log_rate::rate_of(m, u))
                }
        }),
{
    law_every_crossing_is_tried(flow, m, i);
    let x = search::refined(flow.value_fn(m), met(flow, m)[i]);
    let u = choose|u: Double| #[trigger] flow.candidates(m).contains(u) && stands_for(u, x);
    law_every_candidate_that_passes_is_listed(flow, m, u);
    let r = choose|r: Double| #[trigger]
        flow.roots(m).contains(r) && stands_for(r, log_rate::rate_of(m, u));
}

/// Turning points are tried too, unless crossings that are tried lie on either
/// side of them: a root where the objective touches zero without crossing it.
pub proof fn law_every_lone_turning_point_is_tried(
    flow: Flow,
    m: spec_fn(Call) -> Double,
    i: int,
)
    requires
        0 <= i < flow.extrema(m).len(),
        (forall|j: int|
            0 <= j < flow.crossed(m).len() ==> !(#[trigger] flow.crossed(m)[j]).lt(
                flow.extrema(m)[i],
            )) || (forall|j: int|
            0 <= j < flow.crossed(m).len() ==> (#[trigger] flow.crossed(m)[j]).lt(
                flow.extrema(m)[i],
            )),
    ensures
        exists|u: Double| #[trigger]
            flow.candidates(m).contains(u) && stands_for(u, flow.extrema(m)[i]),
{
    let x = flow.extrema(m)[i];
    let found = flow.crossed(m);
    let all = found + offered(flow, m);
    lemma_lone(flow.extrema(m), found, flow.extrema(m).len() as int, i);
    let j = choose|j: int| 0 <= j < offered(flow, m).len() && offered(flow, m)[j] == x;
    assert(all[found.len() + j] == x);
    lemma_tried(flow, m, all, x);
}

proof fn lemma_lone(extrema: Seq<Double>, found: Seq<Double>, n: int, i: int)
    requires
        0 <= i < n <= extrema.len(),
        !search::straddled(found, extrema[i]),
    ensures
        search::lone(extrema, found, n).contains(extrema[i]),
    decreases n,
{
    let rest = search::lone(extrema, found, n - 1);
    let all = search::lone(extrema, found, n);
    if i < n - 1 {
        lemma_lone(extrema, found, n - 1, i);
        let j = choose|j: int| 0 <= j < rest.len() && rest[j] == extrema[i];
        assert(all[j] == extrema[i]);
    } else {
        assert(all[rest.len() as int] == extrema[i]);
    }
}

/// Every turning point of the objective that the plain grid brackets is found: as
/// many as there are crossings of its derivative.
pub proof fn law_every_turning_point_is_found(flow: Flow, m: spec_fn(Call) -> Double, i: int)
    requires
        ({
            let nodes = log_rate::log_rate_nodes();
            let c = crossings::crossings(flow.deriv_fn(m), nodes, nodes.len() as int);
            &&& 0 <= i < c.len() && i < usize::MAX
            &&& search::refined(flow.deriv_fn(m), c[i]).finite()
        }),
    ensures
        ({
            let nodes = log_rate::log_rate_nodes();
            let c = crossings::crossings(flow.deriv_fn(m), nodes, nodes.len() as int);
            flow.extrema(m).contains(search::refined(flow.deriv_fn(m), c[i]))
        }),
{
    let nodes = log_rate::log_rate_nodes();
    let f = flow.deriv_fn(m);
    let c = crossings::crossings(f, nodes, nodes.len() as int);
    lemma_gathers_all(f, c, c.len() as int, usize::MAX as nat, i);
}

/// Every node of the plain grid and every turning point is a node of the refined
/// grid, and the refined grid has no others.
pub proof fn law_the_refined_grid_holds_the_grid_and_the_turning_points(
    flow: Flow,
    m: spec_fn(Call) -> Double,
    u: Double,
)
    ensures
        log_rate::log_rate_nodes().contains(u) || flow.extrema(m).contains(u) ==> exists|v: Double|
            #[trigger]
            flow.refined_grid(m).contains(v) && (v == u || u.same(v)),
        flow.refined_grid(m).contains(u) ==> log_rate::log_rate_nodes().contains(u)
            || flow.extrema(m).contains(u),
{
    let nodes = log_rate::log_rate_nodes();
    let extrema = flow.extrema(m);
    let all = nodes + extrema;
    let s = sorting::sorted(all);
    sorting::lemma_sorted(all);
    sorting::lemma_sorted_contains(all, u);
    sorting::lemma_thinned(s, sorting::equal());
    if nodes.contains(u) {
        let k = choose|k: int| 0 <= k < nodes.len() && nodes[k] == u;
        assert(all[k] == u);
    }
    if extrema.contains(u) {
        let k = choose|k: int| 0 <= k < extrema.len() && extrema[k] == u;
        assert(all[nodes.len() + k] == u);
    }
    if all.contains(u) {
        sorting::lemma_thinned_covers(s, sorting::equal(), u);
        if !flow.refined_grid(m).contains(u) {
            let v = choose|v: Double| #[trigger]
                flow.refined_grid(m).contains(v) && sorting::equal()(u, v);
            assert(u.same(v));
        }
        let k = choose|k: int| 0 <= k < all.len() && all[k] == u;
        if k < nodes.len() {
            assert(nodes[k] == u);
        } else {
            assert(extrema[k - nodes.len()] == u);
        }
    }
}

/// The scan meets every change of sign between neighbouring nodes and every node
/// at which the objective is zero.
pub proof fn law_no_sign_change_between_nodes_is_missed(
    flow: Flow,
    m: spec_fn(Call) -> Double,
    i: int,
)
    requires
        0 <= i < flow.refined_grid(m).len(),
    ensures
        ({
            let grid = flow.refined_grid(m);
            let here = flow.g(m, grid[i]).0;
            &&& here.zero() ==> met(flow, m).contains(Crossing::Exact(grid[i]))
            &&& i > 0 ==> {
                let before = flow.g(m, grid[i - 1]).0;
                before.finite() && here.finite() && (before.lt(Double::from_bits(0))
                    && Double::from_bits(0).lt(here) || here.lt(Double::from_bits(0))
                    && Double::from_bits(0).lt(before)) ==> met(flow, m).contains(
                    Crossing::Bracket(grid[i - 1], grid[i]),
                )
            }
        }),
{
    let grid = flow.refined_grid(m);
    let f = flow.value_fn(m);
    let here = f(grid[i]);
    laws::law_crossings_are_complete_and_sound(f, grid, Crossing::Exact(grid[i]));
    if here.zero() {
        assert(crossings::crossing_at(f, grid, i) == Some(Crossing::Exact(grid[i])));
    }
    if i > 0 {
        let before = f(grid[i - 1]);
        let c = Crossing::Bracket(grid[i - 1], grid[i]);
        laws::law_crossings_are_complete_and_sound(f, grid, c);
        if before.finite() && here.finite() && (before.lt(Double::from_bits(0))
            && Double::from_bits(0).lt(here) || here.lt(Double::from_bits(0))
            && Double::from_bits(0).lt(before)) {
            assert(crossings::crossing_at(f, grid, i) == Some(c));
        }
    }
}

/// No change of sign goes unlisted. Where the flow has at least as many sign changes
/// as the scan meets crossings, every pair of neighbouring nodes at which the
/// objective is finite and of opposite signs has a listed root: the rate of where
/// Brent's method ends between the two, provided it ends and what is tried within
/// `1e-7` of that passes, up to the distance at which two count as one.
pub proof fn law_every_change_of_sign_is_listed(flow: Flow, m: spec_fn(Call) -> Double, i: int)
    requires
        1 <= i < flow.refined_grid(m).len(),
        met(flow, m).len() <= flow.change_count(),
        ({
            let grid = flow.refined_grid(m);
            let (before, here) = (flow.g(m, grid[i - 1]).0, flow.g(m, grid[i]).0);
            let x = brent::brent(|u: Double| flow.g(m, u).0, grid[i - 1], grid[i], 100);
            &&& before.finite() && here.finite()
            &&& before.lt(Double::from_bits(0)) && Double::from_bits(0).lt(here) || here.lt(
                Double::from_bits(0),
            ) && Double::from_bits(0).lt(before)
            &&& x.finite()
            &&& forall|u: Double| #[trigger]
                flow.candidates(m).contains(u) && stands_for(u, x) ==> flow.is_root(
                    m,
                    log_rate::rate_of(m, u),
                )
        }),
    ensures
        ({
            let grid = flow.refined_grid(m);
            let x = brent::brent(|u: Double| flow.g(m, u).0, grid[i - 1], grid[i], 100);
            exists|u: Double, r: Double|
                #![trigger flow.candidates(m).contains(u), flow.roots(m).contains(r)]
                {
                    &&& flow.candidates(m).contains(u) && stands_for(u, x)
                    &&& flow.roots(m).contains(r) && stands_for(r, log_rate::rate_of(m, u))
                }
        }),
{
    let grid = flow.refined_grid(m);
    let c = Crossing::Bracket(grid[i - 1], grid[i]);
    assert(flow.value_fn(m) =~= (|u: Double| flow.g(m, u).0));
    law_no_sign_change_between_nodes_is_missed(flow, m, i);
    law_where_a_crossing_leads(flow.value_fn(m), grid[i - 1], grid[i]);
    let k = choose|k: int| 0 <= k < met(flow, m).len() && met(flow, m)[k] == c;
    law_every_crossing_is_listed(flow, m, k);
}

/// No node at which the objective is zero goes unlisted, under the same condition.
pub proof fn law_every_exact_zero_is_listed(flow: Flow, m: spec_fn(Call) -> Double, i: int)
    requires
        0 <= i < flow.refined_grid(m).len(),
        met(flow, m).len() <= flow.change_count(),
        flow.refined_grid(m)[i].finite(),
        flow.g(m, flow.refined_grid(m)[i]).0.zero(),
        forall|u: Double| #[trigger]
            flow.candidates(m).contains(u) && stands_for(u, flow.refined_grid(m)[i])
                ==> flow.is_root(m, log_rate::rate_of(m, u)),
    ensures
        exists|u: Double, r: Double|
            #![trigger flow.candidates(m).contains(u), flow.roots(m).contains(r)]
            {
                &&& flow.candidates(m).contains(u) && stands_for(u, flow.refined_grid(m)[i])
                &&& flow.roots(m).contains(r) && stands_for(r, log_rate::rate_of(m, u))
            },
{
    let x = flow.refined_grid(m)[i];
    law_no_sign_change_between_nodes_is_missed(flow, m, i);
    law_where_a_crossing_leads(flow.value_fn(m), x, x);
    let k = choose|k: int| 0 <= k < met(flow, m).len() && met(flow, m)[k] == Crossing::Exact(x);
    law_every_crossing_is_listed(flow, m, k);
}

/// A crossing leads to the node at which the objective is zero, or to where
/// Brent's method ends between the two nodes.
pub proof fn law_where_a_crossing_leads(f: spec_fn(Double) -> Double, lo: Double, hi: Double)
    ensures
        search::refined(f, Crossing::Exact(lo)) == lo,
        search::refined(f, Crossing::Bracket(lo, hi)) == brent::brent(f, lo, hi, 100),
{
}

// ---------------------------------------------------------------------------
// The whole searched range
// ---------------------------------------------------------------------------

/// `u` is one of the searched log-rates.
pub open spec fn searched(u: Double) -> bool {
    bracket_laws::between(
        Double::from_bits(log_rate::MIN_SEARCHED_LOG_RATE),
        Double::from_bits(log_rate::MAX_SEARCHED_LOG_RATE),
        u,
    )
}

/// On the searched log-rates the objective is finite and its derivative is a
/// number.
pub open spec fn defined_on_the_range(flow: Flow, m: spec_fn(Call) -> Double) -> bool {
    forall|u: Double| #[trigger]
        searched(u) ==> flow.g(m, u).0.finite() && !flow.g(m, u).1.nan()
}

/// The objective has opposite signs at the two ends of the searched log-rates.
pub open spec fn opposite_ends(flow: Flow, m: spec_fn(Call) -> Double) -> bool {
    let low = flow.g(m, Double::from_bits(log_rate::MIN_SEARCHED_LOG_RATE)).0;
    let high = flow.g(m, Double::from_bits(log_rate::MAX_SEARCHED_LOG_RATE)).0;
    !low.zero() && !high.zero() && low.negative() != high.negative()
}

/// Turning points are searched log-rates, and with them among its nodes the grid
/// still begins and ends where the search does.
pub proof fn law_the_refined_grid_spans_the_search(flow: Flow, m: spec_fn(Call) -> Double)
    requires
        defined_on_the_range(flow, m),
    ensures
        forall|i: int| 0 <= i < flow.extrema(m).len() ==> searched(#[trigger] flow.extrema(m)[i]),
        ({
            let grid = flow.refined_grid(m);
            &&& grid.len() > 0
            &&& grid[0] == Double::from_bits(log_rate::MIN_SEARCHED_LOG_RATE)
            &&& grid.last() == Double::from_bits(log_rate::MAX_SEARCHED_LOG_RATE)
            &&& forall|i: int| 0 <= i < grid.len() ==> searched(#[trigger] grid[i])
        }),
{
    let low = Double::from_bits(log_rate::MIN_SEARCHED_LOG_RATE);
    let high = Double::from_bits(log_rate::MAX_SEARCHED_LOG_RATE);
    let nodes = log_rate::log_rate_nodes();
    let extrema = flow.extrema(m);
    let f = flow.deriv_fn(m);
    let met = crossings::crossings(f, nodes, nodes.len() as int);
    lemma_nodes_searched();
    assert forall|u: Double| #[trigger] searched(u) implies !f(u).nan() by {
        assert(!flow.g(m, u).1.nan());
    }
    assert forall|i: int|
        0 <= i < met.len() && search::refined(f, met[i]).finite() implies searched(
        search::refined(f, #[trigger] met[i]),
    ) by {
        assert(met.contains(met[i]));
        lemma_refined_searched(f, nodes, met[i]);
    }
    lemma_gathered_searched(f, met, met.len() as int, usize::MAX as nat);
    let all = nodes + extrema;
    let s = sorting::sorted(all);
    let grid = flow.refined_grid(m);
    sorting::lemma_sorted(all);
    sorting::lemma_thinned(s, sorting::equal());
    assert forall|i: int| 0 <= i < s.len() implies searched(#[trigger] s[i]) by {
        assert(s.contains(s[i]));
        sorting::lemma_sorted_contains(all, s[i]);
        let j = choose|j: int| 0 <= j < all.len() && all[j] == s[i];
        if j < nodes.len() {
            assert(all[j] == nodes[j]);
        } else {
            assert(all[j] == extrema[j - nodes.len()]);
        }
    }
    assert(all[0] == low && all[nodes.len() - 1] == high);
    assert(all.contains(low) && all.contains(high));
    sorting::lemma_sorted_contains(all, low);
    sorting::lemma_sorted_contains(all, high);
    let i = choose|i: int| 0 <= i < s.len() && s[i] == low;
    let j = choose|j: int| 0 <= j < s.len() && s[j] == high;
    assert(s[0].place() <= s[i].place());
    assert(s[j].place() <= s[s.len() - 1].place());
    assert(searched(s[0]) && searched(s[s.len() - 1]));
    assert(s[0] == low && s.last() == high);
    lemma_thinned_ends(s);
    assert forall|i: int| 0 <= i < grid.len() implies searched(#[trigger] grid[i]) by {
        assert(grid.contains(grid[i]));
        assert(s.contains(grid[i]));
    }
}

/// The nodes of the grid are searched log-rates.
proof fn lemma_nodes_searched()
    ensures
        log_rate::log_rate_nodes().len() > 0,
        log_rate::log_rate_nodes()[0] == Double::from_bits(log_rate::MIN_SEARCHED_LOG_RATE),
        log_rate::log_rate_nodes().last() == Double::from_bits(log_rate::MAX_SEARCHED_LOG_RATE),
        forall|i: int|
            0 <= i < log_rate::log_rate_nodes().len() ==> searched(
                #[trigger] log_rate::log_rate_nodes()[i],
            ),
{
    let grid = log_rate::log_rate_nodes();
    grid_laws::law_log_rate_grid_spans_the_search();
    assert forall|i: int| 0 <= i < grid.len() implies searched(#[trigger] grid[i]) by {
        if 0 < i {
            assert(grid[0].lt(grid[i]));
        }
        if i < grid.len() - 1 {
            assert(grid[i].lt(grid[grid.len() - 1]));
        }
    }
}

/// A crossing on the grid leads to a searched log-rate, if to any.
proof fn lemma_refined_searched(f: spec_fn(Double) -> Double, nodes: Seq<Double>, c: Crossing)
    requires
        forall|u: Double| #[trigger] searched(u) ==> !f(u).nan(),
        forall|i: int| 0 <= i < nodes.len() ==> searched(#[trigger] nodes[i]),
        crossings::crossings(f, nodes, nodes.len() as int).contains(c),
    ensures
        search::refined(f, c).finite() ==> searched(search::refined(f, c)),
{
    laws::law_crossings_are_complete_and_sound(f, nodes, c);
    let i = choose|i: int|
        0 <= i < nodes.len() && #[trigger] crossings::crossing_at(f, nodes, i) == Some(c);
    assert(searched(nodes[i]));
    if let Crossing::Bracket(lo, hi) = c {
        assert(i > 0 && lo == nodes[i - 1] && hi == nodes[i]);
        assert(searched(lo));
        lemma_brent_searched(f, lo, hi);
    }
}

/// Brent's method between searched log-rates returns one, if it returns a number.
proof fn lemma_brent_searched(f: spec_fn(Double) -> Double, lo: Double, hi: Double)
    requires
        forall|u: Double| #[trigger] searched(u) ==> !f(u).nan(),
        searched(lo),
        searched(hi),
    ensures
        ({
            let u = brent::brent(f, lo, hi, search::BRENT_ITER as nat);
            u.finite() ==> searched(u)
        }),
{
    grid_laws::lemma_searched_width();
    bracket_laws::lemma_gap(
        Double::from_bits(log_rate::MIN_SEARCHED_LOG_RATE),
        Double::from_bits(log_rate::MAX_SEARCHED_LOG_RATE),
        lo,
        hi,
    );
    assert forall|y: Double| #[trigger] bracket_laws::between(lo, hi, y) implies !f(y).nan() by {
        assert(searched(y));
    }
    bracket_laws::law_brent_finds_a_root_of_the_bracket(f, lo, hi, search::BRENT_ITER as nat);
}

/// What is gathered from crossings that lead to searched log-rates is searched.
proof fn lemma_gathered_searched(
    f: spec_fn(Double) -> Double,
    met: Seq<Crossing>,
    n: int,
    bound: nat,
)
    requires
        n <= met.len(),
        forall|i: int|
            0 <= i < met.len() && search::refined(f, met[i]).finite() ==> searched(
                search::refined(f, #[trigger] met[i]),
            ),
    ensures
        forall|i: int|
            0 <= i < search::gathered(f, met, n, bound).len() ==> searched(
                #[trigger] search::gathered(f, met, n, bound)[i],
            ),
    decreases n,
{
    if n > 0 {
        lemma_gathered_searched(f, met, n - 1, bound);
        let u = search::refined(f, met[n - 1]);
        let rest = search::gathered(f, met, n - 1, bound);
        let found = search::gathered(f, met, n, bound);
        assert forall|i: int| 0 <= i < found.len() implies searched(#[trigger] found[i]) by {
            if i < rest.len() {
                assert(found[i] == rest[i]);
            } else {
                assert(u.finite() && found[i] == u);
            }
        }
    }
}

/// Dropping repeated numbers keeps the first, and a number equal to the last.
proof fn lemma_thinned_ends(s: Seq<Double>)
    requires
        s.len() > 0,
    ensures
        ({
            let t = sorting::thinned(s, sorting::equal());
            &&& t.len() > 0
            &&& t[0] == s[0]
            &&& t.last() == s.last() || s.last().same(t.last())
        }),
    decreases s.len(),
{
    if s.len() > 1 {
        lemma_thinned_ends(s.drop_last());
    } else {
        reveal_with_fuel(sorting::thinned, 2);
    }
}

/// Opposite signs at the two ends of the searched log-rates are never missed:
/// the scan meets a crossing.
pub proof fn law_opposite_ends_of_the_range_are_crossed(flow: Flow, m: spec_fn(Call) -> Double)
    requires
        defined_on_the_range(flow, m),
        opposite_ends(flow, m),
    ensures
        crossings::crossings(
            flow.value_fn(m),
            flow.refined_grid(m),
            flow.refined_grid(m).len() as int,
        ).len() > 0,
{
    let f = flow.value_fn(m);
    let grid = flow.refined_grid(m);
    law_the_refined_grid_spans_the_search(flow, m);
    assert forall|i: int| 0 <= i < grid.len() implies f(#[trigger] grid[i]).finite() by {
        assert(searched(grid[i]));
    }
    laws::law_opposite_ends_are_crossed(f, grid);
}

/// With one sign change and opposite signs at the two ends of the searched
/// log-rates, exactly one root is listed: provided no turning point is on offer
/// and the crossings that are met lead to rates that pass.
pub proof fn law_opposite_ends_list_the_one_root(flow: Flow, m: spec_fn(Call) -> Double)
    requires
        flow.change_count() == 1,
        defined_on_the_range(flow, m),
        opposite_ends(flow, m),
        offered(flow, m).len() == 0,
        crossings_pass(flow, m),
    ensures
        flow.roots(m).len() == 1,
        flow.is_root(m, flow.roots(m)[0]),
{
    law_opposite_ends_of_the_range_are_crossed(flow, m);
    lemma_one_listed(flow, m);
}

/// One number, sorted and thinned, is itself.
proof fn lemma_alone(x: Double, close: spec_fn(Double, Double) -> bool)
    ensures
        sorting::thinned(sorting::sorted(seq![x]), close) == seq![x],
{
    reveal_with_fuel(sorting::sorted, 2);
    reveal_with_fuel(sorting::thinned, 2);
    assert(seq![x].drop_last() =~= Seq::<Double>::empty());
    assert(sorting::sorted(seq![x]) =~= seq![x]);
    assert(sorting::thinned(seq![x], close) =~= seq![x]);
}

proof fn lemma_gathered_one(f: spec_fn(Double) -> Double, met: Seq<Crossing>, n: int)
    requires
        0 < n <= met.len(),
        search::refined(f, met[0]).finite(),
    ensures
        search::gathered(f, met, n, 1) == seq![search::refined(f, met[0])],
    decreases n,
{
    reveal_with_fuel(search::gathered, 2);
    if n > 1 {
        lemma_gathered_one(f, met, n - 1);
    } else {
        assert(search::gathered(f, met, 1, 1) =~= seq![search::refined(f, met[0])]);
    }
}

proof fn lemma_gathered_len(
    f: spec_fn(Double) -> Double,
    met: Seq<Crossing>,
    n: int,
    bound: nat,
)
    ensures
        search::gathered(f, met, n, bound).len() <= bound,
    decreases n,
{
    if n > 0 {
        lemma_gathered_len(f, met, n - 1, bound);
    }
}

proof fn lemma_roots_tally(flow: Flow, m: spec_fn(Call) -> Double, us: Seq<Double>, n: int)
    requires
        0 <= n <= us.len(),
    ensures
        flow.roots_among(m, us, n).len() == tally(us.take(n), passes(flow, m)),
    decreases n,
{
    if n > 0 {
        lemma_roots_tally(flow, m, us, n - 1);
        assert(us.take(n).drop_last() =~= us.take(n - 1));
    }
}

proof fn lemma_tally_len(s: Seq<Double>, p: spec_fn(Double) -> bool)
    ensures
        tally(s, p) <= s.len(),
    decreases s.len(),
{
    if s.len() > 0 {
        lemma_tally_len(s.drop_last(), p);
    }
}

proof fn lemma_tally_none(s: Seq<Double>, p: spec_fn(Double) -> bool)
    requires
        forall|i: int| 0 <= i < s.len() ==> !p(#[trigger] s[i]),
    ensures
        tally(s, p) == 0,
    decreases s.len(),
{
    if s.len() > 0 {
        let rest = s.drop_last();
        assert forall|i: int| 0 <= i < rest.len() implies !p(#[trigger] rest[i]) by {
            assert(rest[i] == s[i]);
        }
        lemma_tally_none(rest, p);
        assert(s[s.len() - 1] == s.last());
    }
}

proof fn lemma_tally_parts(a: Seq<Double>, b: Seq<Double>, p: spec_fn(Double) -> bool)
    ensures
        tally(a + b, p) == tally(a, p) + tally(b, p),
    decreases b.len(),
{
    if b.len() == 0 {
        assert(a + b =~= a);
    } else {
        lemma_tally_parts(a, b.drop_last(), p);
        assert((a + b).drop_last() =~= a + b.drop_last());
    }
}

proof fn lemma_push_tally(s: Seq<Double>, x: Double, p: spec_fn(Double) -> bool)
    ensures
        tally(s.push(x), p) == tally(s, p) + if p(x) {
            1nat
        } else {
            0nat
        },
{
    assert(s.push(x).drop_last() =~= s);
}

proof fn lemma_inserted_tally(s: Seq<Double>, x: Double, p: spec_fn(Double) -> bool)
    ensures
        tally(sorting::inserted(s, x), p) == tally(s.push(x), p),
    decreases s.len(),
{
    lemma_push_tally(s, x, p);
    if s.len() > 0 && !(s.last().rank() <= x.rank()) {
        let rest = s.drop_last();
        lemma_inserted_tally(rest, x, p);
        lemma_push_tally(rest, x, p);
        lemma_push_tally(sorting::inserted(rest, x), s.last(), p);
    }
}

proof fn lemma_sorted_tally(s: Seq<Double>, p: spec_fn(Double) -> bool)
    ensures
        tally(sorting::sorted(s), p) == tally(s, p),
    decreases s.len(),
{
    if s.len() > 0 {
        let rest = s.drop_last();
        lemma_sorted_tally(rest, p);
        lemma_inserted_tally(sorting::sorted(rest), s.last(), p);
        lemma_push_tally(sorting::sorted(rest), s.last(), p);
    }
}

proof fn lemma_thinned_tally(
    s: Seq<Double>,
    close: spec_fn(Double, Double) -> bool,
    p: spec_fn(Double) -> bool,
)
    ensures
        tally(sorting::thinned(s, close), p) <= tally(s, p),
    decreases s.len(),
{
    if s.len() > 0 {
        lemma_thinned_tally(s.drop_last(), close, p);
        lemma_push_tally(sorting::thinned(s.drop_last(), close), s.last(), p);
    }
}

proof fn lemma_thinned_len(s: Seq<Double>, close: spec_fn(Double, Double) -> bool)
    ensures
        sorting::thinned(s, close).len() <= s.len(),
    decreases s.len(),
{
    if s.len() > 0 {
        lemma_thinned_len(s.drop_last(), close);
    }
}

} // verus!
