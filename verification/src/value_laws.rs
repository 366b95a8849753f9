//! What present values are: running totals of discounted amounts, whatever the
//! signs.

use crate::arithmetic;
use crate::double;
use crate::double::{Double, INF_BITS, MINUS_ONE, ONE};
use crate::flow;
use crate::flow::Flow;
use crate::host::{Call, DayCount};
use crate::netted;
use crate::netted::NettedFlow;
use crate::payment_laws;
use crate::payments::DateLike;
use crate::rounding_laws;
use crate::sign_laws;
use vstd::prelude::*;

verus! {

/// Each total is the one before it plus the next term, and the first is zero.
pub open spec fn running(totals: Seq<Double>, terms: Seq<Double>) -> bool {
    &&& totals.len() == terms.len() + 1
    &&& totals[0] == Double::from_bits(0)
    &&& forall|i: int|
        0 <= i < terms.len() ==> (#[trigger] totals[i]).sum(terms[i]) == totals[i + 1]
}

// ---------------------------------------------------------------------------
// The present value of payments
// ---------------------------------------------------------------------------

/// What payment `i` is worth at `rate`: its amount times one plus the rate to the
/// power of minus its year fraction.
pub open spec fn worth(flow: Flow, m: spec_fn(Call) -> Double, rate: Double, i: int) -> Double {
    flow.amounts[i].product(
        m(Call::Powf(Double::from_bits(ONE).sum(rate), flow.deltas[i].opposite())),
    )
}

/// Above `-1` the present value is the total of what the payments are worth, in
/// input order, whatever their signs, and its derivative is that of their
/// derivatives. At `-1` and below both are infinite. A payment is an amount that has
/// a year fraction.
pub proof fn law_present_value_is_a_running_total(
    flow: Flow,
    m: spec_fn(Call) -> Double,
    rate: Double,
    n: nat,
) -> (totals: (Seq<Double>, Seq<Double>))
    requires
        n == if flow.deltas.len() <= flow.amounts.len() {
            flow.deltas.len()
        } else {
            flow.amounts.len()
        },
    ensures
        rate.le(Double::from_bits(MINUS_ONE)) ==> flow.npv(m, rate) == (
            Double::from_bits(INF_BITS),
            Double::from_bits(INF_BITS),
        ),
        !rate.le(Double::from_bits(MINUS_ONE)) ==> {
            &&& running(totals.0, Seq::new(n, |i: int| worth(flow, m, rate, i)))
            &&& flow.npv(m, rate).0 == totals.0.last()
            &&& running(
                totals.1,
                Seq::new(
                    n,
                    |i: int|
                        worth(flow, m, rate, i).product(flow.deltas[i].opposite()).quotient(
                            Double::from_bits(ONE).sum(rate),
                        ),
                ),
            )
            &&& flow.npv(m, rate).1 == totals.1.last()
        },
{
    let base = Double::from_bits(ONE).sum(rate);
    let values = Seq::new(
        n + 1,
        |i: int| flow::discounted(m, flow.amounts, flow.deltas, base, i),
    );
    let derivs = Seq::new(
        n + 1,
        |i: int| flow::discounted_deriv(m, flow.amounts, flow.deltas, base, i),
    );
    (values, derivs)
}

/// The present value is additive: with one more payment it is what it was plus
/// what that payment is worth.
pub proof fn law_present_value_is_additive(
    flow: Flow,
    m: spec_fn(Call) -> Double,
    rate: Double,
    amount: Double,
    delta: Double,
)
    requires
        flow.amounts.len() == flow.deltas.len(),
        !rate.le(Double::from_bits(MINUS_ONE)),
    ensures
        ({
            let more = Flow { amounts: flow.amounts.push(amount), deltas: flow.deltas.push(delta) };
            more.npv(m, rate).0 == flow.npv(m, rate).0.sum(
                amount.product(m(Call::Powf(Double::from_bits(ONE).sum(rate), delta.opposite()))),
            )
        }),
{
    let more = Flow { amounts: flow.amounts.push(amount), deltas: flow.deltas.push(delta) };
    let n = flow.amounts.len();
    let a = law_present_value_is_a_running_total(flow, m, rate, n).0;
    let b = law_present_value_is_a_running_total(more, m, rate, n + 1).0;
    assert forall|i: int| 0 <= i < n implies worth(flow, m, rate, i) == #[trigger] worth(
        more,
        m,
        rate,
        i,
    ) by {}
    lemma_same_totals(
        a,
        b,
        Seq::new(n, |i: int| worth(flow, m, rate, i)),
        Seq::new(n + 1, |i: int| worth(more, m, rate, i)),
        n as int,
    );
    assert(b[n as int].sum(worth(more, m, rate, n as int)) == b[n as int + 1]);
}

/// Totals of the same terms are the same.
proof fn lemma_same_totals(
    a: Seq<Double>,
    b: Seq<Double>,
    s: Seq<Double>,
    t: Seq<Double>,
    n: int,
)
    requires
        running(a, s),
        running(b, t),
        0 <= n <= s.len(),
        n <= t.len(),
        forall|i: int| 0 <= i < n ==> #[trigger] s[i] == t[i],
    ensures
        a[n] == b[n],
    decreases n,
{
    if n > 0 {
        lemma_same_totals(a, b, s, t, n - 1);
        assert(s[n - 1] == t[n - 1]);
        assert(a[n - 1].sum(s[n - 1]) == a[n]);
        assert(b[n - 1].sum(t[n - 1]) == b[n]);
    }
}

/// The present value of a schedule with one more dated payment is that of the
/// schedule plus what the payment is worth, by its own year fraction.
pub proof fn law_a_dated_payment_adds_its_worth(
    m: spec_fn(Call) -> Double,
    dates: Seq<DateLike>,
    amounts: Seq<Double>,
    day_count: Option<DayCount>,
    date: DateLike,
    amount: Double,
    rate: Double,
)
    requires
        dates.len() == amounts.len(),
        dates.len() > 0,
        !rate.le(Double::from_bits(MINUS_ONE)),
    ensures
        ({
            let before = flow::flow_of(m, dates, amounts, day_count);
            let after = flow::flow_of(m, dates.push(date), amounts.push(amount), day_count);
            after.npv(m, rate).0 == before.npv(m, rate).0.sum(
                amount.product(
                    m(
                        Call::Powf(
                            Double::from_bits(ONE).sum(rate),
                            after.deltas[dates.len() as int].opposite(),
                        ),
                    ),
                ),
            )
        }),
{
    let before = flow::flow_of(m, dates, amounts, day_count);
    let after = flow::flow_of(m, dates.push(date), amounts.push(amount), day_count);
    payment_laws::law_a_further_payment_moves_no_other(m, dates, amounts, day_count, date, amount);
    law_present_value_is_additive(before, m, rate, amount, after.deltas[dates.len() as int]);
    assert(after.amounts == before.amounts.push(amount));
    assert(after.deltas == before.deltas.push(after.deltas[dates.len() as int]));
    assert(after == (Flow {
        amounts: before.amounts.push(amount),
        deltas: before.deltas.push(after.deltas[dates.len() as int]),
    }));
}

/// A single payment due at once is worth its amount, where a number to the power
/// of zero is one; and a schedule without payments is worth nothing.
pub proof fn law_a_payment_due_at_once_is_worth_its_amount(
    m: spec_fn(Call) -> Double,
    amount: Double,
    delta: Double,
    rate: Double,
)
    requires
        amount.finite(),
        delta.zero(),
        !rate.le(Double::from_bits(MINUS_ONE)),
        forall|x: Double, y: Double|
            y.zero() ==> #[trigger] m(Call::Powf(x, y)) == Double::from_bits(ONE),
    ensures
        (Flow { amounts: Seq::empty(), deltas: Seq::empty() }).npv(m, rate).0
            == Double::from_bits(0),
        (Flow { amounts: seq![amount], deltas: seq![delta] }).npv(m, rate).0.same(amount),
{
    let none = Flow { amounts: Seq::empty(), deltas: Seq::empty() };
    let one = Flow { amounts: seq![amount], deltas: seq![delta] };
    let totals = law_present_value_is_a_running_total(none, m, rate, 0).0;
    law_present_value_is_additive(none, m, rate, amount, delta);
    assert(none.amounts.push(amount) =~= one.amounts);
    assert(none.deltas.push(delta) =~= one.deltas);
    let w = m(Call::Powf(Double::from_bits(ONE).sum(rate), delta.opposite()));
    assert(w == Double::from_bits(ONE));
    sign_laws::lemma_times_one(amount.magnitude());
    sign_laws::lemma_product_sign(amount, w);
    sign_laws::lemma_product_sign(amount.magnitude(), w);
    arithmetic::lemma_units_order(0, 0);
    arithmetic::lemma_units_order(amount.mag(), amount.mag());
    rounding_laws::lemma_round_exact(amount.mag(), 1);
    assert(double::units(amount.mag()) * 1 == double::units(amount.mag()));
}

// ---------------------------------------------------------------------------
// The objective
// ---------------------------------------------------------------------------

/// The discount factor of term `i` at log-rate `u`, scaled so that the largest is
/// that of an exponent of zero: relative to the earliest term for rates from zero
/// up, to the latest one below.
pub open spec fn factor(
    terms: Seq<netted::Term>,
    m: spec_fn(Call) -> Double,
    u: Double,
    i: int,
) -> Double {
    let origin = if Double::from_bits(0).le(u) {
        terms.first().delta
    } else {
        terms.last().delta
    };
    m(Call::Exp(u.opposite().product(terms[i].delta.difference(origin))))
}

/// The objective is the total of the netted amounts times their factors, its
/// derivative that of minus their year fractions times the same, and its size
/// that of their magnitudes.
pub proof fn law_the_objective_is_a_running_total(
    terms: Seq<netted::Term>,
    m: spec_fn(Call) -> Double,
    u: Double,
) -> (totals: (Seq<Double>, Seq<Double>, Seq<Double>))
    ensures
        ({
            let n = terms.len();
            let due = |i: int| terms[i].amount.product(factor(terms, m, u, i));
            &&& running(totals.0, Seq::new(n, |i: int| due(i)))
            &&& running(
                totals.1,
                Seq::new(n, |i: int| terms[i].delta.product(due(i)).opposite()),
            )
            &&& running(
                totals.2,
                Seq::new(
                    n,
                    |i: int| terms[i].amount.magnitude().product(factor(terms, m, u, i)),
                ),
            )
            &&& forall|flow: Flow|
                flow.terms() == terms ==> #[trigger] flow.g(m, u) == (
                    totals.0.last(),
                    totals.1.last(),
                )
            &&& forall|flow: Flow|
                flow.terms() == terms ==> #[trigger] flow.gross(m, u) == totals.2.last()
            &&& forall|flow: NettedFlow|
                flow.terms@ == terms ==> #[trigger] flow.g(m, u) == (
                    totals.0.last(),
                    totals.1.last(),
                )
            &&& forall|flow: NettedFlow|
                flow.terms@ == terms ==> #[trigger] flow.gross(m, u) == totals.2.last()
        }),
{
    let n = terms.len();
    let values = Seq::new(n + 1, |i: int| netted::g_value(m, terms, u, i));
    let derivs = Seq::new(n + 1, |i: int| netted::g_deriv(m, terms, u, i));
    let sizes = Seq::new(n + 1, |i: int| netted::g_gross(m, terms, u, i));
    (values, derivs, sizes)
}

} // verus!
