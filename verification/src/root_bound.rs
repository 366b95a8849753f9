//! The number of roots of a cash flow: no more than it has sign changes.

use crate::descartes;
use crate::netted;
use crate::netted::Term;
use crate::sign_laws;
use vstd::prelude::*;

verus! {

/// `x` to the power `k`.
pub open spec fn power(x: real, k: nat) -> real
    decreases k,
{
    if k == 0 {
        1 as real
    } else {
        x * power(x, (k - 1) as nat)
    }
}

/// The exact present value of terms due after whole numbers of days, where `x`
/// is the discount factor of one day.
pub open spec fn present_value(terms: Seq<Term>, days: Seq<nat>, x: real) -> real
    decreases terms.len(),
{
    if terms.len() == 0 {
        0 as real
    } else {
        terms[0].amount.value() as real * power(x, days[0]) + present_value(
            terms.skip(1),
            days.skip(1),
            x,
        )
    }
}

/// A flow of terms due after whole numbers of days has no more roots than sign
/// changes: that many daily discount factors, and no more, can make its exact
/// present value vanish.
pub proof fn law_sign_changes_bound_the_roots(
    terms: Seq<Term>,
    days: Seq<nat>,
    roots: Seq<real>,
)
    requires
        terms.len() > 0,
        sign_laws::amounts_ok(terms),
        days.len() == terms.len(),
        forall|i: int, j: int| 0 <= i < j < days.len() ==> #[trigger] days[i] < #[trigger] days[j],
        forall|i: int| 0 <= i < roots.len() ==> #[trigger] roots[i] > 0 as real,
        forall|i: int, j: int|
            0 <= i < j < roots.len() ==> #[trigger] roots[i] != #[trigger] roots[j],
        forall|i: int|
            0 <= i < roots.len() ==> present_value(terms, days, #[trigger] roots[i]) == 0 as real,
    ensures
        roots.len() <= netted::changes(terms, terms.len() as int),
{
    let c = coefficients(terms, days, 0);
    lemma_coefficient_signs(terms, days, 0);
    lemma_changes_from_front(terms, terms.len() as int);
    assert(terms.take(terms.len() as int) =~= terms);
    assert forall|i: int| 0 <= i < roots.len() implies descartes::eval(c, #[trigger] roots[i])
        == 0 as real by {
        let x = roots[i];
        lemma_coefficients(terms, days, 0, x);
        assert(present_value(terms, days, x) == 0 as real);
        let e = descartes::eval(c, x);
        assert(power(x, 0) * e == e) by (nonlinear_arith)
            requires
                power(x, 0) == 1 as real,
        ;
    }
    descartes::law_descartes_rule_of_signs(c, roots);
}

/// The polynomial of the terms: one coefficient per day from day `from` on.
pub open spec fn coefficients(terms: Seq<Term>, days: Seq<nat>, from: nat) -> Seq<real>
    decreases terms.len(),
{
    if terms.len() == 0 {
        Seq::empty()
    } else {
        zeros((days[0] - from) as nat) + (seq![terms[0].amount.value() as real] + coefficients(
            terms.skip(1),
            days.skip(1),
            days[0] + 1,
        ))
    }
}

/// `k` zeros.
pub open spec fn zeros(k: nat) -> Seq<real>
    decreases k,
{
    if k == 0 {
        Seq::empty()
    } else {
        seq![0 as real] + zeros((k - 1) as nat)
    }
}

proof fn lemma_zeros(k: nat, c: Seq<real>, x: real)
    ensures
        descartes::eval(zeros(k) + c, x) == power(x, k) * descartes::eval(c, x),
        descartes::lead(zeros(k) + c) == descartes::lead(c),
        descartes::variations(zeros(k) + c) == descartes::variations(c),
    decreases k,
{
    let e = descartes::eval(c, x);
    if k == 0 {
        assert(zeros(k) + c =~= c);
        assert(power(x, k) * e == e) by (nonlinear_arith)
            requires
                power(x, k) == 1 as real,
        ;
    } else {
        let rest = zeros((k - 1) as nat) + c;
        lemma_zeros((k - 1) as nat, c, x);
        assert((zeros(k) + c).skip(1) =~= rest);
        assert((zeros(k) + c)[0] == 0 as real);
        let y = power(x, (k - 1) as nat);
        assert(x * (y * e) == (x * y) * e) by (nonlinear_arith);
    }
}

proof fn lemma_power_adds(x: real, a: nat, b: nat)
    ensures
        power(x, a + b) == power(x, a) * power(x, b),
    decreases a,
{
    let y = power(x, b);
    if a == 0 {
        assert(power(x, 0) * y == y) by (nonlinear_arith)
            requires
                power(x, 0) == 1 as real,
        ;
    } else {
        lemma_power_adds(x, (a - 1) as nat, b);
        let z = power(x, (a - 1) as nat);
        assert(x * (z * y) == (x * z) * y) by (nonlinear_arith);
        assert(a + b - 1 == (a - 1) + b);
    }
}

/// The polynomial's value is the present value.
proof fn lemma_coefficients(terms: Seq<Term>, days: Seq<nat>, from: nat, x: real)
    requires
        days.len() == terms.len(),
        forall|i: int, j: int| 0 <= i < j < days.len() ==> #[trigger] days[i] < #[trigger] days[j],
        days.len() > 0 ==> from <= days[0],
    ensures
        present_value(terms, days, x) == power(x, from) * descartes::eval(
            coefficients(terms, days, from),
            x,
        ),
    decreases terms.len(),
{
    if terms.len() == 0 {
        let y = power(x, from);
        assert(y * (0 as real) == 0 as real) by (nonlinear_arith);
    } else {
        let v = terms[0].amount.value() as real;
        let (more, later) = (terms.skip(1), days.skip(1));
        let next = days[0] + 1;
        assert(later.len() > 0 ==> later[0] == days[1]);
        assert forall|i: int, j: int| 0 <= i < j < later.len() implies #[trigger] later[i]
            < #[trigger] later[j] by {
            assert(later[i] == days[i + 1] && later[j] == days[j + 1]);
        }
        lemma_coefficients(more, later, next, x);
        let d = coefficients(more, later, next);
        let e = descartes::eval(d, x);
        let gap = (days[0] - from) as nat;
        let tail = seq![v] + d;
        assert(tail.skip(1) =~= d);
        assert(descartes::eval(tail, x) == v + x * e);
        lemma_zeros(gap, tail, x);
        lemma_power_adds(x, from, gap);
        let (a, b) = (power(x, from), power(x, gap));
        let w = power(x, days[0]);
        assert(w == a * b);
        assert(power(x, next) == x * w);
        let k = v + x * e;
        let z = x * e;
        assert(a * (b * k) == (a * b) * k) by (nonlinear_arith);
        assert(w * (v + z) == v * w + w * z) by (nonlinear_arith);
        assert(w * z == (x * w) * e) by (nonlinear_arith)
            requires
                z == x * e,
        ;
    }
}

/// Sign changes between neighbours, counted from the first.
pub open spec fn changes_from_front(terms: Seq<Term>) -> nat
    decreases terms.len(),
{
    if terms.len() <= 1 {
        0
    } else if terms[0].amount.positive() != terms[1].amount.positive() {
        changes_from_front(terms.skip(1)) + 1
    } else {
        changes_from_front(terms.skip(1))
    }
}

/// It makes no difference from which end sign changes are counted.
proof fn lemma_changes_from_front(terms: Seq<Term>, n: int)
    requires
        0 <= n <= terms.len(),
    ensures
        netted::changes(terms, n) == changes_from_front(terms.take(n)),
    decreases n,
{
    if n > 1 {
        lemma_changes_from_front(terms, n - 1);
        lemma_front_push(terms.take(n - 1), terms[n - 1]);
        assert(terms.take(n - 1).push(terms[n - 1]) =~= terms.take(n));
    }
}

proof fn lemma_front_push(s: Seq<Term>, t: Term)
    requires
        s.len() > 0,
    ensures
        changes_from_front(s.push(t)) == changes_from_front(s) + if s.last().amount.positive()
            != t.amount.positive() {
            1nat
        } else {
            0nat
        },
    decreases s.len(),
{
    let all = s.push(t);
    reveal_with_fuel(changes_from_front, 2);
    if s.len() > 1 {
        let rest = s.skip(1);
        lemma_front_push(rest, t);
        assert(all.skip(1) =~= rest.push(t));
        assert(rest.last() == s.last());
        assert(all[0] == s[0] && all[1] == s[1]);
    } else {
        assert(all[0] == s[0] && all[1] == t);
        assert(all.skip(1).len() == 1);
    }
}

/// The polynomial has the sign changes of the terms.
proof fn lemma_coefficient_signs(terms: Seq<Term>, days: Seq<nat>, from: nat)
    requires
        sign_laws::amounts_ok(terms),
        days.len() == terms.len(),
    ensures
        ({
            let c = coefficients(terms, days, from);
            &&& descartes::variations(c) == changes_from_front(terms)
            &&& terms.len() == 0 ==> descartes::lead(c) == 0
            &&& terms.len() > 0 ==> descartes::lead(c) == if terms[0].amount.positive() {
                1int
            } else {
                -1int
            }
        }),
    decreases terms.len(),
{
    if terms.len() > 0 {
        let v = terms[0].amount.value() as real;
        let (more, later) = (terms.skip(1), days.skip(1));
        assert forall|i: int| 0 <= i < more.len() implies (#[trigger] more[i]).amount.finite()
            && !more[i].amount.zero() by {
            assert(more[i] == terms[i + 1]);
        }
        lemma_coefficient_signs(more, later, days[0] + 1);
        sign_laws::lemma_value_sign(terms[0].amount);
        let d = coefficients(more, later, days[0] + 1);
        let tail = seq![v] + d;
        assert(tail.skip(1) =~= d);
        assert(tail[0] == v);
        lemma_zeros((days[0] - from) as nat, tail, 0 as real);
        if more.len() > 0 {
            assert(more[0] == terms[1]);
        }
    }
}

} // verus!
