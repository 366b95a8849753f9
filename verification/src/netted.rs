//! A cash flow reduced to its mathematical content: one term per distinct year
//! fraction.

use crate::double::Double;
use crate::host;
use crate::host::Call;
use crate::netted_laws;
use crate::sorting;
use crate::sorting::Ranked;
use vstd::prelude::*;

verus! {

/// An amount due a number of years after the first payment.
#[derive(Clone, Copy, Debug, PartialEq, Eq, Structural)]
pub struct Term {
    pub delta: Double,
    pub amount: Double,
}

impl Ranked for Term {
    open spec fn place(self) -> int {
        self.delta.rank()
    }

    fn precedes(self, other: Term) -> (r: bool) {
        self.delta.ranks_below(other.delta)
    }
}

/// What the sign pattern of a netted cash flow proves about its roots.
#[derive(Clone, Copy, Debug, PartialEq, Eq, Structural)]
pub enum Shape {
    /// No sign change: every term keeps one sign at every rate, so the sum
    /// never reaches zero.
    NoRootExists,
    /// An odd number of sign changes: the limits at the two ends of the domain
    /// have opposite signs.
    RootGuaranteed,
    /// An even number of sign changes, and not zero: nothing is proved.
    RootPossible,
    /// An amount or a year fraction is not finite: nothing can be proved.
    Undefined,
}

/// One term per distinct year fraction, ascending, zeros discarded.
pub struct NettedFlow {
    pub terms: Vec<Term>,
    /// The input held an amount or a year fraction that is not finite.
    pub poisoned: bool,
}

// ---------------------------------------------------------------------------
// Netting
// ---------------------------------------------------------------------------

/// The terms among the first `n` payments whose year fraction and amount are
/// finite.
pub open spec fn finite_terms(deltas: Seq<Double>, amounts: Seq<Double>, n: int) -> Seq<Term>
    decreases n,
{
    if n <= 0 {
        Seq::empty()
    } else {
        let rest = finite_terms(deltas, amounts, n - 1);
        if deltas[n - 1].finite() && amounts[n - 1].finite() {
            rest.push(Term { delta: deltas[n - 1], amount: amounts[n - 1] })
        } else {
            rest
        }
    }
}

/// Neighbouring terms with equal year fractions, summed from left to right.
pub open spec fn merged(s: Seq<Term>) -> Seq<Term>
    decreases s.len(),
{
    if s.len() == 0 {
        s
    } else {
        let rest = merged(s.drop_last());
        let t = s.last();
        if rest.len() > 0 && rest.last().delta.same(t.delta) {
            rest.drop_last().push(
                Term { delta: rest.last().delta, amount: rest.last().amount.sum(t.amount) },
            )
        } else {
            rest.push(t)
        }
    }
}

/// The terms whose amount is not zero.
pub open spec fn nonzero(s: Seq<Term>) -> Seq<Term>
    decreases s.len(),
{
    if s.len() == 0 {
        s
    } else if s.last().amount.zero() {
        nonzero(s.drop_last())
    } else {
        nonzero(s.drop_last()).push(s.last())
    }
}

/// The terms in order of their year fraction, equal ones summed, zeros dropped.
pub open spec fn netted(s: Seq<Term>) -> Seq<Term> {
    nonzero(merged(sorting::sorted(s)))
}

/// The number of payments that have both a year fraction and an amount.
pub open spec fn paired(deltas: Seq<Double>, amounts: Seq<Double>) -> int {
    if deltas.len() <= amounts.len() {
        deltas.len() as int
    } else {
        amounts.len() as int
    }
}

/// Every number is finite.
pub open spec fn all_finite(s: Seq<Double>) -> bool {
    forall|i: int| 0 <= i < s.len() ==> (#[trigger] s[i]).finite()
}

/// Year fractions strictly ascend, and no amount is zero.
pub open spec fn well_netted(terms: Seq<Term>) -> bool {
    &&& forall|i: int|
        #![trigger terms[i]]
        0 <= i < terms.len() ==> terms[i].delta.finite() && !terms[i].amount.zero()
    &&& forall|i: int, j: int|
        0 <= i < j < terms.len() ==> (#[trigger] terms[i]).delta.key() < (
        #[trigger] terms[j]).delta.key()
}

fn are_finite(v: &[Double]) -> (r: bool)
    ensures
        r == all_finite(v@),
{
    let mut i: usize = 0;
    while i < v.len()
        invariant
            i <= v.len(),
            forall|j: int| 0 <= j < i ==> (#[trigger] v@[j]).finite(),
        decreases v.len() - i,
    {
        if !v[i].is_finite() {
            return false;
        }
        i = i + 1;
    }
    true
}

fn merge(s: &Vec<Term>) -> (r: Vec<Term>)
    ensures
        r@ == merged(s@),
{
    let mut r: Vec<Term> = Vec::with_capacity(s.len());
    let mut i: usize = 0;
    assert(s@.take(0) =~= Seq::empty());
    while i < s.len()
        invariant
            i <= s.len(),
            r@ == merged(s@.take(i as int)),
        decreases s.len() - i,
    {
        assert(s@.take(i + 1).drop_last() =~= s@.take(i as int));
        let t = s[i];
        let n: usize = r.len();
        if n > 0 && r[n - 1].delta.is_eq(t.delta) {
            let ghost rest = r@;
            let last = Term { delta: r[n - 1].delta, amount: r[n - 1].amount.plus(t.amount) };
            r.set(n - 1, last);
            assert(r@ =~= rest.drop_last().push(last));
        } else {
            r.push(t);
        }
        i = i + 1;
    }
    assert(s@.take(s.len() as int) =~= s@);
    r
}

fn drop_zeros(s: &Vec<Term>) -> (r: Vec<Term>)
    ensures
        r@ == nonzero(s@),
{
    let mut r: Vec<Term> = Vec::with_capacity(s.len());
    let mut i: usize = 0;
    assert(s@.take(0) =~= Seq::empty());
    while i < s.len()
        invariant
            i <= s.len(),
            r@ == nonzero(s@.take(i as int)),
        decreases s.len() - i,
    {
        assert(s@.take(i + 1).drop_last() =~= s@.take(i as int));
        if !s[i].amount.is_zero() {
            r.push(s[i]);
        }
        i = i + 1;
    }
    assert(s@.take(s.len() as int) =~= s@);
    r
}

// ---------------------------------------------------------------------------
// Sign changes
// ---------------------------------------------------------------------------

/// Neighbouring terms among the first `n` of which exactly one is positive.
pub open spec fn changes(terms: Seq<Term>, n: int) -> nat
    decreases n,
{
    if n <= 1 {
        0
    } else if terms[n - 2].amount.positive() != terms[n - 1].amount.positive() {
        changes(terms, n - 1) + 1
    } else {
        changes(terms, n - 1)
    }
}

/// What the number of sign changes proves.
pub open spec fn shape_of(poisoned: bool, sign_changes: nat) -> Shape {
    if poisoned {
        Shape::Undefined
    } else if sign_changes == 0 {
        Shape::NoRootExists
    } else if sign_changes % 2 == 1 {
        Shape::RootGuaranteed
    } else {
        Shape::RootPossible
    }
}

// ---------------------------------------------------------------------------
// The objective function in log-rate space
// ---------------------------------------------------------------------------

/// The year fraction whose exponent is largest at log-rate `u`.
pub open spec fn reference(terms: Seq<Term>, u: Double) -> Double {
    if Double::from_bits(0).le(u) {
        terms[0].delta
    } else {
        terms[terms.len() - 1].delta
    }
}

/// The exponent of term `i` at log-rate `u`, less that of the reference.
pub open spec fn scaled_exponent(terms: Seq<Term>, u: Double, i: int) -> Double {
    u.opposite().product(terms[i].delta.difference(reference(terms, u)))
}

/// The discount factor of term `i`, scaled by that of the reference.
pub open spec fn weight(
    m: spec_fn(Call) -> Double,
    terms: Seq<Term>,
    u: Double,
    i: int,
) -> Double {
    m(Call::Exp(scaled_exponent(terms, u, i)))
}

/// The sum of the first `n` discounted amounts.
pub open spec fn g_value(
    m: spec_fn(Call) -> Double,
    terms: Seq<Term>,
    u: Double,
    n: int,
) -> Double
    decreases n,
{
    if n <= 0 {
        Double::from_bits(0)
    } else {
        g_value(m, terms, u, n - 1).sum(terms[n - 1].amount.product(weight(m, terms, u, n - 1)))
    }
}

/// The derivative of that sum with respect to `u`.
pub open spec fn g_deriv(
    m: spec_fn(Call) -> Double,
    terms: Seq<Term>,
    u: Double,
    n: int,
) -> Double
    decreases n,
{
    if n <= 0 {
        Double::from_bits(0)
    } else {
        g_deriv(m, terms, u, n - 1).difference(
            terms[n - 1].delta.product(
                terms[n - 1].amount.product(weight(m, terms, u, n - 1)),
            ),
        )
    }
}

/// The sum of the sizes of the first `n` discounted amounts.
pub open spec fn g_gross(
    m: spec_fn(Call) -> Double,
    terms: Seq<Term>,
    u: Double,
    n: int,
) -> Double
    decreases n,
{
    if n <= 0 {
        Double::from_bits(0)
    } else {
        g_gross(m, terms, u, n - 1).sum(
            terms[n - 1].amount.magnitude().product(weight(m, terms, u, n - 1)),
        )
    }
}

impl NettedFlow {
    /// The number of sign changes.
    pub open spec fn change_count(&self) -> nat {
        changes(self.terms@, self.terms@.len() as int)
    }

    /// What the sign pattern proves.
    pub open spec fn shape_spec(&self) -> Shape {
        shape_of(self.poisoned, self.change_count())
    }

    /// Value and derivative of the objective at log-rate `u`, scaled.
    pub open spec fn g(&self, m: spec_fn(Call) -> Double, u: Double) -> (Double, Double) {
        let n = self.terms@.len() as int;
        (g_value(m, self.terms@, u, n), g_deriv(m, self.terms@, u, n))
    }

    /// Gross size of the objective's terms at log-rate `u`, scaled alike.
    pub open spec fn gross(&self, m: spec_fn(Call) -> Double, u: Double) -> Double {
        g_gross(m, self.terms@, u, self.terms@.len() as int)
    }

    /// Nets a cash flow given by year fractions and amounts.
    pub fn new(deltas: &[Double], amounts: &[Double]) -> (flow: NettedFlow)
        ensures
            flow.terms@ == netted(finite_terms(deltas@, amounts@, paired(deltas@, amounts@))),
            flow.poisoned == !(all_finite(amounts@) && all_finite(deltas@)),
            well_netted(flow.terms@),
    {
        let poisoned = !are_finite(amounts) || !are_finite(deltas);
        let n: usize = if deltas.len() <= amounts.len() { deltas.len() } else { amounts.len() };
        let mut pairs: Vec<Term> = Vec::with_capacity(n);
        let mut i: usize = 0;
        while i < n
            invariant
                i <= n <= deltas.len(),
                n <= amounts.len(),
                pairs@ == finite_terms(deltas@, amounts@, i as int),
                netted_laws::finite_deltas(pairs@),
            decreases n - i,
        {
            if deltas[i].is_finite() && amounts[i].is_finite() {
                pairs.push(Term { delta: deltas[i], amount: amounts[i] });
            }
            i = i + 1;
        }
        proof {
            netted_laws::law_netted_terms_ascend(pairs@);
        }
        let terms = drop_zeros(&merge(&sorting::sort(&pairs)));
        NettedFlow { terms, poisoned }
    }

    /// Sign changes between neighbouring terms.
    pub fn sign_changes(&self) -> (n: usize)
        ensures
            n == self.change_count(),
            n <= self.terms@.len(),
    {
        let mut n: usize = 0;
        let mut i: usize = 1;
        while i < self.terms.len()
            invariant
                1 <= i,
                i <= self.terms.len() || (i == 1 && self.terms.len() == 0),
                n == changes(self.terms@, i as int),
                n < i,
            decreases self.terms.len() - i,
        {
            if self.terms[i - 1].amount.is_positive() != self.terms[i].amount.is_positive() {
                n = n + 1;
            }
            i = i + 1;
        }
        n
    }

    /// What the sign pattern proves about the roots.
    pub fn shape(&self) -> (s: Shape)
        ensures
            s == self.shape_spec(),
    {
        if self.poisoned {
            Shape::Undefined
        } else {
            let n: usize = self.sign_changes();
            if n == 0 {
                Shape::NoRootExists
            } else if n % 2 == 1 {
                Shape::RootGuaranteed
            } else {
                Shape::RootPossible
            }
        }
    }

    fn reference_at(&self, u: Double) -> (d: Double)
        requires
            self.terms@.len() > 0,
        ensures
            d == reference(self.terms@, u),
    {
        if Double::from_bits(0).is_le(u) {
            self.terms[0].delta
        } else {
            self.terms[self.terms.len() - 1].delta
        }
    }

    /// The objective at log-rate `u` and its derivative, both multiplied by one
    /// positive constant: that which makes the largest discount factor one.
    pub fn scaled_g<H>(&self, host: &H, u: Double) -> (r: (Double, Double))
        where H: Fn(Call) -> Double
        requires
            host::total(*host),
        ensures
            forall|m: spec_fn(Call) -> Double| #[trigger]
                host::follows(*host, m) ==> r == self.g(m, u),
    {
        let mut value = Double::from_bits(0);
        let mut deriv = Double::from_bits(0);
        if self.terms.len() == 0 {
            return (value, deriv);
        }
        let d_ref = self.reference_at(u);
        let mut i: usize = 0;
        while i < self.terms.len()
            invariant
                host::total(*host),
                i <= self.terms.len(),
                d_ref == reference(self.terms@, u),
                forall|m: spec_fn(Call) -> Double| #[trigger]
                    host::follows(*host, m) ==> value == g_value(m, self.terms@, u, i as int)
                        && deriv == g_deriv(m, self.terms@, u, i as int),
            decreases self.terms.len() - i,
        {
            let t = self.terms[i];
            let term = t.amount.times(host(Call::Exp(u.neg().times(t.delta.minus(d_ref)))));
            value = value.plus(term);
            deriv = deriv.minus(t.delta.times(term));
            i = i + 1;
        }
        (value, deriv)
    }

    /// The sum of the sizes of the terms at log-rate `u`, with the factor of
    /// [`NettedFlow::scaled_g`].
    pub fn scaled_gross<H>(&self, host: &H, u: Double) -> (r: Double)
        where H: Fn(Call) -> Double
        requires
            host::total(*host),
        ensures
            forall|m: spec_fn(Call) -> Double| #[trigger]
                host::follows(*host, m) ==> r == self.gross(m, u),
    {
        let mut sum = Double::from_bits(0);
        if self.terms.len() == 0 {
            return sum;
        }
        let d_ref = self.reference_at(u);
        let mut i: usize = 0;
        while i < self.terms.len()
            invariant
                host::total(*host),
                i <= self.terms.len(),
                d_ref == reference(self.terms@, u),
                forall|m: spec_fn(Call) -> Double| #[trigger]
                    host::follows(*host, m) ==> sum == g_gross(m, self.terms@, u, i as int),
            decreases self.terms.len() - i,
        {
            let t = self.terms[i];
            let weight = host(Call::Exp(u.neg().times(t.delta.minus(d_ref))));
            sum = sum.plus(t.amount.abs().times(weight));
            i = i + 1;
        }
        sum
    }
}

} // verus!
