//! What netting promises: which terms come out, and what they depend on.

use crate::double;
use crate::double::{Double, NAN_BITS, SIGN_BIT};
use crate::flow::Flow;
use crate::netted;
use crate::netted::Term;
use crate::sorting;
use crate::sorting::Ranked;
use vstd::prelude::*;

verus! {

/// The amounts due at year fraction `k`, summed in the order they are given.
pub open spec fn group_sum(s: Seq<Term>, k: int) -> Option<Double>
    decreases s.len(),
{
    if s.len() == 0 {
        None
    } else {
        let rest = group_sum(s.drop_last(), k);
        if s.last().delta.key() != k {
            rest
        } else {
            match rest {
                None => Some(s.last().amount),
                Some(x) => Some(x.sum(s.last().amount)),
            }
        }
    }
}

/// The net amount due at year fraction `k`, unless there is none or it is zero.
pub open spec fn net_amount(s: Seq<Term>, k: int) -> Option<Double> {
    match group_sum(s, k) {
        Some(x) => if x.zero() {
            None
        } else {
            Some(x)
        },
        None => None,
    }
}

/// Year fractions are finite, and none is a negative zero: equal ones have
/// equal bits.
pub open spec fn plain(s: Seq<Term>) -> bool {
    forall|i: int|
        0 <= i < s.len() ==> (#[trigger] s[i]).delta.finite() && s[i].delta.bits != SIGN_BIT
}

/// Year fractions strictly ascend.
pub open spec fn strictly_ascending(t: Seq<Term>) -> bool {
    forall|i: int, j: int|
        0 <= i < j < t.len() ==> (#[trigger] t[i]).delta.key() < (#[trigger] t[j]).delta.key()
}

/// Some term of `t` is due at `k` and has the amount `v`.
pub open spec fn holds(t: Seq<Term>, k: int, v: Double) -> bool {
    exists|i: int|
        0 <= i < t.len() && (#[trigger] t[i]).delta.key() == k && t[i].amount == v
}

// ---------------------------------------------------------------------------
// What comes out
// ---------------------------------------------------------------------------

/// Netting yields strictly ascending year fractions and no zero amount, and the
/// amount at each is the sum, in input order, of the amounts due there; every
/// year fraction whose amounts do not sum to zero is present.
pub proof fn law_netted_terms_are_the_net_amounts(s: Seq<Term>)
    requires
        plain(s),
    ensures
        netted::well_netted(netted::netted(s)),
        plain(netted::netted(s)),
        forall|k: int, v: Double| #[trigger]
            holds(netted::netted(s), k, v) <==> net_amount(s, k) == Some(v),
{
    let o = sorting::sorted(s);
    sorting::lemma_sorted(s);
    assert forall|i: int| 0 <= i < o.len() implies (#[trigger] o[i]).delta.finite()
        && o[i].delta.bits != SIGN_BIT by {
        assert(o.contains(o[i]));
        sorting::lemma_sorted_contains(s, o[i]);
    }
    lemma_merged(o);
    lemma_nonzero(netted::merged(o));
    assert forall|k: int, v: Double| #[trigger]
        holds(netted::netted(s), k, v) <==> net_amount(s, k) == Some(v) by {
        lemma_sorted_groups(s, k);
        lemma_nonzero_holds(netted::merged(o), k, v);
        lemma_merged_holds(o, k, v);
    }
}

/// The payments of a flow, each with its own year fraction.
pub open spec fn payments_of(flow: Flow) -> Seq<Term> {
    Seq::new(
        if flow.deltas.len() <= flow.amounts.len() {
            flow.deltas.len()
        } else {
            flow.amounts.len()
        },
        |i: int| Term { delta: flow.deltas[i], amount: flow.amounts[i] },
    )
}

/// The year fraction and the amount are finite.
pub open spec fn countable() -> spec_fn(Term) -> bool {
    |t: Term| t.delta.finite() && t.amount.finite()
}

/// The terms of a flow are its payments, netted: all those whose year fraction and
/// amount are finite. Its year fractions strictly ascend, no amount is zero, and
/// whatever is due at one time is summed, in input order.
pub proof fn law_the_terms_of_a_flow_are_its_net_payments(flow: Flow)
    ensures
        flow.terms() == netted::netted(payments_of(flow).filter(countable())),
        netted::well_netted(flow.terms()),
        plain(payments_of(flow).filter(countable())) ==> forall|k: int, v: Double| #[trigger]
            holds(flow.terms(), k, v) <==> net_amount(payments_of(flow).filter(countable()), k)
                == Some(v),
{
    let n = netted::paired(flow.deltas, flow.amounts);
    let s = payments_of(flow);
    lemma_finite_terms_filter(flow, n);
    assert(s.take(n) =~= s);
    let t = s.filter(countable());
    assert(finite_deltas(t)) by {
        assert forall|i: int| 0 <= i < t.len() implies (#[trigger] t[i]).delta.finite() by {
            s.lemma_filter_pred(countable(), i);
        }
    }
    law_netted_terms_ascend(t);
    if plain(t) {
        law_netted_terms_are_the_net_amounts(t);
    }
}

proof fn lemma_finite_terms_filter(flow: Flow, n: int)
    requires
        0 <= n <= payments_of(flow).len(),
    ensures
        netted::finite_terms(flow.deltas, flow.amounts, n) == payments_of(flow).take(n).filter(
            countable(),
        ),
    decreases n,
{
    reveal(Seq::filter);
    let s = payments_of(flow).take(n);
    if n > 0 {
        lemma_finite_terms_filter(flow, n - 1);
        assert(s.drop_last() =~= payments_of(flow).take(n - 1));
        assert(s.last() == Term { delta: flow.deltas[n - 1], amount: flow.amounts[n - 1] });
    }
}

/// Every year fraction is finite.
pub open spec fn finite_deltas(s: Seq<Term>) -> bool {
    forall|i: int| 0 <= i < s.len() ==> (#[trigger] s[i]).delta.finite()
}

/// Netting yields strictly ascending year fractions and no zero amount.
pub proof fn law_netted_terms_ascend(s: Seq<Term>)
    requires
        finite_deltas(s),
    ensures
        netted::well_netted(netted::netted(s)),
{
    let o = sorting::sorted(s);
    sorting::lemma_sorted(s);
    assert forall|i: int| 0 <= i < o.len() implies (#[trigger] o[i]).delta.finite() by {
        assert(o.contains(o[i]));
        sorting::lemma_sorted_contains(s, o[i]);
    }
    lemma_merged(o);
    lemma_nonzero(netted::merged(o));
}

/// Merging an ascending sequence: what comes out strictly ascends, and ends
/// where the sequence ends.
proof fn lemma_merged(s: Seq<Term>)
    requires
        finite_deltas(s),
        sorting::ascending(s),
    ensures
        strictly_ascending(netted::merged(s)),
        finite_deltas(netted::merged(s)),
        plain(s) ==> plain(netted::merged(s)),
        s.len() > 0 ==> netted::merged(s).len() > 0 && netted::merged(s).last().delta.key()
            == s.last().delta.key(),
    decreases s.len(),
{
    if s.len() > 0 {
        let rest = s.drop_last();
        assert forall|i: int| 0 <= i < rest.len() implies (#[trigger] rest[i]) == s[i] by {}
        lemma_merged(rest);
        let before = netted::merged(rest);
        let after = netted::merged(s);
        let t = s.last();
        assert(s[s.len() - 1] == t);
        if before.len() > 0 {
            assert(s[s.len() - 2].place() <= s[s.len() - 1].place());
            double::lemma_rank_key(s[s.len() - 2].delta, t.delta);
            assert(before[before.len() - 1] == before.last());
        }
        assert forall|i: int, j: int| 0 <= i < j < after.len() implies (
        #[trigger] after[i]).delta.key() < (#[trigger] after[j]).delta.key() by {
            if before.len() > 0 && i < before.len() - 1 {
                assert(before[i].delta.key() < before[before.len() - 1].delta.key());
            }
        }
        assert forall|i: int| 0 <= i < after.len() implies (#[trigger] after[i]).delta.finite()
            && (plain(s) ==> after[i].delta.bits != SIGN_BIT) by {
            if i < before.len() {
                assert(before[i].delta.finite());
                assert(before[i].delta == after[i].delta);
            }
        }
    }
}

/// After merging, a term is due at `k` with amount `v` exactly if that is what
/// the amounts due at `k` sum to.
proof fn lemma_merged_holds(s: Seq<Term>, k: int, v: Double)
    requires
        plain(s),
        sorting::ascending(s),
    ensures
        holds(netted::merged(s), k, v) <==> group_sum(s, k) == Some(v),
    decreases s.len(),
{
    if s.len() > 0 {
        let rest = s.drop_last();
        let before = netted::merged(rest);
        let after = netted::merged(s);
        let t = s.last();
        lemma_merged(rest);
        lemma_merged(s);
        lemma_merged_holds(rest, k, v);
        if before.len() > 0 && before.last().delta.same(t.delta) {
            let n = before.len() - 1;
            let old = before.last().amount;
            lemma_merged_holds(rest, before.last().delta.key(), old);
            assert(before[n].delta.key() == t.delta.key() && before[n].amount == old);
            assert(holds(before, before.last().delta.key(), old));
            assert(after[n].amount == old.sum(t.amount));
            if k != t.delta.key() {
                if holds(before, k, v) {
                    let i = choose|i: int|
                        0 <= i < before.len() && (#[trigger] before[i]).delta.key() == k
                            && before[i].amount == v;
                    assert(after[i] == before[i]);
                }
                if holds(after, k, v) {
                    let i = choose|i: int|
                        0 <= i < after.len() && (#[trigger] after[i]).delta.key() == k
                            && after[i].amount == v;
                    assert(after[i] == before[i]);
                }
            } else {
                if holds(after, k, v) {
                    let i = choose|i: int|
                        0 <= i < after.len() && (#[trigger] after[i]).delta.key() == k
                            && after[i].amount == v;
                    if i < n {
                        assert(after[i].delta.key() < after[n].delta.key());
                    }
                }
                if group_sum(s, k) == Some(v) {
                    assert(after[n].delta.key() == k && after[n].amount == v);
                }
            }
        } else {
            let n = before.len() as int;
            assert(after[n] == t);
            if k != t.delta.key() {
                if holds(before, k, v) {
                    let i = choose|i: int|
                        0 <= i < before.len() && (#[trigger] before[i]).delta.key() == k
                            && before[i].amount == v;
                    assert(after[i] == before[i]);
                }
                if holds(after, k, v) {
                    let i = choose|i: int|
                        0 <= i < after.len() && (#[trigger] after[i]).delta.key() == k
                            && after[i].amount == v;
                    assert(after[i] == before[i]);
                }
            } else {
                if group_sum(rest, k) is Some {
                    let w = group_sum(rest, k)->0;
                    lemma_merged_holds(rest, k, w);
                    let i = choose|i: int|
                        0 <= i < before.len() && (#[trigger] before[i]).delta.key() == k
                            && before[i].amount == w;
                    assert(after[i] == before[i]);
                    assert(after[i].delta.key() < after[n].delta.key());
                }
                if holds(after, k, v) {
                    let i = choose|i: int|
                        0 <= i < after.len() && (#[trigger] after[i]).delta.key() == k
                            && after[i].amount == v;
                    if i < n {
                        assert(after[i].delta.key() < after[n].delta.key());
                    }
                }
            }
        }
    }
}

/// Dropping zeros keeps the order and leaves no zero.
proof fn lemma_nonzero(t: Seq<Term>)
    requires
        strictly_ascending(t),
        finite_deltas(t),
    ensures
        netted::well_netted(netted::nonzero(t)),
        plain(t) ==> plain(netted::nonzero(t)),
        forall|i: int|
            0 <= i < netted::nonzero(t).len() ==> t.contains(#[trigger] netted::nonzero(t)[i]),
    decreases t.len(),
{
    if t.len() > 0 {
        let rest = t.drop_last();
        lemma_nonzero(rest);
        let kept = netted::nonzero(rest);
        let all = netted::nonzero(t);
        assert forall|i: int| 0 <= i < all.len() implies t.contains(#[trigger] all[i]) by {
            if i < kept.len() {
                assert(all[i] == kept[i]);
                assert(rest.contains(kept[i]));
                let j = choose|j: int| 0 <= j < rest.len() && rest[j] == kept[i];
                assert(t[j] == all[i]);
            } else {
                assert(t[t.len() - 1] == all[i]);
            }
        }
        assert forall|i: int, j: int| 0 <= i < j < all.len() implies (
        #[trigger] all[i]).delta.key() < (#[trigger] all[j]).delta.key() by {
            if j == kept.len() {
                assert(rest.contains(kept[i]));
                let p = choose|p: int| 0 <= p < rest.len() && rest[p] == kept[i];
                assert(t[p].delta.key() < t[t.len() - 1].delta.key());
            } else {
                assert(all[i] == kept[i] && all[j] == kept[j]);
            }
        }
        assert forall|i: int| 0 <= i < all.len() implies (#[trigger] all[i]).delta.finite()
            && (plain(t) ==> all[i].delta.bits != SIGN_BIT) && !all[i].amount.zero() by {
            if i < kept.len() {
                assert(all[i] == kept[i]);
            } else {
                assert(all[i] == t[t.len() - 1]);
            }
        }
    }
}

proof fn lemma_nonzero_holds(t: Seq<Term>, k: int, v: Double)
    ensures
        holds(netted::nonzero(t), k, v) <==> holds(t, k, v) && !v.zero(),
    decreases t.len(),
{
    if t.len() > 0 {
        let rest = t.drop_last();
        lemma_nonzero_holds(rest, k, v);
        let kept = netted::nonzero(rest);
        let all = netted::nonzero(t);
        lemma_push_holds(rest, t.last(), k, v);
        assert(rest.push(t.last()) =~= t);
        if !t.last().amount.zero() {
            lemma_push_holds(kept, t.last(), k, v);
        }
    }
}

proof fn lemma_push_holds(t: Seq<Term>, x: Term, k: int, v: Double)
    ensures
        holds(t.push(x), k, v) <==> holds(t, k, v) || (x.delta.key() == k && x.amount == v),
{
    let all = t.push(x);
    if holds(t, k, v) {
        let i = choose|i: int|
            0 <= i < t.len() && (#[trigger] t[i]).delta.key() == k && t[i].amount == v;
        assert(all[i] == t[i]);
    }
    if x.delta.key() == k && x.amount == v {
        assert(all[t.len() as int] == x);
    }
    if holds(all, k, v) {
        let i = choose|i: int|
            0 <= i < all.len() && (#[trigger] all[i]).delta.key() == k && all[i].amount == v;
        if i < t.len() {
            assert(t[i] == all[i]);
        }
    }
}

/// Stable sorting leaves the order within each group alone.
proof fn lemma_sorted_groups(s: Seq<Term>, k: int)
    requires
        plain(s),
    ensures
        group_sum(sorting::sorted(s), k) == group_sum(s, k),
    decreases s.len(),
{
    if s.len() > 0 {
        let rest = s.drop_last();
        let o = sorting::sorted(rest);
        assert(plain(rest)) by {
            assert forall|i: int| 0 <= i < rest.len() implies (#[trigger] rest[i]).delta.finite()
                && rest[i].delta.bits != SIGN_BIT by {
                assert(rest[i] == s[i]);
            }
        }
        lemma_sorted_groups(rest, k);
        sorting::lemma_sorted(rest);
        assert forall|i: int| 0 <= i < o.len() implies (#[trigger] o[i]).delta.finite()
            && o[i].delta.bits != SIGN_BIT by {
            assert(o.contains(o[i]));
            sorting::lemma_sorted_contains(rest, o[i]);
            let j = choose|j: int| 0 <= j < rest.len() && rest[j] == o[i];
            assert(rest[j] == s[j]);
        }
        assert(s.last() == s[s.len() - 1]);
        lemma_inserted_groups(o, s.last(), k);
        assert(o.push(s.last()).drop_last() =~= o);
    }
}

proof fn lemma_inserted_groups(s: Seq<Term>, x: Term, k: int)
    requires
        plain(s),
        x.delta.finite(),
        x.delta.bits != SIGN_BIT,
    ensures
        group_sum(sorting::inserted(s, x), k) == group_sum(s.push(x), k),
    decreases s.len(),
{
    reveal_with_fuel(group_sum, 3);
    assert(s.push(x).drop_last() =~= s);
    if s.len() == 0 || s.last().place() <= x.place() {
    } else {
        let rest = s.drop_last();
        assert(plain(rest)) by {
            assert forall|i: int| 0 <= i < rest.len() implies (#[trigger] rest[i]).delta.finite()
                && rest[i].delta.bits != SIGN_BIT by {
                assert(rest[i] == s[i]);
            }
        }
        lemma_inserted_groups(rest, x, k);
        assert(rest.push(x).drop_last() =~= rest);
        assert(s.last() == s[s.len() - 1]);
        assert(s.last().delta.key() > x.delta.key());
        let o = sorting::inserted(rest, x);
        assert(o.push(s.last()).drop_last() =~= o);
    }
}

// ---------------------------------------------------------------------------
// What it depends on
// ---------------------------------------------------------------------------

/// Netting depends on nothing but the net amount at each year fraction. How the
/// payments are ordered or split makes a difference only where it changes what
/// the amounts of one date sum to.
pub proof fn law_netting_depends_on_net_amounts_alone(a: Seq<Term>, b: Seq<Term>)
    requires
        plain(a),
        plain(b),
        forall|k: int| #[trigger] net_amount(a, k) == net_amount(b, k),
    ensures
        netted::netted(a) == netted::netted(b),
{
    law_netted_terms_are_the_net_amounts(a);
    law_netted_terms_are_the_net_amounts(b);
    assert forall|k: int, v: Double| #[trigger]
        holds(netted::netted(a), k, v) <==> holds(netted::netted(b), k, v) by {
        assert(net_amount(a, k) == net_amount(b, k));
    }
    lemma_unique(netted::netted(a), netted::netted(b));
}

/// Strictly ascending terms are determined by what they hold.
proof fn lemma_unique(a: Seq<Term>, b: Seq<Term>)
    requires
        strictly_ascending(a),
        strictly_ascending(b),
        plain(a),
        plain(b),
        forall|k: int, v: Double| #[trigger] holds(a, k, v) <==> holds(b, k, v),
    ensures
        a == b,
    decreases a.len(),
{
    if a.len() == 0 {
        if b.len() > 0 {
            assert(b[0].delta.key() == b[0].delta.key());
            assert(holds(b, b[0].delta.key(), b[0].amount));
            assert(holds(a, b[0].delta.key(), b[0].amount));
        }
        assert(a =~= b);
    } else {
        let x = a.last();
        assert(a[a.len() - 1] == x);
        assert(holds(a, x.delta.key(), x.amount));
        assert(holds(b, x.delta.key(), x.amount));
        let y = b.last();
        assert(b[b.len() - 1] == y);
        assert(holds(b, y.delta.key(), y.amount));
        assert(holds(a, y.delta.key(), y.amount));
        let i = choose|i: int|
            0 <= i < b.len() && (#[trigger] b[i]).delta.key() == x.delta.key() && b[i].amount
                == x.amount;
        let j = choose|j: int|
            0 <= j < a.len() && (#[trigger] a[j]).delta.key() == y.delta.key() && a[j].amount
                == y.amount;
        if i < b.len() - 1 {
            assert(b[i].delta.key() < b[b.len() - 1].delta.key());
        }
        if j < a.len() - 1 {
            assert(a[j].delta.key() < a[a.len() - 1].delta.key());
        }
        assert(x.delta.key() == y.delta.key());
        assert(i == b.len() - 1);
        assert(x == y);
        let ra = a.drop_last();
        let rb = b.drop_last();
        assert forall|k: int, v: Double| #[trigger] holds(ra, k, v) <==> holds(rb, k, v) by {
            lemma_push_holds(ra, x, k, v);
            lemma_push_holds(rb, x, k, v);
            assert(ra.push(x) =~= a);
            assert(rb.push(x) =~= b);
            assert(holds(a, k, v) <==> holds(b, k, v));
            if holds(ra, k, v) {
                let p = choose|p: int|
                    0 <= p < ra.len() && (#[trigger] ra[p]).delta.key() == k && ra[p].amount == v;
                assert(a[p].delta.key() < a[a.len() - 1].delta.key());
            }
            if holds(rb, k, v) {
                let p = choose|p: int|
                    0 <= p < rb.len() && (#[trigger] rb[p]).delta.key() == k && rb[p].amount == v;
                assert(b[p].delta.key() < b[b.len() - 1].delta.key());
            }
        }
        lemma_unique(ra, rb);
        assert(a =~= ra.push(x));
        assert(b =~= rb.push(x));
    }
}

/// Year fractions and amounts as they are before any are summed: [`plain`], and
/// every amount finite.
pub open spec fn unsummed(s: Seq<Term>) -> bool {
    &&& plain(s)
    &&& forall|i: int| 0 <= i < s.len() ==> (#[trigger] s[i]).amount.finite()
}

/// A payment of zero is invisible, wherever it stands and whatever its date.
pub proof fn law_zero_amounts_are_invisible(before: Seq<Term>, zero: Term, after: Seq<Term>)
    requires
        unsummed(before),
        unsummed(after),
        zero.delta.finite(),
        zero.delta.bits != SIGN_BIT,
        zero.amount.zero(),
    ensures
        netted::netted(before.push(zero) + after) == netted::netted(before + after),
{
    let a = before.push(zero) + after;
    let b = before + after;
    lemma_plain_parts(before.push(zero), after);
    lemma_plain_parts(before, after);
    assert forall|k: int| #[trigger] net_amount(a, k) == net_amount(b, k) by {
        assert(before.push(zero).drop_last() =~= before);
        if group_sum(before, k) is Some {
            lemma_group_sum_nan(before, k);
            lemma_plus_zero(group_sum(before, k)->0, zero.amount);
        }
        lemma_alike_after(before.push(zero), before, after, k);
    }
    law_netting_depends_on_net_amounts_alone(a, b);
}

/// Two payments on one date are one payment of their sum, where no payment of
/// that date comes before them.
pub proof fn law_payments_on_one_date_add_up(
    before: Seq<Term>,
    first: Term,
    second: Term,
    after: Seq<Term>,
)
    requires
        unsummed(before),
        unsummed(after),
        first.delta.finite(),
        first.delta.bits != SIGN_BIT,
        second.delta == first.delta,
        forall|i: int| 0 <= i < before.len() ==> (#[trigger] before[i]).delta != first.delta,
    ensures
        netted::netted(before.push(first).push(second) + after) == netted::netted(
            before.push(Term { delta: first.delta, amount: first.amount.sum(second.amount) })
                + after,
        ),
{
    let both = before.push(first).push(second);
    let one = before.push(Term { delta: first.delta, amount: first.amount.sum(second.amount) });
    lemma_plain_parts(both, after);
    lemma_plain_parts(one, after);
    assert forall|k: int| #[trigger]
        net_amount(both + after, k) == net_amount(one + after, k) by {
        reveal_with_fuel(group_sum, 3);
        assert(both.drop_last() =~= before.push(first));
        assert(before.push(first).drop_last() =~= before);
        assert(one.drop_last() =~= before);
        if k == first.delta.key() {
            lemma_absent(before, first.delta);
        }
        lemma_alike_after(both, one, after, k);
    }
    law_netting_depends_on_net_amounts_alone(both + after, one + after);
}

/// A payment and its opposite on one date are invisible, where no payment of
/// that date comes before them.
pub proof fn law_a_cancelling_pair_is_invisible(
    before: Seq<Term>,
    first: Term,
    second: Term,
    after: Seq<Term>,
)
    requires
        unsummed(before),
        unsummed(after),
        first.delta.finite(),
        first.delta.bits != SIGN_BIT,
        first.amount.finite(),
        second.delta == first.delta,
        second.amount == first.amount.opposite(),
        forall|i: int| 0 <= i < before.len() ==> (#[trigger] before[i]).delta != first.delta,
    ensures
        netted::netted(before.push(first).push(second) + after) == netted::netted(before + after),
{
    let sum = Term { delta: first.delta, amount: first.amount.sum(second.amount) };
    law_payments_on_one_date_add_up(before, first, second, after);
    assert(first.amount.opposite().value() == -first.amount.value());
    assert(sum.amount.zero());
    law_zero_amounts_are_invisible(before, sum, after);
}

/// Two neighbouring payments on different dates may change places. So may any
/// payments, by exchanging neighbours, as long as those of one date keep their
/// order.
pub proof fn law_payments_on_different_dates_commute(
    before: Seq<Term>,
    first: Term,
    second: Term,
    after: Seq<Term>,
)
    requires
        unsummed(before),
        unsummed(after),
        first.delta.finite(),
        first.delta.bits != SIGN_BIT,
        second.delta.finite(),
        second.delta.bits != SIGN_BIT,
        first.delta != second.delta,
    ensures
        netted::netted(before.push(first).push(second) + after) == netted::netted(
            before.push(second).push(first) + after,
        ),
{
    let a = before.push(first).push(second);
    let b = before.push(second).push(first);
    lemma_plain_parts(a, after);
    lemma_plain_parts(b, after);
    assert forall|k: int| #[trigger] net_amount(a + after, k) == net_amount(b + after, k) by {
        reveal_with_fuel(group_sum, 3);
        assert(a.drop_last() =~= before.push(first));
        assert(before.push(first).drop_last() =~= before);
        assert(b.drop_last() =~= before.push(second));
        assert(before.push(second).drop_last() =~= before);
        lemma_alike_after(a, b, after, k);
    }
    law_netting_depends_on_net_amounts_alone(a + after, b + after);
}

/// Two payments that are the first of one date may change places too: their
/// sum is the same.
pub proof fn law_first_two_payments_on_one_date_commute(
    before: Seq<Term>,
    first: Term,
    second: Term,
    after: Seq<Term>,
)
    requires
        unsummed(before),
        unsummed(after),
        first.delta.finite(),
        first.delta.bits != SIGN_BIT,
        second.delta == first.delta,
        forall|i: int| 0 <= i < before.len() ==> (#[trigger] before[i]).delta != first.delta,
    ensures
        netted::netted(before.push(first).push(second) + after) == netted::netted(
            before.push(second).push(first) + after,
        ),
{
    law_payments_on_one_date_add_up(before, first, second, after);
    law_payments_on_one_date_add_up(before, second, first, after);
}

proof fn lemma_plain_parts(a: Seq<Term>, b: Seq<Term>)
    requires
        plain(a),
        plain(b),
    ensures
        plain(a + b),
{
    assert forall|i: int| 0 <= i < (a + b).len() implies (#[trigger] (a + b)[i]).delta.finite()
        && (a + b)[i].delta.bits != SIGN_BIT by {
        if i < a.len() {
            assert((a + b)[i] == a[i]);
        } else {
            assert((a + b)[i] == b[i - a.len()]);
        }
    }
}

proof fn lemma_absent(s: Seq<Term>, delta: Double)
    requires
        plain(s),
        delta.finite(),
        delta.bits != SIGN_BIT,
        forall|i: int| 0 <= i < s.len() ==> (#[trigger] s[i]).delta != delta,
    ensures
        group_sum(s, delta.key()) is None,
    decreases s.len(),
{
    if s.len() > 0 {
        let rest = s.drop_last();
        assert forall|i: int| 0 <= i < rest.len() implies (#[trigger] rest[i]).delta.finite()
            && rest[i].delta.bits != SIGN_BIT && rest[i].delta != delta by {
            assert(rest[i] == s[i]);
        }
        lemma_absent(rest, delta);
        assert(s[s.len() - 1] == s.last());
    }
}

/// The two sums differ at most in whether, and by which zero, they vanish.
pub open spec fn alike(x: Option<Double>, y: Option<Double>) -> bool {
    ||| x == y
    ||| (x is None || x->0.zero()) && (y is None || y->0.zero())
}

/// Sums that are alike stay alike when the same amounts are added, and net to
/// the same.
proof fn lemma_alike_after(a: Seq<Term>, b: Seq<Term>, after: Seq<Term>, k: int)
    requires
        alike(group_sum(a, k), group_sum(b, k)),
        unsummed(after),
    ensures
        alike(group_sum(a + after, k), group_sum(b + after, k)),
        net_amount(a + after, k) == net_amount(b + after, k),
    decreases after.len(),
{
    if after.len() == 0 {
        assert(a + after =~= a);
        assert(b + after =~= b);
    } else {
        let rest = after.drop_last();
        let x = after.last();
        assert(after[after.len() - 1] == x);
        assert(unsummed(rest)) by {
            assert forall|i: int| 0 <= i < rest.len() implies (#[trigger] rest[i]).delta.finite()
                && rest[i].delta.bits != SIGN_BIT && rest[i].amount.finite() by {
                assert(rest[i] == after[i]);
            }
        }
        lemma_alike_after(a, b, rest, k);
        assert((a + after).drop_last() =~= a + rest);
        assert((b + after).drop_last() =~= b + rest);
        if group_sum(a + rest, k) is Some {
            lemma_zero_plus(group_sum(a + rest, k)->0, x.amount);
        }
        if group_sum(b + rest, k) is Some {
            lemma_zero_plus(group_sum(b + rest, k)->0, x.amount);
        }
    }
}

/// Adding a finite number to a zero gives it back, up to the sign of a zero.
proof fn lemma_zero_plus(z: Double, x: Double)
    requires
        x.finite(),
    ensures
        z.zero() && !x.zero() ==> z.sum(x) == x,
        z.zero() && x.zero() ==> z.sum(x).zero(),
{
    crate::arithmetic::lemma_units_order(x.mag(), x.mag());
    crate::arithmetic::lemma_units_order(0, 0);
    crate::rounding_laws::lemma_round_exact(x.mag(), 1);
}

/// Adding a zero gives the number back, up to the sign of a zero.
proof fn lemma_plus_zero(x: Double, z: Double)
    requires
        z.zero(),
        x.nan() ==> x.bits == NAN_BITS,
    ensures
        !x.zero() ==> x.sum(z) == x,
        x.zero() ==> x.sum(z).zero(),
{
    if x.finite() {
        crate::arithmetic::lemma_units_order(x.mag(), x.mag());
        crate::arithmetic::lemma_units_order(0, 0);
        crate::rounding_laws::lemma_round_exact(x.mag(), 1);
    }
}

/// A sum of finite amounts that is NaN is the one NaN of failed computations.
proof fn lemma_group_sum_nan(s: Seq<Term>, k: int)
    requires
        unsummed(s),
    ensures
        group_sum(s, k) matches Some(x) ==> x.nan() ==> x.bits == NAN_BITS,
    decreases s.len(),
{
    if s.len() > 0 {
        let rest = s.drop_last();
        assert forall|i: int| 0 <= i < rest.len() implies (#[trigger] rest[i]).delta.finite()
            && rest[i].delta.bits != SIGN_BIT && rest[i].amount.finite() by {
            assert(rest[i] == s[i]);
        }
        lemma_group_sum_nan(rest, k);
        assert(s[s.len() - 1] == s.last());
        if group_sum(rest, k) is Some {
            lemma_sum_nan(group_sum(rest, k)->0, s.last().amount);
        }
    }
}

proof fn lemma_sum_nan(x: Double, y: Double)
    requires
        y.finite(),
    ensures
        x.sum(y).nan() ==> x.sum(y).bits == NAN_BITS,
{
    if x.finite() {
        let exact = x.value() + y.value();
        if exact > 0 {
            crate::arithmetic::lemma_round_range(exact, 1);
        } else if exact < 0 {
            crate::arithmetic::lemma_round_range(-exact, 1);
        }
    }
}

/// Every year fraction that netting leaves was there before.
pub proof fn lemma_netted_delta(s: Seq<Term>, i: int)
    requires
        finite_deltas(s),
        0 <= i < netted::netted(s).len(),
    ensures
        exists|j: int| 0 <= j < s.len() && (#[trigger] s[j]).delta == netted::netted(s)[i].delta,
{
    let o = sorting::sorted(s);
    sorting::lemma_sorted(s);
    assert forall|j: int| 0 <= j < o.len() implies (#[trigger] o[j]).delta.finite() by {
        assert(o.contains(o[j]));
        sorting::lemma_sorted_contains(s, o[j]);
    }
    lemma_merged(o);
    lemma_nonzero(netted::merged(o));
    let t = netted::netted(s)[i];
    assert(netted::merged(o).contains(t));
    let k = choose|k: int| 0 <= k < netted::merged(o).len() && netted::merged(o)[k] == t;
    lemma_merged_delta(o, k);
    let p = choose|p: int| 0 <= p < o.len() && (#[trigger] o[p]).delta == t.delta;
    assert(o.contains(o[p]));
    sorting::lemma_sorted_contains(s, o[p]);
    let j = choose|j: int| 0 <= j < s.len() && s[j] == o[p];
    assert(s[j].delta == t.delta);
}

proof fn lemma_merged_delta(s: Seq<Term>, i: int)
    requires
        0 <= i < netted::merged(s).len(),
    ensures
        exists|j: int| 0 <= j < s.len() && (#[trigger] s[j]).delta == netted::merged(s)[i].delta,
    decreases s.len(),
{
    if s.len() > 0 {
        let rest = s.drop_last();
        let before = netted::merged(rest);
        if i < before.len() {
            lemma_merged_delta(rest, i);
            let j = choose|j: int| 0 <= j < rest.len() && (#[trigger] rest[j]).delta
                == before[i].delta;
            assert(s[j] == rest[j]);
            assert(netted::merged(s)[i].delta == before[i].delta);
        } else {
            assert(s[s.len() - 1] == s.last());
        }
    }
}

} // verus!
