//! What the arrows of a trace are: between which accounts they run, what they carry, and that they
//! add up to what moved.

use crate::book::{account_of, known, leg_views, lemma_place_of, place_of, Account, LegView};
use crate::graph::{
    all_edges, all_ends, arriving, count_from, count_to, distinct, edge_of, edge_views, fan,
    flow_of, guests, is_graph, is_visit, key_of, kind_in, law_a_node_is_of_one_account, leaving,
    leg_ends, link_merges, link_row, meets, merges, node_at, node_for, node_views, pay_place,
    payment_edges, put_leg, real_legs, row_views, spot, stands_for, touches, Edge, EdgeView, Graph,
    NodeKey, Payment, Touch,
};
use crate::link::Link;
use crate::lists::{lemma_first, lemma_first_is, lemma_join_has, lemma_push_has};
use crate::paths::lemma_with_id;
use vstd::prelude::*;

verus! {

/// Whether the first account with this id is of a kind.
pub open spec fn of_kind(accounts: Seq<Account>, id: i64, kind: Seq<char>) -> bool {
    exists|j: int|
        0 <= j < accounts.len() && (#[trigger] accounts[j]).id == id && accounts[j].kind@ == kind && (
        forall|i: int| 0 <= i < j ==> (#[trigger] accounts[i]).id != id)
}

pub proof fn lemma_place(accounts: Seq<Account>, id: i64)
    ensures
        0 <= place_of(accounts, id) <= accounts.len(),
        place_of(accounts, id) < accounts.len() ==> accounts[place_of(accounts, id)].id == id,
        forall|i: int| 0 <= i < place_of(accounts, id) ==> (#[trigger] accounts[i]).id != id,
    decreases accounts.len(),
{
    if accounts.len() > 0 && accounts[0].id != id {
        lemma_place(accounts.drop_first(), id);
        assert forall|i: int| 0 <= i < place_of(accounts, id) implies (#[trigger] accounts[i]).id
            != id by {
            if i > 0 {
                assert(accounts.drop_first()[i - 1] == accounts[i]);
            }
        }
    }
}

/// An account is known exactly where one of the accounts has its id, and it is the first that has.
pub proof fn law_an_account_is_the_first_with_its_id(accounts: Seq<Account>, id: i64)
    ensures
        known(accounts, id) <==> exists|i: int|
            0 <= i < accounts.len() && (#[trigger] accounts[i]).id == id,
        known(accounts, id) ==> account_of(accounts, id).id == id,
        forall|j: int|
            0 <= j < accounts.len() && (#[trigger] accounts[j]).id == id && (forall|i: int|
                0 <= i < j ==> (#[trigger] accounts[i]).id != id) ==> account_of(accounts, id)
                == accounts[j],
{
    lemma_place(accounts, id);
    assert forall|j: int|
        0 <= j < accounts.len() && (#[trigger] accounts[j]).id == id && (forall|i: int|
            0 <= i < j ==> (#[trigger] accounts[i]).id != id) implies account_of(accounts, id)
        == accounts[j] by {
        lemma_place_of(accounts, id, j);
    }
}

pub proof fn lemma_of_kind(accounts: Seq<Account>, id: i64, kind: Seq<char>)
    requires
        kind.len() > 0,
    ensures
        of_kind(accounts, id, kind) <==> kind_in(accounts, id) == kind,
{
    lemma_place(accounts, id);
    if of_kind(accounts, id, kind) {
        let j = choose|j: int|
            0 <= j < accounts.len() && (#[trigger] accounts[j]).id == id && accounts[j].kind@ == kind
                && (forall|i: int| 0 <= i < j ==> (#[trigger] accounts[i]).id != id);
        lemma_place_of(accounts, id, j);
    }
    if kind_in(accounts, id) == kind {
        if !known(accounts, id) {
            assert(kind.len() == 0);
        }
        assert(accounts[place_of(accounts, id)].kind@ == kind);
    }
}

/// Whether a leg moves money rather than standing for a change of currency.
pub open spec fn is_real(accounts: Seq<Account>, l: LegView) -> bool {
    !of_kind(accounts, l.account_id, "conversion"@)
}

proof fn lemma_is_real(accounts: Seq<Account>, l: LegView)
    ensures
        is_real(accounts, l) <==> kind_in(accounts, l.account_id) != "conversion"@,
{
    reveal_strlit("conversion");
    assert("conversion"@.len() == 10);
    lemma_of_kind(accounts, l.account_id, "conversion"@);
}

/// A sum over the legs.
pub open spec fn tallied(legs: Seq<LegView>, f: spec_fn(LegView) -> int) -> int
    decreases legs.len(),
{
    if legs.len() == 0 {
        0
    } else {
        tallied(legs.drop_last(), f) + f(legs.last())
    }
}

/// How much a leg takes out of its account, where it does and the account is a real one.
pub open spec fn outflow(accounts: Seq<Account>) -> spec_fn(LegView) -> int {
    |l: LegView|
        if is_real(accounts, l) && l.amount_minor < 0 {
            -l.amount_minor
        } else {
            0
        }
}

/// How much a leg brings into its account, where it does and the account is a real one.
pub open spec fn inflow(accounts: Seq<Account>) -> spec_fn(LegView) -> int {
    |l: LegView|
        if is_real(accounts, l) && l.amount_minor > 0 {
            l.amount_minor
        } else {
            0
        }
}

/// One for each leg that takes out of a real account.
pub open spec fn out_legs(accounts: Seq<Account>) -> spec_fn(LegView) -> int {
    |l: LegView|
        if is_real(accounts, l) && l.amount_minor < 0 {
            1
        } else {
            0
        }
}

/// One for each leg that brings into a real account.
pub open spec fn in_legs(accounts: Seq<Account>) -> spec_fn(LegView) -> int {
    |l: LegView|
        if is_real(accounts, l) && l.amount_minor > 0 {
            1
        } else {
            0
        }
}

proof fn lemma_tallied_put(s: Seq<LegView>, l: LegView, f: spec_fn(LegView) -> int)
    ensures
        tallied(put_leg(s, l), f) == tallied(s, f) + f(l),
    decreases s.len(),
{
    if s.len() > 0 && l.amount_minor < s.last().amount_minor {
        lemma_tallied_put(s.drop_last(), l, f);
        let rest = put_leg(s.drop_last(), l);
        assert(rest.push(s.last()).drop_last() =~= rest);
    } else {
        assert(s.push(l).drop_last() =~= s);
    }
}

proof fn lemma_put_has(s: Seq<LegView>, l: LegView, x: LegView)
    ensures
        put_leg(s, l).contains(x) <==> s.contains(x) || x == l,
    decreases s.len(),
{
    if s.len() > 0 && l.amount_minor < s.last().amount_minor {
        lemma_put_has(s.drop_last(), l, x);
        lemma_push_has(put_leg(s.drop_last(), l), s.last(), x);
        lemma_push_has(s.drop_last(), s.last(), x);
        assert(s.drop_last().push(s.last()) =~= s);
    } else {
        lemma_push_has(s, l, x);
    }
}

proof fn lemma_real_has(accounts: Seq<Account>, legs: Seq<LegView>, x: LegView)
    ensures
        real_legs(accounts, legs).contains(x) <==> legs.contains(x) && is_real(accounts, x),
    decreases legs.len(),
{
    if legs.len() > 0 {
        let rest = legs.drop_last();
        lemma_real_has(accounts, rest, x);
        lemma_is_real(accounts, legs.last());
        lemma_push_has(rest, legs.last(), x);
        assert(rest.push(legs.last()) =~= legs);
        lemma_put_has(real_legs(accounts, rest), legs.last(), x);
    }
}

proof fn lemma_sides_has(legs: Seq<LegView>, x: LegView)
    ensures
        leaving(legs).contains(x) <==> legs.contains(x) && x.amount_minor < 0,
        arriving(legs).contains(x) <==> legs.contains(x) && x.amount_minor > 0,
    decreases legs.len(),
{
    if legs.len() > 0 {
        let rest = legs.drop_last();
        lemma_sides_has(rest, x);
        lemma_push_has(rest, legs.last(), x);
        assert(rest.push(legs.last()) =~= legs);
        lemma_push_has(leaving(rest), legs.last(), x);
        lemma_push_has(arriving(rest), legs.last(), x);
    }
}

/// A weight that counts only real legs.
spec fn of_real(accounts: Seq<Account>, f: spec_fn(LegView) -> int) -> spec_fn(LegView) -> int {
    |l: LegView|
        if is_real(accounts, l) {
            f(l)
        } else {
            0
        }
}

proof fn lemma_tallied_same(
    legs: Seq<LegView>,
    f: spec_fn(LegView) -> int,
    g: spec_fn(LegView) -> int,
)
    requires
        forall|l: LegView| #[trigger] f(l) == g(l),
    ensures
        tallied(legs, f) == tallied(legs, g),
    decreases legs.len(),
{
    if legs.len() > 0 {
        lemma_tallied_same(legs.drop_last(), f, g);
        assert(f(legs.last()) == g(legs.last()));
    }
}

proof fn lemma_tallied_real(accounts: Seq<Account>, legs: Seq<LegView>, f: spec_fn(LegView) -> int)
    ensures
        tallied(real_legs(accounts, legs), f) == tallied(legs, of_real(accounts, f)),
    decreases legs.len(),
{
    if legs.len() > 0 {
        lemma_tallied_real(accounts, legs.drop_last(), f);
        lemma_is_real(accounts, legs.last());
        lemma_tallied_put(real_legs(accounts, legs.drop_last()), legs.last(), f);
    }
}

spec fn of_leaving(f: spec_fn(LegView) -> int) -> spec_fn(LegView) -> int {
    |l: LegView|
        if l.amount_minor < 0 {
            f(l)
        } else {
            0
        }
}

spec fn of_arriving(f: spec_fn(LegView) -> int) -> spec_fn(LegView) -> int {
    |l: LegView|
        if l.amount_minor > 0 {
            f(l)
        } else {
            0
        }
}

proof fn lemma_tallied_sides(legs: Seq<LegView>, f: spec_fn(LegView) -> int)
    ensures
        tallied(leaving(legs), f) == tallied(legs, of_leaving(f)),
        tallied(arriving(legs), f) == tallied(legs, of_arriving(f)),
    decreases legs.len(),
{
    if legs.len() > 0 {
        let rest = legs.drop_last();
        lemma_tallied_sides(rest, f);
        assert(leaving(rest).push(legs.last()).drop_last() =~= leaving(rest));
        assert(arriving(rest).push(legs.last()).drop_last() =~= arriving(rest));
    }
}

spec fn each() -> spec_fn(LegView) -> int {
    |l: LegView| 1
}

spec fn taken() -> spec_fn(LegView) -> int {
    |l: LegView| -l.amount_minor
}

spec fn brought() -> spec_fn(LegView) -> int {
    |l: LegView| l.amount_minor
}

proof fn lemma_tallied_each(legs: Seq<LegView>)
    ensures
        tallied(legs, each()) == legs.len(),
    decreases legs.len(),
{
    if legs.len() > 0 {
        lemma_tallied_each(legs.drop_last());
    }
}

/// What the two sides of a payment come to.
proof fn lemma_sides(accounts: Seq<Account>, legs: Seq<LegView>)
    ensures
        ({
            let moved = real_legs(accounts, legs);
            &&& leaving(moved).len() == tallied(legs, out_legs(accounts))
            &&& arriving(moved).len() == tallied(legs, in_legs(accounts))
            &&& tallied(leaving(moved), taken()) == tallied(legs, outflow(accounts))
            &&& tallied(arriving(moved), brought()) == tallied(legs, inflow(accounts))
        }),
{
    let moved = real_legs(accounts, legs);
    lemma_tallied_each(leaving(moved));
    lemma_tallied_each(arriving(moved));
    lemma_tallied_sides(moved, each());
    lemma_tallied_sides(moved, taken());
    lemma_tallied_sides(moved, brought());
    lemma_tallied_real(accounts, legs, of_leaving(each()));
    lemma_tallied_real(accounts, legs, of_arriving(each()));
    lemma_tallied_real(accounts, legs, of_leaving(taken()));
    lemma_tallied_real(accounts, legs, of_arriving(brought()));
    lemma_tallied_same(legs, of_real(accounts, of_leaving(each())), out_legs(accounts));
    lemma_tallied_same(legs, of_real(accounts, of_arriving(each())), in_legs(accounts));
    lemma_tallied_same(legs, of_real(accounts, of_leaving(taken())), outflow(accounts));
    lemma_tallied_same(legs, of_real(accounts, of_arriving(brought())), inflow(accounts));
}

/// What the arrows of a payment carry between them.
pub open spec fn carried(edges: Seq<Edge>, txn: i64) -> int
    decreases edges.len(),
{
    if edges.len() == 0 {
        0
    } else {
        carried(edges.drop_last(), txn) + (if edges.last().txn_id == txn {
            edges.last().amount_minor as int
        } else {
            0
        })
    }
}

spec fn borne(edges: Seq<EdgeView>, txn: i64) -> int
    decreases edges.len(),
{
    if edges.len() == 0 {
        0
    } else {
        borne(edges.drop_last(), txn) + (if edges.last().txn_id == txn {
            edges.last().amount
        } else {
            0
        })
    }
}

proof fn lemma_carried(edges: Seq<Edge>, txn: i64)
    ensures
        carried(edges, txn) == borne(edge_views(edges), txn),
    decreases edges.len(),
{
    if edges.len() > 0 {
        lemma_carried(edges.drop_last(), txn);
        assert(edge_views(edges).drop_last() =~= edge_views(edges.drop_last()));
    }
}

proof fn lemma_borne_join(a: Seq<EdgeView>, b: Seq<EdgeView>, txn: i64)
    ensures
        borne(a + b, txn) == borne(a, txn) + borne(b, txn),
    decreases b.len(),
{
    if b.len() == 0 {
        assert(a + b =~= a);
    } else {
        lemma_borne_join(a, b.drop_last(), txn);
        assert((a + b).drop_last() =~= a + b.drop_last());
    }
}

proof fn lemma_borne_other(edges: Seq<EdgeView>, txn: i64)
    requires
        forall|i: int| 0 <= i < edges.len() ==> (#[trigger] edges[i]).txn_id != txn,
    ensures
        borne(edges, txn) == 0,
    decreases edges.len(),
{
    if edges.len() > 0 {
        assert(edges[edges.len() - 1].txn_id != txn);
        lemma_borne_other(edges.drop_last(), txn);
    }
}

proof fn lemma_payment_txn(
    accounts: Seq<Account>,
    ms: Seq<(NodeKey, NodeKey)>,
    nodes: Seq<NodeKey>,
    p: Payment,
    out: Seq<LegView>,
    arr: Seq<LegView>,
)
    ensures
        forall|i: int|
            0 <= i < payment_edges(accounts, ms, nodes, p, out, arr).len() ==> (
            #[trigger] payment_edges(accounts, ms, nodes, p, out, arr)[i]).txn_id == p.id,
    decreases out.len(),
{
    if out.len() > 0 {
        lemma_payment_txn(accounts, ms, nodes, p, out.drop_last(), arr);
    }
}

/// The arrows of one leg that takes out all that the others bring.
proof fn lemma_fan_sum(
    accounts: Seq<Account>,
    ms: Seq<(NodeKey, NodeKey)>,
    nodes: Seq<NodeKey>,
    p: Payment,
    l: LegView,
    arr: Seq<LegView>,
)
    requires
        forall|i: int| 0 <= i < arr.len() ==> 0 < (#[trigger] arr[i]).amount_minor,
        tallied(arr, brought()) <= -l.amount_minor,
    ensures
        borne(fan(accounts, ms, nodes, p, l, arr), p.id) == tallied(arr, brought()),
        tallied(arr, brought()) >= 0,
    decreases arr.len(),
{
    if arr.len() > 0 {
        let rest = arr.drop_last();
        assert(arr[arr.len() - 1].amount_minor > 0);
        assert forall|i: int| 0 <= i < rest.len() implies 0 < (#[trigger] rest[i]).amount_minor by {
            assert(rest[i] == arr[i]);
        }
        lemma_fan_sum(accounts, ms, nodes, p, l, rest);
        assert(fan(accounts, ms, nodes, p, l, arr).drop_last() =~= fan(
            accounts,
            ms,
            nodes,
            p,
            l,
            rest,
        ));
    }
}

/// The arrows of many legs into one that brings all that they take.
proof fn lemma_funnel_sum(
    accounts: Seq<Account>,
    ms: Seq<(NodeKey, NodeKey)>,
    nodes: Seq<NodeKey>,
    p: Payment,
    out: Seq<LegView>,
    arr: Seq<LegView>,
)
    requires
        arr.len() == 1,
        forall|i: int| 0 <= i < out.len() ==> (#[trigger] out[i]).amount_minor < 0,
        tallied(out, taken()) <= arr[0].amount_minor,
    ensures
        borne(payment_edges(accounts, ms, nodes, p, out, arr), p.id) == tallied(out, taken()),
        tallied(out, taken()) >= 0,
    decreases out.len(),
{
    if out.len() > 0 {
        let rest = out.drop_last();
        assert(out[out.len() - 1].amount_minor < 0);
        assert forall|i: int| 0 <= i < rest.len() implies (#[trigger] rest[i]).amount_minor < 0 by {
            assert(rest[i] == out[i]);
        }
        // Each leg takes something, so the rest take less.
        lemma_taken_positive(rest);
        lemma_funnel_sum(accounts, ms, nodes, p, rest, arr);
        let f = fan(accounts, ms, nodes, p, out.last(), arr);
        lemma_borne_join(payment_edges(accounts, ms, nodes, p, rest, arr), f, p.id);
        assert(f.drop_last() =~= Seq::empty());
        assert(borne(f.drop_last(), p.id) == 0);
        assert(f.last() == edge_of(accounts, ms, nodes, p, out.last(), arr[0]));
    }
}

proof fn lemma_taken_positive(out: Seq<LegView>)
    requires
        forall|i: int| 0 <= i < out.len() ==> (#[trigger] out[i]).amount_minor < 0,
    ensures
        tallied(out, taken()) >= 0,
    decreases out.len(),
{
    if out.len() > 0 {
        let rest = out.drop_last();
        assert(out[out.len() - 1].amount_minor < 0);
        assert forall|i: int| 0 <= i < rest.len() implies (#[trigger] rest[i]).amount_minor < 0 by {
            assert(rest[i] == out[i]);
        }
        lemma_taken_positive(rest);
    }
}

proof fn lemma_borne_all(
    accounts: Seq<Account>,
    ms: Seq<(NodeKey, NodeKey)>,
    nodes: Seq<NodeKey>,
    payments: Seq<Payment>,
    i: int,
)
    requires
        0 <= i < payments.len(),
        forall|j: int| 0 <= j < payments.len() && j != i ==> (#[trigger] payments[j]).id
            != payments[i].id,
    ensures
        borne(all_edges(accounts, ms, nodes, payments), payments[i].id) == borne(
            payment_edges(
                accounts,
                ms,
                nodes,
                payments[i],
                leaving(real_legs(accounts, leg_views(payments[i].legs@))),
                arriving(real_legs(accounts, leg_views(payments[i].legs@))),
            ),
            payments[i].id,
        ),
    decreases payments.len(),
{
    let id = payments[i].id;
    let rest = payments.drop_last();
    let p = payments.last();
    let legs = real_legs(accounts, leg_views(p.legs@));
    let own = payment_edges(accounts, ms, nodes, p, leaving(legs), arriving(legs));
    lemma_borne_join(all_edges(accounts, ms, nodes, rest), own, id);
    lemma_payment_txn(accounts, ms, nodes, p, leaving(legs), arriving(legs));
    if i == payments.len() - 1 {
        assert forall|j: int| 0 <= j < rest.len() implies (#[trigger] rest[j]).id != id by {
            assert(rest[j] == payments[j]);
        }
        lemma_none_of(accounts, ms, nodes, rest, id);
    } else {
        assert(payments[payments.len() - 1].id != id);
        lemma_borne_other(own, id);
        assert(rest[i] == payments[i]);
        assert forall|j: int| 0 <= j < rest.len() && j != i implies (#[trigger] rest[j]).id
            != rest[i].id by {
            assert(rest[j] == payments[j]);
        }
        lemma_borne_all(accounts, ms, nodes, rest, i);
    }
}

proof fn lemma_none_of(
    accounts: Seq<Account>,
    ms: Seq<(NodeKey, NodeKey)>,
    nodes: Seq<NodeKey>,
    payments: Seq<Payment>,
    id: i64,
)
    requires
        forall|j: int| 0 <= j < payments.len() ==> (#[trigger] payments[j]).id != id,
    ensures
        borne(all_edges(accounts, ms, nodes, payments), id) == 0,
    decreases payments.len(),
{
    if payments.len() > 0 {
        let rest = payments.drop_last();
        let p = payments.last();
        let legs = real_legs(accounts, leg_views(p.legs@));
        let own = payment_edges(accounts, ms, nodes, p, leaving(legs), arriving(legs));
        assert(payments[payments.len() - 1].id != id);
        assert forall|j: int| 0 <= j < rest.len() implies (#[trigger] rest[j]).id != id by {
            assert(rest[j] == payments[j]);
        }
        lemma_none_of(accounts, ms, nodes, rest, id);
        lemma_borne_join(all_edges(accounts, ms, nodes, rest), own, id);
        lemma_payment_txn(accounts, ms, nodes, p, leaving(legs), arriving(legs));
        lemma_borne_other(own, id);
    }
}

proof fn lemma_side_signs(legs: Seq<LegView>)
    ensures
        forall|i: int| 0 <= i < leaving(legs).len() ==> (#[trigger] leaving(legs)[i]).amount_minor
            < 0,
        forall|i: int| 0 <= i < arriving(legs).len() ==> 0 < (
        #[trigger] arriving(legs)[i]).amount_minor,
{
    assert forall|i: int| 0 <= i < leaving(legs).len() implies (
    #[trigger] leaving(legs)[i]).amount_minor < 0 by {
        lemma_sides_has(legs, leaving(legs)[i]);
    }
    assert forall|i: int| 0 <= i < arriving(legs).len() implies 0 < (
    #[trigger] arriving(legs)[i]).amount_minor by {
        lemma_sides_has(legs, arriving(legs)[i]);
    }
}

/// The arrows of a payment that takes out of one account as much as it brings into the others add up
/// to what left, and so do those of a payment that brings into one account what it takes out of the
/// others.
pub proof fn law_the_arrows_of_a_payment_add_up_to_what_left(
    g: Graph,
    accounts: Seq<Account>,
    payments: Seq<Payment>,
    links: Seq<Link>,
    i: int,
)
    requires
        is_graph(g, accounts, payments, links),
        0 <= i < payments.len(),
        forall|j: int| 0 <= j < payments.len() && j != i ==> (#[trigger] payments[j]).id
            != payments[i].id,
        ({
            let legs = leg_views(payments[i].legs@);
            &&& tallied(legs, outflow(accounts)) == tallied(legs, inflow(accounts))
            &&& tallied(legs, out_legs(accounts)) == 1 || tallied(legs, in_legs(accounts)) == 1
        }),
    ensures
        carried(g.edges@, payments[i].id) == tallied(
            leg_views(payments[i].legs@),
            outflow(accounts),
        ),
{
    let ms = merges(accounts, payments, links);
    let nodes = distinct(all_ends(accounts, ms, payments));
    let p = payments[i];
    let legs = leg_views(p.legs@);
    let moved = real_legs(accounts, legs);
    let out = leaving(moved);
    let arr = arriving(moved);
    lemma_carried(g.edges@, p.id);
    lemma_borne_all(accounts, ms, nodes, payments, i);
    lemma_sides(accounts, legs);
    lemma_side_signs(moved);
    if tallied(legs, in_legs(accounts)) == 1 {
        assert(arr.drop_last() =~= Seq::empty());
        assert(tallied(arr.drop_last(), brought()) == 0);
        lemma_funnel_sum(accounts, ms, nodes, p, out, arr);
    } else {
        assert(out.drop_last() =~= Seq::empty());
        assert(tallied(out.drop_last(), taken()) == 0);
        lemma_fan_sum(accounts, ms, nodes, p, out.last(), arr);
        let before = payment_edges(accounts, ms, nodes, p, out.drop_last(), arr);
        assert(before =~= Seq::empty());
        lemma_borne_join(before, fan(accounts, ms, nodes, p, out.last(), arr), p.id);
        assert(borne(before, p.id) == 0);
    }
}

/// Whether an arrow of a payment is the one from this leg to that.
spec fn is_arrow(
    accounts: Seq<Account>,
    ms: Seq<(NodeKey, NodeKey)>,
    nodes: Seq<NodeKey>,
    p: Payment,
    l: LegView,
    a: LegView,
    x: EdgeView,
) -> bool {
    x == edge_of(accounts, ms, nodes, p, l, a)
}

proof fn lemma_payment_arrow(
    accounts: Seq<Account>,
    ms: Seq<(NodeKey, NodeKey)>,
    nodes: Seq<NodeKey>,
    p: Payment,
    out: Seq<LegView>,
    arr: Seq<LegView>,
    x: EdgeView,
) -> (w: (LegView, LegView))
    requires
        payment_edges(accounts, ms, nodes, p, out, arr).contains(x),
    ensures
        out.contains(w.0),
        arr.contains(w.1),
        is_arrow(accounts, ms, nodes, p, w.0, w.1, x),
    decreases out.len(),
{
    if out.len() == 0 {
        assert(false);
        (arbitrary(), arbitrary())
    } else {
        let rest = out.drop_last();
        let f = fan(accounts, ms, nodes, p, out.last(), arr);
        lemma_join_has(payment_edges(accounts, ms, nodes, p, rest, arr), f, x);
        if f.contains(x) {
            let i = choose|i: int| 0 <= i < f.len() && f[i] == x;
            assert(f[i] == edge_of(accounts, ms, nodes, p, out.last(), arr[i]));
            assert(out[out.len() - 1] == out.last());
            (out.last(), arr[i])
        } else {
            let w = lemma_payment_arrow(accounts, ms, nodes, p, rest, arr, x);
            let i = choose|i: int| 0 <= i < rest.len() && rest[i] == w.0;
            assert(out[i] == w.0);
            w
        }
    }
}

proof fn lemma_arrow_of(
    accounts: Seq<Account>,
    ms: Seq<(NodeKey, NodeKey)>,
    nodes: Seq<NodeKey>,
    p: Payment,
    out: Seq<LegView>,
    arr: Seq<LegView>,
    l: LegView,
    a: LegView,
)
    requires
        out.contains(l),
        arr.contains(a),
    ensures
        payment_edges(accounts, ms, nodes, p, out, arr).contains(
            edge_of(accounts, ms, nodes, p, l, a),
        ),
    decreases out.len(),
{
    let x = edge_of(accounts, ms, nodes, p, l, a);
    let rest = out.drop_last();
    let f = fan(accounts, ms, nodes, p, out.last(), arr);
    lemma_join_has(payment_edges(accounts, ms, nodes, p, rest, arr), f, x);
    if out.last() == l {
        let i = choose|i: int| 0 <= i < arr.len() && arr[i] == a;
        assert(f[i] == x);
    } else {
        let i = choose|i: int| 0 <= i < out.len() && out[i] == l;
        assert(rest[i] == l);
        lemma_arrow_of(accounts, ms, nodes, p, rest, arr, l, a);
    }
}

proof fn lemma_arrow(
    accounts: Seq<Account>,
    ms: Seq<(NodeKey, NodeKey)>,
    nodes: Seq<NodeKey>,
    payments: Seq<Payment>,
    x: EdgeView,
) -> (w: (int, LegView, LegView))
    requires
        all_edges(accounts, ms, nodes, payments).contains(x),
    ensures
        0 <= w.0 < payments.len(),
        leg_views(payments[w.0].legs@).contains(w.1),
        leg_views(payments[w.0].legs@).contains(w.2),
        is_real(accounts, w.1),
        is_real(accounts, w.2),
        w.1.amount_minor < 0,
        w.2.amount_minor > 0,
        is_arrow(accounts, ms, nodes, payments[w.0], w.1, w.2, x),
    decreases payments.len(),
{
    if payments.len() == 0 {
        assert(false);
        (arbitrary(), arbitrary(), arbitrary())
    } else {
        let p = payments.last();
        let raw = leg_views(p.legs@);
        let legs = real_legs(accounts, raw);
        let own = payment_edges(accounts, ms, nodes, p, leaving(legs), arriving(legs));
        lemma_join_has(all_edges(accounts, ms, nodes, payments.drop_last()), own, x);
        if own.contains(x) {
            let w = lemma_payment_arrow(
                accounts,
                ms,
                nodes,
                p,
                leaving(legs),
                arriving(legs),
                x,
            );
            lemma_sides_has(legs, w.0);
            lemma_sides_has(legs, w.1);
            lemma_real_has(accounts, raw, w.0);
            lemma_real_has(accounts, raw, w.1);
            (payments.len() - 1, w.0, w.1)
        } else {
            let w = lemma_arrow(accounts, ms, nodes, payments.drop_last(), x);
            assert(payments.drop_last()[w.0] == payments[w.0]);
            w
        }
    }
}

proof fn lemma_every_arrow(
    accounts: Seq<Account>,
    ms: Seq<(NodeKey, NodeKey)>,
    nodes: Seq<NodeKey>,
    payments: Seq<Payment>,
    i: int,
    l: LegView,
    a: LegView,
)
    requires
        0 <= i < payments.len(),
        leg_views(payments[i].legs@).contains(l),
        leg_views(payments[i].legs@).contains(a),
        is_real(accounts, l),
        is_real(accounts, a),
        l.amount_minor < 0,
        a.amount_minor > 0,
    ensures
        all_edges(accounts, ms, nodes, payments).contains(
            edge_of(accounts, ms, nodes, payments[i], l, a),
        ),
    decreases payments.len(),
{
    let p = payments.last();
    let raw = leg_views(p.legs@);
    let legs = real_legs(accounts, raw);
    let own = payment_edges(accounts, ms, nodes, p, leaving(legs), arriving(legs));
    lemma_join_has(
        all_edges(accounts, ms, nodes, payments.drop_last()),
        own,
        edge_of(accounts, ms, nodes, payments[i], l, a),
    );
    if i == payments.len() - 1 {
        lemma_real_has(accounts, raw, l);
        lemma_real_has(accounts, raw, a);
        lemma_sides_has(legs, l);
        lemma_sides_has(legs, a);
        lemma_arrow_of(accounts, ms, nodes, p, leaving(legs), arriving(legs), l, a);
    } else {
        assert(payments.drop_last()[i] == payments[i]);
        lemma_every_arrow(accounts, ms, nodes, payments.drop_last(), i, l, a);
    }
}

/// The visits of a payment's legs are among the nodes.
proof fn lemma_end(
    accounts: Seq<Account>,
    ms: Seq<(NodeKey, NodeKey)>,
    payments: Seq<Payment>,
    i: int,
    l: LegView,
)
    requires
        0 <= i < payments.len(),
        leg_views(payments[i].legs@).contains(l),
        is_real(accounts, l),
        l.amount_minor != 0,
    ensures
        all_ends(accounts, ms, payments).contains(
            (Touch {
                txn: payments[i].id,
                key: stands_for(ms, key_of(accounts, payments[i].id, l.account_id)),
            }),
        ),
    decreases payments.len(),
{
    let p = payments.last();
    let raw = leg_views(p.legs@);
    let legs = real_legs(accounts, raw);
    let t = Touch {
        txn: payments[i].id,
        key: stands_for(ms, key_of(accounts, payments[i].id, l.account_id)),
    };
    let before = all_ends(accounts, ms, payments.drop_last());
    let outs = leg_ends(accounts, ms, p.id, leaving(legs));
    let ins = leg_ends(accounts, ms, p.id, arriving(legs));
    lemma_join_has(before, outs, t);
    lemma_join_has(before + outs, ins, t);
    if i == payments.len() - 1 {
        lemma_real_has(accounts, raw, l);
        lemma_sides_has(legs, l);
        if l.amount_minor < 0 {
            let k = choose|k: int| 0 <= k < leaving(legs).len() && leaving(legs)[k] == l;
            assert(outs[k] == t);
        } else {
            let k = choose|k: int| 0 <= k < arriving(legs).len() && arriving(legs)[k] == l;
            assert(ins[k] == t);
        }
    } else {
        assert(payments.drop_last()[i] == payments[i]);
        lemma_end(accounts, ms, payments.drop_last(), i, l);
    }
}

proof fn lemma_distinct_has(s: Seq<Touch>, t: Touch)
    requires
        s.contains(t),
    ensures
        distinct(s).contains(t.key),
    decreases s.len(),
{
    let rest = s.drop_last();
    lemma_push_has(distinct(rest), s.last().key, t.key);
    if s.last() != t {
        let i = choose|i: int| 0 <= i < s.len() && s[i] == t;
        assert(rest[i] == t);
        lemma_distinct_has(rest, t);
    }
}

proof fn lemma_spot(nodes: Seq<NodeKey>, k: NodeKey)
    requires
        nodes.contains(k),
    ensures
        0 <= spot(nodes, k) < nodes.len(),
        nodes[spot(nodes, k)] == k,
{
    lemma_first_is(nodes.len() as int, is_visit(nodes, k));
    let i = choose|i: int| 0 <= i < nodes.len() && nodes[i] == k;
    assert(is_visit(nodes, k)(i));
}

/// The node where a leg of a payment leaves or arrives is one of the leg's account.
proof fn lemma_node_of(
    g: Graph,
    accounts: Seq<Account>,
    payments: Seq<Payment>,
    links: Seq<Link>,
    i: int,
    l: LegView,
)
    requires
        is_graph(g, accounts, payments, links),
        0 <= i < payments.len(),
        leg_views(payments[i].legs@).contains(l),
        is_real(accounts, l),
        l.amount_minor != 0,
    ensures
        ({
            let ms = merges(accounts, payments, links);
            let nodes = distinct(all_ends(accounts, ms, payments));
            let n = node_at(accounts, ms, nodes, payments[i].id, l.account_id);
            &&& 0 <= n < g.nodes@.len()
            &&& g.nodes@[n].account_id == l.account_id
            &&& g.nodes@[n].txn_ids@.contains(payments[i].id)
        }),
{
    let ms = merges(accounts, payments, links);
    let ends = all_ends(accounts, ms, payments);
    let nodes = distinct(ends);
    let k = stands_for(ms, key_of(accounts, payments[i].id, l.account_id));
    let t = Touch { txn: payments[i].id, key: k };
    lemma_end(accounts, ms, payments, i, l);
    lemma_distinct_has(ends, t);
    lemma_spot(nodes, k);
    law_a_node_is_of_one_account(
        accounts,
        payments,
        links,
        key_of(accounts, payments[i].id, l.account_id),
    );
    let n = spot(nodes, k);
    assert(node_views(g.nodes@).len() == nodes.len());
    assert(node_views(g.nodes@)[n] == node_for(
        accounts,
        ends,
        all_edges(accounts, ms, nodes, payments),
        nodes,
        n,
    ));
    lemma_guest(ends, k, t);
}

proof fn lemma_guest(s: Seq<Touch>, k: NodeKey, t: Touch)
    requires
        s.contains(t),
        t.key == k,
    ensures
        guests(s, k).contains(t.txn),
    decreases s.len(),
{
    let rest = s.drop_last();
    if s.last() == t {
        lemma_with_id(guests(rest, k), s.last().txn);
    } else {
        let i = choose|i: int| 0 <= i < s.len() && s[i] == t;
        assert(rest[i] == t);
        lemma_guest(rest, k, t);
        lemma_with_id(guests(rest, k), s.last().txn);
    }
}

/// Every arrow runs from an account that a payment takes from to one that it brings to. It carries no
/// more than left the one and no more than arrived at the other, and all of one of the two; where the
/// currencies differ it also says what arrived.
pub proof fn law_an_arrow_carries_no_more_than_either_end(
    g: Graph,
    accounts: Seq<Account>,
    payments: Seq<Payment>,
    links: Seq<Link>,
    k: int,
) -> (w: (int, LegView, LegView))
    requires
        is_graph(g, accounts, payments, links),
        0 <= k < g.edges@.len(),
    ensures
        ({
            let e = g.edges@[k];
            let (i, l, a) = w;
            &&& 0 <= i < payments.len()
            &&& leg_views(payments[i].legs@).contains(l) && is_real(accounts, l)
            &&& leg_views(payments[i].legs@).contains(a) && is_real(accounts, a)
            &&& l.amount_minor < 0 < a.amount_minor
            &&& e.amount_minor <= -l.amount_minor
            &&& e.amount_minor <= a.amount_minor
            &&& e.amount_minor == -l.amount_minor || e.amount_minor == a.amount_minor
            &&& e.currency@ == l.currency
            &&& l.currency == a.currency ==> e.to_currency is None && e.to_minor is None
            &&& l.currency != a.currency ==> e.to_currency is Some && e.to_currency->0@ == a.currency
                && e.to_minor is Some && e.to_minor->0 == a.amount_minor
            &&& e.txn_id == payments[i].id
            &&& e.occurred_on@ == payments[i].occurred_on@
            &&& e.description@ == payments[i].description@
            &&& e.links == payments[i].links
            &&& e.from < g.nodes@.len() && g.nodes@[e.from as int].account_id == l.account_id
            &&& e.to < g.nodes@.len() && g.nodes@[e.to as int].account_id == a.account_id
            &&& g.nodes@[e.from as int].txn_ids@.contains(e.txn_id)
            &&& g.nodes@[e.to as int].txn_ids@.contains(e.txn_id)
        }),
{
    let ms = merges(accounts, payments, links);
    let nodes = distinct(all_ends(accounts, ms, payments));
    let x = g.edges@[k]@;
    assert(edge_views(g.edges@)[k] == x);
    let w = lemma_arrow(accounts, ms, nodes, payments, x);
    lemma_node_of(g, accounts, payments, links, w.0, w.1);
    lemma_node_of(g, accounts, payments, links, w.0, w.2);
    w
}

/// From each account that a payment takes from to each that it brings to there is an arrow, and it
/// carries the smaller of what left the one and arrived at the other.
pub proof fn law_every_pair_of_ends_is_joined(
    g: Graph,
    accounts: Seq<Account>,
    payments: Seq<Payment>,
    links: Seq<Link>,
    i: int,
    l: LegView,
    a: LegView,
) -> (k: int)
    requires
        is_graph(g, accounts, payments, links),
        0 <= i < payments.len(),
        leg_views(payments[i].legs@).contains(l),
        leg_views(payments[i].legs@).contains(a),
        is_real(accounts, l),
        is_real(accounts, a),
        l.amount_minor < 0 < a.amount_minor,
    ensures
        0 <= k < g.edges@.len(),
        ({
            let e = g.edges@[k];
            &&& e.txn_id == payments[i].id
            &&& e.from < g.nodes@.len() && g.nodes@[e.from as int].account_id == l.account_id
            &&& e.to < g.nodes@.len() && g.nodes@[e.to as int].account_id == a.account_id
            &&& e.currency@ == l.currency
            &&& -l.amount_minor <= a.amount_minor ==> e.amount_minor == -l.amount_minor
            &&& a.amount_minor <= -l.amount_minor ==> e.amount_minor == a.amount_minor
        }),
{
    let ms = merges(accounts, payments, links);
    let nodes = distinct(all_ends(accounts, ms, payments));
    let x = edge_of(accounts, ms, nodes, payments[i], l, a);
    lemma_every_arrow(accounts, ms, nodes, payments, i, l, a);
    lemma_node_of(g, accounts, payments, links, i, l);
    lemma_node_of(g, accounts, payments, links, i, a);
    let k = choose|k: int|
        0 <= k < edge_views(g.edges@).len() && edge_views(g.edges@)[k] == x;
    assert(g.edges@[k]@ == x);
    k
}

/// How many arrows there are into a node.
pub open spec fn arrows_into(edges: Seq<Edge>, n: int) -> int
    decreases edges.len(),
{
    if edges.len() == 0 {
        0
    } else {
        arrows_into(edges.drop_last(), n) + (if edges.last().to == n {
            1int
        } else {
            0
        })
    }
}

/// How many arrows there are out of a node.
pub open spec fn arrows_from(edges: Seq<Edge>, n: int) -> int
    decreases edges.len(),
{
    if edges.len() == 0 {
        0
    } else {
        arrows_from(edges.drop_last(), n) + (if edges.last().from == n {
            1int
        } else {
            0
        })
    }
}

proof fn lemma_arrow_counts(edges: Seq<Edge>, n: int)
    ensures
        arrows_into(edges, n) == count_to(edge_views(edges), n),
        arrows_from(edges, n) == count_from(edge_views(edges), n),
    decreases edges.len(),
{
    if edges.len() > 0 {
        lemma_arrow_counts(edges.drop_last(), n);
        assert(edge_views(edges).drop_last() =~= edge_views(edges.drop_last()));
    }
}

/// A node says what its account is called, of which kind and in which currency; it is shared exactly
/// where that kind is income, expense or equity; and it counts the arrows that end and start there.
pub proof fn law_a_node_describes_its_account(
    g: Graph,
    accounts: Seq<Account>,
    payments: Seq<Payment>,
    links: Seq<Link>,
    n: int,
    j: int,
)
    requires
        is_graph(g, accounts, payments, links),
        0 <= n < g.nodes@.len(),
        0 <= j < accounts.len(),
        accounts[j].id == g.nodes@[n].account_id,
        forall|i: int| 0 <= i < j ==> (#[trigger] accounts[i]).id != accounts[j].id,
    ensures
        g.nodes@[n].account@ == accounts[j].name@,
        g.nodes@[n].kind@ == accounts[j].kind@,
        g.nodes@[n].currency@ == accounts[j].currency@,
        g.nodes@[n].shared <==> accounts[j].kind@ == "income"@ || accounts[j].kind@ == "expense"@
            || accounts[j].kind@ == "equity"@,
        g.nodes@[n].arrows_in == arrows_into(g.edges@, n),
        g.nodes@[n].arrows_out == arrows_from(g.edges@, n),
{
    let ms = merges(accounts, payments, links);
    let ends = all_ends(accounts, ms, payments);
    let nodes = distinct(ends);
    lemma_arrow_counts(g.edges@, n);
    lemma_place_of(accounts, accounts[j].id, j);
    assert(node_views(g.nodes@).len() == nodes.len());
    assert(node_views(g.nodes@)[n] == node_for(
        accounts,
        ends,
        all_edges(accounts, ms, nodes, payments),
        nodes,
        n,
    ));
    assert(node_views(g.nodes@)[n] == g.nodes@[n]@);
}

/// Merging never touches what is one visit for all payments, nor makes a visit of one into that.
proof fn lemma_shared_stays(ms: Seq<(NodeKey, NodeKey)>, k: NodeKey)
    requires
        forall|i: int| 0 <= i < ms.len() ==> (#[trigger] ms[i]).0.txn is Some && ms[i].1.txn is Some,
    ensures
        k.txn is None ==> stands_for(ms, k) == k,
        k.txn is Some ==> stands_for(ms, k).txn is Some,
    decreases ms.len(),
{
    if ms.len() > 0 {
        let rest = ms.drop_last();
        assert(ms[ms.len() - 1].0.txn is Some && ms[ms.len() - 1].1.txn is Some);
        assert forall|i: int| 0 <= i < rest.len() implies (#[trigger] rest[i]).0.txn is Some
            && rest[i].1.txn is Some by {
            assert(rest[i] == ms[i]);
        }
        lemma_shared_stays(rest, k);
        lemma_shared_stays(rest, ms.last().0);
        lemma_shared_stays(rest, ms.last().1);
    }
}

proof fn lemma_link_merges_own(
    accounts: Seq<Account>,
    a: i64,
    la: Seq<LegView>,
    b: i64,
    lb: Seq<LegView>,
)
    ensures
        forall|i: int|
            0 <= i < link_merges(accounts, a, la, b, lb).len() ==> (#[trigger] link_merges(
                accounts,
                a,
                la,
                b,
                lb,
            )[i]).0.txn is Some && link_merges(accounts, a, la, b, lb)[i].1.txn is Some,
    decreases la.len(),
{
    if la.len() > 0 {
        lemma_link_merges_own(accounts, a, la.drop_last(), b, lb);
    }
}

proof fn lemma_merges_own(accounts: Seq<Account>, payments: Seq<Payment>, links: Seq<Link>)
    ensures
        forall|i: int|
            0 <= i < merges(accounts, payments, links).len() ==> (#[trigger] merges(
                accounts,
                payments,
                links,
            )[i]).0.txn is Some && merges(accounts, payments, links)[i].1.txn is Some,
    decreases links.len(),
{
    if links.len() > 0 {
        let l = links.last();
        lemma_merges_own(accounts, payments, links.drop_last());
        lemma_link_merges_own(
            accounts,
            l.from,
            flow_of(accounts, payments, l.from),
            l.to,
            flow_of(accounts, payments, l.to),
        );
    }
}

/// The two ends of every leg of every payment at one shared account are one node.
pub proof fn law_a_shared_account_is_one_visit(
    accounts: Seq<Account>,
    payments: Seq<Payment>,
    links: Seq<Link>,
    account: i64,
    a: i64,
    b: i64,
)
    requires
        of_kind(accounts, account, "income"@) || of_kind(accounts, account, "expense"@) || of_kind(
            accounts,
            account,
            "equity"@,
        ),
    ensures
        stands_for(merges(accounts, payments, links), key_of(accounts, a, account)) == (NodeKey {
            txn: None,
            account,
        }),
        stands_for(merges(accounts, payments, links), key_of(accounts, a, account)) == stands_for(
            merges(accounts, payments, links),
            key_of(accounts, b, account),
        ),
{
    reveal_strlit("income");
    reveal_strlit("expense");
    reveal_strlit("equity");
    assert("income"@.len() == 6 && "expense"@.len() == 7 && "equity"@.len() == 6);
    lemma_of_kind(accounts, account, "income"@);
    lemma_of_kind(accounts, account, "expense"@);
    lemma_of_kind(accounts, account, "equity"@);
    lemma_merges_own(accounts, payments, links);
    lemma_shared_stays(merges(accounts, payments, links), key_of(accounts, a, account));
}

/// The place of the first payment with an id.
proof fn lemma_flow_of(accounts: Seq<Account>, payments: Seq<Payment>, i: int)
    requires
        0 <= i < payments.len(),
        forall|j: int| 0 <= j < i ==> (#[trigger] payments[j]).id != payments[i].id,
    ensures
        pay_place(payments, payments[i].id) == i,
        flow_of(accounts, payments, payments[i].id) == real_legs(
            accounts,
            leg_views(payments[i].legs@),
        ),
{
    let p = crate::graph::is_payment(payments, payments[i].id);
    assert forall|j: int| 0 <= j < i implies !#[trigger] p(j) by {
        assert(payments[j].id != payments[i].id);
    }
    lemma_first(payments.len() as int, p, i);
}

/// Whether two payments have a real account in common.
pub open spec fn have_in_common(
    accounts: Seq<Account>,
    la: Seq<LegView>,
    lb: Seq<LegView>,
) -> bool {
    exists|x: LegView, y: LegView|
        #![trigger la.contains(x), lb.contains(y)]
        la.contains(x) && lb.contains(y) && is_real(accounts, x) && x.account_id == y.account_id
}

/// Whether a node is of an account to which one of the legs brings, or from which it takes.
pub open spec fn at_leg(
    g: Graph,
    accounts: Seq<Account>,
    n: int,
    legs: Seq<LegView>,
    brings: bool,
) -> bool {
    0 <= n < g.nodes@.len() && exists|x: LegView| #[trigger]
        legs.contains(x) && is_real(accounts, x) && g.nodes@[n].account_id == x.account_id && (if brings {
            x.amount_minor > 0
        } else {
            x.amount_minor < 0
        })
}

/// A link between two payments that are drawn is drawn as an arrow of its own exactly where they have
/// no account in common; the arrow then leads from where the first arrives to where the second leaves.
pub proof fn law_a_link_is_drawn_where_no_account_joins(
    g: Graph,
    accounts: Seq<Account>,
    payments: Seq<Payment>,
    links: Seq<Link>,
    k: int,
    i: int,
    j: int,
)
    requires
        is_graph(g, accounts, payments, links),
        0 <= k < links.len(),
        0 <= i < payments.len(),
        0 <= j < payments.len(),
        payments[i].id == links[k].from,
        payments[j].id == links[k].to,
        forall|h: int| 0 <= h < i ==> (#[trigger] payments[h]).id != payments[i].id,
        forall|h: int| 0 <= h < j ==> (#[trigger] payments[h]).id != payments[j].id,
    ensures
        k < g.links@.len(),
        g.links@[k].from_txn == links[k].from,
        g.links@[k].to_txn == links[k].to,
        crate::text::opt_view(g.links@[k].note) == crate::text::opt_view(links[k].note),
        g.links@[k].shared <==> have_in_common(
            accounts,
            leg_views(payments[i].legs@),
            leg_views(payments[j].legs@),
        ),
        g.links@[k].shared ==> g.links@[k].from_node is None && g.links@[k].to_node is None,
        !g.links@[k].shared ==> {
            let la = leg_views(payments[i].legs@);
            let lb = leg_views(payments[j].legs@);
            &&& tallied(la, in_legs(accounts)) > 0 ==> g.links@[k].from_node is Some && at_leg(
                g,
                accounts,
                g.links@[k].from_node->0 as int,
                la,
                true,
            )
            &&& tallied(lb, out_legs(accounts)) > 0 ==> g.links@[k].to_node is Some && at_leg(
                g,
                accounts,
                g.links@[k].to_node->0 as int,
                lb,
                false,
            )
        },
{
    let ms = merges(accounts, payments, links);
    let nodes = distinct(all_ends(accounts, ms, payments));
    let la = leg_views(payments[i].legs@);
    let lb = leg_views(payments[j].legs@);
    let fa = real_legs(accounts, la);
    let fb = real_legs(accounts, lb);
    lemma_flow_of(accounts, payments, i);
    lemma_flow_of(accounts, payments, j);
    assert(row_views(g.links@).len() == links.len());
    assert(row_views(g.links@)[k] == link_row(accounts, ms, nodes, payments, links[k]@));
    let row = g.links@[k];
    assert(row_views(g.links@)[k] == row@);
    // The two ways of saying that they meet.
    if have_in_common(accounts, la, lb) {
        let (x, y) = choose|x: LegView, y: LegView|
            #![trigger la.contains(x), lb.contains(y)]
            la.contains(x) && lb.contains(y) && is_real(accounts, x) && x.account_id == y.account_id;
        lemma_is_real(accounts, x);
        lemma_is_real(accounts, y);
        lemma_real_has(accounts, la, x);
        lemma_real_has(accounts, lb, y);
        let u = choose|u: int| 0 <= u < fa.len() && fa[u] == x;
        let v = choose|v: int| 0 <= v < fb.len() && fb[v] == y;
        assert(fb[v].account_id == fa[u].account_id);
        assert(touches(fb, fa[u].account_id));
        assert(meets(fa, fb));
    }
    if meets(fa, fb) {
        let u = choose|u: int| 0 <= u < fa.len() && touches(fb, (#[trigger] fa[u]).account_id);
        let v = choose|v: int| 0 <= v < fb.len() && (#[trigger] fb[v]).account_id
            == fa[u].account_id;
        assert(fa.contains(fa[u]));
        assert(fb.contains(fb[v]));
        lemma_real_has(accounts, la, fa[u]);
        lemma_real_has(accounts, lb, fb[v]);
        assert(la.contains(fa[u]) && lb.contains(fb[v]));
    }
    lemma_sides(accounts, la);
    lemma_sides(accounts, lb);
    if !row.shared && arriving(fa).len() > 0 {
        let x = arriving(fa)[0];
        assert(arriving(fa).contains(x));
        lemma_sides_has(fa, x);
        lemma_real_has(accounts, la, x);
        lemma_node_of(g, accounts, payments, links, i, x);
        assert(row@.from_node == Some(node_at(accounts, ms, nodes, payments[i].id, x.account_id)));
    }
    if !row.shared && leaving(fb).len() > 0 {
        let x = leaving(fb)[0];
        assert(leaving(fb).contains(x));
        lemma_sides_has(fb, x);
        lemma_real_has(accounts, lb, x);
        lemma_node_of(g, accounts, payments, links, j, x);
        assert(row@.to_node == Some(node_at(accounts, ms, nodes, payments[j].id, x.account_id)));
    }
}

} // verus!
