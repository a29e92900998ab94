//! Which recurring payments and chains are accepted, what their hops move, and how they are previewed.

use crate::book::{account_of, known, Account};
use crate::date::{read_day, Date};
use crate::lists::{lemma_first, lemma_first_is, lemma_push_has};
use crate::plans::{
    amounts_refusal, are_chain_legs, cannot_stop, dates_refusal, end_text_refusal, family_of,
    has_id, holds_other, hop_amount, hop_size, is_barred, is_leg_of, preview_of, primary_or,
    route_refusal, series_chain_refusal, supersede_refusal, FamilyRow, Primary,
};
use crate::recur::adjusted;
use crate::revise::{not_positive, stays_put, Answer};
use crate::rules::Hop;
use crate::shape::MoneyLegs;
use crate::text::text_lt;
use vstd::prelude::*;

verus! {

/// What moves with a row is the row itself and every hop of its chain.
pub proof fn law_a_chain_moves_together(hops: Seq<Hop>, at: int, k: int)
    requires
        0 <= at < hops.len(),
        forall|j: int| 0 <= j < at ==> (#[trigger] hops[j]).id != hops[at].id,
        0 <= k < hops.len(),
    ensures
        hops[k].id == hops[at].id || (hops[at].chain_id is Some && hops[k].chain_id
            == hops[at].chain_id) ==> family_of(hops, hops[at].id, hops.len() as int).contains(
            (FamilyRow { id: hops[k].id, chain_seq: hops[k].chain_seq }),
        ),
        forall|r: FamilyRow| #[trigger]
            family_of(hops, hops[at].id, hops.len() as int).contains(r) ==> exists|j: int|
                0 <= j < hops.len() && (#[trigger] hops[j]).id == r.id && hops[j].chain_seq
                    == r.chain_seq && (hops[j].id == hops[at].id || (hops[at].chain_id is Some
                    && hops[j].chain_id == hops[at].chain_id)),
{
    let id = hops[at].id;
    let p = has_id(hops, id);
    assert forall|j: int| 0 <= j < at implies !#[trigger] p(j) by {
        assert(hops[j].id != id);
    }
    lemma_first(hops.len() as int, p, at);
    lemma_family(hops, id, hops.len() as int, k);
    assert forall|r: FamilyRow| #[trigger]
        family_of(hops, id, hops.len() as int).contains(r) implies exists|j: int|
        0 <= j < hops.len() && (#[trigger] hops[j]).id == r.id && hops[j].chain_seq == r.chain_seq && (
        hops[j].id == id || (hops[at].chain_id is Some && hops[j].chain_id == hops[at].chain_id)) by {
        let j = lemma_family_from(hops, id, hops.len() as int, r);
        assert(hops[j].id == r.id);
    }
}

proof fn lemma_family(hops: Seq<Hop>, id: i64, n: int, k: int)
    requires
        0 <= k < n <= hops.len(),
    ensures
        crate::plans::moves_with(hops, id, hops[k]) ==> family_of(hops, id, n).contains(
            (FamilyRow { id: hops[k].id, chain_seq: hops[k].chain_seq }),
        ),
    decreases n,
{
    let h = hops[n - 1];
    let row = FamilyRow { id: hops[k].id, chain_seq: hops[k].chain_seq };
    lemma_push_has(
        family_of(hops, id, n - 1),
        FamilyRow { id: h.id, chain_seq: h.chain_seq },
        row,
    );
    if k < n - 1 {
        lemma_family(hops, id, n - 1, k);
    }
}

proof fn lemma_family_from(hops: Seq<Hop>, id: i64, n: int, r: FamilyRow) -> (j: int)
    requires
        0 <= n <= hops.len(),
        family_of(hops, id, n).contains(r),
    ensures
        0 <= j < n,
        hops[j].id == r.id,
        hops[j].chain_seq == r.chain_seq,
        crate::plans::moves_with(hops, id, hops[j]),
    decreases n,
{
    if n <= 0 {
        assert(false);
        0
    } else {
        let h = hops[n - 1];
        lemma_push_has(family_of(hops, id, n - 1), FamilyRow { id: h.id, chain_seq: h.chain_seq }, r);
        if family_of(hops, id, n - 1).contains(r) {
            lemma_family_from(hops, id, n - 1, r)
        } else {
            n - 1
        }
    }
}

/// A chain can be cancelled in a what-if by its first hop alone, and not replaced.
pub proof fn law_a_chain_is_cancelled_by_its_first_hop(chain_seq: Option<i64>, postings: nat)
    ensures
        supersede_refusal(chain_seq, postings) is None <==> chain_seq is None || (chain_seq->0 <= 0
            && postings == 0),
{
}

/// The dates of a payment are accepted exactly where both can be read and the end is not before the
/// start.
pub proof fn law_a_payment_ends_no_earlier_than_it_starts(start: Seq<char>, until: Option<Seq<char>>)
    ensures
        dates_refusal(start, until) is None <==> read_day(start, "%Y-%m-%d"@) is Some && (until is None
            || (read_day(until->0, "%Y-%m-%d"@) is Some && read_day(start, "%Y-%m-%d"@)->0 <= read_day(
            until->0,
            "%Y-%m-%d"@,
        )->0)),
        end_text_refusal(until, start) is None <==> until is None || (read_day(until->0, "%Y-%m-%d"@)
            is Some && !text_lt(until->0, start)),
{
}

/// A route is accepted exactly where every stop is an account that is not the core's own, all hold
/// one currency, and every stop between the ends is an asset or a liability.
pub proof fn law_a_route_stays_in_one_currency_through_real_accounts(
    accounts: Seq<Account>,
    route: Seq<i64>,
)
    requires
        route.len() > 0,
    ensures
        route_refusal(accounts, route) is None <==> {
            &&& forall|i: int|
                0 <= i < route.len() ==> known(accounts, #[trigger] route[i]) && !account_of(
                    accounts,
                    route[i],
                ).system && account_of(accounts, route[i]).currency@ == account_of(
                    accounts,
                    route[0],
                ).currency@
            &&& forall|i: int|
                0 < i < route.len() - 1 ==> account_of(accounts, #[trigger] route[i]).kind@ == "asset"@
                    || account_of(accounts, route[i]).kind@ == "liability"@
        },
{
    let n = route.len() as int;
    let (p, q, s) = (
        is_barred(accounts, route),
        holds_other(accounts, route),
        cannot_stop(accounts, route),
    );
    lemma_first_is(n, p);
    lemma_first_is(n, q);
    lemma_first_is(n - 1, s);
    let (b, o, c) = (
        crate::lists::first(n, p),
        crate::lists::first(n, q),
        crate::lists::first(n - 1, s),
    );
    if b < n {
        assert(p(b));
        assert(route[b] == route[b]);
    } else if o < n {
        assert(q(o));
        assert(route[o] == route[o]);
    } else if c < n - 1 {
        assert(s(c));
        assert(route[c] == route[c]);
    } else {
        assert forall|i: int| 0 <= i < route.len() implies known(accounts, #[trigger] route[i])
            && !account_of(accounts, route[i]).system && account_of(accounts, route[i]).currency@
            == account_of(accounts, route[0]).currency@ by {
            assert(!p(i));
            assert(!q(i));
        }
        assert forall|i: int| 0 < i < route.len() - 1 implies account_of(
            accounts,
            #[trigger] route[i],
        ).kind@ == "asset"@ || account_of(accounts, route[i]).kind@ == "liability"@ by {
            assert(!s(i));
        }
    }
}

/// The amounts of a chain are accepted exactly where there are two or more, all positive, and no hop
/// leads to the account it starts from.
pub proof fn law_a_chain_moves_positive_amounts_onward(route: Seq<i64>, amounts: Seq<i64>)
    ensures
        amounts_refusal(route, amounts) is None <==> {
            &&& amounts.len() >= 2
            &&& forall|i: int|
                0 <= i < amounts.len() ==> #[trigger] amounts[i] > 0 && route[i] != route[i + 1]
        },
{
    let n = amounts.len() as int;
    let (p, s) = (not_positive(amounts), stays_put(route));
    lemma_first_is(n, p);
    lemma_first_is(n, s);
    let (a, b) = (crate::lists::first(n, p), crate::lists::first(n, s));
    if a < n {
        assert(p(a));
        assert(amounts[a] <= 0);
    } else if b < n {
        assert(s(b));
        assert(!p(b));
        assert(amounts[b] > 0 && route[b] == route[b + 1]);
    } else {
        assert forall|i: int| 0 <= i < amounts.len() implies #[trigger] amounts[i] > 0 && route[i]
            != route[i + 1] by {
            assert(!p(i));
            assert(!s(i));
        }
    }
}

/// A recurring chain is accepted exactly where its amounts, its rule and its route are.
pub proof fn law_a_recurring_chain_is_accepted_where_all_of_it_is(
    accounts: Seq<Account>,
    route: Seq<i64>,
    amounts: Seq<i64>,
    days: Answer,
)
    ensures
        series_chain_refusal(accounts, route, amounts, days) is None <==> amounts_refusal(route, amounts)
            is None && days is Ok && route_refusal(accounts, route) is None,
{
}

/// Each hop of a recurring chain takes its amount out of the stop it starts from and brings it to the
/// next.
pub proof fn law_a_hop_takes_from_one_stop_and_brings_to_the_next(
    v: Seq<MoneyLegs>,
    route: Seq<i64>,
    amounts: Seq<i64>,
    i: int,
)
    requires
        are_chain_legs(v, route, amounts),
        0 <= i < v.len(),
    ensures
        v[i].primary_account == route[i],
        v[i].primary_minor == -amounts[i],
        v[i].balancing_account == route[i + 1],
        v[i].balancing_minor == amounts[i],
{
}

/// Whether a series has this primary amount, by its first leg among them.
pub open spec fn has_primary(all: Seq<Primary>, id: i64, amount: i64) -> bool {
    exists|k: int|
        0 <= k < all.len() && (#[trigger] all[k]).series_id == id && all[k].amount_minor == amount && (
        forall|j: int| 0 <= j < k ==> (#[trigger] all[j]).series_id != id)
}

proof fn lemma_has_primary(all: Seq<Primary>, id: i64, amount: i64, other: i64)
    requires
        has_primary(all, id, amount),
    ensures
        primary_or(all, id, other) == amount,
{
    let k = choose|k: int|
        0 <= k < all.len() && (#[trigger] all[k]).series_id == id && all[k].amount_minor == amount && (
        forall|j: int| 0 <= j < k ==> (#[trigger] all[j]).series_id != id);
    let p = is_leg_of(all, id);
    assert forall|j: int| 0 <= j < k implies !#[trigger] p(j) by {
        assert(all[j].series_id != id);
    }
    lemma_first(all.len() as int, p, k);
}

/// Setting one hop of a chain to an amount changes every hop's size by the same difference, and each
/// keeps its own sign.
pub proof fn law_setting_one_hop_changes_all_by_the_same(
    all: Seq<Primary>,
    set_on: i64,
    id: i64,
    amount: i64,
    was: i64,
    mine: i64,
)
    requires
        has_primary(all, set_on, was),
        has_primary(all, id, mine),
    ensures
        mine >= 0 && was >= 0 && amount >= 0 ==> hop_amount(all, set_on, id, amount) - mine == amount
            - was,
        mine < 0 && was >= 0 && amount >= 0 ==> -hop_amount(all, set_on, id, amount) + mine == amount
            - was,
        mine < 0 && was < 0 && amount < 0 ==> hop_amount(all, set_on, id, amount) - mine == amount
            - was,
        mine >= 0 && was < 0 && amount < 0 ==> hop_amount(all, set_on, id, amount) - mine == was
            - amount,
        hop_amount(all, set_on, id, amount) == hop_size(all, set_on, id, amount) || hop_amount(
            all,
            set_on,
            id,
            amount,
        ) == -hop_size(all, set_on, id, amount),
{
    lemma_has_primary(all, set_on, was, amount);
    lemma_has_primary(all, id, mine, was);
}

/// A preview shows the first days of the rule, as many as asked for but at least one and at most
/// fifty, each with the day its money moves.
pub proof fn law_a_preview_shows_the_first_days(days: Seq<Date>, weekend: Seq<char>, count: i64, i: int)
    ensures
        preview_of(days, weekend, count).len() <= days.len(),
        preview_of(days, weekend, count).len() <= 50,
        1 <= count ==> preview_of(days, weekend, count).len() <= count,
        1 <= count <= 50 && count <= days.len() ==> preview_of(days, weekend, count).len() == count,
        count < 1 && days.len() > 0 ==> preview_of(days, weekend, count).len() == 1,
        count > 50 && days.len() >= 50 ==> preview_of(days, weekend, count).len() == 50,
        1 <= count && days.len() <= count && days.len() <= 50 ==> preview_of(days, weekend, count).len()
            == days.len(),
        0 <= i < preview_of(days, weekend, count).len() ==> preview_of(days, weekend, count)[i].occurrence_on
            == days[i] && preview_of(days, weekend, count)[i].value_on == adjusted(
            days[i],
            weekend,
            Seq::empty(),
        ),
{
}

} // verus!
