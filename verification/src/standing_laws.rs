//! Where a rule stands: which way it moves money, whether it runs, what is wrong with it, what is
//! recorded of it and what is to come.

use crate::amends::{
    any_size, carries_template, following, holds_amount_only, is_cut_off, size_at, sizes, wave,
    wave_holds_amounts_only,
};
use crate::book::Account;
use crate::date::Date;
use crate::impact::PointOn;
use crate::lists::{lemma_first_is, lemma_push_has};
use crate::marks::{
    adjustments_of, is_live, is_past, is_stray_on, places_on, stray_claims, strays, with_stray,
    Stray,
};
use crate::paths::lemma_with_id;
use crate::reschedule::{
    adjusted_days, claim_days, days_where, has_day, key_days, Adjustment, Claim,
};
use crate::rules::Hop;
use crate::shape::Shape;
use crate::standing::{
    account_warnings, accounts_with, agree, all_account_warnings, all_balance, claims_of, coming,
    direction_of, group_of, is_after, is_paid, is_recorded, latest_of, legs_balance, legs_in, owed,
    paid_amount, primary_account, txns_on, warnings_of, Paid, Recorded,
};
use crate::text::text_lt;
use crate::trace_laws::{law_an_account_is_the_first_with_its_id, of_kind};
use vstd::prelude::*;

verus! {

/// A day is among those for which something holds exactly where it was among them and it does.
pub proof fn lemma_where_has(days: Seq<i64>, p: spec_fn(i64) -> bool, d: i64)
    ensures
        days_where(days, p).contains(d) <==> days.contains(d) && p(d),
    decreases days.len(),
{
    if days.len() > 0 {
        let rest = days.drop_last();
        lemma_where_has(rest, p, d);
        lemma_push_has(rest, days.last(), d);
        lemma_push_has(days_where(rest, p), days.last(), d);
        assert(rest.push(days.last()) =~= days);
    }
}

/// Whether a day is claimed.
pub open spec fn is_claimed(claims: Seq<Claim>, d: i64) -> bool {
    exists|i: int| 0 <= i < claims.len() && (#[trigger] claims[i]).occurrence_on.days == d
}

/// Whether a day is adjusted.
pub open spec fn is_adjusted(adjs: Seq<Adjustment>, d: i64) -> bool {
    exists|i: int| 0 <= i < adjs.len() && (#[trigger] adjs[i]).occurrence_on.days == d
}

/// The days that are claimed are those with a claim.
pub proof fn lemma_claimed(claims: Seq<Claim>, d: i64)
    ensures
        claim_days(claims).contains(d) <==> is_claimed(claims, d),
    decreases claims.len(),
{
    if claims.len() > 0 {
        let rest = claims.drop_last();
        lemma_claimed(rest, d);
        lemma_with_id(claim_days(rest), claims.last().occurrence_on.days as i64);
        assert(claims[claims.len() - 1] == claims.last());
        if is_claimed(rest, d) {
            let i = choose|i: int| 0 <= i < rest.len() && (#[trigger] rest[i]).occurrence_on.days == d;
            assert(claims[i].occurrence_on.days == d);
        }
        if is_claimed(claims, d) {
            let i = choose|i: int|
                0 <= i < claims.len() && (#[trigger] claims[i]).occurrence_on.days == d;
            if i < rest.len() {
                assert(rest[i].occurrence_on.days == d);
            }
        }
    }
}

/// The days that are adjusted are those with an adjustment.
pub proof fn lemma_adjusted(adjs: Seq<Adjustment>, d: i64)
    ensures
        adjusted_days(adjs).contains(d) <==> is_adjusted(adjs, d),
    decreases adjs.len(),
{
    if adjs.len() > 0 {
        let rest = adjs.drop_last();
        lemma_adjusted(rest, d);
        lemma_with_id(adjusted_days(rest), adjs.last().occurrence_on.days as i64);
        assert(adjs[adjs.len() - 1] == adjs.last());
        if is_adjusted(rest, d) {
            let i = choose|i: int| 0 <= i < rest.len() && (#[trigger] rest[i]).occurrence_on.days == d;
            assert(adjs[i].occurrence_on.days == d);
        }
        if is_adjusted(adjs, d) {
            let i = choose|i: int| 0 <= i < adjs.len() && (#[trigger] adjs[i]).occurrence_on.days == d;
            if i < rest.len() {
                assert(rest[i].occurrence_on.days == d);
            }
        }
    }
}

/// The days looked at are those claimed or adjusted.
pub proof fn law_the_days_looked_at_are_those_claimed_or_adjusted(
    claims: Seq<Claim>,
    adjs: Seq<Adjustment>,
    d: i64,
)
    ensures
        key_days(claims, adjs).contains(d) <==> is_claimed(claims, d) || is_adjusted(adjs, d),
    decreases adjs.len(),
{
    lemma_claimed(claims, d);
    if adjs.len() > 0 {
        let rest = adjs.drop_last();
        law_the_days_looked_at_are_those_claimed_or_adjusted(claims, rest, d);
        lemma_adjusted(rest, d);
        lemma_adjusted(adjs, d);
        lemma_with_id(key_days(claims, rest), adjs.last().occurrence_on.days as i64);
        lemma_with_id(adjusted_days(rest), adjs.last().occurrence_on.days as i64);
    }
}

proof fn lemma_money_kinds()
    ensures
        "asset"@.len() == 5,
        "liability"@.len() == 9,
{
    reveal_strlit("asset");
    reveal_strlit("liability");
}

/// Whether an account holds money: it is there and is an asset or a liability.
pub open spec fn has_money(accounts: Seq<Account>, id: i64) -> bool {
    of_kind(accounts, id, "asset"@) || of_kind(accounts, id, "liability"@)
}

proof fn lemma_has_money(accounts: Seq<Account>, id: i64)
    ensures
        has_money(accounts, id) <==> crate::standing::holds_money(accounts, id),
{
    law_an_account_is_the_first_with_its_id(accounts, id);
    lemma_money_kinds();
    crate::trace_laws::lemma_of_kind(accounts, id, "asset"@);
    crate::trace_laws::lemma_of_kind(accounts, id, "liability"@);
}

/// A rule that can be drawn as a route moves money out where only its first stop holds money, in
/// where only its last does, and between accounts where both do.
pub proof fn law_a_rule_goes_the_way_its_ends_say(shape: Shape, accounts: Seq<Account>)
    requires
        shape.route@.len() > 0,
    ensures
        ({
            let from = has_money(accounts, shape.route@[0]);
            let to = has_money(accounts, shape.route@[shape.route@.len() - 1]);
            let way = direction_of(shape, accounts);
            &&& way is Transfer <==> shape.two_leg && from && to
            &&& way is Out <==> shape.two_leg && from && !to
            &&& way is In <==> shape.two_leg && !from && to
        }),
{
    lemma_has_money(accounts, shape.route@[0]);
    lemma_has_money(accounts, shape.route@[shape.route@.len() - 1]);
}

/// A rule has ended where its last day is past, has not started where its first is to come, and runs
/// otherwise; on its first and on its last day it runs.
pub proof fn law_a_rule_runs_from_its_start_to_its_end(until_on: Option<Date>, start: Date, as_of: Date)
    ensures
        group_of(until_on, start, as_of) is Ended <==> until_on is Some && until_on->0.days
            < as_of.days,
        group_of(until_on, start, as_of) is Running <==> start.days <= as_of.days && (until_on
            matches Some(u) ==> as_of.days <= u.days),
{
}

/// Whether two hops say the same of the payment they are of.
pub open spec fn say_the_same(a: Hop, b: Hop) -> bool {
    a.description@ == b.description@ && a.rrule@ == b.rrule@ && a.dtstart == b.dtstart && a.until_on
        == b.until_on && a.weekend_rule@ == b.weekend_rule@ && a.scenario_id == b.scenario_id
}

/// Whether the first account with an id is the core's own or closed.
pub open spec fn is_off(accounts: Seq<Account>, id: i64) -> bool {
    exists|j: int|
        0 <= j < accounts.len() && (#[trigger] accounts[j]).id == id && (accounts[j].system
            || accounts[j].closed) && (forall|i: int| 0 <= i < j ==> (#[trigger] accounts[i]).id != id)
}

proof fn lemma_is_off(accounts: Seq<Account>, id: i64)
    ensures
        is_off(accounts, id) <==> account_warnings(accounts, id).len() > 0,
{
    law_an_account_is_the_first_with_its_id(accounts, id);
    crate::trace_laws::lemma_place(accounts, id);
    if account_warnings(accounts, id).len() > 0 {
        assert(accounts[crate::book::place_of(accounts, id)].id == id);
    }
}

proof fn lemma_accounts_with(ids: Seq<i64>, x: i64)
    ensures
        accounts_with(ids).contains(x) <==> ids.contains(x),
    decreases ids.len(),
{
    if ids.len() > 0 {
        let rest = ids.drop_last();
        lemma_accounts_with(rest, x);
        lemma_with_id(accounts_with(rest), ids.last());
        lemma_push_has(rest, ids.last(), x);
        assert(rest.push(ids.last()) =~= ids);
    }
}

proof fn lemma_all_account_warnings(accounts: Seq<Account>, ids: Seq<i64>)
    ensures
        all_account_warnings(accounts, ids).len() > 0 <==> exists|i: int|
            0 <= i < ids.len() && account_warnings(accounts, #[trigger] ids[i]).len() > 0,
    decreases ids.len(),
{
    if ids.len() > 0 {
        let rest = ids.drop_last();
        lemma_all_account_warnings(accounts, rest);
        assert(ids[ids.len() - 1] == ids.last());
        if exists|i: int| 0 <= i < rest.len() && account_warnings(accounts, #[trigger] rest[i]).len() > 0 {
            let i = choose|i: int|
                0 <= i < rest.len() && account_warnings(accounts, #[trigger] rest[i]).len() > 0;
            assert(ids[i] == rest[i]);
        }
        if exists|i: int| 0 <= i < ids.len() && account_warnings(accounts, #[trigger] ids[i]).len() > 0 {
            let i = choose|i: int|
                0 <= i < ids.len() && account_warnings(accounts, #[trigger] ids[i]).len() > 0;
            if i < rest.len() {
                assert(rest[i] == ids[i]);
            }
        }
    }
}

/// Nothing is wrong with a rule exactly where it expands, its hops say the same of it, their legs add
/// up, none of its accounts is the core's own or closed, and no date of it is stray.
pub proof fn law_a_rule_is_warned_of_exactly_where_something_is_wrong(
    hops: Seq<Hop>,
    part: Seq<int>,
    accounts: Seq<Account>,
    legs: Seq<i64>,
    failure: Option<Seq<char>>,
    stray: int,
)
    ensures
        warnings_of(hops, part, accounts, legs, failure, stray).len() == 0 <==> {
            &&& failure is None
            &&& forall|i: int|
                0 <= i < part.len() ==> say_the_same(#[trigger] hops[part[i]], hops[part[0]])
            &&& forall|i: int, j: int|
                #![trigger hops[part[i]].legs@[j]]
                0 <= i < part.len() && 0 <= j < hops[part[i]].legs@.len() ==> legs_in(
                    hops[part[i]].legs@,
                    hops[part[i]].legs@[j].currency@,
                ) == 0
            &&& forall|i: int| 0 <= i < legs.len() ==> !is_off(accounts, #[trigger] legs[i])
            &&& stray <= 0
        },
        failure is Some ==> warnings_of(hops, part, accounts, legs, failure, stray)[0].0,
        forall|k: int|
            0 <= k < warnings_of(hops, part, accounts, legs, failure, stray).len() && (k > 0 || failure
                is None) ==> !(#[trigger] warnings_of(
                hops,
                part,
                accounts,
                legs,
                failure,
                stray,
            )[k]).0,
{
    let ids = accounts_with(legs);
    lemma_all_account_warnings(accounts, ids);
    if all_account_warnings(accounts, ids).len() > 0 {
        let i = choose|i: int|
            0 <= i < ids.len() && account_warnings(accounts, #[trigger] ids[i]).len() > 0;
        lemma_is_off(accounts, ids[i]);
        lemma_accounts_with(legs, ids[i]);
        assert(ids.contains(ids[i]));
        let j = choose|j: int| 0 <= j < legs.len() && legs[j] == ids[i];
        assert(is_off(accounts, legs[j]));
    } else {
        assert forall|i: int| 0 <= i < legs.len() implies !is_off(accounts, #[trigger] legs[i]) by {
            lemma_is_off(accounts, legs[i]);
            lemma_accounts_with(legs, legs[i]);
            assert(legs.contains(legs[i]));
            let j = choose|j: int| 0 <= j < ids.len() && ids[j] == legs[i];
            assert(account_warnings(accounts, ids[j]).len() == 0);
        }
    }
    assert forall|i: int| 0 <= i < part.len() implies (agree(#[trigger] hops[part[i]], hops[part[0]])
        <==> say_the_same(hops[part[i]], hops[part[0]])) by {}
    if all_balance(hops, part) {
        assert forall|i: int, j: int|
            #![trigger hops[part[i]].legs@[j]]
            0 <= i < part.len() && 0 <= j < hops[part[i]].legs@.len() implies legs_in(
            hops[part[i]].legs@,
            hops[part[i]].legs@[j].currency@,
        ) == 0 by {
            assert(legs_balance(hops[part[i]].legs@));
        }
    } else {
        let i = choose|i: int| 0 <= i < part.len() && !legs_balance((#[trigger] hops[part[i]]).legs@);
        let j = choose|j: int|
            0 <= j < hops[part[i]].legs@.len() && legs_in(
                hops[part[i]].legs@,
                (#[trigger] hops[part[i]].legs@[j]).currency@,
            ) != 0;
        assert(hops[part[i]].legs@[j] == hops[part[i]].legs@[j]);
    }
    lemma_only_notes(accounts, ids);
}

proof fn lemma_only_notes(accounts: Seq<Account>, ids: Seq<i64>)
    ensures
        forall|k: int|
            0 <= k < all_account_warnings(accounts, ids).len() ==> !(#[trigger] all_account_warnings(
                accounts,
                ids,
            )[k]).0,
    decreases ids.len(),
{
    if ids.len() > 0 {
        let before = all_account_warnings(accounts, ids.drop_last());
        let own = account_warnings(accounts, ids.last());
        lemma_only_notes(accounts, ids.drop_last());
        assert forall|k: int| 0 <= k < (before + own).len() implies !(#[trigger] (before + own)[k]).0 by {
            if k < before.len() {
                assert(!before[k].0);
            } else {
                assert((before + own)[k] == own[k - before.len()]);
            }
        }
    }
}

/// A leg adds its amount to its own currency and to no other.
pub proof fn law_a_leg_adds_to_its_own_currency(
    legs: Seq<crate::rules::HopLeg>,
    l: crate::rules::HopLeg,
    currency: Seq<char>,
)
    ensures
        l.currency@ == currency ==> legs_in(legs.push(l), currency) == legs_in(legs, currency)
            + l.amount_minor,
        l.currency@ != currency ==> legs_in(legs.push(l), currency) == legs_in(legs, currency),
        legs_in(Seq::empty(), currency) == 0,
{
    assert(legs.push(l).drop_last() =~= legs);
}

/// The claims of some series are those that name one of them.
pub proof fn law_claims_belong_to_the_series_they_name(claims: Seq<Claim>, ids: Seq<i64>, c: Claim)
    ensures
        claims_of(claims, ids).contains(c) <==> claims.contains(c) && ids.contains(c.series_id),
    decreases claims.len(),
{
    if claims.len() > 0 {
        let rest = claims.drop_last();
        law_claims_belong_to_the_series_they_name(rest, ids, c);
        lemma_push_has(rest, claims.last(), c);
        lemma_push_has(claims_of(rest, ids), claims.last(), c);
        assert(rest.push(claims.last()) =~= claims);
    }
}

/// The adjustments of some series are those that name one of them.
pub proof fn law_adjustments_belong_to_the_series_they_name(
    adjs: Seq<Adjustment>,
    ids: Seq<i64>,
    a: Adjustment,
)
    ensures
        adjustments_of(adjs, ids).contains(a) <==> adjs.contains(a) && ids.contains(a.series_id),
    decreases adjs.len(),
{
    if adjs.len() > 0 {
        let rest = adjs.drop_last();
        law_adjustments_belong_to_the_series_they_name(rest, ids, a);
        lemma_push_has(rest, adjs.last(), a);
        lemma_push_has(adjustments_of(rest, ids), adjs.last(), a);
        assert(rest.push(adjs.last()) =~= adjs);
    }
}

/// The latest payment is one of them; none is of a later slot, nor of the same one and a later
/// transaction.
pub proof fn law_the_latest_payment_is_the_latest(claims: Seq<Claim>)
    ensures
        latest_of(claims) is None <==> claims.len() == 0,
        latest_of(claims) matches Some(b) ==> claims.contains(b),
        latest_of(claims) matches Some(b) ==> forall|i: int|
            0 <= i < claims.len() ==> (#[trigger] claims[i]).occurrence_on.days < b.occurrence_on.days
                || (claims[i].occurrence_on.days == b.occurrence_on.days && claims[i].txn_id
                <= b.txn_id),
    decreases claims.len(),
{
    if claims.len() > 0 {
        let rest = claims.drop_last();
        law_the_latest_payment_is_the_latest(rest);
        lemma_push_has(rest, claims.last(), latest_of(claims)->0);
        assert(rest.push(claims.last()) =~= claims);
        let b = latest_of(claims)->0;
        assert forall|i: int| 0 <= i < claims.len() implies (#[trigger] claims[i]).occurrence_on.days
            < b.occurrence_on.days || (claims[i].occurrence_on.days == b.occurrence_on.days
            && claims[i].txn_id <= b.txn_id) by {
            if i < rest.len() {
                assert(rest[i] == claims[i]);
            }
        }
    }
}

/// A slot's transactions are those that claim it.
pub proof fn law_a_slots_transactions_are_those_that_claim_it(claims: Seq<Claim>, d: i64, t: i64)
    ensures
        txns_on(claims, d).contains(t) <==> exists|i: int|
            0 <= i < claims.len() && (#[trigger] claims[i]).txn_id == t && claims[i].occurrence_on.days
                == d,
    decreases claims.len(),
{
    if claims.len() > 0 {
        let rest = claims.drop_last();
        law_a_slots_transactions_are_those_that_claim_it(rest, d, t);
        lemma_push_has(txns_on(rest, d), claims.last().txn_id, t);
        assert(claims[claims.len() - 1] == claims.last());
        if exists|i: int|
            0 <= i < rest.len() && (#[trigger] rest[i]).txn_id == t && rest[i].occurrence_on.days == d {
            let i = choose|i: int|
                0 <= i < rest.len() && (#[trigger] rest[i]).txn_id == t && rest[i].occurrence_on.days
                    == d;
            assert(claims[i] == rest[i]);
        }
        if exists|i: int|
            0 <= i < claims.len() && (#[trigger] claims[i]).txn_id == t && claims[i].occurrence_on.days
                == d {
            let i = choose|i: int|
                0 <= i < claims.len() && (#[trigger] claims[i]).txn_id == t
                    && claims[i].occurrence_on.days == d;
            if i < rest.len() {
                assert(rest[i] == claims[i]);
            }
        }
    }
}

/// What is recorded of a rule: how many payments its first hops have, the last of them, and, of the
/// slots after today, exactly those already paid.
pub proof fn law_what_is_recorded_is_counted(
    x: Recorded,
    hops: Seq<Hop>,
    claims: Seq<Claim>,
    paid: Seq<Paid>,
    ids: Seq<i64>,
    firsts: Seq<i64>,
    as_of: Date,
    d: i64,
)
    requires
        is_recorded(x, hops, claims, paid, ids, firsts, as_of),
    ensures
        x.count == 0 <==> x.last is None,
        x.last is None ==> x.last_amount is None,
        x.last matches Some(c) ==> claims.contains(c) && ids.contains(c.series_id) && firsts.contains(
            c.series_id,
        ),
        forall|i: int|
            0 <= i < claims.len() && ids.contains((#[trigger] claims[i]).series_id) && firsts.contains(
                claims[i].series_id,
            ) ==> x.last is Some && claims[i].occurrence_on.days <= x.last->0.occurrence_on.days,
        (exists|k: int| 0 <= k < x.ahead@.len() && (#[trigger] x.ahead@[k]).occurrence_on == d) <==> d
            > as_of.days && is_claimed(claims_of(claims, ids), d),
{
    let own = claims_of(claims_of(claims, ids), firsts);
    law_the_latest_payment_is_the_latest(own);
    if x.last is Some {
        law_claims_belong_to_the_series_they_name(claims_of(claims, ids), firsts, x.last->0);
        law_claims_belong_to_the_series_they_name(claims, ids, x.last->0);
    }
    assert forall|i: int|
        0 <= i < claims.len() && ids.contains((#[trigger] claims[i]).series_id) && firsts.contains(
            claims[i].series_id,
        ) implies x.last is Some && claims[i].occurrence_on.days <= x.last->0.occurrence_on.days by {
        assert(claims.contains(claims[i]));
        law_claims_belong_to_the_series_they_name(claims, ids, claims[i]);
        law_claims_belong_to_the_series_they_name(claims_of(claims, ids), firsts, claims[i]);
        let j = choose|j: int| 0 <= j < own.len() && own[j] == claims[i];
        assert(own[j].occurrence_on.days == claims[i].occurrence_on.days);
    }
    let mine = claims_of(claims, ids);
    let days = days_where(claim_days(mine), is_after(as_of.days as i64));
    lemma_where_has(claim_days(mine), is_after(as_of.days as i64), d);
    lemma_claimed(mine, d);
    if exists|k: int| 0 <= k < x.ahead@.len() && (#[trigger] x.ahead@[k]).occurrence_on == d {
        let k = choose|k: int| 0 <= k < x.ahead@.len() && (#[trigger] x.ahead@[k]).occurrence_on == d;
        assert(days[k] == d);
    }
    if days.contains(d) {
        let k = choose|k: int| 0 <= k < days.len() && days[k] == d;
        assert(x.ahead@[k].occurrence_on == d);
    }
}

/// A payment's amount is what its transaction moved on the primary account of the hop it is of.
pub proof fn law_a_payments_amount_is_what_its_transaction_moved(
    hops: Seq<Hop>,
    paid: Seq<Paid>,
    c: Claim,
    k: int,
)
    requires
        0 <= k < paid.len(),
        primary_account(hops, c.series_id) == Some(paid[k].account_id),
        paid[k].txn_id == c.txn_id,
        forall|j: int|
            0 <= j < k ==> (#[trigger] paid[j]).txn_id != c.txn_id || paid[j].account_id
                != paid[k].account_id,
    ensures
        paid_amount(hops, paid, c) == Some(paid[k].amount_minor),
{
    let p = is_paid(paid, c.txn_id, paid[k].account_id);
    assert forall|j: int| 0 <= j < k implies !#[trigger] p(j) by {
        assert(paid[j].txn_id != c.txn_id || paid[j].account_id != paid[k].account_id);
    }
    crate::lists::lemma_first(paid.len() as int, p, k);
}

/// What is owed are the first hops whose money should have moved before today.
pub proof fn law_what_is_owed_was_due_before_today(s: Seq<PointOn>, as_of: Seq<char>, n: int, k: int)
    requires
        0 <= n <= s.len(),
    ensures
        owed(s, as_of, n).contains(k) <==> 0 <= k < n && s[k].seq == 0 && text_lt(
            s[k].value_on,
            as_of,
        ),
    decreases n,
{
    if n > 0 {
        law_what_is_owed_was_due_before_today(s, as_of, n - 1, k);
        lemma_push_has(owed(s, as_of, n - 1), n - 1, k);
    }
}

/// What comes next are first hops from today on, six at most, and none is passed over while there is
/// room.
pub proof fn law_what_comes_next_is_from_today_on(s: Seq<PointOn>, as_of: Seq<char>, n: int, k: int)
    requires
        0 <= n <= s.len(),
    ensures
        coming(s, as_of, n).len() <= 6,
        coming(s, as_of, n).contains(k) ==> 0 <= k < n && s[k].seq == 0 && !text_lt(
            s[k].value_on,
            as_of,
        ),
        0 <= k < n && s[k].seq == 0 && !text_lt(s[k].value_on, as_of) && !coming(s, as_of, n).contains(k)
            ==> coming(s, as_of, n).len() == 6 && forall|i: int|
            0 <= i < 6 ==> #[trigger] coming(s, as_of, n)[i] < k,
        forall|i: int, j: int|
            0 <= i < j < coming(s, as_of, n).len() ==> #[trigger] coming(s, as_of, n)[i]
                < #[trigger] coming(s, as_of, n)[j],
        forall|i: int| 0 <= i < coming(s, as_of, n).len() ==> #[trigger] coming(s, as_of, n)[i] < n,
    decreases n,
{
    if n > 0 {
        law_what_comes_next_is_from_today_on(s, as_of, n - 1, k);
        lemma_push_has(coming(s, as_of, n - 1), n - 1, k);
    }
}

/// An adjustment still shows where it is on or after the day looked back to and the part has not ended
/// before it; what is past its end is left behind.
pub proof fn law_an_adjustment_shows_until_the_part_ends(until_on: Option<Date>, lookback: i64, d: i64)
    ensures
        is_live(until_on, lookback)(d) <==> lookback <= d && (until_on is None || d <= until_on->0.days),
        is_past(until_on)(d) <==> until_on is Some && until_on->0.days < d,
{
}

/// The places of a day's adjustments are those of the series asked for on that day.
pub proof fn law_a_days_adjustments_are_all_found(
    adjs: Seq<Adjustment>,
    ids: Seq<i64>,
    d: i64,
    n: int,
    k: int,
)
    requires
        0 <= n <= adjs.len(),
    ensures
        places_on(adjs, ids, d, n).contains(k) <==> 0 <= k < n && ids.contains(adjs[k].series_id)
            && adjs[k].occurrence_on.days == d,
    decreases n,
{
    if n > 0 {
        law_a_days_adjustments_are_all_found(adjs, ids, d, n - 1, k);
        lemma_push_has(places_on(adjs, ids, d, n - 1), n - 1, k);
    }
}

proof fn lemma_with_stray(s: Seq<Stray>, x: Stray, have: Seq<Date>, d: i64, recorded: bool)
    ensures
        is_stray_on(with_stray(s, x, have), d, recorded) <==> is_stray_on(s, d, recorded) || (!has_day(
            have,
            x.on,
        ) && x.on == d && x.recorded == recorded),
{
    let t = s.push(x);
    if is_stray_on(s, d, recorded) {
        let i = choose|i: int| 0 <= i < s.len() && (#[trigger] s[i]).on == d && s[i].recorded == recorded;
        assert(t[i].on == d);
    }
    assert(t[s.len() as int] == x);
    if is_stray_on(t, d, recorded) {
        let i = choose|i: int| 0 <= i < t.len() && (#[trigger] t[i]).on == d && t[i].recorded == recorded;
        if i < s.len() {
            assert(s[i].on == d);
        }
    }
}

/// A recorded or adjusted day is stray exactly where the rule does not produce it.
pub proof fn law_a_date_is_stray_where_the_rule_lacks_it(
    claims: Seq<Claim>,
    adjs: Seq<Adjustment>,
    have: Seq<Date>,
    d: i64,
)
    ensures
        is_stray_on(strays(claims, adjs, have), d, true) <==> is_claimed(claims, d) && !has_day(have, d),
        is_stray_on(strays(claims, adjs, have), d, false) <==> is_adjusted(adjs, d) && !has_day(have, d),
    decreases adjs.len(),
{
    if adjs.len() == 0 {
        lemma_stray_claims(claims, have, d);
    } else {
        let rest = adjs.drop_last();
        let a = adjs.last();
        law_a_date_is_stray_where_the_rule_lacks_it(claims, rest, have, d);
        let x = Stray { series_id: a.series_id, on: a.occurrence_on.days as i64, recorded: false };
        lemma_with_stray(strays(claims, rest, have), x, have, d, true);
        lemma_with_stray(strays(claims, rest, have), x, have, d, false);
        assert(adjs[adjs.len() - 1] == a);
        lemma_adjusted(rest, d);
        lemma_adjusted(adjs, d);
        lemma_with_id(adjusted_days(rest), a.occurrence_on.days as i64);
    }
}

proof fn lemma_stray_claims(claims: Seq<Claim>, have: Seq<Date>, d: i64)
    ensures
        is_stray_on(stray_claims(claims, have), d, true) <==> is_claimed(claims, d) && !has_day(have, d),
        !is_stray_on(stray_claims(claims, have), d, false),
    decreases claims.len(),
{
    if claims.len() > 0 {
        let rest = claims.drop_last();
        let c = claims.last();
        lemma_stray_claims(rest, have, d);
        let x = Stray { series_id: c.series_id, on: c.occurrence_on.days as i64, recorded: true };
        lemma_with_stray(stray_claims(rest, have), x, have, d, true);
        lemma_with_stray(stray_claims(rest, have), x, have, d, false);
        lemma_claimed(rest, d);
        lemma_claimed(claims, d);
        lemma_with_id(claim_days(rest), c.occurrence_on.days as i64);
    }
}

/// Whether a hop's first adjustment on a day sets an amount of this size.
pub open spec fn sets_size(rows: Seq<Adjustment>, id: i64, d: i64, size: int) -> bool {
    exists|i: int|
        0 <= i < rows.len() && (#[trigger] rows[i]).series_id == id && rows[i].occurrence_on.days == d
            && (rows[i].amount_minor == Some(size as i64) && size as i64 == size
            || rows[i].amount_minor == Some((-size) as i64) && (-size) as i64 == -size) && (forall|j: int|
            0 <= j < i ==> (#[trigger] rows[j]).series_id != id || rows[j].occurrence_on.days != d)
}

proof fn lemma_sets_size(rows: Seq<Adjustment>, id: i64, d: i64, size: int)
    requires
        size >= 0,
    ensures
        sets_size(rows, id, d, size) <==> size_at(
            rows,
            crate::lists::first(rows.len() as int, crate::amends::adjusts_hop(rows, id, d)),
        ) == Some(size),
{
    let p = crate::amends::adjusts_hop(rows, id, d);
    let n = rows.len() as int;
    lemma_first_is(n, p);
    let at = crate::lists::first(n, p);
    if sets_size(rows, id, d, size) {
        let i = choose|i: int|
            0 <= i < rows.len() && (#[trigger] rows[i]).series_id == id && rows[i].occurrence_on.days
                == d && (rows[i].amount_minor == Some(size as i64) && size as i64 == size
                || rows[i].amount_minor == Some((-size) as i64) && (-size) as i64 == -size) && (forall|
                j: int,
            |
                0 <= j < i ==> (#[trigger] rows[j]).series_id != id || rows[j].occurrence_on.days != d);
        assert forall|j: int| 0 <= j < i implies !#[trigger] p(j) by {
            assert(rows[j].series_id != id || rows[j].occurrence_on.days != d);
        }
        assert(p(i));
        crate::lists::lemma_first(n, p, i);
    }
    if size_at(rows, at) == Some(size) {
        assert(p(at));
        assert forall|j: int| 0 <= j < at implies (#[trigger] rows[j]).series_id != id
            || rows[j].occurrence_on.days != d by {
            assert(!p(j));
        }
        assert(rows[at].series_id == id);
    }
}

/// The adjustments of a day follow a change of amounts exactly where every hop's is of the size of
/// its old amount.
pub proof fn law_adjustments_follow_where_they_carry_the_old_amounts(
    rows: Seq<Adjustment>,
    ids: Seq<i64>,
    amounts: Seq<i64>,
    days: Seq<i64>,
    d: i64,
)
    requires
        amounts.len() == ids.len(),
        ids.len() > 0,
        forall|k: int| 0 <= k < amounts.len() ==> #[trigger] amounts[k] >= 0,
    ensures
        (exists|removed: bool| #[trigger] following(rows, ids, amounts, days).contains((d, removed)))
            <==> days.contains(d) && forall|k: int|
            0 <= k < ids.len() ==> sets_size(rows, #[trigger] ids[k], d, amounts[k] as int),
        following(rows, ids, amounts, days).contains((d, true)) ==> wave_holds_amounts_only(
            rows,
            wave(rows, ids, d),
        ),
        following(rows, ids, amounts, days).contains((d, false)) ==> !wave_holds_amounts_only(
            rows,
            wave(rows, ids, d),
        ),
    decreases days.len(),
{
    if days.len() > 0 {
        let rest = days.drop_last();
        law_adjustments_follow_where_they_carry_the_old_amounts(rows, ids, amounts, rest, d);
        let w = wave(rows, ids, days.last());
        let s = sizes(rows, w);
        let only = wave_holds_amounts_only(rows, w);
        let before = following(rows, ids, amounts, rest);
        let now = following(rows, ids, amounts, days);
        lemma_push_has(before, (days.last(), only), (d, true));
        lemma_push_has(before, (days.last(), only), (d, false));
        lemma_push_has(rest, days.last(), d);
        assert(rest.push(days.last()) =~= days);
        assert forall|k: int| 0 <= k < ids.len() implies (s[k] == Some(amounts[k] as int)
            <==> sets_size(rows, #[trigger] ids[k], days.last(), amounts[k] as int)) by {
            lemma_sets_size(rows, ids[k], days.last(), amounts[k] as int);
            assert(amounts[k] >= 0);
        }
        let all = forall|k: int|
            0 <= k < ids.len() ==> sets_size(rows, #[trigger] ids[k], days.last(), amounts[k] as int);
        if carries_template(s, amounts) {
            assert(s[0] == Some(amounts[0] as int));
            assert forall|k: int| 0 <= k < ids.len() implies sets_size(
                rows,
                #[trigger] ids[k],
                days.last(),
                amounts[k] as int,
            ) by {
                assert(s[k] == Some(amounts[k] as int));
            }
        }
        if all {
            assert forall|k: int| 0 <= k < s.len() implies #[trigger] s[k] == Some(amounts[k] as int) by {
                assert(sets_size(rows, ids[k], days.last(), amounts[k] as int));
            }
            assert(s[0] is Some);
        }
        assert((any_size(s) && carries_template(s, amounts)) == all);
        if exists|removed: bool| #[trigger] before.contains((d, removed)) {
            let removed = choose|removed: bool| #[trigger] before.contains((d, removed));
            assert(now.contains((d, removed)));
        }
        if days.last() == d && all {
            assert(now.contains((d, only)));
        }
        if exists|removed: bool| #[trigger] now.contains((d, removed)) {
            let removed = choose|removed: bool| #[trigger] now.contains((d, removed));
            if !before.contains((d, removed)) {
                assert(days.last() == d && all);
            }
        }
    }
}

/// An adjustment that only sets an amount is one that amends, moves nothing, renames nothing and says
/// nothing more.
pub proof fn law_an_amount_only_adjustment_does_nothing_else(a: Adjustment)
    ensures
        holds_amount_only(a) <==> a.action@ == "amend"@ && a.moved_to is None && a.description is None
            && a.note is None,
{
}

/// A new end cuts off the days after it that the old end, where there was one, still let in.
pub proof fn law_a_new_end_cuts_off_what_is_after_it(end: Option<Date>, old_end: Option<Date>, d: i64)
    ensures
        is_cut_off(end, old_end)(d) ==> end is Some && end->0.days < d,
        is_cut_off(end, old_end)(d) ==> (old_end matches Some(o) ==> d <= o.days),
        end is Some && end->0.days < d && old_end is None ==> is_cut_off(end, old_end)(d),
        end is Some && old_end is Some && end->0.days < d <= old_end->0.days ==> is_cut_off(
            end,
            old_end,
        )(d),
{
}

} // verus!
