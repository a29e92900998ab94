//! What a series projects: on which days, how much, under what name, and in which what-ifs.

use crate::date::{iso, Date};
use crate::forecast::{
    hops_of, interest_expanded, interest_in_force, is_projection, legs_upto, ordered, override_at,
    payments_expanded, payments_in_force, projected, series_legs, series_occurrences, slot_legs,
    slots_expanded, InterestRule, OccView, PaymentRule, Projection, Series, SlotOverride, Snapshot,
};
use crate::dayfold::{Events, RuleDates};
use crate::forecast_laws::law_occurrences_are_sorted;
use crate::recur::{adjusted, Ask, Recurrence};
use crate::text::text_lt;
use vstd::prelude::*;

verus! {

/// Whether an override is of a slot of a series.
pub open spec fn is_of(o: SlotOverride, id: i64, slot: Date) -> bool {
    o.series_id == id && o.occurrence_on == slot
}

/// Whether a real transaction fills a slot of a series.
pub open spec fn is_filled(snap: Snapshot, id: i64, slot: Date) -> bool {
    exists|i: int|
        0 <= i < snap.claimed@.len() && (#[trigger] snap.claimed@[i]).series_id == id
            && snap.claimed@[i].occurrence_on == slot
}

/// The override that decides a slot is the last of those there are for it.
pub proof fn law_the_last_override_of_a_slot_decides(all: Seq<SlotOverride>, id: i64, slot: Date)
    ensures
        forall|k: int|
            0 <= k < all.len() && is_of(#[trigger] all[k], id, slot) && (forall|j: int|
                k < j < all.len() ==> !is_of(#[trigger] all[j], id, slot)) ==> override_at(
                all,
                id,
                slot,
            ) == Some(all[k].change),
        (forall|j: int| 0 <= j < all.len() ==> !is_of(#[trigger] all[j], id, slot)) ==> override_at(
            all,
            id,
            slot,
        ) is None,
    decreases all.len(),
{
    if all.len() > 0 {
        let rest = all.drop_last();
        let last = all[all.len() - 1];
        law_the_last_override_of_a_slot_decides(rest, id, slot);
        assert forall|k: int|
            0 <= k < all.len() && is_of(#[trigger] all[k], id, slot) && (forall|j: int|
                k < j < all.len() ==> !is_of(#[trigger] all[j], id, slot)) implies override_at(
            all,
            id,
            slot,
        ) == Some(all[k].change) by {
            if k < all.len() - 1 {
                assert(!is_of(all[all.len() - 1], id, slot));
                assert(rest[k] == all[k]);
                assert forall|j: int| k < j < rest.len() implies !is_of(
                    #[trigger] rest[j],
                    id,
                    slot,
                ) by {
                    assert(rest[j] == all[j]);
                }
            }
        }
        if forall|j: int| 0 <= j < all.len() ==> !is_of(#[trigger] all[j], id, slot) {
            assert(!is_of(all[all.len() - 1], id, slot));
            assert forall|j: int| 0 <= j < rest.len() implies !is_of(#[trigger] rest[j], id, slot) by {
                assert(rest[j] == all[j]);
            }
        }
    }
}

/// A slot that nothing is said of and nothing fills projects the series as it stands: one leg per
/// posting, on the posting's account, in its currency and of its amount, under the series' name, on
/// the working day its weekend rule gives.
pub proof fn law_a_plain_slot_projects_the_series_as_it_stands(
    snap: Snapshot,
    s: Series,
    slot: Date,
    i: int,
)
    requires
        !is_filled(snap, s.id, slot),
        forall|j: int|
            0 <= j < snap.overrides@.len() ==> !is_of(#[trigger] snap.overrides@[j], s.id, slot),
        0 <= i < s.postings@.len(),
    ensures
        ({
            let legs = slot_legs(snap, s, slot);
            let p = s.postings@[i];
            &&& legs.len() == s.postings@.len()
            &&& legs[i].account_id == p.account_id
            &&& legs[i].currency == p.currency@
            &&& legs[i].amount == p.amount_minor
            &&& legs[i].description == s.description@
            &&& legs[i].series_id == s.id
            &&& legs[i].occurrence_on == iso(slot.days as int)
            &&& legs[i].value_on == iso(
                adjusted(slot, s.weekend_rule@, snap.holidays@).days as int,
            )
            &&& snap.account_name@.contains_key(p.account_id) ==> legs[i].account
                == snap.account_name@[p.account_id]@
            &&& legs[i].chain_seq == s.chain_seq
        }),
{
    law_the_last_override_of_a_slot_decides(snap.overrides@, s.id, slot);
}

/// A slot that is overridden projects what the override says where it says something, and what the
/// series says elsewhere: another amount goes to the primary leg and its opposite to the balancing
/// one, another day is the one the weekend rule starts from, and a skip leaves nothing.
pub proof fn law_an_override_changes_what_it_says_and_nothing_else(
    snap: Snapshot,
    s: Series,
    slot: Date,
    k: int,
    i: int,
)
    requires
        !is_filled(snap, s.id, slot),
        0 <= k < snap.overrides@.len(),
        is_of(snap.overrides@[k], s.id, slot),
        forall|j: int|
            k < j < snap.overrides@.len() ==> !is_of(#[trigger] snap.overrides@[j], s.id, slot),
        0 <= i < s.postings@.len(),
    ensures
        ({
            let legs = slot_legs(snap, s, slot);
            let p = s.postings@[i];
            let o = snap.overrides@[k].change;
            &&& o.action@ == "skip"@ ==> legs.len() == 0
            &&& o.action@ != "skip"@ ==> {
                &&& legs.len() == s.postings@.len()
                &&& legs[i].account_id == p.account_id
                &&& legs[i].currency == p.currency@
                &&& legs[i].occurrence_on == iso(slot.days as int)
                &&& o.amount_minor is None ==> legs[i].amount == p.amount_minor
                &&& o.amount_minor matches Some(a) ==> p.role@ == "primary"@ ==> legs[i].amount == a
                &&& o.amount_minor matches Some(a) ==> p.role@ == "balancing"@ ==> legs[i].amount
                    == -a
                &&& p.role@ != "primary"@ && p.role@ != "balancing"@ ==> legs[i].amount
                    == p.amount_minor
                &&& o.description is None ==> legs[i].description == s.description@
                &&& o.description matches Some(d) ==> legs[i].description == d@
                &&& o.moved_to is None ==> legs[i].value_on == iso(
                    adjusted(slot, s.weekend_rule@, snap.holidays@).days as int,
                )
                &&& o.moved_to matches Some(d) ==> legs[i].value_on == iso(
                    adjusted(d, s.weekend_rule@, snap.holidays@).days as int,
                )
            }
        }),
{
    law_the_last_override_of_a_slot_decides(snap.overrides@, s.id, slot);
    reveal_strlit("primary");
    reveal_strlit("balancing");
    assert("primary"@.len() == 7);
    assert("balancing"@.len() == 9);
}

/// A slot that a real transaction fills projects nothing, whatever is said of it.
pub proof fn law_a_filled_slot_projects_nothing(snap: Snapshot, s: Series, slot: Date)
    requires
        is_filled(snap, s.id, slot),
    ensures
        slot_legs(snap, s, slot).len() == 0,
{
}

/// With no what-if asked for, exactly the series of the book itself are projected.
pub proof fn law_without_a_what_if_the_book_itself_is_projected(series: Seq<Series>, s: Series)
    ensures
        projected(series, Set::<i64>::empty(), s) <==> s.scenario_id is None,
{
}

/// Asking for a what-if adds its own series and takes away what they cancel, a whole chain where they
/// cancel a hop of one. A series that cancels nothing, or whose what-if is not asked for, changes
/// nothing for the others.
pub proof fn law_a_what_if_adds_its_own_and_takes_away_what_it_cancels(
    series: Seq<Series>,
    active: Set<i64>,
    x: Series,
    s: Series,
)
    ensures
        x.scenario_id is Some && active.contains(x.scenario_id->0) && x.supersedes_id == Some(s.id)
            ==> !projected(series.push(x), active, s),
        x.scenario_id is Some && active.contains(x.scenario_id->0) && s.chain_id is Some && (exists|i:
            int|
            0 <= i < series.len() && (#[trigger] series[i]).chain_id == s.chain_id && Some(series[i].id)
                == x.supersedes_id) ==> !projected(series.push(x), active, s),
        (x.supersedes_id is None || x.scenario_id is None || !active.contains(x.scenario_id->0))
            && (x.chain_id is None || x.chain_id != s.chain_id) ==> projected(
            series.push(x),
            active,
            s,
        ) == projected(series, active, s),
        s.scenario_id is Some && !active.contains(s.scenario_id->0) ==> !projected(series, active, s),
        (forall|i: int| 0 <= i < series.len() ==> (#[trigger] series[i]).supersedes_id is None) && (
        s.scenario_id is None || active.contains(s.scenario_id->0)) ==> projected(
            series,
            active,
            s,
        ),
{
    let more = series.push(x);
    if x.scenario_id is Some && active.contains(x.scenario_id->0) && x.supersedes_id == Some(s.id) {
        assert(crate::forecast::supersedes(more[series.len() as int], active, s.id));
    }
    if x.scenario_id is Some && active.contains(x.scenario_id->0) && s.chain_id is Some && (exists|i:
        int|
        0 <= i < series.len() && (#[trigger] series[i]).chain_id == s.chain_id && Some(series[i].id)
            == x.supersedes_id) {
        let i = choose|i: int|
            0 <= i < series.len() && (#[trigger] series[i]).chain_id == s.chain_id && Some(
                series[i].id,
            ) == x.supersedes_id;
        assert(more[i] == series[i]);
        assert(crate::forecast::supersedes(more[series.len() as int], active, series[i].id));
        assert(crate::forecast::suppressed(more, active, more[i].id));
        assert(crate::forecast::chain_suppressed(more, active, s.chain_id->0));
    }
    if (x.supersedes_id is None || x.scenario_id is None || !active.contains(x.scenario_id->0)) && (
    x.chain_id is None || x.chain_id != s.chain_id) {
        assert forall|id: i64| #[trigger] crate::forecast::suppressed(more, active, id)
            == crate::forecast::suppressed(series, active, id) by {
            if crate::forecast::suppressed(series, active, id) {
                let i = choose|i: int|
                    0 <= i < series.len() && crate::forecast::supersedes(
                        #[trigger] series[i],
                        active,
                        id,
                    );
                assert(crate::forecast::supersedes(more[i], active, id));
            }
            if crate::forecast::suppressed(more, active, id) {
                let i = choose|i: int|
                    0 <= i < more.len() && crate::forecast::supersedes(#[trigger] more[i], active, id);
                assert(i < series.len());
                assert(crate::forecast::supersedes(series[i], active, id));
            }
        }
        if s.chain_id is Some {
            let c = s.chain_id->0;
            if crate::forecast::chain_suppressed(series, active, c) {
                let i = choose|i: int|
                    0 <= i < series.len() && (#[trigger] series[i]).chain_id == Some(c)
                        && crate::forecast::suppressed(series, active, series[i].id);
                assert(more[i] == series[i]);
                assert(crate::forecast::suppressed(more, active, more[i].id));
            }
            if crate::forecast::chain_suppressed(more, active, c) {
                let i = choose|i: int|
                    0 <= i < more.len() && (#[trigger] more[i]).chain_id == Some(c)
                        && crate::forecast::suppressed(more, active, more[i].id);
                assert(i < series.len());
                assert(more[i] == series[i]);
                assert(crate::forecast::suppressed(series, active, series[i].id));
            }
        }
    }
}

/// A hop says of how many its chain is made, and a plain series says nothing of it.
pub proof fn law_a_hop_knows_how_long_its_chain_is(snap: Snapshot, s: Series, slot: Date, i: int)
    requires
        0 <= i < slot_legs(snap, s, slot).len(),
    ensures
        s.chain_id is None ==> slot_legs(snap, s, slot)[i].chain_len is None,
        s.chain_id matches Some(c) ==> slot_legs(snap, s, slot)[i].chain_len == Some(
            snap.series@.filter(|x: Series| x.chain_id == Some(c)).len() as int,
        ),
{
    if s.chain_id is Some {
        lemma_hops(snap.series@, s.chain_id->0);
    }
}

proof fn lemma_hops(series: Seq<Series>, c: i64)
    ensures
        hops_of(series, c) == series.filter(|x: Series| x.chain_id == Some(c)).len(),
    decreases series.len(),
{
    reveal(Seq::filter);
    if series.len() > 0 {
        lemma_hops(series.drop_last(), c);
    }
}

/// Every slot of every series that is projected is among the occurrences, each leg of it, and nothing
/// else is.
pub proof fn law_every_projected_slot_is_among_the_occurrences(
    snap: Snapshot,
    active: Set<i64>,
    slots: Seq<Seq<Date>>,
    n: int,
    x: OccView,
)
    requires
        0 <= n <= snap.series@.len(),
    ensures
        legs_upto(snap, active, slots, n).contains(x) <==> exists|k: int, j: int|
            0 <= k < n && projected(snap.series@, active, snap.series@[k]) && 0 <= j
                < slots[k].len() && (#[trigger] slot_legs(snap, snap.series@[k], slots[k][j])).contains(
                x,
            ),
    decreases n,
{
    if n > 0 {
        law_every_projected_slot_is_among_the_occurrences(snap, active, slots, n - 1, x);
        let before = legs_upto(snap, active, slots, n - 1);
        let s = snap.series@[n - 1];
        let own = series_legs(snap, s, slots[n - 1]);
        lemma_series_legs(snap, s, slots[n - 1], x);
        if projected(snap.series@, active, s) {
            lemma_in_either(before, own, x);
        }
        if legs_upto(snap, active, slots, n).contains(x) {
            if before.contains(x) {
                let (k, j) = choose|k: int, j: int|
                    0 <= k < n - 1 && projected(snap.series@, active, snap.series@[k]) && 0 <= j
                        < slots[k].len() && (#[trigger] slot_legs(
                        snap,
                        snap.series@[k],
                        slots[k][j],
                    )).contains(x);
                assert(slot_legs(snap, snap.series@[k], slots[k][j]).contains(x));
            } else {
                let j = choose|j: int|
                    0 <= j < slots[n - 1].len() && (#[trigger] slot_legs(
                        snap,
                        s,
                        slots[n - 1][j],
                    )).contains(x);
                assert(slot_legs(snap, snap.series@[n - 1], slots[n - 1][j]).contains(x));
            }
        }
        if exists|k: int, j: int|
            0 <= k < n && projected(snap.series@, active, snap.series@[k]) && 0 <= j
                < slots[k].len() && (#[trigger] slot_legs(snap, snap.series@[k], slots[k][j])).contains(
                x,
            ) {
            let (k, j) = choose|k: int, j: int|
                0 <= k < n && projected(snap.series@, active, snap.series@[k]) && 0 <= j
                    < slots[k].len() && (#[trigger] slot_legs(snap, snap.series@[k], slots[k][j])).contains(
                    x,
                );
            if k < n - 1 {
                assert(before.contains(x));
            } else {
                assert(own.contains(x));
            }
        }
    }
}

proof fn lemma_in_either(a: Seq<OccView>, b: Seq<OccView>, x: OccView)
    ensures
        (a + b).contains(x) <==> a.contains(x) || b.contains(x),
{
    if a.contains(x) {
        let i = choose|i: int| 0 <= i < a.len() && a[i] == x;
        assert((a + b)[i] == x);
    }
    if b.contains(x) {
        let i = choose|i: int| 0 <= i < b.len() && b[i] == x;
        assert((a + b)[a.len() + i] == x);
    }
    if (a + b).contains(x) {
        let i = choose|i: int| 0 <= i < (a + b).len() && (a + b)[i] == x;
        if i < a.len() {
            assert(a[i] == x);
        } else {
            assert(b[i - a.len()] == x);
        }
    }
}

proof fn lemma_series_legs(snap: Snapshot, s: Series, days: Seq<Date>, x: OccView)
    ensures
        series_legs(snap, s, days).contains(x) <==> exists|j: int|
            0 <= j < days.len() && (#[trigger] slot_legs(snap, s, days[j])).contains(x),
    decreases days.len(),
{
    if days.len() > 0 {
        let rest = days.drop_last();
        lemma_series_legs(snap, s, rest, x);
        lemma_in_either(series_legs(snap, s, rest), slot_legs(snap, s, days.last()), x);
        if series_legs(snap, s, rest).contains(x) {
            let j = choose|j: int|
                0 <= j < rest.len() && (#[trigger] slot_legs(snap, s, rest[j])).contains(x);
            assert(slot_legs(snap, s, days[j]).contains(x));
        }
        if slot_legs(snap, s, days.last()).contains(x) {
            assert(slot_legs(snap, s, days[days.len() - 1]).contains(x));
        }
        if exists|j: int|
            0 <= j < days.len() && (#[trigger] slot_legs(snap, s, days[j])).contains(x) {
            let j = choose|j: int|
                0 <= j < days.len() && (#[trigger] slot_legs(snap, s, days[j])).contains(x);
            if j < days.len() - 1 {
                assert(slot_legs(snap, s, rest[j]).contains(x));
            }
        }
    }
}

/// Occurrences come by the day money moves, on one day by their series, and within a series by their
/// account.
pub proof fn law_occurrences_come_by_day_series_and_account(s: Seq<OccView>, i: int, j: int)
    requires
        0 <= i < j < ordered(s).len(),
    ensures
        ({
            let (a, b) = (ordered(s)[i], ordered(s)[j]);
            &&& !text_lt(b.value_on, a.value_on)
            &&& a.value_on == b.value_on ==> a.series_id <= b.series_id
            &&& a.value_on == b.value_on && a.series_id == b.series_id ==> a.account_id
                <= b.account_id
        }),
{
    law_occurrences_are_sorted(s);
    let (a, b) = (ordered(s)[i], ordered(s)[j]);
    assert(!crate::forecast::stands_before(b, a));
}

/// A projection holds the occurrences of its series and whatever interest and payments generate, all
/// of them and nothing else.
pub proof fn law_a_projection_holds_every_occurrence(
    p: Projection,
    snap: Snapshot,
    active: Set<i64>,
    slots: Seq<Seq<Date>>,
    ev: Events,
    as_of: Date,
    horizon: Date,
)
    requires
        is_projection(p, snap, active, slots, ev, as_of, horizon),
    ensures
        crate::forecast::occ_views(p.occurrences@).to_multiset() == (series_occurrences(
            snap,
            active,
            slots,
        ) + crate::forecast::final_state(snap, active, slots, ev, as_of, horizon).extra).to_multiset(),
        series_occurrences(snap, active, slots).to_multiset() == legs_upto(
            snap,
            active,
            slots,
            snap.series@.len() as int,
        ).to_multiset(),
        p.as_of@ == iso(as_of.days as int),
        p.horizon@ == iso(horizon.days as int),
{
    law_occurrences_are_sorted(
        series_occurrences(snap, active, slots) + crate::forecast::final_state(
            snap,
            active,
            slots,
            ev,
            as_of,
            horizon,
        ).extra,
    );
    law_occurrences_are_sorted(legs_upto(snap, active, slots, snap.series@.len() as int));
}

/// A series is expanded by its own rule, from its own start to its own end, over the whole window.
pub proof fn law_a_series_is_expanded_over_the_whole_window<R: Recurrence>(
    recur: R,
    snap: Snapshot,
    active: Set<i64>,
    as_of: Date,
    horizon: Date,
    slots: Seq<Seq<Date>>,
    i: int,
)
    requires
        slots_expanded(recur, snap, active, as_of, horizon, slots),
        0 <= i < snap.series@.len(),
        projected(snap.series@, active, snap.series@[i]),
    ensures
        recur.yields(
            (Ask {
                rule: snap.series@[i].rrule@,
                dtstart: snap.series@[i].dtstart,
                until: snap.series@[i].until_on,
                lo: as_of,
                hi: horizon,
            }),
            slots[i],
        ),
{
}

/// The rules in force are those of the book itself and of the what-ifs that are asked for, each
/// expanded by its own schedule over the whole window.
pub proof fn law_the_rules_in_force_are_expanded_over_the_whole_window<R: Recurrence>(
    recur: R,
    interest: Seq<InterestRule>,
    payments: Seq<PaymentRule>,
    active: Set<i64>,
    as_of: Date,
    horizon: Date,
    capitalise: Seq<RuleDates>,
    pay: Seq<RuleDates>,
    i: int,
)
    requires
        interest_expanded(
            recur,
            interest_in_force(interest, active),
            as_of,
            horizon,
            capitalise,
        ),
        payments_expanded(recur, payments_in_force(payments, active), as_of, horizon, pay),
    ensures
        0 <= i < interest.len() && (interest[i].scenario_id is None || active.contains(
            interest[i].scenario_id->0,
        )) ==> exists|k: int|
            0 <= k < capitalise.len() && (#[trigger] capitalise[k]).id == interest[i].id && recur.yields(
                (Ask {
                    rule: interest[i].capitalise_rrule@,
                    dtstart: interest[i].capitalise_dtstart,
                    until: None,
                    lo: as_of,
                    hi: horizon,
                }),
                capitalise[k].days@,
            ),
        0 <= i < payments.len() && (payments[i].scenario_id is None || active.contains(
            payments[i].scenario_id->0,
        )) ==> exists|k: int|
            0 <= k < pay.len() && (#[trigger] pay[k]).id == payments[i].id && recur.yields(
                (Ask {
                    rule: payments[i].rrule@,
                    dtstart: payments[i].dtstart,
                    until: payments[i].until_on,
                    lo: as_of,
                    hi: horizon,
                }),
                pay[k].days@,
            ),
{
    if 0 <= i < interest.len() && (interest[i].scenario_id is None || active.contains(
        interest[i].scenario_id->0,
    )) {
        let k = lemma_interest_kept(interest, active, i);
        assert(capitalise[k].id == interest_in_force(interest, active)[k].id);
    }
    if 0 <= i < payments.len() && (payments[i].scenario_id is None || active.contains(
        payments[i].scenario_id->0,
    )) {
        let k = lemma_payment_kept(payments, active, i);
        assert(pay[k].id == payments_in_force(payments, active)[k].id);
    }
}

proof fn lemma_interest_kept(rules: Seq<InterestRule>, active: Set<i64>, i: int) -> (k: int)
    requires
        0 <= i < rules.len(),
        rules[i].scenario_id is None || active.contains(rules[i].scenario_id->0),
    ensures
        0 <= k < interest_in_force(rules, active).len(),
        interest_in_force(rules, active)[k] == rules[i],
    decreases rules.len(),
{
    if i < rules.len() - 1 {
        assert(rules.drop_last()[i] == rules[i]);
        lemma_interest_kept(rules.drop_last(), active, i)
    } else {
        interest_in_force(rules, active).len() - 1
    }
}

proof fn lemma_payment_kept(rules: Seq<PaymentRule>, active: Set<i64>, i: int) -> (k: int)
    requires
        0 <= i < rules.len(),
        rules[i].scenario_id is None || active.contains(rules[i].scenario_id->0),
    ensures
        0 <= k < payments_in_force(rules, active).len(),
        payments_in_force(rules, active)[k] == rules[i],
    decreases rules.len(),
{
    if i < rules.len() - 1 {
        assert(rules.drop_last()[i] == rules[i]);
        lemma_payment_kept(rules.drop_last(), active, i)
    } else {
        payments_in_force(rules, active).len() - 1
    }
}

} // verus!
