//! What a change of a rule does to what is recorded and adjusted under it, when it is refused, and
//! what undoing it gives back.

use crate::change::{is_revision, kept_rows, on_days, Request, Revision, RuleBook};
use crate::date::Date;
use crate::lists::{lemma_first_is, lemma_push_has};
use crate::paths::{lemma_with_id, with_id};
use crate::recur::{Ask, Recurrence};
use crate::regroup::lemma_last_part;
use crate::reschedule::{
    adjusted_days, affects, claim_days, days_where, effect_refusal, has_day, in_place_answers,
    in_place_effects, is_carried, is_detached, is_dropped, is_from, is_left, is_left_behind,
    key_days, split_effects, word_for, Adjustment, Claim, Due, Effects,
};
use crate::revise::{answers, Answer, Plan, Terms};
use crate::rules::{
    all_parts, family, has_row, head_of, hop_before, lemma_all_parts, lemma_members, lineage,
    members_upto, part_has, part_rows, parts_with, put_hop, rule_of, Hop,
};
use crate::select::{selection_refusal, WhatIf};
use crate::shape::{hop_move, is_shape, moves_upto, role_place, Move, Shape};
use crate::standing::claims_of;
use crate::standing_laws::{
    is_adjusted, is_claimed, law_adjustments_belong_to_the_series_they_name,
    law_claims_belong_to_the_series_they_name, law_the_days_looked_at_are_those_claimed_or_adjusted,
    lemma_adjusted, lemma_claimed, lemma_where_has,
};
use crate::undo::{
    cancels_of, has_room, id_place, is_new_row, is_returned, undo_refusal, undoes, NewRow, Returned,
    Undo,
};
use vstd::prelude::*;

verus! {

/// Whether numbers stand in order, each once.
pub open spec fn ascends(s: Seq<i64>) -> bool {
    forall|i: int, j: int| 0 <= i < j < s.len() ==> #[trigger] s[i] < #[trigger] s[j]
}

/// A number put in its place among numbers in order leaves them in order.
pub proof fn lemma_id_put(s: Seq<i64>, id: i64)
    requires
        ascends(s),
    ensures
        ascends(with_id(s, id)),
    decreases s.len(),
{
    let w = with_id(s, id);
    if s.len() == 0 || s.last() < id {
        assert forall|i: int, j: int| 0 <= i < j < w.len() implies #[trigger] w[i] < #[trigger] w[j] by {
            if j == s.len() && i < s.len() - 1 {
                assert(s[i] < s[s.len() - 1]);
            }
        }
    } else if s.last() != id {
        let rest = s.drop_last();
        assert(ascends(rest)) by {
            assert forall|i: int, j: int| 0 <= i < j < rest.len() implies #[trigger] rest[i]
                < #[trigger] rest[j] by {
                assert(s[i] < s[j]);
            }
        }
        lemma_id_put(rest, id);
        lemma_with_id(rest, id);
        let u = with_id(rest, id);
        assert forall|i: int, j: int| 0 <= i < j < w.len() implies #[trigger] w[i] < #[trigger] w[j] by {
            if j == u.len() {
                assert(u.contains(u[i]));
                if u[i] != id {
                    let h = choose|h: int| 0 <= h < rest.len() && rest[h] == u[i];
                    assert(s[h] < s[s.len() - 1]);
                }
            }
        }
    }
}

proof fn lemma_claim_days_ascend(claims: Seq<Claim>)
    ensures
        ascends(claim_days(claims)),
    decreases claims.len(),
{
    if claims.len() > 0 {
        lemma_claim_days_ascend(claims.drop_last());
        lemma_id_put(claim_days(claims.drop_last()), claims.last().occurrence_on.days as i64);
    }
}

proof fn lemma_key_days_ascend(claims: Seq<Claim>, adjs: Seq<Adjustment>)
    ensures
        ascends(key_days(claims, adjs)),
    decreases adjs.len(),
{
    if adjs.len() == 0 {
        lemma_claim_days_ascend(claims);
    } else {
        lemma_key_days_ascend(claims, adjs.drop_last());
        lemma_id_put(key_days(claims, adjs.drop_last()), adjs.last().occurrence_on.days as i64);
    }
}

proof fn lemma_where_ascends(days: Seq<i64>, p: spec_fn(i64) -> bool)
    requires
        ascends(days),
    ensures
        ascends(days_where(days, p)),
    decreases days.len(),
{
    if days.len() > 0 {
        let rest = days.drop_last();
        assert(ascends(rest)) by {
            assert forall|i: int, j: int| 0 <= i < j < rest.len() implies #[trigger] rest[i]
                < #[trigger] rest[j] by {
                assert(days[i] < days[j]);
            }
        }
        lemma_where_ascends(rest, p);
        let w = days_where(rest, p);
        if p(days.last()) {
            let u = w.push(days.last());
            assert forall|i: int, j: int| 0 <= i < j < u.len() implies #[trigger] u[i] < #[trigger] u[j] by {
                if j == w.len() {
                    lemma_where_has(rest, p, w[i]);
                    assert(w.contains(w[i]));
                    let h = choose|h: int| 0 <= h < rest.len() && rest[h] == w[i];
                    assert(days[h] < days[days.len() - 1]);
                }
            }
        }
    }
}

/// Whether the old rule, where it expands, has a day, and the new one does not.
pub open spec fn loses_its_day(old: Answer, new: Seq<Date>, d: i64) -> bool {
    (old is Err || has_day(old->Ok_0, d)) && !has_day(new, d)
}

/// A change of the whole is stopped by exactly the recorded days that the new rule no longer has, and
/// takes exactly the adjusted days that it no longer has: those that a forecast still looks at it
/// drops, the earlier ones it leaves.
pub proof fn law_a_change_of_the_whole_loses_what_the_new_rule_lacks(
    x: Effects,
    claims: Seq<Claim>,
    adjs: Seq<Adjustment>,
    old: Answer,
    new: Seq<Date>,
    lookback: i64,
    first_slot: int,
    d: i64,
)
    requires
        in_place_effects(x, claims, adjs, old, new, lookback, first_slot),
    ensures
        x.blocked@.contains(d) <==> is_claimed(claims, d) && loses_its_day(old, new, d),
        x.dropped@.contains(d) <==> is_adjusted(adjs, d) && loses_its_day(old, new, d) && lookback <= d,
        x.left_on_old_dates@.contains(d) <==> is_adjusted(adjs, d) && loses_its_day(old, new, d) && d
            < lookback,
        !x.carried@.contains(d),
        !x.left_behind@.contains(d),
        x.suggest_from is Some <==> x.blocked@.len() > 0,
{
    lemma_claimed(claims, d);
    lemma_adjusted(adjs, d);
    lemma_where_has(claim_days(claims), is_detached(old, new), d);
    lemma_where_has(adjusted_days(adjs), is_dropped(old, new, lookback), d);
    lemma_where_has(adjusted_days(adjs), is_left(old, new, lookback), d);
}

/// The day that a stopped change of the whole is offered from is the first after every recorded day
/// and after the first slot.
pub proof fn law_the_day_offered_is_after_everything_recorded(
    x: Effects,
    claims: Seq<Claim>,
    adjs: Seq<Adjustment>,
    old: Answer,
    new: Seq<Date>,
    lookback: i64,
    first_slot: int,
    from: i64,
)
    requires
        in_place_effects(x, claims, adjs, old, new, lookback, first_slot),
        x.suggest_from == Some(from),
        i32::MIN <= first_slot < i32::MAX,
        forall|i: int|
            0 <= i < claims.len() ==> (#[trigger] claims[i]).occurrence_on.days < i32::MAX,
    ensures
        forall|i: int| 0 <= i < claims.len() ==> (#[trigger] claims[i]).occurrence_on.days < from,
        first_slot < from,
        is_claimed(claims, (from - 1) as i64) || first_slot == from - 1,
{
    let days = claim_days(claims);
    lemma_claim_days_ascend(claims);
    let b = x.blocked@[0];
    lemma_where_has(days, is_detached(old, new), b);
    assert(x.blocked@.contains(b));
    assert(days.len() > 0);
    let last = days.last();
    lemma_claimed(claims, last);
    assert(days.contains(last));
    let k = choose|k: int| 0 <= k < claims.len() && (#[trigger] claims[k]).occurrence_on.days == last;
    assert(claims[k].occurrence_on.days < i32::MAX);
    assert forall|i: int| 0 <= i < claims.len() implies (#[trigger] claims[i]).occurrence_on.days
        < from by {
        let d = claims[i].occurrence_on.days as i64;
        lemma_claimed(claims, d);
        assert(is_claimed(claims, d));
        let j = choose|j: int| 0 <= j < days.len() && days[j] == d;
        if j < days.len() - 1 {
            assert(days[j] < days[days.len() - 1]);
        }
    }
}

/// A change from a date is stopped by exactly the payments recorded on or after it; of the days
/// adjusted on or after it, those that the new rule has travel with the change and the others stay
/// behind.
pub proof fn law_a_change_from_a_date_takes_what_is_after_it(
    x: Effects,
    claims: Seq<Claim>,
    adjs: Seq<Adjustment>,
    from: i64,
    new: Seq<Date>,
    d: i64,
)
    requires
        split_effects(x, claims, adjs, from, new),
    ensures
        x.blocked@.contains(d) <==> is_claimed(claims, d) && from <= d,
        x.carried@.contains(d) <==> is_adjusted(adjs, d) && from <= d && has_day(new, d),
        x.left_behind@.contains(d) <==> is_adjusted(adjs, d) && from <= d && !has_day(new, d),
        !x.dropped@.contains(d),
        !x.left_on_old_dates@.contains(d),
        x.suggest_from is Some <==> x.blocked@.len() > 0,
        x.suggest_from is Some && x.blocked@.contains(d) && x.suggest_from->0 < i32::MAX && d < i32::MAX
            && x.blocked@.last() < i32::MAX && x.blocked@.last() >= i32::MIN ==> d < x.suggest_from->0,
{
    lemma_claimed(claims, d);
    lemma_adjusted(adjs, d);
    lemma_where_has(claim_days(claims), is_from(from), d);
    lemma_where_has(adjusted_days(adjs), is_carried(from, new), d);
    lemma_where_has(adjusted_days(adjs), is_left_behind(from, new), d);
    lemma_claim_days_ascend(claims);
    lemma_where_ascends(claim_days(claims), is_from(from));
    if x.blocked@.contains(d) {
        let j = choose|j: int| 0 <= j < x.blocked@.len() && x.blocked@[j] == d;
        if j < x.blocked@.len() - 1 {
            assert(x.blocked@[j] < x.blocked@[x.blocked@.len() - 1]);
        }
    }
}

/// What a change touches: only one from a date takes adjustments with it, only one that moves the
/// payment's days drops any, and one that does neither touches nothing.
pub proof fn law_a_change_touches_only_what_it_moves<R: Recurrence>(
    recur: R,
    before: Terms,
    p: Plan,
    from_on: Option<Date>,
    claims: Seq<Claim>,
    adjs: Seq<Adjustment>,
    lookback: Date,
    x: Effects,
    d: i64,
)
    requires
        affects(recur, before, p, from_on, claims, adjs, lookback, Ok(x)),
    ensures
        !p.start.split ==> !x.carried@.contains(d) && !x.left_behind@.contains(d),
        p.start.split && from_on is Some ==> {
            &&& x.blocked@.contains(d) <==> is_claimed(claims, d) && from_on->0.days <= d
            &&& !x.dropped@.contains(d)
            &&& x.carried@.contains(d) || x.left_behind@.contains(d) <==> is_adjusted(adjs, d)
                && from_on->0.days <= d
            &&& !(x.carried@.contains(d) && x.left_behind@.contains(d))
        },
        !p.start.split && !p.rule_changed && p.after.dtstart == before.dtstart ==> {
            &&& !x.blocked@.contains(d)
            &&& !x.dropped@.contains(d)
            &&& !x.left_on_old_dates@.contains(d)
            &&& x.suggest_from is None
        },
{
    if p.start.split && from_on is Some {
        let from = from_on->0;
        let later = days_where(adjusted_days(adjs), is_from(from.days as i64));
        if later.len() == 0 {
            law_a_change_from_a_date_takes_what_is_after_it(
                x,
                claims,
                adjs,
                from.days as i64,
                Seq::empty(),
                d,
            );
        } else {
            let new = choose|new: Answer|
                #![trigger answers(recur, crate::reschedule::slots_ask(p.after.rrule@, p.after.dtstart, later[0], later.last()), new)]
                answers(
                    recur,
                    crate::reschedule::slots_ask(
                        p.after.rrule@,
                        p.after.dtstart,
                        later[0],
                        later.last(),
                    ),
                    new,
                ) && new is Ok && split_effects(x, claims, adjs, from.days as i64, new->Ok_0);
            law_a_change_from_a_date_takes_what_is_after_it(
                x,
                claims,
                adjs,
                from.days as i64,
                new->Ok_0,
                d,
            );
        }
    }
}

/// A change of the whole that moves the payment's days is held against what the rule before and the
/// rule after make of every day recorded or adjusted.
pub proof fn law_a_change_of_the_whole_is_held_against_both_rules<R: Recurrence>(
    recur: R,
    before: Terms,
    p: Plan,
    from_on: Option<Date>,
    claims: Seq<Claim>,
    adjs: Seq<Adjustment>,
    lookback: Date,
    x: Effects,
    d: i64,
) -> (w: (Answer, Answer, Date, Date))
    requires
        affects(recur, before, p, from_on, claims, adjs, lookback, Ok(x)),
        !p.start.split,
        p.rule_changed || p.after.dtstart != before.dtstart,
        is_claimed(claims, d) || is_adjusted(adjs, d),
    ensures
        w.2.days <= d <= w.3.days,
        answers(
            recur,
            (Ask {
                rule: before.rrule@,
                dtstart: before.dtstart,
                until: None,
                lo: w.2,
                hi: w.3,
            }),
            w.0,
        ),
        answers(
            recur,
            (Ask {
                rule: p.after.rrule@,
                dtstart: p.after.dtstart,
                until: None,
                lo: w.2,
                hi: w.3,
            }),
            w.1,
        ),
        w.1 is Ok,
        x.blocked@.contains(d) <==> is_claimed(claims, d) && loses_its_day(w.0, w.1->Ok_0, d),
        x.dropped@.contains(d) <==> is_adjusted(adjs, d) && loses_its_day(w.0, w.1->Ok_0, d)
            && lookback.days <= d,
{
    let keys = key_days(claims, adjs);
    law_the_days_looked_at_are_those_claimed_or_adjusted(claims, adjs, d);
    lemma_key_days_ascend(claims, adjs);
    let i = choose|i: int| 0 <= i < keys.len() && keys[i] == d;
    if i > 0 {
        assert(keys[0] < keys[i]);
    }
    if i < keys.len() - 1 {
        assert(keys[i] < keys[keys.len() - 1]);
    }
    lemma_day_fits(claims, adjs, keys[0]);
    lemma_day_fits(claims, adjs, keys.last());
    let (old, new, slot) = choose|old: Answer, new: Answer, slot: Answer|
        #![trigger in_place_answers(recur, before, p, keys, old, new, slot)]
        in_place_answers(recur, before, p, keys, old, new, slot) && match new {
            Err(m) => false,
            Ok(days) => in_place_effects(
                x,
                claims,
                adjs,
                old,
                days,
                lookback.days as i64,
                crate::reschedule::first_slot_of(slot, before.dtstart),
            ),
        };
    law_a_change_of_the_whole_loses_what_the_new_rule_lacks(
        x,
        claims,
        adjs,
        old,
        new->Ok_0,
        lookback.days as i64,
        crate::reschedule::first_slot_of(slot, before.dtstart),
        d,
    );
    (old, new, Date { days: keys[0] as i32 }, Date { days: keys.last() as i32 })
}

proof fn lemma_day_fits(claims: Seq<Claim>, adjs: Seq<Adjustment>, d: i64)
    requires
        key_days(claims, adjs).contains(d),
    ensures
        i32::MIN <= d <= i32::MAX,
{
    law_the_days_looked_at_are_those_claimed_or_adjusted(claims, adjs, d);
}

/// A change goes ahead exactly where no recorded payment stands in its way, dropping adjustments is
/// agreed to or drops none, and what would fall due at once is agreed to or there is none.
pub proof fn law_a_change_goes_ahead_where_nothing_stands_in_its_way(
    desc: Seq<char>,
    split: bool,
    x: Effects,
    claims: Seq<Claim>,
    adjs: Seq<Adjustment>,
    due: Seq<Due>,
    drop_overrides: bool,
    acknowledge_due: bool,
)
    ensures
        ({
            let r = effect_refusal(
                desc,
                split,
                x,
                claims,
                adjs,
                due,
                drop_overrides,
                acknowledge_due,
            );
            &&& r is None <==> x.blocked@.len() == 0 && (x.dropped@.len() == 0 || drop_overrides) && (
            due.len() == 0 || acknowledge_due)
            &&& x.blocked@.len() > 0 && split ==> r is Some && (r->0).0 == "recorded_after"@
            &&& x.blocked@.len() > 0 && !split ==> r is Some && (r->0).0 == "slots_detached"@
            &&& x.blocked@.len() == 0 && x.dropped@.len() > 0 && !drop_overrides ==> r is Some && (
            r->0).0 == "would_drop"@
            &&& x.blocked@.len() == 0 && (x.dropped@.len() == 0 || drop_overrides) && due.len() > 0
                && !acknowledge_due ==> r is Some && (r->0).0 == "would_fall_due"@
        }),
{
}

/// A skipped slot is called skipped, one on another day moved, one with another amount too moved and
/// amended, and any other amended.
pub proof fn law_an_adjustment_is_called_what_it_did(a: Adjustment)
    ensures
        a.action@ == "skip"@ ==> word_for(a) == "skipped"@,
        a.action@ != "skip"@ && a.moved_to is Some && a.amount_minor is Some ==> word_for(a)
            == "moved and amended"@,
        a.action@ != "skip"@ && a.moved_to is Some && a.amount_minor is None ==> word_for(a) == "moved"@,
        a.action@ != "skip"@ && a.moved_to is None ==> word_for(a) == "amended"@,
{
}

/// The rows of a part are its rows.
pub proof fn law_a_parts_rows_are_its_rows(hops: Seq<Hop>, part: Seq<int>, id: i64)
    ensures
        part_rows(hops, part).contains(id) <==> exists|i: int|
            0 <= i < part.len() && (#[trigger] hops[part[i]]).id == id,
{
    let rows = part_rows(hops, part);
    if rows.contains(id) {
        let i = choose|i: int| 0 <= i < rows.len() && rows[i] == id;
        assert(hops[part[i]].id == id);
    }
    if exists|i: int| 0 <= i < part.len() && (#[trigger] hops[part[i]]).id == id {
        let i = choose|i: int| 0 <= i < part.len() && (#[trigger] hops[part[i]]).id == id;
        assert(rows[i] == id);
    }
}

/// A change can be undone exactly where the row is of the rule's newest part, there is an earlier one,
/// and nothing is recorded under it.
pub proof fn law_a_change_can_be_undone_while_nothing_is_recorded_under_it(
    hops: Seq<Hop>,
    id: i64,
    claims: Seq<Claim>,
)
    ensures
        undo_refusal(hops, id, claims) is None <==> {
            &&& rule_of(hops, id) is Some
            &&& (rule_of(hops, id)->0).len() >= 2
            &&& has_row(hops, (rule_of(hops, id)->0).last(), id)
            &&& forall|i: int|
                0 <= i < claims.len() ==> !part_rows(hops, (rule_of(hops, id)->0).last()).contains(
                    (#[trigger] claims[i]).series_id,
                )
        },
{
    if rule_of(hops, id) is Some {
        let ids = part_rows(hops, (rule_of(hops, id)->0).last());
        let own = claims_of(claims, ids);
        if own.len() > 0 {
            assert(own.contains(own[0]));
            law_claims_belong_to_the_series_they_name(claims, ids, own[0]);
            let i = choose|i: int| 0 <= i < claims.len() && claims[i] == own[0];
            assert(ids.contains(claims[i].series_id));
        } else {
            assert forall|i: int| 0 <= i < claims.len() implies !ids.contains(
                (#[trigger] claims[i]).series_id,
            ) by {
                law_claims_belong_to_the_series_they_name(claims, ids, claims[i]);
                assert(claims.contains(claims[i]));
            }
        }
    }
}

/// The cancels made against some rows are those that supersede one of them.
pub proof fn law_a_cancel_is_of_what_it_supersedes(hops: Seq<Hop>, ids: Seq<i64>, id: i64)
    ensures
        cancels_of(hops, ids).contains(id) <==> exists|i: int|
            0 <= i < hops.len() && (#[trigger] hops[i]).id == id && hops[i].supersedes_id is Some
                && ids.contains(hops[i].supersedes_id->0),
    decreases hops.len(),
{
    if hops.len() > 0 {
        let rest = hops.drop_last();
        law_a_cancel_is_of_what_it_supersedes(rest, ids, id);
        lemma_push_has(cancels_of(rest, ids), hops.last().id, id);
        assert(hops[hops.len() - 1] == hops.last());
        if exists|i: int|
            0 <= i < rest.len() && (#[trigger] rest[i]).id == id && rest[i].supersedes_id is Some
                && ids.contains(rest[i].supersedes_id->0) {
            let i = choose|i: int|
                0 <= i < rest.len() && (#[trigger] rest[i]).id == id && rest[i].supersedes_id is Some
                    && ids.contains(rest[i].supersedes_id->0);
            assert(hops[i] == rest[i]);
        }
        if exists|i: int|
            0 <= i < hops.len() && (#[trigger] hops[i]).id == id && hops[i].supersedes_id is Some
                && ids.contains(hops[i].supersedes_id->0) {
            let i = choose|i: int|
                0 <= i < hops.len() && (#[trigger] hops[i]).id == id && hops[i].supersedes_id is Some
                    && ids.contains(hops[i].supersedes_id->0);
            if i < rest.len() {
                assert(rest[i] == hops[i]);
            }
        }
    }
}

/// An undo removes the rows of the newest part, lets those of the one before run on to the end that
/// the newest had, and points what cancelled the one at the other.
pub proof fn law_an_undo_lets_the_part_before_run_on<R: Recurrence>(
    u: Undo,
    recur: R,
    hops: Seq<Hop>,
    parts: Seq<Seq<int>>,
    rows: Seq<Adjustment>,
    own: Seq<Adjustment>,
    id: i64,
)
    requires
        undoes(u, recur, hops, parts, rows, own),
        parts.len() >= 2,
    ensures
        u.removed@.contains(id) <==> has_row(hops, parts[parts.len() - 1], id),
        u.restored@.contains(id) <==> has_row(hops, parts[parts.len() - 2], id),
        u.until_on == hops[parts[parts.len() - 1][0]].until_on,
        u.repointed_to == hops[parts[parts.len() - 2][0]].id,
        u.repointed@.contains(id) <==> exists|i: int|
            0 <= i < hops.len() && (#[trigger] hops[i]).id == id && hops[i].supersedes_id is Some
                && u.removed@.contains(hops[i].supersedes_id->0),
{
    law_a_parts_rows_are_its_rows(hops, parts[parts.len() - 1], id);
    law_a_parts_rows_are_its_rows(hops, parts[parts.len() - 2], id);
    law_a_cancel_is_of_what_it_supersedes(hops, part_rows(hops, parts.last()), id);
}

/// An adjusted day goes back exactly where the earlier rule has it and every adjustment of it has a
/// hop of the earlier part to go to that is not adjusted that day already; what does not is lost.
pub proof fn law_an_adjusted_day_goes_back_where_there_is_room(
    x: Returned,
    rows: Seq<Adjustment>,
    newer: Seq<i64>,
    older: Seq<i64>,
    own: Seq<Adjustment>,
    slots: Seq<Date>,
    d: i64,
)
    requires
        is_returned(x, rows, newer, older, own, slots),
        newer.len() == older.len(),
        newer.no_duplicates(),
    ensures
        x.carried_back@.contains(d) <==> is_adjusted(rows, d) && has_day(slots, d) && fits_back(
            rows,
            newer,
            older,
            own,
            d,
        ),
        x.lost@.contains(d) <==> is_adjusted(rows, d) && !(has_day(slots, d) && fits_back(
            rows,
            newer,
            older,
            own,
            d,
        )),
{
    lemma_adjusted(rows, d);
    let back = crate::undo::goes_back(rows, newer, older, own, slots);
    lemma_where_has(adjusted_days(rows), back, d);
    lemma_where_has(
        adjusted_days(rows),
        crate::undo::is_lost(rows, newer, older, own, slots),
        d,
    );
    assert forall|i: int| 0 <= i < rows.len() && (#[trigger] rows[i]).occurrence_on.days == d implies (
    has_room(rows[i], newer, older, own) <==> has_place(rows[i], newer, older, own, d)) by {
        lemma_has_place(rows[i], newer, older, own, d);
    }
}

/// Whether an adjustment of a day has a hop of the earlier part to go to: the one in the same place,
/// and not adjusted that day already.
pub open spec fn has_place(
    a: Adjustment,
    newer: Seq<i64>,
    older: Seq<i64>,
    own: Seq<Adjustment>,
    d: i64,
) -> bool {
    exists|k: int|
        0 <= k < newer.len() && #[trigger] newer[k] == a.series_id && forall|j: int|
            0 <= j < own.len() ==> (#[trigger] own[j]).series_id != older[k]
                || own[j].occurrence_on.days != d
}

/// Whether all adjustments of a day have one.
pub open spec fn fits_back(
    rows: Seq<Adjustment>,
    newer: Seq<i64>,
    older: Seq<i64>,
    own: Seq<Adjustment>,
    d: i64,
) -> bool {
    forall|i: int|
        0 <= i < rows.len() && (#[trigger] rows[i]).occurrence_on.days == d ==> has_place(
            rows[i],
            newer,
            older,
            own,
            d,
        )
}

proof fn lemma_has_place(
    a: Adjustment,
    newer: Seq<i64>,
    older: Seq<i64>,
    own: Seq<Adjustment>,
    d: i64,
)
    requires
        newer.len() == older.len(),
        newer.no_duplicates(),
        a.occurrence_on.days == d,
    ensures
        has_room(a, newer, older, own) <==> has_place(a, newer, older, own, d),
{
    let p = crate::undo::is_id(newer, a.series_id);
    lemma_first_is(newer.len() as int, p);
    let at = id_place(newer, a.series_id);
    if at < newer.len() {
        assert(p(at));
        assert(newer[at] == a.series_id);
    }
    if has_place(a, newer, older, own, d) {
        let k = choose|k: int|
            0 <= k < newer.len() && #[trigger] newer[k] == a.series_id && forall|j: int|
                0 <= j < own.len() ==> (#[trigger] own[j]).series_id != older[k]
                    || own[j].occurrence_on.days != d;
        assert(p(k));
        assert(at == k);
    }
}

/// The row of a change holds what the plan sets and goes back to the rule's first part.
pub proof fn law_the_row_of_a_change_holds_what_the_plan_sets(r: NewRow, h: Hop, p: Plan)
    requires
        is_new_row(r, h, p),
    ensures
        h.head_id matches Some(i) ==> r.head_id == i,
        h.head_id is None ==> r.head_id == h.id,
        r.description@ == p.after.description@,
        r.rrule@ == p.after.rrule@,
        r.dtstart == p.after.dtstart,
        r.until_on == p.after.until_on,
        r.weekend_rule@ == p.after.weekend_rule@,
{
}

proof fn lemma_on_days(rows: Seq<Adjustment>, days: Seq<i64>, among: bool, a: Adjustment)
    ensures
        on_days(rows, days, among).contains(a) <==> rows.contains(a) && days.contains(
            a.occurrence_on.days as i64,
        ) == among,
    decreases rows.len(),
{
    if rows.len() > 0 {
        let rest = rows.drop_last();
        lemma_on_days(rest, days, among, a);
        lemma_push_has(rest, rows.last(), a);
        lemma_push_has(on_days(rest, days, among), rows.last(), a);
        assert(rest.push(rows.last()) =~= rows);
    }
}

/// Of the adjustments, a change from a date keeps those it carries, and one of the whole all but
/// those it drops.
pub proof fn law_a_change_keeps_what_it_carries_or_does_not_drop(
    rows: Seq<Adjustment>,
    x: Effects,
    a: Adjustment,
)
    ensures
        kept_rows(rows, true, x).contains(a) <==> rows.contains(a) && x.carried@.contains(
            a.occurrence_on.days as i64,
        ),
        kept_rows(rows, false, x).contains(a) <==> rows.contains(a) && !x.dropped@.contains(
            a.occurrence_on.days as i64,
        ),
{
    lemma_on_days(rows, x.carried@, true, a);
    lemma_on_days(rows, x.dropped@, false, a);
}

/// A revision is of the newest part of the rule: it sees what is recorded and adjusted under that
/// part and nothing else, and starts from the terms of its first hop.
pub proof fn law_a_revision_is_of_the_newest_part<R: Recurrence>(
    v: Revision,
    recur: R,
    b: RuleBook,
    q: Request,
    parts: Seq<Seq<int>>,
    c: Claim,
    a: Adjustment,
)
    requires
        is_revision(v, recur, b, q),
        rule_of(b.hops@, q.id) == Some(parts),
    ensures
        has_row(b.hops@, parts.last(), q.id),
        v.claims@.contains(c) <==> b.claims@.contains(c) && has_row(b.hops@, parts.last(), c.series_id),
        v.adjustments@.contains(a) <==> b.adjustments@.contains(a) && has_row(
            b.hops@,
            parts.last(),
            a.series_id,
        ),
        ({
            let h = b.hops@[parts.last()[0]];
            let t = v.edit.before;
            &&& t.description@ == h.description@
            &&& t.rrule@ == h.rrule@
            &&& t.dtstart == h.dtstart
            &&& t.until_on == h.until_on
            &&& t.weekend_rule@ == h.weekend_rule@
            &&& t.route@ == v.edit.shape.route@
            &&& t.amounts@ == v.edit.shape.magnitudes@
            &&& v.edit.hops == parts.last().len()
            &&& v.edit.earlier is Some <==> parts.len() >= 2
            &&& parts.len() >= 2 ==> v.edit.earlier == Some(
                b.hops@[parts[parts.len() - 2][0]].until_on,
            )
            &&& v.edit.patch == q.patch
        }),
        q.patch.from_on is Some ==> b.hops@[parts.last()[0]].scenario_id is None,
{
    let ids = part_rows(b.hops@, parts.last());
    law_claims_belong_to_the_series_they_name(b.claims@, ids, c);
    law_adjustments_belong_to_the_series_they_name(b.adjustments@, ids, a);
    law_a_parts_rows_are_its_rows(b.hops@, parts.last(), c.series_id);
    law_a_parts_rows_are_its_rows(b.hops@, parts.last(), a.series_id);
}

/// What a new end puts to sleep: the recorded days after it, and the adjusted ones that are not
/// dropped anyway, as far as the old end let them in.
pub proof fn law_a_new_end_puts_to_sleep_what_is_after_it<R: Recurrence>(
    v: Revision,
    recur: R,
    b: RuleBook,
    q: Request,
    d: i64,
)
    requires
        is_revision(v, recur, b, q),
        v.plan.changed@.len() > 0,
    ensures
        ({
            let end = v.plan.after.until_on;
            let was = v.edit.before.until_on;
            let cut = end is Some && end != was && end->0.days < d && (was is None || d <= was->0.days);
            &&& v.dormant.recorded@.contains(d) <==> is_claimed(v.claims@, d) && cut
            &&& v.dormant.adjusted@.contains(d) <==> is_adjusted(v.adjustments@, d) && cut
                && !v.effects.dropped@.contains(d)
        }),
{
    let end = v.plan.after.until_on;
    let was = v.edit.before.until_on;
    lemma_claimed(v.claims@, d);
    lemma_adjusted(v.adjustments@, d);
    lemma_where_has(claim_days(v.claims@), crate::amends::is_cut_off(end, was), d);
    lemma_where_has(
        adjusted_days(v.adjustments@),
        crate::amends::is_cut_adjustment(end, was, v.effects.dropped@),
        d,
    );
}

/// A rule can be edited exactly where the row is of its newest part, that part does more than cancel,
/// and the edit is not from a date of a what-if.
pub proof fn law_a_rule_can_be_edited_in_its_newest_part(
    hops: Seq<Hop>,
    what_ifs: Seq<WhatIf>,
    id: i64,
    from: bool,
)
    ensures
        selection_refusal(hops, what_ifs, id, from) is None <==> {
            &&& rule_of(hops, id) is Some
            &&& has_row(hops, (rule_of(hops, id)->0).last(), id)
            &&& hops[(rule_of(hops, id)->0).last()[0]].supersedes_id is None || exists|i: int|
                0 <= i < (rule_of(hops, id)->0).last().len() && (#[trigger] hops[(rule_of(
                    hops,
                    id,
                )->0).last()[i]]).legs@.len() > 0
            &&& !from || hops[(rule_of(hops, id)->0).last()[0]].scenario_id is None
        },
{
}

/// The rule of a row is made of the parts that go back to the same first row; one of them has the
/// row, and the last starts no earlier than any.
pub proof fn law_the_newest_part_of_a_rule_starts_last(hops: Seq<Hop>, id: i64)
    requires
        exists|i: int| 0 <= i < hops.len() && (#[trigger] hops[i]).id == id,
    ensures
        rule_of(hops, id) is Some,
        ({
            let parts = rule_of(hops, id)->0;
            &&& parts.len() > 0
            &&& exists|k: int| 0 <= k < parts.len() && has_row(hops, #[trigger] parts[k], id)
            &&& forall|k: int|
                0 <= k < parts.len() ==> head_of(hops[(#[trigger] parts[k])[0]]) == head_of(
                    hops[parts[0][0]],
                ) && hops[parts[k][0]].dtstart.days <= hops[parts.last()[0]].dtstart.days
        }),
{
    let all = all_parts(hops);
    lemma_all_parts(hops);
    let i = choose|i: int| 0 <= i < hops.len() && (#[trigger] hops[i]).id == id;
    let fam = family(hops[i]);
    crate::rules::lemma_families(hops, fam);
    let f = choose|f: int|
        0 <= f < crate::rules::families(hops).len() && crate::rules::families(hops)[f] == fam;
    lemma_members(hops, fam, hops.len() as int);
    assert(all[f] == members_upto(hops, fam, hops.len() as int));
    assert(all[f].contains(i));
    let at = choose|at: int| 0 <= at < all[f].len() && all[f][at] == i;
    assert(hops[all[f][at]].id == id);
    let p = part_has(hops, all, id);
    assert(p(f));
    lemma_first_is(all.len() as int, p);
    let k = crate::lists::first(all.len() as int, p);
    assert(p(k));
    let lin = lineage(hops, all[k]);
    let parts = parts_with(hops, all, lin);
    crate::rules::lemma_parts_with_has(hops, all, lin, k);
    lemma_last_part(hops, all, lin);
    let n = choose|n: int| 0 <= n < parts.len() && parts[n] == all[k];
    assert(has_row(hops, parts[n], id));
    assert forall|j: int| 0 <= j < parts.len() implies head_of(hops[(#[trigger] parts[j])[0]])
        == head_of(hops[parts[0][0]]) && hops[parts[j][0]].dtstart.days
        <= hops[parts.last()[0]].dtstart.days by {
        assert(lineage(hops, parts[j]) == lin);
        assert(lineage(hops, parts[0]) == lin);
    }
}

/// A part is the rows of one chain, or one row that is of none, in the order of the chain.
pub proof fn law_a_part_is_a_chain_in_order(hops: Seq<Hop>, k: int, x: int, y: int)
    requires
        0 <= k < all_parts(hops).len(),
        all_parts(hops)[k].contains(x),
        0 <= y < hops.len(),
    ensures
        0 <= x < hops.len(),
        all_parts(hops)[k].contains(y) <==> (match hops[y].chain_id {
            Some(c) => c,
            None => hops[y].id,
        }) == (match hops[x].chain_id {
            Some(c) => c,
            None => hops[x].id,
        }),
        forall|i: int, j: int|
            0 <= i < j < all_parts(hops)[k].len() ==> !hop_before(
                hops[#[trigger] all_parts(hops)[k][j]],
                hops[#[trigger] all_parts(hops)[k][i]],
            ),
{
    let fam = crate::rules::families(hops)[k];
    lemma_members(hops, fam, hops.len() as int);
    lemma_members_ordered(hops, fam, hops.len() as int);
}

proof fn lemma_put_hop_ordered(hops: Seq<Hop>, s: Seq<int>, x: int)
    requires
        forall|i: int, j: int|
            0 <= i < j < s.len() ==> !hop_before(hops[#[trigger] s[j]], hops[#[trigger] s[i]]),
    ensures
        ({
            let w = put_hop(hops, s, x);
            &&& forall|i: int, j: int|
                0 <= i < j < w.len() ==> !hop_before(hops[#[trigger] w[j]], hops[#[trigger] w[i]])
            &&& forall|i: int| 0 <= i < w.len() ==> #[trigger] w[i] == x || s.contains(w[i])
        }),
    decreases s.len(),
{
    let w = put_hop(hops, s, x);
    if s.len() > 0 && hop_before(hops[x], hops[s.last()]) {
        let rest = s.drop_last();
        assert forall|i: int, j: int| 0 <= i < j < rest.len() implies !hop_before(
            hops[#[trigger] rest[j]],
            hops[#[trigger] rest[i]],
        ) by {
            assert(rest[i] == s[i] && rest[j] == s[j]);
        }
        lemma_put_hop_ordered(hops, rest, x);
        let u = put_hop(hops, rest, x);
        assert forall|i: int| 0 <= i < w.len() implies #[trigger] w[i] == x || s.contains(w[i]) by {
            if i < u.len() {
                assert(u[i] == x || rest.contains(u[i]));
                if rest.contains(u[i]) {
                    let h = choose|h: int| 0 <= h < rest.len() && rest[h] == u[i];
                    assert(s[h] == u[i]);
                }
            } else {
                assert(s[s.len() - 1] == w[i]);
            }
        }
        assert forall|i: int, j: int| 0 <= i < j < w.len() implies !hop_before(
            hops[#[trigger] w[j]],
            hops[#[trigger] w[i]],
        ) by {
            if j == u.len() {
                assert(u[i] == x || rest.contains(u[i]));
                if rest.contains(u[i]) {
                    let h = choose|h: int| 0 <= h < rest.len() && rest[h] == u[i];
                    assert(s[h] == u[i]);
                    assert(!hop_before(hops[s[s.len() - 1]], hops[s[h]]));
                }
            }
        }
    } else {
        assert forall|i: int, j: int| 0 <= i < j < w.len() implies !hop_before(
            hops[#[trigger] w[j]],
            hops[#[trigger] w[i]],
        ) by {
            if j == s.len() && i < s.len() - 1 {
                assert(!hop_before(hops[s[s.len() - 1]], hops[s[i]]));
            }
        }
    }
}

proof fn lemma_members_ordered(hops: Seq<Hop>, fam: i64, n: int)
    ensures
        forall|i: int, j: int|
            0 <= i < j < members_upto(hops, fam, n).len() ==> !hop_before(
                hops[#[trigger] members_upto(hops, fam, n)[j]],
                hops[#[trigger] members_upto(hops, fam, n)[i]],
            ),
    decreases n,
{
    if n > 0 {
        lemma_members_ordered(hops, fam, n - 1);
        lemma_put_hop_ordered(hops, members_upto(hops, fam, n - 1), n - 1);
    }
}

/// A hop of a chain comes before those with a higher place in it, a row of none counting as first;
/// and before one with the same place and a higher id.
pub proof fn law_hops_come_in_the_order_of_their_chain(a: Hop, b: Hop)
    ensures
        a.chain_seq is Some && b.chain_seq is Some && a.chain_seq->0 < b.chain_seq->0 ==> hop_before(
            a,
            b,
        ) && !hop_before(b, a),
        a.chain_seq == b.chain_seq ==> (hop_before(a, b) <==> a.id < b.id),
        a.chain_seq is None && b.chain_seq is Some && b.chain_seq->0 > 0 ==> hop_before(a, b),
{
}

proof fn lemma_role(legs: Seq<crate::rules::HopLeg>, role: Seq<char>)
    ensures
        0 <= role_place(legs, role) <= legs.len(),
        role_place(legs, role) < legs.len() ==> legs[role_place(legs, role)].role@ == role,
{
    lemma_first_is(legs.len() as int, crate::shape::has_role(legs, role));
    if role_place(legs, role) < legs.len() {
        assert(crate::shape::has_role(legs, role)(role_place(legs, role)));
    }
}

/// Whether the two legs of a hop move an amount from one account to another in a currency.
pub open spec fn moves_from_to(
    legs: Seq<crate::rules::HopLeg>,
    from: i64,
    to: i64,
    amount: int,
    currency: Seq<char>,
    negative: bool,
) -> bool {
    exists|p: int, b: int|
        #![trigger legs[p], legs[b]]
        0 <= p < 2 && 0 <= b < 2 && p != b && legs.len() == 2 && legs[p].role@ == "primary"@
            && legs[b].role@ == "balancing"@ && legs[p].currency@ == currency && legs[b].currency@
            == currency && (if negative {
            legs[p].account_id == from && legs[p].amount_minor == -amount && legs[b].account_id == to
                && legs[b].amount_minor == amount
        } else {
            legs[b].account_id == from && legs[b].amount_minor == -amount && legs[p].account_id == to
                && legs[p].amount_minor == amount
        })
}

proof fn lemma_moves(hops: Seq<Hop>, part: Seq<int>, currency: Seq<char>, n: int, k: int)
    requires
        0 <= k < n <= part.len(),
        moves_upto(hops, part, currency, n) is Some,
    ensures
        ({
            let m = moves_upto(hops, part, currency, n)->0;
            &&& m.len() == n
            &&& hop_move(hops[part[k]].legs@, currency) == Some(m[k])
            &&& k > 0 ==> m[k - 1].to == m[k].from
        }),
    decreases n,
{
    if n > 1 {
        if k < n - 1 {
            lemma_moves(hops, part, currency, n - 1, k);
        } else {
            lemma_moves(hops, part, currency, n - 1, k - 1);
        }
    } else {
        assert(moves_upto(hops, part, currency, 0) == Some(Seq::<Move>::empty()));
    }
}

/// A part of the ordinary shape moves, hop by hop, a positive amount from each stop of its route to
/// the next; and says of each hop whether money leaves its primary account.
pub proof fn law_a_route_is_where_the_money_goes(s: Shape, hops: Seq<Hop>, part: Seq<int>, k: int)
    requires
        is_shape(s, hops, part),
        s.two_leg,
        0 <= k < part.len(),
    ensures
        s.route@.len() == part.len() + 1,
        s.magnitudes@.len() == part.len(),
        s.magnitudes@[k] > 0,
        moves_from_to(
            hops[part[k]].legs@,
            s.route@[k],
            s.route@[k + 1],
            s.magnitudes@[k] as int,
            s.currency@,
            s.negative@[k],
        ),
{
    let currency = s.currency@;
    let n = part.len() as int;
    let m = moves_upto(hops, part, currency, n)->0;
    lemma_moves(hops, part, currency, n, k);
    let legs = hops[part[k]].legs@;
    lemma_role(legs, "primary"@);
    lemma_role(legs, "balancing"@);
    reveal_strlit("primary");
    reveal_strlit("balancing");
    assert("primary"@.len() == 7 && "balancing"@.len() == 9);
    let p = role_place(legs, "primary"@);
    let b = role_place(legs, "balancing"@);
    assert(legs[p] == legs[p] && legs[b] == legs[b]);
    if k > 0 {
        lemma_moves(hops, part, currency, n, k - 1);
    }
    if k < n - 1 {
        lemma_moves(hops, part, currency, n, k + 1);
    }
    lemma_moves(hops, part, currency, n, 0);
}

} // verus!
