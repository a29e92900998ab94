//! A change from a date as it is stored, and how it is undone.
//!
//! A change from a date ends the rule's newest part on the day before and adds a part that goes back
//! to the same first row. Undoing it takes that part away, and the earlier one runs on as far as the
//! change would have.

use crate::date::Date;
use crate::lists::{first, lemma_first};
use crate::paths::holds;
use crate::recur::{RRuleCrate, Recurrence};
use crate::reschedule::{
    adjusted_days, are_days, claim_days, collect_adjusted_days, collect_claim_days, contains_day,
    days_where, has_day, lemma_adjusted_days, lemma_claim_days, paid_item, paid_items, slots_ask,
    Adjustment, Claim,
};
use crate::revise::{
    answer_view, answers, days_fit, is_plan, is_refusal, plans, put_ask, Answer, Edit, Plan, Refusal,
};
use crate::rules::{
    are_parts, contains_row, find_rule, has_row, head_of, ids_of, newest_first, origin_of, part_rows,
    place_lists, places, rule_of, Hop,
};
use crate::select::{no_such_rule, say_no_such_rule};
use crate::standing::{claims_of, pick_claims};
use crate::wording::{dmy, fail, in_words, list_words, said, EditError};
use vstd::prelude::*;

verus! {

broadcast use vstd::string::group_string_axioms;

/// A row of the part that a change from a date adds.
#[derive(Debug, Clone)]
pub struct NewRow {
    /// The matching hop of the rule's first part.
    pub head_id: i64,
    pub description: String,
    pub rrule: String,
    pub dtstart: Date,
    pub until_on: Option<Date>,
    pub weekend_rule: String,
}

/// Whether a row is the one a change adds for a hop.
pub open spec fn is_new_row(r: NewRow, h: Hop, p: Plan) -> bool {
    &&& r.head_id == head_of(h)
    &&& r.description@ == p.after.description@
    &&& r.rrule@ == p.after.rrule@
    &&& r.dtstart == p.after.dtstart
    &&& r.until_on == p.after.until_on
    &&& r.weekend_rule@ == p.after.weekend_rule@
}

/// The row a change adds for a hop.
pub fn new_row(h: &Hop, p: &Plan) -> (r: NewRow)
    ensures
        is_new_row(r, *h, *p),
{
    NewRow {
        head_id: origin_of(h),
        description: p.after.description.clone(),
        rrule: p.after.rrule.clone(),
        dtstart: p.after.dtstart,
        until_on: p.after.until_on,
        weekend_rule: p.after.weekend_rule.clone(),
    }
}

/// The end that a change from a date gives the part before it: the day before.
pub fn earlier_end(from: Date) -> (r: Date)
    requires
        from.in_range(),
    ensures
        r.days == from.days - 1,
{
    Date { days: from.days - 1 }
}

/// What is said of payments recorded under a change.
pub open spec fn has_payments(start: int, claims: Seq<Claim>) -> Refusal {
    let days = claim_days(claims);
    (
        "change_has_payments"@,
        (if days.len() == 1 {
            "a payment is"@
        } else {
            "payments are"@
        }) + " recorded under the change from "@ + said(start) + ": "@ + in_words(
            days.map_values(|d: i64| paid_item(claims, d)),
        ) + " — delete "@ + (if days.len() == 1 {
            "it"@
        } else {
            "them"@
        }) + " in Payments first, or keep the change"@,
    )
}

/// Why a change cannot be undone: there is no such row, it is of an older part, the rule was never
/// changed, or payments are recorded under the change.
pub open spec fn undo_refusal(hops: Seq<Hop>, id: i64, claims: Seq<Claim>) -> Option<Refusal> {
    match rule_of(hops, id) {
        None => Some(no_such_rule(id)),
        Some(parts) => {
            let h = newest_first(hops, parts);
            if !has_row(hops, parts.last(), id) {
                Some(
                    (
                        "not_latest"@,
                        h.description@ + " changed on "@ + said(h.dtstart.days as int)
                            + ": edit its newest part, or undo that change first"@,
                    ),
                )
            } else if parts.len() < 2 {
                Some(
                    (
                        "not_a_change"@,
                        h.description@
                            + " was never changed from a date — there is nothing to undo"@,
                    ),
                )
            } else {
                let own = claims_of(claims, part_rows(hops, parts.last()));
                if own.len() > 0 {
                    Some(has_payments(h.dtstart.days as int, own))
                } else {
                    None
                }
            }
        },
    }
}

/// The parts of the rule whose newest change is undone, oldest first, or why it cannot be. `claims`
/// are the payments recorded under rules.
pub fn undoable(hops: &Vec<Hop>, id: i64, claims: &Vec<Claim>) -> (r: Result<
    Vec<Vec<usize>>,
    EditError,
>)
    ensures
        match undo_refusal(hops@, id, claims@) {
            Some(why) => r matches Err(e) && is_refusal(e, why),
            None => r matches Ok(v) && rule_of(hops@, id) == Some(place_lists(v@)) && v@.len() >= 2
                && are_parts(place_lists(v@), hops@.len() as int),
        },
{
    let parts = match find_rule(hops, id) {
        Some(p) => p,
        None => return Err(say_no_such_rule(id)),
    };
    let n: usize = parts.len();
    let ghost all = place_lists(parts@);
    assert(all[n - 1] == places(parts@[n - 1]@));
    assert(all.last() == places(parts@[n - 1]@));
    assert(all[n - 1][0] == parts@[n - 1]@[0]);
    let l = &parts[n - 1];
    let h = &hops[l[0]];
    let start = dmy(h.dtstart);
    if !contains_row(hops, l, id) {
        let mut m = h.description.clone();
        m.append(" changed on ");
        m.append(start.as_str());
        m.append(": edit its newest part, or undo that change first");
        return Err(fail("not_latest", m));
    }
    if n < 2 {
        let mut m = h.description.clone();
        m.append(" was never changed from a date — there is nothing to undo");
        return Err(fail("not_a_change", m));
    }
    let newest = ids_of(hops, l);
    let own = pick_claims(claims, &newest);
    if own.len() > 0 {
        let days = collect_claim_days(&own);
        proof {
            lemma_claim_days(own@);
        }
        let items = paid_items(&own, &days);
        let list = list_words(&items);
        let one = days.len() == 1;
        let mut m = (if one {
            "a payment is"
        } else {
            "payments are"
        }).to_string();
        m.append(" recorded under the change from ");
        m.append(start.as_str());
        m.append(": ");
        m.append(list.as_str());
        m.append(" — delete ");
        m.append(
            if one {
                "it"
            } else {
                "them"
            },
        );
        m.append(" in Payments first, or keep the change");
        return Err(fail("change_has_payments", m));
    }
    Ok(parts)
}

/// Whether the id at a place is one.
pub open spec fn is_id(ids: Seq<i64>, id: i64) -> spec_fn(int) -> bool {
    |i: int| ids[i] == id
}

/// The place of an id, past the end where it is not there.
pub open spec fn id_place(ids: Seq<i64>, id: i64) -> int {
    first(ids.len() as int, is_id(ids, id))
}

/// Whether a row is adjusted on a day.
pub open spec fn is_adjusted(rows: Seq<Adjustment>, id: i64, d: i64) -> bool {
    exists|i: int|
        0 <= i < rows.len() && (#[trigger] rows[i]).series_id == id && rows[i].occurrence_on.days
            == d
}

/// Whether an adjustment can go back to the matching hop of the earlier part: there is one, and it
/// has none of its own that day.
pub open spec fn has_room(a: Adjustment, newer: Seq<i64>, older: Seq<i64>, own: Seq<Adjustment>) -> bool {
    let k = id_place(newer, a.series_id);
    k < newer.len() && k < older.len() && !is_adjusted(
        own,
        older[k],
        a.occurrence_on.days as i64,
    )
}

/// Whether the adjustments of a day go back to the earlier part: its rule has that slot, and there is
/// room for each.
pub open spec fn goes_back(
    rows: Seq<Adjustment>,
    newer: Seq<i64>,
    older: Seq<i64>,
    own: Seq<Adjustment>,
    slots: Seq<Date>,
) -> spec_fn(i64) -> bool {
    |d: i64|
        has_day(slots, d) && forall|i: int|
            0 <= i < rows.len() && (#[trigger] rows[i]).occurrence_on.days == d ==> has_room(
                rows[i],
                newer,
                older,
                own,
            )
}

/// Whether the adjustments of a day are lost.
pub open spec fn is_lost(
    rows: Seq<Adjustment>,
    newer: Seq<i64>,
    older: Seq<i64>,
    own: Seq<Adjustment>,
    slots: Seq<Date>,
) -> spec_fn(i64) -> bool {
    |d: i64| !goes_back(rows, newer, older, own, slots)(d)
}

/// What becomes of the adjustments of an undone change, by day.
#[derive(Debug, Clone)]
pub struct Returned {
    pub carried_back: Vec<i64>,
    pub lost: Vec<i64>,
}

/// Whether adjustments return so, by the slots the earlier part's rule has.
pub open spec fn is_returned(
    x: Returned,
    rows: Seq<Adjustment>,
    newer: Seq<i64>,
    older: Seq<i64>,
    own: Seq<Adjustment>,
    slots: Seq<Date>,
) -> bool {
    &&& x.carried_back@ == days_where(
        adjusted_days(rows),
        goes_back(rows, newer, older, own, slots),
    )
    &&& x.lost@ == days_where(adjusted_days(rows), is_lost(rows, newer, older, own, slots))
}

/// The place of an id, past the end where it is not there.
pub fn find_id(ids: &Vec<i64>, id: i64) -> (r: usize)
    ensures
        r == id_place(ids@, id),
        r <= ids@.len(),
{
    let mut i: usize = 0;
    while i < ids.len()
        invariant
            i <= ids@.len(),
            forall|j: int| 0 <= j < i ==> !#[trigger] is_id(ids@, id)(j),
        decreases ids@.len() - i,
    {
        if ids[i] == id {
            proof {
                lemma_first(ids@.len() as int, is_id(ids@, id), i as int);
            }
            return i;
        }
        i = i + 1;
    }
    proof {
        lemma_first(ids@.len() as int, is_id(ids@, id), i as int);
    }
    i
}

fn adjusted(rows: &Vec<Adjustment>, id: i64, d: i64) -> (r: bool)
    ensures
        r == is_adjusted(rows@, id, d),
{
    let mut i: usize = 0;
    while i < rows.len()
        invariant
            i <= rows@.len(),
            forall|j: int|
                0 <= j < i ==> !((#[trigger] rows@[j]).series_id == id
                    && rows@[j].occurrence_on.days == d),
        decreases rows@.len() - i,
    {
        if rows[i].series_id == id && rows[i].occurrence_on.days as i64 == d {
            assert(rows@[i as int].series_id == id);
            return true;
        }
        i = i + 1;
    }
    false
}

fn fits(
    rows: &Vec<Adjustment>,
    newer: &Vec<i64>,
    older: &Vec<i64>,
    own: &Vec<Adjustment>,
    slots: &Vec<Date>,
    d: i64,
) -> (r: bool)
    ensures
        r == goes_back(rows@, newer@, older@, own@, slots@)(d),
{
    if !contains_day(slots, d) {
        return false;
    }
    let mut i: usize = 0;
    while i < rows.len()
        invariant
            i <= rows@.len(),
            has_day(slots@, d),
            forall|j: int|
                0 <= j < i && (#[trigger] rows@[j]).occurrence_on.days == d ==> has_room(
                    rows@[j],
                    newer@,
                    older@,
                    own@,
                ),
        decreases rows@.len() - i,
    {
        if rows[i].occurrence_on.days as i64 == d {
            let k: usize = find_id(newer, rows[i].series_id);
            let room = k < newer.len() && k < older.len() && !adjusted(own, older[k], d);
            assert(room == has_room(rows@[i as int], newer@, older@, own@));
            if !room {
                return false;
            }
        }
        i = i + 1;
    }
    true
}

/// What becomes of the adjustments of an undone change, given the slots the earlier part's rule has
/// among their days. `newer` and `older` are the hops of the change and of the earlier part, `own`
/// the earlier part's own adjustments.
pub fn returned(
    rows: &Vec<Adjustment>,
    newer: &Vec<i64>,
    older: &Vec<i64>,
    own: &Vec<Adjustment>,
    slots: &Vec<Date>,
) -> (r: Returned)
    ensures
        is_returned(r, rows@, newer@, older@, own@, slots@),
{
    let days = collect_adjusted_days(rows);
    let mut carried_back: Vec<i64> = Vec::new();
    let mut lost: Vec<i64> = Vec::new();
    let mut i: usize = 0;
    assert(days@.take(0) =~= Seq::<i64>::empty());
    while i < days.len()
        invariant
            i <= days@.len(),
            carried_back@ == days_where(
                days@.take(i as int),
                goes_back(rows@, newer@, older@, own@, slots@),
            ),
            lost@ == days_where(
                days@.take(i as int),
                is_lost(rows@, newer@, older@, own@, slots@),
            ),
        decreases days@.len() - i,
    {
        assert(days@.take(i + 1).drop_last() =~= days@.take(i as int));
        if fits(rows, newer, older, own, slots, days[i]) {
            carried_back.push(days[i]);
        } else {
            lost.push(days[i]);
        }
        i = i + 1;
    }
    assert(days@.take(days@.len() as int) =~= days@);
    Returned { carried_back, lost }
}

/// The rows that cancel one of some rows inside a what-if.
pub open spec fn cancels_of(hops: Seq<Hop>, ids: Seq<i64>) -> Seq<i64>
    decreases hops.len(),
{
    if hops.len() == 0 {
        Seq::empty()
    } else {
        let rest = cancels_of(hops.drop_last(), ids);
        if hops.last().supersedes_id matches Some(s) && ids.contains(s) {
            rest.push(hops.last().id)
        } else {
            rest
        }
    }
}

fn collect_cancels(hops: &Vec<Hop>, ids: &Vec<i64>) -> (r: Vec<i64>)
    ensures
        r@ == cancels_of(hops@, ids@),
{
    let mut out: Vec<i64> = Vec::new();
    let mut i: usize = 0;
    assert(hops@.take(0) =~= Seq::<Hop>::empty());
    while i < hops.len()
        invariant
            i <= hops@.len(),
            out@ == cancels_of(hops@.take(i as int), ids@),
        decreases hops@.len() - i,
    {
        assert(hops@.take(i + 1).drop_last() =~= hops@.take(i as int));
        if let Some(s) = hops[i].supersedes_id {
            if holds(ids, s) {
                out.push(hops[i].id);
            }
        }
        i = i + 1;
    }
    assert(hops@.take(hops@.len() as int) =~= hops@);
    out
}

/// How a change is undone.
#[derive(Debug, Clone)]
pub struct Undo {
    /// The rows of the earlier part, which run on.
    pub restored: Vec<i64>,
    /// Until when they do.
    pub until_on: Option<Date>,
    /// The rows of the change, which go.
    pub removed: Vec<i64>,
    pub carried_back: Vec<i64>,
    pub lost: Vec<i64>,
    /// The cancels made against the change, which now name the earlier part's first row.
    pub repointed: Vec<i64>,
    pub repointed_to: i64,
}

/// Whether a change is undone so, by what an expander answers of the earlier part's slots. A rule
/// that does not expand has none.
pub open spec fn undoes<R: Recurrence>(
    u: Undo,
    recur: R,
    hops: Seq<Hop>,
    parts: Seq<Seq<int>>,
    rows: Seq<Adjustment>,
    own: Seq<Adjustment>,
) -> bool {
    let newer = parts.last();
    let older = parts[parts.len() - 2];
    let q = hops[older[0]];
    let days = adjusted_days(rows);
    &&& u.restored@ == part_rows(hops, older)
    &&& u.until_on == hops[newer[0]].until_on
    &&& u.removed@ == part_rows(hops, newer)
    &&& u.repointed@ == cancels_of(hops, part_rows(hops, newer))
    &&& u.repointed_to == q.id
    &&& exists|x: Returned, slots: Seq<Date>|
        #![trigger is_returned(x, rows, part_rows(hops, newer), part_rows(hops, older), own, slots)]
        is_returned(x, rows, part_rows(hops, newer), part_rows(hops, older), own, slots)
            && u.carried_back@ == x.carried_back@ && u.lost@ == x.lost@ && slots_known(
            recur,
            q,
            days,
            slots,
        )
}

/// Whether slots are those an expander gives for a row's rule over some days, none where there are no
/// days or the rule does not expand.
pub open spec fn slots_known<R: Recurrence>(recur: R, q: Hop, days: Seq<i64>, slots: Seq<Date>) -> bool {
    if days.len() == 0 {
        slots.len() == 0
    } else {
        exists|a: Answer|
            #![trigger answers(recur, slots_ask(q.rrule@, q.dtstart, days[0], days.last()), a)]
            answers(recur, slots_ask(q.rrule@, q.dtstart, days[0], days.last()), a) && slots == (
            match a {
                Ok(v) => v,
                Err(_) => Seq::empty(),
            })
    }
}

fn earlier_slots<R: Recurrence>(recur: &R, q: &Hop, days: &Vec<i64>) -> (r: Vec<Date>)
    requires
        are_days(days@),
    ensures
        slots_known(*recur, *q, days@, r@),
{
    let n: usize = days.len();
    if n == 0 {
        return Vec::new();
    }
    assert(i32::MIN <= days@[0] <= i32::MAX);
    assert(i32::MIN <= days@[n - 1] <= i32::MAX);
    let lo = Date { days: days[0] as i32 };
    let hi = Date { days: days[n - 1] as i32 };
    let a = put_ask(recur, q.rrule.as_str(), q.dtstart, None, lo, hi);
    assert(answers(
        *recur,
        slots_ask(q.rrule@, q.dtstart, days@[0], days@.last()),
        answer_view(a),
    ));
    match a {
        Ok(v) => v,
        Err(_) => Vec::new(),
    }
}

/// How a rule's newest change is undone. `rows` are the change's adjustments, `own` those of the part
/// before it.
pub fn undo_change<R: Recurrence>(
    recur: &R,
    hops: &Vec<Hop>,
    parts: &Vec<Vec<usize>>,
    rows: &Vec<Adjustment>,
    own: &Vec<Adjustment>,
) -> (r: Undo)
    requires
        parts@.len() >= 2,
        are_parts(place_lists(parts@), hops@.len() as int),
    ensures
        undoes(r, *recur, hops@, place_lists(parts@), rows@, own@),
{
    let n: usize = parts.len();
    let ghost all = place_lists(parts@);
    assert(all[n - 1] == places(parts@[n - 1]@));
    assert(all[n - 1][0] == parts@[n - 1]@[0]);
    assert(all[n - 2] == places(parts@[n - 2]@));
    assert(all[n - 2][0] == parts@[n - 2]@[0]);
    let l = &parts[n - 1];
    let o = &parts[n - 2];
    let removed = ids_of(hops, l);
    let restored = ids_of(hops, o);
    let q = &hops[o[0]];
    let days = collect_adjusted_days(rows);
    proof {
        lemma_adjusted_days(rows@);
    }
    let slots = earlier_slots(recur, q, &days);
    let x = returned(rows, &removed, &restored, own, &slots);
    assert(is_returned(
        x,
        rows@,
        part_rows(hops@, all[n - 1]),
        part_rows(hops@, all[n - 2]),
        own@,
        slots@,
    ));
    let repointed = collect_cancels(hops, &removed);
    Undo {
        until_on: hops[l[0]].until_on,
        repointed_to: q.id,
        restored,
        removed,
        carried_back: x.carried_back,
        lost: x.lost,
        repointed,
    }
}

/// Undoing a change that did not move the rule's end gives the earlier part the end it had before.
pub proof fn law_undoing_a_change_restores_the_end(e: Edit, p: Plan, h: Hop, row: NewRow)
    requires
        is_plan(p, e, p.start),
        e.patch.until_on is None,
        is_new_row(row, h, p),
    ensures
        row.until_on == e.before.until_on,
{
}

/// An undo takes nothing away that was paid: where it is let through, the rule has an earlier part to
/// go back to, and no payment is recorded under the newest one.
pub proof fn law_an_undo_removes_no_recorded_payment(hops: Seq<Hop>, id: i64, claims: Seq<Claim>)
    requires
        undo_refusal(hops, id, claims) is None,
    ensures
        rule_of(hops, id) matches Some(parts) && parts.len() >= 2 && forall|i: int|
            0 <= i < claims.len() ==> !part_rows(hops, parts.last()).contains(
                (#[trigger] claims[i]).series_id,
            ),
{
    let ids = part_rows(hops, rule_of(hops, id)->0.last());
    assert forall|i: int| 0 <= i < claims.len() implies !ids.contains(
        (#[trigger] claims[i]).series_id,
    ) by {
        if ids.contains(claims[i].series_id) {
            lemma_claim_kept(claims, ids, i);
        }
    }
}

proof fn lemma_claim_kept(claims: Seq<Claim>, ids: Seq<i64>, i: int)
    requires
        0 <= i < claims.len(),
        ids.contains(claims[i].series_id),
    ensures
        claims_of(claims, ids).len() > 0,
    decreases claims.len(),
{
    if i < claims.len() - 1 {
        assert(claims.drop_last()[i] == claims[i]);
        lemma_claim_kept(claims.drop_last(), ids, i);
    }
}

/// The parts of a rule never overlap: a part that a change adds starts after the end that the change
/// gives the part before it, and a part that an edit moves starts after the part before it ends.
pub proof fn law_parts_do_not_overlap(e: Edit, p: Plan)
    requires
        days_fit(e),
        plans(RRuleCrate, e, Ok(p)),
    ensures
        p.start.split ==> (e.patch.from_on matches Some(from) && from.days - 1
            < p.after.dtstart.days),
        p.after.dtstart != e.before.dtstart ==> (e.earlier matches Some(Some(u)) ==> u.days
            < p.after.dtstart.days),
{
}

/// A change from a date stays in its rule: the rows it adds go back to the same rows as the part they
/// change.
pub proof fn law_a_change_stays_in_its_rule(p: Plan, h: Hop, row: NewRow, added: Hop)
    requires
        is_new_row(row, h, p),
        added.head_id == Some(row.head_id),
    ensures
        head_of(added) == head_of(h),
{
}

/// Nothing of a change's adjustments goes unaccounted for: the day of each is either carried back or
/// lost, and never both.
pub proof fn law_every_adjustment_is_carried_back_or_lost(
    x: Returned,
    rows: Seq<Adjustment>,
    newer: Seq<i64>,
    older: Seq<i64>,
    own: Seq<Adjustment>,
    slots: Seq<Date>,
    i: int,
)
    requires
        is_returned(x, rows, newer, older, own, slots),
        0 <= i < rows.len(),
    ensures
        ({
            let d = rows[i].occurrence_on.days as i64;
            x.carried_back@.contains(d) != x.lost@.contains(d)
        }),
{
    let d = rows[i].occurrence_on.days as i64;
    let p = goes_back(rows, newer, older, own, slots);
    let q = is_lost(rows, newer, older, own, slots);
    crate::reschedule::lemma_adjusted_day_in(rows, i);
    crate::reschedule::lemma_where_contains(adjusted_days(rows), p, d);
    crate::reschedule::lemma_where_contains(adjusted_days(rows), q, d);
}

} // verus!
