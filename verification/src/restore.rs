//! What is stored of a change from a date, and that undoing it gives back the rows there were.
//!
//! A change ends the rows of the part it is of, adds rows of its own and takes the adjustments of some
//! days along. Undoing it brings adjustments back, gives the earlier rows their end again and takes
//! the added rows away, with whatever adjustments are still theirs. A name or an end that came with
//! the change stays.

use crate::date::Date;
use crate::lists::{lemma_first, lemma_first_is};
use crate::marks::adjustments_of;
use crate::paths::holds;
use crate::recur::{RRuleCrate, Recurrence};
use crate::regroup::{lemma_rule_grows, part_behind, same_place};
use crate::reschedule::{
    adjusted_days, has_day, lemma_adjusted_day_in, lemma_where_contains, Adjustment, Claim,
};
use crate::revise::{days_fit, plans, Edit, Plan};
use crate::rules::{
    are_parts, family, has_row, in_bounds, newest_first, part_rows, rows_of, rule_of, seq_of, Hop,
};
use crate::select::is_edit;
use crate::standing::claims_of;
use crate::undo::{
    cancels_of, find_id, goes_back, has_room, id_place, is_adjusted, is_id, is_lost, is_new_row,
    is_returned, law_parts_do_not_overlap, slots_known, undo_refusal, undoes, NewRow, Returned, Undo,
};
use vstd::prelude::*;

verus! {

/// The row that an adjustment of a row on a day belongs to, once the adjustments of some days have
/// gone from the hops of one part to the matching hops of another.
pub open spec fn home(id: i64, d: i64, days: Seq<i64>, from: Seq<i64>, to: Seq<i64>) -> i64 {
    let k = id_place(from, id);
    if days.contains(d) && k < from.len() && k < to.len() {
        to[k]
    } else {
        id
    }
}

/// The row that an adjustment of a row on a day belongs to, once the adjustments of some days have
/// gone from the hops of one part to the matching hops of another.
pub fn home_of(id: i64, d: i64, days: &Vec<i64>, from: &Vec<i64>, to: &Vec<i64>) -> (r: i64)
    ensures
        r == home(id, d, days@, from@, to@),
{
    let k: usize = find_id(from, id);
    if holds(days, d) && k < from.len() && k < to.len() {
        to[k]
    } else {
        id
    }
}

/// Adjustments once those of some days have gone from the hops of one part to those of another.
pub open spec fn taken_along(
    adjs: Seq<Adjustment>,
    days: Seq<i64>,
    from: Seq<i64>,
    to: Seq<i64>,
) -> Seq<Adjustment> {
    adjs.map_values(
        |a: Adjustment|
            Adjustment {
                series_id: home(a.series_id, a.occurrence_on.days as i64, days, from, to),
                ..a
            },
    )
}

/// Rows once some of them have another end.
pub open spec fn with_end(hops: Seq<Hop>, ids: Seq<i64>, end: Option<Date>) -> Seq<Hop> {
    hops.map_values(
        |h: Hop|
            if ids.contains(h.id) {
                Hop { until_on: end, ..h }
            } else {
                h
            },
    )
}

/// Rows once some of them cancel another row.
pub open spec fn with_target(hops: Seq<Hop>, ids: Seq<i64>, target: i64) -> Seq<Hop> {
    hops.map_values(
        |h: Hop|
            if ids.contains(h.id) {
                Hop { supersedes_id: Some(target), ..h }
            } else {
                h
            },
    )
}

/// Rows without some of them.
pub open spec fn without_rows(hops: Seq<Hop>, ids: Seq<i64>) -> Seq<Hop>
    decreases hops.len(),
{
    if hops.len() == 0 {
        hops
    } else if ids.contains(hops.last().id) {
        without_rows(hops.drop_last(), ids)
    } else {
        without_rows(hops.drop_last(), ids).push(hops.last())
    }
}

/// Adjustments without those of some rows.
pub open spec fn without_adjustments(adjs: Seq<Adjustment>, ids: Seq<i64>) -> Seq<Adjustment>
    decreases adjs.len(),
{
    if adjs.len() == 0 {
        adjs
    } else if ids.contains(adjs.last().series_id) {
        without_adjustments(adjs.drop_last(), ids)
    } else {
        without_adjustments(adjs.drop_last(), ids).push(adjs.last())
    }
}

/// Whether a stored row is one that a change adds.
pub open spec fn is_added(h: Hop, row: NewRow) -> bool {
    &&& h.head_id == Some(row.head_id)
    &&& h.description@ == row.description@
    &&& h.rrule@ == row.rrule@
    &&& h.dtstart == row.dtstart
    &&& h.until_on == row.until_on
    &&& h.weekend_rule@ == row.weekend_rule@
    &&& h.supersedes_id is None
}

/// The rows stored once a change is made: those of the part it is of end, and its own are added.
pub open spec fn split_rows(hops: Seq<Hop>, older: Seq<i64>, end: Date, added: Seq<Hop>) -> Seq<Hop> {
    with_end(hops, older, Some(end)) + added
}

/// The rows stored once a change is undone.
pub open spec fn undone_rows(hops: Seq<Hop>, u: Undo) -> Seq<Hop> {
    without_rows(
        with_end(with_target(hops, u.repointed@, u.repointed_to), u.restored@, u.until_on),
        u.removed@,
    )
}

/// The adjustments stored once a change is undone.
pub open spec fn undone_adjustments(adjs: Seq<Adjustment>, u: Undo) -> Seq<Adjustment> {
    without_adjustments(
        taken_along(adjs, u.carried_back@, u.removed@, u.restored@),
        u.removed@,
    )
}

/// Whether ids are new to the book: no row has one, is of a chain under one, cancels one, or is
/// adjusted under one.
pub open spec fn are_new(ids: Seq<i64>, hops: Seq<Hop>, adjs: Seq<Adjustment>) -> bool {
    &&& forall|i: int|
        0 <= i < hops.len() ==> !ids.contains((#[trigger] hops[i]).id) && !ids.contains(
            family(hops[i]),
        )
    &&& forall|i: int|
        0 <= i < hops.len() ==> ((#[trigger] hops[i]).supersedes_id matches Some(s)
            ==> !ids.contains(s))
    &&& forall|i: int| 0 <= i < adjs.len() ==> !ids.contains((#[trigger] adjs[i]).series_id)
}

/// Whether no id stands twice.
pub open spec fn are_distinct(ids: Seq<i64>) -> bool {
    forall|i: int, j: int| 0 <= i < j < ids.len() ==> ids[i] != ids[j]
}

proof fn lemma_id_place(ids: Seq<i64>, id: i64)
    ensures
        0 <= id_place(ids, id) <= ids.len(),
        id_place(ids, id) < ids.len() ==> ids[id_place(ids, id)] == id,
        id_place(ids, id) < ids.len() <==> ids.contains(id),
{
    lemma_first_is(ids.len() as int, is_id(ids, id));
    let k = id_place(ids, id);
    if k < ids.len() {
        assert(is_id(ids, id)(k));
        assert(ids[k] == id);
    }
    if ids.contains(id) {
        let j = choose|j: int| 0 <= j < ids.len() && ids[j] == id;
        assert(is_id(ids, id)(j));
    }
}

proof fn lemma_place_of_one(ids: Seq<i64>, k: int)
    requires
        are_distinct(ids),
        0 <= k < ids.len(),
    ensures
        id_place(ids, ids[k]) == k,
{
    assert forall|j: int| 0 <= j < k implies !#[trigger] is_id(ids, ids[k])(j) by {
        assert(ids[j] != ids[k]);
    }
    lemma_first(ids.len() as int, is_id(ids, ids[k]), k);
}

/// An adjustment of some rows is one that belongs to one of them.
proof fn lemma_picked(adjs: Seq<Adjustment>, ids: Seq<i64>, i: int) -> (j: int)
    requires
        0 <= i < adjustments_of(adjs, ids).len(),
    ensures
        0 <= j < adjs.len(),
        adjs[j] == adjustments_of(adjs, ids)[i],
        ids.contains(adjs[j].series_id),
    decreases adjs.len(),
{
    let rest = adjs.drop_last();
    if i < adjustments_of(rest, ids).len() {
        let j = lemma_picked(rest, ids, i);
        assert(rest[j] == adjs[j]);
        j
    } else {
        adjs.len() - 1
    }
}

/// An adjustment that belongs to one of some rows is one of theirs.
proof fn lemma_kept(adjs: Seq<Adjustment>, ids: Seq<i64>, j: int) -> (i: int)
    requires
        0 <= j < adjs.len(),
        ids.contains(adjs[j].series_id),
    ensures
        0 <= i < adjustments_of(adjs, ids).len(),
        adjustments_of(adjs, ids)[i] == adjs[j],
    decreases adjs.len(),
{
    let rest = adjs.drop_last();
    if j < rest.len() {
        assert(rest[j] == adjs[j]);
        lemma_kept(rest, ids, j)
    } else {
        adjustments_of(adjs, ids).len() - 1
    }
}

proof fn lemma_none_taken(adjs: Seq<Adjustment>, ids: Seq<i64>)
    requires
        forall|i: int| 0 <= i < adjs.len() ==> !ids.contains((#[trigger] adjs[i]).series_id),
    ensures
        without_adjustments(adjs, ids) == adjs,
    decreases adjs.len(),
{
    if adjs.len() > 0 {
        let rest = adjs.drop_last();
        assert forall|i: int| 0 <= i < rest.len() implies !ids.contains(
            (#[trigger] rest[i]).series_id,
        ) by {
            assert(rest[i] == adjs[i]);
        }
        lemma_none_taken(rest, ids);
        assert(!ids.contains(adjs[adjs.len() - 1].series_id));
        assert(rest.push(adjs.last()) =~= adjs);
    }
}

/// Taking away added rows leaves those before them.
proof fn lemma_added_go(hops: Seq<Hop>, added: Seq<Hop>, ids: Seq<i64>)
    requires
        forall|i: int| 0 <= i < hops.len() ==> !ids.contains((#[trigger] hops[i]).id),
        forall|i: int| 0 <= i < added.len() ==> ids.contains((#[trigger] added[i]).id),
    ensures
        without_rows(hops + added, ids) == hops,
    decreases hops.len() + added.len(),
{
    let all = hops + added;
    if added.len() > 0 {
        let fewer = added.drop_last();
        assert forall|i: int| 0 <= i < fewer.len() implies ids.contains((#[trigger] fewer[i]).id) by {
            assert(fewer[i] == added[i]);
        }
        lemma_added_go(hops, fewer, ids);
        assert(all.drop_last() =~= hops + fewer);
        assert(ids.contains(added[added.len() - 1].id));
        assert(all.last() == added[added.len() - 1]);
    } else if hops.len() > 0 {
        let rest = hops.drop_last();
        assert forall|i: int| 0 <= i < rest.len() implies !ids.contains((#[trigger] rest[i]).id) by {
            assert(rest[i] == hops[i]);
        }
        lemma_added_go(rest, added, ids);
        assert(all =~= hops);
        assert(rest + added =~= rest);
        assert(all.drop_last() =~= rest);
        assert(!ids.contains(hops[hops.len() - 1].id));
        assert(rest.push(hops.last()) =~= hops);
    } else {
        assert(all =~= hops);
    }
}

proof fn lemma_no_cancels(hops: Seq<Hop>, ids: Seq<i64>)
    requires
        forall|i: int|
            0 <= i < hops.len() ==> ((#[trigger] hops[i]).supersedes_id matches Some(s)
                ==> !ids.contains(s)),
    ensures
        cancels_of(hops, ids).len() == 0,
    decreases hops.len(),
{
    if hops.len() > 0 {
        let rest = hops.drop_last();
        assert forall|i: int| 0 <= i < rest.len() implies ((#[trigger] rest[i]).supersedes_id matches
            Some(s) ==> !ids.contains(s)) by {
            assert(rest[i] == hops[i]);
        }
        lemma_no_cancels(rest, ids);
        assert(hops.last() == hops[hops.len() - 1]);
    }
}

/// A change from a date that was made: the row it was asked of, the plan it carried out, the rows it
/// ended and added, and the days whose adjustments went along.
pub struct Made {
    pub row: i64,
    pub edit: Edit,
    pub plan: Plan,
    pub older: Seq<i64>,
    /// The day the part it is of ends on since.
    pub end: Date,
    pub rows: Seq<NewRow>,
    pub added: Seq<Hop>,
    pub newer: Seq<i64>,
    pub days: Seq<i64>,
}

/// Whether a change was made so in a book: it is what an edit of the newest part of a rule comes to,
/// the part's rows ended together and end the day before it since, and each row it added is the one
/// it gives for the matching hop, under an id of its own.
pub open spec fn was_made(m: Made, hops: Seq<Hop>, adjs: Seq<Adjustment>) -> bool {
    let parts = rule_of(hops, m.row)->0;
    &&& rule_of(hops, m.row) is Some
    &&& is_edit(m.edit, hops, parts, m.edit.patch, m.edit.accounts@)
    &&& days_fit(m.edit)
    &&& plans(RRuleCrate, m.edit, Ok(m.plan))
    &&& m.plan.start.split
    &&& m.edit.patch.from_on matches Some(from) && m.end.days == from.days - 1
    &&& m.older == part_rows(hops, parts.last())
    &&& forall|i: int|
        0 <= i < hops.len() && m.older.contains((#[trigger] hops[i]).id) ==> hops[i].until_on
            == m.edit.before.until_on
    &&& m.newer.len() == m.older.len()
    &&& m.rows.len() == m.newer.len()
    &&& m.added.len() == m.newer.len()
    &&& forall|k: int|
        0 <= k < m.added.len() ==> is_added(#[trigger] m.added[k], m.rows[k]) && m.added[k].id
            == m.newer[k] && is_new_row(m.rows[k], hops[parts.last()[k]], m.plan)
    &&& are_one_part(m.added)
    &&& are_distinct(m.newer)
    &&& are_new(m.newer, hops, adjs)
}

/// Whether rows are one part: a plain row, or the hops of a chain under its first row, in order.
pub open spec fn are_one_part(rows: Seq<Hop>) -> bool {
    forall|k: int|
        0 <= k < rows.len() ==> family(#[trigger] rows[k]) == rows[0].id && seq_of(rows[k]) == k
}

/// Whether a change gives its rule another name.
pub open spec fn is_renamed(m: Made) -> bool {
    m.plan.after.description@ != m.edit.before.description@
}

/// The rows once the whole rule of a change has the name it gives.
pub open spec fn named(m: Made, hops: Seq<Hop>) -> Seq<Hop> {
    let ids = rows_of(hops, rule_of(hops, m.row)->0);
    if is_renamed(m) {
        hops.map_values(
            |h: Hop|
                if ids.contains(h.id) {
                    Hop { description: m.plan.after.description, ..h }
                } else {
                    h
                },
        )
    } else {
        hops
    }
}

/// The rows stored once a change was made.
pub open spec fn rows_after(m: Made, hops: Seq<Hop>) -> Seq<Hop> {
    split_rows(named(m, hops), m.older, m.end, m.added)
}

/// The adjustments stored once a change was made.
pub open spec fn adjustments_after(m: Made, adjs: Seq<Adjustment>) -> Seq<Adjustment> {
    taken_along(adjs, m.days, m.older, m.newer)
}

/// Whether the two newest parts of a rule are the one that a change is of and the one it added.
spec fn parts_after(m: Made, hops: Seq<Hop>, parts: Seq<Seq<int>>) -> bool {
    let now = rows_after(m, hops);
    let older = parts[parts.len() - 2];
    &&& parts.len() >= 2
    &&& part_rows(now, parts.last()) == m.newer
    &&& part_rows(now, older) == m.older
    &&& parts.last().len() > 0
    &&& hops.len() <= parts.last()[0] < now.len()
    &&& forall|k: int| 0 <= k < older.len() ==> 0 <= #[trigger] older[k] < hops.len()
}

/// A rule that a change was made of has one part more, which the rows it added make up; whatever of
/// the rows' names and ends changed, the parts before it are those there were.
pub proof fn law_a_change_adds_one_part(hops: Seq<Hop>, adjs: Seq<Adjustment>, m: Made, id: i64)
    requires
        was_made(m, hops, adjs),
        m.newer.contains(id),
    ensures
        rule_of(rows_after(m, hops), id) == Some(
            (rule_of(hops, m.row)->0).push(part_behind(rows_after(m, hops), hops)),
        ),
        part_rows(rows_after(m, hops), part_behind(rows_after(m, hops), hops)) == m.newer,
        part_rows(rows_after(m, hops), (rule_of(hops, m.row)->0).last()) == m.older,
        (rule_of(hops, m.row)->0).len() > 0,
        are_parts(rule_of(hops, m.row)->0, hops.len() as int),
{
    let now = rows_after(m, hops);
    let parts = rule_of(hops, m.row)->0;
    let new = part_behind(now, hops);
    let n = hops.len() as int;
    assert forall|i: int| 0 <= i < hops.len() implies same_place(#[trigger] now[i], hops[i]) by {
        assert(named(m, hops)[i].id == hops[i].id);
    }
    let t = choose|t: int| 0 <= t < m.newer.len() && m.newer[t] == id;
    assert(is_added(m.added[0], m.rows[0]));
    assert(m.newer[0] == m.added[0].id);
    assert(m.newer.contains(m.newer[0]));
    assert forall|i: int| n <= i < now.len() implies family(#[trigger] now[i]) == m.newer[0]
        && seq_of(now[i]) == i - n by {
        assert(now[i] == m.added[i - n]);
    }
    assert(now[n] == m.added[0]);
    assert(new[0] == n);
    assert(now[new[t]] == m.added[t]);
    assert(is_added(m.added[t], m.rows[t]));
    assert(has_row(now, new, id));
    law_parts_do_not_overlap(m.edit, m.plan);
    lemma_rule_grows(now, hops, m.newer[0], m.row, id);
    assert(parts.last() == parts[parts.len() - 1]);
    let last = parts[parts.len() - 1];
    assert(last.len() > 0 && in_bounds(last, n));
    assert(part_rows(now, new) =~= m.newer) by {
        assert forall|k: int| 0 <= k < new.len() implies part_rows(now, new)[k] == m.newer[k] by {
            assert(now[new[k]] == m.added[k]);
            assert(is_added(m.added[k], m.rows[k]));
        }
    }
    assert(part_rows(now, last) =~= m.older) by {
        assert forall|k: int| 0 <= k < last.len() implies part_rows(now, last)[k] == m.older[k] by {
            assert(0 <= last[k] < n);
            assert(same_place(now[last[k]], hops[last[k]]));
        }
    }
}

/// Whether the rule of a row has every day that adjustments went along on, whatever the expander
/// answers.
pub open spec fn has_every_slot<R: Recurrence>(
    recur: R,
    q: Hop,
    m: Made,
    adjs: Seq<Adjustment>,
) -> bool {
    let rows = adjustments_of(adjustments_after(m, adjs), m.newer);
    forall|slots: Seq<Date>, i: int|
        #![trigger slots_known(recur, q, adjusted_days(rows), slots), adjs[i]]
        slots_known(recur, q, adjusted_days(rows), slots) && 0 <= i < adjs.len()
            && m.older.contains(adjs[i].series_id) && m.days.contains(
            adjs[i].occurrence_on.days as i64,
        ) ==> has_day(slots, adjs[i].occurrence_on.days as i64)
}

/// Undoing a change from a date gives back the very rows there were before it, but for a name or an
/// end that came with it: where nothing was paid under it, and each adjustment that went along sits on
/// a day the earlier rule has. The change is found again by any row that it added.
pub proof fn law_undoing_a_split_gives_back_the_rows_there_were(
    hops: Seq<Hop>,
    adjs: Seq<Adjustment>,
    claims: Seq<Claim>,
    m: Made,
    id: i64,
    u: Undo,
)
    requires
        was_made(m, hops, adjs),
        m.newer.contains(id),
        claims_of(claims, m.newer).len() == 0,
        has_every_slot(
            RRuleCrate,
            newest_first(rows_after(m, hops), rule_of(hops, m.row)->0),
            m,
            adjs,
        ),
        undoes(
            u,
            RRuleCrate,
            rows_after(m, hops),
            rule_of(rows_after(m, hops), id)->0,
            adjustments_of(adjustments_after(m, adjs), m.newer),
            adjustments_of(adjustments_after(m, adjs), m.older),
        ),
    ensures
        undo_refusal(rows_after(m, hops), id, claims) is None,
        u.removed@ == m.newer,
        u.lost@.len() == 0,
        undone_rows(rows_after(m, hops), u) == with_end(
            named(m, hops),
            m.older,
            m.plan.after.until_on,
        ),
        !is_renamed(m) && m.edit.patch.until_on is None ==> undone_rows(rows_after(m, hops), u)
            == hops,
        undone_adjustments(adjustments_after(m, adjs), u) == adjs,
{
    let now = rows_after(m, hops);
    let before = rule_of(hops, m.row)->0;
    let new = part_behind(now, hops);
    let parts = before.push(new);
    law_a_change_adds_one_part(hops, adjs, m, id);
    let t = choose|t: int| 0 <= t < m.newer.len() && m.newer[t] == id;
    assert(part_rows(now, new)[t] == now[new[t]].id);
    assert(has_row(now, new, id));
    assert(parts[parts.len() - 2] == before[before.len() - 1]);
    assert(in_bounds(before[before.len() - 1], hops.len() as int));
    assert(parts_after(m, hops, parts));
    lemma_rows_given_back(RRuleCrate, hops, adjs, m, parts, u);
    lemma_adjustments_given_back(RRuleCrate, hops, adjs, m, parts, u);
    let back = with_end(named(m, hops), m.older, m.plan.after.until_on);
    if !is_renamed(m) && m.edit.patch.until_on is None {
        assert forall|i: int| 0 <= i < hops.len() implies back[i] == hops[i] by {
            if m.older.contains(hops[i].id) {
                assert(hops[i].until_on == m.edit.before.until_on);
            }
        }
        assert(back =~= hops);
    }
}

proof fn lemma_rows_given_back<R: Recurrence>(
    recur: R,
    hops: Seq<Hop>,
    adjs: Seq<Adjustment>,
    m: Made,
    parts: Seq<Seq<int>>,
    u: Undo,
)
    requires
        was_made(m, hops, adjs),
        parts_after(m, hops, parts),
        undoes(
            u,
            recur,
            rows_after(m, hops),
            parts,
            adjustments_of(adjustments_after(m, adjs), m.newer),
            adjustments_of(adjustments_after(m, adjs), m.older),
        ),
    ensures
        undone_rows(rows_after(m, hops), u) == with_end(
            named(m, hops),
            m.older,
            m.plan.after.until_on,
        ),
{
    let now = rows_after(m, hops);
    let was = named(m, hops);
    let k = parts.last()[0] - hops.len();
    assert(now[parts.last()[0]] == m.added[k]);
    assert(is_added(m.added[k], m.rows[k]));
    assert(u.until_on == m.plan.after.until_on);
    assert forall|i: int| 0 <= i < was.len() implies (#[trigger] was[i]).id == hops[i].id
        && was[i].supersedes_id == hops[i].supersedes_id by {}
    assert forall|i: int| 0 <= i < now.len() implies ((#[trigger] now[i]).supersedes_id matches Some(
        s,
    ) ==> !m.newer.contains(s)) by {
        if i < hops.len() {
            assert(now[i].supersedes_id == was[i].supersedes_id);
            assert(was[i].supersedes_id == hops[i].supersedes_id);
        } else {
            assert(now[i] == m.added[i - hops.len()]);
            assert(is_added(m.added[i - hops.len()], m.rows[i - hops.len()]));
        }
    }
    lemma_no_cancels(now, m.newer);
    assert(with_target(now, u.repointed@, u.repointed_to) =~= now);
    let ended = with_end(now, m.older, u.until_on);
    let head = with_end(was, m.older, u.until_on);
    let tail = with_end(m.added, m.older, u.until_on);
    assert forall|i: int| 0 <= i < ended.len() implies ended[i] == (head + tail)[i] by {
        if i < hops.len() {
            assert(now[i].id == was[i].id);
        } else {
            assert(now[i] == m.added[i - hops.len()]);
        }
    }
    assert(ended =~= head + tail);
    assert forall|i: int| 0 <= i < head.len() implies !m.newer.contains((#[trigger] head[i]).id) by {
        assert(head[i].id == was[i].id);
        assert(was[i].id == hops[i].id);
    }
    assert forall|i: int| 0 <= i < tail.len() implies m.newer.contains((#[trigger] tail[i]).id) by {
        assert(is_added(m.added[i], m.rows[i]));
        assert(tail[i].id == m.added[i].id);
        assert(m.newer[i] == tail[i].id);
    }
    lemma_added_go(head, tail, m.newer);
}

proof fn lemma_adjustments_given_back<R: Recurrence>(
    recur: R,
    hops: Seq<Hop>,
    adjs: Seq<Adjustment>,
    m: Made,
    parts: Seq<Seq<int>>,
    u: Undo,
)
    requires
        was_made(m, hops, adjs),
        parts_after(m, hops, parts),
        has_every_slot(recur, rows_after(m, hops)[parts[parts.len() - 2][0]], m, adjs),
        undoes(
            u,
            recur,
            rows_after(m, hops),
            parts,
            adjustments_of(adjustments_after(m, adjs), m.newer),
            adjustments_of(adjustments_after(m, adjs), m.older),
        ),
    ensures
        u.lost@.len() == 0,
        undone_adjustments(adjustments_after(m, adjs), u) == adjs,
{
    let now = rows_after(m, hops);
    let after = adjustments_after(m, adjs);
    let rows = adjustments_of(after, m.newer);
    let own = adjustments_of(after, m.older);
    let older = parts[parts.len() - 2];
    let q = now[older[0]];
    let (x, slots) = choose|x: Returned, slots: Seq<Date>|
        #![trigger is_returned(x, rows, m.newer, m.older, own, slots)]
        is_returned(x, rows, m.newer, m.older, own, slots) && u.carried_back@ == x.carried_back@
            && u.lost@ == x.lost@ && slots_known(recur, q, adjusted_days(rows), slots);
    assert forall|k: int| 0 <= k < m.older.len() implies !m.newer.contains(
        #[trigger] m.older[k],
    ) by {
        assert(part_rows(now, older)[k] == now[older[k]].id);
        assert(now[older[k]].id == named(m, hops)[older[k]].id);
        assert(named(m, hops)[older[k]].id == hops[older[k]].id);
    }
    let goes = goes_back(rows, m.newer, m.older, own, slots);
    let lost = is_lost(rows, m.newer, m.older, own, slots);
    assert forall|d: i64| adjusted_days(rows).contains(d) implies goes(d) by {
        let t = lemma_adjusted_day_from(rows, d);
        let j = lemma_picked(after, m.newer, t);
        lemma_went(m, adjs, j);
        assert(adjs[j].occurrence_on == rows[t].occurrence_on);
        assert(has_day(slots, adjs[j].occurrence_on.days as i64));
        lemma_goes(m, adjs, slots, d);
    }
    if u.lost@.len() > 0 {
        let d = u.lost@[0];
        assert(u.lost@.contains(d));
        lemma_where_contains(adjusted_days(rows), lost, d);
    }
    let back = taken_along(after, u.carried_back@, m.newer, m.older);
    assert forall|i: int| 0 <= i < adjs.len() implies back[i] == #[trigger] adjs[i] by {
        let d = adjs[i].occurrence_on.days as i64;
        lemma_went(m, adjs, i);
        lemma_id_place(m.newer, after[i].series_id);
        if m.newer.contains(after[i].series_id) {
            let k = id_place(m.older, adjs[i].series_id);
            lemma_place_of_one(m.newer, k);
            let t = lemma_kept(after, m.newer, i);
            lemma_adjusted_day_in(rows, t);
            lemma_where_contains(adjusted_days(rows), goes, d);
        }
    }
    assert(back =~= adjs);
    lemma_none_taken(back, m.newer);
}

/// An adjustment is one of the added rows exactly where it went along, and then of the matching hop.
proof fn lemma_went(m: Made, adjs: Seq<Adjustment>, i: int)
    requires
        0 <= i < adjs.len(),
        m.older.len() == m.newer.len(),
        !m.newer.contains(adjs[i].series_id),
    ensures
        ({
            let now = adjustments_after(m, adjs)[i];
            let k = id_place(m.older, adjs[i].series_id);
            let went = m.days.contains(adjs[i].occurrence_on.days as i64) && m.older.contains(
                adjs[i].series_id,
            );
            &&& now.occurrence_on == adjs[i].occurrence_on
            &&& m.newer.contains(now.series_id) <==> went
            &&& went ==> 0 <= k < m.newer.len() && m.older[k] == adjs[i].series_id && now.series_id
                == m.newer[k]
            &&& !went ==> now == adjs[i]
        }),
{
    lemma_id_place(m.older, adjs[i].series_id);
    let k = id_place(m.older, adjs[i].series_id);
    if m.older.contains(adjs[i].series_id) {
        assert(m.newer.contains(m.newer[k]));
    }
}

/// The adjustments of a day that the earlier rule has go back, where they went along: no other was
/// left on the rows they come from.
proof fn lemma_goes(m: Made, adjs: Seq<Adjustment>, slots: Seq<Date>, d: i64)
    requires
        m.older.len() == m.newer.len(),
        forall|i: int| 0 <= i < adjs.len() ==> !m.newer.contains((#[trigger] adjs[i]).series_id),
        forall|k: int| 0 <= k < m.older.len() ==> !m.newer.contains(#[trigger] m.older[k]),
        has_day(slots, d),
    ensures
        goes_back(
            adjustments_of(adjustments_after(m, adjs), m.newer),
            m.newer,
            m.older,
            adjustments_of(adjustments_after(m, adjs), m.older),
            slots,
        )(d),
{
    let after = adjustments_after(m, adjs);
    let rows = adjustments_of(after, m.newer);
    let own = adjustments_of(after, m.older);
    assert forall|t: int|
        0 <= t < rows.len() && (#[trigger] rows[t]).occurrence_on.days == d implies has_room(
        rows[t],
        m.newer,
        m.older,
        own,
    ) by {
        let s = lemma_picked(after, m.newer, t);
        lemma_went(m, adjs, s);
        lemma_id_place(m.newer, rows[t].series_id);
        let k = id_place(m.newer, rows[t].series_id);
        if is_adjusted(own, m.older[k], d) {
            let b = choose|b: int|
                0 <= b < own.len() && (#[trigger] own[b]).series_id == m.older[k]
                    && own[b].occurrence_on.days == d;
            let c = lemma_picked(after, m.older, b);
            lemma_went(m, adjs, c);
            assert(!m.newer.contains(m.older[k]));
        }
    }
}

/// A day on which rows are adjusted is that of an adjustment of them.
proof fn lemma_adjusted_day_from(adjs: Seq<Adjustment>, d: i64) -> (i: int)
    requires
        adjusted_days(adjs).contains(d),
    ensures
        0 <= i < adjs.len(),
        adjs[i].occurrence_on.days == d,
    decreases adjs.len(),
{
    if adjs.len() == 0 {
        0
    } else {
        let rest = adjs.drop_last();
        crate::paths::lemma_with_id(adjusted_days(rest), adjs.last().occurrence_on.days as i64);
        if adjs.last().occurrence_on.days == d {
            adjs.len() - 1
        } else {
            assert(adjusted_days(rest).contains(d));
            let i = lemma_adjusted_day_from(rest, d);
            assert(rest[i] == adjs[i]);
            i
        }
    }
}

} // verus!
