//! One rule projected on its own, so that a rule that cannot expand only ever breaks its own row and
//! never the others'.

use crate::date::{year_end, Date};
use crate::forecast::{
    leaves_range, project, projects, some_refused, Override, ProjectError, Projection, Series,
    SeriesPosting, Slot, SlotOverride, Snapshot,
};
use crate::paths::holds;
use crate::recur::Recurrence;
use std::collections::{BTreeMap, HashSet};
use vstd::prelude::*;

verus! {

broadcast use {vstd::std_specs::hash::group_hash_axioms, vstd::string::group_string_axioms};

/// The series of a rule's rows.
pub open spec fn series_of(all: Seq<Series>, ids: Seq<i64>) -> Seq<Series>
    decreases all.len(),
{
    if all.len() == 0 {
        all
    } else if ids.contains(all.last().id) {
        series_of(all.drop_last(), ids).push(all.last())
    } else {
        series_of(all.drop_last(), ids)
    }
}

/// The overrides of a rule's rows.
pub open spec fn overrides_of(all: Seq<SlotOverride>, ids: Seq<i64>) -> Seq<SlotOverride>
    decreases all.len(),
{
    if all.len() == 0 {
        all
    } else if ids.contains(all.last().series_id) {
        overrides_of(all.drop_last(), ids).push(all.last())
    } else {
        overrides_of(all.drop_last(), ids)
    }
}

/// The filled slots of a rule's rows.
pub open spec fn slots_of(all: Seq<Slot>, ids: Seq<i64>) -> Seq<Slot>
    decreases all.len(),
{
    if all.len() == 0 {
        all
    } else if ids.contains(all.last().series_id) {
        slots_of(all.drop_last(), ids).push(all.last())
    } else {
        slots_of(all.drop_last(), ids)
    }
}

/// Whether two series say the same.
pub open spec fn same_series(a: Series, b: Series) -> bool {
    &&& a.id == b.id
    &&& a.description == b.description
    &&& a.rrule == b.rrule
    &&& a.dtstart == b.dtstart
    &&& a.until_on == b.until_on
    &&& a.weekend_rule == b.weekend_rule
    &&& a.scenario_id == b.scenario_id
    &&& a.supersedes_id == b.supersedes_id
    &&& a.chain_id == b.chain_id
    &&& a.chain_seq == b.chain_seq
    &&& a.postings@ == b.postings@
}

/// Whether lists of series say the same.
pub open spec fn same_lists(a: Seq<Series>, b: Seq<Series>) -> bool {
    a.len() == b.len() && forall|i: int| 0 <= i < a.len() ==> same_series(#[trigger] a[i], b[i])
}

/// Whether a snapshot is the part of another that belongs to a rule, and nothing else.
pub open spec fn is_sub(sub: Snapshot, snap: Snapshot, ids: Seq<i64>) -> bool {
    &&& sub.opening@ == Map::<i64, i64>::empty()
    &&& sub.account_currency@ == snap.account_currency@
    &&& sub.account_name@ == snap.account_name@
    &&& same_lists(sub.series@, series_of(snap.series@, ids))
    &&& sub.overrides@ == overrides_of(snap.overrides@, ids)
    &&& sub.claimed@ == slots_of(snap.claimed@, ids)
    &&& sub.holidays@ == snap.holidays@
    &&& sub.interest_rules@.len() == 0
    &&& sub.payment_rules@.len() == 0
}

fn copy_postings(v: &Vec<SeriesPosting>) -> (r: Vec<SeriesPosting>)
    ensures
        r@ == v@,
{
    let mut out: Vec<SeriesPosting> = Vec::new();
    let mut i: usize = 0;
    while i < v.len()
        invariant
            i <= v@.len(),
            out@ == v@.take(i as int),
        decreases v@.len() - i,
    {
        let p = &v[i];
        let q = SeriesPosting {
            account_id: p.account_id,
            currency: p.currency.clone(),
            amount_minor: p.amount_minor,
            role: p.role.clone(),
        };
        assert(q == v@[i as int]);
        assert(v@.take(i + 1) =~= v@.take(i as int).push(q));
        out.push(q);
        i = i + 1;
    }
    assert(v@.take(v@.len() as int) =~= v@);
    out
}

/// A series that says the same.
pub fn copy_series(s: &Series) -> (r: Series)
    ensures
        same_series(r, *s),
{
    Series {
        id: s.id,
        description: s.description.clone(),
        rrule: s.rrule.clone(),
        dtstart: s.dtstart,
        until_on: s.until_on,
        weekend_rule: s.weekend_rule.clone(),
        scenario_id: s.scenario_id,
        supersedes_id: s.supersedes_id,
        chain_id: s.chain_id,
        chain_seq: s.chain_seq,
        postings: copy_postings(&s.postings),
    }
}

fn copy_override(o: &SlotOverride) -> (r: SlotOverride)
    ensures
        r == *o,
{
    let description = match &o.change.description {
        Some(d) => Some(d.clone()),
        None => None,
    };
    SlotOverride {
        series_id: o.series_id,
        occurrence_on: o.occurrence_on,
        change: Override {
            action: o.change.action.clone(),
            moved_to: o.change.moved_to,
            amount_minor: o.change.amount_minor,
            description,
        },
    }
}

fn pick_series(all: &Vec<Series>, ids: &Vec<i64>) -> (r: Vec<Series>)
    ensures
        same_lists(r@, series_of(all@, ids@)),
        r@.len() <= all@.len(),
{
    let mut out: Vec<Series> = Vec::new();
    let mut i: usize = 0;
    assert(all@.take(0) =~= Seq::<Series>::empty());
    while i < all.len()
        invariant
            i <= all@.len(),
            out@.len() <= i,
            same_lists(out@, series_of(all@.take(i as int), ids@)),
        decreases all@.len() - i,
    {
        assert(all@.take(i + 1).drop_last() =~= all@.take(i as int));
        if holds(ids, all[i].id) {
            out.push(copy_series(&all[i]));
        }
        i = i + 1;
    }
    assert(all@.take(all@.len() as int) =~= all@);
    out
}

fn pick_overrides(all: &Vec<SlotOverride>, ids: &Vec<i64>) -> (r: Vec<SlotOverride>)
    ensures
        r@ == overrides_of(all@, ids@),
{
    let mut out: Vec<SlotOverride> = Vec::new();
    let mut i: usize = 0;
    assert(all@.take(0) =~= Seq::<SlotOverride>::empty());
    while i < all.len()
        invariant
            i <= all@.len(),
            out@ == overrides_of(all@.take(i as int), ids@),
        decreases all@.len() - i,
    {
        assert(all@.take(i + 1).drop_last() =~= all@.take(i as int));
        if holds(ids, all[i].series_id) {
            out.push(copy_override(&all[i]));
        }
        i = i + 1;
    }
    assert(all@.take(all@.len() as int) =~= all@);
    out
}

fn pick_slots(all: &Vec<Slot>, ids: &Vec<i64>) -> (r: Vec<Slot>)
    ensures
        r@ == slots_of(all@, ids@),
{
    let mut out: Vec<Slot> = Vec::new();
    let mut i: usize = 0;
    assert(all@.take(0) =~= Seq::<Slot>::empty());
    while i < all.len()
        invariant
            i <= all@.len(),
            out@ == slots_of(all@.take(i as int), ids@),
        decreases all@.len() - i,
    {
        assert(all@.take(i + 1).drop_last() =~= all@.take(i as int));
        if holds(ids, all[i].series_id) {
            out.push(all[i]);
        }
        i = i + 1;
    }
    assert(all@.take(all@.len() as int) =~= all@);
    out
}

fn copy_days(v: &Vec<Date>) -> (r: Vec<Date>)
    ensures
        r@ == v@,
{
    let mut out: Vec<Date> = Vec::new();
    let mut i: usize = 0;
    while i < v.len()
        invariant
            i <= v@.len(),
            out@ == v@.take(i as int),
        decreases v@.len() - i,
    {
        assert(v@.take(i + 1) =~= v@.take(i as int).push(v@[i as int]));
        out.push(v[i]);
        i = i + 1;
    }
    assert(v@.take(v@.len() as int) =~= v@);
    out
}

/// The part of a snapshot that belongs to a rule, and nothing else.
pub fn sub_snapshot(snap: &Snapshot, ids: &Vec<i64>) -> (r: Snapshot)
    ensures
        is_sub(r, *snap, ids@),
        r.series@.len() <= snap.series@.len(),
{
    Snapshot {
        opening: BTreeMap::new(),
        account_currency: snap.account_currency.clone(),
        account_name: snap.account_name.clone(),
        series: pick_series(&snap.series, ids),
        overrides: pick_overrides(&snap.overrides, ids),
        claimed: pick_slots(&snap.claimed, ids),
        holidays: copy_days(&snap.holidays),
        interest_rules: Vec::new(),
        payment_rules: Vec::new(),
    }
}

/// The what-ifs in play: the one a rule belongs to, if any.
pub open spec fn in_play(scenario: Option<i64>) -> Set<i64> {
    match scenario {
        Some(s) => Set::<i64>::empty().insert(s),
        None => Set::empty(),
    }
}

/// Whether an outcome is that of projecting a rule on its own over the coming year.
pub open spec fn projects_rule<R: Recurrence>(
    recur: R,
    sub: Snapshot,
    scenario: Option<i64>,
    as_of: Date,
    r: Result<Projection, ProjectError>,
) -> bool {
    let to = Date { days: year_end(as_of.days as int) as i32 };
    match r {
        Ok(p) => projects(recur, sub, in_play(scenario), as_of, to, p),
        Err(ProjectError::OutOfRange) => leaves_range(recur, sub, in_play(scenario), as_of, to),
        Err(ProjectError::Recur(e)) => some_refused(
            recur,
            sub,
            in_play(scenario),
            as_of,
            to,
            e.text(),
        ),
    }
}

/// Project a rule on its own over the coming year.
pub fn project_rule<R: Recurrence>(
    recur: &R,
    snap: &Snapshot,
    ids: &Vec<i64>,
    scenario: Option<i64>,
    as_of: Date,
) -> (r: (Snapshot, Result<Projection, ProjectError>))
    requires
        as_of.in_range(),
        snap.series@.len() <= i64::MAX,
    ensures
        is_sub(r.0, *snap, ids@),
        projects_rule(*recur, r.0, scenario, as_of, r.1),
{
    let sub = sub_snapshot(snap, ids);
    let mut active: HashSet<i64> = HashSet::new();
    if let Some(s) = scenario {
        active.insert(s);
    }
    assert(active@ =~= in_play(scenario));
    let to = as_of.year_end();
    let p = project(recur, &sub, as_of, to, &active);
    (sub, p)
}

/// Projecting a rule on its own takes in nothing of another rule: each of its series is one of the
/// rule's rows.
pub proof fn law_a_rule_is_projected_alone(sub: Snapshot, snap: Snapshot, ids: Seq<i64>, i: int)
    requires
        is_sub(sub, snap, ids),
        0 <= i < sub.series@.len(),
    ensures
        ids.contains(sub.series@[i].id),
{
    assert(same_series(sub.series@[i], series_of(snap.series@, ids)[i]));
    lemma_series_of(snap.series@, ids, i);
}

proof fn lemma_series_of(all: Seq<Series>, ids: Seq<i64>, i: int)
    requires
        0 <= i < series_of(all, ids).len(),
    ensures
        ids.contains(series_of(all, ids)[i].id),
    decreases all.len(),
{
    if all.len() > 0 && i < series_of(all.drop_last(), ids).len() {
        lemma_series_of(all.drop_last(), ids, i);
    }
}

} // verus!
