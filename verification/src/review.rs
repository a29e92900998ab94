//! Every rule of the book and where it stands: the rules that run, the what-ifs, and what all of it
//! comes to in a month.

use crate::book::Account;
use crate::date::Date;
use crate::forecast::{ProjectError, Projection, Snapshot};
use crate::impact::{point_ons, points, points_in, Point};
use crate::lists::{first, lemma_first};
use crate::marks::{
    are_marked, are_strays, find_strays, first_ids, firsts, is_part_mark, marked, marked_days,
    part_mark, Marked, PartMark, Stray,
};
use crate::paths::{put, with_id};
use crate::recur::Recurrence;
use crate::reschedule::{Adjustment, Claim};
use crate::revise::{answer_view, answers, put_ask, two_years, two_years_on, Answer};
use crate::rules::{
    all_ids, are_parts, are_rules, find_rule, is_cancel, lineage, lineage_of, only_cancels,
    place_lists, places, rows_of, rule_of, rules_of, Hop, Rule,
};
use crate::select::{leg_accounts, WhatIf};
use crate::shape::{is_shape, shape_of, Shape};
use crate::sorting::{rank, ranked, Ranked};
use crate::standing::{
    direction, direction_of, group, group_of, is_recorded, is_schedule, is_yearly, recorded,
    schedule, warning_views, warnings, warnings_of, yearly, Direction, Group, Paid, Recorded,
    Schedule, Warning, Yearly,
};
use crate::sub::{is_sub, project_rule, projects_rule};
use crate::tally::{add_to, in_order, keeps, sum_of, Sum};
use crate::text::{lower, opt_view, str_eq, text_less, text_lt, to_lower};
use vstd::prelude::*;

verus! {

broadcast use vstd::string::group_string_axioms;

/// What a review reads from the book.
pub struct ReviewFacts {
    pub snap: Snapshot,
    pub hops: Vec<Hop>,
    pub accounts: Vec<Account>,
    pub what_ifs: Vec<WhatIf>,
    pub claims: Vec<Claim>,
    pub adjustments: Vec<Adjustment>,
    pub paid: Vec<Paid>,
}

/// The rule that another one replaces or cancels.
#[derive(Debug, Clone)]
pub struct Target {
    pub lineage_id: i64,
    /// Its place among the rules; `None` where it is gone.
    pub at: Option<usize>,
}

/// Whether the rule at a place goes back to a row.
pub open spec fn is_lineage(rules: Seq<Rule>, id: i64) -> spec_fn(int) -> bool {
    |i: int| rules[i].lineage_id == id
}

/// The rule that a row belongs to, the row itself where it is gone.
pub open spec fn lineage_for(hops: Seq<Hop>, id: i64) -> i64 {
    match rule_of(hops, id) {
        Some(parts) => lineage(hops, parts[0]),
        None => id,
    }
}

/// Whether a target is the rule that a row belongs to.
pub open spec fn is_target(t: Target, hops: Seq<Hop>, rules: Seq<Rule>, id: i64) -> bool {
    let l = lineage_for(hops, id);
    let k = first(rules.len() as int, is_lineage(rules, l));
    &&& t.lineage_id == l
    &&& t.at == (if k < rules.len() {
        Some(k as usize)
    } else {
        None
    })
}

fn find_target(hops: &Vec<Hop>, rules: &Vec<Rule>, id: i64) -> (r: Target)
    ensures
        is_target(r, hops@, rules@, id),
{
    let l: i64 = match find_rule(hops, id) {
        Some(parts) => {
            assert(place_lists(parts@)[0] == places(parts@[0]@));
            lineage_of(hops, &parts[0])
        },
        None => id,
    };
    let mut i: usize = 0;
    while i < rules.len()
        invariant
            i <= rules@.len(),
            l == lineage_for(hops@, id),
            forall|j: int| 0 <= j < i ==> !#[trigger] is_lineage(rules@, l)(j),
        decreases rules@.len() - i,
    {
        if rules[i].lineage_id == l {
            proof {
                lemma_first(rules@.len() as int, is_lineage(rules@, l), i as int);
            }
            return Target { lineage_id: l, at: Some(i) };
        }
        i = i + 1;
    }
    proof {
        lemma_first(rules@.len() as int, is_lineage(rules@, l), i as int);
    }
    Target { lineage_id: l, at: None }
}

/// A rule and where it stands.
#[derive(Debug, Clone)]
pub struct RuleReview {
    /// Its place among the rules.
    pub at: usize,
    pub scenario_id: Option<i64>,
    /// Its name in lower case, by which rules are put in order.
    pub sort_name: String,
    pub until_on: Option<Date>,
    /// How many parts it has.
    pub parts: usize,
    pub group: Group,
    pub direction: Direction,
    pub shape: Shape,
    pub first_slot: Option<Date>,
    pub points: Vec<Point>,
    pub schedule: Schedule,
    pub yearly: Yearly,
    pub recorded: Recorded,
    pub marked: Vec<Marked>,
    pub strays: Vec<Stray>,
    pub marks: Vec<PartMark>,
    pub warnings: Vec<Warning>,
    pub failure: Option<String>,
    pub replaces: Option<Target>,
}

/// The day a rule's money moves next.
pub open spec fn next_on(r: RuleReview) -> Option<Seq<char>> {
    if r.schedule.next@.len() > 0 {
        Some(r.schedule.next@[0].value_on@)
    } else {
        None
    }
}

/// Rules that pay again come first, by their next payment, then by name; the others follow by name.
impl Ranked for RuleReview {
    open spec fn before(&self, other: &Self) -> bool {
        let named = text_lt(self.sort_name@, other.sort_name@);
        match (next_on(*self), next_on(*other)) {
            (Some(x), Some(y)) => text_lt(x, y) || (x == y && named),
            (Some(_), None) => true,
            (None, Some(_)) => false,
            (None, None) => named,
        }
    }

    fn comes_before(&self, other: &Self) -> (r: bool) {
        let named = text_less(self.sort_name.as_str(), other.sort_name.as_str());
        let a = self.schedule.next.len() > 0;
        let b = other.schedule.next.len() > 0;
        if a && b {
            let x = self.schedule.next[0].value_on.as_str();
            let y = other.schedule.next[0].value_on.as_str();
            text_less(x, y) || (str_eq(x, y) && named)
        } else if a {
            true
        } else if b {
            false
        } else {
            named
        }
    }
}

/// Why there is no projection, in words.
pub open spec fn failure_of(r: Result<Projection, ProjectError>) -> Option<Seq<char>> {
    match r {
        Ok(_) => None,
        Err(e) => Some(e.text()),
    }
}

/// Whether a rule's forecast is shown: its points, and what it comes to over the coming year, which
/// is nothing where it cannot be projected.
pub open spec fn shows_forecast(
    x: RuleReview,
    sub: Snapshot,
    r: Result<Projection, ProjectError>,
) -> bool {
    &&& point_ons(x.points@) == points_in(sub, r)
    &&& opt_view(x.failure) == failure_of(r)
    &&& match r {
        Ok(p) => is_yearly(x.yearly, sub.series@, p.occurrences@),
        Err(_) => x.yearly.count == 0 && x.yearly.total_minor == 0 && x.yearly.monthly_minor == 0,
    }
}

/// Whether a day is the first that a part pays.
pub open spec fn is_first_slot(d: Option<Date>, a: Answer) -> bool {
    match a {
        Ok(days) => d == (if days.len() > 0 {
            Some(days[0])
        } else {
            None
        }),
        Err(_) => d is None,
    }
}

/// The question what a row pays from its start.
pub open spec fn slot_ask(h: Hop) -> crate::recur::Ask {
    crate::recur::Ask {
        rule: h.rrule@,
        dtstart: h.dtstart,
        until: h.until_on,
        lo: h.dtstart,
        hi: crate::revise::day_at(two_years_on(h.dtstart.days as int)),
    }
}

/// Whether this is where a rule stands.
pub open spec fn is_rule_review<R: Recurrence>(
    x: RuleReview,
    recur: R,
    f: ReviewFacts,
    rules: Seq<Rule>,
    k: int,
    as_of: Date,
    lookback: Date,
) -> bool {
    let hops = f.hops@;
    let parts = place_lists(rules[k].parts@);
    let l = parts.last();
    let h = hops[l[0]];
    let ids = rows_of(hops, parts);
    &&& x.at == k
    &&& x.scenario_id == h.scenario_id
    &&& x.sort_name@ == lower(h.description@)
    &&& x.until_on == h.until_on
    &&& x.parts == parts.len()
    &&& x.group == group_of(h.until_on, hops[parts[0][0]].dtstart, as_of)
    &&& is_shape(x.shape, hops, l)
    &&& x.direction == direction_of(x.shape, f.accounts@)
    &&& exists|a: Answer|
        #![trigger answers(recur, slot_ask(h), a)]
        answers(recur, slot_ask(h), a) && is_first_slot(x.first_slot, a)
    &&& exists|sub: Snapshot, r: Result<Projection, ProjectError>|
        #![trigger projects_rule(recur, sub, h.scenario_id, as_of, r)]
        is_sub(sub, f.snap, ids) && projects_rule(recur, sub, h.scenario_id, as_of, r)
            && shows_forecast(x, sub, r)
    &&& is_schedule(x.schedule, point_ons(x.points@), as_of)
    &&& is_recorded(x.recorded, hops, f.claims@, f.paid@, ids, firsts(hops, parts), as_of)
    &&& are_marked(
        x.marked@,
        marked_days(hops, parts, f.adjustments@, lookback.days as i64, firsts(hops, parts)),
        hops,
        parts,
        f.adjustments@,
    )
    &&& are_strays(x.strays@, recur, hops, parts, f.claims@, f.adjustments@)
    &&& x.marks@.len() == parts.len()
    &&& forall|i: int|
        0 <= i < parts.len() ==> is_part_mark(
            #[trigger] x.marks@[i],
            hops,
            parts[i],
            f.claims@,
            f.adjustments@,
        )
    &&& warning_views(x.warnings@) == warnings_of(
        hops,
        l,
        f.accounts@,
        leg_accounts(hops, l),
        opt_view(x.failure),
        x.strays@.len() as int,
    )
    &&& match x.replaces {
        Some(t) => h.scenario_id is Some && h.supersedes_id is Some && is_target(
            t,
            hops,
            rules,
            h.supersedes_id->0,
        ),
        None => !(h.scenario_id is Some && h.supersedes_id is Some),
    }
}

fn mark_parts(f: &ReviewFacts, parts: &Vec<Vec<usize>>) -> (r: Vec<PartMark>)
    requires
        are_parts(place_lists(parts@), f.hops@.len() as int),
    ensures
        r@.len() == parts@.len(),
        forall|i: int|
            0 <= i < parts@.len() ==> is_part_mark(
                #[trigger] r@[i],
                f.hops@,
                place_lists(parts@)[i],
                f.claims@,
                f.adjustments@,
            ),
{
    let ghost all = place_lists(parts@);
    let mut out: Vec<PartMark> = Vec::new();
    let mut i: usize = 0;
    while i < parts.len()
        invariant
            i <= parts@.len(),
            all == place_lists(parts@),
            are_parts(all, f.hops@.len() as int),
            out@.len() == i,
            forall|j: int|
                0 <= j < i ==> is_part_mark(
                    #[trigger] out@[j],
                    f.hops@,
                    all[j],
                    f.claims@,
                    f.adjustments@,
                ),
        decreases parts@.len() - i,
    {
        assert(all[i as int] == places(parts@[i as int]@));
        out.push(part_mark(&f.hops, &parts[i], &f.claims, &f.adjustments));
        i = i + 1;
    }
    out
}

fn first_slot_for<R: Recurrence>(recur: &R, h: &Hop) -> (r: Option<Date>)
    ensures
        exists|a: Answer|
            #![trigger answers(*recur, slot_ask(*h), a)]
            answers(*recur, slot_ask(*h), a) && is_first_slot(r, a),
{
    let a = put_ask(
        recur,
        h.rrule.as_str(),
        h.dtstart,
        h.until_on,
        h.dtstart,
        two_years(h.dtstart),
    );
    assert(answers(*recur, slot_ask(*h), answer_view(a)));
    match &a {
        Ok(v) => if v.len() > 0 {
            Some(v[0])
        } else {
            None
        },
        Err(_) => None,
    }
}

/// Where a rule stands.
pub fn review_rule<R: Recurrence>(
    recur: &R,
    f: &ReviewFacts,
    rules: &Vec<Rule>,
    k: usize,
    as_of: Date,
    lookback: Date,
) -> (r: RuleReview)
    requires
        as_of.in_range(),
        f.snap.series@.len() <= i64::MAX,
        are_rules(rules@, f.hops@),
        k < rules@.len(),
    ensures
        is_rule_review(r, *recur, *f, rules@, k as int, as_of, lookback),
{
    let parts = &rules[k].parts;
    let ghost all = place_lists(parts@);
    let n: usize = parts.len();
    assert(rules@[k as int].parts@.len() > 0);
    assert(all[n - 1] == places(parts@[n - 1]@));
    assert(all.last() == places(parts@[n - 1]@));
    assert(all[n - 1][0] == parts@[n - 1]@[0]);
    assert(all[0] == places(parts@[0]@));
    assert(all[0][0] == parts@[0]@[0]);
    let l = &parts[n - 1];
    let h = &f.hops[l[0]];
    let start = f.hops[parts[0][0]].dtstart;
    let ids = all_ids(&f.hops, parts);
    let heads = first_ids(&f.hops, parts);
    let shape = shape_of(&f.hops, l);
    let (sub, pr) = project_rule(recur, &f.snap, &ids, h.scenario_id, as_of);
    let mut failure: Option<String> = None;
    let mut pts: Vec<Point> = Vec::new();
    let mut sums = Yearly { count: 0, total_minor: 0, monthly_minor: 0 };
    match &pr {
        Ok(p) => {
            pts = points(&sub.series, &p.occurrences);
            sums = yearly(&sub.series, &p.occurrences);
        },
        Err(e) => {
            failure = Some(e.to_text());
            assert(point_ons(pts@) =~= Seq::<crate::impact::PointOn>::empty());
        },
    }
    let strays = find_strays(recur, &f.hops, parts, &f.claims, &f.adjustments);
    let legs = crate::select::collect_leg_accounts(&f.hops, l);
    let warned = warnings(&f.hops, l, &f.accounts, &legs, &failure, strays.len());
    let replaces = if h.scenario_id.is_some() {
        match h.supersedes_id {
            Some(t) => Some(find_target(&f.hops, rules, t)),
            None => None,
        }
    } else {
        None
    };
    let first_slot = first_slot_for(recur, h);
    let x = RuleReview {
        at: k,
        scenario_id: h.scenario_id,
        sort_name: to_lower(h.description.as_str()),
        until_on: h.until_on,
        parts: n,
        group: group(h.until_on, start, as_of),
        direction: direction(&shape, &f.accounts),
        shape,
        first_slot,
        schedule: schedule(&pts, as_of),
        points: pts,
        yearly: sums,
        recorded: recorded(&f.hops, &f.claims, &f.paid, &ids, &heads, as_of),
        marked: marked(&f.hops, parts, &f.adjustments, lookback),
        strays,
        marks: mark_parts(f, parts),
        warnings: warned,
        failure,
        replaces,
    };
    assert(shows_forecast(x, sub, pr));
    assert(projects_rule(*recur, sub, h.scenario_id, as_of, pr));
    x
}

/// A what-if in which a rule is cancelled.
#[derive(Debug, Clone)]
pub struct Cancel {
    /// The row that cancels it.
    pub id: i64,
    pub scenario_id: i64,
    pub target: Target,
}

/// Whether a rule only cancels another.
pub open spec fn cancels(hops: Seq<Hop>, r: Rule) -> bool {
    only_cancels(hops, place_lists(r.parts@).last())
}

/// Whether this is the cancel that a rule is.
pub open spec fn is_cancel_row(c: Cancel, hops: Seq<Hop>, rules: Seq<Rule>, k: int) -> bool {
    let h = hops[place_lists(rules[k].parts@).last()[0]];
    &&& c.id == h.id
    &&& c.scenario_id == (match h.scenario_id {
        Some(s) => s,
        None => 0,
    })
    &&& is_target(
        c.target,
        hops,
        rules,
        match h.supersedes_id {
            Some(t) => t,
            None => 0,
        },
    )
}

/// The places of the rules that only cancel another.
pub open spec fn cancel_places(hops: Seq<Hop>, rules: Seq<Rule>, n: int) -> Seq<int>
    decreases n,
{
    if n <= 0 {
        Seq::empty()
    } else if cancels(hops, rules[n - 1]) {
        cancel_places(hops, rules, n - 1).push(n - 1)
    } else {
        cancel_places(hops, rules, n - 1)
    }
}

/// Whether a rule is of a what-if.
pub open spec fn is_what_if_rule(hops: Seq<Hop>, r: Rule) -> bool {
    hops[place_lists(r.parts@).last()[0]].scenario_id is Some
}

/// The places of the rules that run in the book itself, or of those in a what-if.
pub open spec fn rule_places(hops: Seq<Hop>, rules: Seq<Rule>, what_if: bool, n: int) -> Seq<int>
    decreases n,
{
    if n <= 0 {
        Seq::empty()
    } else {
        let rest = rule_places(hops, rules, what_if, n - 1);
        if !cancels(hops, rules[n - 1]) && is_what_if_rule(hops, rules[n - 1]) == what_if {
            rest.push(n - 1)
        } else {
            rest
        }
    }
}

/// Whether rows are where the rules at some places stand.
pub open spec fn are_reviews<R: Recurrence>(
    v: Seq<RuleReview>,
    at: Seq<int>,
    recur: R,
    f: ReviewFacts,
    rules: Seq<Rule>,
    as_of: Date,
    lookback: Date,
) -> bool {
    v.len() == at.len() && forall|i: int|
        0 <= i < v.len() ==> is_rule_review(
            #[trigger] v[i],
            recur,
            f,
            rules,
            at[i],
            as_of,
            lookback,
        )
}

/// Whether rows are the cancels at some places.
pub open spec fn are_cancels(v: Seq<Cancel>, at: Seq<int>, hops: Seq<Hop>, rules: Seq<Rule>) -> bool {
    v.len() == at.len() && forall|i: int|
        0 <= i < v.len() ==> is_cancel_row(#[trigger] v[i], hops, rules, at[i])
}

/// How many rules there are of each sort.
#[derive(Debug, Clone, Copy, PartialEq, Eq, Structural)]
pub struct Totals {
    pub running: usize,
    pub not_started: usize,
    pub ended: usize,
    /// Changed from a date at least once.
    pub changed: usize,
    /// Not ended, with no end set.
    pub no_end: usize,
}

/// Whether a rule is counted as one that goes on without an end.
pub open spec fn goes_on(r: RuleReview) -> bool {
    r.group != Group::Ended && r.until_on is None
}

/// How many rows are in a group.
pub open spec fn in_group(v: Seq<RuleReview>, g: Group) -> int
    decreases v.len(),
{
    if v.len() == 0 {
        0
    } else {
        in_group(v.drop_last(), g) + (if v.last().group == g {
            1int
        } else {
            0
        })
    }
}

/// How many rows have more than one part.
pub open spec fn changed_rows(v: Seq<RuleReview>) -> int
    decreases v.len(),
{
    if v.len() == 0 {
        0
    } else {
        changed_rows(v.drop_last()) + (if v.last().parts > 1 {
            1int
        } else {
            0
        })
    }
}

/// How many rows go on without an end.
pub open spec fn endless_rows(v: Seq<RuleReview>) -> int
    decreases v.len(),
{
    if v.len() == 0 {
        0
    } else {
        endless_rows(v.drop_last()) + (if goes_on(v.last()) {
            1int
        } else {
            0
        })
    }
}

/// Whether totals are those of rows.
pub open spec fn are_totals(t: Totals, v: Seq<RuleReview>) -> bool {
    &&& t.running == in_group(v, Group::Running)
    &&& t.not_started == in_group(v, Group::NotStarted)
    &&& t.ended == in_group(v, Group::Ended)
    &&& t.changed == changed_rows(v)
    &&& t.no_end == endless_rows(v)
}

fn total(v: &Vec<RuleReview>) -> (r: Totals)
    ensures
        are_totals(r, v@),
{
    let mut t = Totals { running: 0, not_started: 0, ended: 0, changed: 0, no_end: 0 };
    let mut i: usize = 0;
    assert(v@.take(0) =~= Seq::<RuleReview>::empty());
    while i < v.len()
        invariant
            i <= v@.len(),
            are_totals(t, v@.take(i as int)),
            t.running <= i,
            t.not_started <= i,
            t.ended <= i,
            t.changed <= i,
            t.no_end <= i,
        decreases v@.len() - i,
    {
        assert(v@.take(i + 1).drop_last() =~= v@.take(i as int));
        match v[i].group {
            Group::Running => {
                t.running = t.running + 1;
            },
            Group::NotStarted => {
                t.not_started = t.not_started + 1;
            },
            Group::Ended => {
                t.ended = t.ended + 1;
            },
        }
        if v[i].parts > 1 {
            t.changed = t.changed + 1;
        }
        if v[i].group != Group::Ended && v[i].until_on.is_none() {
            t.no_end = t.no_end + 1;
        }
        i = i + 1;
    }
    assert(v@.take(v@.len() as int) =~= v@);
    t
}

/// The size of a number.
pub open spec fn size(n: int) -> int {
    if n < 0 {
        -n
    } else {
        n
    }
}

/// Whether a rule counts towards what a month comes to.
pub open spec fn counts_monthly(r: RuleReview) -> bool {
    r.group != Group::Ended && r.shape.currency@.len() > 0
}

/// What leaves in a month by a rule, by its direction and not by the sign of its primary leg: a
/// salary is written as money leaving the account it comes from, which is money arriving in the
/// household. A transfer between two of its own accounts is neither.
pub open spec fn leaves(r: RuleReview) -> int {
    let m = r.yearly.monthly_minor as int;
    match r.direction {
        Direction::Out => -size(m),
        Direction::In => 0,
        Direction::Transfer => 0,
        Direction::Other => if m < 0 {
            m
        } else {
            0
        },
    }
}

/// What arrives in a month by a rule.
pub open spec fn arrives(r: RuleReview) -> int {
    let m = r.yearly.monthly_minor as int;
    match r.direction {
        Direction::Out => 0,
        Direction::In => size(m),
        Direction::Transfer => 0,
        Direction::Other => if m < 0 {
            0
        } else {
            m
        },
    }
}

/// What leaves in a month in a currency.
pub open spec fn leaves_in(v: Seq<RuleReview>, currency: Seq<char>) -> int
    decreases v.len(),
{
    if v.len() == 0 {
        0
    } else {
        leaves_in(v.drop_last(), currency) + (if counts_monthly(v.last())
            && v.last().shape.currency@ == currency {
            leaves(v.last())
        } else {
            0
        })
    }
}

/// What arrives in a month in a currency.
pub open spec fn arrives_in(v: Seq<RuleReview>, currency: Seq<char>) -> int
    decreases v.len(),
{
    if v.len() == 0 {
        0
    } else {
        arrives_in(v.drop_last(), currency) + (if counts_monthly(v.last())
            && v.last().shape.currency@ == currency {
            arrives(v.last())
        } else {
            0
        })
    }
}

/// Whether a rule counts in a currency.
pub open spec fn counts_in(v: Seq<RuleReview>, currency: Seq<char>) -> bool
    decreases v.len(),
{
    v.len() > 0 && ((counts_monthly(v.last()) && v.last().shape.currency@ == currency) || counts_in(
        v.drop_last(),
        currency,
    ))
}

/// What a month comes to, by currency: one row in each list for each currency that a rule counts in.
#[derive(Debug, Clone)]
pub struct Monthly {
    pub leaves: Vec<Sum>,
    pub arrives: Vec<Sum>,
}

/// Whether this is what a month comes to.
pub open spec fn is_monthly(m: Monthly, v: Seq<RuleReview>) -> bool {
    &&& in_order(m.leaves@)
    &&& in_order(m.arrives@)
    &&& forall|c: Seq<char>| #[trigger] sum_of(m.leaves@, c) == leaves_in(v, c)
    &&& forall|c: Seq<char>| #[trigger] sum_of(m.arrives@, c) == arrives_in(v, c)
    &&& forall|c: Seq<char>| #[trigger] keeps(m.leaves@, c) == counts_in(v, c)
    &&& forall|c: Seq<char>| #[trigger] keeps(m.arrives@, c) == counts_in(v, c)
}

proof fn lemma_flow_bound(v: Seq<RuleReview>, c: Seq<char>)
    ensures
        -0x8000_0000_0000_0000 * v.len() <= leaves_in(v, c) <= 0,
        0 <= arrives_in(v, c) <= 0x8000_0000_0000_0000 * v.len(),
    decreases v.len(),
{
    if v.len() > 0 {
        lemma_flow_bound(v.drop_last(), c);
    }
}

fn flow(r: &RuleReview) -> (f: (i128, i128))
    ensures
        f.0 == leaves(*r),
        f.1 == arrives(*r),
        -0x8000_0000_0000_0000 <= f.0 <= 0,
        0 <= f.1 <= 0x8000_0000_0000_0000,
{
    let m: i128 = r.yearly.monthly_minor as i128;
    let s: i128 = if m < 0 {
        -m
    } else {
        m
    };
    match r.direction {
        Direction::Out => (-s, 0),
        Direction::In => (0, s),
        Direction::Transfer => (0, 0),
        Direction::Other => if m < 0 {
            (m, 0)
        } else {
            (0, m)
        },
    }
}

fn by_month(v: &Vec<RuleReview>) -> (r: Monthly)
    ensures
        is_monthly(r, v@),
{
    let mut out: Vec<Sum> = Vec::new();
    let mut ins: Vec<Sum> = Vec::new();
    let mut i: usize = 0;
    assert(v@.take(0) =~= Seq::<RuleReview>::empty());
    while i < v.len()
        invariant
            i <= v@.len(),
            in_order(out@),
            in_order(ins@),
            forall|c: Seq<char>| #[trigger] sum_of(out@, c) == leaves_in(v@.take(i as int), c),
            forall|c: Seq<char>| #[trigger] sum_of(ins@, c) == arrives_in(v@.take(i as int), c),
            forall|c: Seq<char>| #[trigger] keeps(out@, c) == counts_in(v@.take(i as int), c),
            forall|c: Seq<char>| #[trigger] keeps(ins@, c) == counts_in(v@.take(i as int), c),
        decreases v@.len() - i,
    {
        assert(v@.take(i + 1).drop_last() =~= v@.take(i as int));
        assert(v@.take(i + 1).last() == v@[i as int]);
        let row = &v[i];
        if row.group != Group::Ended && row.shape.currency.as_str().unicode_len() > 0 {
            let (a, b) = flow(row);
            proof {
                lemma_flow_bound(v@.take(i as int), row.shape.currency@);
                assert(sum_of(out@, row.shape.currency@) == leaves_in(
                    v@.take(i as int),
                    row.shape.currency@,
                ));
                assert(sum_of(ins@, row.shape.currency@) == arrives_in(
                    v@.take(i as int),
                    row.shape.currency@,
                ));
            }
            add_to(&mut out, row.shape.currency.as_str(), a);
            add_to(&mut ins, row.shape.currency.as_str(), b);
        }
        i = i + 1;
    }
    assert(v@.take(v@.len() as int) =~= v@);
    Monthly { leaves: out, arrives: ins }
}

/// The what-ifs that rows and cancels are of, in order.
pub open spec fn what_ifs_with(ids: Seq<i64>) -> Seq<i64>
    decreases ids.len(),
{
    if ids.len() == 0 {
        ids
    } else {
        with_id(what_ifs_with(ids.drop_last()), ids.last())
    }
}

/// The what-if of each row, then of each cancel.
pub open spec fn scenario_list(v: Seq<RuleReview>, c: Seq<Cancel>) -> Seq<i64> {
    v.map_values(
        |r: RuleReview|
            match r.scenario_id {
                Some(s) => s,
                None => 0,
            },
    ) + c.map_values(|x: Cancel| x.scenario_id)
}

fn collect_what_ifs(v: &Vec<RuleReview>, c: &Vec<Cancel>) -> (r: Vec<i64>)
    ensures
        r@ == what_ifs_with(scenario_list(v@, c@)),
{
    let ghost all = scenario_list(v@, c@);
    let mut out: Vec<i64> = Vec::new();
    let mut i: usize = 0;
    assert(all.take(0) =~= Seq::<i64>::empty());
    while i < v.len()
        invariant
            i <= v@.len(),
            all == scenario_list(v@, c@),
            out@ == what_ifs_with(all.take(i as int)),
        decreases v@.len() - i,
    {
        let s: i64 = match v[i].scenario_id {
            Some(s) => s,
            None => 0,
        };
        assert(all.take(i + 1).drop_last() =~= all.take(i as int));
        assert(all.take(i + 1).last() == s);
        put(&mut out, s);
        i = i + 1;
    }
    let mut k: usize = 0;
    while k < c.len()
        invariant
            k <= c@.len(),
            all == scenario_list(v@, c@),
            out@ == what_ifs_with(all.take(v@.len() + k)),
        decreases c@.len() - k,
    {
        assert(all.take(v@.len() + k + 1).drop_last() =~= all.take(v@.len() + k));
        assert(all.take(v@.len() + k + 1).last() == c@[k as int].scenario_id);
        put(&mut out, c[k].scenario_id);
        k = k + 1;
    }
    assert(all.take(all.len() as int) =~= all);
    out
}

/// Every rule of the book and where it stands.
#[derive(Debug, Clone)]
pub struct Review {
    pub rules: Vec<Rule>,
    /// The rules of the book itself, in order.
    pub baseline: Vec<RuleReview>,
    /// The rules of what-ifs.
    pub what_if: Vec<RuleReview>,
    pub cancels: Vec<Cancel>,
    /// The what-ifs those are of, in order.
    pub scenarios: Vec<i64>,
    pub totals: Totals,
    pub monthly: Monthly,
}

/// Whether this is the review of a book on a day.
pub open spec fn is_review<R: Recurrence>(
    x: Review,
    recur: R,
    f: ReviewFacts,
    as_of: Date,
    lookback: Date,
) -> bool {
    let hops = f.hops@;
    let rules = x.rules@;
    let n = rules.len() as int;
    &&& are_rules(rules, hops)
    &&& exists|rows: Seq<RuleReview>|
        #![trigger ranked(rows)]
        are_reviews(rows, rule_places(hops, rules, false, n), recur, f, rules, as_of, lookback)
            && x.baseline@ == ranked(rows) && are_totals(x.totals, rows) && is_monthly(
            x.monthly,
            rows,
        )
    &&& are_reviews(
        x.what_if@,
        rule_places(hops, rules, true, n),
        recur,
        f,
        rules,
        as_of,
        lookback,
    )
    &&& are_cancels(x.cancels@, cancel_places(hops, rules, n), hops, rules)
    &&& x.scenarios@ == what_ifs_with(scenario_list(x.what_if@, x.cancels@))
}

/// Every rule of the book and where it stands on a day. `lookback` is the earliest day that a
/// forecast still looks at.
pub fn review<R: Recurrence>(recur: &R, f: &ReviewFacts, as_of: Date, lookback: Date) -> (r: Review)
    requires
        as_of.in_range(),
        f.snap.series@.len() <= i64::MAX,
    ensures
        is_review(r, *recur, *f, as_of, lookback),
{
    let rules = rules_of(&f.hops);
    let mut rows: Vec<RuleReview> = Vec::new();
    let mut what_if: Vec<RuleReview> = Vec::new();
    let mut cancelled: Vec<Cancel> = Vec::new();
    let mut k: usize = 0;
    while k < rules.len()
        invariant
            k <= rules@.len(),
            as_of.in_range(),
            f.snap.series@.len() <= i64::MAX,
            are_rules(rules@, f.hops@),
            are_reviews(
                rows@,
                rule_places(f.hops@, rules@, false, k as int),
                *recur,
                *f,
                rules@,
                as_of,
                lookback,
            ),
            are_reviews(
                what_if@,
                rule_places(f.hops@, rules@, true, k as int),
                *recur,
                *f,
                rules@,
                as_of,
                lookback,
            ),
            are_cancels(
                cancelled@,
                cancel_places(f.hops@, rules@, k as int),
                f.hops@,
                rules@,
            ),
        decreases rules@.len() - k,
    {
        let parts = &rules[k].parts;
        let ghost all = place_lists(parts@);
        let n: usize = parts.len();
        assert(rules@[k as int].parts@.len() > 0);
        assert(all[n - 1] == places(parts@[n - 1]@));
        assert(all.last() == places(parts@[n - 1]@));
        assert(all[n - 1][0] == parts@[n - 1]@[0]);
        let l = &parts[n - 1];
        let h = &f.hops[l[0]];
        if is_cancel(&f.hops, l) {
            let t: i64 = match h.supersedes_id {
                Some(t) => t,
                None => 0,
            };
            let scenario_id: i64 = match h.scenario_id {
                Some(s) => s,
                None => 0,
            };
            let c = Cancel { id: h.id, scenario_id, target: find_target(&f.hops, &rules, t) };
            assert(is_cancel_row(c, f.hops@, rules@, k as int));
            cancelled.push(c);
        } else {
            let x = review_rule(recur, f, &rules, k, as_of, lookback);
            if h.scenario_id.is_some() {
                what_if.push(x);
            } else {
                rows.push(x);
            }
        }
        k = k + 1;
    }
    let totals = total(&rows);
    let monthly = by_month(&rows);
    let scenarios = collect_what_ifs(&what_if, &cancelled);
    let ghost own = rows@;
    let baseline = rank(rows);
    assert(baseline@ == ranked(own));
    Review { rules, baseline, what_if, cancels: cancelled, scenarios, totals, monthly }
}

/// Every rule of the book is in the review once: as a rule of the book, a rule of a what-if, or a
/// cancel.
pub proof fn law_every_rule_is_reviewed_once(hops: Seq<Hop>, rules: Seq<Rule>, n: int)
    requires
        0 <= n <= rules.len(),
    ensures
        rule_places(hops, rules, false, n).len() + rule_places(hops, rules, true, n).len()
            + cancel_places(hops, rules, n).len() == n,
    decreases n,
{
    if n > 0 {
        law_every_rule_is_reviewed_once(hops, rules, n - 1);
    }
}

/// A rule of the book is in exactly one group.
pub proof fn law_the_groups_add_up(t: Totals, v: Seq<RuleReview>)
    requires
        are_totals(t, v),
    ensures
        t.running + t.not_started + t.ended == v.len(),
{
    lemma_groups(v);
}

proof fn lemma_groups(v: Seq<RuleReview>)
    ensures
        in_group(v, Group::Running) + in_group(v, Group::NotStarted) + in_group(v, Group::Ended)
            == v.len(),
    decreases v.len(),
{
    if v.len() > 0 {
        lemma_groups(v.drop_last());
    }
}

/// A transfer between two of the household's own accounts neither leaves nor arrives.
pub proof fn law_a_transfer_is_neither_spent_nor_earned(r: RuleReview)
    requires
        r.direction == Direction::Transfer,
    ensures
        leaves(r) == 0,
        arrives(r) == 0,
{
}

} // verus!
