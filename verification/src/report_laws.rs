//! What a review of the rules, an answer to a request and a brief of the book say, each read off the
//! rows it is about.

use crate::ask::{is_undo_asked, AskedUndo, RawUndo};
use crate::brief::{brief, Brief, BriefOptions};
use crate::browse::{are_newest, are_oldest, Listed, Newest, Oldest};
use crate::commitments::counted;
use crate::date::{read_day, year_end, Date};
use crate::db::recorded_version;
use crate::desk::{currency_refusal, is_letter};
use crate::digits::number_in;
use crate::forecast::{
    interest_ask, payment_ask, projects, series_ask, InterestRule, Occurrence, PaymentRule,
    ProjectError, Projection, Series, Snapshot,
};
use crate::fx::{rates_of, row_from, storable, RatesRead};
use crate::impact::{are_dues, is_outcome, points_in, Impact, Outcome};
use crate::importer::{is_batch, staged_views, Batch, StagedView};
use crate::limits::BookFacts;
use crate::lists::{first, lemma_first_is, lemma_join_has, lemma_push_has};
use crate::marks::{
    adjustments_of, is_live, is_marked, is_part_mark, is_past, live_days, marked_days,
    part_starting, starts_with_row, with_part, Marked, PartMark,
};
use crate::money::law_rounding_is_nearest;
use crate::outlook::{some_go_under, track_views};
use crate::paths::lemma_with_id;
use crate::plans::{expands_ask, preview_ask};
use crate::recur::{described_by, parts_of, phrase, Ask, PartsView, Recurrence};
use crate::requests::{first_three, is_peek, readable, Peek};
use crate::reschedule::{adjusted_days, undo_due_refusal, Adjustment, Claim, Due};
use crate::review::{
    arrives_in, cancel_places, cancels, counts_in, is_cancel_row, is_first_slot, is_lineage,
    is_monthly, is_rule_review, is_target, leaves_in, lineage_for, rule_places, scenario_list,
    slot_ask, what_ifs_with, Cancel, Monthly, ReviewFacts, RuleReview, Target,
};
use crate::revise::{check_asks, Answer, Param};
use crate::rules::{
    all_standings, lineage, lineages, part_rows, parts_with, place_lists, Hop, Rule, Standing,
};
use crate::standing::{claims_of, is_yearly, sum_of_all, Yearly};
use crate::standing_laws::{is_adjusted, lemma_adjusted, lemma_where_has};
use crate::sub::{in_play, is_sub, projects_rule};
use crate::tally::{keeps, sum_of};
use crate::text::{lower, split, trimmed, upper, views};
use vstd::prelude::*;

verus! {

/// A review shows a rule as its newest part has it: its end, its what-if, its name. It counts all its
/// parts, and goes by the start of the oldest.
pub proof fn law_a_rule_is_shown_by_its_newest_part<R: Recurrence>(
    x: RuleReview,
    recur: R,
    f: ReviewFacts,
    rules: Seq<Rule>,
    k: int,
    as_of: Date,
    lookback: Date,
)
    requires
        is_rule_review(x, recur, f, rules, k, as_of, lookback),
        0 <= k < rules.len(),
        rules[k].parts@.len() > 0,
    ensures
        ({
            let parts = place_lists(rules[k].parts@);
            let newest = f.hops@[parts[parts.len() - 1][0]];
            let oldest = f.hops@[parts[0][0]];
            &&& x.at == k
            &&& x.scenario_id == newest.scenario_id
            &&& x.until_on == newest.until_on
            &&& x.sort_name@ == lower(newest.description@)
            &&& x.parts == rules[k].parts@.len()
            &&& x.marks@.len() == rules[k].parts@.len()
            &&& x.group is Ended <==> newest.until_on is Some && newest.until_on->0.days < as_of.days
            &&& x.group is NotStarted <==> !(x.group is Ended) && oldest.dtstart.days > as_of.days
            &&& x.replaces is Some <==> newest.scenario_id is Some && newest.supersedes_id is Some
        }),
{
}

/// What a rule replaces or cancels is the first rule that goes back to the same row, where there is
/// one.
pub proof fn law_a_target_is_the_first_rule_of_its_lineage(
    t: Target,
    hops: Seq<Hop>,
    rules: Seq<Rule>,
    id: i64,
)
    requires
        is_target(t, hops, rules, id),
        rules.len() <= usize::MAX,
    ensures
        t.lineage_id == lineage_for(hops, id),
        t.at matches Some(k) ==> k < rules.len() && rules[k as int].lineage_id == t.lineage_id
            && forall|j: int| 0 <= j < k ==> (#[trigger] rules[j]).lineage_id != t.lineage_id,
        t.at is None ==> forall|j: int|
            0 <= j < rules.len() ==> (#[trigger] rules[j]).lineage_id != t.lineage_id,
{
    let p = is_lineage(rules, t.lineage_id);
    lemma_first_is(rules.len() as int, p);
    assert forall|j: int| 0 <= j < first(rules.len() as int, p) implies (#[trigger] rules[j]).lineage_id
        != t.lineage_id by {
        assert(!p(j));
    }
}

/// Every rule is shown once: in the book, in a what-if, or as a cancel of another rule.
pub proof fn law_every_rule_is_shown_in_one_place(hops: Seq<Hop>, rules: Seq<Rule>, n: int, k: int)
    requires
        0 <= n,
    ensures
        cancel_places(hops, rules, n).contains(k) <==> 0 <= k < n && cancels(hops, rules[k]),
        rule_places(hops, rules, false, n).contains(k) <==> 0 <= k < n && !cancels(hops, rules[k])
            && hops[place_lists(rules[k].parts@).last()[0]].scenario_id is None,
        rule_places(hops, rules, true, n).contains(k) <==> 0 <= k < n && !cancels(hops, rules[k])
            && hops[place_lists(rules[k].parts@).last()[0]].scenario_id is Some,
    decreases n,
{
    if n > 0 {
        law_every_rule_is_shown_in_one_place(hops, rules, n - 1, k);
        lemma_push_has(cancel_places(hops, rules, n - 1), n - 1, k);
        lemma_push_has(rule_places(hops, rules, false, n - 1), n - 1, k);
        lemma_push_has(rule_places(hops, rules, true, n - 1), n - 1, k);
    }
}

/// A cancel names the row that cancels, its what-if, and what it cancels.
pub proof fn law_a_cancel_names_what_it_cancels(
    c: Cancel,
    hops: Seq<Hop>,
    rules: Seq<Rule>,
    k: int,
    s: i64,
    target: i64,
)
    requires
        is_cancel_row(c, hops, rules, k),
        hops[place_lists(rules[k].parts@).last()[0]].scenario_id == Some(s),
        hops[place_lists(rules[k].parts@).last()[0]].supersedes_id == Some(target),
    ensures
        c.id == hops[place_lists(rules[k].parts@).last()[0]].id,
        c.scenario_id == s,
        c.target.lineage_id == lineage_for(hops, target),
{
}

/// What leaves and what arrives in a month is kept currency by currency, from the rows that count.
pub proof fn law_a_month_is_kept_by_currency(m: Monthly, v: Seq<RuleReview>, c: Seq<char>)
    requires
        is_monthly(m, v),
    ensures
        sum_of(m.leaves@, c) == leaves_in(v, c),
        sum_of(m.arrives@, c) == arrives_in(v, c),
        keeps(m.leaves@, c) <==> counts_in(v, c),
        keeps(m.arrives@, c) <==> counts_in(v, c),
{
    assert(sum_of(m.leaves@, c) == leaves_in(v, c));
    assert(sum_of(m.arrives@, c) == arrives_in(v, c));
}

/// The what-ifs of a review are those of its rows and of its cancels.
pub proof fn law_a_review_names_the_what_ifs_of_its_rows(
    v: Seq<RuleReview>,
    c: Seq<Cancel>,
    i: int,
    j: int,
    s: i64,
)
    requires
        0 <= i < v.len(),
        0 <= j < c.len(),
    ensures
        v[i].scenario_id is Some ==> what_ifs_with(scenario_list(v, c)).contains(v[i].scenario_id->0),
        what_ifs_with(scenario_list(v, c)).contains(c[j].scenario_id),
        what_ifs_with(scenario_list(v, c)).contains(s) ==> s == 0 || (exists|a: int|
            0 <= a < v.len() && (#[trigger] v[a]).scenario_id == Some(s)) || exists|b: int|
            0 <= b < c.len() && (#[trigger] c[b]).scenario_id == s,
{
    let all = scenario_list(v, c);
    assert(all[v.len() + j] == c[j].scenario_id);
    assert(all.contains(c[j].scenario_id));
    lemma_what_ifs(all, c[j].scenario_id);
    if v[i].scenario_id is Some {
        assert(all[i] == v[i].scenario_id->0);
        assert(all.contains(v[i].scenario_id->0));
        lemma_what_ifs(all, v[i].scenario_id->0);
    }
    lemma_what_ifs(all, s);
    if all.contains(s) {
        let a = choose|a: int| 0 <= a < all.len() && all[a] == s;
        if a < v.len() {
            if v[a].scenario_id is Some {
                assert(v[a].scenario_id == Some(s));
            }
        } else {
            assert(c[a - v.len()].scenario_id == s);
        }
    }
}

proof fn lemma_what_ifs(ids: Seq<i64>, s: i64)
    ensures
        what_ifs_with(ids).contains(s) <==> ids.contains(s),
    decreases ids.len(),
{
    if ids.len() > 0 {
        let rest = ids.drop_last();
        lemma_what_ifs(rest, s);
        lemma_with_id(what_ifs_with(rest), ids.last());
        lemma_push_has(rest, ids.last(), s);
        assert(rest.push(ids.last()) =~= ids);
    }
}

/// The lineages of a book are those of its parts.
pub proof fn law_the_lineages_are_those_of_the_parts(hops: Seq<Hop>, parts: Seq<Seq<int>>, id: i64)
    ensures
        lineages(hops, parts).contains(id) <==> exists|k: int|
            0 <= k < parts.len() && lineage(hops, #[trigger] parts[k]) == id,
    decreases parts.len(),
{
    if parts.len() > 0 {
        let rest = parts.drop_last();
        law_the_lineages_are_those_of_the_parts(hops, rest, id);
        lemma_with_id(lineages(hops, rest), lineage(hops, parts.last()));
        assert(parts[parts.len() - 1] == parts.last());
        if exists|k: int| 0 <= k < rest.len() && lineage(hops, #[trigger] rest[k]) == id {
            let k = choose|k: int| 0 <= k < rest.len() && lineage(hops, #[trigger] rest[k]) == id;
            assert(parts[k] == rest[k]);
        }
        if exists|k: int| 0 <= k < parts.len() && lineage(hops, #[trigger] parts[k]) == id {
            let k = choose|k: int| 0 <= k < parts.len() && lineage(hops, #[trigger] parts[k]) == id;
            if k < rest.len() {
                assert(rest[k] == parts[k]);
            }
        }
    }
}

/// The first slot of a rule is the first day it gives; a rule that cannot be read has none.
pub proof fn law_the_first_slot_is_the_first_day(d: Option<Date>, a: Answer)
    requires
        is_first_slot(d, a),
    ensures
        a matches Ok(days) ==> (days.len() == 0 ==> d is None) && (days.len() > 0 ==> d == Some(days[0])),
        a is Err ==> d is None,
{
}

/// Whether an adjustment of a part is on a day.
pub open spec fn is_adjusted_in(hops: Seq<Hop>, part: Seq<int>, adjs: Seq<Adjustment>, d: i64) -> bool {
    exists|i: int|
        0 <= i < adjs.len() && (#[trigger] adjs[i]).occurrence_on.days == d && part_rows(
            hops,
            part,
        ).contains(adjs[i].series_id)
}

proof fn lemma_adjustments(adjs: Seq<Adjustment>, ids: Seq<i64>, d: i64)
    ensures
        is_adjusted(adjustments_of(adjs, ids), d) <==> exists|i: int|
            0 <= i < adjs.len() && (#[trigger] adjs[i]).occurrence_on.days == d && ids.contains(
                adjs[i].series_id,
            ),
    decreases adjs.len(),
{
    if adjs.len() > 0 {
        let rest = adjs.drop_last();
        let a = adjs.last();
        lemma_adjustments(rest, ids, d);
        assert(adjs[adjs.len() - 1] == a);
        let own = adjustments_of(rest, ids);
        if ids.contains(a.series_id) {
            assert(own.push(a)[own.len() as int] == a);
            if is_adjusted(own, d) {
                let i = choose|i: int| 0 <= i < own.len() && (#[trigger] own[i]).occurrence_on.days == d;
                assert(own.push(a)[i] == own[i]);
            }
            if is_adjusted(own.push(a), d) {
                let i = choose|i: int|
                    0 <= i < own.push(a).len() && (#[trigger] own.push(a)[i]).occurrence_on.days == d;
                if i < own.len() {
                    assert(own[i] == own.push(a)[i]);
                }
            }
        }
        if exists|i: int|
            0 <= i < rest.len() && (#[trigger] rest[i]).occurrence_on.days == d && ids.contains(
                rest[i].series_id,
            ) {
            let i = choose|i: int|
                0 <= i < rest.len() && (#[trigger] rest[i]).occurrence_on.days == d && ids.contains(
                    rest[i].series_id,
                );
            assert(adjs[i] == rest[i]);
        }
        if exists|i: int|
            0 <= i < adjs.len() && (#[trigger] adjs[i]).occurrence_on.days == d && ids.contains(
                adjs[i].series_id,
            ) {
            let i = choose|i: int|
                0 <= i < adjs.len() && (#[trigger] adjs[i]).occurrence_on.days == d && ids.contains(
                    adjs[i].series_id,
                );
            if i < rest.len() {
                assert(rest[i] == adjs[i]);
            }
        }
    }
}

/// A part leaves behind the days of its adjustments that lie after its end.
pub proof fn law_a_part_leaves_behind_what_lies_after_its_end(
    m: PartMark,
    hops: Seq<Hop>,
    part: Seq<int>,
    claims: Seq<Claim>,
    adjs: Seq<Adjustment>,
    d: i64,
)
    requires
        is_part_mark(m, hops, part, claims, adjs),
    ensures
        m.left_behind@.contains(d) <==> is_adjusted_in(hops, part, adjs, d)
            && hops[part[0]].until_on is Some && d > hops[part[0]].until_on->0.days,
        m.recorded == claims_of(claims, seq![hops[part[0]].id]).len(),
{
    let own = adjustments_of(adjs, part_rows(hops, part));
    lemma_where_has(adjusted_days(own), is_past(hops[part[0]].until_on), d);
    lemma_adjusted(own, d);
    lemma_adjustments(adjs, part_rows(hops, part), d);
}

/// A payment counts for a part exactly where it is claimed for the part's first row.
pub proof fn law_a_payment_counts_for_the_row_it_claims(claims: Seq<Claim>, c: Claim, id: i64)
    ensures
        c.series_id == id ==> claims_of(claims.push(c), seq![id]).len() == claims_of(
            claims,
            seq![id],
        ).len() + 1,
        c.series_id != id ==> claims_of(claims.push(c), seq![id]) == claims_of(claims, seq![id]),
{
    assert(claims.push(c).drop_last() =~= claims);
    assert(seq![id][0] == id);
    assert(seq![id].contains(id));
}

/// An adjustment is live from the lookback on, up to the end of its part.
pub proof fn law_an_adjustment_is_live_until_its_part_ends(
    hops: Seq<Hop>,
    part: Seq<int>,
    adjs: Seq<Adjustment>,
    lookback: i64,
    d: i64,
)
    ensures
        live_days(hops, part, adjs, lookback).contains(d) <==> is_adjusted_in(hops, part, adjs, d) && d
            >= lookback && (hops[part[0]].until_on is None || d <= hops[part[0]].until_on->0.days),
{
    let own = adjustments_of(adjs, part_rows(hops, part));
    lemma_where_has(adjusted_days(own), is_live(hops[part[0]].until_on, lookback), d);
    lemma_adjusted(own, d);
    lemma_adjustments(adjs, part_rows(hops, part), d);
}

/// The marked days of a rule are the live days of its parts, each under the part that starts with the
/// row asked for.
pub proof fn law_marked_days_are_the_live_days_of_the_parts(
    hops: Seq<Hop>,
    parts: Seq<Seq<int>>,
    adjs: Seq<Adjustment>,
    lookback: i64,
    ids: Seq<i64>,
    k: int,
    d: i64,
)
    ensures
        marked_days(hops, parts, adjs, lookback, ids).contains((k, d)) <==> 0 <= k < parts.len() && (
        exists|i: int|
            0 <= i < ids.len() && part_starting(hops, parts, #[trigger] ids[i]) == k) && live_days(
            hops,
            parts[k],
            adjs,
            lookback,
        ).contains(d),
    decreases ids.len(),
{
    if ids.len() > 0 {
        let rest = ids.drop_last();
        law_marked_days_are_the_live_days_of_the_parts(hops, parts, adjs, lookback, rest, k, d);
        assert(ids[ids.len() - 1] == ids.last());
        let p = part_starting(hops, parts, ids.last());
        lemma_first_is(parts.len() as int, starts_with_row(hops, parts, ids.last()));
        let before = marked_days(hops, parts, adjs, lookback, rest);
        if p < parts.len() {
            let days = live_days(hops, parts[p], adjs, lookback);
            let own = with_part(p, days);
            lemma_join_has(before, own, (k, d));
            if own.contains((k, d)) {
                let i = choose|i: int| 0 <= i < own.len() && own[i] == (k, d);
                assert(days[i] == d);
            }
            if k == p && days.contains(d) {
                let i = choose|i: int| 0 <= i < days.len() && days[i] == d;
                assert(own[i] == (k, d));
            }
        } else {
            assert(before + Seq::<(int, i64)>::empty() =~= before);
        }
        if exists|i: int| 0 <= i < rest.len() && part_starting(hops, parts, #[trigger] rest[i]) == k {
            let i = choose|i: int|
                0 <= i < rest.len() && part_starting(hops, parts, #[trigger] rest[i]) == k;
            assert(ids[i] == rest[i]);
        }
        if exists|i: int| 0 <= i < ids.len() && part_starting(hops, parts, #[trigger] ids[i]) == k {
            let i = choose|i: int|
                0 <= i < ids.len() && part_starting(hops, parts, #[trigger] ids[i]) == k;
            if i < rest.len() {
                assert(rest[i] == ids[i]);
            }
        }
    }
}

/// The part that starts with a row is the first whose first row it is.
pub proof fn law_a_part_starts_with_its_first_row(hops: Seq<Hop>, parts: Seq<Seq<int>>, id: i64)
    ensures
        ({
            let k = part_starting(hops, parts, id);
            &&& 0 <= k <= parts.len()
            &&& k < parts.len() ==> hops[parts[k][0]].id == id
            &&& forall|j: int| 0 <= j < k ==> hops[(#[trigger] parts[j])[0]].id != id
        }),
{
    let p = starts_with_row(hops, parts, id);
    lemma_first_is(parts.len() as int, p);
    let k = part_starting(hops, parts, id);
    assert forall|j: int| 0 <= j < k implies hops[(#[trigger] parts[j])[0]].id != id by {
        assert(!p(j));
    }
}

/// A marked day says of which part it is and on which day.
pub proof fn law_a_marked_day_says_its_part_and_day(
    m: Marked,
    k: int,
    d: i64,
    hops: Seq<Hop>,
    parts: Seq<Seq<int>>,
    adjs: Seq<Adjustment>,
)
    requires
        is_marked(m, (k, d), hops, parts, adjs),
    ensures
        m.part == k,
        m.on == d,
{
}

/// What a rule comes to in a year is the sum of its movements that count, and in a month the nearest
/// to the twelfth part of it.
pub proof fn law_a_year_is_the_sum_of_what_counts(
    y: Yearly,
    series: Seq<Series>,
    occs: Seq<Occurrence>,
    o: Occurrence,
)
    requires
        is_yearly(y, series, occs),
    ensures
        y.count == counted(series, occs).len(),
        y.total_minor == sum_of_all(counted(series, occs)),
        sum_of_all(occs.push(o)) == sum_of_all(occs) + o.amount_minor,
        i64::MIN <= y.total_minor <= i64::MAX ==> -12 <= 2 * (y.total_minor - 12 * y.monthly_minor) <= 12,
{
    assert(occs.push(o).drop_last() =~= occs);
    law_rounding_is_nearest(y.total_minor as int, 12);
}

/// A rule alone is projected over twelve months from today, in its own what-if.
pub proof fn law_a_rule_is_projected_over_twelve_months<R: Recurrence>(
    recur: R,
    sub: Snapshot,
    scenario: Option<i64>,
    as_of: Date,
    p: Projection,
    to: Date,
)
    requires
        projects_rule(recur, sub, scenario, as_of, Ok(p)),
        to.days == year_end(as_of.days as int),
    ensures
        projects(recur, sub, in_play(scenario), as_of, to, p),
{
}

/// A projection is refused only by a rule that takes part in it, asked for its own days from today to
/// the horizon.
pub proof fn law_a_projection_asks_every_rule_for_its_own_days(
    s: Series,
    r: InterestRule,
    q: PaymentRule,
    as_of: Date,
    horizon: Date,
)
    ensures
        series_ask(s, as_of, horizon).rule == s.rrule@,
        series_ask(s, as_of, horizon).dtstart == s.dtstart,
        series_ask(s, as_of, horizon).until == s.until_on,
        series_ask(s, as_of, horizon).lo == as_of,
        series_ask(s, as_of, horizon).hi == horizon,
        interest_ask(r, as_of, horizon).rule == r.capitalise_rrule@,
        interest_ask(r, as_of, horizon).dtstart == r.capitalise_dtstart,
        interest_ask(r, as_of, horizon).until is None,
        interest_ask(r, as_of, horizon).lo == as_of,
        interest_ask(r, as_of, horizon).hi == horizon,
        payment_ask(q, as_of, horizon).rule == q.rrule@,
        payment_ask(q, as_of, horizon).dtstart == q.dtstart,
        payment_ask(q, as_of, horizon).until == q.until_on,
        payment_ask(q, as_of, horizon).lo == as_of,
        payment_ask(q, as_of, horizon).hi == horizon,
{
}

/// A rule is checked from its start over two years, once without its end and once with it; a preview
/// goes twelve years on, and a rule's first slot is looked for over two years.
pub proof fn law_a_rule_is_looked_at_from_its_start(
    rrule: Seq<char>,
    start: Date,
    until: Option<Date>,
    far: Date,
    h: Hop,
)
    requires
        start.in_range(),
        h.dtstart.in_range(),
        start.days <= 3_000_000,
        h.dtstart.days <= 3_000_000,
    ensures
        check_asks(rrule, start, until, far).0 == (Ask {
            rule: rrule,
            dtstart: start,
            until: None,
            lo: start,
            hi: far,
        }),
        check_asks(rrule, start, until, far).1 == (Ask {
            rule: rrule,
            dtstart: start,
            until,
            lo: start,
            hi: far,
        }),
        expands_ask(rrule, start).rule == rrule,
        expands_ask(rrule, start).dtstart == start,
        expands_ask(rrule, start).until is None,
        expands_ask(rrule, start).lo == start,
        expands_ask(rrule, start).hi.days == start.days + 732,
        preview_ask(rrule, start, until).rule == rrule,
        preview_ask(rrule, start, until).dtstart == start,
        preview_ask(rrule, start, until).until == until,
        preview_ask(rrule, start, until).lo == start,
        preview_ask(rrule, start, until).hi.days == start.days + 4392,
        slot_ask(h).rule == h.rrule@,
        slot_ask(h).dtstart == h.dtstart,
        slot_ask(h).until == h.until_on,
        slot_ask(h).lo == h.dtstart,
        slot_ask(h).hi.days == h.dtstart.days + 732,
{
}

/// An outcome compares what a rule's rows came to before a change with what they come to after it, and
/// says of each side whether it failed.
pub proof fn law_an_outcome_compares_before_with_after<R: Recurrence>(
    x: Outcome,
    recur: R,
    before: Snapshot,
    before_ids: Seq<i64>,
    after: Snapshot,
    after_ids: Seq<i64>,
    scenario: Option<i64>,
    as_of: Date,
    cut: Date,
    claims: Seq<Claim>,
) -> (w: (
    Snapshot,
    Result<Projection, ProjectError>,
    Snapshot,
    Result<Projection, ProjectError>,
))
    requires
        is_outcome(x, recur, before, before_ids, after, after_ids, scenario, as_of, cut, claims),
    ensures
        is_sub(w.0, before, before_ids),
        projects_rule(recur, w.0, scenario, as_of, w.1),
        is_sub(w.2, after, after_ids),
        projects_rule(recur, w.2, scenario, as_of, w.3),
        crate::impact::is_impact(
            x.impact,
            points_in(w.0, w.1),
            points_in(w.2, w.3),
            scenario is None,
            as_of,
        ),
        x.before_error is None <==> w.1 is Ok,
        x.after_error is None <==> w.3 is Ok,
        w.1 matches Err(e) ==> x.before_error == Some(e),
        w.3 matches Err(e) ==> x.after_error == Some(e),
        w.1 is Err ==> points_in(w.0, w.1).len() == 0,
        w.3 is Err ==> points_in(w.2, w.3).len() == 0,
{
    let (bs, br, as_, ar) = choose|
        bs: Snapshot,
        br: Result<Projection, ProjectError>,
        as_: Snapshot,
        ar: Result<Projection, ProjectError>,
    |
        #![trigger projects_rule(recur, bs, scenario, as_of, br), projects_rule(recur, as_, scenario, as_of, ar)]
        is_sub(bs, before, before_ids) && projects_rule(recur, bs, scenario, as_of, br) && is_sub(
            as_,
            after,
            after_ids,
        ) && projects_rule(recur, as_, scenario, as_of, ar) && crate::impact::is_impact(
            x.impact,
            points_in(bs, br),
            points_in(as_, ar),
            scenario is None,
            as_of,
        ) && crate::impact::is_seam(x.seam@, claims, points_in(as_, ar), cut) && x.before_error
            == crate::impact::error_of(br) && x.after_error == crate::impact::error_of(ar);
    (bs, br, as_, ar)
}

/// What falls due is told as it is after the change.
pub proof fn law_a_due_payment_is_told_as_it_will_be(d: Seq<Due>, x: Impact, i: int)
    requires
        are_dues(d, x),
        0 <= i < d.len(),
    ensures
        d.len() == x.due@.len(),
        d[i].occurrence_on@ == x.after@[x.due@[i] as int].occurrence_on@,
        d[i].value_on@ == x.after@[x.due@[i] as int].value_on@,
        d[i].amount_minor == x.after@[x.due@[i] as int].amount_minor,
        d[i].series_id == x.after@[x.due@[i] as int].series_id,
{
}

/// An undo is held back exactly where something would fall due that nobody has acknowledged.
pub proof fn law_an_undo_waits_for_what_would_fall_due(due: Seq<Due>, acknowledged: bool)
    ensures
        undo_due_refusal(due, acknowledged) is Some <==> due.len() > 0 && !acknowledged,
        undo_due_refusal(due, acknowledged) matches Some(why) ==> why.0 == "would_fall_due"@,
{
}

/// A request to undo is read field by field: a flag holds only where it is given as true.
pub proof fn law_an_undo_request_is_read_field_by_field(a: AskedUndo, q: RawUndo, t: String)
    requires
        is_undo_asked(a, q),
        q.as_of == Param::Text(t),
    ensures
        q.id == Param::Int(a.id),
        read_day(t@, "%Y-%m-%d"@) == Some(a.as_of.days as int),
        a.acknowledge_due <==> q.acknowledge_due == Param::Bool(true),
        a.dry_run <==> q.dry_run == Param::Bool(true),
{
}

/// A currency is taken exactly where its code is three letters and it has no more than eight digits
/// after the point.
pub proof fn law_a_currency_has_three_letters_and_few_digits(code: Seq<char>, digits: Option<i64>)
    ensures
        ({
            let c = upper(trimmed(code));
            currency_refusal(code, digits) is None <==> c.len() == 3 && is_letter(c[0]) && is_letter(c[1])
                && is_letter(c[2]) && digits is Some && 0 <= digits->0 <= 8
        }),
        forall|x: char| #[trigger]
            is_letter(x) <==> ('a' <= x && x <= 'z') || ('A' <= x && x <= 'Z'),
{
    let c = upper(trimmed(code));
    if c.len() == 3 && is_letter(c[0]) && is_letter(c[1]) && is_letter(c[2]) {
        assert forall|i: int| 0 <= i < c.len() implies is_letter(#[trigger] c[i]) by {
            assert(i == 0 || i == 1 || i == 2);
        }
        assert(crate::desk::is_code(c));
    }
}

/// A book says its version as a number; one that says none is at the start.
pub proof fn law_a_books_version_is_the_number_it_says(s: Seq<char>, n: int)
    ensures
        number_in(s, i64::MIN as int, i64::MAX as int) == Some(n) ==> recorded_version(Some(s)) == n,
        number_in(s, i64::MIN as int, i64::MAX as int) is None ==> recorded_version(Some(s)) == 0,
        recorded_version(None) == 0,
{
}

/// A batch counts its rows: those to be taken, those that are in the book already and those that
/// could not be read.
pub proof fn law_a_batch_counts_its_rows(
    b: Batch,
    c: Batch,
    rows: Seq<StagedView>,
    r: StagedView,
)
    requires
        is_batch(b, rows),
        is_batch(c, rows.push(r)),
    ensures
        b.rows@.len() == rows.len(),
        staged_views(c.rows@) == staged_views(b.rows@).push(r),
        c.new_rows == b.new_rows + (if r.accepted {
            1int
        } else {
            0
        }),
        c.duplicates == b.duplicates + (if r.dup_of_txn_id is Some {
            1int
        } else {
            0
        }),
        c.errors == b.errors + (if r.error is Some {
            1int
        } else {
            0
        }),
{
    assert(rows.push(r).drop_last() =~= rows);
    assert(staged_views(b.rows@).len() == b.rows@.len());
}

/// A first look at a statement shows its headers without blanks at their ends and of its first three
/// records those that can be read.
pub proof fn law_a_peek_shows_the_first_three_records(
    p: Peek,
    headers: Seq<Seq<char>>,
    records: Seq<Result<Seq<Seq<char>>, Seq<char>>>,
    text: Seq<char>,
    i: int,
)
    requires
        is_peek(p, headers, records, text),
        0 <= i < headers.len(),
    ensures
        p.headers@.len() == headers.len(),
        p.headers@[i]@ == trimmed(headers[i]),
        records.len() >= 3 ==> first_three(records) == records.take(3),
        records.len() < 3 ==> first_three(records) == records,
{
    assert(views(p.headers@)[i] == trimmed(headers[i]));
    assert(views(p.headers@).len() == p.headers@.len());
}

/// Records that can be read are kept in their order, and the others dropped.
pub proof fn law_only_what_can_be_read_is_shown(
    records: Seq<Result<Seq<Seq<char>>, Seq<char>>>,
    row: Seq<Seq<char>>,
    why: Seq<char>,
)
    ensures
        readable(records.push(Ok(row))) == readable(records).push(row),
        readable(records.push(Err(why))) == readable(records),
{
    assert(records.push(Ok(row)).drop_last() =~= records);
    assert(records.push(Err(why)).drop_last() =~= records);
}

/// A rule is put into words only where it can be expanded and every part of it is understood; else it
/// is shown as it is written.
pub proof fn law_a_rule_without_words_is_shown_as_written(
    raw: Seq<char>,
    up: Seq<char>,
    dtstart: Date,
    expands: bool,
    v: PartsView,
    words: Seq<char>,
)
    ensures
        !expands ==> described_by(raw, up, dtstart, expands) == raw,
        parts_of(split(up, ';')) is None ==> described_by(raw, up, dtstart, expands) == raw,
        expands && parts_of(split(up, ';')) == Some(v) && phrase(v, dtstart) is None ==> described_by(
            raw,
            up,
            dtstart,
            expands,
        ) == raw,
        expands && parts_of(split(up, ';')) == Some(v) && phrase(v, dtstart) == Some(words)
            ==> described_by(raw, up, dtstart, expands) == words,
{
}

/// The parts of a rule are read one after the other, and one that is not understood spoils the whole.
pub proof fn law_the_parts_of_a_rule_are_read_in_turn(
    pieces: Seq<Seq<char>>,
    p: Seq<char>,
    v: PartsView,
)
    ensures
        parts_of(pieces) is None ==> parts_of(pieces.push(p)) is None,
        parts_of(pieces) == Some(v) ==> parts_of(pieces.push(p)) == crate::recur::with_part(v, p),
        parts_of(Seq::empty()) matches Some(e) ==> e.interval == 1 && e.freq is None && e.byday is None
            && e.bymonthday is None && e.bysetpos is None && e.bymonth is None,
        parts_of(Seq::empty()) is Some,
{
    assert(pieces.push(p).drop_last() =~= pieces);
}

/// A transaction in a summary or a list is the one it stands for.
pub proof fn law_a_listed_transaction_is_the_one_it_stands_for(
    n: Seq<Newest>,
    o: Seq<Oldest>,
    txns: Seq<Listed>,
    at: Seq<int>,
    i: int,
)
    requires
        are_newest(n, txns, at),
        are_oldest(o, txns, at),
        0 <= i < at.len(),
    ensures
        n[i].id == txns[n[i].at as int].id,
        n[i].on@ == txns[n[i].at as int].occurred_on@,
        o[i].id == txns[o[i].at as int].id,
        o[i].on@ == txns[o[i].at as int].occurred_on@,
{
    assert(n[i].at == at[i]);
    assert(o[i].at == at[i]);
}

/// A brief looks back over the asked-for months before this one, counts what is committed over the
/// twelve months from today and looks ahead to the horizon, all with no what-if in play.
pub proof fn law_a_brief_looks_back_and_ahead_from_today<R: Recurrence>(
    recur: &R,
    facts: &BookFacts,
    snap: &Snapshot,
    opt: &BriefOptions,
    b: Brief,
) -> (w: (Projection, Projection))
    requires
        call_ensures(brief::<R>, (recur, facts, snap, opt), Ok(b)),
    ensures
        b.year_end.days == year_end(opt.as_of.days as int),
        projects(*recur, *snap, Set::empty(), opt.as_of, b.year_end, w.0),
        projects(*recur, *snap, Set::empty(), opt.as_of, opt.horizon, w.1),
        b.projected_movements == w.1.occurrences@.len(),
        b.outlook.goes_negative <==> exists|i: int|
            0 <= i < b.outlook.accounts@.len() && (
            #[trigger] b.outlook.accounts@[i]).first_negative_on is Some,
        b.largest@.len() <= opt.largest_n,
{
    let p = choose|p: Projection| #[trigger]
        projects(*recur, *snap, Set::empty(), opt.as_of, b.year_end, p);
    let q = choose|p: Projection| #[trigger]
        projects(*recur, *snap, Set::empty(), opt.as_of, opt.horizon, p)
            && b.projected_movements == p.occurrences@.len();
    let t = b.outlook.accounts@;
    let v = track_views(t);
    assert forall|i: int| 0 <= i < t.len() implies ((#[trigger] t[i]).first_negative_on is Some
        <==> v[i].first_negative_on is Some) by {}
    if some_go_under(v) {
        let i = choose|i: int| 0 <= i < v.len() && (#[trigger] v[i]).first_negative_on is Some;
        assert(t[i].first_negative_on is Some);
    }
    (p, q)
}

/// Rates are stored in the order they are published, up to the first that is refused.
pub proof fn law_rates_are_stored_up_to_the_first_refused(
    r: RatesRead,
    entries: Seq<(Seq<char>, Seq<char>)>,
    base: Seq<char>,
    reported: Seq<char>,
    i: int,
)
    requires
        rates_of(r, entries, base, reported),
        0 <= i < r.rows@.len(),
    ensures
        r.rows@.len() <= entries.len(),
        row_from(r.rows@[i], entries[i], base, reported),
        storable(entries[i], base),
        r.refused is None <==> r.rows@.len() == entries.len(),
{
    let n = r.rows@.len() as int;
    assert(entries.take(n)[i] == entries[i]);
    assert(storable(entries.take(n)[i], base));
}

/// Of every rule each row is named with the rule's lineage, and is of the latest part exactly where
/// its part is the last.
pub proof fn law_a_row_is_latest_where_its_part_is_the_last(
    hops: Seq<Hop>,
    lin: i64,
    parts: Seq<Seq<int>>,
    n: int,
    total: int,
    s: Standing,
)
    requires
        0 <= n <= parts.len(),
    ensures
        crate::rules::standings(hops, lin, parts, n, total).contains(s) <==> s.lineage_id == lin && exists|
            k: int,
            j: int,
        |
            0 <= k < n && 0 <= j < parts[k].len() && s.id == hops[#[trigger] parts[k][j]].id && (s.latest
                <==> k + 1 == total),
    decreases n,
{
    if n > 0 {
        law_a_row_is_latest_where_its_part_is_the_last(hops, lin, parts, n - 1, total, s);
        let before = crate::rules::standings(hops, lin, parts, n - 1, total);
        let f = |i: int| Standing { id: hops[i].id, lineage_id: lin, latest: n == total };
        let own = parts[n - 1].map_values(f);
        lemma_join_has(before, own, s);
        if own.contains(s) {
            let j = choose|j: int| 0 <= j < own.len() && own[j] == s;
            assert(s.id == hops[parts[n - 1][j]].id);
        }
        if s.lineage_id == lin {
            assert forall|k: int, j: int|
                0 <= k < n && 0 <= j < parts[k].len() && s.id == hops[#[trigger] parts[k][j]].id && (
                s.latest <==> k + 1 == total) implies before.contains(s) || own.contains(s) by {
                if k == n - 1 {
                    assert(own[j] == s);
                }
            }
        }
    }
}

/// Every rule of the book is named with all its rows.
pub proof fn law_every_row_of_a_rule_is_named(hops: Seq<Hop>, lins: Seq<i64>, lin: i64, s: Standing)
    ensures
        all_standings(hops, lins.push(lin)).contains(s) <==> all_standings(hops, lins).contains(s) || ({
            let parts = parts_with(hops, crate::rules::all_parts(hops), lin);
            crate::rules::standings(hops, lin, parts, parts.len() as int, parts.len() as int).contains(s)
        }),
{
    assert(lins.push(lin).drop_last() =~= lins);
    let parts = parts_with(hops, crate::rules::all_parts(hops), lin);
    lemma_join_has(
        all_standings(hops, lins),
        crate::rules::standings(hops, lin, parts, parts.len() as int, parts.len() as int),
        s,
    );
}

} // verus!
