//! What an edit does to the payments already recorded and to the adjustments already made.
//!
//! A recorded payment keeps its slot. So a change to which dates a rule produces is refused for the
//! whole rule while a recorded payment sits on a date the new rule would not produce, and a change
//! from a date is refused while a payment is recorded on or after it. An adjustment on such a date is
//! dropped only where the person confirms it.

use crate::date::Date;
use crate::lists::{first, lemma_first};
use crate::money::Minor;
use crate::paths::{put, with_id};
use crate::revise::{
    answer_view, answers, day_at, is_refusal, put_ask, two_years, two_years_on, Answer, Plan,
    Refusal, Terms,
};
use crate::recur::{Ask, Recurrence};
use crate::text::{str_eq, views};
use crate::wording::{dmy, dmy_iso, fail, in_words, list_words, said, said_text, EditError};
use vstd::prelude::*;

verus! {

broadcast use vstd::string::group_string_axioms;

/// A recorded payment and the slot it claims.
#[derive(Debug, Clone, Copy)]
pub struct Claim {
    pub txn_id: i64,
    pub series_id: i64,
    pub occurrence_on: Date,
    pub occurred_on: Date,
}

/// An adjustment of a slot.
#[derive(Debug, Clone)]
pub struct Adjustment {
    pub series_id: i64,
    pub occurrence_on: Date,
    pub action: String,
    pub moved_to: Option<Date>,
    pub amount_minor: Option<Minor>,
    pub description: Option<String>,
    pub note: Option<String>,
}

/// What an adjustment did to its slot, in a word a person uses.
pub open spec fn word_for(a: Adjustment) -> Seq<char> {
    if a.action@ == "skip"@ {
        "skipped"@
    } else if a.moved_to is Some && a.amount_minor is None {
        "moved"@
    } else if a.moved_to is Some {
        "moved and amended"@
    } else {
        "amended"@
    }
}

/// What an adjustment did to its slot, in a word a person uses.
pub fn action_word(a: &Adjustment) -> (r: &'static str)
    ensures
        r@ == word_for(*a),
{
    if str_eq(a.action.as_str(), "skip") {
        "skipped"
    } else if a.moved_to.is_some() && a.amount_minor.is_none() {
        "moved"
    } else if a.moved_to.is_some() {
        "moved and amended"
    } else {
        "amended"
    }
}

/// The days that payments claim, in order.
pub open spec fn claim_days(claims: Seq<Claim>) -> Seq<i64>
    decreases claims.len(),
{
    if claims.len() == 0 {
        Seq::empty()
    } else {
        with_id(claim_days(claims.drop_last()), claims.last().occurrence_on.days as i64)
    }
}

/// The days that are adjusted, in order.
pub open spec fn adjusted_days(adjs: Seq<Adjustment>) -> Seq<i64>
    decreases adjs.len(),
{
    if adjs.len() == 0 {
        Seq::empty()
    } else {
        with_id(adjusted_days(adjs.drop_last()), adjs.last().occurrence_on.days as i64)
    }
}

/// The days of a list for which something holds.
pub open spec fn days_where(days: Seq<i64>, p: spec_fn(i64) -> bool) -> Seq<i64>
    decreases days.len(),
{
    if days.len() == 0 {
        days
    } else if p(days.last()) {
        days_where(days.drop_last(), p).push(days.last())
    } else {
        days_where(days.drop_last(), p)
    }
}

/// Whether a day is among days.
pub open spec fn has_day(days: Seq<Date>, d: i64) -> bool {
    exists|i: int| 0 <= i < days.len() && (#[trigger] days[i]).days == d
}

/// Whether a day is one that the old rule produces and the new one does not. A rule that does not
/// expand is taken to produce every day.
pub open spec fn is_detached(old: Answer, new: Seq<Date>) -> spec_fn(i64) -> bool {
    |d: i64| (old matches Ok(days) ==> has_day(days, d)) && !has_day(new, d)
}

/// Whether a day is so detached, and late enough still to change a forecast.
pub open spec fn is_dropped(old: Answer, new: Seq<Date>, lookback: i64) -> spec_fn(i64) -> bool {
    |d: i64| is_detached(old, new)(d) && d >= lookback
}

/// Whether a day is so detached, and too early to matter.
pub open spec fn is_left(old: Answer, new: Seq<Date>, lookback: i64) -> spec_fn(i64) -> bool {
    |d: i64| is_detached(old, new)(d) && d < lookback
}

/// Whether a day is on or after another.
pub open spec fn is_from(from: i64) -> spec_fn(i64) -> bool {
    |d: i64| d >= from
}

/// Whether a day is on or after another, and one that the new rule produces.
pub open spec fn is_carried(from: i64, new: Seq<Date>) -> spec_fn(i64) -> bool {
    |d: i64| d >= from && has_day(new, d)
}

/// Whether a day is on or after another, and one that the new rule does not produce.
pub open spec fn is_left_behind(from: i64, new: Seq<Date>) -> spec_fn(i64) -> bool {
    |d: i64| d >= from && !has_day(new, d)
}

/// The days that payments claim, in order.
pub fn collect_claim_days(claims: &Vec<Claim>) -> (r: Vec<i64>)
    ensures
        r@ == claim_days(claims@),
{
    let mut out: Vec<i64> = Vec::new();
    let mut i: usize = 0;
    while i < claims.len()
        invariant
            i <= claims@.len(),
            out@ == claim_days(claims@.take(i as int)),
        decreases claims@.len() - i,
    {
        assert(claims@.take(i + 1).drop_last() =~= claims@.take(i as int));
        put(&mut out, claims[i].occurrence_on.days as i64);
        i = i + 1;
    }
    assert(claims@.take(claims@.len() as int) =~= claims@);
    out
}

/// The days that are adjusted, in order.
pub fn collect_adjusted_days(adjs: &Vec<Adjustment>) -> (r: Vec<i64>)
    ensures
        r@ == adjusted_days(adjs@),
{
    let mut out: Vec<i64> = Vec::new();
    let mut i: usize = 0;
    while i < adjs.len()
        invariant
            i <= adjs@.len(),
            out@ == adjusted_days(adjs@.take(i as int)),
        decreases adjs@.len() - i,
    {
        assert(adjs@.take(i + 1).drop_last() =~= adjs@.take(i as int));
        put(&mut out, adjs[i].occurrence_on.days as i64);
        i = i + 1;
    }
    assert(adjs@.take(adjs@.len() as int) =~= adjs@);
    out
}

/// Whether a day is among days.
pub fn contains_day(days: &Vec<Date>, d: i64) -> (r: bool)
    ensures
        r == has_day(days@, d),
{
    let mut i: usize = 0;
    while i < days.len()
        invariant
            i <= days@.len(),
            forall|j: int| 0 <= j < i ==> (#[trigger] days@[j]).days != d,
        decreases days@.len() - i,
    {
        if days[i].days as i64 == d {
            assert(days@[i as int].days == d);
            return true;
        }
        i = i + 1;
    }
    false
}

fn detached(old: &Result<Vec<Date>, String>, new: &Vec<Date>, d: i64) -> (r: bool)
    ensures
        r == is_detached(answer_view(*old), new@)(d),
{
    let had = match old {
        Ok(days) => contains_day(days, d),
        Err(_) => true,
    };
    had && !contains_day(new, d)
}

/// What an edit does to payments and adjustments, by day.
#[derive(Debug, Clone)]
pub struct Effects {
    /// The days of the recorded payments that stand in its way.
    pub blocked: Vec<i64>,
    /// The earliest date from which the change would work.
    pub suggest_from: Option<i64>,
    /// The adjusted days whose adjustments it drops.
    pub dropped: Vec<i64>,
    /// The adjusted days that stay on dates the rule no longer produces.
    pub left_on_old_dates: Vec<i64>,
    /// The adjusted days that travel to the new part.
    pub carried: Vec<i64>,
    /// The adjusted days that stay with the earlier part, which now ends before them.
    pub left_behind: Vec<i64>,
}

/// The greater of two days.
pub open spec fn later(a: int, b: int) -> int {
    if a < b {
        b
    } else {
        a
    }
}

/// The day after a day, the last day there is where it is that.
pub open spec fn day_after(n: int) -> int {
    if n < i32::MAX {
        n + 1
    } else {
        n
    }
}

fn next_day(d: i64) -> (r: i64)
    requires
        i32::MIN <= d <= i32::MAX,
    ensures
        r == day_after(d as int),
        i32::MIN <= r <= i32::MAX,
{
    if d < i32::MAX as i64 {
        d + 1
    } else {
        d
    }
}

/// Whether effects are those of an edit made in place.
///
/// `first_slot` is the first day the part pays as it is.
pub open spec fn in_place_effects(
    x: Effects,
    claims: Seq<Claim>,
    adjs: Seq<Adjustment>,
    old: Answer,
    new: Seq<Date>,
    lookback: i64,
    first_slot: int,
) -> bool {
    let days = claim_days(claims);
    &&& x.blocked@ == days_where(days, is_detached(old, new))
    &&& x.dropped@ == days_where(adjusted_days(adjs), is_dropped(old, new, lookback))
    &&& x.left_on_old_dates@ == days_where(adjusted_days(adjs), is_left(old, new, lookback))
    &&& x.suggest_from == (if x.blocked@.len() > 0 {
        Some(later(day_after(days.last() as int), day_after(first_slot)) as i64)
    } else {
        None
    })
    &&& x.carried@.len() == 0
    &&& x.left_behind@.len() == 0
}

/// Whether effects are none.
pub open spec fn no_effects(x: Effects) -> bool {
    &&& x.blocked@.len() == 0
    &&& x.suggest_from is None
    &&& x.dropped@.len() == 0
    &&& x.left_on_old_dates@.len() == 0
    &&& x.carried@.len() == 0
    &&& x.left_behind@.len() == 0
}

/// Whether effects are those of an edit that splits the rule.
pub open spec fn split_effects(
    x: Effects,
    claims: Seq<Claim>,
    adjs: Seq<Adjustment>,
    from: i64,
    new: Seq<Date>,
) -> bool {
    &&& x.blocked@ == days_where(claim_days(claims), is_from(from))
    &&& x.suggest_from == (if x.blocked@.len() > 0 {
        Some(day_after(x.blocked@.last() as int) as i64)
    } else {
        None
    })
    &&& x.dropped@.len() == 0
    &&& x.left_on_old_dates@.len() == 0
    &&& x.carried@ == days_where(adjusted_days(adjs), is_carried(from, new))
    &&& x.left_behind@ == days_where(adjusted_days(adjs), is_left_behind(from, new))
}

/// No effects.
pub fn nothing() -> (r: Effects)
    ensures
        no_effects(r),
{
    Effects {
        blocked: Vec::new(),
        suggest_from: None,
        dropped: Vec::new(),
        left_on_old_dates: Vec::new(),
        carried: Vec::new(),
        left_behind: Vec::new(),
    }
}

proof fn lemma_with_day(s: Seq<i64>, d: i64)
    requires
        are_days(s),
        i32::MIN <= d <= i32::MAX,
    ensures
        are_days(with_id(s, d)),
{
    let w = with_id(s, d);
    crate::paths::lemma_with_id(s, d);
    assert forall|k: int| 0 <= k < w.len() implies i32::MIN <= #[trigger] w[k] <= i32::MAX by {
        assert(w.contains(w[k]));
        if s.contains(w[k]) {
            let j = choose|j: int| 0 <= j < s.len() && s[j] == w[k];
            assert(i32::MIN <= s[j] <= i32::MAX);
        }
    }
}

/// The days collected are days.
pub proof fn lemma_claim_days(claims: Seq<Claim>)
    ensures
        are_days(claim_days(claims)),
    decreases claims.len(),
{
    if claims.len() > 0 {
        lemma_claim_days(claims.drop_last());
        lemma_with_day(
            claim_days(claims.drop_last()),
            claims.last().occurrence_on.days as i64,
        );
    }
}

/// The days collected are days.
pub proof fn lemma_adjusted_days(adjs: Seq<Adjustment>)
    ensures
        are_days(adjusted_days(adjs)),
    decreases adjs.len(),
{
    if adjs.len() > 0 {
        lemma_adjusted_days(adjs.drop_last());
        lemma_with_day(adjusted_days(adjs.drop_last()), adjs.last().occurrence_on.days as i64);
    }
}

/// The days collected are days.
pub proof fn lemma_key_days(claims: Seq<Claim>, adjs: Seq<Adjustment>)
    ensures
        are_days(key_days(claims, adjs)),
    decreases adjs.len(),
{
    if adjs.len() > 0 {
        lemma_key_days(claims, adjs.drop_last());
        lemma_with_day(key_days(claims, adjs.drop_last()), adjs.last().occurrence_on.days as i64);
    } else {
        lemma_claim_days(claims);
    }
}

proof fn lemma_days_where(days: Seq<i64>, p: spec_fn(i64) -> bool)
    requires
        are_days(days),
    ensures
        are_days(days_where(days, p)),
{
    let w = days_where(days, p);
    assert forall|k: int| 0 <= k < w.len() implies i32::MIN <= #[trigger] w[k] <= i32::MAX by {
        lemma_days_where_in(days, p, k);
        let j = choose|j: int| 0 <= j < days.len() && days[j] == w[k];
        assert(i32::MIN <= days[j] <= i32::MAX);
    }
}

proof fn lemma_days_where_in(days: Seq<i64>, p: spec_fn(i64) -> bool, k: int)
    requires
        0 <= k < days_where(days, p).len(),
    ensures
        days.contains(days_where(days, p)[k]),
        p(days_where(days, p)[k]),
    decreases days.len(),
{
    if days.len() > 0 {
        let rest = days.drop_last();
        let w = days_where(rest, p);
        if k < w.len() {
            lemma_days_where_in(rest, p, k);
            let j = choose|j: int| 0 <= j < rest.len() && rest[j] == w[k];
            assert(days[j] == w[k]);
        } else {
            assert(days[days.len() - 1] == days.last());
        }
    }
}

/// What an edit made in place does, given the days that the old rule and the new one produce between
/// the first and the last day that is claimed or adjusted.
pub fn in_place(
    claims: &Vec<Claim>,
    adjs: &Vec<Adjustment>,
    old: &Result<Vec<Date>, String>,
    new: &Vec<Date>,
    lookback: Date,
    first_slot: Date,
) -> (r: Effects)
    ensures
        in_place_effects(
            r,
            claims@,
            adjs@,
            answer_view(*old),
            new@,
            lookback.days as i64,
            first_slot.days as int,
        ),
        effects_fit(r),
{
    let days = collect_claim_days(claims);
    let adj = collect_adjusted_days(adjs);
    let back: i64 = lookback.days as i64;
    let ghost was = answer_view(*old);
    let mut x = nothing();
    let mut i: usize = 0;
    assert(days@.take(0) =~= Seq::<i64>::empty());
    while i < days.len()
        invariant
            i <= days@.len(),
            was == answer_view(*old),
            x.blocked@ == days_where(days@.take(i as int), is_detached(was, new@)),
            x.suggest_from is None,
            x.dropped@.len() == 0,
            x.left_on_old_dates@.len() == 0,
            x.carried@.len() == 0,
            x.left_behind@.len() == 0,
        decreases days@.len() - i,
    {
        assert(days@.take(i + 1).drop_last() =~= days@.take(i as int));
        if detached(old, new, days[i]) {
            x.blocked.push(days[i]);
        }
        i = i + 1;
    }
    assert(days@.take(days@.len() as int) =~= days@);
    let mut k: usize = 0;
    assert(adj@.take(0) =~= Seq::<i64>::empty());
    while k < adj.len()
        invariant
            k <= adj@.len(),
            was == answer_view(*old),
            back == lookback.days,
            x.blocked@ == days_where(days@, is_detached(was, new@)),
            x.suggest_from is None,
            x.dropped@ == days_where(adj@.take(k as int), is_dropped(was, new@, back)),
            x.left_on_old_dates@ == days_where(adj@.take(k as int), is_left(was, new@, back)),
            x.carried@.len() == 0,
            x.left_behind@.len() == 0,
        decreases adj@.len() - k,
    {
        assert(adj@.take(k + 1).drop_last() =~= adj@.take(k as int));
        if detached(old, new, adj[k]) {
            if adj[k] >= back {
                x.dropped.push(adj[k]);
            } else {
                x.left_on_old_dates.push(adj[k]);
            }
        }
        k = k + 1;
    }
    assert(adj@.take(adj@.len() as int) =~= adj@);
    proof {
        lemma_claim_days(claims@);
        lemma_adjusted_days(adjs@);
        lemma_days_where(days@, is_detached(was, new@));
        lemma_days_where(adj@, is_dropped(was, new@, back));
    }
    if x.blocked.len() > 0 {
        proof {
            lemma_days_where_in(days@, is_detached(was, new@), 0);
            assert(days@.len() > 0);
        }
        let n: usize = days.len();
        let a: i64 = next_day(days[n - 1]);
        let b: i64 = next_day(first_slot.days as i64);
        x.suggest_from = Some(
            if a < b {
                b
            } else {
                a
            },
        );
    }
    x
}

/// What an edit that splits a rule does, given the days that the new rule produces between the first
/// and the last day adjusted from the date on.
pub fn splitting(claims: &Vec<Claim>, adjs: &Vec<Adjustment>, from: Date, new: &Vec<Date>) -> (r:
    Effects)
    ensures
        split_effects(r, claims@, adjs@, from.days as i64, new@),
        effects_fit(r),
{
    let days = collect_claim_days(claims);
    let adj = collect_adjusted_days(adjs);
    let at: i64 = from.days as i64;
    let mut x = nothing();
    let mut i: usize = 0;
    assert(days@.take(0) =~= Seq::<i64>::empty());
    while i < days.len()
        invariant
            i <= days@.len(),
            at == from.days,
            x.blocked@ == days_where(days@.take(i as int), is_from(at)),
            x.suggest_from is None,
            x.dropped@.len() == 0,
            x.left_on_old_dates@.len() == 0,
            x.carried@.len() == 0,
            x.left_behind@.len() == 0,
        decreases days@.len() - i,
    {
        assert(days@.take(i + 1).drop_last() =~= days@.take(i as int));
        if days[i] >= at {
            x.blocked.push(days[i]);
        }
        i = i + 1;
    }
    assert(days@.take(days@.len() as int) =~= days@);
    let mut k: usize = 0;
    assert(adj@.take(0) =~= Seq::<i64>::empty());
    while k < adj.len()
        invariant
            k <= adj@.len(),
            at == from.days,
            x.blocked@ == days_where(days@, is_from(at)),
            x.suggest_from is None,
            x.dropped@.len() == 0,
            x.left_on_old_dates@.len() == 0,
            x.carried@ == days_where(adj@.take(k as int), is_carried(at, new@)),
            x.left_behind@ == days_where(adj@.take(k as int), is_left_behind(at, new@)),
        decreases adj@.len() - k,
    {
        assert(adj@.take(k + 1).drop_last() =~= adj@.take(k as int));
        if adj[k] >= at {
            if contains_day(new, adj[k]) {
                x.carried.push(adj[k]);
            } else {
                x.left_behind.push(adj[k]);
            }
        }
        k = k + 1;
    }
    assert(adj@.take(adj@.len() as int) =~= adj@);
    proof {
        lemma_claim_days(claims@);
        lemma_days_where(days@, is_from(at));
    }
    let n: usize = x.blocked.len();
    if n > 0 {
        x.suggest_from = Some(next_day(x.blocked[n - 1]));
    }
    x
}

/// The days that are claimed or adjusted, in order.
pub open spec fn key_days(claims: Seq<Claim>, adjs: Seq<Adjustment>) -> Seq<i64>
    decreases adjs.len(),
{
    if adjs.len() == 0 {
        claim_days(claims)
    } else {
        with_id(key_days(claims, adjs.drop_last()), adjs.last().occurrence_on.days as i64)
    }
}

/// The days that are claimed or adjusted, in order.
pub fn collect_key_days(claims: &Vec<Claim>, adjs: &Vec<Adjustment>) -> (r: Vec<i64>)
    ensures
        r@ == key_days(claims@, adjs@),
{
    let mut out = collect_claim_days(claims);
    let mut i: usize = 0;
    assert(adjs@.take(0) =~= Seq::<Adjustment>::empty());
    while i < adjs.len()
        invariant
            i <= adjs@.len(),
            out@ == key_days(claims@, adjs@.take(i as int)),
        decreases adjs@.len() - i,
    {
        assert(adjs@.take(i + 1).drop_last() =~= adjs@.take(i as int));
        put(&mut out, adjs[i].occurrence_on.days as i64);
        i = i + 1;
    }
    assert(adjs@.take(adjs@.len() as int) =~= adjs@);
    out
}

/// The adjusted days from a date on, in order.
pub fn later_days(adjs: &Vec<Adjustment>, from: Date) -> (r: Vec<i64>)
    ensures
        r@ == days_where(adjusted_days(adjs@), is_from(from.days as i64)),
{
    let adj = collect_adjusted_days(adjs);
    let at: i64 = from.days as i64;
    let mut out: Vec<i64> = Vec::new();
    let mut k: usize = 0;
    assert(adj@.take(0) =~= Seq::<i64>::empty());
    while k < adj.len()
        invariant
            k <= adj@.len(),
            at == from.days,
            out@ == days_where(adj@.take(k as int), is_from(at)),
        decreases adj@.len() - k,
    {
        assert(adj@.take(k + 1).drop_last() =~= adj@.take(k as int));
        if adj[k] >= at {
            out.push(adj[k]);
        }
        k = k + 1;
    }
    assert(adj@.take(adj@.len() as int) =~= adj@);
    out
}

/// The first day a part pays as it is, its start where it pays none or does not expand.
pub open spec fn first_slot_of(a: Answer, start: Date) -> int {
    match a {
        Ok(days) => if days.len() > 0 {
            days[0].days as int
        } else {
            start.days as int
        },
        Err(_) => start.days as int,
    }
}

/// Whether a plan made in place changes which dates the rule produces.
pub open spec fn reschedules(before: Terms, p: Plan) -> bool {
    p.rule_changed || before.dtstart != p.after.dtstart
}

/// The question which days some rule produces between two days, whatever its end: an end does not
/// change which slots a rule has, only which it still pays.
pub open spec fn slots_ask(rrule: Seq<char>, start: Date, lo: i64, hi: i64) -> Ask {
    Ask {
        rule: rrule,
        dtstart: start,
        until: None,
        lo: Date { days: lo as i32 },
        hi: Date { days: hi as i32 },
    }
}

/// The question what a part pays from its start.
pub open spec fn first_ask(before: Terms) -> Ask {
    Ask {
        rule: before.rrule@,
        dtstart: before.dtstart,
        until: before.until_on,
        lo: before.dtstart,
        hi: day_at(two_years_on(before.dtstart.days as int)),
    }
}

/// Whether an outcome is that of an edit made in place, by what an expander answers.
pub open spec fn in_place_outcome<R: Recurrence>(
    recur: R,
    before: Terms,
    p: Plan,
    claims: Seq<Claim>,
    adjs: Seq<Adjustment>,
    lookback: Date,
    r: Result<Effects, EditError>,
) -> bool {
    let keys = key_days(claims, adjs);
    exists|old: Answer, new: Answer, slot: Answer|
        #![trigger in_place_answers(recur, before, p, keys, old, new, slot)]
        in_place_answers(recur, before, p, keys, old, new, slot) && match new {
            Err(m) => r matches Err(e) && is_refusal(e, ("bad_rule"@, m)),
            Ok(days) => r matches Ok(x) && in_place_effects(
                x,
                claims,
                adjs,
                old,
                days,
                lookback.days as i64,
                first_slot_of(slot, before.dtstart),
            ),
        }
}

/// Whether answers are those an edit made in place rests on.
pub open spec fn in_place_answers<R: Recurrence>(
    recur: R,
    before: Terms,
    p: Plan,
    keys: Seq<i64>,
    old: Answer,
    new: Answer,
    slot: Answer,
) -> bool {
    &&& answers(recur, slots_ask(before.rrule@, before.dtstart, keys[0], keys.last()), old)
    &&& answers(recur, slots_ask(p.after.rrule@, p.after.dtstart, keys[0], keys.last()), new)
    &&& answers(recur, first_ask(before), slot)
}

/// Whether an outcome is that of an edit that splits the rule, by what an expander answers.
pub open spec fn split_outcome<R: Recurrence>(
    recur: R,
    p: Plan,
    from: Date,
    claims: Seq<Claim>,
    adjs: Seq<Adjustment>,
    r: Result<Effects, EditError>,
) -> bool {
    let later = days_where(adjusted_days(adjs), is_from(from.days as i64));
    if later.len() == 0 {
        r matches Ok(x) && split_effects(x, claims, adjs, from.days as i64, Seq::empty())
    } else {
        exists|new: Answer|
            #![trigger answers(recur, slots_ask(p.after.rrule@, p.after.dtstart, later[0], later.last()), new)]
            answers(
                recur,
                slots_ask(p.after.rrule@, p.after.dtstart, later[0], later.last()),
                new,
            ) && match new {
                Err(m) => r matches Err(e) && is_refusal(e, ("bad_rule"@, m)),
                Ok(days) => r matches Ok(x) && split_effects(
                    x,
                    claims,
                    adjs,
                    from.days as i64,
                    days,
                ),
            }
    }
}

/// Whether an outcome is what a plan does to payments and adjustments.
pub open spec fn affects<R: Recurrence>(
    recur: R,
    before: Terms,
    p: Plan,
    from_on: Option<Date>,
    claims: Seq<Claim>,
    adjs: Seq<Adjustment>,
    lookback: Date,
    r: Result<Effects, EditError>,
) -> bool {
    if p.start.split && from_on is Some {
        split_outcome(recur, p, from_on->0, claims, adjs, r)
    } else if reschedules(before, p) && key_days(claims, adjs).len() > 0 {
        in_place_outcome(recur, before, p, claims, adjs, lookback, r)
    } else {
        r matches Ok(x) && no_effects(x)
    }
}

/// What a plan does to the payments recorded for a part and to its adjustments. `from_on` is the
/// date of the edit where it has one, `lookback` the earliest day that a forecast still looks at.
pub fn effects<R: Recurrence>(
    recur: &R,
    before: &Terms,
    p: &Plan,
    from_on: Option<Date>,
    claims: &Vec<Claim>,
    adjs: &Vec<Adjustment>,
    lookback: Date,
) -> (r: Result<Effects, EditError>)
    ensures
        affects(*recur, *before, *p, from_on, claims@, adjs@, lookback, r),
        r matches Ok(x) ==> effects_fit(x),
{
    if p.start.split && from_on.is_some() {
        let from = from_on.unwrap();
        let days = later_days(adjs, from);
        let n: usize = days.len();
        if n == 0 {
            let none: Vec<Date> = Vec::new();
            return Ok(splitting(claims, adjs, from, &none));
        }
        proof {
            lemma_adjusted_days(adjs@);
            lemma_days_where(adjusted_days(adjs@), is_from(from.days as i64));
            assert(i32::MIN <= days@[0] <= i32::MAX);
            assert(i32::MIN <= days@[n - 1] <= i32::MAX);
        }
        let lo = Date { days: days[0] as i32 };
        let hi = Date { days: days[n - 1] as i32 };
        let new = put_ask(recur, p.after.rrule.as_str(), p.after.dtstart, None, lo, hi);
        let ghost ask = slots_ask(p.after.rrule@, p.after.dtstart, days@[0], days@.last());
        assert(answers(*recur, ask, answer_view(new)));
        return match new {
            Err(m) => Err(fail("bad_rule", m)),
            Ok(v) => Ok(splitting(claims, adjs, from, &v)),
        };
    }
    let moved = p.rule_changed || before.dtstart.days != p.after.dtstart.days;
    let keys = collect_key_days(claims, adjs);
    let n: usize = keys.len();
    if !moved || n == 0 {
        return Ok(nothing());
    }
    proof {
        lemma_key_days(claims@, adjs@);
        assert(i32::MIN <= keys@[0] <= i32::MAX);
        assert(i32::MIN <= keys@[n - 1] <= i32::MAX);
    }
    let lo = Date { days: keys[0] as i32 };
    let hi = Date { days: keys[n - 1] as i32 };
    let old = put_ask(recur, before.rrule.as_str(), before.dtstart, None, lo, hi);
    let new = put_ask(recur, p.after.rrule.as_str(), p.after.dtstart, None, lo, hi);
    let slot = put_ask(
        recur,
        before.rrule.as_str(),
        before.dtstart,
        before.until_on,
        before.dtstart,
        two_years(before.dtstart),
    );
    let first = match &slot {
        Ok(v) => if v.len() > 0 {
            v[0]
        } else {
            before.dtstart
        },
        Err(_) => before.dtstart,
    };
    assert(in_place_answers(
        *recur,
        *before,
        *p,
        keys@,
        answer_view(old),
        answer_view(new),
        answer_view(slot),
    ));
    match &new {
        Err(m) => Err(fail("bad_rule", m.clone())),
        Ok(v) => Ok(in_place(claims, adjs, &old, v, lookback, first)),
    }
}

/// Whether a payment recorded on a slot the new rule does not produce stands in the way: no payment
/// is ever detached from its slot by an edit that goes through.
pub proof fn law_no_recorded_payment_is_detached(
    x: Effects,
    claims: Seq<Claim>,
    adjs: Seq<Adjustment>,
    old: Answer,
    new: Seq<Date>,
    lookback: i64,
    first_slot: int,
    i: int,
)
    requires
        in_place_effects(x, claims, adjs, old, new, lookback, first_slot),
        x.blocked@.len() == 0,
        0 <= i < claims.len(),
        old matches Ok(days) ==> has_day(days, claims[i].occurrence_on.days as i64),
    ensures
        has_day(new, claims[i].occurrence_on.days as i64),
{
    let d = claims[i].occurrence_on.days as i64;
    lemma_claim_day_in(claims, i);
    if !has_day(new, d) {
        assert(is_detached(old, new)(d));
        lemma_days_where_has(claim_days(claims), is_detached(old, new), d);
    }
}

proof fn lemma_claim_day_in(claims: Seq<Claim>, i: int)
    requires
        0 <= i < claims.len(),
    ensures
        claim_days(claims).contains(claims[i].occurrence_on.days as i64),
    decreases claims.len(),
{
    let rest = claims.drop_last();
    crate::paths::lemma_with_id(claim_days(rest), claims.last().occurrence_on.days as i64);
    if i < claims.len() - 1 {
        assert(rest[i] == claims[i]);
        lemma_claim_day_in(rest, i);
    }
}

proof fn lemma_days_where_has(days: Seq<i64>, p: spec_fn(i64) -> bool, d: i64)
    requires
        days.contains(d),
        p(d),
    ensures
        days_where(days, p).len() > 0,
    decreases days.len(),
{
    let j = choose|j: int| 0 <= j < days.len() && days[j] == d;
    if j < days.len() - 1 {
        assert(days.drop_last()[j] == d);
        lemma_days_where_has(days.drop_last(), p, d);
    }
}

/// An adjusted day is among the adjusted days.
pub proof fn lemma_adjusted_day_in(adjs: Seq<Adjustment>, i: int)
    requires
        0 <= i < adjs.len(),
    ensures
        adjusted_days(adjs).contains(adjs[i].occurrence_on.days as i64),
    decreases adjs.len(),
{
    let rest = adjs.drop_last();
    crate::paths::lemma_with_id(adjusted_days(rest), adjs.last().occurrence_on.days as i64);
    if i < adjs.len() - 1 {
        assert(rest[i] == adjs[i]);
        lemma_adjusted_day_in(rest, i);
    }
}

/// Which days are among those for which something holds.
pub proof fn lemma_where_contains(days: Seq<i64>, p: spec_fn(i64) -> bool, d: i64)
    ensures
        days_where(days, p).contains(d) <==> days.contains(d) && p(d),
    decreases days.len(),
{
    if days.len() > 0 {
        let rest = days.drop_last();
        lemma_where_contains(rest, p, d);
        assert(rest.push(days.last()) =~= days);
        crate::paths::lemma_push_contains(rest, days.last(), d);
        crate::paths::lemma_push_contains(days_where(rest, p), days.last(), d);
    }
}

/// A split never moves a recorded payment between parts: where it goes through, every recorded
/// payment lies before its date.
pub proof fn law_a_split_moves_no_recorded_payment(
    x: Effects,
    claims: Seq<Claim>,
    adjs: Seq<Adjustment>,
    from: i64,
    new: Seq<Date>,
    i: int,
)
    requires
        split_effects(x, claims, adjs, from, new),
        x.blocked@.len() == 0,
        0 <= i < claims.len(),
    ensures
        claims[i].occurrence_on.days < from,
{
    let d = claims[i].occurrence_on.days as i64;
    lemma_claim_day_in(claims, i);
    if d >= from {
        assert(is_from(from)(d));
        lemma_days_where_has(claim_days(claims), is_from(from), d);
    }
}

/// Whether the claim at a place is on a day.
pub open spec fn claims_day(claims: Seq<Claim>, d: i64) -> spec_fn(int) -> bool {
    |i: int| claims[i].occurrence_on.days == d
}

/// Whether the adjustment at a place is on a day.
pub open spec fn adjusts_day(adjs: Seq<Adjustment>, d: i64) -> spec_fn(int) -> bool {
    |i: int| adjs[i].occurrence_on.days == d
}

/// The place of the first payment that claims a day.
pub open spec fn first_claim(claims: Seq<Claim>, d: i64) -> int {
    first(claims.len() as int, claims_day(claims, d))
}

/// The place of the first adjustment of a day.
pub open spec fn first_adjustment(adjs: Seq<Adjustment>, d: i64) -> int {
    first(adjs.len() as int, adjusts_day(adjs, d))
}

/// The place of the first payment that claims a day.
pub fn find_claim(claims: &Vec<Claim>, d: i64) -> (r: Option<usize>)
    ensures
        match r {
            Some(i) => i < claims@.len() && first_claim(claims@, d) == i,
            None => first_claim(claims@, d) == claims@.len(),
        },
{
    let mut i: usize = 0;
    while i < claims.len()
        invariant
            i <= claims@.len(),
            forall|j: int| 0 <= j < i ==> !#[trigger] claims_day(claims@, d)(j),
        decreases claims@.len() - i,
    {
        if claims[i].occurrence_on.days as i64 == d {
            proof {
                lemma_first(claims@.len() as int, claims_day(claims@, d), i as int);
            }
            return Some(i);
        }
        i = i + 1;
    }
    proof {
        lemma_first(claims@.len() as int, claims_day(claims@, d), i as int);
    }
    None
}

/// The place of the first adjustment of a day.
pub fn find_adjustment(adjs: &Vec<Adjustment>, d: i64) -> (r: Option<usize>)
    ensures
        match r {
            Some(i) => i < adjs@.len() && first_adjustment(adjs@, d) == i,
            None => first_adjustment(adjs@, d) == adjs@.len(),
        },
{
    let mut i: usize = 0;
    while i < adjs.len()
        invariant
            i <= adjs@.len(),
            forall|j: int| 0 <= j < i ==> !#[trigger] adjusts_day(adjs@, d)(j),
        decreases adjs@.len() - i,
    {
        if adjs[i].occurrence_on.days as i64 == d {
            proof {
                lemma_first(adjs@.len() as int, adjusts_day(adjs@, d), i as int);
            }
            return Some(i);
        }
        i = i + 1;
    }
    proof {
        lemma_first(adjs@.len() as int, adjusts_day(adjs@, d), i as int);
    }
    None
}

/// A payment that would fall due at once: its slot, and the day its money moves.
#[derive(Debug, Clone)]
pub struct Due {
    pub occurrence_on: String,
    pub value_on: String,
    pub amount_minor: Minor,
    pub series_id: i64,
}

/// What is said of a recorded payment.
pub open spec fn paid_item(claims: Seq<Claim>, d: i64) -> Seq<char> {
    said(d as int) + " (paid "@ + said(
        if first_claim(claims, d) < claims.len() {
            claims[first_claim(claims, d)].occurred_on.days as int
        } else {
            d as int
        },
    ) + ")"@
}

/// What is said of a dropped adjustment.
pub open spec fn dropped_item(adjs: Seq<Adjustment>, d: i64) -> Seq<char> {
    said(d as int) + " ("@ + (if first_adjustment(adjs, d) < adjs.len() {
        word_for(adjs[first_adjustment(adjs, d)])
    } else {
        Seq::empty()
    }) + ")"@
}

/// What is said of a payment that would fall due at once.
pub open spec fn due_item(d: Due) -> Seq<char> {
    said_text(d.occurrence_on@) + " would fall due now (money moves "@ + said_text(d.value_on@)
        + ")"@
}

/// What is said where payments would fall due at once.
pub open spec fn due_refusal(due: Seq<Due>) -> Refusal {
    (
        "would_fall_due"@,
        in_words(due.map_values(|d: Due| due_item(d)))
            + " — if it's already paid, record it first; confirm to save anyway"@,
    )
}

/// A day to be suggested, nothing where there is none.
pub open spec fn suggested(s: Option<i64>) -> Seq<char> {
    match s {
        Some(d) => said(d as int),
        None => Seq::empty(),
    }
}

/// Why an edit is refused once its effects are known: a recorded payment stands in its way, an
/// adjustment would be dropped that was not confirmed, or a payment would fall due at once that was
/// not acknowledged.
pub open spec fn effect_refusal(
    desc: Seq<char>,
    split: bool,
    x: Effects,
    claims: Seq<Claim>,
    adjs: Seq<Adjustment>,
    due: Seq<Due>,
    drop_overrides: bool,
    acknowledge_due: bool,
) -> Option<Refusal> {
    let n = x.blocked@.len();
    if n > 0 && split {
        Some(
            (
                "recorded_after"@,
                desc + " has "@ + (if n == 1 {
                    "a payment recorded for"@
                } else {
                    "payments recorded for"@
                }) + " "@ + in_words(x.blocked@.map_values(|d: i64| paid_item(claims, d)))
                    + ": change it from "@ + suggested(x.suggest_from) + " or later, or delete "@
                    + (if n == 1 {
                    "that payment"@
                } else {
                    "those payments"@
                }) + " in Payments"@,
            ),
        )
    } else if n > 0 {
        Some(
            (
                "slots_detached"@,
                desc + "'s schedule can't change for the whole rule: "@ + in_words(
                    x.blocked@.map_values(|d: i64| said(d as int)),
                ) + " "@ + (if n == 1 {
                    "is"@
                } else {
                    "are"@
                }) + " recorded as paid under it — change it from "@ + suggested(x.suggest_from)
                    + " instead"@,
            ),
        )
    } else if x.dropped@.len() > 0 && !drop_overrides {
        Some(
            (
                "would_drop"@,
                "the new schedule has no payment on "@ + in_words(
                    x.dropped@.map_values(|d: i64| dropped_item(adjs, d)),
                ) + ": confirm to remove "@ + (if x.dropped@.len() == 1 {
                    "that adjustment"@
                } else {
                    "those adjustments"@
                }),
            ),
        )
    } else if due.len() > 0 && !acknowledge_due {
        Some(due_refusal(due))
    } else {
        None
    }
}

/// Whether days are days.
pub open spec fn are_days(s: Seq<i64>) -> bool {
    forall|i: int| 0 <= i < s.len() ==> i32::MIN <= #[trigger] s[i] <= i32::MAX
}

fn say_day(d: i64) -> (r: String)
    requires
        i32::MIN <= d <= i32::MAX,
    ensures
        r@ == said(d as int),
{
    dmy(Date { days: d as i32 })
}

/// What is said of recorded payments, by day.
pub fn paid_items(claims: &Vec<Claim>, days: &Vec<i64>) -> (r: Vec<String>)
    requires
        are_days(days@),
    ensures
        views(r@) == days@.map_values(|d: i64| paid_item(claims@, d)),
{
    let ghost all = days@.map_values(|d: i64| paid_item(claims@, d));
    let mut out: Vec<String> = Vec::new();
    let mut i: usize = 0;
    assert(views(out@) =~= all.take(0));
    while i < days.len()
        invariant
            i <= days@.len(),
            are_days(days@),
            all == days@.map_values(|d: i64| paid_item(claims@, d)),
            views(out@) =~= all.take(i as int),
        decreases days@.len() - i,
    {
        assert(i32::MIN <= days@[i as int] <= i32::MAX);
        let mut m = say_day(days[i]);
        m.append(" (paid ");
        let p = match find_claim(claims, days[i]) {
            Some(k) => dmy(claims[k].occurred_on),
            None => say_day(days[i]),
        };
        m.append(p.as_str());
        m.append(")");
        assert(m@ == all[i as int]);
        assert(views(out@.push(m)) =~= views(out@).push(m@));
        assert(all.take(i + 1) =~= all.take(i as int).push(m@));
        out.push(m);
        i = i + 1;
    }
    assert(all.take(all.len() as int) =~= all);
    out
}

fn day_items(days: &Vec<i64>) -> (r: Vec<String>)
    requires
        are_days(days@),
    ensures
        views(r@) == days@.map_values(|d: i64| said(d as int)),
{
    let ghost all = days@.map_values(|d: i64| said(d as int));
    let mut out: Vec<String> = Vec::new();
    let mut i: usize = 0;
    assert(views(out@) =~= all.take(0));
    while i < days.len()
        invariant
            i <= days@.len(),
            are_days(days@),
            all == days@.map_values(|d: i64| said(d as int)),
            views(out@) =~= all.take(i as int),
        decreases days@.len() - i,
    {
        assert(i32::MIN <= days@[i as int] <= i32::MAX);
        let m = say_day(days[i]);
        assert(m@ == all[i as int]);
        assert(views(out@.push(m)) =~= views(out@).push(m@));
        assert(all.take(i + 1) =~= all.take(i as int).push(m@));
        out.push(m);
        i = i + 1;
    }
    assert(all.take(all.len() as int) =~= all);
    out
}

fn dropped_items(adjs: &Vec<Adjustment>, days: &Vec<i64>) -> (r: Vec<String>)
    requires
        are_days(days@),
    ensures
        views(r@) == days@.map_values(|d: i64| dropped_item(adjs@, d)),
{
    let ghost all = days@.map_values(|d: i64| dropped_item(adjs@, d));
    let mut out: Vec<String> = Vec::new();
    let mut i: usize = 0;
    assert(views(out@) =~= all.take(0));
    while i < days.len()
        invariant
            i <= days@.len(),
            are_days(days@),
            all == days@.map_values(|d: i64| dropped_item(adjs@, d)),
            views(out@) =~= all.take(i as int),
        decreases days@.len() - i,
    {
        assert(i32::MIN <= days@[i as int] <= i32::MAX);
        let mut m = say_day(days[i]);
        m.append(" (");
        match find_adjustment(adjs, days[i]) {
            Some(k) => {
                m.append(action_word(&adjs[k]));
            },
            None => {
                let empty = String::new();
                m.append(empty.as_str());
            },
        }
        m.append(")");
        assert(m@ == all[i as int]);
        assert(views(out@.push(m)) =~= views(out@).push(m@));
        assert(all.take(i + 1) =~= all.take(i as int).push(m@));
        out.push(m);
        i = i + 1;
    }
    assert(all.take(all.len() as int) =~= all);
    out
}

/// Why an undo is refused: payments would fall due at once, and that is not acknowledged.
pub open spec fn undo_due_refusal(due: Seq<Due>, acknowledge_due: bool) -> Option<Refusal> {
    if due.len() > 0 && !acknowledge_due {
        Some(due_refusal(due))
    } else {
        None
    }
}

/// Why an undo is refused for what would fall due at once, if it is.
pub fn refuse_undo(due: &Vec<Due>, acknowledge_due: bool) -> (r: Option<EditError>)
    ensures
        match undo_due_refusal(due@, acknowledge_due) {
            Some(why) => r matches Some(e) && is_refusal(e, why),
            None => r is None,
        },
{
    if due.len() > 0 && !acknowledge_due {
        Some(say_due(due))
    } else {
        None
    }
}

/// What is said where payments would fall due at once.
fn say_due(due: &Vec<Due>) -> (r: EditError)
    ensures
        is_refusal(r, due_refusal(due@)),
{
    let ghost all = due@.map_values(|d: Due| due_item(d));
    let mut items: Vec<String> = Vec::new();
    let mut i: usize = 0;
    assert(views(items@) =~= all.take(0));
    while i < due.len()
        invariant
            i <= due@.len(),
            all == due@.map_values(|d: Due| due_item(d)),
            views(items@) =~= all.take(i as int),
        decreases due@.len() - i,
    {
        let mut m = dmy_iso(due[i].occurrence_on.as_str());
        m.append(" would fall due now (money moves ");
        let v = dmy_iso(due[i].value_on.as_str());
        m.append(v.as_str());
        m.append(")");
        assert(m@ == all[i as int]);
        assert(views(items@.push(m)) =~= views(items@).push(m@));
        assert(all.take(i + 1) =~= all.take(i as int).push(m@));
        items.push(m);
        i = i + 1;
    }
    assert(all.take(all.len() as int) =~= all);
    let mut m = list_words(&items);
    m.append(" — if it's already paid, record it first; confirm to save anyway");
    fail("would_fall_due", m)
}

fn suggestion(s: Option<i64>) -> (r: String)
    requires
        s matches Some(d) ==> i32::MIN <= d <= i32::MAX,
    ensures
        r@ == suggested(s),
{
    match s {
        Some(d) => say_day(d),
        None => String::new(),
    }
}

/// Whether the days that effects speak of are days.
pub open spec fn effects_fit(x: Effects) -> bool {
    &&& are_days(x.blocked@)
    &&& are_days(x.dropped@)
    &&& x.suggest_from matches Some(d) ==> i32::MIN <= d <= i32::MAX
}

/// Why an edit is refused once its effects are known, if it is.
pub fn refuse(
    desc: &str,
    split: bool,
    x: &Effects,
    claims: &Vec<Claim>,
    adjs: &Vec<Adjustment>,
    due: &Vec<Due>,
    drop_overrides: bool,
    acknowledge_due: bool,
) -> (r: Option<EditError>)
    requires
        effects_fit(*x),
    ensures
        match effect_refusal(
            desc@,
            split,
            *x,
            claims@,
            adjs@,
            due@,
            drop_overrides,
            acknowledge_due,
        ) {
            Some(why) => r matches Some(e) && is_refusal(e, why),
            None => r is None,
        },
{
    let n: usize = x.blocked.len();
    if n > 0 {
        let suggest = suggestion(x.suggest_from);
        let mut m = desc.to_string();
        if split {
            m.append(" has ");
            m.append(
                if n == 1 {
                    "a payment recorded for"
                } else {
                    "payments recorded for"
                },
            );
            m.append(" ");
            let items = paid_items(claims, &x.blocked);
            let list = list_words(&items);
            m.append(list.as_str());
            m.append(": change it from ");
            m.append(suggest.as_str());
            m.append(" or later, or delete ");
            m.append(
                if n == 1 {
                    "that payment"
                } else {
                    "those payments"
                },
            );
            m.append(" in Payments");
            return Some(fail("recorded_after", m));
        }
        m.append("'s schedule can't change for the whole rule: ");
        let items = day_items(&x.blocked);
        let list = list_words(&items);
        m.append(list.as_str());
        m.append(" ");
        m.append(
            if n == 1 {
                "is"
            } else {
                "are"
            },
        );
        m.append(" recorded as paid under it — change it from ");
        m.append(suggest.as_str());
        m.append(" instead");
        return Some(fail("slots_detached", m));
    }
    if x.dropped.len() > 0 && !drop_overrides {
        let items = dropped_items(adjs, &x.dropped);
        let list = list_words(&items);
        let mut m = "the new schedule has no payment on ".to_string();
        m.append(list.as_str());
        m.append(": confirm to remove ");
        m.append(
            if x.dropped.len() == 1 {
                "that adjustment"
            } else {
                "those adjustments"
            },
        );
        return Some(fail("would_drop", m));
    }
    if due.len() > 0 && !acknowledge_due {
        return Some(say_due(due));
    }
    None
}

} // verus!
