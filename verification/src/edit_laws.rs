//! What an edit of a recurring payment comes to: which are accepted, what they set, and where they
//! start.

use crate::book::{account_of, known};
use crate::date::Date;
use crate::lists::{lemma_first_is, lemma_join_has};
use crate::recur::{law_expansion_is_determined, Ask, RRuleCrate, Recurrence};
use crate::revise::{
    answers, check_answers, days_fit, earlier_ask, is_plan, money_refusal, names_if, new_ask,
    not_positive, plain_refusal, planned, plans, start_of, stays_put, stop_refusal, stop_refused,
    Answer, Edit, Plan,
};
use crate::text::{has_part, trimmed, upper, views};
use crate::wording::EditError;
use vstd::prelude::*;

verus! {

/// Whether a field is among those a plan names as changed.
pub open spec fn names(p: Plan, field: Seq<char>) -> bool {
    views(p.changed@).contains(field)
}

proof fn lemma_fields()
    ensures
        "description"@ != "rrule"@,
        "description"@ != "dtstart"@,
        "description"@ != "until_on"@,
        "description"@ != "weekend_rule"@,
        "description"@ != "route"@,
        "description"@ != "amounts"@,
        "rrule"@ != "dtstart"@,
        "rrule"@ != "until_on"@,
        "rrule"@ != "weekend_rule"@,
        "rrule"@ != "route"@,
        "rrule"@ != "amounts"@,
        "dtstart"@ != "until_on"@,
        "dtstart"@ != "weekend_rule"@,
        "dtstart"@ != "route"@,
        "dtstart"@ != "amounts"@,
        "until_on"@ != "weekend_rule"@,
        "until_on"@ != "route"@,
        "until_on"@ != "amounts"@,
        "weekend_rule"@ != "route"@,
        "weekend_rule"@ != "amounts"@,
        "route"@ != "amounts"@,
{
    reveal_strlit("description");
    reveal_strlit("rrule");
    reveal_strlit("dtstart");
    reveal_strlit("until_on");
    reveal_strlit("weekend_rule");
    reveal_strlit("route");
    reveal_strlit("amounts");
    assert("description"@.len() == 11);
    assert("rrule"@.len() == 5);
    assert("dtstart"@.len() == 7);
    assert("until_on"@.len() == 8);
    assert("weekend_rule"@.len() == 12);
    assert("route"@.len() == 5);
    assert("amounts"@.len() == 7);
    assert("rrule"@[1] == 'r');
    assert("route"@[1] == 'o');
    assert("dtstart"@[0] == 'd');
    assert("amounts"@[0] == 'a');
}

/// What is known of a plan that an edit comes to.
proof fn lemma_plan<R: Recurrence>(recur: R, e: Edit, p: Plan) -> (w: (Answer, Answer, Answer, Answer))
    requires
        plans(recur, e, Ok(p)),
    ensures
        answers(recur, earlier_ask(e), w.0),
        answers(recur, new_ask(e), w.1),
        check_answers(recur, e, p.start.dtstart, w.2, w.3),
        start_of(e, w.0, w.1) == Ok::<crate::revise::Start, crate::revise::Refusal>(p.start),
        planned(Ok(p), e, w.0, w.1, w.2, w.3),
        is_plan(p, e, p.start),
        plain_refusal(e) is None,
{
    let (a, b, start, c, d) = choose|
        a: Answer,
        b: Answer,
        start: Date,
        c: Answer,
        d: Answer,
    |
        #![trigger answers(recur, earlier_ask(e), a), answers(recur, new_ask(e), b), check_answers(recur, e, start, c, d)]
        answers(recur, earlier_ask(e), a) && answers(recur, new_ask(e), b) && check_answers(
            recur,
            e,
            start,
            c,
            d,
        ) && (start_of(e, a, b) matches Ok(s) ==> s.dtstart == start) && planned(Ok(p), e, a, b, c, d);
    (a, b, c, d)
}

/// An accepted edit sets every field that the patch gives and leaves every other as it was; a rule
/// that says the same as the one there was, but for case and the white space around it, leaves it.
pub proof fn law_an_accepted_edit_sets_what_the_patch_gives<R: Recurrence>(recur: R, e: Edit, p: Plan)
    requires
        plans(recur, e, Ok(p)),
    ensures
        e.patch.description matches Some(d) ==> p.after.description@ == d@,
        e.patch.description is None ==> p.after.description@ == e.before.description@,
        e.patch.weekend_rule matches Some(w) ==> p.after.weekend_rule@ == w@,
        e.patch.weekend_rule is None ==> p.after.weekend_rule@ == e.before.weekend_rule@,
        e.patch.until_on matches Some(u) ==> p.after.until_on == u,
        e.patch.until_on is None ==> p.after.until_on == e.before.until_on,
        e.patch.route matches Some(r) ==> p.after.route@ == r@,
        e.patch.route is None ==> p.after.route@ == e.before.route@,
        e.patch.amounts matches Some(a) ==> p.after.amounts@ == a@,
        e.patch.amounts is None ==> p.after.amounts@ == e.before.amounts@,
        e.patch.rrule is None ==> p.after.rrule@ == e.before.rrule@,
        e.patch.rrule matches Some(r) ==> upper(trimmed(r@)) != upper(trimmed(e.before.rrule@))
            ==> p.after.rrule@ == r@,
        e.patch.rrule matches Some(r) ==> upper(trimmed(r@)) == upper(trimmed(e.before.rrule@))
            ==> p.after.rrule@ == e.before.rrule@,
        e.patch.from_on is None && e.earlier is None && e.patch.dtstart is Some ==> p.after.dtstart
            == e.patch.dtstart->0,
        e.patch.from_on is None && e.patch.rrule is None && e.patch.dtstart is None
            ==> p.after.dtstart == e.before.dtstart,
{
    let w = lemma_plan(recur, e, p);
}

/// A field is named as changed exactly where its value before and after differ, and the plan says of
/// its rule, its route and its amounts whether they changed.
pub proof fn law_a_field_is_named_exactly_where_it_changed<R: Recurrence>(recur: R, e: Edit, p: Plan)
    requires
        plans(recur, e, Ok(p)),
    ensures
        names(p, "description"@) <==> p.after.description@ != e.before.description@,
        names(p, "rrule"@) <==> p.after.rrule@ != e.before.rrule@,
        names(p, "dtstart"@) <==> p.after.dtstart != e.before.dtstart,
        names(p, "until_on"@) <==> p.after.until_on != e.before.until_on,
        names(p, "weekend_rule"@) <==> p.after.weekend_rule@ != e.before.weekend_rule@,
        names(p, "route"@) <==> p.after.route@ != e.before.route@,
        names(p, "amounts"@) <==> p.after.amounts@ != e.before.amounts@,
        p.rule_changed <==> p.after.rrule@ != e.before.rrule@,
        p.route_changed <==> p.after.route@ != e.before.route@,
        p.amounts_changed <==> p.after.amounts@ != e.before.amounts@,
        p.after.dtstart == p.start.dtstart,
{
    let w = lemma_plan(recur, e, p);
    lemma_fields();
    let s = p.start;
    let c1 = names_if(p.after.description@ != e.before.description@, "description"@);
    let c2 = names_if(p.after.rrule@ != e.before.rrule@, "rrule"@);
    let c3 = names_if(p.after.dtstart != e.before.dtstart, "dtstart"@);
    let c4 = names_if(p.after.until_on != e.before.until_on, "until_on"@);
    let c5 = names_if(p.after.weekend_rule@ != e.before.weekend_rule@, "weekend_rule"@);
    let c6 = names_if(p.after.route@ != e.before.route@, "route"@);
    let c7 = names_if(p.after.amounts@ != e.before.amounts@, "amounts"@);
    assert(views(p.changed@) == c1 + c2 + c3 + c4 + c5 + c6 + c7);
    assert forall|f: Seq<char>| #[trigger] views(p.changed@).contains(f) <==> c1.contains(f)
        || c2.contains(f) || c3.contains(f) || c4.contains(f) || c5.contains(f) || c6.contains(f)
        || c7.contains(f) by {
        lemma_join_has(c1, c2, f);
        lemma_join_has(c1 + c2, c3, f);
        lemma_join_has(c1 + c2 + c3, c4, f);
        lemma_join_has(c1 + c2 + c3 + c4, c5, f);
        lemma_join_has(c1 + c2 + c3 + c4 + c5, c6, f);
        lemma_join_has(c1 + c2 + c3 + c4 + c5 + c6, c7, f);
    }
    assert forall|b: bool, n: Seq<char>, f: Seq<char>| #[trigger]
        names_if(b, n).contains(f) <==> b && n == f by {
        if b && n == f {
            assert(names_if(b, n)[0] == f);
        }
    }
}

/// Whether the account a route stops at can take the payment: it is there, it holds the payment's
/// currency, it is neither the core's own nor closed unless the payment already went there, and
/// money passes through it only where it is an asset or a debt.
pub open spec fn can_stop(e: Edit, route: Seq<i64>, i: int) -> bool {
    let a = account_of(e.accounts@, route[i]);
    &&& known(e.accounts@, route[i])
    &&& a.currency@ == e.shape.currency@
    &&& e.before.route@.contains(route[i]) || (!a.system && !a.closed)
    &&& i == 0 || i == route.len() - 1 || a.kind@ == "asset"@ || a.kind@ == "liability"@
}

/// Whether money can move by a route and amounts: one amount, and it positive, from each stop to a
/// different one.
pub open spec fn can_move(e: Edit, route: Seq<i64>, amounts: Seq<i64>) -> bool {
    &&& route.len() == e.hops + 1
    &&& amounts.len() == e.hops
    &&& forall|i: int| 0 <= i < amounts.len() ==> #[trigger] amounts[i] > 0
    &&& forall|i: int| 0 <= i < route.len() - 1 ==> #[trigger] route[i] != route[i + 1]
    &&& forall|i: int| 0 <= i < route.len() ==> #[trigger] can_stop(e, route, i)
}

/// Whether nothing but its dates can stand in an edit's way.
pub open spec fn is_sound(e: Edit, route: Seq<i64>, amounts: Seq<i64>) -> bool {
    &&& e.patch.description matches Some(d) ==> d@.len() > 0
    &&& e.patch.weekend_rule matches Some(w) ==> w@ == "none"@ || w@ == "before"@ || w@ == "after"@
        || w@ == "modified_after"@
    &&& e.patch.from_on is None && e.earlier is Some && e.patch.dtstart is Some
        ==> e.patch.dtstart->0 == e.before.dtstart
    &&& e.patch.route is Some || e.patch.amounts is Some ==> e.shape.two_leg
    &&& route != e.before.route@ || amounts != e.before.amounts@ ==> can_move(e, route, amounts)
}

/// An edit is refused before its dates are looked at exactly where its fields are not sound.
pub proof fn law_an_edit_is_refused_exactly_where_it_is_not_sound(
    e: Edit,
    route: Seq<i64>,
    amounts: Seq<i64>,
)
    requires
        route == (match e.patch.route {
            Some(r) => r@,
            None => e.before.route@,
        }),
        amounts == (match e.patch.amounts {
            Some(a) => a@,
            None => e.before.amounts@,
        }),
    ensures
        plain_refusal(e) is None <==> is_sound(e, route, amounts),
{
    lemma_first_is(amounts.len() as int, not_positive(amounts));
    if route.len() > 0 {
        lemma_first_is(route.len() - 1, stays_put(route));
    }
    lemma_first_is(route.len() as int, stop_refused(e, route));
    let bad_amount = crate::lists::first(amounts.len() as int, not_positive(amounts));
    let stuck = crate::lists::first(route.len() - 1, stays_put(route));
    let stop = crate::lists::first(route.len() as int, stop_refused(e, route));
    assert forall|i: int| 0 <= i < route.len() implies (stop_refusal(e, route, i) is None
        <==> #[trigger] can_stop(e, route, i)) by {}
    assert forall|i: int| 0 <= i < amounts.len() implies (not_positive(amounts)(i)
        <==> #[trigger] amounts[i] <= 0) by {}
    assert forall|i: int| 0 <= i < route.len() - 1 implies (stays_put(route)(i)
        <==> #[trigger] route[i] == route[i + 1]) by {}
    if money_refusal(e) is None && (route != e.before.route@ || amounts != e.before.amounts@) {
        assert forall|i: int| 0 <= i < amounts.len() implies #[trigger] amounts[i] > 0 by {
            assert(!not_positive(amounts)(i));
        }
        assert forall|i: int| 0 <= i < route.len() - 1 implies #[trigger] route[i] != route[i + 1] by {
            assert(!stays_put(route)(i));
        }
        assert forall|i: int| 0 <= i < route.len() implies #[trigger] can_stop(e, route, i) by {
            assert(!stop_refused(e, route)(i));
        }
    }
    if can_move(e, route, amounts) {
        if bad_amount < amounts.len() {
            assert(amounts[bad_amount] > 0);
        }
        if stuck < route.len() - 1 {
            assert(route[stuck] != route[stuck + 1]);
        }
        if stop < route.len() {
            assert(can_stop(e, route, stop));
        }
    }
}

/// An accepted edit is sound, ends no earlier than it starts, and where it is from a date lies within
/// the newest part: after the end of the part before, and not after its own end.
pub proof fn law_an_accepted_edit_is_sound<R: Recurrence>(recur: R, e: Edit, p: Plan)
    requires
        plans(recur, e, Ok(p)),
    ensures
        is_sound(e, p.after.route@, p.after.amounts@),
        p.after.until_on matches Some(u) ==> p.after.dtstart.days <= u.days,
        ({
            let dated = p.rule_changed || p.route_changed || p.amounts_changed;
            &&& (e.patch.from_on matches Some(f) && dated) ==> (e.earlier matches Some(Some(u))
                ==> u.days < e.patch.from_on->0.days)
            &&& (e.patch.from_on matches Some(f) && dated) ==> (e.before.until_on matches Some(u)
                ==> e.patch.from_on->0.days <= u.days)
        }),
        p.rule_changed || p.after.dtstart != e.before.dtstart || p.start.split ==> {
            let up = upper(p.after.rrule@);
            &&& !has_part(up, "COUNT="@)
            &&& !has_part(up, "FREQ=HOURLY"@)
            &&& !has_part(up, "FREQ=MINUTELY"@)
            &&& !has_part(up, "FREQ=SECONDLY"@)
        },
{
    let w = lemma_plan(recur, e, p);
    law_an_edit_is_refused_exactly_where_it_is_not_sound(e, p.after.route@, p.after.amounts@);
}

/// An edit of names, ends and money as a whole that is sound and ends no earlier than it starts is
/// accepted.
pub proof fn law_a_sound_edit_of_the_whole_is_accepted<R: Recurrence>(
    recur: R,
    e: Edit,
    r: Result<Plan, EditError>,
    route: Seq<i64>,
    amounts: Seq<i64>,
    end: Option<Date>,
)
    requires
        plans(recur, e, r),
        e.patch.from_on is None,
        e.patch.rrule is None,
        e.patch.dtstart is None,
        route == (match e.patch.route {
            Some(r) => r@,
            None => e.before.route@,
        }),
        amounts == (match e.patch.amounts {
            Some(a) => a@,
            None => e.before.amounts@,
        }),
        is_sound(e, route, amounts),
        end == (match e.patch.until_on {
            Some(u) => u,
            None => e.before.until_on,
        }),
        end matches Some(u) ==> e.before.dtstart.days <= u.days,
    ensures
        r is Ok,
{
    law_an_edit_is_refused_exactly_where_it_is_not_sound(e, route, amounts);
}

/// Only a change of rule, route or amounts from a date after the part's start can split it, and only
/// where something of the part falls before that date; an edit of the whole never does.
pub proof fn law_only_a_change_from_a_date_splits<R: Recurrence>(recur: R, e: Edit, p: Plan)
    requires
        plans(recur, e, Ok(p)),
    ensures
        p.start.split ==> (e.patch.from_on matches Some(f) && e.before.dtstart.days < f.days),
        p.start.split ==> p.rule_changed || p.route_changed || p.amounts_changed,
        e.patch.from_on is None ==> !p.start.split,
        e.patch.from_on is Some && !p.rule_changed && !p.route_changed && !p.amounts_changed
            ==> p.after.dtstart == e.before.dtstart,
{
    let w = lemma_plan(recur, e, p);
}

/// A change of rule, route or amounts from a date splits a rule on one line exactly where that rule
/// pays something from its start up to the day before.
pub proof fn law_a_change_splits_exactly_where_something_was_paid_before(
    e: Edit,
    p: Plan,
    from: Date,
    last: Date,
    days: Seq<Date>,
)
    requires
        days_fit(e),
        plans(RRuleCrate, e, Ok(p)),
        e.patch.from_on == Some(from),
        last.days == from.days - 1,
        !trimmed(e.before.rrule@).contains('\n'),
        RRuleCrate.yields(
            (Ask {
                rule: e.before.rrule@,
                dtstart: e.before.dtstart,
                until: e.before.until_on,
                lo: e.before.dtstart,
                hi: last,
            }),
            days,
        ),
    ensures
        p.start.split <==> (p.rule_changed || p.route_changed || p.amounts_changed) && days.len() > 0,
{
    let w = lemma_plan(RRuleCrate, e, p);
    let ask = Ask {
        rule: e.before.rrule@,
        dtstart: e.before.dtstart,
        until: e.before.until_on,
        lo: e.before.dtstart,
        hi: last,
    };
    assert(earlier_ask(e).hi.days == last.days);
    assert(earlier_ask(e) == ask);
    match w.0 {
        Ok(own) => {
            law_expansion_is_determined(ask, own, days);
        },
        Err(m) => {
            assert(RRuleCrate.refuses(ask, m));
        },
    }
    if from.days <= e.before.dtstart.days {
        assert(days.len() == 0);
    }
}

} // verus!
