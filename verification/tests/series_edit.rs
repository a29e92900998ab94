use minka_ledger::ask::{read_edit, read_undo, settle, RawEdit, RawUndo, Settled};
use minka_ledger::book::Account;
use minka_ledger::change::{revise, Request, Revision, RuleBook};
use minka_ledger::date::Date;
use minka_ledger::forecast::{Series, SeriesPosting, Snapshot};
use minka_ledger::impact::{compare, dues, outcome, Point};
use minka_ledger::recur::{RRuleCrate, Recurrence};
use minka_ledger::reschedule::{action_word, refuse, refuse_undo, Adjustment, Claim, Due};
use minka_ledger::restore::home_of;
use minka_ledger::review::{review, ReviewFacts};
use minka_ledger::revise::{check_upper, opt_bool, opt_date, opt_ints, validate_rule, Param, Patch};
use minka_ledger::rules::{end_target, lineage_and_latest, rule_ids, rules_of, Hop, HopLeg};
use minka_ledger::select::WhatIf;
use minka_ledger::shape::{shape_of, write_money};
use minka_ledger::standing::{Direction, Group, Paid};
use minka_ledger::sub::project_rule;
use minka_ledger::undo::{earlier_end, new_row, undo_change, undoable};
use minka_ledger::wording::EditError;

const MONTHLY: &str = "FREQ=MONTHLY;BYMONTHDAY=1";

fn d(s: &str) -> Date {
    Date::parse(s).unwrap()
}

fn day(s: &str) -> i64 {
    d(s).days as i64
}

fn account(id: i64, name: &str, kind: &str) -> Account {
    Account {
        id,
        name: name.into(),
        kind: kind.into(),
        currency: "GBP".into(),
        system: false,
        closed: false,
    }
}

fn accounts() -> Vec<Account> {
    vec![
        account(1, "Current", "asset"),
        account(2, "Savings", "asset"),
        account(3, "Rent", "expense"),
        account(4, "Salary", "income"),
    ]
}

fn hop(id: i64, description: &str, from: i64, to: i64, amount: i64) -> Hop {
    let leg = |id, account_id, amount_minor, role: &str| HopLeg {
        id,
        account_id,
        currency: "GBP".into(),
        amount_minor,
        role: role.into(),
    };
    Hop {
        id,
        head_id: None,
        description: description.into(),
        rrule: MONTHLY.into(),
        dtstart: d("2026-01-01"),
        until_on: None,
        weekend_rule: "none".into(),
        scenario_id: None,
        supersedes_id: None,
        chain_id: None,
        chain_seq: None,
        legs: vec![leg(1, from, -amount, "primary"), leg(2, to, amount, "balancing")],
    }
}

fn rent() -> Hop {
    hop(10, "Rent", 1, 3, 90_000)
}

fn patch() -> Patch {
    Patch {
        description: None,
        rrule: None,
        weekend_rule: None,
        dtstart: None,
        until_on: None,
        route: None,
        amounts: None,
        from_on: None,
    }
}

fn claim(txn_id: i64, series_id: i64, on: &str) -> Claim {
    Claim { txn_id, series_id, occurrence_on: d(on), occurred_on: d(on) }
}

fn amended(series_id: i64, on: &str, amount: i64) -> Adjustment {
    Adjustment {
        series_id,
        occurrence_on: d(on),
        action: "amend".into(),
        moved_to: None,
        amount_minor: Some(amount),
        description: None,
        note: None,
    }
}

fn book(hops: Vec<Hop>, claims: Vec<Claim>, adjustments: Vec<Adjustment>) -> RuleBook {
    RuleBook {
        hops,
        what_ifs: vec![WhatIf { id: 1, name: "Move house".into() }],
        accounts: accounts(),
        claims,
        adjustments,
    }
}

fn edit(b: &RuleBook, id: i64, patch: Patch) -> Result<Revision, EditError> {
    revise(&RRuleCrate, b, Request { id, patch, lookback: d("2026-01-01") })
}

fn series(h: &Hop) -> Series {
    Series {
        id: h.id,
        description: h.description.clone(),
        rrule: h.rrule.clone(),
        dtstart: h.dtstart,
        until_on: h.until_on,
        weekend_rule: h.weekend_rule.clone(),
        scenario_id: h.scenario_id,
        supersedes_id: h.supersedes_id,
        chain_id: h.chain_id,
        chain_seq: h.chain_seq,
        postings: h
            .legs
            .iter()
            .map(|l| SeriesPosting {
                account_id: l.account_id,
                currency: l.currency.clone(),
                amount_minor: l.amount_minor,
                role: l.role.clone(),
            })
            .collect(),
    }
}

fn snap(hops: &Vec<Hop>) -> Snapshot {
    let mut s = Snapshot::default();
    for a in accounts() {
        s.account_name.insert(a.id, a.name);
        s.account_currency.insert(a.id, a.currency);
    }
    s.series = hops.iter().map(series).collect();
    s
}

/// A rule changed once: two parts, the second pointing back at the first.
fn changed_rent() -> Vec<Hop> {
    let mut old = rent();
    old.until_on = Some(d("2026-05-31"));
    let mut new = hop(11, "Rent", 1, 3, 95_000);
    new.head_id = Some(10);
    new.dtstart = d("2026-06-01");
    vec![old, new]
}

#[test]
fn an_edit_that_says_nothing_new_changes_nothing() {
    let b = book(vec![rent()], vec![], vec![]);
    let v = edit(&b, 10, Patch { description: Some("Rent".into()), ..patch() }).unwrap();
    assert!(v.plan.changed.is_empty());
    assert!(v.effects.blocked.is_empty() && v.effects.dropped.is_empty());
}

#[test]
fn a_price_is_changed_in_place() {
    let b = book(vec![rent()], vec![], vec![]);
    let v = edit(&b, 10, Patch { amounts: Some(vec![95_000]), ..patch() }).unwrap();
    assert!(!v.plan.start.split);
    assert!(v.plan.amounts_changed && !v.plan.rule_changed && !v.plan.route_changed);
    assert_eq!(v.plan.after.amounts, vec![95_000]);
    let legs = write_money(&v.edit.shape, &v.plan.after.route, &v.plan.after.amounts);
    assert_eq!((legs[0].primary_account, legs[0].primary_minor), (1, -95_000));
    assert_eq!((legs[0].balancing_account, legs[0].balancing_minor), (3, 95_000));
}

#[test]
fn a_change_from_a_day_starts_a_new_part() {
    let b = book(vec![rent()], vec![claim(1, 10, "2026-03-01")], vec![]);
    let p = Patch { amounts: Some(vec![95_000]), from_on: Some(d("2026-06-01")), ..patch() };
    let v = edit(&b, 10, p).unwrap();
    assert!(v.plan.start.split);
    assert_eq!(v.plan.start.dtstart.to_text(), "2026-06-01");
    assert!(v.effects.blocked.is_empty(), "a payment before the change stays where it is");
    assert_eq!(earlier_end(v.plan.start.dtstart).to_text(), "2026-05-31");
    let row = new_row(&b.hops[0], &v.plan);
    assert_eq!(row.head_id, 10);
    assert_eq!(row.dtstart.to_text(), "2026-06-01");
}

#[test]
fn no_recorded_payment_is_detached_by_a_new_rule() {
    let b = book(vec![rent()], vec![claim(1, 10, "2026-03-01")], vec![]);
    let p = Patch { rrule: Some("FREQ=MONTHLY;BYMONTHDAY=15".into()), ..patch() };
    let v = edit(&b, 10, p).unwrap();
    assert_eq!(v.effects.blocked, vec![day("2026-03-01")]);
    let e = refuse("Rent", false, &v.effects, &v.claims, &v.adjustments, &vec![], true, true);
    assert!(e.is_some(), "neither consent can detach a payment");
}

#[test]
fn an_adjustment_is_dropped_only_with_leave() {
    let b = book(vec![rent()], vec![], vec![amended(10, "2026-09-01", -80_000)]);
    let p = Patch { rrule: Some("FREQ=MONTHLY;BYMONTHDAY=15".into()), ..patch() };
    let v = edit(&b, 10, p).unwrap();
    assert_eq!(v.effects.dropped, vec![day("2026-09-01")]);
    assert!(v.effects.blocked.is_empty());
    let asked = refuse("Rent", false, &v.effects, &v.claims, &v.adjustments, &vec![], false, false);
    assert!(asked.is_some());
    let given = refuse("Rent", false, &v.effects, &v.claims, &v.adjustments, &vec![], true, false);
    assert!(given.is_none());
    assert_eq!(action_word(&v.adjustments[0]), action_word(&amended(1, "2026-01-01", 2)));
}

#[test]
fn what_falls_due_at_once_is_said_first() {
    let b = book(vec![rent()], vec![], vec![]);
    let v = edit(&b, 10, Patch { amounts: Some(vec![95_000]), ..patch() }).unwrap();
    let due = vec![Due {
        occurrence_on: "2026-01-01".into(),
        value_on: "2026-01-01".into(),
        amount_minor: -95_000,
        series_id: 10,
    }];
    let e = refuse("Rent", false, &v.effects, &v.claims, &v.adjustments, &due, false, false);
    assert!(e.is_some());
    let e = refuse("Rent", false, &v.effects, &v.claims, &v.adjustments, &due, false, true);
    assert!(e.is_none());
}

#[test]
fn an_amended_payment_at_the_old_price_follows_and_another_is_kept() {
    let adjustments =
        vec![amended(10, "2026-09-01", -90_000), amended(10, "2026-10-01", -80_000)];
    let b = book(vec![rent()], vec![], adjustments);
    let v = edit(&b, 10, Patch { amounts: Some(vec![95_000]), ..patch() }).unwrap();
    assert_eq!(v.amends.follow.len(), 1);
    assert_eq!(v.amends.follow[0].on, day("2026-09-01"));
    assert!(v.amends.follow[0].removed, "it held nothing but the old price");
    assert_eq!(v.amends.keep.len(), 1);
    assert_eq!(v.amends.keep[0].on, day("2026-10-01"));
}

#[test]
fn an_earlier_end_leaves_what_is_after_it_dormant() {
    let b = book(
        vec![rent()],
        vec![claim(1, 10, "2026-03-01"), claim(2, 10, "2026-08-01")],
        vec![amended(10, "2026-09-01", -80_000)],
    );
    let p = Patch { until_on: Some(Some(d("2026-06-30"))), ..patch() };
    let v = edit(&b, 10, p).unwrap();
    assert_eq!(v.dormant.recorded, vec![day("2026-08-01")]);
    assert_eq!(v.dormant.adjusted, vec![day("2026-09-01")]);
}

#[test]
fn an_edit_is_refused_for_what_it_is_of_and_what_it_asks() {
    let b = book(vec![rent()], vec![], vec![]);
    assert_eq!(edit(&b, 99, patch()).err().unwrap().code, "not_found");
    let p = Patch { rrule: Some("FREQ=NEVER".into()), ..patch() };
    assert_eq!(edit(&b, 10, p).err().unwrap().code, "bad_rule");
    let told = |p: Patch| edit(&b, 10, p).err().unwrap().message;
    assert_eq!(
        told(Patch { amounts: Some(vec![0]), ..patch() }),
        "an amount is always positive, and 0 is not one"
    );
    assert_eq!(
        told(Patch { amounts: Some(vec![1, 2]), ..patch() }),
        "amounts needs one amount per leg: Rent has 1"
    );
    assert_eq!(
        told(Patch { route: Some(vec![1, 1]), ..patch() }),
        "a payment cannot move money from an account to itself"
    );
    assert_eq!(
        told(Patch { route: Some(vec![1, 2, 3]), ..patch() }),
        "Rent has 1 leg: stops can't be added or removed here — end it and create a new one"
    );
    assert!(edit(&b, 10, Patch { description: Some("".into()), ..patch() }).is_err());
    let p = Patch { until_on: Some(Some(d("2025-12-01"))), ..patch() };
    assert!(edit(&b, 10, p).is_err());
}

#[test]
fn parameters_are_read_or_refused() {
    assert_eq!(opt_date(&Param::Absent, "from_on").unwrap(), None);
    let t = Param::Text("2026-01-01".into());
    assert_eq!(opt_date(&t, "from_on").unwrap(), Some(d("2026-01-01")));
    let e = opt_date(&Param::Text("soon".into()), "from_on").unwrap_err();
    assert_eq!(e.message, "from_on must be YYYY-MM-DD");
    assert!(opt_date(&Param::Int(3), "from_on").is_err());
    assert_eq!(opt_ints(&Param::Null, "route").unwrap(), None);
    let l = Param::List(vec![Some(1), Some(2)]);
    assert_eq!(opt_ints(&l, "route").unwrap(), Some(vec![1, 2]));
    let e = opt_ints(&Param::List(vec![Some(1), None]), "route").unwrap_err();
    assert_eq!(e.message, "route must be a list of whole numbers");
    assert!(!opt_bool(&Param::Absent, "drop").unwrap());
    assert!(opt_bool(&Param::Bool(true), "drop").unwrap());
    assert_eq!(opt_bool(&Param::Other, "drop").unwrap_err().message, "drop must be true or false");
}

fn raw() -> RawEdit {
    RawEdit {
        id: Param::Int(10),
        as_of: Param::Text("2026-08-15".into()),
        mode: Param::Absent,
        from_on: Param::Absent,
        description: Param::Absent,
        rrule: Param::Absent,
        weekend_rule: Param::Absent,
        dtstart: Param::Absent,
        until_on: Param::Absent,
        route: Param::Absent,
        amounts: Param::Absent,
        amends: Param::Absent,
        drop_overrides: Param::Absent,
        acknowledge_due: Param::Absent,
        dry_run: Param::Absent,
    }
}

fn text(s: &str) -> Param {
    Param::Text(s.into())
}

#[test]
fn a_request_is_read_as_it_was_meant() {
    let a = read_edit(&RawEdit {
        description: text("  Flat "),
        until_on: Param::Null,
        amends: text("follow"),
        dry_run: Param::Bool(true),
        from_on: text("2026-09-01"),
        ..raw()
    })
    .unwrap();
    assert_eq!((a.id, a.as_of.to_text().as_str()), (10, "2026-08-15"));
    assert_eq!(a.patch.description.as_deref(), Some("Flat"));
    assert_eq!(a.patch.until_on, Some(None), "an end given as nothing is cleared");
    assert_eq!(a.patch.from_on, None, "a change of the whole has no day to apply from");
    assert!(a.follow && a.dry_run && !a.drop_overrides);
    assert_eq!(read_edit(&raw()).unwrap().patch.until_on, None, "an end left out is kept");
    let from = RawEdit { mode: text("from"), from_on: text("2026-09-01"), ..raw() };
    assert_eq!(read_edit(&from).unwrap().patch.from_on, Some(d("2026-09-01")));
}

#[test]
fn a_malformed_request_is_refused_in_words() {
    let no = |q: RawEdit| read_edit(&q).unwrap_err().message;
    assert_eq!(no(RawEdit { id: text("10"), ..raw() }), "id must be a whole number");
    assert_eq!(no(RawEdit { as_of: Param::Null, ..raw() }), "as_of must be YYYY-MM-DD");
    assert_eq!(no(RawEdit { mode: text("half"), ..raw() }), "mode must be whole or from");
    assert_eq!(no(RawEdit { mode: text("from"), ..raw() }), "a change from a date needs from_on");
    assert_eq!(no(RawEdit { from_on: text("soon"), ..raw() }), "from_on must be YYYY-MM-DD");
    assert_eq!(no(RawEdit { rrule: Param::Int(1), ..raw() }), "rrule must be text");
    assert_eq!(no(RawEdit { until_on: text(""), ..raw() }), "until_on must be YYYY-MM-DD");
    assert_eq!(
        no(RawEdit { amounts: Param::Int(1), ..raw() }),
        "amounts must be a list of whole numbers"
    );
    assert_eq!(no(RawEdit { amends: text("drop"), ..raw() }), "amends must be keep or follow");
    assert_eq!(no(RawEdit { dry_run: text("yes"), ..raw() }), "dry_run must be true or false");
    let undo = RawUndo {
        id: Param::Int(11),
        as_of: text("2026-08-15"),
        acknowledge_due: Param::Bool(true),
        dry_run: Param::Null,
    };
    let a = read_undo(&undo).unwrap();
    assert!(a.id == 11 && a.acknowledge_due && !a.dry_run);
    let e = read_undo(&RawUndo { as_of: text("x"), ..undo }).unwrap_err();
    assert_eq!((e.code, e.message.as_str()), ("bad_params", "as_of must be YYYY-MM-DD"));
}

#[test]
fn a_rule_is_all_of_its_parts() {
    let hops = changed_rent();
    assert_eq!(rule_ids(&hops, 11), vec![10, 11]);
    assert_eq!(rule_ids(&hops, 10), vec![10, 11]);
    let rules = rules_of(&hops);
    assert_eq!(rules.len(), 1);
    assert_eq!(rules[0].lineage_id, 10);
    let s = lineage_and_latest(&hops);
    assert!(s.iter().any(|s| s.id == 11 && s.latest && s.lineage_id == 10));
    assert!(s.iter().any(|s| s.id == 10 && !s.latest));
}

#[test]
fn only_the_newest_part_can_be_ended() {
    let hops = changed_rent();
    let today = d("2026-08-15");
    let ids = end_target(&hops, 11, Some(d("2026-12-31")), today).unwrap();
    assert_eq!(ids, vec![11]);
    assert!(end_target(&hops, 77, None, today).is_err());
}

#[test]
fn undoing_a_change_restores_the_end_and_carries_adjustments_back() {
    let hops = changed_rent();
    let parts = undoable(&hops, 11, &vec![]).unwrap();
    let rows = vec![amended(11, "2026-09-01", -99_000)];
    let u = undo_change(&RRuleCrate, &hops, &parts, &rows, &vec![]);
    assert_eq!(u.restored, vec![10]);
    assert_eq!(u.removed, vec![11]);
    assert_eq!(u.until_on, None);
    assert_eq!(u.carried_back, vec![day("2026-09-01")]);
    assert!(u.lost.is_empty());
}

#[test]
fn a_change_with_a_recorded_payment_is_not_undone() {
    let hops = changed_rent();
    let paid = undoable(&hops, 11, &vec![claim(1, 11, "2026-07-01")]).unwrap_err();
    assert_eq!(paid.code, "change_has_payments");
    assert_eq!(undoable(&hops, 10, &vec![]).unwrap_err().code, "not_latest");
    let never = undoable(&vec![rent()], 10, &vec![]).unwrap_err();
    assert_eq!(never.code, "not_a_change", "nothing to undo");
    assert_eq!(undoable(&hops, 99, &vec![]).unwrap_err().code, "not_found");
}

#[test]
fn a_hops_direction_is_kept() {
    let s = shape_of(&vec![rent()], &vec![0]);
    assert!(s.two_leg);
    assert_eq!(s.route, vec![1, 3]);
    assert_eq!(s.magnitudes, vec![90_000]);
    assert_eq!(s.negative, vec![true]);
    let legs = write_money(&s, &s.route, &s.magnitudes);
    assert_eq!((legs[0].primary_minor, legs[0].balancing_minor), (-90_000, 90_000));
}

#[test]
fn a_rule_is_projected_alone() {
    let hops = vec![rent(), hop(12, "Salary", 4, 1, 250_000)];
    let (sub, r) = project_rule(&RRuleCrate, &snap(&hops), &vec![10], None, d("2026-08-15"));
    assert_eq!(sub.series.len(), 1);
    let p = r.unwrap();
    assert!(!p.occurrences.is_empty());
    assert!(p.occurrences.iter().all(|o| o.series_id == 10));
}

#[test]
fn an_impact_names_what_comes_goes_and_changes() {
    let before = vec![rent()];
    let mut dearer = rent();
    dearer.legs[0].amount_minor = -95_000;
    dearer.legs[1].amount_minor = 95_000;
    let as_of = d("2026-08-15");
    let o = outcome(
        &RRuleCrate,
        &snap(&before),
        &vec![10],
        &snap(&vec![dearer]),
        &vec![10],
        None,
        as_of,
        d("2026-09-01"),
        &vec![claim(1, 10, "2026-08-01")],
    );
    assert!(o.before_error.is_none() && o.after_error.is_none());
    assert!(!o.impact.changes.is_empty());
    assert!(o.impact.appears.is_empty() && o.impact.disappears.is_empty());
    assert!(o.seam.iter().any(|s| s.occurrence_on == "2026-08-01"));
    let same = outcome(
        &RRuleCrate,
        &snap(&before),
        &vec![10],
        &snap(&before),
        &vec![10],
        None,
        as_of,
        d("2026-09-01"),
        &vec![],
    );
    assert!(same.impact.changes.is_empty());
}

fn point(series_id: i64, on: &str, amount_minor: i64) -> Point {
    Point {
        series_id,
        seq: 0,
        occurrence_on: on.into(),
        value_on: on.into(),
        amount_minor,
    }
}

#[test]
fn nothing_of_a_what_if_falls_due() {
    let as_of = d("2026-08-15");
    let after = || vec![point(10, "2026-08-01", -5)];
    let real = compare(vec![], after(), true, as_of);
    assert_eq!(real.appears, vec![0]);
    assert_eq!(dues(&real).len(), 1);
    assert_eq!(dues(&real)[0].amount_minor, -5);
    let imagined = compare(vec![], after(), false, as_of);
    assert!(dues(&imagined).is_empty());
}

#[test]
fn a_review_puts_every_rule_in_one_group() {
    let mut ended = hop(13, "Gym", 1, 3, 3_000);
    ended.until_on = Some(d("2026-02-28"));
    let mut future = hop(14, "Course", 1, 3, 5_000);
    future.dtstart = d("2026-12-01");
    let mut imagined = hop(15, "New flat", 1, 3, 120_000);
    imagined.scenario_id = Some(1);
    let mut hops = changed_rent();
    hops.push(hop(12, "Salary", 4, 1, 250_000));
    hops.push(hop(16, "To savings", 1, 2, 10_000));
    hops.push(ended);
    hops.push(future);
    hops.push(imagined);
    let f = ReviewFacts {
        snap: snap(&hops),
        accounts: accounts(),
        what_ifs: vec![WhatIf { id: 1, name: "Move house".into() }],
        claims: vec![claim(1, 11, "2026-07-01")],
        adjustments: vec![],
        paid: vec![Paid { txn_id: 1, account_id: 1, amount_minor: -95_000 }],
        hops,
    };
    let r = review(&RRuleCrate, &f, d("2026-08-15"), d("2026-01-01"));
    assert_eq!(r.rules.len(), 6);
    assert_eq!(r.baseline.len(), 5);
    assert_eq!(r.what_if.len(), 1);
    assert_eq!((r.totals.running, r.totals.not_started, r.totals.ended), (3, 1, 1));
    let rent = r.baseline.iter().find(|x| r.rules[x.at].lineage_id == 10).unwrap();
    assert_eq!(rent.parts, 2);
    assert_eq!(rent.group, Group::Running);
    assert_eq!(rent.direction, Direction::Out);
    assert_eq!(rent.recorded.count, 1);
    assert_eq!(rent.recorded.last_amount, Some(-95_000));
    assert_eq!(rent.yearly.count, 12);
    assert_eq!(rent.yearly.monthly_minor, -95_000);
    assert!(rent.failure.is_none());
    let moved = r.baseline.iter().find(|x| r.rules[x.at].lineage_id == 16).unwrap();
    assert_eq!(moved.direction, Direction::Transfer);
    // A transfer is neither spent nor earned; what starts in December counts nine times.
    assert_eq!(r.monthly.leaves[0].total, -95_000 - 3_750);
    assert_eq!(r.monthly.arrives[0].total, 250_000);
}

#[test]
fn a_rule_that_cannot_be_expanded_is_reviewed_with_a_warning() {
    let mut h = rent();
    h.rrule = "FREQ=NEVER".into();
    let hops = vec![h];
    let f = ReviewFacts {
        snap: snap(&hops),
        accounts: accounts(),
        what_ifs: vec![],
        claims: vec![],
        adjustments: vec![],
        paid: vec![],
        hops,
    };
    let r = review(&RRuleCrate, &f, d("2026-08-15"), d("2026-01-01"));
    assert!(r.baseline[0].failure.is_some());
    assert!(r.baseline[0].warnings.iter().any(|w| w.error));
}

#[test]
fn a_rule_must_be_one_the_ledger_can_keep() {
    let ok = |rule: &str, until: Option<Date>| {
        validate_rule(&RRuleCrate, rule, d("2026-01-01"), until)
    };
    assert!(ok(MONTHLY, None).is_ok());
    assert!(ok("FREQ=MONTHLY;COUNT=3", None).unwrap_err().message.contains("can't say COUNT"));
    assert_eq!(ok("freq=hourly", None).unwrap_err().message, "a rule repeats at most daily");
    assert_eq!(ok("FREQ=NEVER", None).unwrap_err().code, "bad_rule");
    let e = ok("FREQ=MONTHLY;BYMONTHDAY=15", Some(d("2026-01-10"))).unwrap_err();
    assert!(e.message.starts_with("that rule produces no payments from "), "{}", e.message);
}

#[test]
fn a_request_is_settled_by_whether_it_was_only_asked_about() {
    assert_eq!(settle(true, true), Settled::RollBack);
    assert_eq!(settle(true, false), Settled::RollBack);
    assert_eq!(settle(false, true), Settled::Refuse);
    assert_eq!(settle(false, false), Settled::Commit);
}

#[test]
fn a_payment_under_an_earlier_part_does_not_stop_an_undo() {
    let hops = changed_rent();
    assert!(undoable(&hops, 11, &vec![claim(1, 10, "2026-03-01")]).is_ok());
}

#[test]
fn a_rule_in_capitals_must_not_count_or_repeat_within_a_day() {
    assert!(check_upper("FREQ=MONTHLY;BYMONTHDAY=1").is_ok());
    assert!(check_upper("FREQ=DAILY;COUNT=3").unwrap_err().message.contains("COUNT"));
    assert_eq!(check_upper("FREQ=HOURLY").unwrap_err().message, "a rule repeats at most daily");
}

#[test]
fn adjustments_go_along_with_a_split_and_come_back_with_its_undo() {
    let (older, newer) = (vec![10], vec![11]);
    let carried = vec![day("2026-09-01")];
    let along = home_of(10, day("2026-09-01"), &carried, &older, &newer);
    assert_eq!(along, 11);
    assert_eq!(home_of(10, day("2026-10-01"), &carried, &older, &newer), 10);
    assert_eq!(home_of(7, day("2026-09-01"), &carried, &older, &newer), 7);

    let hops = changed_rent();
    let parts = undoable(&hops, 11, &vec![]).unwrap();
    let rows = vec![amended(along, "2026-09-01", -99_000)];
    let u = undo_change(&RRuleCrate, &hops, &parts, &rows, &vec![]);
    assert!(u.lost.is_empty());
    let back = home_of(along, day("2026-09-01"), &u.carried_back, &u.removed, &u.restored);
    assert_eq!(back, 10);
}

#[test]
fn a_part_without_hops_has_no_shape() {
    let s = shape_of(&vec![rent()], &vec![]);
    assert!(!s.two_leg);
    assert!(s.route.is_empty());
    assert!(s.magnitudes.is_empty());
    assert!(s.negative.is_empty());
}

#[test]
fn an_undo_is_refused_for_what_falls_due_until_that_is_acknowledged() {
    let due = || {
        vec![Due {
            occurrence_on: "2026-01-01".into(),
            value_on: "2026-01-01".into(),
            amount_minor: -95_000,
            series_id: 10,
        }]
    };
    let e = refuse_undo(&due(), false).unwrap();
    assert_eq!(e.code, "would_fall_due");
    assert!(e.message.ends_with("record it first; confirm to save anyway"), "{}", e.message);
    assert!(refuse_undo(&due(), true).is_none());
    assert!(refuse_undo(&vec![], false).is_none());
}

#[test]
fn a_rule_that_is_refused_says_what_the_expander_said() {
    let on = d("2026-01-01");
    let said = RRuleCrate.expand("FREQ=NEVER", on, None, on, d("2027-12-31")).unwrap_err().to_text();
    let e = validate_rule(&RRuleCrate, "FREQ=NEVER", on, None).unwrap_err();
    assert_eq!(e.code, "bad_rule");
    assert_eq!(e.message, said);
}

#[test]
fn a_change_adds_one_part_to_its_rule_and_undoing_it_takes_that_part_away() {
    let b = book(vec![rent()], vec![], vec![]);
    let asked = Patch { amounts: Some(vec![95_000]), from_on: Some(d("2026-06-01")), ..patch() };
    let v = edit(&b, 10, asked).unwrap();
    assert!(v.plan.start.split);
    // As a store writes it: the old row ends the day before, the new one goes back to it.
    let row = new_row(&b.hops[0], &v.plan);
    let mut older = rent();
    older.until_on = Some(earlier_end(d("2026-06-01")));
    let mut newer = rent();
    newer.id = 11;
    newer.head_id = Some(row.head_id);
    newer.dtstart = row.dtstart;
    newer.until_on = row.until_on;
    let hops = vec![older, newer];
    let parts = undoable(&hops, 11, &vec![]).unwrap();
    assert_eq!(parts, vec![vec![0], vec![1]]);
    let u = undo_change(&RRuleCrate, &hops, &parts, &vec![], &vec![]);
    assert_eq!((u.restored, u.removed), (vec![10], vec![11]));
    assert_eq!(u.until_on, rent().until_on);
}
