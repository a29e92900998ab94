use minka_ledger::date::Date;
use minka_ledger::forecast::{
    project, InterestRule, Override, PaymentRule, ProjectError, Projection, Series, SeriesPosting,
    Slot, SlotOverride, Snapshot,
};
use minka_ledger::interest::{
    derive_level_payment, derive_periodic_rate, Amortised, InterestError, RATE_SCALE,
};
use minka_ledger::money::Minor;
use minka_ledger::recur::RRuleCrate;
use std::collections::HashSet;

fn d(s: &str) -> Date {
    Date::parse(s).unwrap()
}

/// The periodic rate of an effective one, scaled and rounded, if it is finite.
fn root(quoted_e15: i64, periods: i64) -> Option<i64> {
    let r = quoted_e15 as f64 / RATE_SCALE as f64;
    let periodic = (1.0 + r).powf(1.0 / periods as f64) - 1.0;
    let scaled = (periodic * RATE_SCALE as f64).round();
    if scaled.is_finite() {
        Some(scaled as i64)
    } else {
        None
    }
}

fn periodic(quoted_e15: i64, basis: &str, periods: i64) -> Result<i64, InterestError> {
    derive_periodic_rate(quoted_e15, basis, periods, root(quoted_e15, periods))
}

/// `P·i / (1 - (1+i)^-n)`, rounded.
fn amortised(principal: i64, rate_e15: i64, term: i64) -> Amortised {
    let i = rate_e15 as f64 / RATE_SCALE as f64;
    let denom = 1.0 - (1.0 + i).powi(-(term as i32));
    if denom.abs() < f64::EPSILON {
        return Amortised::Degenerate;
    }
    let pmt = principal as f64 * i / denom;
    if !pmt.is_finite() {
        return Amortised::NotFinite;
    }
    Amortised::Payment(pmt.round() as i64)
}

fn level_payment(principal: i64, rate_e15: i64, term: i64) -> Result<i64, InterestError> {
    derive_level_payment(principal, rate_e15, term, amortised(principal, rate_e15, term))
}

/// A book with a current account, a salary and rent.
fn snap() -> Snapshot {
    let mut s = Snapshot::default();
    for (id, name, cur) in [(1, "Current", "GBP"), (2, "Salary", "GBP"), (3, "Rent", "GBP")] {
        s.account_name.insert(id, name.into());
        s.account_currency.insert(id, cur.into());
    }
    s.opening.insert(1, 100_000); // £1,000 to start
    s.series.push(Series {
        id: 10,
        description: "Salary".into(),
        rrule: "FREQ=MONTHLY;BYMONTHDAY=28".into(),
        dtstart: d("2026-01-28"),
        until_on: None,
        weekend_rule: "none".into(),
        scenario_id: None,
        supersedes_id: None,
        chain_id: None,
        chain_seq: None,
        postings: vec![
            SeriesPosting { account_id: 1, currency: "GBP".into(), amount_minor: 250_000, role: "primary".into() },
            SeriesPosting { account_id: 2, currency: "GBP".into(), amount_minor: -250_000, role: "balancing".into() },
        ],
    });
    s.series.push(Series {
        id: 11,
        description: "Rent".into(),
        rrule: "FREQ=MONTHLY;BYMONTHDAY=1".into(),
        dtstart: d("2026-01-01"),
        until_on: None,
        weekend_rule: "none".into(),
        scenario_id: None,
        supersedes_id: None,
        chain_id: None,
        chain_seq: None,
        postings: vec![
            SeriesPosting { account_id: 1, currency: "GBP".into(), amount_minor: -90_000, role: "primary".into() },
            SeriesPosting { account_id: 3, currency: "GBP".into(), amount_minor: 90_000, role: "balancing".into() },
        ],
    });
    s
}

fn run(s: &Snapshot, from: &str, to: &str, active: &[i64]) -> Projection {
    let set: HashSet<i64> = active.iter().copied().collect();
    project(&RRuleCrate, s, d(from), d(to), &set).unwrap()
}

fn closing(p: &Projection, account_id: i64) -> Minor {
    p.balances.iter().filter(|b| b.account_id == account_id).last().unwrap().balance_minor
}

#[test]
fn projects_a_running_balance_forward() {
    let p = run(&snap(), "2026-08-01", "2026-10-31", &[]);
    // 3 rents (Aug/Sep/Oct 1) + 3 salaries (Aug/Sep/Oct 28), two postings each
    assert_eq!(p.occurrences.len(), 12);
    // £1,000 + 3*(2500 - 900) = £5,800
    assert_eq!(closing(&p, 1), 580_000);
}

#[test]
fn a_skip_override_removes_just_that_occurrence() {
    let mut s = snap();
    s.overrides.push(SlotOverride {
        series_id: 11,
        occurrence_on: d("2026-09-01"),
        change: Override { action: "skip".into(), moved_to: None, amount_minor: None, description: None },
    });
    let p = run(&s, "2026-08-01", "2026-10-31", &[]);
    assert_eq!(p.occurrences.len(), 10); // one rent gone, both its legs
    assert_eq!(closing(&p, 1), 580_000 + 90_000);
}

#[test]
fn an_amount_override_moves_both_legs_so_it_still_balances() {
    let mut s = snap();
    s.overrides.push(SlotOverride {
        series_id: 11,
        occurrence_on: d("2026-09-01"),
        change: Override {
            action: "amend".into(),
            moved_to: None,
            amount_minor: Some(-95_000), // a rent rise for one month
            description: Some("Rent (increased)".into()),
        },
    });
    let p = run(&s, "2026-09-01", "2026-09-30", &[]);
    let legs: Vec<Minor> =
        p.occurrences.iter().filter(|o| o.series_id == 11).map(|o| o.amount_minor).collect();
    assert_eq!(legs.iter().sum::<Minor>(), 0, "the occurrence must still balance: {legs:?}");
    assert!(legs.contains(&-95_000) && legs.contains(&95_000));
    assert_eq!(p.occurrences[0].description, "Rent (increased)");
}

#[test]
fn a_moved_occurrence_keeps_its_slot_identity() {
    let mut s = snap();
    s.overrides.push(SlotOverride {
        series_id: 11,
        occurrence_on: d("2026-09-01"),
        change: Override {
            action: "amend".into(),
            moved_to: Some(d("2026-09-05")),
            amount_minor: None,
            description: None,
        },
    });
    let p = run(&s, "2026-09-01", "2026-09-30", &[]);
    let o = p.occurrences.iter().find(|o| o.series_id == 11).unwrap();
    assert_eq!(o.value_on, "2026-09-05", "money moves on the new date");
    assert_eq!(o.occurrence_on, "2026-09-01", "but the slot it fills is unchanged");
}

#[test]
fn a_claimed_slot_is_not_projected_again() {
    // The reconciliation rule: once a real transaction fills the slot, history wins.
    let mut s = snap();
    s.claimed.push(Slot { series_id: 11, occurrence_on: d("2026-09-01") });
    let p = run(&s, "2026-08-01", "2026-10-31", &[]);
    assert_eq!(p.occurrences.len(), 10);
    assert!(!p.occurrences.iter().any(|o| o.series_id == 11 && o.occurrence_on == "2026-09-01"));
}

#[test]
fn an_inactive_scenario_changes_nothing_and_an_active_one_overlays() {
    let mut s = snap();
    s.series.push(Series {
        id: 12,
        description: "Gym membership".into(),
        rrule: "FREQ=MONTHLY;BYMONTHDAY=10".into(),
        dtstart: d("2026-01-10"),
        until_on: None,
        weekend_rule: "none".into(),
        scenario_id: Some(1),
        supersedes_id: None,
        chain_id: None,
        chain_seq: None,
        postings: vec![
            SeriesPosting { account_id: 1, currency: "GBP".into(), amount_minor: -4_000, role: "primary".into() },
            SeriesPosting { account_id: 3, currency: "GBP".into(), amount_minor: 4_000, role: "balancing".into() },
        ],
    });
    let base = run(&s, "2026-08-01", "2026-10-31", &[]);
    assert_eq!(base.occurrences.len(), 12, "an inactive scenario must be invisible");

    let with = run(&s, "2026-08-01", "2026-10-31", &[1]);
    assert_eq!(with.occurrences.len(), 18); // + 3 months of gym, 2 legs each
    assert_eq!(closing(&with, 1), closing(&base, 1) - 12_000);
}

#[test]
fn a_scenario_can_suppress_a_baseline_series() {
    // "what if I cancel the rent" -- the baseline series vanishes entirely rather than being
    // netted to zero, so it does not linger in the occurrence list.
    let mut s = snap();
    s.series.push(Series {
        id: 13,
        description: "cancel rent".into(),
        rrule: "FREQ=MONTHLY;BYMONTHDAY=1".into(),
        dtstart: d("2026-01-01"),
        until_on: None,
        weekend_rule: "none".into(),
        scenario_id: Some(2),
        supersedes_id: Some(11),
        chain_id: None,
        chain_seq: None,
        postings: vec![],
    });
    let p = run(&s, "2026-08-01", "2026-10-31", &[2]);
    assert!(!p.occurrences.iter().any(|o| o.series_id == 11), "rent must be gone entirely");
    assert_eq!(closing(&p, 1), 100_000 + 3 * 250_000);
}

#[test]
fn until_on_stops_the_series() {
    let mut s = snap();
    s.series[1].until_on = Some(d("2026-09-01")); // rent ends after September
    let p = run(&s, "2026-08-01", "2026-10-31", &[]);
    let rents = p.occurrences.iter().filter(|o| o.series_id == 11).count();
    assert_eq!(rents, 4, "Aug and Sep only, two legs each");
}

#[test]
fn weekend_adjustment_shows_in_the_value_date_only() {
    let mut s = snap();
    s.series[1].weekend_rule = "after".into();
    // 2026-11-01 is a Sunday.
    let p = run(&s, "2026-11-01", "2026-11-30", &[]);
    let o = p.occurrences.iter().find(|o| o.series_id == 11).unwrap();
    assert_eq!(o.occurrence_on, "2026-11-01");
    assert_eq!(o.value_on, "2026-11-02");
}

#[test]
fn balances_are_emitted_only_on_days_that_move() {
    let p = run(&snap(), "2026-08-01", "2026-10-31", &[]);
    let days: HashSet<&String> = p.balances.iter().map(|b| &b.on).collect();
    assert_eq!(days.len(), 6, "3 rent days + 3 salary days, not 92 calendar days");
}

/// A credit card: a liability account with an interest rule and a minimum-payment rule.
fn card_book(pay_kind: &str, pay_amount: Option<Minor>, pct: Option<i64>) -> Snapshot {
    let mut s = Snapshot::default();
    for (id, name) in [(1, "Current"), (5, "Card"), (6, "Interest paid")] {
        s.account_name.insert(id, name.into());
        s.account_currency.insert(id, "GBP".into());
    }
    s.opening.insert(1, 500_000);  // £5,000 in the current account
    s.opening.insert(5, -200_000); // £2,000 owed on the card
    // 24.9% AER, accrued daily, capitalised on the 1st.
    let rate = periodic(249_000_000_000_000, "effective", 365).unwrap();
    s.interest_rules.push(InterestRule {
        id: 1, account_id: 5, counter_account_id: 6,
        shape: "revolving".into(), accrues_on: "negative".into(), accrual_freq: "daily".into(),
        capitalise_rrule: "FREQ=MONTHLY;BYMONTHDAY=1".into(),
        capitalise_dtstart: d("2026-01-01"), periodic_rate_e15: rate,
        grace_period: true, scenario_id: None,
    });
    s.payment_rules.push(PaymentRule {
        id: 1, account_id: 5, from_account_id: 1,
        amount_kind: pay_kind.into(), fixed_minor: pay_amount, pct_e15: pct,
        floor_minor: Some(500), cap_minor: None, level_payment_minor: None,
        rrule: "FREQ=MONTHLY;BYMONTHDAY=15".into(), dtstart: d("2026-01-15"),
        until_on: None, scenario_id: None,
    });
    s
}

#[test]
fn a_card_paying_only_the_minimum_barely_moves() {
    // 1% of the statement, floored at £5 -- the classic trap. Over a year the balance should
    // fall only slightly, because most of each payment is interest.
    let s = card_book("pct_of_statement", None, Some(10_000_000_000_000));
    let p = run(&s, "2026-01-01", "2026-12-31", &[]);
    let end = closing(&p, 5);
    assert!(end < 0, "still in debt after a year of minimums: {end}");
    assert!(end > -200_000 - 60_000 && end < -150_000,
            "minimum payments barely dent £2,000 at 24.9%: got {end}");
    // and interest legs were actually generated
    assert!(p.occurrences.iter().any(|o| o.description.starts_with("Interest")));
}

#[test]
fn paying_more_clears_the_card_and_composes_as_a_scenario() {
    // The requirement-9 question: "what if I pay £250 a month instead?"
    let mut s = card_book("pct_of_statement", None, Some(10_000_000_000_000));
    s.payment_rules.push(PaymentRule {
        id: 2, account_id: 5, from_account_id: 1,
        amount_kind: "fixed".into(), fixed_minor: Some(25_000), pct_e15: None,
        floor_minor: None, cap_minor: None, level_payment_minor: None,
        rrule: "FREQ=MONTHLY;BYMONTHDAY=15".into(), dtstart: d("2026-01-15"),
        until_on: None, scenario_id: Some(1),
    });
    let minimum = run(&s, "2026-01-01", "2026-12-31", &[]);
    let harder = run(&s, "2026-01-01", "2026-12-31", &[1]);
    assert!(closing(&harder, 5) > closing(&minimum, 5),
            "paying more must leave less debt");
    // Cleared, and very slightly IN CREDIT. That is not a rounding artefact: a payment sized
    // from the statement pays what the statement said, and by the time it lands the balance has
    // fallen below that. A standing order overshooting a nearly-cleared card is exactly what
    // happens in life, so the projection shows it rather than clamping it away.
    let end = closing(&harder, 5);
    assert!((0..1_000).contains(&end), "cleared, possibly a few pounds in credit: got {end}");
    assert!(closing(&minimum, 5) < -150_000, "the minimum-only path is still deep in debt");
}

#[test]
fn a_cleared_card_with_a_grace_period_charges_nothing() {
    let mut s = card_book("fixed", Some(0), None);
    s.opening.insert(5, 0); // nothing owed
    let p = run(&s, "2026-01-01", "2026-06-30", &[]);
    assert!(!p.occurrences.iter().any(|o| o.description.starts_with("Interest")),
            "a clear card in its grace period accrues nothing");
}

#[test]
fn an_amortising_loan_runs_down_to_zero() {
    let mut s = Snapshot::default();
    for (id, name) in [(1, "Current"), (7, "Loan"), (8, "Loan interest")] {
        s.account_name.insert(id, name.into());
        s.account_currency.insert(id, "GBP".into());
    }
    s.opening.insert(1, 5_000_000);
    s.opening.insert(7, -1_000_000); // £10,000 borrowed
    let rate = periodic(60_000_000_000_000, "nominal", 12).unwrap();
    let level = level_payment(1_000_000, rate, 60).unwrap();
    s.interest_rules.push(InterestRule {
        id: 2, account_id: 7, counter_account_id: 8,
        shape: "amortising".into(), accrues_on: "negative".into(),
        accrual_freq: "per_period".into(),
        capitalise_rrule: "FREQ=MONTHLY;BYMONTHDAY=1".into(),
        capitalise_dtstart: d("2026-01-01"), periodic_rate_e15: rate,
        grace_period: false, scenario_id: None,
    });
    s.payment_rules.push(PaymentRule {
        id: 3, account_id: 7, from_account_id: 1,
        amount_kind: "amortising_level".into(), fixed_minor: None, pct_e15: None,
        floor_minor: None, cap_minor: None, level_payment_minor: Some(level),
        rrule: "FREQ=MONTHLY;BYMONTHDAY=2".into(), dtstart: d("2026-01-02"),
        until_on: None, scenario_id: None,
    });
    // 60 monthly payments from Jan 2026
    let p = run(&s, "2026-01-01", "2030-12-31", &[]);
    let end = closing(&p, 7);
    assert_eq!(end, 0, "the loan must run down to exactly zero, got {end}");
}

#[test]
fn savings_interest_compounds_in_your_favour() {
    let mut s = Snapshot::default();
    for (id, name) in [(9, "Savings"), (10, "Interest earned")] {
        s.account_name.insert(id, name.into());
        s.account_currency.insert(id, "GBP".into());
    }
    s.opening.insert(9, 500_000); // £5,000
    let rate = periodic(45_000_000_000_000, "effective", 12).unwrap();
    s.interest_rules.push(InterestRule {
        id: 3, account_id: 9, counter_account_id: 10,
        shape: "savings".into(), accrues_on: "positive".into(),
        accrual_freq: "per_period".into(),
        capitalise_rrule: "FREQ=MONTHLY;BYMONTHDAY=1".into(),
        capitalise_dtstart: d("2026-01-01"), periodic_rate_e15: rate,
        grace_period: false, scenario_id: None,
    });
    let p = run(&s, "2026-01-01", "2026-12-31", &[]);
    let end = closing(&p, 9);
    // 12 monthly credits at 4.5% AER on £5,000 -- about £225 earned
    assert!((522_000..=523_000).contains(&end), "a year at 4.5% AER: got {end}");
}

#[test]
fn an_empty_horizon_projects_nothing_but_does_not_fail() {
    let p = run(&snap(), "2026-08-02", "2026-08-03", &[]);
    assert!(p.occurrences.is_empty());
    assert!(p.balances.is_empty());
}

#[test]
fn a_projected_amount_out_of_range_is_said_to_be() {
    let mut s = snap();
    s.opening.insert(1, Minor::MAX);
    let active: HashSet<i64> = HashSet::new();
    let r = project(&RRuleCrate, &s, d("2026-08-01"), d("2026-08-31"), &active);
    assert!(matches!(&r, Err(ProjectError::OutOfRange)));
    assert_eq!(r.unwrap_err().to_text(), "a projected amount is out of range");
}

#[test]
fn a_rule_that_does_not_expand_fails_the_projection() {
    let mut s = snap();
    s.series[0].rrule = "FREQ=NONSENSE".into();
    let active: HashSet<i64> = HashSet::new();
    let r = project(&RRuleCrate, &s, d("2026-08-01"), d("2026-08-31"), &active);
    assert!(matches!(r, Err(ProjectError::Recur(_))));
}

#[test]
fn occurrences_come_in_order_and_each_payment_comes_to_nothing() {
    let p = run(&snap(), "2026-08-01", "2026-10-31", &[]);
    let days: Vec<&String> = p.occurrences.iter().map(|o| &o.value_on).collect();
    assert!(days.windows(2).all(|w| w[0] <= w[1]));
    assert_eq!(p.occurrences.iter().map(|o| o.amount_minor).sum::<Minor>(), 0);
}
