use minka_ledger::date::Date;
use minka_ledger::export::{
    bundle, csv, forecast_window, lines, snapshot_db, ExportError, ExportRow, LedgerLine, Options,
    PREAMBLE,
};
use minka_ledger::forecast::{project, Projection, Series, SeriesPosting, Snapshot};
use minka_ledger::recur::RRuleCrate;
use std::collections::HashSet;

fn d(s: &str) -> Date {
    Date::parse(s).unwrap()
}

fn line(
    posting_id: i64,
    txn_id: i64,
    on: &str,
    account: &str,
    kind: &str,
    description: &str,
    payee: Option<&str>,
    amount: i64,
    decimal: &str,
) -> LedgerLine {
    LedgerLine {
        posting_id,
        txn_id,
        on_date: on.into(),
        account: account.into(),
        account_kind: kind.into(),
        description: description.into(),
        payee: payee.map(|p| p.into()),
        amount_minor: amount,
        currency: "GBP".into(),
        minor_digits: 2,
        amount_decimal: Some(decimal.into()),
        series: None,
        occurrence_on: None,
        source: "manual".into(),
    }
}

/// Two transactions, two postings each.
fn book() -> Vec<LedgerLine> {
    let acme = Some("Acme Ltd");
    vec![
        line(1, 1, "2026-08-01", "Current", "asset", "August salary", acme, 250_000, "2500.00"),
        line(2, 1, "2026-08-01", "Salary", "income", "August salary", acme, -250_000, "-2500.00"),
        line(3, 2, "2026-08-02", "Current", "asset", "Rent", None, -90_000, "-900.00"),
        line(4, 2, "2026-08-02", "Rent", "expense", "Rent", None, 90_000, "900.00"),
    ]
}

fn opts<'a>() -> Options<'a> {
    Options { from: None, to: None, redact: false, forecast_to: None }
}

#[test]
fn the_bundle_leads_with_the_traps_a_reader_would_fall_into() {
    let all = PREAMBLE.join(" ");
    // Each of these is a mistake a model reliably makes on raw ledger data.
    assert!(all.contains("SUM TO ZERO"), "double-entry must be stated");
    assert!(all.contains("NOT always 100"), "the minor-unit trap must be stated");
    assert!(all.contains("never be summed together"), "cross-currency must be forbidden");
    assert!(all.contains("is_projection"), "forecast rows must be called out");
}

#[test]
fn lines_carry_both_the_integer_and_a_ready_made_decimal() {
    let b = bundle(book(), &opts(), None);
    assert_eq!(b.len(), 4, "two transactions, two postings each");
    let salary = b.iter().find(|l| l.account == "Current").unwrap();
    assert_eq!(salary.amount_minor, 250_000);
    assert_eq!(salary.amount_decimal.as_deref(), Some("2500.00"));
    assert!(!salary.is_projection);
}

#[test]
fn redaction_keeps_the_numbers_and_drops_the_story() {
    let plain = bundle(book(), &opts(), None);
    let b = bundle(book(), &Options { redact: true, ..opts() }, None);
    assert_eq!(b.len(), plain.len());
    for (l, p) in b.iter().zip(&plain) {
        assert_eq!(l.description, "[redacted]");
        assert!(l.payee.is_none());
        // the shape survives, which is the point -- it is still analysable
        assert_eq!(l.amount_minor, p.amount_minor);
        assert_eq!(l.account, p.account);
    }
}

#[test]
fn a_date_window_filters_the_lines() {
    let b = bundle(book(), &Options { from: Some("2026-08-02"), ..opts() }, None);
    assert_eq!(b.len(), 2, "only the rent transaction");
    assert_eq!(lines(book(), None, Some("2026-08-01"), false).len(), 2);
    assert_eq!(lines(book(), Some("2026-08-01"), Some("2026-08-02"), false).len(), 4);
}

fn rent() -> Snapshot {
    let mut s = Snapshot::default();
    for (id, name) in [(1, "Current"), (3, "Rent")] {
        s.account_name.insert(id, name.into());
        s.account_currency.insert(id, "GBP".into());
    }
    let leg = |account_id, amount_minor, role: &str| SeriesPosting {
        account_id,
        currency: "GBP".into(),
        amount_minor,
        role: role.into(),
    };
    s.series.push(Series {
        id: 1,
        description: "Rent".into(),
        rrule: "FREQ=MONTHLY;BYMONTHDAY=1".into(),
        dtstart: d("2026-01-01"),
        until_on: None,
        weekend_rule: "none".into(),
        scenario_id: None,
        supersedes_id: None,
        chain_id: None,
        chain_seq: None,
        postings: vec![leg(1, -90_000, "primary"), leg(3, 90_000, "balancing")],
    });
    s
}

#[test]
fn forecast_rows_are_included_only_on_request_and_always_flagged() {
    let today = d("2026-08-15");
    assert!(forecast_window(&opts(), today).is_none());
    let without = bundle(book(), &opts(), None);
    assert!(without.iter().all(|l| !l.is_projection));

    let asked =
        Options { to: Some("2026-08-31"), forecast_to: Some("2026-11-30"), ..opts() };
    let (as_of, horizon) = forecast_window(&asked, today).unwrap();
    let proj: Projection =
        project(&RRuleCrate, &rent(), as_of, horizon, &HashSet::new()).unwrap();
    let with = bundle(book(), &asked, Some(&proj));
    let projected: Vec<&ExportRow> = with.iter().filter(|l| l.is_projection).collect();
    assert!(!projected.is_empty(), "asked for a forecast, got none");
    for p in projected {
        assert_eq!(p.source, "forecast");
        assert!(p.txn_id.is_none(), "a projection has no transaction id -- it has not happened");
    }
}

#[test]
fn csv_escapes_what_it_must() {
    let mut all = book();
    let said = "SMITH, JOHN & CO \"trading\"";
    all.push(line(5, 3, "2026-08-03", "Current", "asset", said, None, -100, "-1.00"));
    all.push(line(6, 3, "2026-08-03", "Rent", "expense", said, None, 100, "1.00"));
    let text = csv(all, &opts());
    assert!(text.starts_with("on_date,txn_id,account,"));
    assert!(text.contains("\"SMITH, JOHN & CO \"\"trading\"\"\""), "got:\n{text}");
    assert_eq!(text.lines().count(), 7, "header + 6 postings");
}

#[test]
fn a_csv_line_holds_each_column_in_order() {
    let text = csv(book(), &opts());
    assert_eq!(
        text.lines().nth(1),
        Some("2026-08-01,1,Current,asset,August salary,Acme Ltd,250000,2500.00,GBP,2,manual")
    );
    assert_eq!(
        text.lines().nth(3),
        Some("2026-08-02,2,Current,asset,Rent,,-90000,-900.00,GBP,2,manual")
    );
}

#[test]
fn lines_are_told_in_order_whatever_order_they_came_in() {
    let mut all = book();
    all.reverse();
    let ids: Vec<Option<i64>> =
        lines(all, None, None, false).iter().map(|l| l.posting_id).collect();
    assert_eq!(ids, vec![Some(1), Some(2), Some(3), Some(4)]);
}

#[test]
fn an_unreadable_day_falls_back_to_today_or_to_no_forecast() {
    let today = d("2026-08-15");
    let bad = Options { to: Some("soon"), forecast_to: Some("2026-11-30"), ..opts() };
    assert_eq!(forecast_window(&bad, today).unwrap().0.to_text(), "2026-08-15");
    let none = Options { forecast_to: Some("one day"), ..opts() };
    assert!(forecast_window(&none, today).is_none());
}

#[test]
fn a_snapshot_refuses_to_clobber() {
    assert!(snapshot_db("/tmp/a.db", false).is_ok());
    let e = snapshot_db("/tmp/a.db", true).unwrap_err();
    assert_eq!(e.to_text(), "/tmp/a.db already exists");
    assert_eq!(ExportError::Io("x".into()).to_text(), "x");
}

#[test]
fn redaction_drops_the_name_of_the_series_too() {
    let paid = || {
        let mut l = book();
        l[0].series = Some("Salary".into());
        l[0].occurrence_on = Some("2026-08-01".into());
        l
    };
    let plain = bundle(paid(), &opts(), None);
    let told = bundle(paid(), &Options { redact: true, ..opts() }, None);
    assert!(plain.iter().any(|l| l.series.as_deref() == Some("Salary")));
    assert!(told.iter().all(|l| l.series.is_none()));
}
