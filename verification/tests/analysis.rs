use minka_ledger::analysis::{
    by_currency, median, month_start, shift_months, AnalysisError, Scales, BRIEF_PREAMBLE,
};
use minka_ledger::book::Account;
use minka_ledger::brief::{
    blob_text, brief, burn, default_horizon, history_window, query_note, row_limit, take_row, tools, Brief,
    BriefOptions, MAX_ROWS, START_HERE, STEP_BUDGET, SUGGESTED_ORDER,
};
use minka_ledger::date::Date;
use minka_ledger::entry::Movement;
use minka_ledger::fx::Currency;
use minka_ledger::ledger::{totals, BookEntry};
use minka_ledger::limits::{BookFacts, Limit};
use minka_ledger::load::{snapshot, BookRows, PostingRow, SeriesRow};
use minka_ledger::recur::RRuleCrate;

fn d(s: &str) -> Date {
    Date::parse(s).unwrap()
}

/// A book in memory: its accounts, its payments and its recurring payments.
struct Book {
    accounts: Vec<Account>,
    pin: Option<i64>,
    txns: Vec<(String, String, Vec<(i64, i64)>)>,
    series: Vec<(i64, &'static str, &'static str, &'static str, Vec<(i64, i64)>)>,
}

fn account(id: i64, name: &str, kind: &str, currency: &str) -> Account {
    Account {
        id,
        name: name.into(),
        kind: kind.into(),
        currency: currency.into(),
        system: false,
        closed: false,
    }
}

fn scales() -> Scales {
    Scales {
        currencies: vec![
            Currency { code: "GBP".into(), minor_digits: 2 },
            Currency { code: "JPY".into(), minor_digits: 0 },
        ],
    }
}

/// A book with five complete months of history, so the complete-month and median rules have
/// something to be right or wrong about.
fn book() -> Book {
    let mut b = Book {
        accounts: vec![
            account(1, "Current", "asset", "GBP"),
            account(2, "Salary", "income", "GBP"),
            account(3, "Groceries", "expense", "GBP"),
            account(4, "Rent", "expense", "GBP"),
            account(5, "Expenses:Unclassified", "expense", "GBP"),
            account(6, "Yen pot", "asset", "JPY"),
        ],
        pin: None,
        txns: vec![],
        series: vec![],
    };
    // March..July: salary in, rent out, groceries varying around 300.
    let groceries = [28_000, 31_000, 30_000, 55_000, 29_000];
    for (i, month) in ["03", "04", "05", "06", "07"].iter().enumerate() {
        b.create(&format!("2026-{month}-01"), "Salary", vec![(1, 250_000), (2, -250_000)]);
        b.create(&format!("2026-{month}-02"), "Rent", vec![(1, -90_000), (4, 90_000)]);
        b.create(
            &format!("2026-{month}-15"),
            "Groceries",
            vec![(1, -groceries[i]), (3, groceries[i])],
        );
    }
    b
}

impl Book {
    fn create(&mut self, on: &str, description: &str, legs: Vec<(i64, i64)>) {
        self.txns.push((on.into(), description.into(), legs));
    }

    fn account(&self, id: i64) -> &Account {
        self.accounts.iter().find(|a| a.id == id).unwrap()
    }

    fn entries(&self) -> Vec<BookEntry> {
        let mut out = vec![];
        for (i, (on, description, legs)) in self.txns.iter().enumerate() {
            for (id, amount) in legs {
                let a = self.account(*id);
                out.push(BookEntry {
                    txn_id: i as i64 + 1,
                    occurred_on: on.clone(),
                    description: description.clone(),
                    payee: None,
                    account_id: *id,
                    account: a.name.clone(),
                    kind: a.kind.clone(),
                    system: false,
                    currency: a.currency.clone(),
                    amount_minor: *amount,
                });
            }
        }
        out
    }

    fn facts(&self) -> BookFacts {
        BookFacts {
            entries: self.entries(),
            accounts: self.accounts.clone(),
            unclassified_pin: self.pin,
            first_on: self.txns.iter().map(|t| t.0.clone()).min(),
            last_on: self.txns.iter().map(|t| t.0.clone()).max(),
            txn_count: self.txns.len() as i64,
            series_count: self.series.len() as i64,
            display_currency: Some("GBP".into()),
            rates: vec![],
            scales: scales(),
            unbalanced: 0,
        }
    }

    fn rows(&self) -> BookRows {
        let mut postings = vec![];
        for (id, _, _, _, legs) in &self.series {
            for (i, (account_id, amount_minor)) in legs.iter().enumerate() {
                postings.push(PostingRow {
                    series_id: *id,
                    account_id: *account_id,
                    currency: self.account(*account_id).currency.clone(),
                    amount_minor: *amount_minor,
                    role: if i == 0 { "primary".into() } else { "balancing".into() },
                });
            }
        }
        BookRows {
            accounts: self.accounts.clone(),
            movements: self
                .entries()
                .into_iter()
                .map(|e| Movement {
                    account_id: e.account_id,
                    on: e.occurred_on,
                    moved_minor: e.amount_minor,
                })
                .collect(),
            series: self
                .series
                .iter()
                .map(|(id, description, rrule, dtstart, _)| SeriesRow {
                    id: *id,
                    description: description.to_string(),
                    rrule: rrule.to_string(),
                    dtstart: dtstart.to_string(),
                    until_on: None,
                    weekend_rule: "none".into(),
                    scenario_id: None,
                    supersedes_id: None,
                    chain_id: None,
                    chain_seq: None,
                })
                .collect(),
            postings,
            overrides: vec![],
            claims: vec![],
            interest: vec![],
            rates: vec![],
            payments: vec![],
            holidays: vec![],
        }
    }

    fn brief(&self, opt: &BriefOptions) -> Brief {
        let snap = snapshot(&self.rows(), opt.as_of).unwrap();
        brief(&RRuleCrate, &self.facts(), &snap, opt).unwrap()
    }
}

fn with_rent_series(b: &mut Book) {
    b.series.push((
        1,
        "Rent",
        "FREQ=MONTHLY;BYMONTHDAY=2",
        "2026-01-02",
        vec![(1, -90_000), (4, 90_000)],
    ));
}

fn opts(as_of: &str) -> BriefOptions {
    BriefOptions { as_of: d(as_of), months: 6, horizon: d("2027-02-01"), largest_n: 5 }
}

fn limit<'a>(b: &'a Brief, what: &str) -> Option<&'a Limit> {
    b.limits.iter().find(|l| l.limit == what)
}

#[test]
fn the_month_in_progress_is_excluded_from_history() {
    let c = book();
    // as_of is mid-August; August must not appear, and the window must end 31 July.
    let b = c.brief(&opts("2026-08-15"));
    assert_eq!(b.window.to.to_text(), "2026-07-31");
    let months: Vec<&str> = b.months.iter().map(|m| m.month.as_str()).collect();
    assert!(!months.contains(&"2026-08"), "a part month was compared against whole ones: {months:?}");
    assert_eq!(months.last(), Some(&"2026-07"));
}

#[test]
fn spent_and_received_are_positive_magnitudes() {
    let c = book();
    let b = c.brief(&opts("2026-08-15"));
    let july = b.months.iter().find(|m| m.month == "2026-07").unwrap();
    assert_eq!(july.received[0].name, "GBP");
    assert_eq!(july.received[0].total, 250_000, "income is stored negative and must be flipped");
    assert_eq!(july.spent[0].total, 119_000, "rent 900 + groceries 290");
    assert_eq!(july.net[0].total, 131_000);
    assert_eq!(scales().dec(july.spent[0].total as i64, "GBP"), "1190.00");
}

#[test]
fn the_median_ignores_the_one_expensive_month() {
    let c = book();
    let b = c.brief(&opts("2026-08-15"));
    let g = b.typical.iter().find(|a| a.account == "Groceries").unwrap();
    // 280 290 300 310 550 -> median 300, mean would be 346
    assert_eq!(g.median_minor, 30_000, "a mean would be dragged by the 550 month");
    assert_eq!(g.months_observed, 5);
    assert_eq!(g.latest_minor, 29_000);
    assert_eq!(g.deviation, -1_000);
}

#[test]
fn four_weekly_costs_thirteen_twelfths_of_monthly() {
    let mut c = book();
    let legs = vec![(1, -10_000), (3, 10_000)];
    c.series.push((1, "Monthly thing", "FREQ=MONTHLY;BYMONTHDAY=5", "2026-01-05", legs.clone()));
    c.series.push((
        2,
        "Four-weekly thing",
        "FREQ=WEEKLY;INTERVAL=4;BYDAY=MO",
        "2026-01-05",
        legs,
    ));
    let b = c.brief(&opts("2026-08-15"));
    let s = &b.commitments.series;
    let m = s.iter().find(|r| r.description == "Monthly thing").unwrap();
    let f = s.iter().find(|r| r.description == "Four-weekly thing").unwrap();

    assert_eq!(m.occurrences, 12);
    assert_eq!(m.monthly_minor, -10_000);
    assert_eq!(f.occurrences, 13, "4-weekly lands 13 times in a year");
    // The naive answer -- same amount, so same monthly cost -- is the bug this guards.
    assert_ne!(f.monthly_minor, m.monthly_minor);
    assert_eq!(f.monthly_minor, -10_833, "13/12 of 100.00, rounded half away");
}

#[test]
fn commitments_count_one_leg_only() {
    let mut c = book();
    with_rent_series(&mut c);
    let b = c.brief(&opts("2026-08-15"));
    let rows = &b.commitments.series;
    assert_eq!(rows.len(), 1, "both legs of one series would net to zero and show as two rows");
    assert_eq!(rows[0].monthly_minor, -90_000);
    assert_eq!(b.commitments.monthly_by_currency[0].total, -90_000);
}

#[test]
fn the_outlook_names_the_low_point_and_when_it_arrives() {
    let mut c = book();
    with_rent_series(&mut c);
    // Only rent is a series -- no salary -- so the balance falls 900.00 a month from 6270.00.
    // Six months does not exhaust it and eleven does, which is exactly the distinction the
    // outlook exists to make: the same book is solvent or not depending on how far you look.
    let near = c.brief(&BriefOptions { horizon: d("2027-02-01"), ..opts("2026-08-15") });
    assert!(!near.outlook.goes_negative);

    let far = c.brief(&BriefOptions { horizon: d("2027-12-01"), ..opts("2026-08-15") });
    assert!(far.outlook.goes_negative);
    let acct = far.outlook.accounts.iter().find(|a| a.account == "Current").unwrap();
    assert_eq!(
        acct.first_negative_on.as_deref(),
        Some("2027-03-02"),
        "the date it goes under is the question"
    );
    assert_eq!(acct.lowest_on, acct.closing_on, "a falling balance bottoms out at the end");
}

#[test]
fn unclassified_spending_is_reported_as_a_limit_on_the_analysis() {
    let mut c = book();
    c.create("2026-07-20", "Card payment", vec![(1, -100_000), (5, 100_000)]);
    let b = c.brief(&opts("2026-08-15"));
    let l = limit(&b, "spending that has no category")
        .expect("unclassified spend must be declared, not silently averaged in");
    // 1000.00 unclassified against 7230.00 of expenditure -- 13%, enough to move a category
    // total more than most of the conclusions anyone would draw from one.
    assert_eq!(l.severity, "high");
    assert!(l.detail.contains("1000.00"), "the figure itself must be shown");
    assert!(l.detail.contains("13%"));
}

#[test]
fn renaming_the_unclassified_bucket_does_not_silence_its_caveat() {
    let mut c = book();
    c.create("2026-07-20", "Card payment", vec![(1, -100_000), (5, 100_000)]);
    // The bucket is pinned by id, before anything can rename it.
    c.pin = Some(5);
    c.accounts[4].name = "Misc spending".into();

    let b = c.brief(&opts("2026-08-15"));
    let l = limit(&b, "spending that has no category")
        .expect("a rename must not be able to switch the caveat off");
    assert_eq!(l.severity, "high");
    let detail = &l.detail;
    assert!(detail.contains("1000.00"), "the figure is unchanged by a rename: {detail}");
    // Named by what it is called NOW, or the caveat points at an account nobody can find.
    assert!(detail.contains("Misc spending"), "{detail}");
    assert!(!detail.contains("Expenses:Unclassified"), "{detail}");
}

#[test]
fn a_thin_book_says_it_has_no_baseline() {
    let mut c = Book {
        accounts: vec![
            account(1, "Current", "asset", "GBP"),
            account(3, "Groceries", "expense", "GBP"),
        ],
        pin: None,
        txns: vec![],
        series: vec![],
    };
    c.create("2026-07-15", "Shop", vec![(1, -1_000), (3, 1_000)]);
    let b = c.brief(&opts("2026-08-15"));
    let kinds: Vec<&str> = b.limits.iter().map(|l| l.limit.as_str()).collect();
    assert!(kinds.contains(&"no baseline yet"), "one month is not a baseline: {kinds:?}");
    assert!(kinds.contains(&"nothing recurring is recorded"));
    assert!(kinds.contains(&"history starts here"));
}

#[test]
fn an_empty_book_is_called_empty_rather_than_reported_as_zeroes() {
    let c = Book { accounts: vec![], pin: None, txns: vec![], series: vec![] };
    let b = c.brief(&opts("2026-08-15"));
    let fatal = b.limits.iter().find(|l| l.severity == "fatal").unwrap();
    assert_eq!(fatal.limit, "the book is empty");
}

#[test]
fn balances_never_net_across_currencies() {
    let mut c = book();
    // The point is only that the brief reports JPY separately.
    c.create("2026-07-03", "Yen", vec![(6, 100_000), (6, -100_000)]);
    let b = c.brief(&opts("2026-08-15"));
    let codes: Vec<&str> = b.position.net_by_currency.iter().map(|n| n.name.as_str()).collect();
    assert!(codes.contains(&"GBP") && codes.contains(&"JPY"));
}

#[test]
fn jpy_is_formatted_with_no_decimal_places() {
    let sc = scales();
    assert_eq!(sc.dec(100_000, "JPY"), "100000", "dividing JPY by 100 is a 100x error");
    assert_eq!(sc.dec(100_000, "GBP"), "1000.00");
}

#[test]
fn the_preamble_names_the_traps_that_matter_for_computed_figures() {
    let all = BRIEF_PREAMBLE.join(" ");
    assert!(all.contains("Do not re-derive"));
    assert!(all.contains("COMPLETE calendar months"));
    assert!(all.contains("twelve-over-period"), "the annualisation trap must be stated");
    assert!(all.contains("Read `limits`"));
}

#[test]
fn an_answer_cut_short_says_so() {
    let lines = book().entries();
    let limit = row_limit(3);
    let mut rows: Vec<BookEntry> = vec![];
    let mut truncated = false;
    for l in lines {
        if !take_row(&mut rows, l, limit) {
            truncated = true;
            break;
        }
    }
    assert_eq!(rows.len(), 3);
    assert!(truncated, "a silently short answer is the worst outcome here");
    assert!(query_note(limit, truncated).contains("stopped at 3 rows"));
    assert_eq!(query_note(limit, false), "complete result");
}

#[test]
fn the_step_budget_runs_out() {
    let mut steps = 0;
    let mut looks = 0;
    let mut stopped = false;
    while !stopped {
        let (next, stop) = burn(steps);
        steps = next;
        stopped = stop;
        looks += 1;
    }
    assert_eq!(looks, 201);
    assert_eq!(steps, STEP_BUDGET + 1000);
}

#[test]
fn the_hints_start_with_the_ledger_view() {
    assert!(START_HERE.iter().any(|h| h.contains("v_ledger_line")));
}

#[test]
fn the_tool_list_tells_an_agent_what_to_call_first() {
    let t = tools();
    let names: Vec<&str> = t.iter().map(|x| x.name).collect();
    assert!(names.contains(&"analysis.brief"));
    assert!(names.contains(&"analysis.query"));
    assert!(SUGGESTED_ORDER[0].contains("analysis.brief"));
}

#[test]
fn a_query_is_never_allowed_more_than_the_cap() {
    assert_eq!(row_limit(0), 1);
    assert_eq!(row_limit(50), 50);
    assert_eq!(row_limit(1_000_000), MAX_ROWS);
    assert_eq!(blob_text(12), "<12 bytes>");
}

#[test]
fn the_middle_of_an_even_list_is_the_mean_of_its_two() {
    assert_eq!(median(&vec![]), 0);
    assert_eq!(median(&vec![7]), 7);
    assert_eq!(median(&vec![1, 2, 30]), 2);
    assert_eq!(median(&vec![10, 20, 30, 40]), 25);
}

#[test]
fn months_are_counted_back_to_a_day_they_have() {
    assert_eq!(month_start(d("2026-08-15")).to_text(), "2026-08-01");
    assert_eq!(shift_months(d("2026-01-31"), 1).to_text(), "2026-02-01");
    assert_eq!(shift_months(d("2026-08-01"), -6).to_text(), "2026-02-01");
    assert_eq!(shift_months(d("2026-08-15"), 12).to_text(), "2027-08-15");
    let w = history_window(d("2026-08-15"), 6);
    assert_eq!(w.from.to_text(), "2026-02-01");
    assert_eq!(w.complete, 6);
    assert_eq!(w.excludes.to_text(), "2026-08-01");
}

#[test]
fn what_is_held_is_totalled_by_account() {
    let b = book();
    let t = totals(&b.entries());
    let current = t.iter().find(|t| t.account == "Current").unwrap();
    assert_eq!(current.total, 627_000);
    assert_eq!(current.last_on, "2026-07-15");
    let sums = by_currency(&b.entries());
    assert!(sums.iter().any(|s| s.name == "GBP"));
}

#[test]
fn a_payment_after_the_day_is_not_in_the_position() {
    let mut c = book();
    c.create("2026-09-01", "Later", vec![(1, -1), (3, 1)]);
    let b = c.brief(&opts("2026-08-15"));
    let current = b.position.by_account.iter().find(|a| a.account == "Current").unwrap();
    assert_eq!(current.balance_minor, 627_000);
    assert_eq!(current.last_movement_on, "2026-07-15");
}

#[test]
fn the_largest_expenses_come_first_and_only_so_many() {
    let b = book().brief(&opts("2026-08-15"));
    assert_eq!(b.largest.len(), 5);
    assert_eq!(b.largest[0].amount_minor, 90_000);
    assert!(b.largest.iter().all(|e| e.amount_minor >= 55_000));
}

#[test]
fn a_balance_too_large_to_hold_is_an_error() {
    let mut c = book();
    c.create("2026-07-20", "Huge", vec![(1, i64::MAX), (3, -i64::MAX)]);
    c.create("2026-07-21", "Huge again", vec![(1, i64::MAX), (3, -i64::MAX)]);
    let opt = opts("2026-08-15");
    let snap = snapshot(&book().rows(), opt.as_of).unwrap();
    let e = brief(&RRuleCrate, &c.facts(), &snap, &opt).unwrap_err();
    assert_eq!(e.to_text(), "integer overflow");
    assert!(snapshot(&c.rows(), opt.as_of).is_none());
    assert_eq!(AnalysisError::Bad("no".into()).to_text(), "no");
}

#[test]
fn a_rule_that_cannot_be_read_stops_the_brief() {
    let mut c = book();
    c.series.push((1, "Broken", "FREQ=NEVER", "2026-01-02", vec![(1, -1), (4, 1)]));
    let opt = opts("2026-08-15");
    let snap = snapshot(&c.rows(), opt.as_of).unwrap();
    let e = brief(&RRuleCrate, &c.facts(), &snap, &opt).unwrap_err();
    assert!(e.to_text().starts_with("bad recurrence rule: "), "{}", e.to_text());
}

#[test]
fn a_brief_looks_half_a_year_ahead_by_default() {
    assert_eq!(default_horizon(d("2026-08-15")).to_text(), "2027-02-15");
    assert_eq!(default_horizon(d("2026-08-31")).to_text(), "2027-02-28");
    assert_eq!(default_horizon(d("2026-01-31")).to_text(), "2026-07-31");
}

#[test]
fn a_monthly_rule_counts_twelve_times_whatever_its_day() {
    for on in ["2026-08-15", "2026-01-02", "2026-12-31", "2028-02-28"] {
        for day in 1..=28 {
            let mut c = book();
            with_rent_series(&mut c);
            let mut rows = c.rows();
            rows.series[0].rrule = format!("FREQ=MONTHLY;BYMONTHDAY={day}");
            rows.series[0].dtstart = format!("2025-01-{day:02}");
            let snap = snapshot(&rows, d(on)).unwrap();
            let b = brief(&RRuleCrate, &c.facts(), &snap, &opts(on)).unwrap();
            let row = &b.commitments.series[0];
            assert_eq!((row.occurrences, row.monthly_minor), (12, -90_000), "{on} {day}");
        }
    }
    assert_eq!(d("2026-08-15").year_end().to_text(), "2027-08-14");
    assert_eq!(d("2026-01-01").year_end().to_text(), "2026-12-31");
    assert_eq!(d("2028-02-29").year_end().to_text(), "2029-02-28");
}
