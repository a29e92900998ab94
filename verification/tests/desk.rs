use minka_ledger::book::Account;
use minka_ledger::browse::{balances, descriptions, list, summarise, Listed};
use minka_ledger::date::Date;
use minka_ledger::desk::{
    check_account_name, check_account_removal, check_currency_removal, check_description,
    check_opening_shape, find_opening, new_currency, opening_amount, opening_txn, rename_account,
    set_opening, OpeningEdit, Uses,
};
use minka_ledger::entry::Movement;
use minka_ledger::ledger::BookEntry;
use minka_ledger::link::Link;
use minka_ledger::plans::{
    chain_start, check_end, check_supersedes, override_amounts, preview, preview_given,
    series_chain, series_chain_given, series_family, Primary,
};
use minka_ledger::recur::RRuleCrate;
use minka_ledger::requests::{
    accrues_on, backup_path, brief_largest, brief_months, check_method, check_reset, is_emptied,
    page_limit, page_offset, periods_per_year, thread_limit, METHODS, RESET_TOKEN,
};
use minka_ledger::residual::PostingRow;
use minka_ledger::roles::{
    conversion, conversion_name, opening_equity, opening_equity_key, opening_equity_name,
    reserved_for, unclassified, unclassified_existing, Role,
};
use minka_ledger::rules::{Hop, HopLeg};

fn d(s: &str) -> Date {
    Date::parse(s).unwrap()
}

fn account(id: i64, name: &str, kind: &str, currency: &str) -> Account {
    Account {
        id,
        name: name.into(),
        kind: kind.into(),
        currency: currency.into(),
        system: false,
        closed: false,
    }
}

fn accounts() -> Vec<Account> {
    let mut conv = account(9, "Conversion:GBP", "conversion", "GBP");
    conv.system = true;
    vec![
        account(1, "Current", "asset", "GBP"),
        account(2, "Savings", "asset", "GBP"),
        account(3, "Rent", "expense", "GBP"),
        account(4, "Yen pot", "asset", "JPY"),
        conv,
    ]
}

#[test]
fn a_currency_is_entered_in_capitals_with_its_digits() {
    assert_eq!(new_currency(" chf ", Some(2)).unwrap(), ("CHF".to_string(), 2));
    let e = new_currency("franc", Some(2)).unwrap_err();
    assert_eq!(e.message, "code must be three letters, e.g. CHF");
    assert_eq!(new_currency("CHF", None).unwrap_err().message, "minor_digits");
    let e = new_currency("CHF", Some(18)).unwrap_err();
    assert_eq!(e.code, "bad_params");
    assert!(e.message.contains("an 18dp currency overflows i64 at 9.22 units"), "{}", e.message);
}

#[test]
fn a_currency_in_use_stays() {
    let e = check_currency_removal("CHF", 3, "GBP", true).unwrap_err();
    assert_eq!(e.message, "CHF is used by 3 record(s) and cannot be removed");
    let e = check_currency_removal("GBP", 0, "GBP", true).unwrap_err();
    assert_eq!(e.message, "GBP is the book's display currency");
    let e = check_currency_removal("XXX", 0, "GBP", false).unwrap_err();
    assert_eq!((e.code, e.message.as_str()), ("not_found", "no such currency: XXX"));
    assert!(check_currency_removal("CHF", 0, "GBP", true).is_ok());
}

#[test]
fn the_books_own_names_are_kept_for_it() {
    assert!(check_account_name("Holiday fund").is_ok());
    let e = check_account_name(" Expenses:Unclassified ").unwrap_err();
    assert_eq!(e.code, "reserved_name");
    assert!(e.message.starts_with("Expenses:Unclassified is "));
    assert!(reserved_for(&opening_equity_name("GBP")).is_some());
    assert!(reserved_for(&conversion_name("GBP")).is_some());
    assert!(reserved_for("Groceries").is_none());
    assert_eq!(opening_equity_key("GBP"), "opening_equity.GBP");
}

#[test]
fn a_pinned_role_survives_a_rename() {
    let mut all = accounts();
    all.push(account(5, "Misc spending", "expense", "GBP"));
    assert_eq!(unclassified_existing(&all, Some(5)), Some((5, "Misc spending".to_string())));
    assert_eq!(unclassified_existing(&all, None), None);
    assert!(matches!(unclassified(&all, Some(5), "GBP"), Role::Existing(5)));
    match unclassified(&all, None, "GBP") {
        Role::Create { name, kind, currency, .. } => {
            assert_eq!((name.as_str(), kind.as_str()), ("Expenses:Unclassified", "expense"));
            assert_eq!(currency, "GBP");
        }
        Role::Existing(id) => panic!("found {id}"),
    }
}

#[test]
fn each_currency_has_its_own_counterweight_and_conversion_account() {
    let all = accounts();
    assert!(matches!(conversion(&all, "GBP"), Role::Existing(9)));
    match conversion(&all, "JPY") {
        Role::Create { name, system, .. } => {
            assert_eq!(name, "Conversion:JPY");
            assert!(system);
        }
        Role::Existing(id) => panic!("found {id}"),
    }
    match opening_equity(&all, None, "JPY") {
        Role::Create { name, kind, currency, .. } => {
            assert_eq!(name, opening_equity_name("JPY"));
            assert_eq!((kind.as_str(), currency.as_str()), ("equity", "JPY"));
        }
        Role::Existing(id) => panic!("found {id}"),
    }
}

#[test]
fn an_opening_balance_comes_to_nothing() {
    assert_eq!(opening_amount("asset", Some(500)), Some(500));
    assert_eq!(opening_amount("asset", Some(0)), None);
    assert_eq!(opening_amount("equity", Some(500)), None);
    let t = opening_txn("Current", "2026-01-01", 1, 7, 500);
    assert_eq!(t.description, "Opening balance: Current");
    assert_eq!(t.postings.iter().map(|p| p.amount_minor).sum::<i64>(), 0);
    assert_eq!((t.postings[0].account_id, t.postings[1].account_id), (1, 7));
}

#[test]
fn a_rename_is_refused_for_each_reason() {
    let all = accounts();
    assert_eq!(rename_account(&all, 1, "  Main ").unwrap(), "Main");
    assert_eq!(rename_account(&all, 1, " ").unwrap_err().message, "name must not be empty");
    assert_eq!(rename_account(&all, 77, "x").unwrap_err().code, "not_found");
    assert_eq!(rename_account(&all, 9, "x").unwrap_err().code, "system_account");
    assert_eq!(rename_account(&all, 1, "Conversion:JPY").unwrap_err().code, "reserved_name");
    let e = rename_account(&all, 1, "Savings").unwrap_err();
    assert_eq!(e.message, "another account (id 2) is already called Savings");
}

#[test]
fn an_account_with_history_is_never_deleted() {
    let all = accounts();
    let none = Uses { transactions: 0, recurring: 0, rules: 0, imports: 0, children: 0 };
    assert!(check_account_removal(&all, 1, &none).is_ok());
    assert_eq!(check_account_removal(&all, 77, &none).unwrap_err().code, "not_found");
    assert_eq!(check_account_removal(&all, 9, &none).unwrap_err().code, "system_account");
    let some = Uses { transactions: 3, recurring: 1, rules: 0, imports: 0, children: 0 };
    let e = check_account_removal(&all, 1, &some).unwrap_err();
    assert_eq!(e.code, "in_use");
    assert!(e.message.starts_with("Current has 3 "), "{}", e.message);
    assert!(e.message.contains(" and 1 "), "{}", e.message);
}

fn entry(txn_id: i64, on: &str, description: &str, account_id: i64, amount: i64) -> BookEntry {
    BookEntry {
        txn_id,
        occurred_on: on.into(),
        description: description.into(),
        payee: None,
        account_id,
        account: "Current".into(),
        kind: if account_id == 7 { "equity".into() } else { "asset".into() },
        system: false,
        currency: "GBP".into(),
        amount_minor: amount,
    }
}

#[test]
fn setting_an_opening_balance_edits_the_one_there_is() {
    let all = accounts();
    assert!(matches!(set_opening(&all, 1, 100, None), Ok(OpeningEdit::Create)));
    assert!(matches!(set_opening(&all, 1, 0, None), Ok(OpeningEdit::Nothing)));
    assert!(matches!(set_opening(&all, 1, 100, Some(4)), Ok(OpeningEdit::Update(4))));
    assert!(matches!(set_opening(&all, 1, 0, Some(4)), Ok(OpeningEdit::Remove(4))));
    assert_eq!(set_opening(&all, 9, 1, None).unwrap_err().code, "bad_params");
    assert_eq!(set_opening(&all, 70, 1, None).unwrap_err().code, "not_found");
    assert!(check_opening_shape(4, 1, 1).is_ok());
    let e = check_opening_shape(4, 2, 1).unwrap_err();
    assert_eq!(e.code, "shape");
    let none = find_opening(&vec![entry(1, "2026-01-01", "Shopping", 1, 5)], 1);
    assert_eq!(none, None);
}

#[test]
fn a_description_is_trimmed_and_not_empty() {
    assert_eq!(check_description("  Rent ").unwrap(), "Rent");
    assert_eq!(check_description("  ").unwrap_err().message, "description must not be empty");
}

#[test]
fn a_chain_is_superseded_from_its_first_leg_only() {
    assert!(check_supersedes(None, 2).is_ok());
    assert!(check_supersedes(Some(0), 0).is_ok());
    let e = check_supersedes(Some(1), 0).unwrap_err();
    assert_eq!(e.message, "cancel a recurring chain by its first leg");
    assert!(check_supersedes(Some(0), 2).unwrap_err().message.contains("only be cancelled"));
}

#[test]
fn dates_of_a_plan_are_checked() {
    assert_eq!(chain_start("2026-01-05", None).unwrap().to_text(), "2026-01-05");
    let e = chain_start("soon", None).unwrap_err();
    assert_eq!(e.message, "dtstart must be YYYY-MM-DD");
    let e = chain_start("2026-01-05", Some("later")).unwrap_err();
    assert_eq!(e.message, "until_on must be YYYY-MM-DD");
    let e = chain_start("2026-01-05", Some("2026-01-04")).unwrap_err();
    assert_eq!(e.message, "it would end on 2026-01-04, before it starts on 2026-01-05");
    assert!(check_end(Some("2026-01-05"), "2026-01-05").is_ok());
    assert!(check_end(None, "2026-01-05").is_ok());
    let e = check_end(Some("x"), "2026-01-05").unwrap_err();
    assert_eq!(e.message, "until_on must be YYYY-MM-DD");
    let e = check_end(Some("2025-12-31"), "2026-01-05").unwrap_err();
    assert_eq!(e.message, "it would end on 2025-12-31, before it starts on 2026-01-05");
}

#[test]
fn a_recurring_chain_is_connected_and_balances() {
    let all = accounts();
    let v = series_chain(
        &RRuleCrate,
        &all,
        "FREQ=MONTHLY;BYMONTHDAY=1",
        d("2026-01-01"),
        &vec![1, 2, 3],
        &vec![1_000, 990],
    )
    .unwrap();
    assert_eq!(v.len(), 2);
    assert_eq!((v[0].primary_account, v[0].primary_minor), (1, -1_000));
    assert_eq!((v[0].balancing_account, v[0].balancing_minor), (2, 1_000));
    assert_eq!((v[1].primary_account, v[1].balancing_minor), (2, 990));
}

#[test]
fn a_recurring_chain_is_refused_for_each_reason() {
    let all = accounts();
    let days = Ok(vec![d("2026-01-01")]);
    let e = series_chain_given(&all, &vec![1, 2, 4], &vec![10, 10], &days).unwrap_err();
    assert!(e.message.contains("a chain stays in one currency"), "{}", e.message);
    let e = series_chain_given(&all, &vec![1, 3, 2], &vec![10, 10], &days).unwrap_err();
    assert!(e.message.contains("money can only pass through"), "{}", e.message);
    let e = series_chain_given(&all, &vec![1, 2], &vec![10], &days).unwrap_err();
    assert_eq!(e.message, "a chain needs at least one stop between from and to");
    let e = series_chain_given(&all, &vec![1, 2, 77], &vec![10, 10], &days).unwrap_err();
    assert_eq!((e.code, e.message.as_str()), ("no_such_account", "no such account: 77"));
    let e = series_chain_given(&all, &vec![1, 2, 9], &vec![10, 10], &days).unwrap_err();
    assert_eq!(e.code, "system_account");
    assert_eq!(
        e.message,
        "Conversion:GBP is a system account -- only the core may post to it"
    );
    let e = series_chain_given(&all, &vec![1, 2, 3], &vec![10, 0], &days).unwrap_err();
    assert_eq!(e.message, "every leg of a chain moves a positive amount, and 0 is not one");
    let e = series_chain_given(&all, &vec![1, 2, 2], &vec![10, 10], &days).unwrap_err();
    assert_eq!(e.message, "a chain cannot move money from an account to itself");
    let bad: Result<Vec<Date>, String> = Err("cannot be read".into());
    let e = series_chain_given(&all, &vec![1, 2, 3], &vec![10, 10], &bad).unwrap_err();
    assert_eq!(e.code, "bad_rule");
}

#[test]
fn an_override_travels_through_a_chain_as_a_difference() {
    let all = vec![
        Primary { series_id: 1, amount_minor: -1_000 },
        Primary { series_id: 2, amount_minor: -990 },
    ];
    // The fee of ten stays a fee of ten, and the direction stays.
    assert_eq!(override_amounts(&all, &vec![1, 2], 1, 1_200).unwrap(), vec![-1_200, -1_190]);
    let e = override_amounts(&all, &vec![1, 2], 1, 5).unwrap_err();
    assert_eq!(e.message, "that would take leg 2 of the chain below zero");
}

#[test]
fn a_preview_shows_the_days_and_when_the_money_moves() {
    let p = preview(&RRuleCrate, "FREQ=MONTHLY;BYMONTHDAY=1", d("2026-08-01"), None, "after", 3);
    let p = p.unwrap();
    assert_eq!(p.len(), 3);
    // 1 August 2026 is a Saturday.
    assert_eq!(p[0].occurrence_on.to_text(), "2026-08-01");
    assert_eq!(p[0].value_on.to_text(), "2026-08-03");
    assert_eq!(p[2].occurrence_on.to_text(), "2026-10-01");
    let e = preview(&RRuleCrate, "FREQ=NEVER", d("2026-08-01"), None, "none", 3).unwrap_err();
    assert_eq!(e.code, "bad_rule");
    let days = vec![d("2026-08-03"); 60];
    assert_eq!(preview_given(&days, "none", 0).len(), 1);
    assert_eq!(preview_given(&days, "none", 500).len(), 50);
}

fn hop(id: i64, chain_id: Option<i64>, chain_seq: Option<i64>) -> Hop {
    let leg = |id, account_id, amount_minor, role: &str| HopLeg {
        id,
        account_id,
        currency: "GBP".into(),
        amount_minor,
        role: role.into(),
    };
    Hop {
        id,
        head_id: None,
        description: "Move".into(),
        rrule: "FREQ=MONTHLY;BYMONTHDAY=1".into(),
        dtstart: d("2026-01-01"),
        until_on: None,
        weekend_rule: "none".into(),
        scenario_id: None,
        supersedes_id: None,
        chain_id,
        chain_seq,
        legs: vec![leg(1, 1, -10, "primary"), leg(2, 2, 10, "balancing")],
    }
}

#[test]
fn a_chain_is_a_family_in_sequence() {
    let hops = vec![hop(5, Some(4), Some(1)), hop(4, Some(4), Some(0)), hop(6, None, None)];
    let ids: Vec<i64> = series_family(&hops, 5).iter().map(|f| f.id).collect();
    assert_eq!(ids, vec![4, 5]);
    let alone: Vec<i64> = series_family(&hops, 6).iter().map(|f| f.id).collect();
    assert_eq!(alone, vec![6]);
}

#[test]
fn only_known_methods_are_answered() {
    assert!(METHODS.iter().all(|m| check_method(m).is_ok()));
    let e = check_method("book.burn").unwrap_err();
    assert_eq!(e.code, "unknown_method");
    assert!(e.message.contains("book.burn"), "{}", e.message);
}

#[test]
fn what_is_asked_for_is_kept_within_reason() {
    assert_eq!((brief_months(None), brief_largest(None)), (6, 10));
    assert_eq!(page_limit(None), 50);
    assert_eq!(page_limit(Some(-5)), 1);
    assert_eq!((page_offset(None), page_offset(Some(-1)), page_offset(Some(7))), (0, 0, 7));
    assert_eq!(thread_limit(None), 200);
    assert_eq!(accrues_on("savings", None), "positive");
    assert_eq!(accrues_on("loan", Some("both")), "both");
    assert_eq!((periods_per_year("daily", None), periods_per_year("daily", Some(4))), (365, 4));
}

#[test]
fn a_reset_needs_its_word_and_leaves_a_backup() {
    assert!(check_reset(RESET_TOKEN).is_ok());
    let refused = check_reset("yes").unwrap_err();
    assert_eq!(refused.code, "not_confirmed");
    assert_eq!(refused.message, "book.reset requires confirm = \"DELETE\"");
    assert_eq!(backup_path("/b", "20260801"), "/b/book-before-reset-20260801.db");
    assert!(is_emptied("txn") && !is_emptied("currency") && !is_emptied("book_meta"));
    assert!(!is_emptied("sqlite_sequence"));
}

fn listed(id: i64, on: &str, description: &str) -> Listed {
    Listed {
        id,
        occurred_on: on.into(),
        description: description.into(),
        payee: None,
        source: "manual".into(),
    }
}

#[test]
fn payments_are_listed_newest_first() {
    let txns = vec![
        listed(1, "2026-08-01", "Rent"),
        listed(2, "2026-08-03", "Shop"),
        listed(3, "2026-08-03", "Shop"),
    ];
    let ids: Vec<i64> = list(&txns, None, None, 10).iter().map(|n| n.id).collect();
    assert_eq!(ids, vec![3, 2, 1]);
    let ids: Vec<i64> = list(&txns, Some("2026-08-02"), None, 1).iter().map(|n| n.id).collect();
    assert_eq!(ids, vec![3]);
    let used = descriptions(&txns, 10);
    assert_eq!((used[0].description.as_str(), used[0].count), ("Shop", 2));
    assert_eq!(used[0].last_on, "2026-08-03");
    assert_eq!(descriptions(&txns, 1).len(), 1);
}

#[test]
fn a_summary_recognises_a_payment() {
    let txns = vec![listed(1, "2026-08-03", "Shop"), listed(2, "2026-08-01", "Rent")];
    let row = |txn_id, amount_minor| PostingRow {
        txn_id,
        account_id: 1,
        account: "Current".into(),
        kind: "asset".into(),
        currency: "GBP".into(),
        amount_minor,
    };
    let postings = vec![row(1, 5), row(1, -5), row(2, -9), row(2, 9)];
    let links = vec![Link { from: 1, to: 2, note: None }];
    let s = summarise(&txns, &links, &postings, &vec![1, 2]);
    assert_eq!(s.len(), 2);
    assert_eq!(txns[s[0].at].description, "Rent", "the oldest first");
    assert_eq!((s[0].links, s[0].postings[0].amount_minor), (1, -9));
}

#[test]
fn open_accounts_are_listed_with_what_they_hold() {
    let mut all = accounts();
    all[1].closed = true;
    let moved = |account_id, moved_minor| Movement {
        account_id,
        on: "2026-08-01".into(),
        moved_minor,
    };
    let b = balances(&all, &vec![moved(1, 500), moved(2, 7), moved(1, -100)], None).unwrap();
    let held: Vec<(&str, i64)> = b.iter().map(|b| (b.name.as_str(), b.balance_minor)).collect();
    assert_eq!(held, vec![("Current", 400), ("Yen pot", 0), ("Conversion:GBP", 0), ("Rent", 0)]);
    assert!(balances(&all, &vec![moved(1, i64::MAX), moved(1, 1)], None).is_none());
    let rows = vec![moved(1, 500), Movement { on: "2026-08-02".into(), ..moved(1, -100) }];
    let on = |d| balances(&all, &rows, Some(d)).unwrap()[0].balance_minor;
    assert_eq!((on("2026-07-31"), on("2026-08-01"), on("2026-08-02")), (0, 500, 400));
}
