use minka_ledger::book::Account;
use minka_ledger::db::integrity;
use minka_ledger::importer::{
    catches_upper, categorise, commit, fingerprint, normalise, normalise_upper, parse_date, revert,
    stage, stage_records, Batch, BatchRow, ImportError, ImportKey, ImportRule, Mapping, Profile,
};
use minka_ledger::requests::{import_code, peek};
use minka_ledger::roles::{unclassified, Role};

const MONZO: &str = "\
Date,Description,Amount,Category
01/08/2026,TESCO STORES 3345,-42.15,Groceries
02/08/2026,SALARY ACME LTD,2500.00,Income
03/08/2026,NETFLIX.COM,-10.99,Entertainment
";

/// A book in memory: what a store would hold.
struct Book {
    accounts: Vec<Account>,
    rules: Vec<ImportRule>,
    keys: Vec<ImportKey>,
    batches: Vec<(String, Vec<BatchRow>)>,
    /// Each transaction with its legs: account and amount.
    txns: Vec<(i64, Vec<(i64, i64)>)>,
    next_txn: i64,
}

/// What staging a file came to.
struct Report {
    batch: usize,
    rows: usize,
    new_rows: usize,
    duplicates: usize,
    errors: usize,
}

fn account(id: i64, name: &str, kind: &str) -> Account {
    Account {
        id,
        name: name.to_string(),
        kind: kind.to_string(),
        currency: "GBP".to_string(),
        system: false,
        closed: false,
    }
}

fn profile(mapping: Mapping) -> Profile {
    Profile {
        mapping,
        date_format: "%d/%m/%Y".into(),
        account_id: Some(1),
        default_currency: "GBP".into(),
        delimiter: ",".into(),
        minor_digits: 2,
    }
}

fn monzo() -> Profile {
    profile(Mapping {
        date: "Date".into(),
        amount: Some("Amount".into()),
        description: Some("Description".into()),
        bank_category: Some("Category".into()),
        ..Default::default()
    })
}

fn book() -> Book {
    Book {
        accounts: vec![
            account(1, "Current", "asset"),
            account(2, "Groceries", "expense"),
            account(3, "Salary", "income"),
        ],
        rules: vec![],
        keys: vec![],
        batches: vec![],
        txns: vec![],
        next_txn: 1,
    }
}

impl Book {
    fn stage(&mut self, p: &Profile, name: &str, csv: &str) -> Report {
        let b: Batch = stage(p, name, csv, &self.keys).unwrap();
        let rows: Vec<BatchRow> = b
            .rows
            .iter()
            .enumerate()
            .map(|(i, r)| BatchRow {
                id: i as i64 + 1,
                account_id: r.account_id,
                occurred_on: r.occurred_on.clone(),
                description: r.description.clone(),
                payee: r.payee.clone(),
                bank_category: r.bank_category.clone(),
                txn_type: r.txn_type.clone(),
                amount_minor: r.amount_minor,
                currency: r.currency.clone().unwrap_or("GBP".into()),
                far_account_id: None,
                fingerprint: r.fingerprint.clone(),
                state: r.state.clone(),
                accepted: r.accepted,
                txn_id: None,
            })
            .collect();
        self.batches.push(("staged".into(), rows));
        Report {
            batch: self.batches.len() - 1,
            rows: b.rows.len(),
            new_rows: b.new_rows,
            duplicates: b.duplicates,
            errors: b.errors,
        }
    }

    fn unclassified(&mut self) -> i64 {
        match unclassified(&self.accounts, None, "GBP") {
            Role::Existing(id) => id,
            Role::Create { name, kind, currency, system } => {
                let id = self.accounts.len() as i64 + 1;
                self.accounts.push(Account { id, name, kind, currency, system, closed: false });
                id
            }
        }
    }

    fn commit(&mut self, batch: usize) -> Result<usize, ImportError> {
        let bucket = self.unclassified();
        let (state, rows) = &self.batches[batch];
        let made = commit(batch as i64, Some(state), rows, bucket, &self.accounts)?;
        let n = made.len();
        for t in made {
            let id = self.next_txn;
            self.next_txn += 1;
            self.txns.push((id, t.legs.iter().map(|l| (l.account_id, l.amount_minor)).collect()));
            if let Some(f) = &t.fingerprint {
                self.keys.push(ImportKey { fingerprint: f.clone(), txn_id: id });
            }
            let row = self.batches[batch].1.iter_mut().find(|r| r.id == t.row_id).unwrap();
            row.txn_id = Some(id);
            row.state = "committed".into();
        }
        self.batches[batch].0 = "committed".into();
        Ok(n)
    }

    fn revert(&mut self, batch: usize) -> usize {
        let gone = revert(&self.batches[batch].1);
        self.txns.retain(|t| !gone.txn_ids.contains(&t.0));
        self.keys.retain(|k| !gone.txn_ids.contains(&k.txn_id));
        gone.txn_ids.len()
    }

    fn categorise(&mut self, batch: usize) -> usize {
        let hits = categorise(&self.rules, &self.batches[batch].1);
        for h in &hits {
            let row = self.batches[batch].1.iter_mut().find(|r| r.id == h.row_id).unwrap();
            row.far_account_id = h.far_account_id;
        }
        hits.len()
    }

    fn far(&self, batch: usize, row: usize) -> Option<&str> {
        let id = self.batches[batch].1[row].far_account_id?;
        self.accounts.iter().find(|a| a.id == id).map(|a| a.name.as_str())
    }

    fn sound(&self) -> bool {
        let bad = self
            .txns
            .iter()
            .filter(|(_, legs)| legs.iter().map(|l| l.1).sum::<i64>() != 0)
            .count() as i64;
        integrity(&vec![bad, bad, 0])
    }
}

fn rule(id: i64, pattern: &str, sign: i64, far: i64) -> ImportRule {
    ImportRule {
        id,
        priority: 100,
        enabled: true,
        field: "description".into(),
        op: "contains".into(),
        pattern: pattern.into(),
        sign,
        set_far_account_id: Some(far),
    }
}

#[test]
fn staging_parses_rows_without_touching_the_ledger() {
    let mut c = book();
    let rep = c.stage(&monzo(), "monzo.csv", MONZO);
    assert_eq!(rep.rows, 3);
    assert_eq!(rep.new_rows, 3);
    assert_eq!(rep.errors, 0);
    // nothing in the ledger yet -- that is the whole point
    assert_eq!(c.txns.len(), 0);

    let rows = &c.batches[rep.batch].1;
    assert_eq!(rows[0].occurred_on.as_deref(), Some("2026-08-01"));
    assert_eq!(rows[0].amount_minor, Some(-4_215));
    assert_eq!(rows[1].amount_minor, Some(250_000));
}

#[test]
fn committing_creates_balanced_transactions() {
    let mut c = book();
    let rep = c.stage(&monzo(), "monzo.csv", MONZO);
    let n = c.commit(rep.batch).unwrap();
    assert_eq!(n, 3);
    assert!(c.sound());
    // the far side landed in Unclassified, which is a visible to-do rather than a silent guess
    let bucket = c.accounts.iter().find(|a| a.name == "Expenses:Unclassified").unwrap().id;
    let sum: i64 =
        c.txns.iter().flat_map(|t| t.1.iter()).filter(|l| l.0 == bucket).map(|l| l.1).sum();
    assert_eq!(sum, 4_215 - 250_000 + 1_099);
}

#[test]
fn re_importing_the_same_file_adds_nothing() {
    let mut c = book();
    let first = c.stage(&monzo(), "monzo.csv", MONZO);
    c.commit(first.batch).unwrap();

    let second = c.stage(&monzo(), "monzo.csv", MONZO);
    assert_eq!(second.duplicates, 3, "every row is already in the book");
    assert_eq!(second.new_rows, 0);
    let n = c.commit(second.batch).unwrap();
    assert_eq!(n, 0, "a duplicate row is not accepted, so nothing is written");
    assert_eq!(c.txns.len(), 3, "still just the three original transactions");
}

#[test]
fn an_overlapping_window_imports_only_the_new_rows() {
    let mut c = book();
    let first = c.stage(&monzo(), "a.csv", MONZO);
    c.commit(first.batch).unwrap();

    let overlapping = format!("{MONZO}04/08/2026,COFFEE,-3.50,Eating out\n");
    let second = c.stage(&monzo(), "b.csv", &overlapping);
    assert_eq!(second.duplicates, 3);
    assert_eq!(second.new_rows, 1);
    c.commit(second.batch).unwrap();
    assert_eq!(c.txns.len(), 4);
}

#[test]
fn revert_restores_the_ledger_exactly() {
    let mut c = book();
    let rep = c.stage(&monzo(), "monzo.csv", MONZO);
    c.commit(rep.batch).unwrap();
    assert_eq!(c.revert(rep.batch), 3);

    let posts: usize = c.txns.iter().map(|t| t.1.len()).sum();
    assert_eq!(
        (c.txns.len(), posts, c.keys.len()),
        (0, 0, 0),
        "reverting leaves no trace in the ledger"
    );
    // and because the import keys went too, the file can be imported again
    let again = c.stage(&monzo(), "monzo.csv", MONZO);
    assert_eq!(again.new_rows, 3);
}

#[test]
fn rules_set_the_far_side_and_respect_sign() {
    let mut c = book();
    c.rules = vec![rule(1, "TESCO", -1, 2), rule(2, "SALARY", 1, 3)];
    let rep = c.stage(&monzo(), "monzo.csv", MONZO);
    let hits = c.categorise(rep.batch);
    assert_eq!(hits, 2, "Tesco and Salary matched; Netflix has no rule");

    assert_eq!(c.far(rep.batch, 0), Some("Groceries"));
    assert_eq!(c.far(rep.batch, 1), Some("Salary"));
    assert!(c.far(rep.batch, 2).is_none(), "unmatched stays unclassified");
}

#[test]
fn a_sign_restricted_rule_ignores_the_wrong_direction() {
    let mut c = book();
    // a rule for INCOMING Tesco (a refund) must not catch the outgoing purchase
    c.rules = vec![rule(1, "TESCO", 1, 3)];
    let rep = c.stage(&monzo(), "monzo.csv", MONZO);
    assert_eq!(c.categorise(rep.batch), 0);
}

#[test]
fn separate_money_in_and_out_columns_work() {
    let mut c = book();
    let barclays = profile(Mapping {
        date: "Date".into(),
        money_in: Some("Paid In".into()),
        money_out: Some("Paid Out".into()),
        description: Some("Description".into()),
        ..Default::default()
    });
    let csv = "Date,Description,Paid Out,Paid In\n\
               01/08/2026,RENT,900.00,\n\
               02/08/2026,SALARY,,2500.00\n";
    let rep = c.stage(&barclays, "barclays.csv", csv);
    let rows = &c.batches[rep.batch].1;
    assert_eq!(rows[0].amount_minor, Some(-90_000), "paid out is negative");
    assert_eq!(rows[1].amount_minor, Some(250_000), "paid in is positive");
}

#[test]
fn a_bad_row_is_recorded_rather_than_failing_the_file() {
    let csv = "Date,Description,Amount,Category\n\
               01/08/2026,GOOD,-10.00,x\n\
               not-a-date,BAD,-10.00,x\n\
               03/08/2026,ALSO GOOD,-1.00,x\n";
    let rep = stage(&monzo(), "mixed.csv", csv, &vec![]).unwrap();
    assert_eq!(rep.rows.len(), 3);
    assert_eq!(rep.errors, 1);
    assert_eq!(rep.new_rows, 2, "the good rows still import");
    assert_eq!(rep.rows[1].state, "error");
    assert_eq!(rep.rows[1].error.as_deref(), Some("unparseable date"));
}

#[test]
fn quoted_fields_with_commas_survive() {
    let mut c = book();
    let csv = "Date,Description,Amount,Category\n\
               01/08/2026,\"SMITH, JOHN & CO\",-25.00,Other\n";
    let rep = c.stage(&monzo(), "quoted.csv", csv);
    let rows = &c.batches[rep.batch].1;
    assert_eq!(rows[0].description, "SMITH, JOHN & CO");
    assert_eq!(rows[0].amount_minor, Some(-2_500));
}

#[test]
fn the_fingerprint_is_readable_and_stable() {
    let a = fingerprint("2026-08-01", -4_215, "TESCO STORES 3345");
    assert_eq!(a, "2026-08-01|-4215|TESCO STORES 3345");
    // whitespace and case differences between two exports of the same row must not matter
    assert_eq!(a, fingerprint("2026-08-01", -4_215, "  tesco   stores 3345 "));
    // but a different amount is a different row
    assert_ne!(a, fingerprint("2026-08-01", -4_216, "TESCO STORES 3345"));
}

#[test]
fn a_description_is_normalised_to_capitals_and_single_spaces() {
    assert_eq!(normalise("  Café   nero\tx "), "CAFÉ NERO X");
}

#[test]
fn dates_are_read_in_the_profiles_own_format() {
    assert_eq!(parse_date("01/08/2026", "%d/%m/%Y").as_deref(), Some("2026-08-01"));
    assert_eq!(parse_date("08/01/2026", "%m/%d/%Y").as_deref(), Some("2026-08-01"));
    // Several exports claim one format and emit ISO.
    assert_eq!(parse_date("2026-08-01", "%d/%m/%Y").as_deref(), Some("2026-08-01"));
    assert_eq!(parse_date("1 Aug", "%d/%m/%Y"), None);
}

#[test]
fn each_refused_import_says_why() {
    let rows: Vec<BatchRow> = vec![];
    let accounts = book().accounts;
    let e = commit(7, None, &rows, 1, &accounts).unwrap_err();
    assert_eq!(e.to_text(), "no such import batch: 7");
    let e = commit(7, Some("committed"), &rows, 1, &accounts).unwrap_err();
    assert!(matches!(e, ImportError::AlreadyCommitted(7)));
    assert_eq!(ImportError::NoProfile(3).to_text(), "no such import profile: 3");
    assert!(ImportError::Csv("x".into()).to_text().starts_with("csv: "));

    let mut c = book();
    let rep = c.stage(&monzo(), "monzo.csv", MONZO);
    let e = commit(1, Some("staged"), &c.batches[rep.batch].1, 404, &c.accounts).unwrap_err();
    assert!(matches!(e, ImportError::NoAccount(404)));
}

#[test]
fn the_first_rule_by_priority_decides() {
    let mut c = book();
    let mut later = rule(1, "TESCO", 0, 3);
    later.priority = 50;
    c.rules = vec![later, rule(2, "stores", 0, 2)];
    let rep = c.stage(&monzo(), "monzo.csv", MONZO);
    assert_eq!(c.categorise(rep.batch), 1);
    assert_eq!(c.far(rep.batch, 0), Some("Groceries"));
}

#[test]
fn a_staged_row_keeps_the_record_it_came_from() {
    let b = stage(&monzo(), "monzo.csv", MONZO, &vec![]).unwrap();
    assert_eq!(b.rows[0].raw_json, "[\"01/08/2026\",\"TESCO STORES 3345\",\"-42.15\",\"Groceries\"]");
    assert_eq!(b.first_on.as_deref(), Some("2026-08-01"));
    assert_eq!(b.last_on.as_deref(), Some("2026-08-03"));
    let headers = vec!["Date".to_string(), "Amount".to_string()];
    let records = vec![
        Ok(vec!["01/08/2026".to_string(), "1.00".to_string()]),
        Err("broken".to_string()),
    ];
    let b = stage_records(&headers, &records, &monzo(), &vec![]);
    assert_eq!((b.new_rows, b.errors), (1, 1));
}

#[test]
fn a_file_can_be_looked_into_before_it_is_staged() {
    let p = peek(MONZO).unwrap();
    assert_eq!(p.headers, vec!["Date", "Description", "Amount", "Category"]);
    assert_eq!(p.sample.len(), 3);
    assert_eq!(p.sample[1][1], "SALARY ACME LTD");
    assert_eq!(p.total_lines, 3);
    let p = peek(" a , b \n1,2\n3,4\n5,6\n7,8").unwrap();
    assert_eq!(p.headers, vec!["a", "b"]);
    assert_eq!(p.sample.len(), 3);
    assert_eq!(p.total_lines, 4);
    assert_eq!(peek("").unwrap().total_lines, 0);
}

#[test]
fn a_row_of_another_currency_than_its_far_account_is_refused() {
    let mut c = book();
    let rep = c.stage(&monzo(), "monzo.csv", MONZO);
    let bucket = c.unclassified();
    let far = c.accounts.iter().position(|a| a.id == bucket).unwrap();
    c.accounts[far].currency = "EUR".into();
    let e = commit(1, Some("staged"), &c.batches[rep.batch].1, bucket, &c.accounts).unwrap_err();
    assert!(matches!(e, ImportError::OtherCurrency { row_id: 1, .. }));
    assert_eq!(
        e.to_text(),
        format!("row 1 is not in the currency of its far account {bucket}: record it as a conversion")
    );
    assert_eq!(import_code(&e), "other_currency");
    c.accounts[far].currency = "GBP".into();
    let made = commit(1, Some("staged"), &c.batches[rep.batch].1, bucket, &c.accounts).unwrap();
    for t in &made {
        assert_eq!(t.legs[0].currency, t.legs[1].currency);
        assert_eq!(t.legs[0].amount_minor + t.legs[1].amount_minor, 0);
    }
}

#[test]
fn importing_again_keeps_rows_and_errors_and_calls_the_rest_duplicates() {
    let mut c = book();
    let text = format!("{MONZO}nonsense,COFFEE,-3.50,Eating out\n");
    let first = c.stage(&monzo(), "a.csv", &text);
    c.commit(first.batch).unwrap();
    let again = c.stage(&monzo(), "a.csv", &text);
    assert_eq!((again.rows, again.errors), (first.rows, first.errors));
    assert_eq!((again.errors, again.new_rows), (1, 0));
    assert_eq!(again.duplicates, again.rows - again.errors);
}

#[test]
fn what_is_in_capitals_is_normalised_and_matched() {
    assert_eq!(normalise_upper("TESCO-STORES 3345!"), "TESCOSTORES 3345");
    assert_eq!(normalise_upper(&"A".repeat(60)).len(), 48);
    let r = rule(1, "tesco", -1, 2);
    assert!(catches_upper(&r, -1, "TESCO STORES", "TESCO"));
    assert!(!catches_upper(&r, 1, "TESCO STORES", "TESCO"));
    assert!(!catches_upper(&r, -1, "ALDI", "TESCO"));
}
