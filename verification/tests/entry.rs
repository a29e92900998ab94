use minka_ledger::book::{Account, Leg};
use minka_ledger::browse::{descriptions, list, summarise, Listed};
use minka_ledger::db::integrity;
use minka_ledger::entry::{
    blank_to_none, canonical_day, create, create_chain, description_pattern, history, residual,
    search_pattern, update, Changes, Edit, EntryError, Movement, NewChain, NewConversion, NewHop,
    NewPosting, NewTxn, TxnPatch,
};
use minka_ledger::link::Link;
use minka_ledger::residual::PostingRow;
use minka_ledger::roles::{conversion, Role};

/// A payment as a store would hold it: its legs each under an id of their own.
#[derive(Debug, Clone, PartialEq)]
struct Payment {
    id: i64,
    occurred_on: String,
    description: String,
    payee: Option<String>,
    note: Option<String>,
    legs: Vec<(i64, i64, String, i64)>,
}

struct Book {
    accounts: Vec<Account>,
    txns: Vec<Payment>,
    next_txn: i64,
    next_posting: i64,
}

fn account(id: i64, name: &str, kind: &str, currency: &str, system: bool) -> Account {
    Account {
        id,
        name: name.to_string(),
        kind: kind.to_string(),
        currency: currency.to_string(),
        system,
        closed: false,
    }
}

fn book() -> Book {
    Book {
        accounts: vec![
            account(1, "Current", "asset", "GBP", false),
            account(2, "Salary", "income", "GBP", false),
            account(3, "Rent", "expense", "GBP", false),
            account(4, "Euro pot", "asset", "EUR", false),
            account(9, "Conversion:GBP", "conversion", "GBP", true),
        ],
        txns: vec![],
        next_txn: 1,
        next_posting: 1,
    }
}

fn p(account_id: i64, amount_minor: i64) -> NewPosting {
    NewPosting { account_id, amount_minor }
}

fn txn(postings: Vec<NewPosting>) -> NewTxn {
    NewTxn {
        occurred_on: "2026-08-28".into(),
        description: "test".into(),
        payee: None,
        note: None,
        postings,
    }
}

impl Book {
    fn rows(&mut self, legs: &Vec<Leg>) -> Vec<(i64, i64, String, i64)> {
        legs.iter()
            .map(|l| {
                let id = self.next_posting;
                self.next_posting += 1;
                (id, l.account_id, l.currency.clone(), l.amount_minor)
            })
            .collect()
    }

    fn create(&mut self, new: &NewTxn) -> Result<i64, EntryError> {
        let legs = create(&self.accounts, new)?;
        let id = self.next_txn;
        self.next_txn += 1;
        let legs = self.rows(&legs);
        self.txns.push(Payment {
            id,
            occurred_on: new.occurred_on.clone(),
            description: new.description.clone(),
            payee: new.payee.clone(),
            note: new.note.clone(),
            legs,
        });
        Ok(id)
    }

    fn get(&self, id: i64) -> Result<Payment, EntryError> {
        self.txns.iter().find(|t| t.id == id).cloned().ok_or(EntryError::NotFound(id))
    }

    fn delete(&mut self, id: i64) -> Result<(), EntryError> {
        self.get(id)?;
        self.txns.retain(|t| t.id != id);
        Ok(())
    }

    fn listed(&self) -> Vec<Listed> {
        self.txns
            .iter()
            .map(|t| Listed {
                id: t.id,
                occurred_on: t.occurred_on.clone(),
                description: t.description.clone(),
                payee: t.payee.clone(),
                source: "manual".into(),
            })
            .collect()
    }

    fn trading(&mut self, code: &str) -> i64 {
        match conversion(&self.accounts, code) {
            Role::Existing(id) => id,
            Role::Create { name, kind, currency, system } => {
                let id = self.accounts.iter().map(|a| a.id).max().unwrap() + 1;
                self.accounts.push(Account { id, name, kind, currency, system, closed: false });
                id
            }
        }
    }

    fn update(&mut self, id: i64, patch: &TxnPatch) -> Result<Payment, EntryError> {
        let recorded = self.get(id).is_ok();
        let canonical = match &patch.occurred_on {
            Some(on) => canonical_day(on),
            None => None,
        };
        let current: Vec<Leg> = match self.get(id) {
            Ok(t) => t
                .legs
                .iter()
                .map(|l| Leg { account_id: l.1, currency: l.2.clone(), amount_minor: l.3 })
                .collect(),
            Err(_) => vec![],
        };
        let mut edit = update(&self.accounts, id, recorded, &canonical, &current, None, patch)?;
        if let Edit::OpenTrading { from, to } = &edit {
            let pair = Some((self.trading(from), self.trading(to)));
            edit = update(&self.accounts, id, recorded, &canonical, &current, pair, patch)?;
        }
        let changes: Changes = match edit {
            Edit::Apply(c) => c,
            other => panic!("expected the changes, got {other:?}"),
        };
        let rows = changes.legs.as_ref().map(|l| self.rows(l));
        let t = self.txns.iter_mut().find(|t| t.id == id).unwrap();
        if let Some(on) = changes.occurred_on {
            t.occurred_on = on;
        }
        if let Some(d) = changes.description {
            t.description = d;
        }
        if let Some(payee) = changes.payee {
            t.payee = payee;
        }
        if let Some(note) = changes.note {
            t.note = note;
        }
        if let Some(rows) = rows {
            t.legs = rows;
        }
        Ok(t.clone())
    }

    fn balance_of(&self, name: &str) -> i64 {
        let id = self.accounts.iter().find(|a| a.name == name).unwrap().id;
        self.txns.iter().flat_map(|t| t.legs.iter()).filter(|l| l.1 == id).map(|l| l.3).sum()
    }

    /// The payments that do not come to nothing in some currency.
    fn sound(&self) -> bool {
        let mut bad: i64 = 0;
        for t in &self.txns {
            for (_, _, cur, _) in &t.legs {
                let sum: i64 = t.legs.iter().filter(|l| &l.2 == cur).map(|l| l.3).sum();
                if sum != 0 {
                    bad += 1;
                }
            }
        }
        integrity(&vec![bad, bad, 0])
    }

    fn ids_of(&self, txn: i64) -> Vec<i64> {
        self.get(txn).unwrap().legs.iter().map(|l| l.0).collect()
    }
}

fn amount_in(sums: &Vec<minka_ledger::tally::Sum>, cur: &str) -> Option<i128> {
    sums.iter().find(|s| s.name == cur).map(|s| s.total)
}

#[test]
fn records_a_balanced_transaction() {
    let mut c = book();
    // salary in: income is credited (negative), the asset debited (positive)
    let id = c.create(&txn(vec![p(1, 250_000), p(2, -250_000)])).unwrap();
    let got = c.get(id).unwrap();
    assert_eq!(got.legs.len(), 2);
    assert_eq!(c.balance_of("Current"), 250_000);
}

#[test]
fn refuses_an_unbalanced_transaction_and_says_by_how_much() {
    let mut c = book();
    match c.create(&txn(vec![p(1, 250_000), p(2, -249_000)])) {
        Err(EntryError::Unbalanced(r)) => {
            assert_eq!(amount_in(&r, "GBP"), Some(1_000)); // a tenner short, named
        }
        other => panic!("expected Unbalanced, got {other:?}"),
    }
    // and nothing was written
    assert_eq!(list(&c.listed(), None, None, 100).len(), 0);
}

#[test]
fn balance_is_checked_per_currency_not_in_total() {
    let mut c = book();
    // +100 GBP and -100 EUR nets to zero if you ignore currency. It must not be accepted:
    // this is exactly the cross-currency transaction that needs conversion postings.
    match c.create(&txn(vec![p(1, 10_000), p(4, -10_000)])) {
        Err(EntryError::Unbalanced(r)) => {
            assert_eq!(amount_in(&r, "GBP"), Some(10_000));
            assert_eq!(amount_in(&r, "EUR"), Some(-10_000));
        }
        other => panic!("expected Unbalanced, got {other:?}"),
    }
}

#[test]
fn refuses_a_hand_posting_to_a_conversion_account() {
    let mut c = book();
    match c.create(&txn(vec![p(1, 10_000), p(9, -10_000)])) {
        Err(EntryError::SystemAccount(n)) => assert_eq!(n, "Conversion:GBP"),
        other => panic!("expected SystemAccount, got {other:?}"),
    }
}

#[test]
fn refuses_unknown_accounts_and_stubs() {
    let mut c = book();
    assert!(matches!(
        c.create(&txn(vec![p(1, 100), p(404, -100)])),
        Err(EntryError::NoSuchAccount(404))
    ));
    assert!(matches!(c.create(&txn(vec![p(1, 0)])), Err(EntryError::TooFewPostings)));
}

#[test]
fn a_multi_leg_split_balances() {
    let mut c = book();
    // one payment covering rent and a bill, from one account
    let id = c.create(&txn(vec![p(1, -90_000), p(3, 75_000), p(3, 15_000)])).unwrap();
    assert_eq!(c.get(id).unwrap().legs.len(), 3);
}

#[test]
fn delete_removes_postings_too() {
    let mut c = book();
    let id = c.create(&txn(vec![p(1, 100), p(2, -100)])).unwrap();
    c.delete(id).unwrap();
    assert!(matches!(c.get(id), Err(EntryError::NotFound(_))));
    let n = c.txns.iter().filter(|t| t.id == id).flat_map(|t| t.legs.iter()).count();
    assert_eq!(n, 0, "postings must cascade");
    assert!(matches!(c.delete(id), Err(EntryError::NotFound(_))));
}

#[test]
fn list_filters_by_date_window() {
    let mut c = book();
    for d in ["2026-01-15", "2026-06-15", "2026-12-15"] {
        let mut t = txn(vec![p(1, 100), p(2, -100)]);
        t.occurred_on = d.into();
        c.create(&t).unwrap();
    }
    let rows = c.listed();
    assert_eq!(list(&rows, None, None, 100).len(), 3);
    assert_eq!(list(&rows, Some("2026-06-01"), None, 100).len(), 2);
    assert_eq!(list(&rows, Some("2026-02-01"), Some("2026-11-01"), 100).len(), 1);
    // newest first
    let all = list(&rows, None, None, 100);
    assert_eq!(all[0].on, "2026-12-15");
}

#[test]
fn update_corrects_the_record_under_the_same_id() {
    let mut c = book();
    // Rent paid, but typed against Salary and a tenner short, on the wrong day.
    let id = c.create(&txn(vec![p(1, -89_000), p(2, 89_000)])).unwrap();
    let got = c
        .update(
            id,
            &TxnPatch {
                occurred_on: Some("2026-09-01".into()),
                description: Some("  Rent — flat  ".into()),
                payee: Some(Some("Landlord".into())),
                postings: Some(vec![p(1, -90_000), p(3, 90_000)]),
                ..Default::default()
            },
        )
        .unwrap();
    assert_eq!(got.id, id);
    assert_eq!(got.occurred_on, "2026-09-01");
    assert_eq!(got.description, "Rent — flat", "stored trimmed");
    assert_eq!(got.payee.as_deref(), Some("Landlord"));
    assert_eq!(c.listed()[0].source, "manual", "provenance is not the edit's to change");
    assert_eq!(got.legs.len(), 2);
    assert_eq!(c.balance_of("Current"), -90_000);
    assert_eq!(c.balance_of("Rent"), 90_000);
    assert_eq!(c.balance_of("Salary"), 0, "the leg moved off the wrong account");
    assert!(c.sound());

    // Clearing a payee is saying so explicitly; not mentioning it leaves it.
    let got = c.update(id, &TxnPatch::default()).unwrap();
    assert_eq!(got.payee.as_deref(), Some("Landlord"));
    let got = c.update(id, &TxnPatch { payee: Some(None), ..Default::default() }).unwrap();
    assert_eq!(got.payee, None);
    let got =
        c.update(id, &TxnPatch { note: Some(Some("  ".into())), ..Default::default() }).unwrap();
    assert_eq!(got.note, None, "a blank note is no note");
}

#[test]
fn update_leaves_legs_alone_when_they_are_restated_unchanged() {
    let mut c = book();
    let id = c.create(&txn(vec![p(1, -90_000), p(3, 90_000)])).unwrap();
    // A later payment holds the highest posting ids, so rewritten legs of the first cannot
    // get their old ids back by rowid reuse and the difference is observable.
    c.create(&txn(vec![p(1, -100), p(2, 100)])).unwrap();
    let before = c.ids_of(id);
    c.update(
        id,
        &TxnPatch {
            description: Some("still rent".into()),
            postings: Some(vec![p(1, -90_000), p(3, 90_000)]),
            ..Default::default()
        },
    )
    .unwrap();
    assert_eq!(c.ids_of(id), before, "identical legs keep their rows");
    c.update(
        id,
        &TxnPatch { postings: Some(vec![p(1, -95_000), p(3, 95_000)]), ..Default::default() },
    )
    .unwrap();
    assert_ne!(c.ids_of(id), before, "different legs are new rows");
    assert_eq!(c.ids_of(id).len(), 2);
}

#[test]
fn update_refuses_what_create_refuses_and_writes_nothing() {
    let mut c = book();
    let id = c.create(&txn(vec![p(1, -90_000), p(3, 90_000)])).unwrap();
    let before = c.get(id).unwrap();
    let legs = |v: Vec<NewPosting>| TxnPatch { postings: Some(v), ..Default::default() };

    assert!(matches!(
        c.update(id, &legs(vec![p(1, -90_000), p(3, 89_000)])),
        Err(EntryError::Unbalanced(_))
    ));
    assert!(matches!(
        c.update(id, &legs(vec![p(1, -90_000), p(9, 90_000)])),
        Err(EntryError::SystemAccount(_))
    ));
    assert!(matches!(
        c.update(id, &legs(vec![p(1, -90_000), p(404, 90_000)])),
        Err(EntryError::NoSuchAccount(404))
    ));
    assert!(matches!(c.update(id, &legs(vec![p(1, 0)])), Err(EntryError::TooFewPostings)));
    // Cross-currency legs are unbalanced per currency, exactly as they would be on create.
    assert!(matches!(
        c.update(id, &legs(vec![p(1, -90_000), p(4, 90_000)])),
        Err(EntryError::Unbalanced(_))
    ));
    assert!(matches!(
        c.update(id, &TxnPatch { occurred_on: Some("2026-02-30".into()), ..Default::default() }),
        Err(EntryError::Invalid(_))
    ));
    assert!(matches!(
        c.update(id, &TxnPatch { description: Some("  ".into()), ..Default::default() }),
        Err(EntryError::Invalid(_))
    ));
    assert!(matches!(
        c.update(
            id,
            &TxnPatch {
                postings: Some(vec![p(1, -1), p(3, 1)]),
                conversion: Some(NewConversion {
                    from_account: 1,
                    from_minor: 1,
                    to_account: 4,
                    to_minor: 1
                }),
                ..Default::default()
            }
        ),
        Err(EntryError::Invalid(_))
    ));
    assert!(matches!(c.update(404, &TxnPatch::default()), Err(EntryError::NotFound(404))));

    // A refusal after a field had already been given must keep nothing of the edit: the date here
    // is fine, the legs are not.
    assert!(c
        .update(
            id,
            &TxnPatch {
                occurred_on: Some("2026-09-01".into()),
                postings: Some(vec![p(1, -90_000), p(3, 89_000)]),
                ..Default::default()
            }
        )
        .is_err());
    assert_eq!(c.get(id).unwrap(), before, "nothing of a refused edit is kept");
}

#[test]
fn update_can_make_a_conversion_and_unmake_it() {
    let mut c = book();
    let id = c.create(&txn(vec![p(1, -10_000), p(3, 10_000)])).unwrap();
    // Actually it was money sent to the euro pot: a conversion, which needs its own legs.
    let got = c
        .update(
            id,
            &TxnPatch {
                conversion: Some(NewConversion {
                    from_account: 1,
                    from_minor: 10_000,
                    to_account: 4,
                    to_minor: 11_500,
                }),
                ..Default::default()
            },
        )
        .unwrap();
    assert_eq!(got.legs.len(), 4, "two real legs, two conversion legs");
    assert_eq!(c.balance_of("Current"), -10_000);
    assert_eq!(c.balance_of("Euro pot"), 11_500);
    assert_eq!(c.balance_of("Rent"), 0);
    assert!(c.sound());

    // Both sides in one currency is not a conversion, and says so rather than writing legs.
    assert!(matches!(
        c.update(
            id,
            &TxnPatch {
                conversion: Some(NewConversion {
                    from_account: 1,
                    from_minor: 1,
                    to_account: 3,
                    to_minor: 1
                }),
                ..Default::default()
            }
        ),
        Err(EntryError::Invalid(_))
    ));
    assert!(matches!(
        c.update(
            id,
            &TxnPatch {
                conversion: Some(NewConversion {
                    from_account: 1,
                    from_minor: -1,
                    to_account: 4,
                    to_minor: 1
                }),
                ..Default::default()
            }
        ),
        Err(EntryError::Invalid(_))
    ));

    // And back to a plain payment: the conversion legs go with the rest.
    let got = c
        .update(
            id,
            &TxnPatch { postings: Some(vec![p(1, -10_000), p(3, 10_000)]), ..Default::default() },
        )
        .unwrap();
    assert_eq!(got.legs.len(), 2);
    assert_eq!(c.balance_of("Euro pot"), 0);
    assert!(c.sound());
}

#[test]
fn the_book_stays_consistent_after_entry() {
    let mut c = book();
    c.create(&txn(vec![p(1, 250_000), p(2, -250_000)])).unwrap();
    c.create(&txn(vec![p(1, -90_000), p(3, 90_000)])).unwrap();
    assert!(c.sound());
}

#[test]
fn each_refused_payment_says_why() {
    let c = book();
    let say = |v: Vec<NewPosting>| create(&c.accounts, &txn(v)).unwrap_err().to_text();
    assert!(say(vec![p(1, 0)]).contains("two"));
    assert_eq!(say(vec![p(1, 1), p(404, -1)]), "no such account: 404");
    assert!(say(vec![p(1, 1), p(9, -1)]).starts_with("Conversion:GBP"));
    assert!(say(vec![p(1, 5), p(2, -4)]).contains("GBP 1"));
    assert_eq!(EntryError::NotFound(7).to_text(), "no such transaction: 7");
}

#[test]
fn what_is_left_over_is_given_by_currency() {
    let legs = vec![
        Leg { account_id: 1, currency: "GBP".into(), amount_minor: 5 },
        Leg { account_id: 2, currency: "EUR".into(), amount_minor: 3 },
        Leg { account_id: 3, currency: "EUR".into(), amount_minor: -3 },
    ];
    let left = residual(&legs);
    assert_eq!(left.len(), 1);
    assert_eq!(amount_in(&left, "GBP"), Some(5));
}

fn hop(to: i64, on: &str, amount: i64) -> NewHop {
    NewHop { to_account: to, occurred_on: on.into(), amount_minor: amount }
}

fn chain(from: i64, hops: Vec<NewHop>) -> Result<usize, EntryError> {
    let mut c = book();
    c.accounts.push(account(5, "PayPal", "asset", "GBP", false));
    let canonical: Vec<Option<String>> =
        hops.iter().map(|h| canonical_day(&h.occurred_on)).collect();
    let new = NewChain { description: "on its way".into(), from_account: from, hops };
    create_chain(&c.accounts, &new, &canonical).map(|s| s.len())
}

#[test]
fn a_chain_is_recorded_whole_or_not_at_all() {
    let good = vec![hop(5, "2026-08-01", 100), hop(3, "2026-08-02", 97)];
    assert_eq!(chain(1, good).unwrap(), 2);
    let say = |hops: Vec<NewHop>| chain(1, hops).unwrap_err().to_text();
    assert!(say(vec![hop(3, "2026-08-01", 1)]).contains("at least one stop"));
    assert!(say(vec![hop(5, "2026-08-01", 0), hop(3, "2026-08-02", 1)]).contains("and 0 is not one"));
    assert!(say(vec![hop(1, "2026-08-01", 1), hop(3, "2026-08-02", 1)]).contains("to itself"));
    assert!(say(vec![hop(5, "2026-02-30", 1), hop(3, "2026-08-02", 1)])
        .contains("hop 1 is on no such day: 2026-02-30"));
    assert!(say(vec![hop(5, "2026-08-03", 1), hop(3, "2026-08-02", 1)]).contains("forward in time"));
    assert!(say(vec![hop(4, "2026-08-01", 1), hop(3, "2026-08-02", 1)]).contains("one currency"));
    assert!(say(vec![hop(2, "2026-08-01", 1), hop(3, "2026-08-02", 1)]).contains("pass through"));
    assert!(matches!(
        chain(1, vec![hop(404, "2026-08-01", 1), hop(3, "2026-08-02", 1)]),
        Err(EntryError::NoSuchAccount(404))
    ));
}

#[test]
fn days_are_written_the_one_way_the_calendar_does() {
    assert_eq!(canonical_day("2026-08-01").as_deref(), Some("2026-08-01"));
    assert_eq!(canonical_day("2026-8-1").as_deref(), Some("2026-08-01"));
    assert_eq!(canonical_day("2026-02-30"), None);
    assert_eq!(canonical_day("today"), None);
}

#[test]
fn a_search_ignores_case_and_a_suggestion_escapes_wildcards() {
    assert_eq!(search_pattern("  TESCO "), "%tesco%");
    assert_eq!(description_pattern(Some("50% off")).as_deref(), Some("%50\\% off%"));
    assert_eq!(description_pattern(Some("a_b\\c")).as_deref(), Some("%a\\_b\\\\c%"));
    assert_eq!(description_pattern(Some("   ")), None);
    assert_eq!(description_pattern(None), None);
    assert_eq!(blank_to_none(&Some("  x ".into())).as_deref(), Some("x"));
    assert_eq!(blank_to_none(&Some("  ".into())), None);
}

#[test]
fn history_opens_with_what_came_before_the_window() {
    let rows = vec![
        Movement { account_id: 1, on: "2026-01-01".into(), moved_minor: 100 },
        Movement { account_id: 1, on: "2026-02-01".into(), moved_minor: -30 },
        Movement { account_id: 2, on: "2026-02-01".into(), moved_minor: 7 },
    ];
    let (opening, points) = history(&rows, Some("2026-01-15"), 1);
    assert_eq!(opening, 100);
    assert_eq!(points.len(), 1);
    assert_eq!(points[0].on, "2026-02-01");
    assert_eq!(points[0].balance_minor, 70);
}

#[test]
fn payments_are_summarised_oldest_first_with_their_links_and_postings() {
    let txn = |id: i64, on: &str| Listed {
        id,
        occurred_on: on.into(),
        description: "x".into(),
        payee: None,
        source: "manual".into(),
    };
    let posting = |txn_id: i64, amount_minor: i64| PostingRow {
        txn_id,
        account_id: 1,
        account: "Current".into(),
        kind: "asset".into(),
        currency: "GBP".into(),
        amount_minor,
    };
    let txns = vec![txn(1, "2026-08-02"), txn(2, "2026-08-01"), txn(3, "2026-08-01")];
    let links = vec![Link { from: 1, to: 2, note: None }, Link { from: 3, to: 1, note: None }];
    let postings = vec![posting(1, 5), posting(1, -5), posting(2, 1)];
    let rows = summarise(&txns, &links, &postings, &vec![1, 2]);
    assert_eq!(rows.len(), 2);
    assert_eq!((rows[0].at, rows[0].links), (1, 1));
    assert_eq!((rows[1].at, rows[1].links), (0, 2));
    let amounts: Vec<i64> = rows[1].postings.iter().map(|p| p.amount_minor).collect();
    assert_eq!(amounts, vec![-5, 5]);
}

#[test]
fn descriptions_come_commonest_first() {
    let txn = |d: &str, on: &str| Listed {
        id: 1,
        occurred_on: on.into(),
        description: d.into(),
        payee: None,
        source: "manual".into(),
    };
    let txns = vec![
        txn("Rent", "2026-01-01"),
        txn("RENT", "2026-09-01"),
        txn("Rent", "2026-02-01"),
        txn("Gym", "2026-09-01"),
    ];
    let all = descriptions(&txns, 50);
    let names: Vec<&str> = all.iter().map(|d| d.description.as_str()).collect();
    assert_eq!(names, vec!["Rent", "Gym", "RENT"]);
    assert_eq!(all[0].count, 2);
    assert_eq!(all[0].last_on, "2026-02-01");
    assert_eq!(descriptions(&txns, 1).len(), 1);
}

#[test]
fn a_search_folds_plain_letters_only() {
    assert_eq!(search_pattern("CAFÉ NERO"), "%cafÉ nero%");
    assert_eq!(search_pattern("Café Nero"), "%café nero%");
}
