use minka_ledger::book::Account;
use minka_ledger::entry::{create as enter, NewPosting, NewTxn};
use minka_ledger::journey::{
    attach, close, detach, for_txn, get, list, Journey, JourneyError, Member, Story, TxnRow,
};
use minka_ledger::residual::PostingRow;

/// A book in memory: what a store would hold.
struct Book {
    accounts: Vec<Account>,
    journeys: Vec<i64>,
    members: Vec<Member>,
    txns: Vec<TxnRow>,
    postings: Vec<PostingRow>,
}

fn account(id: i64, name: &str, kind: &str) -> Account {
    Account {
        id,
        name: name.to_string(),
        kind: kind.to_string(),
        currency: "GBP".to_string(),
        system: false,
        closed: false,
    }
}

fn book() -> Book {
    Book {
        accounts: vec![
            account(1, "Current", "asset"),
            account(2, "PayPal", "asset"),
            account(3, "Merchant", "expense"),
            account(4, "Fees", "expense"),
        ],
        journeys: vec![],
        members: vec![],
        txns: vec![],
        postings: vec![],
    }
}

impl Book {
    fn open(&mut self) -> i64 {
        let id = self.journeys.len() as i64 + 1;
        self.journeys.push(id);
        id
    }

    fn pay(&mut self, on: &str, desc: &str, legs: &[(i64, i64)]) -> i64 {
        let new = NewTxn {
            occurred_on: on.to_string(),
            description: desc.to_string(),
            payee: None,
            note: None,
            postings: legs
                .iter()
                .map(|(a, m)| NewPosting { account_id: *a, amount_minor: *m })
                .collect(),
        };
        let written = enter(&self.accounts, &new).unwrap();
        let id = self.txns.len() as i64 + 1;
        self.txns.push(TxnRow {
            id,
            occurred_on: on.to_string(),
            description: desc.to_string(),
        });
        for l in written {
            let a = self.accounts.iter().find(|a| a.id == l.account_id).unwrap();
            self.postings.push(PostingRow {
                txn_id: id,
                account_id: l.account_id,
                account: a.name.clone(),
                kind: a.kind.clone(),
                currency: l.currency.clone(),
                amount_minor: l.amount_minor,
            });
        }
        id
    }

    fn attach(&mut self, j: i64, t: i64, seq: i64, role: &str) -> Result<(), JourneyError> {
        let txns: Vec<i64> = self.txns.iter().map(|t| t.id).collect();
        attach(&self.journeys, &txns, &mut self.members, j, t, seq, role)
    }

    fn get(&self, j: i64) -> Result<Story, JourneyError> {
        get(&self.journeys, &self.members, &self.txns, &self.postings, j)
    }

    fn delete(&mut self, t: i64) {
        self.txns.retain(|x| x.id != t);
        self.postings.retain(|x| x.txn_id != t);
        self.members.retain(|x| x.txn_id != t);
    }
}

#[test]
fn a_completed_three_hop_journey_has_no_residual() {
    let mut c = book();
    let j = c.open();
    // £100 Current -> PayPal, then PayPal -> merchant.
    let a = c.pay("2026-08-01", "top up PayPal", &[(1, -10_000), (2, 10_000)]);
    let b = c.pay("2026-08-03", "tickets", &[(2, -10_000), (3, 10_000)]);
    c.attach(j, a, 1, "source").unwrap();
    c.attach(j, b, 2, "arrival").unwrap();

    let got = c.get(j).unwrap();
    assert_eq!(got.legs.len(), 2);
    // PayPal nets to zero -- the money passed through and arrived.
    let paypal = got.residual.iter().find(|r| r.account == "PayPal");
    assert!(paypal.is_none(), "PayPal should net to zero: {:?}", got.residual);
}

#[test]
fn money_still_in_flight_shows_as_residual() {
    let mut c = book();
    let j = c.open();
    // left the current account, sitting in PayPal, not yet spent
    let a = c.pay("2026-08-01", "top up PayPal", &[(1, -10_000), (2, 10_000)]);
    c.attach(j, a, 1, "source").unwrap();

    let got = c.get(j).unwrap();
    let paypal = got.residual.iter().find(|r| r.account == "PayPal").expect("in flight");
    assert_eq!(paypal.amount_minor, 10_000, "£100 is sitting in PayPal");
}

#[test]
fn a_fee_leg_is_part_of_the_story() {
    let mut c = book();
    let j = c.open();
    // £100 leaves, £3 fee, £97 arrives -- three accounts, one journey.
    let a = c.pay("2026-08-01", "send", &[(1, -10_000), (2, 9_700), (4, 300)]);
    let b = c.pay("2026-08-02", "spend", &[(2, -9_700), (3, 9_700)]);
    c.attach(j, a, 1, "source").unwrap();
    c.attach(j, b, 2, "arrival").unwrap();
    let got = c.get(j).unwrap();
    // the holding account is clear; the fee is a real expense and stays visible
    assert!(got.residual.iter().all(|r| r.account != "PayPal"));
    let fee = got.residual.iter().find(|r| r.account == "Fees").unwrap();
    assert_eq!(fee.amount_minor, 300);
}

#[test]
fn legs_come_back_in_sequence_order() {
    let mut c = book();
    let j = c.open();
    let a = c.pay("2026-08-05", "second", &[(2, -100), (3, 100)]);
    let b = c.pay("2026-08-01", "first", &[(1, -100), (2, 100)]);
    c.attach(j, a, 2, "arrival").unwrap();
    c.attach(j, b, 1, "source").unwrap();
    let got = c.get(j).unwrap();
    assert_eq!(got.legs[0].description, "first");
    assert_eq!(got.legs[1].description, "second");
}

#[test]
fn a_txn_can_belong_to_several_journeys() {
    let mut c = book();
    let j1 = c.open();
    let j2 = c.open();
    let t = c.pay("2026-08-01", "shared", &[(1, -100), (2, 100)]);
    c.attach(j1, t, 1, "leg").unwrap();
    c.attach(j2, t, 1, "leg").unwrap();
    assert_eq!(for_txn(&c.members, t).len(), 2);
}

#[test]
fn attaching_twice_updates_rather_than_duplicating() {
    let mut c = book();
    let j = c.open();
    let t = c.pay("2026-08-01", "x", &[(1, -100), (2, 100)]);
    c.attach(j, t, 1, "leg").unwrap();
    c.attach(j, t, 5, "arrival").unwrap();
    let got = c.get(j).unwrap();
    assert_eq!(got.legs.len(), 1);
    assert_eq!(got.legs[0].seq, 5);
    assert_eq!(got.legs[0].role, "arrival");
}

#[test]
fn detach_and_missing_ids_behave() {
    let mut c = book();
    let j = c.open();
    let t = c.pay("2026-08-01", "x", &[(1, -100), (2, 100)]);
    c.attach(j, t, 1, "leg").unwrap();
    assert!(detach(&mut c.members, j, t));
    assert!(!detach(&mut c.members, j, t));
    assert!(matches!(c.attach(404, t, 1, "leg"), Err(JourneyError::NotFound(404))));
    assert!(matches!(c.attach(j, 404, 1, "leg"), Err(JourneyError::NoSuchTxn(404))));
    assert!(matches!(c.get(404), Err(JourneyError::NotFound(404))));
}

#[test]
fn deleting_a_txn_removes_it_from_its_journeys() {
    let mut c = book();
    let j = c.open();
    let t = c.pay("2026-08-01", "x", &[(1, -100), (2, 100)]);
    c.attach(j, t, 1, "leg").unwrap();
    c.delete(t);
    // no dangling membership
    assert_eq!(c.get(j).unwrap().legs.len(), 0);
}

#[test]
fn a_journey_that_is_not_there_cannot_be_closed() {
    let mut c = book();
    let j = c.open();
    assert!(close(&c.journeys, j).is_ok());
    let e = close(&c.journeys, 7).unwrap_err();
    assert_eq!(e, JourneyError::NotFound(7));
    assert_eq!(e.to_text(), "no such journey: 7");
    assert_eq!(JourneyError::NoSuchTxn(3).to_text(), "no such transaction: 3");
}

#[test]
fn journeys_are_listed_last_opened_first_with_their_legs_counted() {
    let journeys = vec![
        Journey { id: 1, label: "a".into(), opened_on: "2026-08-01".into(), closed_on: None },
        Journey { id: 2, label: "b".into(), opened_on: "2026-09-01".into(), closed_on: None },
        Journey { id: 3, label: "c".into(), opened_on: "2026-08-01".into(), closed_on: None },
    ];
    let members = vec![Member { journey_id: 1, txn_id: 9, seq: 0, role: "leg".into() }];
    let (rows, counts) = list(journeys, &members);
    let ids: Vec<i64> = rows.iter().map(|j| j.id).collect();
    assert_eq!(ids, vec![2, 3, 1]);
    assert_eq!(counts, vec![0, 0, 1]);
}

#[test]
fn an_account_left_with_more_than_an_amount_is_said_to_be() {
    let mut c = book();
    let j = c.open();
    let a = c.pay("2026-08-01", "x", &[(1, -i64::MAX), (2, i64::MAX)]);
    let b = c.pay("2026-08-02", "y", &[(1, -i64::MAX), (2, i64::MAX)]);
    c.attach(j, a, 1, "leg").unwrap();
    c.attach(j, b, 2, "leg").unwrap();
    assert!(matches!(c.get(j), Err(JourneyError::OutOfRange(_))));
}

#[test]
fn the_journeys_of_a_transaction_come_in_order() {
    let mut c = book();
    let j1 = c.open();
    let j2 = c.open();
    let j3 = c.open();
    let t = c.pay("2026-08-01", "shared", &[(1, -100), (2, 100)]);
    c.attach(j3, t, 1, "leg").unwrap();
    c.attach(j1, t, 4, "source").unwrap();
    c.attach(j2, t, 2, "arrival").unwrap();
    let own: Vec<i64> = for_txn(&c.members, t).iter().map(|m| m.journey_id).collect();
    assert_eq!(own, vec![j1, j2, j3]);
}
