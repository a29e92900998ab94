use minka_ledger::book::{Account, Leg};
use minka_ledger::graph::{graph, shared_kind, Payment};
use minka_ledger::link::{chain, create, for_txn, remove, Link, LinkError};
use minka_ledger::residual::{residuals, By, PostingRow};

fn link(from: i64, to: i64) -> Link {
    Link { from, to, note: None }
}

fn posting(txn_id: i64, account_id: i64, account: &str, amount_minor: i64) -> PostingRow {
    PostingRow {
        txn_id,
        account_id,
        account: account.into(),
        kind: "asset".into(),
        currency: "GBP".into(),
        amount_minor,
    }
}

/// Bank to exchange, exchange to wallet, and a payment that has nothing to do with it.
fn postings() -> Vec<PostingRow> {
    vec![
        posting(1, 1, "Bank", -1_000),
        posting(1, 2, "Exchange", 1_000),
        posting(2, 2, "Exchange", -1_000),
        posting(2, 3, "Wallet", 990),
        posting(2, 4, "Fees", 10),
        posting(3, 1, "Bank", -5),
        posting(3, 4, "Fees", 5),
    ]
}

#[test]
fn a_link_needs_two_payments_that_are_there() {
    let txns = vec![1, 2, 3];
    let links = vec![link(1, 2)];
    assert!(create(&txns, &links, 2, 3).is_ok());
    let e = create(&txns, &links, 1, 1).unwrap_err();
    assert_eq!(e.to_text(), "a payment cannot link to itself");
    let e = create(&txns, &links, 1, 9).unwrap_err();
    assert_eq!(e.to_text(), "no such transaction: 9");
    let e = create(&txns, &links, 1, 2).unwrap_err();
    assert_eq!(e.to_text(), "1 is already linked to 2");
    assert_eq!(LinkError::Unexpected("odd".into()).to_text(), "odd");
}

#[test]
fn removing_a_link_removes_it_whichever_way_it_was_drawn() {
    let mut links = vec![link(1, 2), link(3, 2)];
    assert!(remove(&mut links, 2, 1));
    assert_eq!(links.len(), 1);
    assert_eq!(links[0].from, 3);
    assert!(!remove(&mut links, 2, 1));
}

#[test]
fn neighbours_are_told_apart_by_direction() {
    let links = vec![link(1, 2), link(2, 3)];
    let n = for_txn(&links, 2);
    assert_eq!(n.len(), 2);
    assert_eq!((n[0].txn_id, n[0].out), (3, true));
    assert_eq!((n[1].txn_id, n[1].out), (1, false));
}

#[test]
fn starting_anywhere_in_a_chain_finds_the_same_payments() {
    let txns = vec![1, 2, 3, 4];
    let links = vec![link(1, 2), link(3, 2)];
    for start in [1, 2, 3] {
        let c = chain(&txns, &links, &postings(), start, 50).unwrap();
        let mut ids: Vec<i64> = c.visits.iter().map(|v| v.txn_id).collect();
        ids.sort();
        assert_eq!(ids, vec![1, 2, 3]);
        assert_eq!(c.edges.len(), 2);
        assert!(!c.truncated);
    }
    let alone = chain(&txns, &links, &postings(), 4, 50).unwrap();
    assert_eq!(alone.visits.len(), 1);
    assert_eq!(alone.visits[0].depth, 0);
}

#[test]
fn a_chain_says_where_the_money_ended_up() {
    let c = chain(&vec![1, 2, 3], &vec![link(1, 2)], &postings(), 1, 50).unwrap();
    let left: Vec<(&str, i64)> =
        c.residual.iter().map(|r| (r.account.as_str(), r.amount_minor)).collect();
    assert_eq!(left, vec![("Bank", -1_000), ("Fees", 10), ("Wallet", 990)]);
}

#[test]
fn a_chain_cut_short_says_so() {
    let links = vec![link(1, 2), link(2, 3), link(3, 4)];
    let c = chain(&vec![1, 2, 3, 4], &links, &vec![], 1, 2).unwrap();
    assert!(c.truncated);
    let e = chain(&vec![1], &links, &vec![], 8, 2).unwrap_err();
    assert_eq!(e.to_text(), "no such transaction: 8");
}

#[test]
fn what_passes_through_drops_out() {
    let r = residuals(&postings(), &vec![1, 2], By::Name).unwrap();
    let names: Vec<&str> = r.iter().map(|r| r.account.as_str()).collect();
    assert_eq!(names, vec!["Bank", "Fees", "Wallet"], "the exchange only passed it on");
}

#[test]
fn a_net_that_cannot_be_held_is_refused() {
    let rows = vec![posting(1, 1, "Bank", i64::MAX), posting(2, 1, "Bank", i64::MAX)];
    assert!(residuals(&rows, &vec![1, 2], By::Name).is_none());
    let e = chain(&vec![1, 2], &vec![link(1, 2)], &rows, 1, 50).unwrap_err();
    assert_eq!(e.to_text(), "integer overflow");
}

fn account(id: i64, name: &str, kind: &str) -> Account {
    Account {
        id,
        name: name.into(),
        kind: kind.into(),
        currency: "GBP".into(),
        system: false,
        closed: false,
    }
}

fn payment(id: i64, from: i64, to: i64, amount: i64) -> Payment {
    let leg = |account_id, amount_minor| Leg { account_id, currency: "GBP".into(), amount_minor };
    Payment {
        id,
        occurred_on: "2026-08-01".into(),
        description: "Payment".into(),
        links: 0,
        legs: vec![leg(from, -amount), leg(to, amount)],
    }
}

fn accounts() -> Vec<Account> {
    vec![
        account(1, "Bank", "asset"),
        account(2, "Exchange", "asset"),
        account(3, "Wallet", "asset"),
        account(4, "Groceries", "expense"),
    ]
}

#[test]
fn unlinked_payments_keep_their_own_visits() {
    let g = graph(&accounts(), &vec![payment(1, 1, 2, 10), payment(2, 2, 3, 10)], &vec![]);
    assert_eq!(g.nodes.len(), 4, "the two visits to the exchange are not one");
    assert_eq!(g.edges.len(), 2);
    assert_eq!(g.edges[0].amount_minor, 10);
}

#[test]
fn a_link_makes_two_visits_one() {
    let payments = vec![payment(1, 1, 2, 10), payment(2, 2, 3, 10)];
    let g = graph(&accounts(), &payments, &vec![link(1, 2)]);
    assert_eq!(g.nodes.len(), 3);
    let exchange = g.nodes.iter().find(|n| n.account == "Exchange").unwrap();
    assert_eq!(exchange.txn_ids, vec![1, 2]);
    assert_eq!((exchange.arrows_in, exchange.arrows_out), (1, 1));
    assert_eq!(g.links.len(), 1);
}

#[test]
fn every_shop_merges_into_the_one_expense() {
    let g = graph(&accounts(), &vec![payment(1, 1, 4, 10), payment(2, 1, 4, 20)], &vec![]);
    let shops: Vec<_> = g.nodes.iter().filter(|n| n.account == "Groceries").collect();
    assert_eq!(shops.len(), 1);
    assert!(shops[0].shared);
    assert_eq!(shops[0].arrows_in, 2);
    assert!(shared_kind("income") && shared_kind("equity") && !shared_kind("asset"));
}
