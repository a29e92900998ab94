//! Every payment in a window as a graph of account visits: each payment is an edge from the account
//! its money left to the account it arrived at, and a node is one visit to an account.
//!
//! Drawn account to account, every payment from the current account to groceries would collapse onto
//! one arrow and the picture would be the chart of accounts. Drawn payment to payment, a chain is a
//! line of boxes and the account the money passed through is a label rather than a place. Visits
//! give both: an unlinked payment is two nodes and an arrow, and a chain is the arrows joined end to
//! end, because a link between two payments that touch the same account says the arrival and the
//! departure were one visit.

use crate::book::{account_of, copy_leg, find, known, leg_views, Account, Leg, LegView};
use crate::link::{Link, LinkView};
use crate::lists::{first, lemma_first};
use crate::money::Minor;
use crate::paths::{put, with_id};
use crate::text::{opt_view, str_eq};
use vstd::prelude::*;

verus! {

broadcast use vstd::string::group_string_axioms;

/// A payment to be drawn.
#[derive(Debug, Clone)]
pub struct Payment {
    pub id: i64,
    pub occurred_on: String,
    pub description: String,
    /// How many links it has.
    pub links: i64,
    pub legs: Vec<Leg>,
}

/// A visit to an account, before links make any of them one.
///
/// Income, expense and equity accounts are shared: every salary diverges from the one salary node and
/// every shop merges into the one groceries node, because those are where a chain begins and ends
/// and there is nothing to tell one visit apart from the next. Everything else -- the places money
/// sits on the way -- is a node per payment until a link says two payments were the same visit.
#[derive(Debug, Clone, Copy, PartialEq, Eq, Structural)]
pub struct NodeKey {
    /// The payment whose visit it is; `None` where all visits are one.
    pub txn: Option<i64>,
    pub account: i64,
}

/// Whether all visits to accounts of a kind are one.
pub open spec fn is_shared(kind: Seq<char>) -> bool {
    kind == "income"@ || kind == "expense"@ || kind == "equity"@
}

/// Whether all visits to accounts of a kind are one.
pub fn shared_kind(kind: &str) -> (r: bool)
    ensures
        r == is_shared(kind@),
{
    str_eq(kind, "income") || str_eq(kind, "expense") || str_eq(kind, "equity")
}

/// The kind of an account, nothing where it is not in the book.
pub open spec fn kind_in(accounts: Seq<Account>, id: i64) -> Seq<char> {
    if known(accounts, id) {
        account_of(accounts, id).kind@
    } else {
        Seq::empty()
    }
}

/// The visit of a payment to an account.
pub open spec fn key_of(accounts: Seq<Account>, txn: i64, account: i64) -> NodeKey {
    NodeKey {
        txn: if is_shared(kind_in(accounts, account)) {
            None
        } else {
            Some(txn)
        },
        account,
    }
}

/// A leg put in its place among legs in order of their amounts.
pub open spec fn put_leg(s: Seq<LegView>, l: LegView) -> Seq<LegView>
    decreases s.len(),
{
    if s.len() > 0 && l.amount_minor < s.last().amount_minor {
        put_leg(s.drop_last(), l).push(s.last())
    } else {
        s.push(l)
    }
}

/// A payment's real legs, what leaves first. The legs in conversion accounts only make each currency
/// balance, so that a conversion is one arrow whose two ends are in different currencies.
pub open spec fn real_legs(accounts: Seq<Account>, legs: Seq<LegView>) -> Seq<LegView>
    decreases legs.len(),
{
    if legs.len() == 0 {
        Seq::empty()
    } else {
        let rest = real_legs(accounts, legs.drop_last());
        if kind_in(accounts, legs.last().account_id) == "conversion"@ {
            rest
        } else {
            put_leg(rest, legs.last())
        }
    }
}

fn kind_of(accounts: &Vec<Account>, id: i64) -> (r: String)
    ensures
        r@ == kind_in(accounts@, id),
{
    match find(accounts, id) {
        Some(i) => accounts[i].kind.clone(),
        None => String::new(),
    }
}

fn visit(accounts: &Vec<Account>, txn: i64, account: i64) -> (r: NodeKey)
    ensures
        r == key_of(accounts@, txn, account),
{
    let kind = kind_of(accounts, account);
    NodeKey {
        txn: if shared_kind(kind.as_str()) {
            None
        } else {
            Some(txn)
        },
        account,
    }
}

proof fn lemma_put_leg_at(s: Seq<LegView>, l: LegView, k: int)
    requires
        0 <= k <= s.len(),
        forall|j: int| k <= j < s.len() ==> l.amount_minor < (#[trigger] s[j]).amount_minor,
        k > 0 ==> s[k - 1].amount_minor <= l.amount_minor,
    ensures
        put_leg(s, l) == s.insert(k, l),
    decreases s.len(),
{
    if k < s.len() {
        let rest = s.drop_last();
        assert(l.amount_minor < s[s.len() - 1].amount_minor);
        lemma_put_leg_at(rest, l, k);
        assert(rest.insert(k, l).push(s.last()) =~= s.insert(k, l));
    } else {
        assert(s.insert(k, l) =~= s.push(l));
    }
}

fn arrange(accounts: &Vec<Account>, legs: &Vec<Leg>) -> (r: Vec<Leg>)
    ensures
        leg_views(r@) == real_legs(accounts@, leg_views(legs@)),
{
    let ghost all = leg_views(legs@);
    let mut out: Vec<Leg> = Vec::new();
    let mut i: usize = 0;
    assert(all.take(0) =~= Seq::<LegView>::empty());
    assert(leg_views(out@) =~= Seq::<LegView>::empty());
    while i < legs.len()
        invariant
            i <= legs@.len(),
            all == leg_views(legs@),
            leg_views(out@) == real_legs(accounts@, all.take(i as int)),
        decreases legs@.len() - i,
    {
        assert(all.take(i + 1).drop_last() =~= all.take(i as int));
        assert(all.take(i + 1).last() == legs@[i as int]@);
        let kind = kind_of(accounts, legs[i].account_id);
        if !str_eq(kind.as_str(), "conversion") {
            let amount: i64 = legs[i].amount_minor;
            let mut k: usize = out.len();
            let ghost before = out@;
            while k > 0 && amount < out[k - 1].amount_minor
                invariant
                    k <= out@.len(),
                    out@ == before,
                    forall|j: int|
                        k <= j < out@.len() ==> amount < (#[trigger] leg_views(
                            out@,
                        )[j]).amount_minor,
                decreases k,
            {
                k = k - 1;
            }
            let l = copy_leg(&legs[i]);
            proof {
                lemma_put_leg_at(leg_views(before), l@, k as int);
                assert(leg_views(before.insert(k as int, l)) =~= leg_views(before).insert(
                    k as int,
                    l@,
                ));
            }
            out.insert(k, l);
        }
        i = i + 1;
    }
    assert(all.take(all.len() as int) =~= all);
    out
}

/// The real legs of each payment.
pub open spec fn flows(accounts: Seq<Account>, payments: Seq<Payment>) -> Seq<Seq<LegView>> {
    payments.map_values(|p: Payment| real_legs(accounts, leg_views(p.legs@)))
}

/// The contents of lists of legs.
pub open spec fn leg_lists(v: Seq<Vec<Leg>>) -> Seq<Seq<LegView>> {
    v.map_values(|l: Vec<Leg>| leg_views(l@))
}

fn arrange_all(accounts: &Vec<Account>, payments: &Vec<Payment>) -> (r: Vec<Vec<Leg>>)
    ensures
        leg_lists(r@) == flows(accounts@, payments@),
{
    let mut out: Vec<Vec<Leg>> = Vec::new();
    let mut i: usize = 0;
    while i < payments.len()
        invariant
            i <= payments@.len(),
            leg_lists(out@) =~= flows(accounts@, payments@).take(i as int),
        decreases payments@.len() - i,
    {
        let legs = arrange(accounts, &payments[i].legs);
        assert(leg_lists(out@.push(legs)) =~= leg_lists(out@).push(leg_views(legs@)));
        out.push(legs);
        i = i + 1;
    }
    assert(flows(accounts@, payments@).take(payments@.len() as int) =~= flows(
        accounts@,
        payments@,
    ));
    out
}

/// Whether legs touch an account.
pub open spec fn touches(legs: Seq<LegView>, account: i64) -> bool {
    exists|i: int| 0 <= i < legs.len() && (#[trigger] legs[i]).account_id == account
}

/// Whether two payments touch an account in common.
pub open spec fn meets(la: Seq<LegView>, lb: Seq<LegView>) -> bool {
    exists|i: int| 0 <= i < la.len() && touches(lb, (#[trigger] la[i]).account_id)
}

/// The visits that a link between two payments makes one: those to each account that both touch and
/// whose visits are not one already.
pub open spec fn link_merges(
    accounts: Seq<Account>,
    a: i64,
    la: Seq<LegView>,
    b: i64,
    lb: Seq<LegView>,
) -> Seq<(NodeKey, NodeKey)>
    decreases la.len(),
{
    if la.len() == 0 {
        Seq::empty()
    } else {
        let rest = link_merges(accounts, a, la.drop_last(), b, lb);
        let acc = la.last().account_id;
        if touches(lb, acc) && !is_shared(kind_in(accounts, acc)) {
            rest.push((key_of(accounts, a, acc), key_of(accounts, b, acc)))
        } else {
            rest
        }
    }
}

/// Whether the payment at a place has this id.
pub open spec fn is_payment(payments: Seq<Payment>, id: i64) -> spec_fn(int) -> bool {
    |i: int| payments[i].id == id
}

/// The place of a payment, or the number of payments.
pub open spec fn pay_place(payments: Seq<Payment>, id: i64) -> int {
    first(payments.len() as int, is_payment(payments, id))
}

/// Whether both ends of a link are among payments.
pub open spec fn both_drawn(payments: Seq<Payment>, a: i64, b: i64) -> bool {
    pay_place(payments, a) < payments.len() && pay_place(payments, b) < payments.len()
}

/// The real legs of the payment with this id.
pub open spec fn flow_of(accounts: Seq<Account>, payments: Seq<Payment>, id: i64) -> Seq<LegView> {
    flows(accounts, payments)[pay_place(payments, id)]
}

/// The visits that links make one, in order.
pub open spec fn merges(accounts: Seq<Account>, payments: Seq<Payment>, links: Seq<Link>) -> Seq<
    (NodeKey, NodeKey),
>
    decreases links.len(),
{
    if links.len() == 0 {
        Seq::empty()
    } else {
        let rest = merges(accounts, payments, links.drop_last());
        let l = links.last();
        if both_drawn(payments, l.from, l.to) {
            rest + link_merges(
                accounts,
                l.from,
                flow_of(accounts, payments, l.from),
                l.to,
                flow_of(accounts, payments, l.to),
            )
        } else {
            rest
        }
    }
}

/// The visit that stands for one, once some have been made one.
pub open spec fn stands_for(ms: Seq<(NodeKey, NodeKey)>, k: NodeKey) -> NodeKey
    decreases ms.len(),
{
    if ms.len() == 0 {
        k
    } else {
        let rest = ms.drop_last();
        let r = stands_for(rest, k);
        if r == stands_for(rest, ms.last().0) {
            stands_for(rest, ms.last().1)
        } else {
            r
        }
    }
}

/// What stood for each of the visits made one, at the time.
spec fn renames(ms: Seq<(NodeKey, NodeKey)>) -> Seq<(NodeKey, NodeKey)> {
    Seq::new(
        ms.len(),
        |i: int| (stands_for(ms.take(i), ms[i].0), stands_for(ms.take(i), ms[i].1)),
    )
}

fn stand_in(names: &Vec<(NodeKey, NodeKey)>, ms: Ghost<Seq<(NodeKey, NodeKey)>>, k: NodeKey) -> (r:
    NodeKey)
    requires
        names@ == renames(ms@),
    ensures
        r == stands_for(ms@, k),
{
    let mut cur = k;
    let mut i: usize = 0;
    assert(ms@.take(0) =~= Seq::<(NodeKey, NodeKey)>::empty());
    while i < names.len()
        invariant
            i <= names@.len(),
            names@ == renames(ms@),
            cur == stands_for(ms@.take(i as int), k),
        decreases names@.len() - i,
    {
        assert(ms@.take(i + 1).drop_last() =~= ms@.take(i as int));
        assert(ms@.take(i + 1).last() == ms@[i as int]);
        if cur == names[i].0 {
            cur = names[i].1;
        }
        i = i + 1;
    }
    assert(ms@.take(ms@.len() as int) =~= ms@);
    cur
}

fn touch(legs: &Vec<Leg>, account: i64) -> (r: bool)
    ensures
        r == touches(leg_views(legs@), account),
{
    let mut i: usize = 0;
    while i < legs.len()
        invariant
            i <= legs@.len(),
            forall|j: int|
                0 <= j < i ==> (#[trigger] leg_views(legs@)[j]).account_id != account,
        decreases legs@.len() - i,
    {
        if legs[i].account_id == account {
            assert(leg_views(legs@)[i as int].account_id == account);
            return true;
        }
        i = i + 1;
    }
    false
}

fn meet(la: &Vec<Leg>, lb: &Vec<Leg>) -> (r: bool)
    ensures
        r == meets(leg_views(la@), leg_views(lb@)),
{
    let mut i: usize = 0;
    while i < la.len()
        invariant
            i <= la@.len(),
            forall|j: int|
                0 <= j < i ==> !touches(
                    leg_views(lb@),
                    (#[trigger] leg_views(la@)[j]).account_id,
                ),
        decreases la@.len() - i,
    {
        if touch(lb, la[i].account_id) {
            assert(touches(leg_views(lb@), leg_views(la@)[i as int].account_id));
            return true;
        }
        i = i + 1;
    }
    false
}

fn find_payment(payments: &Vec<Payment>, id: i64) -> (r: Option<usize>)
    ensures
        match r {
            Some(i) => i < payments@.len() && pay_place(payments@, id) == i,
            None => pay_place(payments@, id) == payments@.len(),
        },
{
    let mut i: usize = 0;
    while i < payments.len()
        invariant
            i <= payments@.len(),
            forall|j: int| 0 <= j < i ==> !#[trigger] is_payment(payments@, id)(j),
        decreases payments@.len() - i,
    {
        if payments[i].id == id {
            proof {
                lemma_first(payments@.len() as int, is_payment(payments@, id), i as int);
            }
            return Some(i);
        }
        i = i + 1;
    }
    proof {
        lemma_first(payments@.len() as int, is_payment(payments@, id), i as int);
    }
    None
}

proof fn lemma_renames_push(ms: Seq<(NodeKey, NodeKey)>, m: (NodeKey, NodeKey))
    ensures
        renames(ms.push(m)) == renames(ms).push((stands_for(ms, m.0), stands_for(ms, m.1))),
{
    let now = renames(ms.push(m));
    let want = renames(ms).push((stands_for(ms, m.0), stands_for(ms, m.1)));
    assert forall|i: int| 0 <= i < now.len() implies now[i] == want[i] by {
        if i < ms.len() {
            assert(ms.push(m).take(i) =~= ms.take(i));
        } else {
            assert(ms.push(m).take(i) =~= ms);
        }
    }
    assert(now =~= want);
}

fn merge_link(
    accounts: &Vec<Account>,
    a: i64,
    la: &Vec<Leg>,
    b: i64,
    lb: &Vec<Leg>,
    names: &mut Vec<(NodeKey, NodeKey)>,
    ms: Ghost<Seq<(NodeKey, NodeKey)>>,
)
    requires
        old(names)@ == renames(ms@),
    ensures
        final(names)@ == renames(
            ms@ + link_merges(accounts@, a, leg_views(la@), b, leg_views(lb@)),
        ),
{
    let ghost all = leg_views(la@);
    let ghost mut cur = ms@;
    let mut i: usize = 0;
    assert(all.take(0) =~= Seq::<LegView>::empty());
    assert(ms@ + link_merges(accounts@, a, all.take(0), b, leg_views(lb@)) =~= ms@);
    while i < la.len()
        invariant
            i <= la@.len(),
            all == leg_views(la@),
            cur == ms@ + link_merges(accounts@, a, all.take(i as int), b, leg_views(lb@)),
            names@ == renames(cur),
        decreases la@.len() - i,
    {
        assert(all.take(i + 1).drop_last() =~= all.take(i as int));
        assert(all.take(i + 1).last() == la@[i as int]@);
        let acc: i64 = la[i].account_id;
        let kind = kind_of(accounts, acc);
        if touch(lb, acc) && !shared_kind(kind.as_str()) {
            let x = visit(accounts, a, acc);
            let y = visit(accounts, b, acc);
            let rx = stand_in(names, Ghost(cur), x);
            let ry = stand_in(names, Ghost(cur), y);
            names.push((rx, ry));
            proof {
                lemma_renames_push(cur, (x, y));
                assert(ms@ + link_merges(accounts@, a, all.take(i + 1), b, leg_views(lb@))
                    =~= cur.push((x, y)));
                cur = cur.push((x, y));
            }
        }
        i = i + 1;
    }
    assert(all.take(all.len() as int) =~= all);
}

fn merge_all(
    accounts: &Vec<Account>,
    payments: &Vec<Payment>,
    legs: &Vec<Vec<Leg>>,
    links: &Vec<Link>,
) -> (r: Vec<(NodeKey, NodeKey)>)
    requires
        leg_lists(legs@) == flows(accounts@, payments@),
    ensures
        r@ == renames(merges(accounts@, payments@, links@)),
{
    let mut names: Vec<(NodeKey, NodeKey)> = Vec::new();
    let mut i: usize = 0;
    assert(renames(Seq::empty()) =~= Seq::<(NodeKey, NodeKey)>::empty());
    while i < links.len()
        invariant
            i <= links@.len(),
            leg_lists(legs@) == flows(accounts@, payments@),
            names@ == renames(merges(accounts@, payments@, links@.take(i as int))),
        decreases links@.len() - i,
    {
        assert(links@.take(i + 1).drop_last() =~= links@.take(i as int));
        let ghost ms = merges(accounts@, payments@, links@.take(i as int));
        let l = &links[i];
        match (find_payment(payments, l.from), find_payment(payments, l.to)) {
            (Some(x), Some(y)) => {
                proof {
                    assert(legs@.len() == leg_lists(legs@).len());
                    assert(leg_views(legs@[x as int]@) == leg_lists(legs@)[x as int]);
                    assert(leg_views(legs@[y as int]@) == leg_lists(legs@)[y as int]);
                }
                merge_link(accounts, l.from, &legs[x], l.to, &legs[y], &mut names, Ghost(ms));
            },
            _ => {},
        }
        i = i + 1;
    }
    assert(links@.take(links@.len() as int) =~= links@);
    names
}

/// The legs that leave.
pub open spec fn leaving(legs: Seq<LegView>) -> Seq<LegView>
    decreases legs.len(),
{
    if legs.len() == 0 {
        legs
    } else if legs.last().amount_minor < 0 {
        leaving(legs.drop_last()).push(legs.last())
    } else {
        leaving(legs.drop_last())
    }
}

/// The legs that arrive.
pub open spec fn arriving(legs: Seq<LegView>) -> Seq<LegView>
    decreases legs.len(),
{
    if legs.len() == 0 {
        legs
    } else if legs.last().amount_minor > 0 {
        arriving(legs.drop_last()).push(legs.last())
    } else {
        arriving(legs.drop_last())
    }
}

fn split_legs(legs: &Vec<Leg>) -> (r: (Vec<Leg>, Vec<Leg>))
    ensures
        leg_views(r.0@) == leaving(leg_views(legs@)),
        leg_views(r.1@) == arriving(leg_views(legs@)),
{
    let ghost all = leg_views(legs@);
    let mut out: Vec<Leg> = Vec::new();
    let mut inn: Vec<Leg> = Vec::new();
    let mut i: usize = 0;
    assert(all.take(0) =~= Seq::<LegView>::empty());
    assert(leg_views(out@) =~= Seq::<LegView>::empty());
    while i < legs.len()
        invariant
            i <= legs@.len(),
            all == leg_views(legs@),
            leg_views(out@) == leaving(all.take(i as int)),
            leg_views(inn@) == arriving(all.take(i as int)),
        decreases legs@.len() - i,
    {
        assert(all.take(i + 1).drop_last() =~= all.take(i as int));
        assert(all.take(i + 1).last() == legs@[i as int]@);
        let l = copy_leg(&legs[i]);
        if l.amount_minor < 0 {
            assert(leg_views(out@.push(l)) =~= leg_views(out@).push(l@));
            out.push(l);
        } else if l.amount_minor > 0 {
            assert(leg_views(inn@.push(l)) =~= leg_views(inn@).push(l@));
            inn.push(l);
        }
        i = i + 1;
    }
    assert(all.take(all.len() as int) =~= all);
    (out, inn)
}

/// A payment's end at a visit.
pub struct Touch {
    pub txn: i64,
    pub key: NodeKey,
}

/// The ends of legs.
pub open spec fn leg_ends(
    accounts: Seq<Account>,
    ms: Seq<(NodeKey, NodeKey)>,
    txn: i64,
    legs: Seq<LegView>,
) -> Seq<Touch> {
    legs.map_values(
        |l: LegView| Touch { txn, key: stands_for(ms, key_of(accounts, txn, l.account_id)) },
    )
}

/// The ends of payments: for each in turn where it leaves, then where it arrives.
pub open spec fn all_ends(
    accounts: Seq<Account>,
    ms: Seq<(NodeKey, NodeKey)>,
    payments: Seq<Payment>,
) -> Seq<Touch>
    decreases payments.len(),
{
    if payments.len() == 0 {
        Seq::empty()
    } else {
        let p = payments.last();
        let legs = real_legs(accounts, leg_views(p.legs@));
        all_ends(accounts, ms, payments.drop_last()) + leg_ends(
            accounts,
            ms,
            p.id,
            leaving(legs),
        ) + leg_ends(accounts, ms, p.id, arriving(legs))
    }
}

/// The visits of ends, each once, in the order they are first seen, so that a view's layout is
/// stable between two identical answers.
pub open spec fn distinct(s: Seq<Touch>) -> Seq<NodeKey>
    decreases s.len(),
{
    if s.len() == 0 {
        Seq::empty()
    } else {
        let rest = distinct(s.drop_last());
        if rest.contains(s.last().key) {
            rest
        } else {
            rest.push(s.last().key)
        }
    }
}

/// Whether the visit at a place is this one.
pub open spec fn is_visit(s: Seq<NodeKey>, k: NodeKey) -> spec_fn(int) -> bool {
    |i: int| s[i] == k
}

/// The place of a visit among visits.
pub open spec fn spot(s: Seq<NodeKey>, k: NodeKey) -> int {
    first(s.len() as int, is_visit(s, k))
}

fn find_spot(s: &Vec<NodeKey>, k: NodeKey) -> (r: usize)
    ensures
        r == spot(s@, k),
        r <= s@.len(),
        r < s@.len() <==> s@.contains(k),
{
    let mut i: usize = 0;
    while i < s.len()
        invariant
            i <= s@.len(),
            forall|j: int| 0 <= j < i ==> !#[trigger] is_visit(s@, k)(j),
        decreases s@.len() - i,
    {
        if s[i] == k {
            proof {
                lemma_first(s@.len() as int, is_visit(s@, k), i as int);
                assert(s@[i as int] == k);
            }
            return i;
        }
        i = i + 1;
    }
    proof {
        lemma_first(s@.len() as int, is_visit(s@, k), i as int);
        if s@.contains(k) {
            let j = choose|j: int| 0 <= j < s@.len() && s@[j] == k;
            assert(!is_visit(s@, k)(j));
        }
    }
    i
}

fn add_ends(
    accounts: &Vec<Account>,
    names: &Vec<(NodeKey, NodeKey)>,
    ms: Ghost<Seq<(NodeKey, NodeKey)>>,
    txn: i64,
    legs: &Vec<Leg>,
    out: &mut Vec<Touch>,
)
    requires
        names@ == renames(ms@),
    ensures
        final(out)@ == old(out)@ + leg_ends(accounts@, ms@, txn, leg_views(legs@)),
{
    let ghost all = leg_ends(accounts@, ms@, txn, leg_views(legs@));
    let ghost start = out@;
    let mut i: usize = 0;
    assert(start + all.take(0) =~= start);
    while i < legs.len()
        invariant
            i <= legs@.len(),
            names@ == renames(ms@),
            all == leg_ends(accounts@, ms@, txn, leg_views(legs@)),
            start == old(out)@,
            out@ == start + all.take(i as int),
        decreases legs@.len() - i,
    {
        let key = stand_in(names, ms, visit(accounts, txn, legs[i].account_id));
        out.push(Touch { txn, key });
        assert(leg_views(legs@)[i as int] == legs@[i as int]@);
        assert(all.take(i + 1) =~= all.take(i as int).push(all[i as int]));
        i = i + 1;
        assert(out@ =~= start + all.take(i as int));
    }
    assert(all.take(all.len() as int) =~= all);
}

fn distinct_keys(s: &Vec<Touch>) -> (r: Vec<NodeKey>)
    ensures
        r@ == distinct(s@),
{
    let mut out: Vec<NodeKey> = Vec::new();
    let mut i: usize = 0;
    while i < s.len()
        invariant
            i <= s@.len(),
            out@ == distinct(s@.take(i as int)),
        decreases s@.len() - i,
    {
        assert(s@.take(i + 1).drop_last() =~= s@.take(i as int));
        let at = find_spot(&out, s[i].key);
        if at == out.len() {
            out.push(s[i].key);
        }
        i = i + 1;
    }
    assert(s@.take(s@.len() as int) =~= s@);
    out
}

/// An arrow: money moving from one visit to another.
#[derive(Debug, Clone)]
pub struct Edge {
    pub txn_id: i64,
    pub from: usize,
    pub to: usize,
    pub occurred_on: String,
    pub description: String,
    pub amount_minor: Minor,
    pub currency: String,
    /// What arrives, where it is in another currency.
    pub to_currency: Option<String>,
    pub to_minor: Option<Minor>,
    pub links: i64,
}

/// The content of an arrow.
pub struct EdgeView {
    pub txn_id: i64,
    pub from: int,
    pub to: int,
    pub occurred_on: Seq<char>,
    pub description: Seq<char>,
    pub amount: int,
    pub currency: Seq<char>,
    pub to_currency: Option<Seq<char>>,
    pub to_minor: Option<int>,
    pub links: i64,
}

impl View for Edge {
    type V = EdgeView;

    open spec fn view(&self) -> EdgeView {
        EdgeView {
            txn_id: self.txn_id,
            from: self.from as int,
            to: self.to as int,
            occurred_on: self.occurred_on@,
            description: self.description@,
            amount: self.amount_minor as int,
            currency: self.currency@,
            to_currency: opt_view(self.to_currency),
            to_minor: match self.to_minor {
                Some(v) => Some(v as int),
                None => None,
            },
            links: self.links,
        }
    }
}

/// The contents of arrows.
pub open spec fn edge_views(v: Seq<Edge>) -> Seq<EdgeView> {
    v.map_values(|e: Edge| e@)
}

/// The node of a payment's visit to an account.
pub open spec fn node_at(
    accounts: Seq<Account>,
    ms: Seq<(NodeKey, NodeKey)>,
    nodes: Seq<NodeKey>,
    txn: i64,
    account: i64,
) -> int {
    spot(nodes, stands_for(ms, key_of(accounts, txn, account)))
}

/// The arrow from a leg that leaves to one that arrives. It carries what moved along it: for a single
/// payment or a conversion that is the leg itself, for a split the smaller of the two ends it joins.
pub open spec fn edge_of(
    accounts: Seq<Account>,
    ms: Seq<(NodeKey, NodeKey)>,
    nodes: Seq<NodeKey>,
    p: Payment,
    l: LegView,
    a: LegView,
) -> EdgeView {
    EdgeView {
        txn_id: p.id,
        from: node_at(accounts, ms, nodes, p.id, l.account_id),
        to: node_at(accounts, ms, nodes, p.id, a.account_id),
        occurred_on: p.occurred_on@,
        description: p.description@,
        amount: if -l.amount_minor < a.amount_minor {
            -l.amount_minor
        } else {
            a.amount_minor
        },
        currency: l.currency,
        to_currency: if l.currency != a.currency {
            Some(a.currency)
        } else {
            None
        },
        to_minor: if l.currency != a.currency {
            Some(a.amount_minor)
        } else {
            None
        },
        links: p.links,
    }
}

/// The arrows from one leg that leaves.
pub open spec fn fan(
    accounts: Seq<Account>,
    ms: Seq<(NodeKey, NodeKey)>,
    nodes: Seq<NodeKey>,
    p: Payment,
    l: LegView,
    arr: Seq<LegView>,
) -> Seq<EdgeView> {
    arr.map_values(|a: LegView| edge_of(accounts, ms, nodes, p, l, a))
}

/// The arrows of a payment: one from each leg that leaves to each that arrives.
pub open spec fn payment_edges(
    accounts: Seq<Account>,
    ms: Seq<(NodeKey, NodeKey)>,
    nodes: Seq<NodeKey>,
    p: Payment,
    out: Seq<LegView>,
    arr: Seq<LegView>,
) -> Seq<EdgeView>
    decreases out.len(),
{
    if out.len() == 0 {
        Seq::empty()
    } else {
        payment_edges(accounts, ms, nodes, p, out.drop_last(), arr) + fan(
            accounts,
            ms,
            nodes,
            p,
            out.last(),
            arr,
        )
    }
}

/// The arrows of payments.
pub open spec fn all_edges(
    accounts: Seq<Account>,
    ms: Seq<(NodeKey, NodeKey)>,
    nodes: Seq<NodeKey>,
    payments: Seq<Payment>,
) -> Seq<EdgeView>
    decreases payments.len(),
{
    if payments.len() == 0 {
        Seq::empty()
    } else {
        let p = payments.last();
        let legs = real_legs(accounts, leg_views(p.legs@));
        all_edges(accounts, ms, nodes, payments.drop_last()) + payment_edges(
            accounts,
            ms,
            nodes,
            p,
            leaving(legs),
            arriving(legs),
        )
    }
}

/// Whether every amount can be turned round.
pub open spec fn can_turn(legs: Seq<Leg>) -> bool {
    forall|i: int| 0 <= i < legs.len() ==> (#[trigger] legs[i]).amount_minor > i64::MIN
}

proof fn lemma_put_leg_in(s: Seq<LegView>, l: LegView)
    requires
        forall|i: int| 0 <= i < s.len() ==> (#[trigger] s[i]).amount_minor > i64::MIN,
        l.amount_minor > i64::MIN,
    ensures
        forall|i: int|
            0 <= i < put_leg(s, l).len() ==> (#[trigger] put_leg(s, l)[i]).amount_minor > i64::MIN,
    decreases s.len(),
{
    if s.len() > 0 && l.amount_minor < s.last().amount_minor {
        assert forall|i: int| 0 <= i < s.len() - 1 implies (#[trigger] s.drop_last()[i]).amount_minor
            > i64::MIN by {
            assert(s.drop_last()[i] == s[i]);
        }
        assert(s[s.len() - 1].amount_minor > i64::MIN);
        lemma_put_leg_in(s.drop_last(), l);
        let rest = put_leg(s.drop_last(), l);
        let all = put_leg(s, l);
        assert forall|i: int| 0 <= i < all.len() implies (#[trigger] all[i]).amount_minor
            > i64::MIN by {
            if i < rest.len() {
                assert(all[i] == rest[i]);
            }
        }
    }
}

proof fn lemma_real_legs_turn(accounts: Seq<Account>, legs: Seq<LegView>)
    requires
        forall|i: int| 0 <= i < legs.len() ==> (#[trigger] legs[i]).amount_minor > i64::MIN,
    ensures
        forall|i: int|
            0 <= i < real_legs(accounts, legs).len() ==> (#[trigger] real_legs(
                accounts,
                legs,
            )[i]).amount_minor > i64::MIN,
    decreases legs.len(),
{
    if legs.len() > 0 {
        assert forall|i: int| 0 <= i < legs.len() - 1 implies (
        #[trigger] legs.drop_last()[i]).amount_minor > i64::MIN by {
            assert(legs.drop_last()[i] == legs[i]);
        }
        assert(legs[legs.len() - 1].amount_minor > i64::MIN);
        lemma_real_legs_turn(accounts, legs.drop_last());
        lemma_put_leg_in(real_legs(accounts, legs.drop_last()), legs.last());
    }
}

proof fn lemma_leaving_turn(legs: Seq<LegView>)
    requires
        forall|i: int| 0 <= i < legs.len() ==> (#[trigger] legs[i]).amount_minor > i64::MIN,
    ensures
        forall|i: int|
            0 <= i < leaving(legs).len() ==> (#[trigger] leaving(legs)[i]).amount_minor > i64::MIN
                && leaving(legs)[i].amount_minor < 0,
    decreases legs.len(),
{
    if legs.len() > 0 {
        assert forall|i: int| 0 <= i < legs.len() - 1 implies (
        #[trigger] legs.drop_last()[i]).amount_minor > i64::MIN by {
            assert(legs.drop_last()[i] == legs[i]);
        }
        assert(legs[legs.len() - 1].amount_minor > i64::MIN);
        lemma_leaving_turn(legs.drop_last());
        let rest = leaving(legs.drop_last());
        let all = leaving(legs);
        assert forall|i: int| 0 <= i < all.len() implies (#[trigger] all[i]).amount_minor
            > i64::MIN && all[i].amount_minor < 0 by {
            if i < rest.len() {
                assert(all[i] == rest[i]);
            }
        }
    }
}

fn add_fan(
    accounts: &Vec<Account>,
    names: &Vec<(NodeKey, NodeKey)>,
    ms: Ghost<Seq<(NodeKey, NodeKey)>>,
    nodes: &Vec<NodeKey>,
    p: &Payment,
    l: &Leg,
    arr: &Vec<Leg>,
    out: &mut Vec<Edge>,
)
    requires
        names@ == renames(ms@),
        l.amount_minor > i64::MIN,
    ensures
        edge_views(final(out)@) == edge_views(old(out)@) + fan(
            accounts@,
            ms@,
            nodes@,
            *p,
            l@,
            leg_views(arr@),
        ),
{
    let ghost all = fan(accounts@, ms@, nodes@, *p, l@, leg_views(arr@));
    let ghost start = edge_views(out@);
    let mut i: usize = 0;
    assert(start + all.take(0) =~= start);
    let from: usize = find_spot(nodes, stand_in(names, ms, visit(accounts, p.id, l.account_id)));
    while i < arr.len()
        invariant
            i <= arr@.len(),
            names@ == renames(ms@),
            l.amount_minor > i64::MIN,
            from == node_at(accounts@, ms@, nodes@, p.id, l.account_id),
            all == fan(accounts@, ms@, nodes@, *p, l@, leg_views(arr@)),
            start == edge_views(old(out)@),
            edge_views(out@) == start + all.take(i as int),
        decreases arr@.len() - i,
    {
        let a = &arr[i];
        let to: usize = find_spot(
            nodes,
            stand_in(names, ms, visit(accounts, p.id, a.account_id)),
        );
        let sent: i64 = -l.amount_minor;
        let amount_minor: i64 = if sent < a.amount_minor {
            sent
        } else {
            a.amount_minor
        };
        let same = str_eq(l.currency.as_str(), a.currency.as_str());
        let e = Edge {
            txn_id: p.id,
            from,
            to,
            occurred_on: p.occurred_on.clone(),
            description: p.description.clone(),
            amount_minor,
            currency: l.currency.clone(),
            to_currency: if same {
                None
            } else {
                Some(a.currency.clone())
            },
            to_minor: if same {
                None
            } else {
                Some(a.amount_minor)
            },
            links: p.links,
        };
        assert(leg_views(arr@)[i as int] == arr@[i as int]@);
        assert(e@ == all[i as int]);
        assert(edge_views(out@.push(e)) =~= edge_views(out@).push(e@));
        assert(all.take(i + 1) =~= all.take(i as int).push(e@));
        out.push(e);
        i = i + 1;
        assert(edge_views(out@) =~= start + all.take(i as int));
    }
    assert(all.take(all.len() as int) =~= all);
}

fn add_edges(
    accounts: &Vec<Account>,
    names: &Vec<(NodeKey, NodeKey)>,
    ms: Ghost<Seq<(NodeKey, NodeKey)>>,
    nodes: &Vec<NodeKey>,
    p: &Payment,
    leave: &Vec<Leg>,
    arr: &Vec<Leg>,
    out: &mut Vec<Edge>,
)
    requires
        names@ == renames(ms@),
        can_turn(leave@),
    ensures
        edge_views(final(out)@) == edge_views(old(out)@) + payment_edges(
            accounts@,
            ms@,
            nodes@,
            *p,
            leg_views(leave@),
            leg_views(arr@),
        ),
{
    let ghost all = leg_views(leave@);
    let ghost start = edge_views(out@);
    let ghost acs = accounts@;
    let mut i: usize = 0;
    assert(all.take(0) =~= Seq::<LegView>::empty());
    assert(start + payment_edges(acs, ms@, nodes@, *p, all.take(0), leg_views(arr@)) =~= start);
    while i < leave.len()
        invariant
            i <= leave@.len(),
            names@ == renames(ms@),
            can_turn(leave@),
            acs == accounts@,
            all == leg_views(leave@),
            start == edge_views(old(out)@),
            edge_views(out@) == start + payment_edges(
                acs,
                ms@,
                nodes@,
                *p,
                all.take(i as int),
                leg_views(arr@),
            ),
        decreases leave@.len() - i,
    {
        assert(all.take(i + 1).drop_last() =~= all.take(i as int));
        assert(all.take(i + 1).last() == leave@[i as int]@);
        add_fan(accounts, names, ms, nodes, p, &leave[i], arr, out);
        i = i + 1;
        assert(edge_views(out@) =~= start + payment_edges(
            acs,
            ms@,
            nodes@,
            *p,
            all.take(i as int),
            leg_views(arr@),
        ));
    }
    assert(all.take(all.len() as int) =~= all);
}

/// One visit to an account.
#[derive(Debug, Clone)]
pub struct Node {
    pub account_id: i64,
    pub account: String,
    pub kind: String,
    pub currency: String,
    pub shared: bool,
    /// The payments that leave or arrive here, in order of their ids.
    pub txn_ids: Vec<i64>,
    /// How many arrows arrive and leave: a node is drawn as large as its traffic.
    pub arrows_in: usize,
    pub arrows_out: usize,
}

/// The content of a node.
pub struct NodeView {
    pub account_id: i64,
    pub account: Seq<char>,
    pub kind: Seq<char>,
    pub currency: Seq<char>,
    pub shared: bool,
    pub txn_ids: Seq<i64>,
    pub arrows_in: int,
    pub arrows_out: int,
}

impl View for Node {
    type V = NodeView;

    open spec fn view(&self) -> NodeView {
        NodeView {
            account_id: self.account_id,
            account: self.account@,
            kind: self.kind@,
            currency: self.currency@,
            shared: self.shared,
            txn_ids: self.txn_ids@,
            arrows_in: self.arrows_in as int,
            arrows_out: self.arrows_out as int,
        }
    }
}

/// The contents of nodes.
pub open spec fn node_views(v: Seq<Node>) -> Seq<NodeView> {
    v.map_values(|n: Node| n@)
}

/// The payments with an end at a visit, in order of their ids.
pub open spec fn guests(s: Seq<Touch>, k: NodeKey) -> Seq<i64>
    decreases s.len(),
{
    if s.len() == 0 {
        Seq::empty()
    } else if s.last().key == k {
        with_id(guests(s.drop_last(), k), s.last().txn)
    } else {
        guests(s.drop_last(), k)
    }
}

/// How many arrows arrive at a node.
pub open spec fn count_to(edges: Seq<EdgeView>, n: int) -> int
    decreases edges.len(),
{
    if edges.len() == 0 {
        0
    } else {
        count_to(edges.drop_last(), n) + (if edges.last().to == n {
            1int
        } else {
            0
        })
    }
}

/// How many arrows leave a node.
pub open spec fn count_from(edges: Seq<EdgeView>, n: int) -> int
    decreases edges.len(),
{
    if edges.len() == 0 {
        0
    } else {
        count_from(edges.drop_last(), n) + (if edges.last().from == n {
            1int
        } else {
            0
        })
    }
}

/// The name of an account, nothing where it is not in the book.
pub open spec fn name_of(accounts: Seq<Account>, id: i64) -> Seq<char> {
    if known(accounts, id) {
        account_of(accounts, id).name@
    } else {
        Seq::empty()
    }
}

/// The currency of an account, nothing where it is not in the book.
pub open spec fn currency_of(accounts: Seq<Account>, id: i64) -> Seq<char> {
    if known(accounts, id) {
        account_of(accounts, id).currency@
    } else {
        Seq::empty()
    }
}

/// The node of a visit.
pub open spec fn node_for(
    accounts: Seq<Account>,
    ends: Seq<Touch>,
    edges: Seq<EdgeView>,
    nodes: Seq<NodeKey>,
    n: int,
) -> NodeView {
    let acc = nodes[n].account;
    NodeView {
        account_id: acc,
        account: name_of(accounts, acc),
        kind: kind_in(accounts, acc),
        currency: currency_of(accounts, acc),
        shared: is_shared(kind_in(accounts, acc)),
        txn_ids: guests(ends, nodes[n]),
        arrows_in: count_to(edges, n),
        arrows_out: count_from(edges, n),
    }
}

fn collect_guests(s: &Vec<Touch>, k: NodeKey) -> (r: Vec<i64>)
    ensures
        r@ == guests(s@, k),
{
    let mut out: Vec<i64> = Vec::new();
    let mut i: usize = 0;
    while i < s.len()
        invariant
            i <= s@.len(),
            out@ == guests(s@.take(i as int), k),
        decreases s@.len() - i,
    {
        assert(s@.take(i + 1).drop_last() =~= s@.take(i as int));
        if s[i].key == k {
            put(&mut out, s[i].txn);
        }
        i = i + 1;
    }
    assert(s@.take(s@.len() as int) =~= s@);
    out
}

fn count_arrows(edges: &Vec<Edge>, n: usize) -> (r: (usize, usize))
    ensures
        r.0 == count_to(edge_views(edges@), n as int),
        r.1 == count_from(edge_views(edges@), n as int),
{
    let ghost all = edge_views(edges@);
    let mut to: usize = 0;
    let mut from: usize = 0;
    let mut i: usize = 0;
    while i < edges.len()
        invariant
            i <= edges@.len(),
            all == edge_views(edges@),
            to <= i,
            from <= i,
            to == count_to(all.take(i as int), n as int),
            from == count_from(all.take(i as int), n as int),
        decreases edges@.len() - i,
    {
        assert(all.take(i + 1).drop_last() =~= all.take(i as int));
        assert(all.take(i + 1).last() == edges@[i as int]@);
        if edges[i].to == n {
            to = to + 1;
        }
        if edges[i].from == n {
            from = from + 1;
        }
        i = i + 1;
    }
    assert(all.take(all.len() as int) =~= all);
    (to, from)
}

fn name_and_currency(accounts: &Vec<Account>, id: i64) -> (r: (String, String))
    ensures
        r.0@ == name_of(accounts@, id),
        r.1@ == currency_of(accounts@, id),
{
    match find(accounts, id) {
        Some(i) => (accounts[i].name.clone(), accounts[i].currency.clone()),
        None => (String::new(), String::new()),
    }
}

/// A link, so that a view can offer to undo the ones a node stands for. One between payments that
/// touch no account in common cannot be a shared visit: it says which nodes to draw it between, from
/// the earlier payment's arrival to the later one's departure.
#[derive(Debug, Clone)]
pub struct LinkRow {
    pub from_txn: i64,
    pub to_txn: i64,
    pub note: Option<String>,
    pub shared: bool,
    pub from_node: Option<usize>,
    pub to_node: Option<usize>,
}

/// The content of a link's row.
pub struct LinkRowView {
    pub from_txn: i64,
    pub to_txn: i64,
    pub note: Option<Seq<char>>,
    pub shared: bool,
    pub from_node: Option<int>,
    pub to_node: Option<int>,
}

/// A number of things as an integer.
pub open spec fn opt_int(n: Option<usize>) -> Option<int> {
    match n {
        Some(v) => Some(v as int),
        None => None,
    }
}

impl View for LinkRow {
    type V = LinkRowView;

    open spec fn view(&self) -> LinkRowView {
        LinkRowView {
            from_txn: self.from_txn,
            to_txn: self.to_txn,
            note: opt_view(self.note),
            shared: self.shared,
            from_node: opt_int(self.from_node),
            to_node: opt_int(self.to_node),
        }
    }
}

/// The contents of links' rows.
pub open spec fn row_views(v: Seq<LinkRow>) -> Seq<LinkRowView> {
    v.map_values(|r: LinkRow| r@)
}

/// The node of the first of some legs.
pub open spec fn first_node(
    accounts: Seq<Account>,
    ms: Seq<(NodeKey, NodeKey)>,
    nodes: Seq<NodeKey>,
    txn: i64,
    legs: Seq<LegView>,
) -> Option<int> {
    if legs.len() > 0 {
        Some(node_at(accounts, ms, nodes, txn, legs[0].account_id))
    } else {
        None
    }
}

/// One node, or the other where there is none.
pub open spec fn either(a: Option<int>, b: Option<int>) -> Option<int> {
    if a is Some {
        a
    } else {
        b
    }
}

/// The row of a link.
pub open spec fn link_row(
    accounts: Seq<Account>,
    ms: Seq<(NodeKey, NodeKey)>,
    nodes: Seq<NodeKey>,
    payments: Seq<Payment>,
    l: LinkView,
) -> LinkRowView {
    let la = flow_of(accounts, payments, l.from);
    let lb = flow_of(accounts, payments, l.to);
    let loose = both_drawn(payments, l.from, l.to) && !meets(la, lb);
    LinkRowView {
        from_txn: l.from,
        to_txn: l.to,
        note: l.note,
        shared: !loose,
        from_node: if loose {
            either(
                first_node(accounts, ms, nodes, l.from, arriving(la)),
                first_node(accounts, ms, nodes, l.from, leaving(la)),
            )
        } else {
            None
        },
        to_node: if loose {
            either(
                first_node(accounts, ms, nodes, l.to, leaving(lb)),
                first_node(accounts, ms, nodes, l.to, arriving(lb)),
            )
        } else {
            None
        },
    }
}

fn find_first_node(
    accounts: &Vec<Account>,
    names: &Vec<(NodeKey, NodeKey)>,
    ms: Ghost<Seq<(NodeKey, NodeKey)>>,
    nodes: &Vec<NodeKey>,
    txn: i64,
    legs: &Vec<Leg>,
) -> (r: Option<usize>)
    requires
        names@ == renames(ms@),
    ensures
        opt_int(r) == first_node(accounts@, ms@, nodes@, txn, leg_views(legs@)),
{
    if legs.len() > 0 {
        assert(leg_views(legs@)[0] == legs@[0]@);
        Some(find_spot(nodes, stand_in(names, ms, visit(accounts, txn, legs[0].account_id))))
    } else {
        None
    }
}

fn either_node(a: Option<usize>, b: Option<usize>) -> (r: Option<usize>)
    ensures
        opt_int(r) == either(opt_int(a), opt_int(b)),
{
    if a.is_some() {
        a
    } else {
        b
    }
}

fn make_row(
    accounts: &Vec<Account>,
    names: &Vec<(NodeKey, NodeKey)>,
    ms: Ghost<Seq<(NodeKey, NodeKey)>>,
    nodes: &Vec<NodeKey>,
    payments: &Vec<Payment>,
    legs: &Vec<Vec<Leg>>,
    l: &Link,
) -> (r: LinkRow)
    requires
        names@ == renames(ms@),
        leg_lists(legs@) == flows(accounts@, payments@),
    ensures
        r@ == link_row(accounts@, ms@, nodes@, payments@, l@),
{
    let note = match &l.note {
        Some(s) => Some(s.clone()),
        None => None,
    };
    let mut row = LinkRow {
        from_txn: l.from,
        to_txn: l.to,
        note,
        shared: true,
        from_node: None,
        to_node: None,
    };
    match (find_payment(payments, l.from), find_payment(payments, l.to)) {
        (Some(x), Some(y)) => {
            proof {
                assert(legs@.len() == leg_lists(legs@).len());
                assert(leg_views(legs@[x as int]@) == leg_lists(legs@)[x as int]);
                assert(leg_views(legs@[y as int]@) == leg_lists(legs@)[y as int]);
            }
            if !meet(&legs[x], &legs[y]) {
                let (la, aa) = split_legs(&legs[x]);
                let (lb, ab) = split_legs(&legs[y]);
                row.shared = false;
                row.from_node = either_node(
                    find_first_node(accounts, names, ms, nodes, l.from, &aa),
                    find_first_node(accounts, names, ms, nodes, l.from, &la),
                );
                row.to_node = either_node(
                    find_first_node(accounts, names, ms, nodes, l.to, &lb),
                    find_first_node(accounts, names, ms, nodes, l.to, &ab),
                );
            }
        },
        _ => {},
    }
    row
}

/// Payments drawn as a graph.
#[derive(Debug, Clone)]
pub struct Graph {
    pub nodes: Vec<Node>,
    pub edges: Vec<Edge>,
    pub links: Vec<LinkRow>,
}

/// Whether a graph is what payments and the links among them are drawn as.
pub open spec fn is_graph(
    g: Graph,
    accounts: Seq<Account>,
    payments: Seq<Payment>,
    links: Seq<Link>,
) -> bool {
    let ms = merges(accounts, payments, links);
    let ends = all_ends(accounts, ms, payments);
    let nodes = distinct(ends);
    let edges = all_edges(accounts, ms, nodes, payments);
    &&& edge_views(g.edges@) == edges
    &&& node_views(g.nodes@) == Seq::new(
        nodes.len(),
        |n: int| node_for(accounts, ends, edges, nodes, n),
    )
    &&& row_views(g.links@) == links.map_values(
        |l: Link| link_row(accounts, ms, nodes, payments, l@),
    )
}

/// Payments as a graph of account visits. A link between two that touch the same account makes the
/// visit one; two chains that converge on the same visit share that node, which then carries every
/// arrow in and out.
pub fn graph(accounts: &Vec<Account>, payments: &Vec<Payment>, links: &Vec<Link>) -> (g: Graph)
    requires
        forall|i: int| 0 <= i < payments@.len() ==> can_turn((#[trigger] payments@[i]).legs@),
    ensures
        is_graph(g, accounts@, payments@, links@),
{
    let legs = arrange_all(accounts, payments);
    let names = merge_all(accounts, payments, &legs, links);
    let ghost ms = merges(accounts@, payments@, links@);
    let mut ends: Vec<Touch> = Vec::new();
    let mut i: usize = 0;
    while i < payments.len()
        invariant
            i <= payments@.len(),
            names@ == renames(ms),
            leg_lists(legs@) == flows(accounts@, payments@),
            ends@ == all_ends(accounts@, ms, payments@.take(i as int)),
        decreases payments@.len() - i,
    {
        assert(payments@.take(i + 1).drop_last() =~= payments@.take(i as int));
        assert(legs@.len() == leg_lists(legs@).len());
        assert(leg_views(legs@[i as int]@) == leg_lists(legs@)[i as int]);
        let (out, inn) = split_legs(&legs[i]);
        add_ends(accounts, &names, Ghost(ms), payments[i].id, &out, &mut ends);
        add_ends(accounts, &names, Ghost(ms), payments[i].id, &inn, &mut ends);
        i = i + 1;
    }
    assert(payments@.take(payments@.len() as int) =~= payments@);
    let keys = distinct_keys(&ends);
    let mut edges: Vec<Edge> = Vec::new();
    let mut i: usize = 0;
    assert(edge_views(edges@) =~= Seq::<EdgeView>::empty());
    while i < payments.len()
        invariant
            i <= payments@.len(),
            names@ == renames(ms),
            leg_lists(legs@) == flows(accounts@, payments@),
            forall|j: int| 0 <= j < payments@.len() ==> can_turn((#[trigger] payments@[j]).legs@),
            edge_views(edges@) == all_edges(accounts@, ms, keys@, payments@.take(i as int)),
        decreases payments@.len() - i,
    {
        assert(payments@.take(i + 1).drop_last() =~= payments@.take(i as int));
        assert(legs@.len() == leg_lists(legs@).len());
        assert(leg_views(legs@[i as int]@) == leg_lists(legs@)[i as int]);
        let (out, inn) = split_legs(&legs[i]);
        proof {
            let all = leg_views(payments@[i as int].legs@);
            assert(can_turn(payments@[i as int].legs@));
            assert forall|j: int| 0 <= j < all.len() implies (#[trigger] all[j]).amount_minor
                > i64::MIN by {
                assert(payments@[i as int].legs@[j].amount_minor > i64::MIN);
            }
            lemma_real_legs_turn(accounts@, all);
            lemma_leaving_turn(real_legs(accounts@, all));
            assert forall|j: int| 0 <= j < out@.len() implies (#[trigger] out@[j]).amount_minor
                > i64::MIN by {
                assert(leg_views(out@)[j].amount_minor > i64::MIN);
            }
        }
        add_edges(accounts, &names, Ghost(ms), &keys, &payments[i], &out, &inn, &mut edges);
        i = i + 1;
    }
    assert(payments@.take(payments@.len() as int) =~= payments@);
    let ghost want = Seq::new(
        keys@.len(),
        |n: int| node_for(accounts@, ends@, edge_views(edges@), keys@, n),
    );
    let mut nodes: Vec<Node> = Vec::new();
    let mut n: usize = 0;
    while n < keys.len()
        invariant
            n <= keys@.len(),
            want == Seq::new(
                keys@.len(),
                |n: int| node_for(accounts@, ends@, edge_views(edges@), keys@, n),
            ),
            node_views(nodes@) =~= want.take(n as int),
        decreases keys@.len() - n,
    {
        let acc: i64 = keys[n].account;
        let kind = kind_of(accounts, acc);
        let (account, currency) = name_and_currency(accounts, acc);
        let (arrows_in, arrows_out) = count_arrows(&edges, n);
        let shared = shared_kind(kind.as_str());
        let txn_ids = collect_guests(&ends, keys[n]);
        let node = Node {
            account_id: acc,
            account,
            kind,
            currency,
            shared,
            txn_ids,
            arrows_in,
            arrows_out,
        };
        assert(node@ == want[n as int]);
        assert(node_views(nodes@.push(node)) =~= node_views(nodes@).push(node@));
        nodes.push(node);
        n = n + 1;
    }
    assert(want.take(want.len() as int) =~= want);
    let ghost rows_want = links@.map_values(
        |l: Link| link_row(accounts@, ms, keys@, payments@, l@),
    );
    let mut rows: Vec<LinkRow> = Vec::new();
    let mut k: usize = 0;
    while k < links.len()
        invariant
            k <= links@.len(),
            names@ == renames(ms),
            leg_lists(legs@) == flows(accounts@, payments@),
            rows_want == links@.map_values(
                |l: Link| link_row(accounts@, ms, keys@, payments@, l@),
            ),
            row_views(rows@) =~= rows_want.take(k as int),
        decreases links@.len() - k,
    {
        let row = make_row(accounts, &names, Ghost(ms), &keys, payments, &legs, &links[k]);
        assert(row_views(rows@.push(row)) =~= row_views(rows@).push(row@));
        rows.push(row);
        k = k + 1;
    }
    assert(rows_want.take(rows_want.len() as int) =~= rows_want);
    Graph { nodes, edges, links: rows }
}

proof fn lemma_later_merges_keep(
    ms: Seq<(NodeKey, NodeKey)>,
    more: Seq<(NodeKey, NodeKey)>,
    a: NodeKey,
    b: NodeKey,
)
    requires
        stands_for(ms, a) == stands_for(ms, b),
    ensures
        stands_for(ms + more, a) == stands_for(ms + more, b),
    decreases more.len(),
{
    if more.len() == 0 {
        assert(ms + more =~= ms);
    } else {
        lemma_later_merges_keep(ms, more.drop_last(), a, b);
        assert((ms + more).drop_last() =~= ms + more.drop_last());
    }
}

/// Two visits that are made one have the same node.
proof fn lemma_merged_are_one(ms: Seq<(NodeKey, NodeKey)>, i: int)
    requires
        0 <= i < ms.len(),
    ensures
        stands_for(ms, ms[i].0) == stands_for(ms, ms[i].1),
{
    let upto = ms.take(i + 1);
    assert(upto.drop_last() =~= ms.take(i));
    assert(upto.last() == ms[i]);
    assert(stands_for(upto, ms[i].0) == stands_for(upto, ms[i].1));
    lemma_later_merges_keep(upto, ms.skip(i + 1), ms[i].0, ms[i].1);
    assert(upto + ms.skip(i + 1) =~= ms);
}

proof fn lemma_link_merges_has(
    accounts: Seq<Account>,
    a: i64,
    la: Seq<LegView>,
    b: i64,
    lb: Seq<LegView>,
    j: int,
) -> (i: int)
    requires
        0 <= j < la.len(),
        touches(lb, la[j].account_id),
        !is_shared(kind_in(accounts, la[j].account_id)),
    ensures
        0 <= i < link_merges(accounts, a, la, b, lb).len(),
        link_merges(accounts, a, la, b, lb)[i] == (
            key_of(accounts, a, la[j].account_id),
            key_of(accounts, b, la[j].account_id),
        ),
    decreases la.len(),
{
    if j == la.len() - 1 {
        link_merges(accounts, a, la, b, lb).len() - 1
    } else {
        lemma_link_merges_has(accounts, a, la.drop_last(), b, lb, j)
    }
}

proof fn lemma_merges_has(
    accounts: Seq<Account>,
    payments: Seq<Payment>,
    links: Seq<Link>,
    k: int,
    i: int,
) -> (at: int)
    requires
        0 <= k < links.len(),
        both_drawn(payments, links[k].from, links[k].to),
        ({
            let la = flow_of(accounts, payments, links[k].from);
            let lb = flow_of(accounts, payments, links[k].to);
            0 <= i < link_merges(accounts, links[k].from, la, links[k].to, lb).len()
        }),
    ensures
        0 <= at < merges(accounts, payments, links).len(),
        merges(accounts, payments, links)[at] == link_merges(
            accounts,
            links[k].from,
            flow_of(accounts, payments, links[k].from),
            links[k].to,
            flow_of(accounts, payments, links[k].to),
        )[i],
    decreases links.len(),
{
    let rest = links.drop_last();
    if k == links.len() - 1 {
        merges(accounts, payments, rest).len() + i
    } else {
        assert(rest[k] == links[k]);
        lemma_merges_has(accounts, payments, rest, k, i)
    }
}

/// A link between two payments that touch the same account makes their visits to it one.
pub proof fn law_a_link_through_an_account_is_one_visit(
    accounts: Seq<Account>,
    payments: Seq<Payment>,
    links: Seq<Link>,
    k: int,
    account: i64,
)
    requires
        0 <= k < links.len(),
        both_drawn(payments, links[k].from, links[k].to),
        touches(flow_of(accounts, payments, links[k].from), account),
        touches(flow_of(accounts, payments, links[k].to), account),
    ensures
        stands_for(
            merges(accounts, payments, links),
            key_of(accounts, links[k].from, account),
        ) == stands_for(merges(accounts, payments, links), key_of(accounts, links[k].to, account)),
{
    if !is_shared(kind_in(accounts, account)) {
        let (a, b) = (links[k].from, links[k].to);
        let la = flow_of(accounts, payments, a);
        let lb = flow_of(accounts, payments, b);
        let j = choose|j: int| 0 <= j < la.len() && (#[trigger] la[j]).account_id == account;
        let i = lemma_link_merges_has(accounts, a, la, b, lb, j);
        let at = lemma_merges_has(accounts, payments, links, k, i);
        lemma_merged_are_one(merges(accounts, payments, links), at);
    }
}

/// Whether a marking of visits is the same for each two that are made one.
pub open spec fn respects(ms: Seq<(NodeKey, NodeKey)>, mark: spec_fn(NodeKey) -> int) -> bool {
    forall|i: int| 0 <= i < ms.len() ==> mark((#[trigger] ms[i]).0) == mark(ms[i].1)
}

proof fn lemma_marks_agree(
    ms: Seq<(NodeKey, NodeKey)>,
    mark: spec_fn(NodeKey) -> int,
    k: NodeKey,
)
    requires
        respects(ms, mark),
    ensures
        mark(stands_for(ms, k)) == mark(k),
    decreases ms.len(),
{
    if ms.len() > 0 {
        let rest = ms.drop_last();
        assert forall|i: int| 0 <= i < rest.len() implies mark((#[trigger] rest[i]).0) == mark(
            rest[i].1,
        ) by {
            assert(rest[i] == ms[i]);
        }
        assert(mark(ms[ms.len() - 1].0) == mark(ms[ms.len() - 1].1));
        lemma_marks_agree(rest, mark, k);
        lemma_marks_agree(rest, mark, ms.last().0);
        lemma_marks_agree(rest, mark, ms.last().1);
    }
}

/// Nothing but links makes visits one: however visits are marked, so long as each two that a link
/// makes one are marked alike, two visits with the same node are marked alike.
pub proof fn law_only_links_make_visits_one(
    ms: Seq<(NodeKey, NodeKey)>,
    mark: spec_fn(NodeKey) -> int,
    a: NodeKey,
    b: NodeKey,
)
    requires
        respects(ms, mark),
        stands_for(ms, a) == stands_for(ms, b),
    ensures
        mark(a) == mark(b),
{
    lemma_marks_agree(ms, mark, a);
    lemma_marks_agree(ms, mark, b);
}

proof fn lemma_link_merges_account(
    accounts: Seq<Account>,
    a: i64,
    la: Seq<LegView>,
    b: i64,
    lb: Seq<LegView>,
)
    ensures
        respects(link_merges(accounts, a, la, b, lb), |k: NodeKey| k.account as int),
    decreases la.len(),
{
    if la.len() > 0 {
        let mark = |k: NodeKey| k.account as int;
        lemma_link_merges_account(accounts, a, la.drop_last(), b, lb);
        let rest = link_merges(accounts, a, la.drop_last(), b, lb);
        let all = link_merges(accounts, a, la, b, lb);
        assert forall|i: int| 0 <= i < all.len() implies mark((#[trigger] all[i]).0) == mark(
            all[i].1,
        ) by {
            if i < rest.len() {
                assert(all[i] == rest[i]);
            }
        }
    }
}

proof fn lemma_merges_account(accounts: Seq<Account>, payments: Seq<Payment>, links: Seq<Link>)
    ensures
        respects(merges(accounts, payments, links), |k: NodeKey| k.account as int),
    decreases links.len(),
{
    if links.len() > 0 {
        let mark = |k: NodeKey| k.account as int;
        lemma_merges_account(accounts, payments, links.drop_last());
        let rest = merges(accounts, payments, links.drop_last());
        let l = links.last();
        let la = flow_of(accounts, payments, l.from);
        let lb = flow_of(accounts, payments, l.to);
        lemma_link_merges_account(accounts, l.from, la, l.to, lb);
        let own = link_merges(accounts, l.from, la, l.to, lb);
        let all = merges(accounts, payments, links);
        assert forall|i: int| 0 <= i < all.len() implies mark((#[trigger] all[i]).0) == mark(
            all[i].1,
        ) by {
            if i < rest.len() {
                assert(all[i] == rest[i]);
            } else {
                assert(all[i] == own[i - rest.len()]);
            }
        }
    }
}

/// A node is a visit to one account: what links make one is always visits to the same account.
pub proof fn law_a_node_is_of_one_account(
    accounts: Seq<Account>,
    payments: Seq<Payment>,
    links: Seq<Link>,
    k: NodeKey,
)
    ensures
        stands_for(merges(accounts, payments, links), k).account == k.account,
{
    lemma_merges_account(accounts, payments, links);
    lemma_marks_agree(
        merges(accounts, payments, links),
        |k: NodeKey| k.account as int,
        k,
    );
}

/// Without links every payment keeps its own visits.
pub proof fn law_unlinked_payments_keep_their_own_visits(
    accounts: Seq<Account>,
    payments: Seq<Payment>,
    a: i64,
    b: i64,
    account: i64,
)
    requires
        a != b,
    ensures
        stands_for(merges(accounts, payments, Seq::empty()), key_of(accounts, a, account))
            == stands_for(merges(accounts, payments, Seq::empty()), key_of(accounts, b, account))
            <==> is_shared(kind_in(accounts, account)),
{
}

} // verus!
