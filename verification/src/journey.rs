//! Journeys: one movement of money, many hops.
//!
//! A transfer between two accounts needs no journey -- double entry already ties both sides of a
//! single transaction together. A journey exists for the case double entry cannot express on its
//! own: money that takes several transactions to arrive. Each hop is its own transaction with its
//! own date; the journey is what says they are one story.
//!
//! The residual is the point. At any moment a journey's legs may not have arrived yet, and the
//! difference between what has left the source and what has reached the terminus is money in flight.
//! If it is not nothing after the journey closes, something went missing: a fee that was not
//! recorded, or a leg that was not attached.

use crate::digits::{int_digits, int_text};
use crate::lists::{first, lemma_first, lemma_first_is};
use crate::paths::holds;
use crate::residual::{are_residuals, in_order, nets_fit, residuals, By, PostingRow, Residual};
use crate::sorting::{in_rank, law_ranking_keeps_everything_and_orders_it, orders, rank, ranked, Ranked};
use crate::text::{
    lemma_text_irreflexive, lemma_text_total, lemma_text_transitive, str_eq, text_less, text_lt,
};
use vstd::prelude::*;

verus! {

broadcast use vstd::string::group_string_axioms;

/// Why a journey was refused.
#[derive(Debug, PartialEq, Eq)]
pub enum JourneyError {
    NotFound(i64),
    NoSuchTxn(i64),
    /// What an account is left with leaves the range of an amount.
    OutOfRange(i64),
}

impl JourneyError {
    /// The message, as a sequence of characters.
    pub open spec fn text(self) -> Seq<char> {
        match self {
            JourneyError::NotFound(id) => "no such journey: "@ + int_digits(id as int),
            JourneyError::NoSuchTxn(id) => "no such transaction: "@ + int_digits(id as int),
            JourneyError::OutOfRange(id) => "amount out of range in journey: "@ + int_digits(
                id as int,
            ),
        }
    }

    /// The message a person reads.
    pub fn to_text(&self) -> (r: String)
        ensures
            r@ == self.text(),
    {
        let (mut out, id): (String, i64) = match self {
            JourneyError::NotFound(id) => ("no such journey: ".to_string(), *id),
            JourneyError::NoSuchTxn(id) => ("no such transaction: ".to_string(), *id),
            JourneyError::OutOfRange(id) => ("amount out of range in journey: ".to_string(), *id),
        };
        let n = int_text(id as i128);
        out.append(n.as_str());
        out
    }
}

/// A transaction's place in a journey.
#[derive(Debug, Clone)]
pub struct Member {
    pub journey_id: i64,
    pub txn_id: i64,
    /// Orders the legs.
    pub seq: i64,
    /// Which end it is.
    pub role: String,
}

/// The content of a membership.
pub struct MemberView {
    pub journey_id: i64,
    pub txn_id: i64,
    pub seq: i64,
    pub role: Seq<char>,
}

impl View for Member {
    type V = MemberView;

    open spec fn view(&self) -> MemberView {
        MemberView {
            journey_id: self.journey_id,
            txn_id: self.txn_id,
            seq: self.seq,
            role: self.role@,
        }
    }
}

/// The contents of memberships.
pub open spec fn member_views(v: Seq<Member>) -> Seq<MemberView> {
    v.map_values(|m: Member| m@)
}

/// Whether the membership at a place is of this transaction in this journey.
pub open spec fn is_member(v: Seq<MemberView>, journey: i64, txn: i64) -> spec_fn(int) -> bool {
    |i: int| v[i].journey_id == journey && v[i].txn_id == txn
}

/// The place of a transaction's membership in a journey, or the number of memberships.
pub open spec fn place_in(v: Seq<MemberView>, journey: i64, txn: i64) -> int {
    first(v.len() as int, is_member(v, journey, txn))
}

/// Memberships with one put in: in place of the transaction's former one in that journey, if there
/// is one.
pub open spec fn attached(v: Seq<MemberView>, m: MemberView) -> Seq<MemberView> {
    let at = place_in(v, m.journey_id, m.txn_id);
    if at < v.len() {
        v.update(at, m)
    } else {
        v.push(m)
    }
}

/// Memberships with one taken out.
pub open spec fn detached(v: Seq<MemberView>, journey: i64, txn: i64) -> Seq<MemberView> {
    let at = place_in(v, journey, txn);
    if at < v.len() {
        v.remove(at)
    } else {
        v
    }
}

/// Whether each transaction is in each journey once at most.
pub open spec fn once_each(v: Seq<MemberView>) -> bool {
    forall|i: int, j: int|
        0 <= i < j < v.len() ==> !((#[trigger] v[i]).journey_id == (#[trigger] v[j]).journey_id
            && v[i].txn_id == v[j].txn_id)
}

fn find_member(members: &Vec<Member>, journey: i64, txn: i64) -> (r: Option<usize>)
    ensures
        match r {
            Some(i) => i < members@.len() && place_in(member_views(members@), journey, txn) == i,
            None => place_in(member_views(members@), journey, txn) == members@.len(),
        },
{
    let ghost all = member_views(members@);
    let mut i: usize = 0;
    while i < members.len()
        invariant
            i <= members@.len(),
            all == member_views(members@),
            forall|j: int| 0 <= j < i ==> !#[trigger] is_member(all, journey, txn)(j),
        decreases members@.len() - i,
    {
        if members[i].journey_id == journey && members[i].txn_id == txn {
            proof {
                lemma_first(all.len() as int, is_member(all, journey, txn), i as int);
            }
            return Some(i);
        }
        i = i + 1;
    }
    proof {
        lemma_first(all.len() as int, is_member(all, journey, txn), i as int);
    }
    None
}

/// Attach a transaction as a hop. `seq` orders the legs; `role` marks which end it is. Attaching it
/// again updates its place rather than adding another.
pub fn attach(
    journeys: &Vec<i64>,
    txns: &Vec<i64>,
    members: &mut Vec<Member>,
    journey_id: i64,
    txn_id: i64,
    seq: i64,
    role: &str,
) -> (r: Result<(), JourneyError>)
    ensures
        r == (if !journeys@.contains(journey_id) {
            Err::<(), JourneyError>(JourneyError::NotFound(journey_id))
        } else if !txns@.contains(txn_id) {
            Err(JourneyError::NoSuchTxn(txn_id))
        } else {
            Ok(())
        }),
        member_views(final(members)@) == (if r is Ok {
            attached(
                member_views(old(members)@),
                (MemberView { journey_id, txn_id, seq, role: role@ }),
            )
        } else {
            member_views(old(members)@)
        }),
{
    if !holds(journeys, journey_id) {
        return Err(JourneyError::NotFound(journey_id));
    }
    if !holds(txns, txn_id) {
        return Err(JourneyError::NoSuchTxn(txn_id));
    }
    let ghost before = member_views(members@);
    let m = Member { journey_id, txn_id, seq, role: role.to_string() };
    let ghost now = attached(before, m@);
    match find_member(members, journey_id, txn_id) {
        Some(i) => {
            members.set(i, m);
            assert(member_views(members@) =~= now);
        },
        None => {
            members.push(m);
            assert(member_views(members@) =~= now);
        },
    }
    Ok(())
}

/// Take a transaction out of a journey; whether it was in it.
pub fn detach(members: &mut Vec<Member>, journey_id: i64, txn_id: i64) -> (r: bool)
    ensures
        member_views(final(members)@) == detached(
            member_views(old(members)@),
            journey_id,
            txn_id,
        ),
        r == (place_in(member_views(old(members)@), journey_id, txn_id) < old(members)@.len()),
{
    let ghost before = member_views(members@);
    match find_member(members, journey_id, txn_id) {
        Some(i) => {
            members.remove(i);
            assert(member_views(members@) =~= detached(before, journey_id, txn_id));
            true
        },
        None => false,
    }
}

/// Attaching twice does not duplicate, and detaching leaves no trace: each transaction stays in each
/// journey once at most.
pub proof fn law_a_transaction_is_in_a_journey_once(
    v: Seq<MemberView>,
    m: MemberView,
    journey: i64,
    txn: i64,
)
    requires
        once_each(v),
    ensures
        once_each(attached(v, m)),
        once_each(detached(v, journey, txn)),
        place_in(detached(v, journey, txn), journey, txn) == detached(v, journey, txn).len(),
{
    lemma_first_is(v.len() as int, is_member(v, m.journey_id, m.txn_id));
    lemma_first_is(v.len() as int, is_member(v, journey, txn));
    let a = attached(v, m);
    let at = place_in(v, m.journey_id, m.txn_id);
    assert forall|i: int, j: int| 0 <= i < j < a.len() implies !((#[trigger] a[i]).journey_id == (
    #[trigger] a[j]).journey_id && a[i].txn_id == a[j].txn_id) by {
        if at < v.len() {
            assert(is_member(v, m.journey_id, m.txn_id)(at));
            assert(!(v[i].journey_id == v[j].journey_id && v[i].txn_id == v[j].txn_id));
        } else if j == v.len() {
            assert(!is_member(v, m.journey_id, m.txn_id)(i));
        } else {
            assert(!(v[i].journey_id == v[j].journey_id && v[i].txn_id == v[j].txn_id));
        }
    }
    let d = detached(v, journey, txn);
    let gone = place_in(v, journey, txn);
    assert forall|i: int, j: int| 0 <= i < j < d.len() implies !((#[trigger] d[i]).journey_id == (
    #[trigger] d[j]).journey_id && d[i].txn_id == d[j].txn_id) by {
        let x = if i < gone {
            i
        } else {
            i + 1
        };
        let y = if j < gone {
            j
        } else {
            j + 1
        };
        if gone < v.len() {
            assert(!(v[x].journey_id == v[y].journey_id && v[x].txn_id == v[y].txn_id));
        }
    }
    assert forall|i: int| 0 <= i < d.len() implies !#[trigger] is_member(d, journey, txn)(i) by {
        if gone < v.len() {
            assert(is_member(v, journey, txn)(gone));
            if i < gone {
                assert(!is_member(v, journey, txn)(i));
            } else {
                assert(!(v[gone].journey_id == v[i + 1].journey_id && v[gone].txn_id == v[i
                    + 1].txn_id));
            }
        } else {
            assert(!is_member(v, journey, txn)(i));
        }
    }
    lemma_first(d.len() as int, is_member(d, journey, txn), d.len() as int);
}

/// Close a journey of the book.
pub fn close(journeys: &Vec<i64>, journey_id: i64) -> (r: Result<(), JourneyError>)
    ensures
        r == (if journeys@.contains(journey_id) {
            Ok::<(), JourneyError>(())
        } else {
            Err(JourneyError::NotFound(journey_id))
        }),
{
    if !holds(journeys, journey_id) {
        return Err(JourneyError::NotFound(journey_id));
    }
    Ok(())
}

/// A transaction of the book, as a journey tells it.
#[derive(Debug, Clone)]
pub struct TxnRow {
    pub id: i64,
    pub occurred_on: String,
    pub description: String,
}

/// A leg of a journey.
#[derive(Debug, Clone)]
pub struct JourneyLeg {
    pub seq: i64,
    pub role: String,
    pub txn_id: i64,
    pub occurred_on: String,
    pub description: String,
}

impl Ranked for JourneyLeg {
    /// By sequence, then by date, then by transaction.
    open spec fn before(&self, other: &JourneyLeg) -> bool {
        ||| self.seq < other.seq
        ||| self.seq == other.seq && text_lt(self.occurred_on@, other.occurred_on@)
        ||| self.seq == other.seq && self.occurred_on@ == other.occurred_on@ && self.txn_id
            < other.txn_id
    }

    fn comes_before(&self, other: &JourneyLeg) -> (r: bool) {
        self.seq < other.seq || (self.seq == other.seq && text_less(
            self.occurred_on.as_str(),
            other.occurred_on.as_str(),
        )) || (self.seq == other.seq && str_eq(
            self.occurred_on.as_str(),
            other.occurred_on.as_str(),
        ) && self.txn_id < other.txn_id)
    }
}

/// Whether the transaction at a place has this id.
pub open spec fn is_txn(txns: Seq<TxnRow>, id: i64) -> spec_fn(int) -> bool {
    |i: int| txns[i].id == id
}

/// The place of a transaction, or the number of transactions.
pub open spec fn txn_place(txns: Seq<TxnRow>, id: i64) -> int {
    first(txns.len() as int, is_txn(txns, id))
}

/// Whether a leg is that of a membership whose transaction is in the book.
pub open spec fn is_leg(l: JourneyLeg, m: Member, txns: Seq<TxnRow>) -> bool {
    let at = txn_place(txns, m.txn_id);
    &&& at < txns.len()
    &&& l.seq == m.seq
    &&& l.role@ == m.role@
    &&& l.txn_id == m.txn_id
    &&& l.occurred_on@ == txns[at].occurred_on@
    &&& l.description@ == txns[at].description@
}

/// The memberships of a journey whose transactions are in the book.
pub open spec fn hops(members: Seq<Member>, txns: Seq<TxnRow>, journey: i64) -> Seq<Member>
    decreases members.len(),
{
    if members.len() == 0 {
        Seq::empty()
    } else {
        let rest = hops(members.drop_last(), txns, journey);
        let m = members.last();
        if m.journey_id == journey && txn_place(txns, m.txn_id) < txns.len() {
            rest.push(m)
        } else {
            rest
        }
    }
}

/// Whether legs are those of memberships, one for one.
pub open spec fn are_legs(legs: Seq<JourneyLeg>, from: Seq<Member>, txns: Seq<TxnRow>) -> bool {
    legs.len() == from.len() && forall|i: int|
        0 <= i < legs.len() ==> is_leg(#[trigger] legs[i], from[i], txns)
}

/// The transactions of legs.
pub open spec fn leg_txns(from: Seq<Member>) -> Seq<i64> {
    from.map_values(|m: Member| m.txn_id)
}

fn find_txn(txns: &Vec<TxnRow>, id: i64) -> (r: Option<usize>)
    ensures
        match r {
            Some(i) => i < txns@.len() && txn_place(txns@, id) == i,
            None => txn_place(txns@, id) == txns@.len(),
        },
{
    let mut i: usize = 0;
    while i < txns.len()
        invariant
            i <= txns@.len(),
            forall|j: int| 0 <= j < i ==> !#[trigger] is_txn(txns@, id)(j),
        decreases txns@.len() - i,
    {
        if txns[i].id == id {
            proof {
                lemma_first(txns@.len() as int, is_txn(txns@, id), i as int);
            }
            return Some(i);
        }
        i = i + 1;
    }
    proof {
        lemma_first(txns@.len() as int, is_txn(txns@, id), i as int);
    }
    None
}

/// The story of a journey: its legs in order, and what is still in flight.
#[derive(Debug, Clone)]
pub struct Story {
    pub legs: Vec<JourneyLeg>,
    pub residual: Vec<Residual>,
}

/// Whether a story is that of a journey. Its residual is the net movement per account across every
/// leg: a completed journey leaves the accounts it passes through at nothing; whatever remains is in
/// flight, or a fee that was never recorded.
pub open spec fn tells(
    s: Story,
    members: Seq<Member>,
    txns: Seq<TxnRow>,
    postings: Seq<PostingRow>,
    journey: i64,
) -> bool {
    let from = hops(members, txns, journey);
    &&& exists|legs: Seq<JourneyLeg>| #[trigger]
        are_legs(legs, from, txns) && s.legs@ == ranked(legs)
    &&& are_residuals(s.residual@, postings, leg_txns(from))
    &&& in_order(s.residual@, By::Name)
}

/// The whole story of one journey: its legs in order, and what is still in flight.
pub fn get(
    journeys: &Vec<i64>,
    members: &Vec<Member>,
    txns: &Vec<TxnRow>,
    postings: &Vec<PostingRow>,
    journey_id: i64,
) -> (r: Result<Story, JourneyError>)
    ensures
        match r {
            Ok(s) => journeys@.contains(journey_id) && tells(
                s,
                members@,
                txns@,
                postings@,
                journey_id,
            ),
            Err(JourneyError::NotFound(id)) => !journeys@.contains(journey_id) && id == journey_id,
            Err(JourneyError::OutOfRange(id)) => journeys@.contains(journey_id) && id == journey_id
                && !nets_fit(postings@, leg_txns(hops(members@, txns@, journey_id))),
            Err(_) => false,
        },
{
    if !holds(journeys, journey_id) {
        return Err(JourneyError::NotFound(journey_id));
    }
    let mut legs: Vec<JourneyLeg> = Vec::new();
    let mut ids: Vec<i64> = Vec::new();
    let mut i: usize = 0;
    assert(leg_txns(hops(members@.take(0), txns@, journey_id)) =~= Seq::<i64>::empty());
    while i < members.len()
        invariant
            journeys@.contains(journey_id),
            i <= members@.len(),
            are_legs(legs@, hops(members@.take(i as int), txns@, journey_id), txns@),
            ids@ == leg_txns(hops(members@.take(i as int), txns@, journey_id)),
        decreases members@.len() - i,
    {
        let ghost before = hops(members@.take(i as int), txns@, journey_id);
        proof {
            assert(members@.take(i + 1).drop_last() =~= members@.take(i as int));
        }
        let m = &members[i];
        if m.journey_id == journey_id {
            if let Some(k) = find_txn(txns, m.txn_id) {
                let l = JourneyLeg {
                    seq: m.seq,
                    role: m.role.clone(),
                    txn_id: m.txn_id,
                    occurred_on: txns[k].occurred_on.clone(),
                    description: txns[k].description.clone(),
                };
                assert(is_leg(l, *m, txns@));
                legs.push(l);
                ids.push(m.txn_id);
                assert(leg_txns(before.push(*m)) =~= leg_txns(before).push(m.txn_id));
            }
        }
        i = i + 1;
    }
    assert(members@.take(members@.len() as int) =~= members@);
    let residual = match residuals(postings, &ids, By::Name) {
        Some(v) => v,
        None => {
            return Err(JourneyError::OutOfRange(journey_id));
        },
    };
    let ghost made = legs@;
    assert(are_legs(made, hops(members@, txns@, journey_id), txns@));
    let legs = rank(legs);
    Ok(Story { legs, residual })
}

proof fn lemma_leg_order(a: JourneyLeg, b: JourneyLeg, c: JourneyLeg)
    ensures
        a.before(&b) ==> !b.before(&a),
        a.before(&b) && !c.before(&b) ==> a.before(&c),
{
    let (x, y, z) = (a.occurred_on@, b.occurred_on@, c.occurred_on@);
    lemma_text_irreflexive(x);
    lemma_text_irreflexive(y);
    if text_lt(x, y) && text_lt(y, x) {
        lemma_text_transitive(x, y, x);
    }
    lemma_text_total(y, z);
    if text_lt(x, y) && text_lt(y, z) {
        lemma_text_transitive(x, y, z);
    }
}

/// The legs of a journey come back in the order of their sequence, whatever the order in which they
/// were attached.
pub proof fn law_legs_come_back_in_sequence(
    s: Story,
    members: Seq<Member>,
    txns: Seq<TxnRow>,
    postings: Seq<PostingRow>,
    journey: i64,
)
    requires
        tells(s, members, txns, postings, journey),
    ensures
        forall|i: int, j: int|
            0 <= i < j < s.legs@.len() ==> (#[trigger] s.legs@[i]).seq <= (
            #[trigger] s.legs@[j]).seq,
        s.legs@.len() == hops(members, txns, journey).len(),
{
    let from = hops(members, txns, journey);
    let legs = choose|legs: Seq<JourneyLeg>| #[trigger]
        are_legs(legs, from, txns) && s.legs@ == ranked(legs);
    assert(orders::<JourneyLeg>()) by {
        assert forall|a: JourneyLeg, b: JourneyLeg| #[trigger] a.before(&b) implies !b.before(
            &a,
        ) by {
            lemma_leg_order(a, b, a);
        }
        assert forall|a: JourneyLeg, b: JourneyLeg, c: JourneyLeg| #[trigger]
            a.before(&b) && !(#[trigger] c.before(&b)) implies a.before(&c) by {
            lemma_leg_order(a, b, c);
        }
    }
    law_ranking_keeps_everything_and_orders_it(legs);
    assert(in_rank(s.legs@));
}

/// A journey, as the book holds it.
#[derive(Debug, Clone)]
pub struct Journey {
    pub id: i64,
    pub label: String,
    pub opened_on: String,
    pub closed_on: Option<String>,
}

impl Ranked for Journey {
    /// The last opened first, then the last made.
    open spec fn before(&self, other: &Journey) -> bool {
        text_lt(other.opened_on@, self.opened_on@) || (self.opened_on@ == other.opened_on@ && self.id
            > other.id)
    }

    fn comes_before(&self, other: &Journey) -> (r: bool) {
        text_less(other.opened_on.as_str(), self.opened_on.as_str()) || (str_eq(
            self.opened_on.as_str(),
            other.opened_on.as_str(),
        ) && self.id > other.id)
    }
}

/// How many memberships a journey has.
pub open spec fn leg_count(members: Seq<Member>, journey: i64) -> int
    decreases members.len(),
{
    if members.len() == 0 {
        0
    } else {
        leg_count(members.drop_last(), journey) + (if members.last().journey_id == journey {
            1int
        } else {
            0
        })
    }
}

fn count_legs(members: &Vec<Member>, journey: i64) -> (r: usize)
    ensures
        r == leg_count(members@, journey),
{
    let mut n: usize = 0;
    let mut i: usize = 0;
    while i < members.len()
        invariant
            i <= members@.len(),
            n <= i,
            n == leg_count(members@.take(i as int), journey),
        decreases members@.len() - i,
    {
        assert(members@.take(i + 1).drop_last() =~= members@.take(i as int));
        if members[i].journey_id == journey {
            n = n + 1;
        }
        i = i + 1;
    }
    assert(members@.take(members@.len() as int) =~= members@);
    n
}

/// Every journey, the last opened first, and how many legs each has.
pub fn list(journeys: Vec<Journey>, members: &Vec<Member>) -> (r: (Vec<Journey>, Vec<usize>))
    ensures
        r.0@ == ranked(journeys@),
        r.1@.len() == r.0@.len(),
        forall|i: int|
            0 <= i < r.0@.len() ==> #[trigger] r.1@[i] == leg_count(members@, r.0@[i].id),
{
    let heads = rank(journeys);
    let mut counts: Vec<usize> = Vec::new();
    let mut i: usize = 0;
    while i < heads.len()
        invariant
            i <= heads@.len(),
            counts@.len() == i,
            forall|j: int|
                0 <= j < i ==> #[trigger] counts@[j] == leg_count(members@, heads@[j].id),
        decreases heads@.len() - i,
    {
        counts.push(count_legs(members, heads[i].id));
        i = i + 1;
    }
    (heads, counts)
}

/// The memberships of a transaction.
pub open spec fn of_txn(members: Seq<MemberView>, txn: i64) -> Seq<MemberView>
    decreases members.len(),
{
    if members.len() == 0 {
        Seq::empty()
    } else if members.last().txn_id == txn {
        of_txn(members.drop_last(), txn).push(members.last())
    } else {
        of_txn(members.drop_last(), txn)
    }
}

impl Ranked for Member {
    /// By journey.
    open spec fn before(&self, other: &Member) -> bool {
        self.journey_id < other.journey_id
    }

    fn comes_before(&self, other: &Member) -> (r: bool) {
        self.journey_id < other.journey_id
    }
}

/// Every journey a transaction belongs to, in the order of the journeys. A transaction may be part of
/// more than one.
pub fn for_txn(members: &Vec<Member>, txn_id: i64) -> (r: Vec<Member>)
    ensures
        exists|own: Seq<Member>|
            #![trigger ranked(own)]
            member_views(own) == of_txn(member_views(members@), txn_id) && r@ == ranked(own),
{
    let ghost all = member_views(members@);
    let mut out: Vec<Member> = Vec::new();
    let mut i: usize = 0;
    assert(all.take(0) =~= Seq::<MemberView>::empty());
    assert(member_views(out@) =~= Seq::<MemberView>::empty());
    while i < members.len()
        invariant
            i <= members@.len(),
            all == member_views(members@),
            member_views(out@) == of_txn(all.take(i as int), txn_id),
        decreases members@.len() - i,
    {
        assert(all.take(i + 1).drop_last() =~= all.take(i as int));
        assert(all.take(i + 1).last() == members@[i as int]@);
        let m = &members[i];
        if m.txn_id == txn_id {
            let c = Member {
                journey_id: m.journey_id,
                txn_id: m.txn_id,
                seq: m.seq,
                role: m.role.clone(),
            };
            assert(member_views(out@.push(c)) =~= member_views(out@).push(c@));
            out.push(c);
        }
        i = i + 1;
    }
    assert(all.take(all.len() as int) =~= all);
    let ghost own = out@;
    let r = rank(out);
    assert(r@ == ranked(own));
    r
}

} // verus!
