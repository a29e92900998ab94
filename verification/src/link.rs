//! Free-form links between transactions, and the graph one gets by following them.
//!
//! A journey is a container; this is a graph. It holds the assertion "that payment led to this one",
//! made between any two transactions after the fact. There is no container to create first and no
//! sequence to get right: one links what one notices, when one notices it.
//!
//! Links are directed, so that a chain can be drawn with arrows, and followed undirected, so that it
//! does not matter which end one starts from. Direction is information worth keeping, but it must
//! never determine what can be reached.

use crate::digits::{int_digits, int_text};
use crate::paths::{
    holds, joins, joins_at, lemma_push_contains, lemma_reach_last, lemma_reach_on, lemma_reach_self,
    lemma_reach_symmetric, lemma_reach_transitive, lemma_with_id, put, reach, with_id,
};
use crate::residual::{are_residuals, in_order, nets_fit, residuals, By, PostingRow, Residual};
use crate::text::opt_view;
use vstd::prelude::*;

verus! {

broadcast use vstd::string::group_string_axioms;

/// Why a link was refused.
#[derive(Debug, PartialEq, Eq)]
pub enum LinkError {
    NoSuchTxn(i64),
    SelfLink,
    Exists(i64, i64),
    Unexpected(String),
}

impl LinkError {
    /// The message, as a sequence of characters.
    pub open spec fn text(self) -> Seq<char> {
        match self {
            LinkError::NoSuchTxn(id) => "no such transaction: "@ + int_digits(id as int),
            LinkError::SelfLink => "a payment cannot link to itself"@,
            LinkError::Exists(a, b) => int_digits(a as int) + " is already linked to "@
                + int_digits(b as int),
            LinkError::Unexpected(m) => m@,
        }
    }

    /// The message a person reads.
    pub fn to_text(&self) -> (r: String)
        ensures
            r@ == self.text(),
    {
        match self {
            LinkError::NoSuchTxn(id) => {
                let mut out = "no such transaction: ".to_string();
                let n = int_text(*id as i128);
                out.append(n.as_str());
                out
            },
            LinkError::SelfLink => "a payment cannot link to itself".to_string(),
            LinkError::Exists(a, b) => {
                let mut out = int_text(*a as i128);
                out.append(" is already linked to ");
                let n = int_text(*b as i128);
                out.append(n.as_str());
                out
            },
            LinkError::Unexpected(m) => m.clone(),
        }
    }
}

/// A link from one transaction to another.
#[derive(Debug, Clone)]
pub struct Link {
    pub from: i64,
    pub to: i64,
    pub note: Option<String>,
}

/// The content of a link.
pub struct LinkView {
    pub from: i64,
    pub to: i64,
    pub note: Option<Seq<char>>,
}

impl View for Link {
    type V = LinkView;

    open spec fn view(&self) -> LinkView {
        LinkView { from: self.from, to: self.to, note: opt_view(self.note) }
    }
}

/// The contents of links.
pub open spec fn link_views(links: Seq<Link>) -> Seq<LinkView> {
    links.map_values(|l: Link| l@)
}

/// The ends of links.
pub open spec fn ends(links: Seq<Link>) -> Seq<(i64, i64)> {
    links.map_values(|l: Link| (l.from, l.to))
}

fn copy_note(note: &Option<String>) -> (r: Option<String>)
    ensures
        opt_view(r) == opt_view(*note),
{
    match note {
        Some(s) => Some(s.clone()),
        None => None,
    }
}

fn copy_link(l: &Link) -> (r: Link)
    ensures
        r@ == l@,
{
    Link { from: l.from, to: l.to, note: copy_note(&l.note) }
}

fn linked(links: &Vec<Link>, a: i64, b: i64) -> (r: bool)
    ensures
        r == joins(ends(links@), a, b),
{
    let mut i: usize = 0;
    while i < links.len()
        invariant
            i <= links@.len(),
            forall|j: int| 0 <= j < i ==> !joins_at(#[trigger] ends(links@)[j], a, b),
        decreases links@.len() - i,
    {
        let l = &links[i];
        if (l.from == a && l.to == b) || (l.from == b && l.to == a) {
            assert(joins_at(ends(links@)[i as int], a, b));
            return true;
        }
        i = i + 1;
    }
    false
}

/// Whether a link may be made between two transactions of the book.
///
/// A link in either direction is the same assertion, so making it again reversed is a duplicate
/// rather than a new fact. It is reported rather than silently ignored.
pub fn create(txns: &Vec<i64>, links: &Vec<Link>, from: i64, to: i64) -> (r: Result<(), LinkError>)
    ensures
        r == (if from == to {
            Err::<(), LinkError>(LinkError::SelfLink)
        } else if !txns@.contains(from) {
            Err(LinkError::NoSuchTxn(from))
        } else if !txns@.contains(to) {
            Err(LinkError::NoSuchTxn(to))
        } else if joins(ends(links@), from, to) {
            Err(LinkError::Exists(from, to))
        } else {
            Ok(())
        }),
{
    if from == to {
        return Err(LinkError::SelfLink);
    }
    if !holds(txns, from) {
        return Err(LinkError::NoSuchTxn(from));
    }
    if !holds(txns, to) {
        return Err(LinkError::NoSuchTxn(to));
    }
    if linked(links, from, to) {
        return Err(LinkError::Exists(from, to));
    }
    Ok(())
}

/// The links that do not join `a` and `b`.
pub open spec fn without(links: Seq<LinkView>, a: i64, b: i64) -> Seq<LinkView>
    decreases links.len(),
{
    if links.len() == 0 {
        links
    } else {
        let rest = without(links.drop_last(), a, b);
        if joins_at((links.last().from, links.last().to), a, b) {
            rest
        } else {
            rest.push(links.last())
        }
    }
}

/// Remove the link in whichever direction it was recorded: the caller should not have to know.
pub fn remove(links: &mut Vec<Link>, a: i64, b: i64) -> (r: bool)
    ensures
        link_views(final(links)@) == without(link_views(old(links)@), a, b),
        r == joins(ends(old(links)@), a, b),
{
    let r = linked(links, a, b);
    let mut kept: Vec<Link> = Vec::new();
    let ghost all = link_views(links@);
    let mut i: usize = 0;
    assert(all.take(0) =~= Seq::<LinkView>::empty());
    assert(link_views(kept@) =~= Seq::<LinkView>::empty());
    while i < links.len()
        invariant
            i <= links@.len(),
            links@ == old(links)@,
            all == link_views(links@),
            link_views(kept@) == without(all.take(i as int), a, b),
        decreases links@.len() - i,
    {
        assert(all.take(i + 1).drop_last() =~= all.take(i as int));
        assert(all.take(i + 1).last() == links@[i as int]@);
        let l = &links[i];
        if !((l.from == a && l.to == b) || (l.from == b && l.to == a)) {
            let c = copy_link(l);
            assert(link_views(kept@.push(c)) =~= link_views(kept@).push(c@));
            kept.push(c);
        }
        i = i + 1;
    }
    assert(all.take(all.len() as int) =~= all);
    *links = kept;
    r
}

/// The ends of the links that do not join `a` and `b`.
pub open spec fn pairs(links: Seq<LinkView>) -> Seq<(i64, i64)> {
    links.map_values(|l: LinkView| (l.from, l.to))
}

/// What is removed is gone whichever way it pointed, and every other link is still there.
pub proof fn law_removing_a_link_removes_it_both_ways(
    links: Seq<LinkView>,
    a: i64,
    b: i64,
    c: i64,
    d: i64,
)
    ensures
        !joins(pairs(without(links, a, b)), a, b),
        !joins(pairs(without(links, a, b)), b, a),
        !joins_at((c, d), a, b) ==> joins(pairs(without(links, a, b)), c, d) == joins(
            pairs(links),
            c,
            d,
        ),
    decreases links.len(),
{
    let w = without(links, a, b);
    if links.len() > 0 {
        let rest = links.drop_last();
        let l = links.last();
        law_removing_a_link_removes_it_both_ways(rest, a, b, c, d);
        assert(links =~= rest.push(l));
        lemma_joins_push(rest, l, c, d);
        if !joins_at((l.from, l.to), a, b) {
            let wr = without(rest, a, b);
            lemma_joins_push(wr, l, a, b);
            lemma_joins_push(wr, l, b, a);
            lemma_joins_push(wr, l, c, d);
        }
    }
}

proof fn lemma_joins_push(links: Seq<LinkView>, l: LinkView, a: i64, b: i64)
    ensures
        joins(pairs(links.push(l)), a, b) == (joins(pairs(links), a, b) || joins_at(
            (l.from, l.to),
            a,
            b,
        )),
{
    let p = pairs(links);
    let q = pairs(links.push(l));
    if joins(p, a, b) {
        let i = choose|i: int| 0 <= i < p.len() && joins_at(#[trigger] p[i], a, b);
        assert(q[i] == p[i]);
    }
    if joins_at((l.from, l.to), a, b) {
        assert(q[links.len() as int] == (l.from, l.to));
    }
    if joins(q, a, b) {
        let i = choose|i: int| 0 <= i < q.len() && joins_at(#[trigger] q[i], a, b);
        if i < links.len() {
            assert(p[i] == q[i]);
        }
    }
}

/// A transaction directly linked to another, and which way the link points from there.
#[derive(Debug, Clone)]
pub struct Neighbour {
    pub txn_id: i64,
    /// Whether the link leads away, rather than here.
    pub out: bool,
    pub note: Option<String>,
}

/// The content of a neighbour.
pub struct NeighbourView {
    pub txn_id: i64,
    pub out: bool,
    pub note: Option<Seq<char>>,
}

impl View for Neighbour {
    type V = NeighbourView;

    open spec fn view(&self) -> NeighbourView {
        NeighbourView { txn_id: self.txn_id, out: self.out, note: opt_view(self.note) }
    }
}

/// The contents of neighbours.
pub open spec fn neighbour_views(v: Seq<Neighbour>) -> Seq<NeighbourView> {
    v.map_values(|n: Neighbour| n@)
}

/// The neighbours that a transaction's links lead to, or that lead to it.
pub open spec fn one_way(links: Seq<LinkView>, id: i64, out: bool) -> Seq<NeighbourView>
    decreases links.len(),
{
    if links.len() == 0 {
        Seq::empty()
    } else {
        let rest = one_way(links.drop_last(), id, out);
        let l = links.last();
        if out && l.from == id {
            rest.push(NeighbourView { txn_id: l.to, out, note: l.note })
        } else if !out && l.to == id {
            rest.push(NeighbourView { txn_id: l.from, out, note: l.note })
        } else {
            rest
        }
    }
}

fn collect_one_way(links: &Vec<Link>, id: i64, out: bool, to: &mut Vec<Neighbour>)
    ensures
        neighbour_views(final(to)@) == neighbour_views(old(to)@) + one_way(
            link_views(links@),
            id,
            out,
        ),
{
    let ghost all = link_views(links@);
    let ghost start = neighbour_views(to@);
    let mut i: usize = 0;
    assert(all.take(0) =~= Seq::<LinkView>::empty());
    assert(start + one_way(all.take(0), id, out) =~= start);
    while i < links.len()
        invariant
            i <= links@.len(),
            all == link_views(links@),
            start == neighbour_views(old(to)@),
            neighbour_views(to@) == start + one_way(all.take(i as int), id, out),
        decreases links@.len() - i,
    {
        assert(all.take(i + 1).drop_last() =~= all.take(i as int));
        assert(all.take(i + 1).last() == links@[i as int]@);
        let l = &links[i];
        if out && l.from == id {
            let n = Neighbour { txn_id: l.to, out, note: copy_note(&l.note) };
            assert(neighbour_views(to@.push(n)) =~= neighbour_views(to@).push(n@));
            to.push(n);
        } else if !out && l.to == id {
            let n = Neighbour { txn_id: l.from, out, note: copy_note(&l.note) };
            assert(neighbour_views(to@.push(n)) =~= neighbour_views(to@).push(n@));
            to.push(n);
        }
        i = i + 1;
        assert(neighbour_views(to@) =~= start + one_way(all.take(i as int), id, out));
    }
    assert(all.take(all.len() as int) =~= all);
}

/// Everything directly linked to one transaction: where its links lead, then what leads to it.
pub fn for_txn(links: &Vec<Link>, txn_id: i64) -> (r: Vec<Neighbour>)
    ensures
        neighbour_views(r@) == one_way(link_views(links@), txn_id, true) + one_way(
            link_views(links@),
            txn_id,
            false,
        ),
{
    let mut out: Vec<Neighbour> = Vec::new();
    assert(neighbour_views(out@) =~= Seq::<NeighbourView>::empty());
    collect_one_way(links, txn_id, true, &mut out);
    collect_one_way(links, txn_id, false, &mut out);
    assert(Seq::<NeighbourView>::empty() + one_way(link_views(links@), txn_id, true) =~= one_way(
        link_views(links@),
        txn_id,
        true,
    ));
    out
}

/// The transactions directly linked to one, in order of their ids, each once.
pub open spec fn around(links: Seq<(i64, i64)>, id: i64) -> Seq<i64>
    decreases links.len(),
{
    if links.len() == 0 {
        Seq::empty()
    } else {
        let rest = around(links.drop_last(), id);
        let l = links.last();
        let one = if l.0 == id {
            with_id(rest, l.1)
        } else {
            rest
        };
        if l.1 == id {
            with_id(one, l.0)
        } else {
            one
        }
    }
}

/// What is directly linked to a transaction is what a link joins to it.
pub proof fn lemma_around(links: Seq<(i64, i64)>, id: i64, x: i64)
    ensures
        around(links, id).contains(x) <==> joins(links, id, x),
    decreases links.len(),
{
    if links.len() > 0 {
        let rest = links.drop_last();
        let l = links.last();
        lemma_around(rest, id, x);
        let a = around(rest, id);
        lemma_with_id(a, l.1);
        lemma_with_id(a, l.0);
        lemma_with_id(with_id(a, l.1), l.0);
        if joins(rest, id, x) {
            let i = choose|i: int| 0 <= i < rest.len() && joins_at(#[trigger] rest[i], id, x);
            assert(links[i] == rest[i]);
        }
        if joins_at(l, id, x) {
            assert(links[links.len() - 1] == l);
        }
        if joins(links, id, x) {
            let i = choose|i: int| 0 <= i < links.len() && joins_at(#[trigger] links[i], id, x);
            if i < links.len() - 1 {
                assert(rest[i] == links[i]);
            }
        }
    }
}

fn collect_around(links: &Vec<Link>, id: i64) -> (r: Vec<i64>)
    ensures
        r@ == around(ends(links@), id),
{
    let ghost all = ends(links@);
    let mut out: Vec<i64> = Vec::new();
    let mut i: usize = 0;
    assert(all.take(0) =~= Seq::<(i64, i64)>::empty());
    while i < links.len()
        invariant
            i <= links@.len(),
            all == ends(links@),
            out@ == around(all.take(i as int), id),
        decreases links@.len() - i,
    {
        assert(all.take(i + 1).drop_last() =~= all.take(i as int));
        assert(all.take(i + 1).last() == (links@[i as int].from, links@[i as int].to));
        if links[i].from == id {
            put(&mut out, links[i].to);
        }
        if links[i].to == id {
            put(&mut out, links[i].from);
        }
        i = i + 1;
    }
    assert(all.take(all.len() as int) =~= all);
    out
}

/// A transaction of a chain, and how many links it is from where the chain was entered.
#[derive(Debug, Clone, Copy, PartialEq, Eq)]
pub struct Visit {
    pub txn_id: i64,
    pub depth: u64,
}

/// Whether a transaction is among visits.
pub open spec fn visited(s: Seq<Visit>, id: i64) -> bool {
    exists|i: int| 0 <= i < s.len() && (#[trigger] s[i]).txn_id == id
}

/// Visits with those ids added, at a depth, that are not among them yet.
pub open spec fn with_new(s: Seq<Visit>, ids: Seq<i64>, depth: u64) -> Seq<Visit>
    decreases ids.len(),
{
    if ids.len() == 0 {
        s
    } else {
        let rest = with_new(s, ids.drop_last(), depth);
        if visited(rest, ids.last()) {
            rest
        } else {
            rest.push(Visit { txn_id: ids.last(), depth })
        }
    }
}

/// The visits known once the neighbours of the first `k` of them have been looked at, breadth first
/// from the root.
pub open spec fn found(links: Seq<(i64, i64)>, root: i64, k: nat) -> Seq<Visit>
    decreases k,
{
    if k == 0 {
        seq![Visit { txn_id: root, depth: 0 }]
    } else {
        let before = found(links, root, (k - 1) as nat);
        if k - 1 < before.len() {
            let v = before[k - 1];
            with_new(before, around(links, v.txn_id), (v.depth + 1) as u64)
        } else {
            before
        }
    }
}

/// Whether following links stops once the first `k` visits have been looked at: there is nothing
/// left to look at, or as many were found as are wanted.
pub open spec fn stops(links: Seq<(i64, i64)>, root: i64, max: nat) -> spec_fn(int) -> bool {
    |k: int| found(links, root, k as nat).len() == k || found(links, root, k as nat).len() >= max
}

/// How many visits are looked at before following links stops.
pub open spec fn looked(links: Seq<(i64, i64)>, root: i64, max: nat) -> nat {
    crate::lists::first(max as int, stops(links, root, max)) as nat
}

/// The visits of a chain, breadth first from the root.
pub open spec fn chain_visits(links: Seq<(i64, i64)>, root: i64, max: nat) -> Seq<Visit> {
    found(links, root, looked(links, root, max))
}

fn is_visited(s: &Vec<Visit>, id: i64) -> (r: bool)
    ensures
        r == visited(s@, id),
{
    let mut i: usize = 0;
    while i < s.len()
        invariant
            i <= s@.len(),
            forall|j: int| 0 <= j < i ==> (#[trigger] s@[j]).txn_id != id,
        decreases s@.len() - i,
    {
        if s[i].txn_id == id {
            assert(s@[i as int].txn_id == id);
            return true;
        }
        i = i + 1;
    }
    false
}

fn add_new(s: &mut Vec<Visit>, ids: &Vec<i64>, depth: u64)
    ensures
        final(s)@ == with_new(old(s)@, ids@, depth),
{
    let mut i: usize = 0;
    while i < ids.len()
        invariant
            i <= ids@.len(),
            s@ == with_new(old(s)@, ids@.take(i as int), depth),
        decreases ids@.len() - i,
    {
        assert(ids@.take(i + 1).drop_last() =~= ids@.take(i as int));
        if !is_visited(s, ids[i]) {
            s.push(Visit { txn_id: ids[i], depth });
        }
        i = i + 1;
    }
    assert(ids@.take(ids@.len() as int) =~= ids@);
}

proof fn lemma_with_new_grows(s: Seq<Visit>, ids: Seq<i64>, depth: u64)
    ensures
        with_new(s, ids, depth).len() >= s.len(),
        with_new(s, ids, depth).take(s.len() as int) == s,
        forall|j: int|
            s.len() <= j < with_new(s, ids, depth).len() ==> (#[trigger] with_new(
                s,
                ids,
                depth,
            )[j]).depth == depth,
        forall|x: i64| #[trigger]
            visited(with_new(s, ids, depth), x) <==> visited(s, x) || ids.contains(x),
        forall|j: int|
            s.len() <= j < with_new(s, ids, depth).len() ==> ids.contains(
                (#[trigger] with_new(s, ids, depth)[j]).txn_id,
            ),
    decreases ids.len(),
{
    let w = with_new(s, ids, depth);
    if ids.len() == 0 {
        assert(s.take(s.len() as int) =~= s);
    } else {
        let rest = with_new(s, ids.drop_last(), depth);
        lemma_with_new_grows(s, ids.drop_last(), depth);
        assert(w.take(s.len() as int) =~= rest.take(s.len() as int));
        assert(ids.drop_last().push(ids.last()) =~= ids);
        assert forall|x: i64| #[trigger] visited(w, x) <==> visited(s, x) || ids.contains(x) by {
            lemma_push_contains(ids.drop_last(), ids.last(), x);
            assert(visited(rest, x) <==> visited(s, x) || ids.drop_last().contains(x));
            if !visited(rest, ids.last()) {
                lemma_visited_push(rest, Visit { txn_id: ids.last(), depth }, x);
            }
        }
        assert forall|j: int| s.len() <= j < w.len() implies ids.contains(
            (#[trigger] w[j]).txn_id,
        ) by {
            lemma_push_contains(ids.drop_last(), ids.last(), w[j].txn_id);
            if j < rest.len() {
                assert(w[j] == rest[j]);
            }
        }
    }
}

proof fn lemma_visited_push(s: Seq<Visit>, v: Visit, x: i64)
    ensures
        visited(s.push(v), x) == (visited(s, x) || v.txn_id == x),
{
    if visited(s, x) {
        let i = choose|i: int| 0 <= i < s.len() && (#[trigger] s[i]).txn_id == x;
        assert(s.push(v)[i].txn_id == x);
    }
    if v.txn_id == x {
        assert(s.push(v)[s.len() as int].txn_id == x);
    }
    if visited(s.push(v), x) && v.txn_id != x {
        let i = choose|i: int| 0 <= i < s.push(v).len() && (#[trigger] s.push(v)[i]).txn_id == x;
        assert(s[i].txn_id == x);
    }
}

/// What is known of the visits after `k` have been looked at: each is at most `k` deep, and looking
/// on keeps those found.
proof fn lemma_found_depth(links: Seq<(i64, i64)>, root: i64, k: nat)
    requires
        k < u64::MAX,
    ensures
        found(links, root, k).len() > 0,
        forall|i: int|
            0 <= i < found(links, root, k).len() ==> (#[trigger] found(links, root, k)[i]).depth
                <= k,
    decreases k,
{
    if k > 0 {
        lemma_found_depth(links, root, (k - 1) as nat);
        let before = found(links, root, (k - 1) as nat);
        if k - 1 < before.len() {
            let v = before[k - 1];
            let ids = around(links, v.txn_id);
            lemma_with_new_grows(before, ids, (v.depth + 1) as u64);
            let now = with_new(before, ids, (v.depth + 1) as u64);
            assert forall|i: int| 0 <= i < now.len() implies (#[trigger] now[i]).depth <= k by {
                if i < before.len() {
                    assert(now.take(before.len() as int)[i] == before[i]);
                }
            }
        }
    }
}

/// The whole of what a transaction is connected to: the chain, however it was built.
#[derive(Debug, Clone)]
pub struct Chain {
    pub visits: Vec<Visit>,
    /// The links between the visits returned, and no others: a link to something outside would draw
    /// an arrow to nothing.
    pub edges: Vec<Link>,
    /// Net movement per account across the whole chain. This is the question a chain exists to
    /// answer -- where did this actually end up -- and it is not a completion test: a finished
    /// transfer still shows its source, its destination and any fee.
    pub residual: Vec<Residual>,
    pub truncated: bool,
}

/// The transactions of visits.
pub open spec fn visit_ids(s: Seq<Visit>) -> Seq<i64> {
    s.map_values(|v: Visit| v.txn_id)
}

/// The links both of whose ends are among visits.
pub open spec fn inner(links: Seq<LinkView>, s: Seq<Visit>) -> Seq<LinkView>
    decreases links.len(),
{
    if links.len() == 0 {
        links
    } else {
        let rest = inner(links.drop_last(), s);
        if visited(s, links.last().from) && visited(s, links.last().to) {
            rest.push(links.last())
        } else {
            rest
        }
    }
}

/// The chain containing a transaction. Breadth first and undirected, so that starting anywhere in a
/// chain yields the same transactions; following links stops once `max_nodes` are found.
pub fn chain(
    txns: &Vec<i64>,
    links: &Vec<Link>,
    postings: &Vec<PostingRow>,
    txn_id: i64,
    max_nodes: usize,
) -> (r: Result<Chain, LinkError>)
    ensures
        ({
            let visits = chain_visits(ends(links@), txn_id, max_nodes as nat);
            match r {
                Ok(c) => txns@.contains(txn_id) && c.visits@ == visits && c.truncated == (
                visits.len() >= max_nodes) && link_views(c.edges@) == inner(
                    link_views(links@),
                    visits,
                ) && are_residuals(c.residual@, postings@, visit_ids(visits)) && in_order(
                    c.residual@,
                    By::Amount,
                ),
                Err(LinkError::NoSuchTxn(id)) => !txns@.contains(txn_id) && id == txn_id,
                Err(LinkError::Unexpected(m)) => txns@.contains(txn_id) && !nets_fit(
                    postings@,
                    visit_ids(visits),
                ) && m@ == "integer overflow"@,
                Err(_) => false,
            }
        }),
{
    if !holds(txns, txn_id) {
        return Err(LinkError::NoSuchTxn(txn_id));
    }
    let ghost all = ends(links@);
    let mut visits: Vec<Visit> = Vec::new();
    visits.push(Visit { txn_id, depth: 0 });
    let mut k: usize = 0;
    assert(visits@ =~= found(all, txn_id, 0));
    while k < visits.len() && visits.len() < max_nodes
        invariant
            all == ends(links@),
            k <= visits@.len(),
            k <= max_nodes,
            visits@ == found(all, txn_id, k as nat),
            forall|j: int| 0 <= j < k ==> !#[trigger] stops(all, txn_id, max_nodes as nat)(j),
        decreases max_nodes - k,
    {
        proof {
            assert(!stops(all, txn_id, max_nodes as nat)(k as int));
            lemma_found_depth(all, txn_id, k as nat);
            assert(visits@[k as int].depth <= k);
        }
        let v = visits[k];
        let next = collect_around(links, v.txn_id);
        proof {
            lemma_with_new_grows(visits@, next@, (v.depth + 1) as u64);
        }
        add_new(&mut visits, &next, v.depth + 1);
        k = k + 1;
    }
    proof {
        assert(stops(all, txn_id, max_nodes as nat)(k as int));
        crate::lists::lemma_first(max_nodes as int, stops(all, txn_id, max_nodes as nat), k as int);
    }
    let mut edges: Vec<Link> = Vec::new();
    let ghost contents = link_views(links@);
    let mut i: usize = 0;
    assert(contents.take(0) =~= Seq::<LinkView>::empty());
    assert(link_views(edges@) =~= Seq::<LinkView>::empty());
    while i < links.len()
        invariant
            i <= links@.len(),
            contents == link_views(links@),
            link_views(edges@) == inner(contents.take(i as int), visits@),
        decreases links@.len() - i,
    {
        assert(contents.take(i + 1).drop_last() =~= contents.take(i as int));
        assert(contents.take(i + 1).last() == links@[i as int]@);
        if is_visited(&visits, links[i].from) && is_visited(&visits, links[i].to) {
            let c = copy_link(&links[i]);
            assert(link_views(edges@.push(c)) =~= link_views(edges@).push(c@));
            edges.push(c);
        }
        i = i + 1;
    }
    assert(contents.take(contents.len() as int) =~= contents);
    let mut ids: Vec<i64> = Vec::new();
    let mut j: usize = 0;
    while j < visits.len()
        invariant
            j <= visits@.len(),
            ids@ == visit_ids(visits@).take(j as int),
        decreases visits@.len() - j,
    {
        ids.push(visits[j].txn_id);
        assert(visit_ids(visits@).take(j + 1) =~= visit_ids(visits@).take(j as int).push(
            visits@[j as int].txn_id,
        ));
        j = j + 1;
    }
    assert(visit_ids(visits@).take(visits@.len() as int) =~= visit_ids(visits@));
    let residual = match residuals(postings, &ids, By::Amount) {
        Some(v) => v,
        None => {
            return Err(LinkError::Unexpected("integer overflow".to_string()));
        },
    };
    let truncated = visits.len() >= max_nodes;
    Ok(Chain { visits, edges, residual, truncated })
}

/// What is found early stays where it was found.
proof fn lemma_found_prefix(links: Seq<(i64, i64)>, root: i64, j: nat, k: nat)
    requires
        j <= k,
    ensures
        found(links, root, j).len() <= found(links, root, k).len(),
        forall|i: int|
            0 <= i < found(links, root, j).len() ==> #[trigger] found(links, root, k)[i] == found(
                links,
                root,
                j,
            )[i],
        found(links, root, j).len() <= j ==> found(links, root, k) == found(links, root, j),
    decreases k,
{
    if j < k {
        lemma_found_prefix(links, root, j, (k - 1) as nat);
        let before = found(links, root, (k - 1) as nat);
        if k - 1 < before.len() {
            let v = before[k - 1];
            let ids = around(links, v.txn_id);
            lemma_with_new_grows(before, ids, (v.depth + 1) as u64);
            let now = with_new(before, ids, (v.depth + 1) as u64);
            assert forall|i: int| 0 <= i < found(links, root, j).len() implies #[trigger] now[i]
                == found(links, root, j)[i] by {
                assert(now.take(before.len() as int)[i] == before[i]);
            }
        }
    }
}

/// Breadth first: the visits stand in order of depth, none more than one deeper than the one to be
/// looked at next.
proof fn lemma_found_sorted(links: Seq<(i64, i64)>, root: i64, k: nat)
    requires
        k < u64::MAX,
    ensures
        forall|i: int, j: int|
            0 <= i <= j < found(links, root, k).len() ==> (#[trigger] found(links, root, k)[i]).depth
                <= (#[trigger] found(links, root, k)[j]).depth,
        k < found(links, root, k).len() ==> forall|i: int|
            0 <= i < found(links, root, k).len() ==> (#[trigger] found(links, root, k)[i]).depth
                <= found(links, root, k)[k as int].depth + 1,
    decreases k,
{
    if k > 0 {
        let before = found(links, root, (k - 1) as nat);
        lemma_found_sorted(links, root, (k - 1) as nat);
        lemma_found_depth(links, root, (k - 1) as nat);
        if k - 1 < before.len() {
            let v = before[k - 1];
            let d = (v.depth + 1) as u64;
            lemma_with_new_grows(before, around(links, v.txn_id), d);
            let now = with_new(before, around(links, v.txn_id), d);
            assert(forall|i: int| 0 <= i < before.len() ==> #[trigger] now[i] == before[i]) by {
                assert forall|i: int| 0 <= i < before.len() implies #[trigger] now[i]
                    == before[i] by {
                    assert(now.take(before.len() as int)[i] == before[i]);
                }
            }
            assert(forall|i: int| 0 <= i < before.len() ==> (#[trigger] before[i]).depth <= d);
            if k < now.len() {
                assert(now[k as int].depth >= v.depth) by {
                    if k < before.len() {
                        assert(before[k - 1].depth <= before[k as int].depth);
                    }
                }
            }
        }
    }
}

/// Each visit is reached along as many links as it is deep.
proof fn lemma_found_reached(links: Seq<(i64, i64)>, root: i64, k: nat, i: int)
    requires
        k < u64::MAX,
        0 <= i < found(links, root, k).len(),
    ensures
        reach(links, root, found(links, root, k)[i].txn_id, found(links, root, k)[i].depth as nat),
    decreases k,
{
    if k == 0 {
        lemma_reach_self(links, root);
    } else {
        let before = found(links, root, (k - 1) as nat);
        lemma_found_prefix(links, root, (k - 1) as nat, k);
        if i < before.len() {
            lemma_found_reached(links, root, (k - 1) as nat, i);
        } else {
            let v = before[k - 1];
            let ids = around(links, v.txn_id);
            lemma_found_depth(links, root, (k - 1) as nat);
            lemma_with_new_grows(before, ids, (v.depth + 1) as u64);
            lemma_found_reached(links, root, (k - 1) as nat, k - 1);
            let x = found(links, root, k)[i].txn_id;
            lemma_around(links, v.txn_id, x);
            lemma_reach_on(links, root, v.txn_id, x, v.depth as nat);
        }
    }
}

/// Once every visit has been looked at, whatever can be reached along `n` links is among them, and
/// no deeper than that.
proof fn lemma_found_all(links: Seq<(i64, i64)>, root: i64, k: nat, x: i64, n: nat) -> (i: int)
    requires
        k < u64::MAX,
        found(links, root, k).len() == k,
        reach(links, root, x, n),
    ensures
        0 <= i < k,
        found(links, root, k)[i].txn_id == x,
        found(links, root, k)[i].depth <= n,
    decreases n,
{
    let all = found(links, root, k);
    if n == 0 {
        lemma_found_prefix(links, root, 0, k);
        assert(all[0] == found(links, root, 0)[0]);
        0
    } else {
        let c = lemma_reach_last(links, root, x, n);
        let j = lemma_found_all(links, root, k, c, (n - 1) as nat);
        lemma_found_prefix(links, root, j as nat, k);
        let before = found(links, root, j as nat);
        assert(j < before.len());
        let v = before[j];
        assert(all[j] == v);
        let ids = around(links, c);
        let d = (v.depth + 1) as u64;
        lemma_found_depth(links, root, j as nat);
        lemma_found_sorted(links, root, j as nat);
        lemma_with_new_grows(before, ids, d);
        lemma_around(links, c, x);
        let after = found(links, root, (j + 1) as nat);
        assert(after == with_new(before, ids, d));
        assert(visited(after, x));
        let i = choose|i: int| 0 <= i < after.len() && (#[trigger] after[i]).txn_id == x;
        lemma_found_prefix(links, root, (j + 1) as nat, k);
        assert(all[i] == after[i]);
        if i < before.len() {
            assert(after.take(before.len() as int)[i] == before[i]);
        }
        i
    }
}

/// A chain that was not cut short was looked at to its end.
proof fn lemma_looked_to_the_end(links: Seq<(i64, i64)>, root: i64, max: nat)
    requires
        chain_visits(links, root, max).len() < max,
        max <= u64::MAX,
    ensures
        looked(links, root, max) == chain_visits(links, root, max).len(),
        looked(links, root, max) < max,
{
    let k = looked(links, root, max);
    crate::lists::lemma_first_is(max as int, stops(links, root, max));
    if k == max {
        lemma_never_short(links, root, max, k);
    } else {
        assert(stops(links, root, max)(k as int));
    }
}

proof fn lemma_never_short(links: Seq<(i64, i64)>, root: i64, max: nat, k: nat)
    requires
        forall|j: int| 0 <= j < k ==> !#[trigger] stops(links, root, max)(j),
    ensures
        found(links, root, k).len() >= k,
    decreases k,
{
    if k > 0 {
        lemma_never_short(links, root, max, (k - 1) as nat);
        assert(!stops(links, root, max)(k - 1));
        lemma_found_prefix(links, root, (k - 1) as nat, k);
    }
}

/// Every transaction of a chain is connected to the one it was entered at, along as many links as
/// its depth says.
pub proof fn law_a_chain_holds_what_is_connected(
    links: Seq<(i64, i64)>,
    root: i64,
    max: nat,
    i: int,
)
    requires
        max < u64::MAX,
        0 <= i < chain_visits(links, root, max).len(),
    ensures
        reach(
            links,
            root,
            chain_visits(links, root, max)[i].txn_id,
            chain_visits(links, root, max)[i].depth as nat,
        ),
{
    crate::lists::lemma_first_is(max as int, stops(links, root, max));
    lemma_found_reached(links, root, looked(links, root, max), i);
}

/// A chain that was not cut short holds everything connected to where it was entered, and the depth
/// of each transaction is the least number of links that lead to it.
pub proof fn law_an_uncut_chain_is_complete(
    links: Seq<(i64, i64)>,
    root: i64,
    max: nat,
    x: i64,
    n: nat,
) -> (i: int)
    requires
        max < u64::MAX,
        chain_visits(links, root, max).len() < max,
        reach(links, root, x, n),
    ensures
        0 <= i < chain_visits(links, root, max).len(),
        chain_visits(links, root, max)[i].txn_id == x,
        chain_visits(links, root, max)[i].depth <= n,
{
    lemma_looked_to_the_end(links, root, max);
    lemma_found_all(links, root, looked(links, root, max), x, n)
}

/// It does not matter where a chain is entered: from any of its transactions the same ones are
/// found, unless a limit cuts the search short.
pub proof fn law_starting_anywhere_finds_the_same_chain(
    links: Seq<(i64, i64)>,
    a: i64,
    b: i64,
    max: nat,
    x: i64,
)
    requires
        max < u64::MAX,
        chain_visits(links, a, max).len() < max,
        chain_visits(links, b, max).len() < max,
        visited(chain_visits(links, a, max), b),
    ensures
        visited(chain_visits(links, a, max), x) <==> visited(chain_visits(links, b, max), x),
{
    let from_a = chain_visits(links, a, max);
    let from_b = chain_visits(links, b, max);
    let k = choose|k: int| 0 <= k < from_a.len() && (#[trigger] from_a[k]).txn_id == b;
    law_a_chain_holds_what_is_connected(links, a, max, k);
    let n = from_a[k].depth as nat;
    lemma_reach_symmetric(links, a, b, n);
    if visited(from_a, x) {
        let i = choose|i: int| 0 <= i < from_a.len() && (#[trigger] from_a[i]).txn_id == x;
        law_a_chain_holds_what_is_connected(links, a, max, i);
        lemma_reach_transitive(links, b, a, x, n, from_a[i].depth as nat);
        let j = law_an_uncut_chain_is_complete(links, b, max, x, n + from_a[i].depth as nat);
        assert(from_b[j].txn_id == x);
    }
    if visited(from_b, x) {
        let i = choose|i: int| 0 <= i < from_b.len() && (#[trigger] from_b[i]).txn_id == x;
        law_a_chain_holds_what_is_connected(links, b, max, i);
        lemma_reach_transitive(links, a, b, x, n, from_b[i].depth as nat);
        let j = law_an_uncut_chain_is_complete(links, a, max, x, n + from_b[i].depth as nat);
        assert(from_a[j].txn_id == x);
    }
}

} // verus!
