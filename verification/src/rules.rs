//! Recurring payments as they are stored, and the rules they make up.
//!
//! A recurring payment is stored as rows, and one rule can be several of them in two independent
//! ways: a recurring chain is one row per hop, and a rule changed "from a date" is one part per
//! stretch of time. A part is one family -- a plain row, or every hop of a chain; a rule is every
//! part whose first hop goes back to the same row. Only the newest part of a rule can be edited: the
//! older ones are history.

use crate::date::Date;
use crate::digits::{int_digits, int_text};
use crate::lists::{first, lemma_first};
use crate::money::Minor;
use crate::paths::{lemma_with_id, put, with_id};
use crate::wording::{bad, dmy, fail, said, says, EditError};
use vstd::prelude::*;

verus! {

broadcast use vstd::string::group_string_axioms;

/// One posting of a hop's template.
#[derive(Debug, Clone)]
pub struct HopLeg {
    pub id: i64,
    pub account_id: i64,
    pub currency: String,
    pub amount_minor: Minor,
    pub role: String,
}

/// A stored row: a plain recurring payment, or one hop of a chain.
#[derive(Debug, Clone)]
pub struct Hop {
    pub id: i64,
    /// The matching hop of the rule's first part, where this is of a later one.
    pub head_id: Option<i64>,
    pub description: String,
    pub rrule: String,
    pub dtstart: Date,
    pub until_on: Option<Date>,
    pub weekend_rule: String,
    pub scenario_id: Option<i64>,
    pub supersedes_id: Option<i64>,
    pub chain_id: Option<i64>,
    pub chain_seq: Option<i64>,
    pub legs: Vec<HopLeg>,
}

/// The family of a hop: its chain, or itself.
pub open spec fn family(h: Hop) -> i64 {
    match h.chain_id {
        Some(c) => c,
        None => h.id,
    }
}

/// The place of a hop in its chain.
pub open spec fn seq_of(h: Hop) -> i64 {
    match h.chain_seq {
        Some(q) => q,
        None => 0,
    }
}

/// The row a hop goes back to.
pub open spec fn head_of(h: Hop) -> i64 {
    match h.head_id {
        Some(i) => i,
        None => h.id,
    }
}

fn family_of(h: &Hop) -> (r: i64)
    ensures
        r == family(*h),
{
    match h.chain_id {
        Some(c) => c,
        None => h.id,
    }
}

/// The row a hop goes back to.
pub fn origin_of(h: &Hop) -> (r: i64)
    ensures
        r == head_of(*h),
{
    match h.head_id {
        Some(i) => i,
        None => h.id,
    }
}

/// Whether one hop comes before another: by its place in the chain, then by its id.
pub open spec fn hop_before(a: Hop, b: Hop) -> bool {
    seq_of(a) < seq_of(b) || (seq_of(a) == seq_of(b) && a.id < b.id)
}

fn comes_before(a: &Hop, b: &Hop) -> (r: bool)
    ensures
        r == hop_before(*a, *b),
{
    let x: i64 = match a.chain_seq {
        Some(q) => q,
        None => 0,
    };
    let y: i64 = match b.chain_seq {
        Some(q) => q,
        None => 0,
    };
    x < y || (x == y && a.id < b.id)
}

/// Places as integers.
pub open spec fn places(v: Seq<usize>) -> Seq<int> {
    v.map_values(|i: usize| i as int)
}

/// Lists of places as integers.
pub open spec fn place_lists(v: Seq<Vec<usize>>) -> Seq<Seq<int>> {
    v.map_values(|p: Vec<usize>| places(p@))
}

/// A hop put in its place among hops in order.
pub open spec fn put_hop(hops: Seq<Hop>, s: Seq<int>, i: int) -> Seq<int>
    decreases s.len(),
{
    if s.len() > 0 && hop_before(hops[i], hops[s.last()]) {
        put_hop(hops, s.drop_last(), i).push(s.last())
    } else {
        s.push(i)
    }
}

/// Where the hops of a family stand among the first `n`, in the order of the chain.
pub open spec fn members_upto(hops: Seq<Hop>, fam: i64, n: int) -> Seq<int>
    decreases n,
{
    if n <= 0 {
        Seq::empty()
    } else {
        let rest = members_upto(hops, fam, n - 1);
        if family(hops[n - 1]) == fam {
            put_hop(hops, rest, n - 1)
        } else {
            rest
        }
    }
}

/// The families of hops, in order.
pub open spec fn families(hops: Seq<Hop>) -> Seq<i64>
    decreases hops.len(),
{
    if hops.len() == 0 {
        Seq::empty()
    } else {
        with_id(families(hops.drop_last()), family(hops.last()))
    }
}

/// The parts: one family each, its hops in the order of the chain.
pub open spec fn all_parts(hops: Seq<Hop>) -> Seq<Seq<int>> {
    families(hops).map_values(|f: i64| members_upto(hops, f, hops.len() as int))
}

/// Whether places are places of hops.
pub open spec fn in_bounds(s: Seq<int>, n: int) -> bool {
    forall|i: int| 0 <= i < s.len() ==> 0 <= #[trigger] s[i] < n
}

proof fn lemma_put_hop_at(hops: Seq<Hop>, s: Seq<int>, i: int, k: int)
    requires
        0 <= k <= s.len(),
        forall|j: int| k <= j < s.len() ==> hop_before(hops[i], hops[#[trigger] s[j]]),
        k > 0 ==> !hop_before(hops[i], hops[s[k - 1]]),
    ensures
        put_hop(hops, s, i) == s.insert(k, i),
    decreases s.len(),
{
    if k < s.len() {
        let rest = s.drop_last();
        assert(hop_before(hops[i], hops[s[s.len() - 1]]));
        lemma_put_hop_at(hops, rest, i, k);
        assert(rest.insert(k, i).push(s.last()) =~= s.insert(k, i));
    } else {
        assert(s.insert(k, i) =~= s.push(i));
    }
}

proof fn lemma_put_hop(hops: Seq<Hop>, s: Seq<int>, i: int, n: int)
    requires
        in_bounds(s, n),
        0 <= i < n,
    ensures
        in_bounds(put_hop(hops, s, i), n),
        put_hop(hops, s, i).len() == s.len() + 1,
        forall|x: int| #[trigger] put_hop(hops, s, i).contains(x) <==> s.contains(x) || x == i,
    decreases s.len(),
{
    let p = put_hop(hops, s, i);
    if s.len() > 0 && hop_before(hops[i], hops[s.last()]) {
        let rest = s.drop_last();
        assert(in_bounds(rest, n)) by {
            assert forall|j: int| 0 <= j < rest.len() implies 0 <= #[trigger] rest[j] < n by {
                assert(rest[j] == s[j]);
            }
        }
        lemma_put_hop(hops, rest, i, n);
        let q = put_hop(hops, rest, i);
        assert(0 <= s[s.len() - 1] < n);
        assert forall|j: int| 0 <= j < p.len() implies 0 <= #[trigger] p[j] < n by {
            if j < q.len() {
                assert(p[j] == q[j]);
            }
        }
        assert(rest.push(s.last()) =~= s);
        assert forall|x: int| #[trigger] p.contains(x) <==> s.contains(x) || x == i by {
            crate::paths::lemma_push_contains(q, s.last(), x);
            crate::paths::lemma_push_contains(rest, s.last(), x);
        }
    } else {
        assert forall|j: int| 0 <= j < p.len() implies 0 <= #[trigger] p[j] < n by {
            if j < s.len() {
                assert(p[j] == s[j]);
            }
        }
        assert forall|x: int| #[trigger] p.contains(x) <==> s.contains(x) || x == i by {
            crate::paths::lemma_push_contains(s, i, x);
        }
    }
}

/// The members of a family are the hops of it.
pub proof fn lemma_members(hops: Seq<Hop>, fam: i64, n: int)
    requires
        0 <= n <= hops.len(),
    ensures
        in_bounds(members_upto(hops, fam, n), n),
        forall|x: int| #[trigger]
            members_upto(hops, fam, n).contains(x) <==> 0 <= x < n && family(hops[x]) == fam,
    decreases n,
{
    if n > 0 {
        lemma_members(hops, fam, n - 1);
        let rest = members_upto(hops, fam, n - 1);
        assert(in_bounds(rest, n)) by {
            assert forall|j: int| 0 <= j < rest.len() implies 0 <= #[trigger] rest[j] < n by {}
        }
        if family(hops[n - 1]) == fam {
            lemma_put_hop(hops, rest, n - 1, n);
        }
    }
}

/// The families are those of the hops.
pub proof fn lemma_families(hops: Seq<Hop>, fam: i64)
    ensures
        families(hops).contains(fam) <==> exists|i: int|
            0 <= i < hops.len() && family(#[trigger] hops[i]) == fam,
    decreases hops.len(),
{
    if hops.len() > 0 {
        let rest = hops.drop_last();
        lemma_families(rest, fam);
        lemma_with_id(families(rest), family(hops.last()));
        if exists|i: int| 0 <= i < rest.len() && family(#[trigger] rest[i]) == fam {
            let i = choose|i: int| 0 <= i < rest.len() && family(#[trigger] rest[i]) == fam;
            assert(family(hops[i]) == fam);
        }
        if family(hops.last()) == fam {
            assert(family(hops[hops.len() - 1]) == fam);
        }
        if exists|i: int| 0 <= i < hops.len() && family(#[trigger] hops[i]) == fam {
            let i = choose|i: int| 0 <= i < hops.len() && family(#[trigger] hops[i]) == fam;
            if i < hops.len() - 1 {
                assert(family(rest[i]) == fam);
            }
        }
    }
}

/// Whether lists of places are parts of hops: none empty, all of them places of hops.
pub open spec fn are_parts(parts: Seq<Seq<int>>, n: int) -> bool {
    forall|k: int|
        0 <= k < parts.len() ==> (#[trigger] parts[k]).len() > 0 && in_bounds(parts[k], n)
}

/// No part is empty, and each is made of places of the hops.
pub proof fn lemma_all_parts(hops: Seq<Hop>)
    ensures
        are_parts(all_parts(hops), hops.len() as int),
{
    let parts = all_parts(hops);
    assert forall|k: int| 0 <= k < parts.len() implies (#[trigger] parts[k]).len() > 0 && in_bounds(
        parts[k],
        hops.len() as int,
    ) by {
        let f = families(hops)[k];
        lemma_members(hops, f, hops.len() as int);
        lemma_families(hops, f);
        assert(families(hops).contains(f));
        let i = choose|i: int| 0 <= i < hops.len() && family(#[trigger] hops[i]) == f;
        assert(parts[k].contains(i));
    }
}

/// The parts of stored rows: one family each, its hops in the order of the chain.
pub fn parts_of(hops: &Vec<Hop>) -> (r: Vec<Vec<usize>>)
    ensures
        place_lists(r@) == all_parts(hops@),
        are_parts(place_lists(r@), hops@.len() as int),
{
    let mut fams: Vec<i64> = Vec::new();
    let mut i: usize = 0;
    while i < hops.len()
        invariant
            i <= hops@.len(),
            fams@ == families(hops@.take(i as int)),
        decreases hops@.len() - i,
    {
        assert(hops@.take(i + 1).drop_last() =~= hops@.take(i as int));
        put(&mut fams, family_of(&hops[i]));
        i = i + 1;
    }
    assert(hops@.take(hops@.len() as int) =~= hops@);
    let mut out: Vec<Vec<usize>> = Vec::new();
    let mut k: usize = 0;
    while k < fams.len()
        invariant
            k <= fams@.len(),
            fams@ == families(hops@),
            place_lists(out@) =~= all_parts(hops@).take(k as int),
        decreases fams@.len() - k,
    {
        let fam: i64 = fams[k];
        let mut own: Vec<usize> = Vec::new();
        let mut n: usize = 0;
        assert(places(own@) =~= Seq::<int>::empty());
        while n < hops.len()
            invariant
                n <= hops@.len(),
                places(own@) == members_upto(hops@, fam, n as int),
                forall|j: int| 0 <= j < own@.len() ==> #[trigger] own@[j] < n,
            decreases hops@.len() - n,
        {
            if family_of(&hops[n]) == fam {
                let mut at: usize = own.len();
                let ghost before = own@;
                while at > 0 && comes_before(&hops[n], &hops[own[at - 1]])
                    invariant
                        at <= own@.len(),
                        own@ == before,
                        n < hops@.len(),
                        forall|j: int| 0 <= j < own@.len() ==> #[trigger] own@[j] < n,
                        forall|j: int|
                            at <= j < own@.len() ==> hop_before(
                                hops@[n as int],
                                hops@[#[trigger] places(own@)[j]],
                            ),
                    decreases at,
                {
                    assert(places(own@)[at - 1] == own@[at - 1]);
                    at = at - 1;
                }
                proof {
                    if at > 0 {
                        assert(places(before)[at - 1] == before[at - 1]);
                    }
                    lemma_put_hop_at(hops@, places(before), n as int, at as int);
                    assert(places(before.insert(at as int, n)) =~= places(before).insert(
                        at as int,
                        n as int,
                    ));
                }
                own.insert(at, n);
            }
            n = n + 1;
        }
        assert(place_lists(out@.push(own)) =~= place_lists(out@).push(places(own@)));
        out.push(own);
        k = k + 1;
    }
    assert(all_parts(hops@).take(all_parts(hops@).len() as int) =~= all_parts(hops@));
    proof {
        lemma_all_parts(hops@);
    }
    out
}

/// The rule a part belongs to: the row its first hop goes back to.
pub open spec fn lineage(hops: Seq<Hop>, part: Seq<int>) -> i64 {
    head_of(hops[part[0]])
}

/// Whether one part comes before another: by its start, then by its first row.
pub open spec fn part_before(hops: Seq<Hop>, a: Seq<int>, b: Seq<int>) -> bool {
    let (x, y) = (hops[a[0]], hops[b[0]]);
    x.dtstart.days < y.dtstart.days || (x.dtstart.days == y.dtstart.days && x.id < y.id)
}

/// A part put in its place among parts in order.
pub open spec fn put_part(hops: Seq<Hop>, s: Seq<Seq<int>>, p: Seq<int>) -> Seq<Seq<int>>
    decreases s.len(),
{
    if s.len() > 0 && part_before(hops, p, s.last()) {
        put_part(hops, s.drop_last(), p).push(s.last())
    } else {
        s.push(p)
    }
}

/// The parts of a rule among parts, oldest first.
pub open spec fn parts_with(hops: Seq<Hop>, parts: Seq<Seq<int>>, lin: i64) -> Seq<Seq<int>>
    decreases parts.len(),
{
    if parts.len() == 0 {
        Seq::empty()
    } else {
        let rest = parts_with(hops, parts.drop_last(), lin);
        if lineage(hops, parts.last()) == lin {
            put_part(hops, rest, parts.last())
        } else {
            rest
        }
    }
}

/// The rules among parts, in order.
pub open spec fn lineages(hops: Seq<Hop>, parts: Seq<Seq<int>>) -> Seq<i64>
    decreases parts.len(),
{
    if parts.len() == 0 {
        Seq::empty()
    } else {
        with_id(lineages(hops, parts.drop_last()), lineage(hops, parts.last()))
    }
}

proof fn lemma_put_part_at(hops: Seq<Hop>, s: Seq<Seq<int>>, p: Seq<int>, k: int)
    requires
        0 <= k <= s.len(),
        forall|j: int| k <= j < s.len() ==> part_before(hops, p, #[trigger] s[j]),
        k > 0 ==> !part_before(hops, p, s[k - 1]),
    ensures
        put_part(hops, s, p) == s.insert(k, p),
    decreases s.len(),
{
    if k < s.len() {
        let rest = s.drop_last();
        assert(part_before(hops, p, s[s.len() - 1]));
        lemma_put_part_at(hops, rest, p, k);
        assert(rest.insert(k, p).push(s.last()) =~= s.insert(k, p));
    } else {
        assert(s.insert(k, p) =~= s.push(p));
    }
}

/// A copy of a list of places.
pub fn copy_places(v: &Vec<usize>) -> (r: Vec<usize>)
    ensures
        r@ == v@,
{
    let mut out: Vec<usize> = Vec::new();
    let mut i: usize = 0;
    while i < v.len()
        invariant
            i <= v@.len(),
            out@ == v@.take(i as int),
        decreases v@.len() - i,
    {
        out.push(v[i]);
        assert(v@.take(i + 1) =~= v@.take(i as int).push(v@[i as int]));
        i = i + 1;
    }
    assert(v@.take(v@.len() as int) =~= v@);
    out
}

fn starts_before(hops: &Vec<Hop>, a: &Vec<usize>, b: &Vec<usize>) -> (r: bool)
    requires
        a@.len() > 0,
        b@.len() > 0,
        in_bounds(places(a@), hops@.len() as int),
        in_bounds(places(b@), hops@.len() as int),
    ensures
        r == part_before(hops@, places(a@), places(b@)),
{
    assert(places(a@)[0] == a@[0]);
    assert(places(b@)[0] == b@[0]);
    let x = &hops[a[0]];
    let y = &hops[b[0]];
    x.dtstart.days < y.dtstart.days || (x.dtstart.days == y.dtstart.days && x.id < y.id)
}

/// The rule a part belongs to.
pub fn lineage_of(hops: &Vec<Hop>, part: &Vec<usize>) -> (r: i64)
    requires
        part@.len() > 0,
        in_bounds(places(part@), hops@.len() as int),
    ensures
        r == lineage(hops@, places(part@)),
{
    assert(places(part@)[0] == part@[0]);
    origin_of(&hops[part[0]])
}

/// The parts of a rule, oldest first; the newest part is the last.
pub fn rule_with(hops: &Vec<Hop>, parts: &Vec<Vec<usize>>, lin: i64) -> (r: Vec<Vec<usize>>)
    requires
        are_parts(place_lists(parts@), hops@.len() as int),
    ensures
        place_lists(r@) == parts_with(hops@, place_lists(parts@), lin),
        are_parts(place_lists(r@), hops@.len() as int),
{
    let ghost all = place_lists(parts@);
    let mut out: Vec<Vec<usize>> = Vec::new();
    let mut i: usize = 0;
    assert(all.take(0) =~= Seq::<Seq<int>>::empty());
    assert(place_lists(out@) =~= Seq::<Seq<int>>::empty());
    while i < parts.len()
        invariant
            i <= parts@.len(),
            all == place_lists(parts@),
            are_parts(all, hops@.len() as int),
            are_parts(place_lists(out@), hops@.len() as int),
            place_lists(out@) == parts_with(hops@, all.take(i as int), lin),
        decreases parts@.len() - i,
    {
        let p = &parts[i];
        proof {
            assert(all.take(i + 1).drop_last() =~= all.take(i as int));
            assert(all.take(i + 1).last() == all[i as int]);
            assert(all[i as int] == places(p@));
        }
        if lineage_of(hops, p) == lin {
            let mut at: usize = out.len();
            let ghost before = out@;
            while at > 0 && starts_before(hops, p, &out[at - 1])
                invariant
                    at <= out@.len(),
                    out@ == before,
                    p@.len() > 0,
                    in_bounds(places(p@), hops@.len() as int),
                    are_parts(place_lists(out@), hops@.len() as int),
                    at > 0 ==> place_lists(out@)[at - 1] == places(out@[at - 1]@),
                    forall|j: int|
                        at <= j < out@.len() ==> part_before(
                            hops@,
                            places(p@),
                            #[trigger] place_lists(out@)[j],
                        ),
                decreases at,
            {
                at = at - 1;
                assert(at > 0 ==> place_lists(out@)[at - 1] == places(out@[at - 1]@));
            }
            let c = copy_places(p);
            proof {
                lemma_put_part_at(hops@, place_lists(before), places(p@), at as int);
                assert(place_lists(before.insert(at as int, c)) =~= place_lists(before).insert(
                    at as int,
                    places(p@),
                ));
                let now = place_lists(before).insert(at as int, places(p@));
                assert forall|k: int| 0 <= k < now.len() implies (#[trigger] now[k]).len() > 0
                    && in_bounds(now[k], hops@.len() as int) by {
                    if k < at {
                        assert(now[k] == place_lists(before)[k]);
                    } else if k > at {
                        assert(now[k] == place_lists(before)[k - 1]);
                    }
                }
            }
            out.insert(at, c);
        }
        i = i + 1;
    }
    assert(all.take(all.len() as int) =~= all);
    out
}

/// Whether a row is one of a part's hops.
pub open spec fn has_row(hops: Seq<Hop>, part: Seq<int>, id: i64) -> bool {
    exists|i: int| 0 <= i < part.len() && (#[trigger] hops[part[i]]).id == id
}

/// Whether a row is one of a part's hops.
pub fn contains_row(hops: &Vec<Hop>, part: &Vec<usize>, id: i64) -> (r: bool)
    requires
        in_bounds(places(part@), hops@.len() as int),
    ensures
        r == has_row(hops@, places(part@), id),
{
    let mut i: usize = 0;
    while i < part.len()
        invariant
            i <= part@.len(),
            in_bounds(places(part@), hops@.len() as int),
            forall|j: int| 0 <= j < i ==> (#[trigger] hops@[places(part@)[j]]).id != id,
        decreases part@.len() - i,
    {
        assert(places(part@)[i as int] == part@[i as int]);
        if hops[part[i]].id == id {
            assert(hops@[places(part@)[i as int]].id == id);
            return true;
        }
        i = i + 1;
    }
    false
}

/// Whether the part at a place has a row.
pub open spec fn part_has(hops: Seq<Hop>, parts: Seq<Seq<int>>, id: i64) -> spec_fn(int) -> bool {
    |k: int| has_row(hops, parts[k], id)
}

/// The parts of the rule that a row belongs to, oldest first.
pub open spec fn rule_of(hops: Seq<Hop>, id: i64) -> Option<Seq<Seq<int>>> {
    let parts = all_parts(hops);
    let k = first(parts.len() as int, part_has(hops, parts, id));
    if k < parts.len() {
        Some(parts_with(hops, parts, lineage(hops, parts[k])))
    } else {
        None
    }
}

/// A part of a rule is among the parts of it.
pub proof fn lemma_parts_with_has(hops: Seq<Hop>, parts: Seq<Seq<int>>, lin: i64, k: int)
    requires
        0 <= k < parts.len(),
        lineage(hops, parts[k]) == lin,
    ensures
        parts_with(hops, parts, lin).contains(parts[k]),
        parts_with(hops, parts, lin).len() > 0,
    decreases parts.len(),
{
    let rest = parts.drop_last();
    let before = parts_with(hops, rest, lin);
    if lineage(hops, parts.last()) == lin {
        lemma_put_part_contains(hops, before, parts.last(), parts[k]);
    }
    if k < parts.len() - 1 {
        assert(rest[k] == parts[k]);
        lemma_parts_with_has(hops, rest, lin, k);
    }
    let all = parts_with(hops, parts, lin);
    let i = choose|i: int| 0 <= i < all.len() && all[i] == parts[k];
}

/// A part put in its place is among the parts, and so is whatever was.
pub proof fn lemma_put_part_contains(hops: Seq<Hop>, s: Seq<Seq<int>>, p: Seq<int>, x: Seq<int>)
    ensures
        put_part(hops, s, p).contains(x) <==> s.contains(x) || x == p,
    decreases s.len(),
{
    if s.len() > 0 && part_before(hops, p, s.last()) {
        let rest = s.drop_last();
        lemma_put_part_contains(hops, rest, p, x);
        assert(rest.push(s.last()) =~= s);
        crate::paths::lemma_push_contains(put_part(hops, rest, p), s.last(), x);
        crate::paths::lemma_push_contains(rest, s.last(), x);
    } else {
        crate::paths::lemma_push_contains(s, p, x);
    }
}

/// The parts of the rule a row belongs to, oldest first; `None` where there is no such row.
pub fn find_rule(hops: &Vec<Hop>, id: i64) -> (r: Option<Vec<Vec<usize>>>)
    ensures
        match r {
            Some(v) => rule_of(hops@, id) == Some(place_lists(v@)) && v@.len() > 0 && are_parts(
                place_lists(v@),
                hops@.len() as int,
            ),
            None => rule_of(hops@, id) is None,
        },
{
    let parts = parts_of(hops);
    let ghost all = place_lists(parts@);
    let mut k: usize = 0;
    while k < parts.len()
        invariant
            k <= parts@.len(),
            all == place_lists(parts@),
            all == all_parts(hops@),
            are_parts(all, hops@.len() as int),
            forall|j: int| 0 <= j < k ==> !#[trigger] part_has(hops@, all, id)(j),
        decreases parts@.len() - k,
    {
        assert(all[k as int] == places(parts@[k as int]@));
        if contains_row(hops, &parts[k], id) {
            proof {
                lemma_first(all.len() as int, part_has(hops@, all, id), k as int);
                lemma_parts_with_has(hops@, all, lineage(hops@, all[k as int]), k as int);
            }
            let lin: i64 = lineage_of(hops, &parts[k]);
            let own = rule_with(hops, &parts, lin);
            assert(place_lists(own@).len() == own@.len());
            return Some(own);
        }
        k = k + 1;
    }
    proof {
        lemma_first(all.len() as int, part_has(hops@, all, id), k as int);
    }
    None
}

/// The rows of a part.
pub open spec fn part_rows(hops: Seq<Hop>, part: Seq<int>) -> Seq<i64> {
    part.map_values(|i: int| hops[i].id)
}

/// The rows of parts.
pub open spec fn rows_of(hops: Seq<Hop>, parts: Seq<Seq<int>>) -> Seq<i64>
    decreases parts.len(),
{
    if parts.len() == 0 {
        Seq::empty()
    } else {
        rows_of(hops, parts.drop_last()) + part_rows(hops, parts.last())
    }
}

/// The rows of a part.
pub fn ids_of(hops: &Vec<Hop>, part: &Vec<usize>) -> (r: Vec<i64>)
    requires
        in_bounds(places(part@), hops@.len() as int),
    ensures
        r@ == part_rows(hops@, places(part@)),
{
    let ghost all = part_rows(hops@, places(part@));
    let mut out: Vec<i64> = Vec::new();
    let mut i: usize = 0;
    while i < part.len()
        invariant
            i <= part@.len(),
            in_bounds(places(part@), hops@.len() as int),
            all == part_rows(hops@, places(part@)),
            out@ =~= all.take(i as int),
        decreases part@.len() - i,
    {
        assert(places(part@)[i as int] == part@[i as int]);
        out.push(hops[part[i]].id);
        i = i + 1;
    }
    assert(all.take(all.len() as int) =~= all);
    out
}

/// The rows of a rule.
pub fn all_ids(hops: &Vec<Hop>, parts: &Vec<Vec<usize>>) -> (r: Vec<i64>)
    requires
        are_parts(place_lists(parts@), hops@.len() as int),
    ensures
        r@ == rows_of(hops@, place_lists(parts@)),
{
    let ghost all = place_lists(parts@);
    let mut out: Vec<i64> = Vec::new();
    let mut k: usize = 0;
    assert(all.take(0) =~= Seq::<Seq<int>>::empty());
    while k < parts.len()
        invariant
            k <= parts@.len(),
            all == place_lists(parts@),
            are_parts(all, hops@.len() as int),
            out@ == rows_of(hops@, all.take(k as int)),
        decreases parts@.len() - k,
    {
        assert(all.take(k + 1).drop_last() =~= all.take(k as int));
        assert(all.take(k + 1).last() == all[k as int]);
        assert(all[k as int] == places(parts@[k as int]@));
        let mut own = ids_of(hops, &parts[k]);
        out.append(&mut own);
        k = k + 1;
    }
    assert(all.take(all.len() as int) =~= all);
    out
}

/// Every stored row of the rule a row belongs to, every hop of every part: for a rename, which names
/// the rule rather than a stretch of it. None where there is no such row.
pub fn rule_ids(hops: &Vec<Hop>, id: i64) -> (r: Vec<i64>)
    ensures
        r@ == (match rule_of(hops@, id) {
            Some(parts) => rows_of(hops@, parts),
            None => Seq::empty(),
        }),
{
    match find_rule(hops, id) {
        Some(parts) => all_ids(hops, &parts),
        None => Vec::new(),
    }
}

/// The first hop of the newest part of a rule.
pub open spec fn newest_first(hops: Seq<Hop>, parts: Seq<Seq<int>>) -> Hop {
    hops[parts.last()[0]]
}

/// Where an end is written, and why it is refused: a rule ends as a whole, so that any row of it
/// stands for its newest part, and an end before that part starts would reach back into history.
pub fn end_target(hops: &Vec<Hop>, id: i64, until_on: Option<Date>, today: Date) -> (r: Result<
    Vec<i64>,
    EditError,
>)
    ensures
        match rule_of(hops@, id) {
            None => r matches Err(e) && says(
                e,
                "not_found"@,
                "no such series: "@ + int_digits(id as int),
            ),
            Some(parts) => {
                let h = newest_first(hops@, parts);
                let early = until_on is Some && until_on->0.days < h.dtstart.days;
                if !early {
                    r matches Ok(v) && v@ == part_rows(hops@, parts.last())
                } else if parts.len() >= 2 {
                    r matches Err(e) && says(
                        e,
                        "overlaps_part"@,
                        h.description@ + " "@ + (if h.dtstart.days > today.days {
                            "changes"@
                        } else {
                            "changed"@
                        }) + " on "@ + said(h.dtstart.days as int)
                            + ": end it on or after that day, or undo the change first"@,
                    )
                } else {
                    r matches Err(e) && says(
                        e,
                        "bad_params"@,
                        "it would end on "@ + said(until_on->0.days as int)
                            + ", before it starts on "@ + said(h.dtstart.days as int),
                    )
                }
            },
        },
{
    let parts = match find_rule(hops, id) {
        Some(p) => p,
        None => {
            let mut m = "no such series: ".to_string();
            let n = int_text(id as i128);
            m.append(n.as_str());
            return Err(fail("not_found", m));
        },
    };
    let n: usize = parts.len();
    let ghost all = place_lists(parts@);
    assert(all[n - 1] == places(parts@[n - 1]@));
    assert(all[n - 1][0] == parts@[n - 1]@[0]);
    let l = &parts[n - 1];
    let h = &hops[l[0]];
    if let Some(u) = until_on {
        if u.days < h.dtstart.days {
            let start = dmy(h.dtstart);
            if n >= 2 {
                let mut m = h.description.clone();
                m.append(" ");
                m.append(
                    if h.dtstart.days > today.days {
                        "changes"
                    } else {
                        "changed"
                    },
                );
                m.append(" on ");
                m.append(start.as_str());
                m.append(": end it on or after that day, or undo the change first");
                return Err(fail("overlaps_part", m));
            }
            let mut m = "it would end on ".to_string();
            let end = dmy(u);
            m.append(end.as_str());
            m.append(", before it starts on ");
            m.append(start.as_str());
            return Err(bad(m.as_str()));
        }
    }
    Ok(ids_of(hops, l))
}

/// A row's rule, and whether the row is in its newest part.
#[derive(Debug, Clone, Copy, PartialEq, Eq)]
pub struct Standing {
    pub id: i64,
    pub lineage_id: i64,
    pub latest: bool,
}

/// Where the rows of a rule's parts stand.
pub open spec fn standings(
    hops: Seq<Hop>,
    lin: i64,
    parts: Seq<Seq<int>>,
    n: int,
    total: int,
) -> Seq<Standing>
    decreases n,
{
    if n <= 0 {
        Seq::empty()
    } else {
        standings(hops, lin, parts, n - 1, total) + parts[n - 1].map_values(
            |i: int| Standing { id: hops[i].id, lineage_id: lin, latest: n == total },
        )
    }
}

/// Where the rows of rules stand.
pub open spec fn all_standings(hops: Seq<Hop>, lins: Seq<i64>) -> Seq<Standing>
    decreases lins.len(),
{
    if lins.len() == 0 {
        Seq::empty()
    } else {
        let lin = lins.last();
        let parts = parts_with(hops, all_parts(hops), lin);
        all_standings(hops, lins.drop_last()) + standings(
            hops,
            lin,
            parts,
            parts.len() as int,
            parts.len() as int,
        )
    }
}

fn collect_lineages(hops: &Vec<Hop>, parts: &Vec<Vec<usize>>) -> (r: Vec<i64>)
    requires
        are_parts(place_lists(parts@), hops@.len() as int),
    ensures
        r@ == lineages(hops@, place_lists(parts@)),
{
    let ghost all = place_lists(parts@);
    let mut out: Vec<i64> = Vec::new();
    let mut k: usize = 0;
    assert(all.take(0) =~= Seq::<Seq<int>>::empty());
    while k < parts.len()
        invariant
            k <= parts@.len(),
            all == place_lists(parts@),
            are_parts(all, hops@.len() as int),
            out@ == lineages(hops@, all.take(k as int)),
        decreases parts@.len() - k,
    {
        assert(all.take(k + 1).drop_last() =~= all.take(k as int));
        assert(all.take(k + 1).last() == all[k as int]);
        assert(all[k as int] == places(parts@[k as int]@));
        put(&mut out, lineage_of(hops, &parts[k]));
        k = k + 1;
    }
    assert(all.take(all.len() as int) =~= all);
    out
}

/// A rule: the row it goes back to, and its parts, oldest first.
#[derive(Debug, Clone)]
pub struct Rule {
    pub lineage_id: i64,
    pub parts: Vec<Vec<usize>>,
}

/// Whether these are the rules of stored rows, in order.
pub open spec fn are_rules(v: Seq<Rule>, hops: Seq<Hop>) -> bool {
    let lins = lineages(hops, all_parts(hops));
    v.len() == lins.len() && forall|i: int|
        0 <= i < v.len() ==> (#[trigger] v[i]).lineage_id == lins[i] && place_lists(v[i].parts@)
            == parts_with(hops, all_parts(hops), lins[i]) && v[i].parts@.len() > 0 && are_parts(
            place_lists(v[i].parts@),
            hops.len() as int,
        )
}

proof fn lemma_lineages(hops: Seq<Hop>, parts: Seq<Seq<int>>, lin: i64)
    ensures
        lineages(hops, parts).contains(lin) <==> parts_with(hops, parts, lin).len() > 0,
    decreases parts.len(),
{
    if parts.len() > 0 {
        lemma_lineages(hops, parts.drop_last(), lin);
        lemma_with_id(lineages(hops, parts.drop_last()), lineage(hops, parts.last()));
        if lineage(hops, parts.last()) == lin {
            lemma_put_part_contains(
                hops,
                parts_with(hops, parts.drop_last(), lin),
                parts.last(),
                parts.last(),
            );
            let all = parts_with(hops, parts, lin);
            let i = choose|i: int| 0 <= i < all.len() && all[i] == parts.last();
        }
    }
}

/// The rules of stored rows, in order of the rows they go back to; each rule's parts oldest first.
pub fn rules_of(hops: &Vec<Hop>) -> (r: Vec<Rule>)
    ensures
        are_rules(r@, hops@),
{
    let parts = parts_of(hops);
    let lins = collect_lineages(hops, &parts);
    let mut out: Vec<Rule> = Vec::new();
    let mut i: usize = 0;
    while i < lins.len()
        invariant
            i <= lins@.len(),
            place_lists(parts@) == all_parts(hops@),
            are_parts(place_lists(parts@), hops@.len() as int),
            lins@ == lineages(hops@, all_parts(hops@)),
            out@.len() == i,
            forall|j: int|
                0 <= j < i ==> (#[trigger] out@[j]).lineage_id == lins@[j] && place_lists(
                    out@[j].parts@,
                ) == parts_with(hops@, all_parts(hops@), lins@[j]) && out@[j].parts@.len() > 0
                    && are_parts(place_lists(out@[j].parts@), hops@.len() as int),
        decreases lins@.len() - i,
    {
        proof {
            assert(lineages(hops@, all_parts(hops@)).contains(lins@[i as int]));
            lemma_lineages(hops@, all_parts(hops@), lins@[i as int]);
        }
        let own = rule_with(hops, &parts, lins[i]);
        assert(place_lists(own@).len() == own@.len());
        out.push(Rule { lineage_id: lins[i], parts: own });
        i = i + 1;
    }
    out
}

/// For a list of rows: the rule each belongs to, and whether it is in its newest part.
pub fn lineage_and_latest(hops: &Vec<Hop>) -> (r: Vec<Standing>)
    ensures
        r@ == all_standings(hops@, lineages(hops@, all_parts(hops@))),
{
    let rules = rules_of(hops);
    let ghost lins = lineages(hops@, all_parts(hops@));
    let mut out: Vec<Standing> = Vec::new();
    let mut i: usize = 0;
    assert(lins.take(0) =~= Seq::<i64>::empty());
    while i < rules.len()
        invariant
            i <= rules@.len(),
            lins == lineages(hops@, all_parts(hops@)),
            are_rules(rules@, hops@),
            out@ == all_standings(hops@, lins.take(i as int)),
        decreases rules@.len() - i,
    {
        let rule = &rules[i];
        let ghost own = place_lists(rule.parts@);
        let ghost before = out@;
        let total: usize = rule.parts.len();
        proof {
            assert(lins.take(i + 1).drop_last() =~= lins.take(i as int));
            assert(lins.take(i + 1).last() == lins[i as int]);
            assert(rules@[i as int].lineage_id == lins[i as int]);
        }
        let mut n: usize = 0;
        assert(before + standings(hops@, rule.lineage_id, own, 0, total as int) =~= before);
        while n < rule.parts.len()
            invariant
                n <= rule.parts@.len(),
                total == rule.parts@.len(),
                own == place_lists(rule.parts@),
                are_parts(own, hops@.len() as int),
                out@ == before + standings(
                    hops@,
                    rule.lineage_id,
                    own,
                    n as int,
                    total as int,
                ),
            decreases rule.parts@.len() - n,
        {
            let p = &rule.parts[n];
            let latest = n + 1 == total;
            let ghost start = out@;
            let ghost row = own[n as int].map_values(
                |i: int|
                    Standing {
                        id: hops@[i].id,
                        lineage_id: rule.lineage_id,
                        latest: n + 1 == total as int,
                    },
            );
            assert(own[n as int] == places(p@));
            let mut k: usize = 0;
            assert(start + row.take(0) =~= start);
            while k < p.len()
                invariant
                    k <= p@.len(),
                    in_bounds(places(p@), hops@.len() as int),
                    latest == (n + 1 == total),
                    row == places(p@).map_values(
                        |i: int|
                            Standing {
                                id: hops@[i].id,
                                lineage_id: rule.lineage_id,
                                latest: n + 1 == total as int,
                            },
                    ),
                    out@ == start + row.take(k as int),
                decreases p@.len() - k,
            {
                assert(places(p@)[k as int] == p@[k as int]);
                out.push(Standing { id: hops[p[k]].id, lineage_id: rule.lineage_id, latest });
                assert(row.take(k + 1) =~= row.take(k as int).push(row[k as int]));
                k = k + 1;
                assert(out@ =~= start + row.take(k as int));
            }
            assert(row.take(row.len() as int) =~= row);
            n = n + 1;
            assert(out@ =~= before + standings(
                hops@,
                rule.lineage_id,
                own,
                n as int,
                total as int,
            ));
        }
        i = i + 1;
    }
    assert(lins.take(lins.len() as int) =~= lins);
    out
}

/// Each stored row is in the part of its own family, and in no other.
pub proof fn law_a_row_is_in_one_part(hops: Seq<Hop>, i: int, j: int, k: int)
    requires
        0 <= i < hops.len(),
        0 <= j < all_parts(hops).len(),
        0 <= k < all_parts(hops).len(),
        all_parts(hops)[j].contains(i),
        all_parts(hops)[k].contains(i),
    ensures
        families(hops)[j] == families(hops)[k],
        families(hops)[j] == family(hops[i]),
{
    lemma_members(hops, families(hops)[j], hops.len() as int);
    lemma_members(hops, families(hops)[k], hops.len() as int);
}

/// A part that only cancels a rule inside a what-if: it has no postings and moves no money.
pub open spec fn only_cancels(hops: Seq<Hop>, part: Seq<int>) -> bool {
    hops[part[0]].supersedes_id is Some && forall|i: int|
        0 <= i < part.len() ==> (#[trigger] hops[part[i]]).legs@.len() == 0
}

/// Whether a part only cancels a rule inside a what-if.
pub fn is_cancel(hops: &Vec<Hop>, part: &Vec<usize>) -> (r: bool)
    requires
        part@.len() > 0,
        in_bounds(places(part@), hops@.len() as int),
    ensures
        r == only_cancels(hops@, places(part@)),
{
    assert(places(part@)[0] == part@[0]);
    if hops[part[0]].supersedes_id.is_none() {
        return false;
    }
    let mut i: usize = 0;
    while i < part.len()
        invariant
            i <= part@.len(),
            in_bounds(places(part@), hops@.len() as int),
            forall|j: int| 0 <= j < i ==> (#[trigger] hops@[places(part@)[j]]).legs@.len() == 0,
        decreases part@.len() - i,
    {
        assert(places(part@)[i as int] == part@[i as int]);
        if hops[part[i]].legs.len() > 0 {
            assert(hops@[places(part@)[i as int]].legs@.len() != 0);
            return false;
        }
        i = i + 1;
    }
    true
}

} // verus!
