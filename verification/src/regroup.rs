//! What becomes of the parts of rules when rows are added behind those there are.
//!
//! Parts and rules are made of five things a row holds: its id, the row it goes back to, its chain,
//! its place in it and its start. Rows that agree in these make up the same parts, and the rows that
//! a change from a date adds make up one part more, the newest of its rule.

use crate::lists::{first, lemma_first};
use crate::paths::with_id;
use crate::rules::{
    all_parts, are_parts, families, family, has_row, in_bounds, lemma_all_parts, lemma_families,
    lemma_members, lemma_parts_with_has, lemma_put_part_contains, lineage, members_upto, part_before,
    part_has, parts_with, put_hop, put_part, rule_of, seq_of, Hop,
};
use vstd::prelude::*;

verus! {

/// Whether two rows stand in the same place: what parts and rules are made of is the same.
pub open spec fn same_place(a: Hop, b: Hop) -> bool {
    &&& a.id == b.id
    &&& a.head_id == b.head_id
    &&& a.dtstart == b.dtstart
    &&& a.chain_id == b.chain_id
    &&& a.chain_seq == b.chain_seq
}

/// Whether rows begin with others, each in its place.
pub open spec fn begin_with(now: Seq<Hop>, hops: Seq<Hop>) -> bool {
    &&& hops.len() <= now.len()
    &&& forall|i: int| 0 <= i < hops.len() ==> same_place(#[trigger] now[i], hops[i])
}

/// Whether the rows behind the first ones are one family that is new, in the order of the chain.
pub open spec fn end_with_family(now: Seq<Hop>, hops: Seq<Hop>, fam: i64) -> bool {
    &&& hops.len() < now.len()
    &&& forall|i: int| 0 <= i < hops.len() ==> family(#[trigger] hops[i]) != fam
    &&& forall|i: int|
        hops.len() <= i < now.len() ==> family(#[trigger] now[i]) == fam && seq_of(now[i]) == i
            - hops.len()
}

/// The part that rows behind the first ones make up.
pub open spec fn part_behind(now: Seq<Hop>, hops: Seq<Hop>) -> Seq<int> {
    Seq::new((now.len() - hops.len()) as nat, |k: int| hops.len() + k)
}

proof fn lemma_same_put_hop(now: Seq<Hop>, hops: Seq<Hop>, s: Seq<int>, i: int)
    requires
        begin_with(now, hops),
        in_bounds(s, hops.len() as int),
        0 <= i < hops.len(),
    ensures
        put_hop(now, s, i) == put_hop(hops, s, i),
    decreases s.len(),
{
    assert(same_place(now[i], hops[i]));
    if s.len() > 0 {
        assert(0 <= s[s.len() - 1] < hops.len());
        assert(same_place(now[s.last()], hops[s.last()]));
        let rest = s.drop_last();
        assert forall|j: int| 0 <= j < rest.len() implies 0 <= #[trigger] rest[j] < hops.len() by {
            assert(rest[j] == s[j]);
        }
        lemma_same_put_hop(now, hops, rest, i);
    }
}

/// The members of a family among the first rows are the same ones.
proof fn lemma_same_members(now: Seq<Hop>, hops: Seq<Hop>, fam: i64, n: int)
    requires
        begin_with(now, hops),
        0 <= n <= hops.len(),
    ensures
        members_upto(now, fam, n) == members_upto(hops, fam, n),
    decreases n,
{
    if n > 0 {
        lemma_same_members(now, hops, fam, n - 1);
        lemma_members(hops, fam, n - 1);
        assert(same_place(now[n - 1], hops[n - 1]));
        let rest = members_upto(hops, fam, n - 1);
        assert forall|j: int| 0 <= j < rest.len() implies 0 <= #[trigger] rest[j] < hops.len() by {}
        lemma_same_put_hop(now, hops, rest, n - 1);
    }
}

/// The rows behind belong to the new family alone, and in their order.
proof fn lemma_members_behind(now: Seq<Hop>, hops: Seq<Hop>, fam: i64, own: i64, n: int)
    requires
        begin_with(now, hops),
        end_with_family(now, hops, fam),
        hops.len() <= n <= now.len(),
    ensures
        own == fam ==> members_upto(now, own, n) == part_behind(now, hops).take(n - hops.len()),
        own != fam ==> members_upto(now, own, n) == members_upto(hops, own, hops.len() as int),
    decreases n,
{
    let all = part_behind(now, hops);
    if n == hops.len() {
        lemma_same_members(now, hops, own, n);
        if own == fam {
            lemma_members(hops, fam, n);
            let none = members_upto(hops, fam, n);
            if none.len() > 0 {
                assert(none.contains(none[0]));
                assert(family(hops[none[0]]) != fam);
            }
            assert(none =~= all.take(0));
        }
    } else {
        lemma_members_behind(now, hops, fam, own, n - 1);
        assert(family(now[n - 1]) == fam);
        if own == fam {
            let rest = all.take(n - 1 - hops.len());
            if rest.len() > 0 {
                assert(rest.last() == n - 2);
                assert(seq_of(now[n - 2]) == n - 2 - hops.len());
                assert(seq_of(now[n - 1]) == n - 1 - hops.len());
            }
            assert(rest.push(n - 1) =~= all.take(n - hops.len()));
        }
    }
}

proof fn lemma_put_again(s: Seq<i64>, id: i64)
    ensures
        with_id(with_id(s, id), id) == with_id(s, id),
    decreases s.len(),
{
    let w = with_id(s, id);
    if s.len() > 0 && s.last() > id {
        let rest = s.drop_last();
        lemma_put_again(rest, id);
        assert(w.drop_last() =~= with_id(rest, id));
    }
}

/// An id that is not among ids is put in one place of them.
proof fn lemma_put_new(s: Seq<i64>, id: i64) -> (k: int)
    requires
        !s.contains(id),
    ensures
        0 <= k <= s.len(),
        with_id(s, id) == s.insert(k, id),
    decreases s.len(),
{
    if s.len() == 0 || s.last() < id {
        assert(s.insert(s.len() as int, id) =~= s.push(id));
        s.len() as int
    } else {
        assert(s[s.len() - 1] != id);
        let rest = s.drop_last();
        assert forall|j: int| 0 <= j < rest.len() implies rest[j] != id by {
            assert(s[j] != id);
        }
        let k = lemma_put_new(rest, id);
        assert(rest.insert(k, id).push(s.last()) =~= s.insert(k, id));
        k
    }
}

proof fn lemma_same_families(now: Seq<Hop>, hops: Seq<Hop>)
    requires
        begin_with(now, hops),
        now.len() == hops.len(),
    ensures
        families(now) == families(hops),
    decreases hops.len(),
{
    if hops.len() > 0 {
        let (a, b) = (now.drop_last(), hops.drop_last());
        assert forall|i: int| 0 <= i < b.len() implies same_place(#[trigger] a[i], b[i]) by {
            assert(same_place(now[i], hops[i]));
        }
        lemma_same_families(a, b);
        assert(same_place(now[now.len() - 1], hops[hops.len() - 1]));
    } else {
        assert(families(now) =~= families(hops));
    }
}

proof fn lemma_families_behind(now: Seq<Hop>, hops: Seq<Hop>, fam: i64)
    requires
        begin_with(now, hops),
        end_with_family(now, hops, fam),
    ensures
        families(now) == with_id(families(hops), fam),
    decreases now.len(),
{
    let rest = now.drop_last();
    assert forall|i: int| 0 <= i < hops.len() implies same_place(#[trigger] rest[i], hops[i]) by {
        assert(same_place(now[i], hops[i]));
    }
    assert(family(now[now.len() - 1]) == fam);
    if rest.len() > hops.len() {
        assert forall|i: int| hops.len() <= i < rest.len() implies family(#[trigger] rest[i]) == fam
            && seq_of(rest[i]) == i - hops.len() by {
            assert(family(now[i]) == fam);
        }
        lemma_families_behind(rest, hops, fam);
        lemma_put_again(families(hops), fam);
    } else {
        lemma_same_families(rest, hops);
    }
}

/// The parts there are stay as they are, and the rows behind are one more.
proof fn lemma_parts_behind(now: Seq<Hop>, hops: Seq<Hop>, fam: i64) -> (k: int)
    requires
        begin_with(now, hops),
        end_with_family(now, hops, fam),
    ensures
        0 <= k <= all_parts(hops).len(),
        all_parts(now) == all_parts(hops).insert(k, part_behind(now, hops)),
{
    lemma_families_behind(now, hops, fam);
    lemma_families(hops, fam);
    let fams = families(hops);
    let k = lemma_put_new(fams, fam);
    let (was, is) = (all_parts(hops), all_parts(now));
    assert forall|j: int| 0 <= j < is.len() implies is[j] == was.insert(
        k,
        part_behind(now, hops),
    )[j] by {
        let own = fams.insert(k, fam)[j];
        lemma_members_behind(now, hops, fam, own, now.len() as int);
        assert(is[j] == members_upto(now, own, now.len() as int));
        if j == k {
            assert(part_behind(now, hops).take(now.len() - hops.len()) =~= part_behind(now, hops));
        } else {
            let i = if j < k {
                j
            } else {
                j - 1
            };
            assert(own == fams[i]);
            assert(fams.contains(own));
            assert(was[i] == members_upto(hops, own, hops.len() as int));
        }
    }
    assert(is =~= was.insert(k, part_behind(now, hops)));
    k
}

proof fn lemma_same_put_part(now: Seq<Hop>, hops: Seq<Hop>, s: Seq<Seq<int>>, p: Seq<int>)
    requires
        begin_with(now, hops),
        are_parts(s, hops.len() as int),
        p.len() > 0,
        in_bounds(p, hops.len() as int),
    ensures
        put_part(now, s, p) == put_part(hops, s, p),
        are_parts(put_part(hops, s, p), hops.len() as int),
    decreases s.len(),
{
    assert(0 <= p[0] < hops.len());
    assert(same_place(now[p[0]], hops[p[0]]));
    let put = put_part(hops, s, p);
    if s.len() > 0 && part_before(hops, p, s.last()) {
        let last = s[s.len() - 1];
        assert(last.len() > 0 && in_bounds(last, hops.len() as int));
        assert(0 <= last[0] < hops.len());
        assert(same_place(now[last[0]], hops[last[0]]));
        let rest = s.drop_last();
        assert forall|j: int| 0 <= j < rest.len() implies (#[trigger] rest[j]).len() > 0 && in_bounds(
            rest[j],
            hops.len() as int,
        ) by {
            assert(rest[j] == s[j]);
        }
        lemma_same_put_part(now, hops, rest, p);
        assert forall|j: int| 0 <= j < put.len() implies (#[trigger] put[j]).len() > 0 && in_bounds(
            put[j],
            hops.len() as int,
        ) by {
            if j < put.len() - 1 {
                assert(put[j] == put_part(hops, rest, p)[j]);
            }
        }
    } else {
        if s.len() > 0 {
            let last = s[s.len() - 1];
            assert(last.len() > 0 && in_bounds(last, hops.len() as int));
            assert(0 <= last[0] < hops.len());
            assert(same_place(now[last[0]], hops[last[0]]));
        }
        assert forall|j: int| 0 <= j < put.len() implies (#[trigger] put[j]).len() > 0 && in_bounds(
            put[j],
            hops.len() as int,
        ) by {
            if j < s.len() {
                assert(put[j] == s[j]);
            }
        }
    }
}

/// A rule has the same parts among the same ones.
proof fn lemma_same_parts_with(now: Seq<Hop>, hops: Seq<Hop>, parts: Seq<Seq<int>>, lin: i64)
    requires
        begin_with(now, hops),
        are_parts(parts, hops.len() as int),
    ensures
        parts_with(now, parts, lin) == parts_with(hops, parts, lin),
        are_parts(parts_with(hops, parts, lin), hops.len() as int),
    decreases parts.len(),
{
    if parts.len() > 0 {
        let rest = parts.drop_last();
        assert forall|j: int| 0 <= j < rest.len() implies (#[trigger] rest[j]).len() > 0 && in_bounds(
            rest[j],
            hops.len() as int,
        ) by {
            assert(rest[j] == parts[j]);
        }
        lemma_same_parts_with(now, hops, rest, lin);
        let last = parts[parts.len() - 1];
        assert(last.len() > 0 && in_bounds(last, hops.len() as int));
        assert(0 <= last[0] < hops.len());
        assert(same_place(now[last[0]], hops[last[0]]));
        lemma_same_put_part(now, hops, parts_with(hops, rest, lin), last);
    }
}

/// The last part of a rule is one of the rule, and none of the rule starts after it.
pub proof fn lemma_last_part(hops: Seq<Hop>, parts: Seq<Seq<int>>, lin: i64)
    ensures
        ({
            let own = parts_with(hops, parts, lin);
            &&& forall|j: int|
                0 <= j < own.len() ==> lineage(hops, #[trigger] own[j]) == lin
                    && hops[own[j][0]].dtstart.days <= hops[own.last()[0]].dtstart.days
        }),
    decreases parts.len(),
{
    if parts.len() > 0 {
        let rest = parts.drop_last();
        lemma_last_part(hops, rest, lin);
        if lineage(hops, parts.last()) == lin {
            let before = parts_with(hops, rest, lin);
            let own = put_part(hops, before, parts.last());
            assert forall|j: int| 0 <= j < own.len() implies lineage(hops, #[trigger] own[j]) == lin
                && hops[own[j][0]].dtstart.days <= hops[own.last()[0]].dtstart.days by {
                assert(own.contains(own[j]));
                lemma_put_part_contains(hops, before, parts.last(), own[j]);
                if before.contains(own[j]) {
                    let i = choose|i: int| 0 <= i < before.len() && before[i] == own[j];
                    assert(lineage(hops, before[i]) == lin);
                }
            }
        }
    }
}

/// A part that starts after every other of its rule is the last of it, wherever it stands.
proof fn lemma_newest_last(hops: Seq<Hop>, parts: Seq<Seq<int>>, lin: i64, k: int, p: Seq<int>)
    requires
        0 <= k <= parts.len(),
        lineage(hops, p) == lin,
        forall|j: int|
            0 <= j < parts.len() && lineage(hops, #[trigger] parts[j]) == lin ==> part_before(
                hops,
                parts[j],
                p,
            ),
    ensures
        parts_with(hops, parts.insert(k, p), lin) == parts_with(hops, parts, lin).push(p),
    decreases parts.len(),
{
    let all = parts.insert(k, p);
    if k == parts.len() {
        assert(all.drop_last() =~= parts);
        let own = parts_with(hops, parts, lin);
        if own.len() > 0 {
            lemma_part_of(hops, parts, lin, own.len() - 1);
        }
    } else {
        let rest = parts.drop_last();
        assert forall|j: int| 0 <= j < rest.len() && lineage(hops, #[trigger] rest[j])
            == lin implies part_before(hops, rest[j], p) by {
            assert(rest[j] == parts[j]);
        }
        lemma_newest_last(hops, rest, lin, k, p);
        assert(all.drop_last() =~= rest.insert(k, p));
        assert(all.last() == parts[parts.len() - 1]);
        let own = parts_with(hops, rest, lin);
        assert(own.push(p).drop_last() =~= own);
    }
}

/// A part of a rule among parts is one of them, and of that rule.
proof fn lemma_part_of(hops: Seq<Hop>, parts: Seq<Seq<int>>, lin: i64, i: int) -> (j: int)
    requires
        0 <= i < parts_with(hops, parts, lin).len(),
    ensures
        0 <= j < parts.len(),
        parts[j] == parts_with(hops, parts, lin)[i],
        lineage(hops, parts[j]) == lin,
    decreases parts.len(),
{
    let rest = parts.drop_last();
    let own = parts_with(hops, parts, lin);
    let before = parts_with(hops, rest, lin);
    if lineage(hops, parts.last()) == lin {
        assert(own.contains(own[i]));
        lemma_put_part_contains(hops, before, parts.last(), own[i]);
        if own[i] == parts.last() {
            parts.len() - 1
        } else {
            let n = choose|n: int| 0 <= n < before.len() && before[n] == own[i];
            let j = lemma_part_of(hops, rest, lin, n);
            assert(rest[j] == parts[j]);
            j
        }
    } else {
        let j = lemma_part_of(hops, rest, lin, i);
        assert(rest[j] == parts[j]);
        j
    }
}

/// Rows added behind as one family of a rule, starting after its newest part, are the newest part of
/// it since, and its other parts are those there were.
pub proof fn lemma_rule_grows(now: Seq<Hop>, hops: Seq<Hop>, fam: i64, row: i64, id: i64)
    requires
        begin_with(now, hops),
        end_with_family(now, hops, fam),
        rule_of(hops, row) is Some,
        ({
            let last = (rule_of(hops, row)->0).last();
            &&& lineage(now, part_behind(now, hops)) == lineage(hops, last)
            &&& hops[last[0]].dtstart.days < now[hops.len() as int].dtstart.days
        }),
        has_row(now, part_behind(now, hops), id),
        forall|i: int| 0 <= i < hops.len() ==> (#[trigger] hops[i]).id != id,
    ensures
        rule_of(now, id) == Some((rule_of(hops, row)->0).push(part_behind(now, hops))),
        (rule_of(hops, row)->0).len() > 0,
        are_parts(rule_of(hops, row)->0, hops.len() as int),
{
    let n = hops.len() as int;
    let new = part_behind(now, hops);
    let was = all_parts(hops);
    let is = all_parts(now);
    let k = lemma_parts_behind(now, hops, fam);
    lemma_all_parts(hops);
    let f = first(was.len() as int, part_has(hops, was, row));
    crate::lists::lemma_first_is(was.len() as int, part_has(hops, was, row));
    let lin = lineage(hops, was[f]);
    let own = parts_with(hops, was, lin);
    lemma_parts_with_has(hops, was, lin, f);
    lemma_last_part(hops, was, lin);
    lemma_same_parts_with(now, hops, was, lin);
    assert(lineage(hops, own[own.len() - 1]) == lin);
    assert forall|j: int| 0 <= j < was.len() && lineage(now, #[trigger] was[j])
        == lin implies part_before(now, was[j], new) by {
        assert(was[j].len() > 0 && in_bounds(was[j], n));
        assert(0 <= was[j][0] < n);
        assert(same_place(now[was[j][0]], hops[was[j][0]]));
        lemma_parts_with_has(hops, was, lin, j);
        let i = choose|i: int| 0 <= i < own.len() && own[i] == was[j];
        assert(lineage(hops, own[i]) == lin);
        assert(new[0] == n);
    }
    lemma_newest_last(now, was, lin, k, new);
    assert forall|j: int| 0 <= j < k implies !#[trigger] part_has(now, is, id)(j) by {
        assert(is[j] == was[j]);
        assert(was[j].len() > 0 && in_bounds(was[j], n));
        assert forall|i: int| 0 <= i < was[j].len() implies (#[trigger] now[was[j][i]]).id != id by {
            assert(0 <= was[j][i] < n);
            assert(same_place(now[was[j][i]], hops[was[j][i]]));
        }
    }
    assert(is[k] == new);
    assert(part_has(now, is, id)(k));
    lemma_first(is.len() as int, part_has(now, is, id), k);
}

} // verus!
