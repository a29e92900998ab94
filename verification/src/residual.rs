//! Net movement per account across several transactions.
//!
//! It is the accounts money passed straight through that fall to nothing and drop out; what is left
//! says where the money came from, where it ended up, and what is still in flight.

use crate::money::Minor;
use crate::paths::holds;
use crate::text::{
    lemma_text_irreflexive, lemma_text_total, lemma_text_transitive, str_eq, text_less, text_lt,
};
use vstd::prelude::*;

verus! {

broadcast use vstd::string::group_string_axioms;

/// A posting of the book with what its account says of it.
#[derive(Debug, Clone)]
pub struct PostingRow {
    pub txn_id: i64,
    pub account_id: i64,
    pub account: String,
    pub kind: String,
    pub currency: String,
    pub amount_minor: Minor,
}

/// What an account is left with in a currency.
#[derive(Debug, Clone)]
pub struct Residual {
    pub account_id: i64,
    pub account: String,
    pub kind: String,
    pub currency: String,
    pub amount_minor: Minor,
}

/// What some transactions do to an account in a currency.
pub open spec fn net(
    postings: Seq<PostingRow>,
    txns: Seq<i64>,
    account: i64,
    currency: Seq<char>,
) -> int
    decreases postings.len(),
{
    if postings.len() == 0 {
        0
    } else {
        let p = postings.last();
        net(postings.drop_last(), txns, account, currency) + (if txns.contains(p.txn_id)
            && p.account_id == account && p.currency@ == currency {
            p.amount_minor as int
        } else {
            0
        })
    }
}

/// Whether an account and a currency have a residual among residuals.
pub open spec fn listed(v: Seq<Residual>, account: i64, currency: Seq<char>) -> bool {
    exists|i: int| 0 <= i < v.len() && is_for(#[trigger] v[i], account, currency)
}

/// Whether a residual is that of an account in a currency.
pub open spec fn is_for(r: Residual, account: i64, currency: Seq<char>) -> bool {
    r.account_id == account && r.currency@ == currency
}

/// Whether a residual carries the name and kind of a posting of its account.
pub open spec fn named_by(r: Residual, postings: Seq<PostingRow>) -> bool {
    exists|i: int|
        0 <= i < postings.len() && (#[trigger] postings[i]).account_id == r.account_id
            && postings[i].account@ == r.account@ && postings[i].kind@ == r.kind@
            && postings[i].currency@ == r.currency@
}

/// Whether these are the residuals of some transactions: one for each account and currency that they
/// leave with something, and none for those that come to nothing.
pub open spec fn are_residuals(
    v: Seq<Residual>,
    postings: Seq<PostingRow>,
    txns: Seq<i64>,
) -> bool {
    &&& forall|i: int|
        0 <= i < v.len() ==> (#[trigger] v[i]).amount_minor == net(
            postings,
            txns,
            v[i].account_id,
            v[i].currency@,
        ) && v[i].amount_minor != 0 && named_by(v[i], postings)
    &&& forall|i: int, j: int|
        0 <= i < j < v.len() ==> !is_for(
            #[trigger] v[i],
            (#[trigger] v[j]).account_id,
            v[j].currency@,
        )
    &&& forall|a: i64, c: Seq<char>| #[trigger]
        net(postings, txns, a, c) != 0 ==> listed(v, a, c)
}

/// How residuals are put in order.
#[derive(Debug, Clone, Copy, PartialEq, Eq)]
pub enum By {
    Name,
    Amount,
}

/// Whether one residual stands strictly before another.
pub open spec fn precedes(a: Residual, b: Residual, by: By) -> bool {
    match by {
        By::Name => text_lt(a.account@, b.account@),
        By::Amount => a.amount_minor < b.amount_minor,
    }
}

/// Whether residuals stand in order.
pub open spec fn in_order(v: Seq<Residual>, by: By) -> bool {
    forall|i: int, j: int| 0 <= i < j < v.len() ==> !precedes(#[trigger] v[j], #[trigger] v[i], by)
}

/// Whether every net of these transactions fits an amount.
pub open spec fn nets_fit(postings: Seq<PostingRow>, txns: Seq<i64>) -> bool {
    forall|a: i64, c: Seq<char>|
        i64::MIN <= #[trigger] net(postings, txns, a, c) <= i64::MAX
}

struct Group {
    account_id: i64,
    account: String,
    kind: String,
    currency: String,
    total: i128,
}

spec fn group_for(g: Group, account: i64, currency: Seq<char>) -> bool {
    g.account_id == account && g.currency@ == currency
}

spec fn grouped(v: Seq<Group>, account: i64, currency: Seq<char>) -> bool {
    exists|i: int| 0 <= i < v.len() && group_for(#[trigger] v[i], account, currency)
}

spec fn group_named(g: Group, postings: Seq<PostingRow>) -> bool {
    exists|i: int|
        0 <= i < postings.len() && (#[trigger] postings[i]).account_id == g.account_id
            && postings[i].account@ == g.account@ && postings[i].kind@ == g.kind@
            && postings[i].currency@ == g.currency@
}

spec fn are_groups(
    v: Seq<Group>,
    part: Seq<PostingRow>,
    postings: Seq<PostingRow>,
    txns: Seq<i64>,
) -> bool {
    &&& forall|i: int|
        0 <= i < v.len() ==> (#[trigger] v[i]).total == net(
            part,
            txns,
            v[i].account_id,
            v[i].currency@,
        ) && group_named(v[i], postings)
    &&& forall|i: int, j: int|
        0 <= i < j < v.len() ==> !group_for(
            #[trigger] v[i],
            (#[trigger] v[j]).account_id,
            v[j].currency@,
        )
    &&& forall|a: i64, c: Seq<char>| #[trigger] net(part, txns, a, c) != 0 ==> grouped(v, a, c)
}

proof fn lemma_net_bound(postings: Seq<PostingRow>, txns: Seq<i64>, a: i64, c: Seq<char>)
    ensures
        -(postings.len() * 0x8000_0000_0000_0000) <= net(postings, txns, a, c) <= postings.len()
            * 0x8000_0000_0000_0000,
    decreases postings.len(),
{
    if postings.len() > 0 {
        lemma_net_bound(postings.drop_last(), txns, a, c);
    }
}

fn group(postings: &Vec<PostingRow>, txns: &Vec<i64>) -> (r: Vec<Group>)
    ensures
        are_groups(r@, postings@, postings@, txns@),
{
    let mut out: Vec<Group> = Vec::new();
    let mut i: usize = 0;
    while i < postings.len()
        invariant
            i <= postings@.len(),
            are_groups(out@, postings@.take(i as int), postings@, txns@),
        decreases postings@.len() - i,
    {
        let p = &postings[i];
        let ghost part = postings@.take(i as int);
        let ghost more = postings@.take(i + 1);
        let ghost before = out@;
        proof {
            assert(more.drop_last() =~= part);
            assert(more.last() == *p);
        }
        if holds(txns, p.txn_id) {
            let mut k: usize = 0;
            while k < out.len() && !(out[k].account_id == p.account_id && str_eq(
                out[k].currency.as_str(),
                p.currency.as_str(),
            ))
                invariant
                    k <= out@.len(),
                    out@ == before,
                    forall|j: int|
                        0 <= j < k ==> !group_for(#[trigger] out@[j], p.account_id, p.currency@),
                decreases out@.len() - k,
            {
                k = k + 1;
            }
            if k < out.len() {
                proof {
                    lemma_net_bound(more, txns@, p.account_id, p.currency@);
                    assert(before[k as int].total == net(
                        part,
                        txns@,
                        p.account_id,
                        p.currency@,
                    ));
                }
                let g = Group {
                    account_id: out[k].account_id,
                    account: out[k].account.clone(),
                    kind: out[k].kind.clone(),
                    currency: out[k].currency.clone(),
                    total: out[k].total + p.amount_minor as i128,
                };
                proof {
                    let now = before.update(k as int, g);
                    assert(group_named(before[k as int], postings@));
                    assert forall|j: int| 0 <= j < now.len() implies (#[trigger] now[j]).total
                        == net(more, txns@, now[j].account_id, now[j].currency@) && group_named(
                        now[j],
                        postings@,
                    ) by {
                        assert(before[j].total == net(
                            part,
                            txns@,
                            before[j].account_id,
                            before[j].currency@,
                        ));
                        if j < k {
                            assert(!group_for(before[j], p.account_id, p.currency@));
                        }
                        if j > k {
                            assert(!group_for(
                                before[k as int],
                                before[j].account_id,
                                before[j].currency@,
                            ));
                        }
                    }
                    assert forall|a: int, b: int| 0 <= a < b < now.len() implies !group_for(
                        #[trigger] now[a],
                        (#[trigger] now[b]).account_id,
                        now[b].currency@,
                    ) by {
                        assert(!group_for(before[a], before[b].account_id, before[b].currency@));
                    }
                    assert forall|a: i64, c: Seq<char>| #[trigger]
                        net(more, txns@, a, c) != 0 implies grouped(now, a, c) by {
                        if a == p.account_id && c == p.currency@ {
                            assert(group_for(now[k as int], a, c));
                        } else {
                            assert(net(part, txns@, a, c) != 0);
                            let j = choose|j: int|
                                0 <= j < before.len() && group_for(#[trigger] before[j], a, c);
                            assert(group_for(now[j], a, c));
                        }
                    }
                }
                out.set(k, g);
            } else {
                let g = Group {
                    account_id: p.account_id,
                    account: p.account.clone(),
                    kind: p.kind.clone(),
                    currency: p.currency.clone(),
                    total: p.amount_minor as i128,
                };
                proof {
                    let now = before.push(g);
                    assert(postings@[i as int].account_id == g.account_id);
                    assert(group_named(g, postings@));
                    assert(net(part, txns@, p.account_id, p.currency@) == 0) by {
                        if net(part, txns@, p.account_id, p.currency@) != 0 {
                            assert(grouped(before, p.account_id, p.currency@));
                        }
                    }
                    assert forall|j: int| 0 <= j < now.len() implies (#[trigger] now[j]).total
                        == net(more, txns@, now[j].account_id, now[j].currency@) && group_named(
                        now[j],
                        postings@,
                    ) by {
                        if j < k {
                            assert(!group_for(before[j], p.account_id, p.currency@));
                            assert(before[j].total == net(
                                part,
                                txns@,
                                before[j].account_id,
                                before[j].currency@,
                            ));
                        }
                    }
                    assert forall|a: int, b: int| 0 <= a < b < now.len() implies !group_for(
                        #[trigger] now[a],
                        (#[trigger] now[b]).account_id,
                        now[b].currency@,
                    ) by {
                        if b < k {
                            assert(!group_for(
                                before[a],
                                before[b].account_id,
                                before[b].currency@,
                            ));
                        } else {
                            assert(!group_for(before[a], p.account_id, p.currency@));
                        }
                    }
                    assert forall|a: i64, c: Seq<char>| #[trigger]
                        net(more, txns@, a, c) != 0 implies grouped(now, a, c) by {
                        if a == p.account_id && c == p.currency@ {
                            assert(group_for(now[k as int], a, c));
                        } else {
                            assert(net(part, txns@, a, c) != 0);
                            let j = choose|j: int|
                                0 <= j < before.len() && group_for(#[trigger] before[j], a, c);
                            assert(group_for(now[j], a, c));
                        }
                    }
                }
                out.push(g);
            }
        } else {
            proof {
                assert forall|a: i64, c: Seq<char>| #[trigger]
                    net(more, txns@, a, c) == net(part, txns@, a, c) by {}
                assert(are_groups(out@, more, postings@, txns@));
            }
        }
        i = i + 1;
    }
    assert(postings@.take(postings@.len() as int) =~= postings@);
    out
}

fn stands_before(a: &Residual, b: &Residual, by: By) -> (r: bool)
    ensures
        r == precedes(*a, *b, by),
{
    match by {
        By::Name => text_less(a.account.as_str(), b.account.as_str()),
        By::Amount => a.amount_minor < b.amount_minor,
    }
}

proof fn lemma_precedes(a: Residual, b: Residual, c: Residual, by: By)
    ensures
        precedes(a, b, by) ==> !precedes(b, a, by),
        precedes(a, b, by) && !precedes(c, b, by) ==> precedes(a, c, by),
{
    if by == By::Name {
        if text_lt(a.account@, b.account@) && text_lt(b.account@, a.account@) {
            lemma_text_transitive(a.account@, b.account@, a.account@);
            lemma_text_irreflexive(a.account@);
        }
        if text_lt(a.account@, b.account@) && !text_lt(c.account@, b.account@) {
            lemma_text_total(b.account@, c.account@);
            if b.account@ != c.account@ {
                lemma_text_transitive(a.account@, b.account@, c.account@);
            }
        }
    }
}

/// Put a residual in its place: after those it does not stand before.
fn place(v: &mut Vec<Residual>, r: Residual, by: By) -> (at: usize)
    requires
        in_order(old(v)@, by),
    ensures
        at <= old(v)@.len(),
        final(v)@ == old(v)@.insert(at as int, r),
        in_order(final(v)@, by),
{
    let mut k: usize = v.len();
    while k > 0 && stands_before(&r, &v[k - 1], by)
        invariant
            k <= v@.len(),
            v@ == old(v)@,
            forall|j: int| k <= j < v@.len() ==> precedes(r, #[trigger] v@[j], by),
        decreases k,
    {
        k = k - 1;
    }
    proof {
        let before = v@;
        let now = before.insert(k as int, r);
        assert forall|i: int, j: int| 0 <= i < j < now.len() implies !precedes(
            #[trigger] now[j],
            #[trigger] now[i],
            by,
        ) by {
            if i == k {
                lemma_precedes(r, before[j - 1], r, by);
            } else if j == k {
                if precedes(r, before[i], by) {
                    if i < k - 1 {
                        assert(!precedes(before[k - 1], before[i], by));
                    }
                    lemma_precedes(r, before[i], before[k - 1], by);
                    lemma_precedes(before[i], before[i], before[i], by);
                }
            } else {
                let a = if i < k {
                    i
                } else {
                    i - 1
                };
                let b = if j < k {
                    j
                } else {
                    j - 1
                };
                assert(!precedes(before[b], before[a], by));
            }
        }
    }
    v.insert(k, r);
    k
}

proof fn lemma_listed_insert(v: Seq<Residual>, at: int, r: Residual, a: i64, c: Seq<char>)
    requires
        0 <= at <= v.len(),
    ensures
        listed(v.insert(at, r), a, c) == (listed(v, a, c) || is_for(r, a, c)),
{
    let now = v.insert(at, r);
    if listed(v, a, c) {
        let i = choose|i: int| 0 <= i < v.len() && is_for(#[trigger] v[i], a, c);
        if i < at {
            assert(now[i] == v[i]);
        } else {
            assert(now[i + 1] == v[i]);
        }
    }
    if is_for(r, a, c) {
        assert(now[at] == r);
    }
    if listed(now, a, c) && !is_for(r, a, c) {
        let i = choose|i: int| 0 <= i < now.len() && is_for(#[trigger] now[i], a, c);
        if i < at {
            assert(v[i] == now[i]);
        } else {
            assert(v[i - 1] == now[i]);
        }
    }
}

/// What each account is left with by some transactions, in order; `None` where a total leaves the
/// range of an amount.
pub fn residuals(postings: &Vec<PostingRow>, txns: &Vec<i64>, by: By) -> (r: Option<Vec<Residual>>)
    ensures
        match r {
            Some(v) => are_residuals(v@, postings@, txns@) && in_order(v@, by) && nets_fit(
                postings@,
                txns@,
            ),
            None => !nets_fit(postings@, txns@),
        },
{
    let groups = group(postings, txns);
    let mut out: Vec<Residual> = Vec::new();
    let mut i: usize = 0;
    while i < groups.len()
        invariant
            are_groups(groups@, postings@, postings@, txns@),
            i <= groups@.len(),
            in_order(out@, by),
            forall|j: int| 0 <= j < i ==> i64::MIN <= (#[trigger] groups@[j]).total <= i64::MAX,
            forall|j: int|
                0 <= j < out@.len() ==> (#[trigger] out@[j]).amount_minor == net(
                    postings@,
                    txns@,
                    out@[j].account_id,
                    out@[j].currency@,
                ) && out@[j].amount_minor != 0 && named_by(out@[j], postings@),
            forall|j: int|
                0 <= j < i && (#[trigger] groups@[j]).total != 0 ==> listed(
                    out@,
                    groups@[j].account_id,
                    groups@[j].currency@,
                ),
            forall|j: int|
                i <= j < groups@.len() ==> !listed(
                    out@,
                    (#[trigger] groups@[j]).account_id,
                    groups@[j].currency@,
                ),
            forall|a: int, b: int|
                0 <= a < b < out@.len() ==> !is_for(
                    #[trigger] out@[a],
                    (#[trigger] out@[b]).account_id,
                    out@[b].currency@,
                ),
        decreases groups@.len() - i,
    {
        let g = &groups[i];
        if g.total < i64::MIN as i128 || g.total > i64::MAX as i128 {
            assert(!(i64::MIN <= net(postings@, txns@, g.account_id, g.currency@) <= i64::MAX));
            return None;
        }
        if g.total != 0 {
            let row = Residual {
                account_id: g.account_id,
                account: g.account.clone(),
                kind: g.kind.clone(),
                currency: g.currency.clone(),
                amount_minor: g.total as i64,
            };
            let ghost before = out@;
            proof {
                assert(group_named(groups@[i as int], postings@));
                let w = choose|w: int|
                    0 <= w < postings@.len() && (#[trigger] postings@[w]).account_id
                        == g.account_id && postings@[w].account@ == g.account@
                        && postings@[w].kind@ == g.kind@ && postings@[w].currency@ == g.currency@;
                assert(postings@[w].account_id == row.account_id);
                assert(named_by(row, postings@));
                assert(!listed(before, groups@[i as int].account_id, groups@[i as int].currency@));
            }
            let at = place(&mut out, row, by);
            proof {
                let now = out@;
                assert forall|j: int| 0 <= j < now.len() implies (#[trigger] now[j]).amount_minor
                    == net(postings@, txns@, now[j].account_id, now[j].currency@)
                    && now[j].amount_minor != 0 && named_by(now[j], postings@) by {
                    if j < at {
                        assert(now[j] == before[j]);
                    } else if j > at {
                        assert(now[j] == before[j - 1]);
                    }
                }
                assert forall|j: int| 0 <= j < i + 1 && (#[trigger] groups@[j]).total
                    != 0 implies listed(now, groups@[j].account_id, groups@[j].currency@) by {
                    lemma_listed_insert(
                        before,
                        at as int,
                        row,
                        groups@[j].account_id,
                        groups@[j].currency@,
                    );
                }
                assert forall|j: int| i + 1 <= j < groups@.len() implies !listed(
                    now,
                    (#[trigger] groups@[j]).account_id,
                    groups@[j].currency@,
                ) by {
                    lemma_listed_insert(
                        before,
                        at as int,
                        row,
                        groups@[j].account_id,
                        groups@[j].currency@,
                    );
                    assert(!group_for(
                        groups@[i as int],
                        groups@[j].account_id,
                        groups@[j].currency@,
                    ));
                }
                assert forall|a: int, b: int| 0 <= a < b < now.len() implies !is_for(
                    #[trigger] now[a],
                    (#[trigger] now[b]).account_id,
                    now[b].currency@,
                ) by {
                    let x = if a < at {
                        a
                    } else {
                        a - 1
                    };
                    let y = if b < at {
                        b
                    } else {
                        b - 1
                    };
                    if a == at {
                        assert(now[b] == before[y]);
                        assert(!is_for(before[y], row.account_id, row.currency@));
                    } else if b == at {
                        assert(now[a] == before[x]);
                        assert(!is_for(before[x], row.account_id, row.currency@));
                    } else {
                        assert(now[a] == before[x] && now[b] == before[y]);
                    }
                }
            }
        }
        i = i + 1;
    }
    proof {
        assert forall|a: i64, c: Seq<char>| #[trigger]
            net(postings@, txns@, a, c) != 0 implies listed(out@, a, c) by {
            let j = choose|j: int| 0 <= j < groups@.len() && group_for(#[trigger] groups@[j], a, c);
            assert(groups@[j].total != 0);
        }
        assert forall|a: i64, c: Seq<char>|
            i64::MIN <= #[trigger] net(postings@, txns@, a, c) <= i64::MAX by {
            if net(postings@, txns@, a, c) != 0 {
                let j = choose|j: int|
                    0 <= j < groups@.len() && group_for(#[trigger] groups@[j], a, c);
                assert(groups@[j].total == net(postings@, txns@, a, c));
            }
        }
    }
    Some(out)
}

/// An account that money passed straight through drops out: it is listed only where something is
/// left in it.
pub proof fn law_what_passes_through_drops_out(
    v: Seq<Residual>,
    postings: Seq<PostingRow>,
    txns: Seq<i64>,
    account: i64,
    currency: Seq<char>,
)
    requires
        are_residuals(v, postings, txns),
    ensures
        listed(v, account, currency) <==> net(postings, txns, account, currency) != 0,
{
    if listed(v, account, currency) {
        let i = choose|i: int| 0 <= i < v.len() && is_for(#[trigger] v[i], account, currency);
        assert(v[i].amount_minor != 0);
    }
}

} // verus!
