//! The postings of a book as the analysis reads them, and their totals per account.

use crate::money::Minor;
use crate::text::{opt_view, str_eq, text_less, text_lt};
use vstd::prelude::*;

verus! {

broadcast use vstd::string::group_string_axioms;

/// A posting with what its transaction and its account say of it.
#[derive(Debug, Clone)]
pub struct BookEntry {
    pub txn_id: i64,
    pub occurred_on: String,
    pub description: String,
    pub payee: Option<String>,
    pub account_id: i64,
    pub account: String,
    pub kind: String,
    pub system: bool,
    pub currency: String,
    pub amount_minor: Minor,
}

/// The content of a posting.
pub struct EntryView {
    pub txn_id: i64,
    pub occurred_on: Seq<char>,
    pub description: Seq<char>,
    pub payee: Option<Seq<char>>,
    pub account_id: i64,
    pub account: Seq<char>,
    pub kind: Seq<char>,
    pub system: bool,
    pub currency: Seq<char>,
    pub amount: int,
}

impl View for BookEntry {
    type V = EntryView;

    open spec fn view(&self) -> EntryView {
        EntryView {
            txn_id: self.txn_id,
            occurred_on: self.occurred_on@,
            description: self.description@,
            payee: opt_view(self.payee),
            account_id: self.account_id,
            account: self.account@,
            kind: self.kind@,
            system: self.system,
            currency: self.currency@,
            amount: self.amount_minor as int,
        }
    }
}

/// The contents of postings.
pub open spec fn entry_views(v: Seq<BookEntry>) -> Seq<EntryView> {
    v.map_values(|e: BookEntry| e@)
}

/// A copy of a posting.
pub fn copy_entry(e: &BookEntry) -> (r: BookEntry)
    ensures
        r@ == e@,
{
    BookEntry {
        txn_id: e.txn_id,
        occurred_on: e.occurred_on.clone(),
        description: e.description.clone(),
        payee: match &e.payee {
            Some(p) => Some(p.clone()),
            None => None,
        },
        account_id: e.account_id,
        account: e.account.clone(),
        kind: e.kind.clone(),
        system: e.system,
        currency: e.currency.clone(),
        amount_minor: e.amount_minor,
    }
}

/// Whether every amount is one that a book can hold.
pub open spec fn amounts_fit(entries: Seq<EntryView>) -> bool {
    forall|i: int|
        0 <= i < entries.len() ==> i64::MIN <= (#[trigger] entries[i]).amount <= i64::MAX
}

/// The amounts of postings are amounts.
pub proof fn lemma_amounts_fit(v: Seq<BookEntry>)
    ensures
        amounts_fit(entry_views(v)),
{
}

/// Whether a posting is on an account in a currency.
pub open spec fn is_on(e: EntryView, account: i64, currency: Seq<char>) -> bool {
    e.account_id == account && e.currency == currency
}

/// What postings come to on an account in a currency.
pub open spec fn total_on(entries: Seq<EntryView>, account: i64, currency: Seq<char>) -> int
    decreases entries.len(),
{
    if entries.len() == 0 {
        0
    } else {
        total_on(entries.drop_last(), account, currency) + (if is_on(
            entries.last(),
            account,
            currency,
        ) {
            entries.last().amount
        } else {
            0
        })
    }
}

/// The last day on which postings move an account in a currency.
pub open spec fn last_on(entries: Seq<EntryView>, account: i64, currency: Seq<char>) -> Option<
    Seq<char>,
>
    decreases entries.len(),
{
    if entries.len() == 0 {
        None
    } else {
        let before = last_on(entries.drop_last(), account, currency);
        let e = entries.last();
        if is_on(e, account, currency) && (before is None || text_lt(before->0, e.occurred_on)) {
            Some(e.occurred_on)
        } else {
            before
        }
    }
}

/// The total of an account in a currency.
#[derive(Debug, Clone)]
pub struct AccountTotal {
    pub account_id: i64,
    pub account: String,
    pub kind: String,
    pub currency: String,
    pub total: i128,
    pub last_on: String,
}

/// Whether a total is that of an account in a currency.
pub open spec fn total_is_for(t: AccountTotal, account: i64, currency: Seq<char>) -> bool {
    t.account_id == account && t.currency@ == currency
}

/// Whether a total has the name and kind of one of the postings it adds up.
pub open spec fn total_named(t: AccountTotal, entries: Seq<EntryView>) -> bool {
    exists|i: int|
        0 <= i < entries.len() && is_on(#[trigger] entries[i], t.account_id, t.currency@)
            && entries[i].account == t.account@ && entries[i].kind == t.kind@
}

/// Whether totals hold one for an account in a currency.
pub open spec fn has_total(v: Seq<AccountTotal>, account: i64, currency: Seq<char>) -> bool {
    exists|i: int| 0 <= i < v.len() && total_is_for(#[trigger] v[i], account, currency)
}

/// Whether these are the totals of postings: one for each account and currency that they touch.
pub open spec fn are_totals(v: Seq<AccountTotal>, entries: Seq<EntryView>) -> bool {
    &&& forall|i: int|
        0 <= i < v.len() ==> (#[trigger] v[i]).total == total_on(
            entries,
            v[i].account_id,
            v[i].currency@,
        ) && Some(v[i].last_on@) == last_on(entries, v[i].account_id, v[i].currency@)
            && total_named(v[i], entries)
    &&& forall|i: int, j: int|
        0 <= i < j < v.len() ==> !total_is_for(
            #[trigger] v[i],
            (#[trigger] v[j]).account_id,
            v[j].currency@,
        )
    &&& forall|i: int|
        0 <= i < entries.len() ==> has_total(
            v,
            (#[trigger] entries[i]).account_id,
            entries[i].currency,
        )
}

proof fn lemma_total_bound(entries: Seq<EntryView>, account: i64, currency: Seq<char>)
    requires
        amounts_fit(entries),
    ensures
        -(entries.len() * 0x8000_0000_0000_0000) <= total_on(entries, account, currency)
            <= entries.len() * 0x8000_0000_0000_0000,
    decreases entries.len(),
{
    if entries.len() > 0 {
        let rest = entries.drop_last();
        assert forall|i: int| 0 <= i < rest.len() implies i64::MIN <= (#[trigger] rest[i]).amount
            <= i64::MAX by {
            assert(rest[i] == entries[i]);
        }
        assert(i64::MIN <= entries[entries.len() - 1].amount <= i64::MAX);
        lemma_total_bound(rest, account, currency);
    }
}

/// An account that no posting is on has no total and no last day.
pub proof fn lemma_untouched(entries: Seq<EntryView>, account: i64, currency: Seq<char>)
    requires
        forall|i: int|
            0 <= i < entries.len() ==> !is_on(#[trigger] entries[i], account, currency),
    ensures
        total_on(entries, account, currency) == 0,
        last_on(entries, account, currency) is None,
    decreases entries.len(),
{
    if entries.len() > 0 {
        let rest = entries.drop_last();
        assert forall|i: int| 0 <= i < rest.len() implies !is_on(
            #[trigger] rest[i],
            account,
            currency,
        ) by {
            assert(rest[i] == entries[i]);
        }
        assert(!is_on(entries[entries.len() - 1], account, currency));
        lemma_untouched(rest, account, currency);
    }
}

/// The totals of postings, in the order in which their accounts first appear.
pub fn totals(entries: &Vec<BookEntry>) -> (r: Vec<AccountTotal>)
    ensures
        are_totals(r@, entry_views(entries@)),
{
    let ghost all = entry_views(entries@);
    let mut out: Vec<AccountTotal> = Vec::new();
    let mut i: usize = 0;
    assert(all.take(0) =~= Seq::<EntryView>::empty());
    while i < entries.len()
        invariant
            i <= entries@.len(),
            all == entry_views(entries@),
            are_totals(out@, all.take(i as int)),
        decreases entries@.len() - i,
    {
        let e = &entries[i];
        let ghost part = all.take(i as int);
        let ghost more = all.take(i + 1);
        let ghost before = out@;
        proof {
            assert(more.drop_last() =~= part);
            assert(more.last() == e@);
            assert(forall|j: int| 0 <= j < part.len() ==> #[trigger] more[j] == part[j]);
        }
        let mut k: usize = 0;
        while k < out.len() && !(out[k].account_id == e.account_id && str_eq(
            out[k].currency.as_str(),
            e.currency.as_str(),
        ))
            invariant
                k <= out@.len(),
                out@ == before,
                forall|j: int|
                    0 <= j < k ==> !total_is_for(#[trigger] out@[j], e.account_id, e.currency@),
            decreases out@.len() - k,
        {
            k = k + 1;
        }
        if k < out.len() {
            proof {
                lemma_amounts_fit(entries@);
                assert(amounts_fit(more)) by {
                    assert forall|j: int| 0 <= j < more.len() implies i64::MIN <= (
                    #[trigger] more[j]).amount <= i64::MAX by {
                        assert(more[j] == all[j]);
                    }
                }
                lemma_total_bound(more, e.account_id, e.currency@);
            }
            let later = text_less(out[k].last_on.as_str(), e.occurred_on.as_str());
            let last = if later {
                e.occurred_on.clone()
            } else {
                out[k].last_on.clone()
            };
            let t = AccountTotal {
                account_id: out[k].account_id,
                account: out[k].account.clone(),
                kind: out[k].kind.clone(),
                currency: out[k].currency.clone(),
                total: out[k].total + e.amount_minor as i128,
                last_on: last,
            };
            proof {
                let now = before.update(k as int, t);
                assert(total_named(before[k as int], part));
                assert forall|j: int| 0 <= j < now.len() implies (#[trigger] now[j]).total
                    == total_on(more, now[j].account_id, now[j].currency@) && Some(
                    now[j].last_on@,
                ) == last_on(more, now[j].account_id, now[j].currency@) && total_named(
                    now[j],
                    more,
                ) by {
                    assert(total_named(before[j], part));
                    let w = choose|w: int|
                        0 <= w < part.len() && is_on(
                            #[trigger] part[w],
                            before[j].account_id,
                            before[j].currency@,
                        ) && part[w].account == before[j].account@ && part[w].kind
                            == before[j].kind@;
                    assert(more[w] == part[w]);
                    if j < k {
                        assert(!total_is_for(before[j], e.account_id, e.currency@));
                    } else if j > k {
                        assert(!total_is_for(
                            before[k as int],
                            before[j].account_id,
                            before[j].currency@,
                        ));
                    }
                }
                assert forall|a: int, b: int| 0 <= a < b < now.len() implies !total_is_for(
                    #[trigger] now[a],
                    (#[trigger] now[b]).account_id,
                    now[b].currency@,
                ) by {
                    assert(!total_is_for(before[a], before[b].account_id, before[b].currency@));
                }
                assert forall|j: int| 0 <= j < more.len() implies has_total(
                    now,
                    (#[trigger] more[j]).account_id,
                    more[j].currency,
                ) by {
                    if j < part.len() {
                        assert(has_total(before, part[j].account_id, part[j].currency));
                        let w = choose|w: int|
                            0 <= w < before.len() && total_is_for(
                                #[trigger] before[w],
                                part[j].account_id,
                                part[j].currency,
                            );
                        assert(total_is_for(now[w], more[j].account_id, more[j].currency));
                    } else {
                        assert(total_is_for(now[k as int], more[j].account_id, more[j].currency));
                    }
                }
            }
            out.set(k, t);
        } else {
            let t = AccountTotal {
                account_id: e.account_id,
                account: e.account.clone(),
                kind: e.kind.clone(),
                currency: e.currency.clone(),
                total: e.amount_minor as i128,
                last_on: e.occurred_on.clone(),
            };
            proof {
                let now = before.push(t);
                assert forall|j: int| 0 <= j < part.len() implies !is_on(
                    #[trigger] part[j],
                    e.account_id,
                    e.currency@,
                ) by {
                    if is_on(part[j], e.account_id, e.currency@) {
                        assert(has_total(before, part[j].account_id, part[j].currency));
                    }
                }
                lemma_untouched(part, e.account_id, e.currency@);
                assert(is_on(more[i as int], t.account_id, t.currency@));
                assert(total_named(t, more));
                assert forall|j: int| 0 <= j < now.len() implies (#[trigger] now[j]).total
                    == total_on(more, now[j].account_id, now[j].currency@) && Some(
                    now[j].last_on@,
                ) == last_on(more, now[j].account_id, now[j].currency@) && total_named(
                    now[j],
                    more,
                ) by {
                    if j < k {
                        assert(!total_is_for(before[j], e.account_id, e.currency@));
                        assert(total_named(before[j], part));
                        let w = choose|w: int|
                            0 <= w < part.len() && is_on(
                                #[trigger] part[w],
                                before[j].account_id,
                                before[j].currency@,
                            ) && part[w].account == before[j].account@ && part[w].kind
                                == before[j].kind@;
                        assert(more[w] == part[w]);
                    }
                }
                assert forall|a: int, b: int| 0 <= a < b < now.len() implies !total_is_for(
                    #[trigger] now[a],
                    (#[trigger] now[b]).account_id,
                    now[b].currency@,
                ) by {
                    if b < k {
                        assert(!total_is_for(
                            before[a],
                            before[b].account_id,
                            before[b].currency@,
                        ));
                    } else {
                        assert(!total_is_for(before[a], e.account_id, e.currency@));
                    }
                }
                assert forall|j: int| 0 <= j < more.len() implies has_total(
                    now,
                    (#[trigger] more[j]).account_id,
                    more[j].currency,
                ) by {
                    if j < part.len() {
                        assert(has_total(before, part[j].account_id, part[j].currency));
                        let w = choose|w: int|
                            0 <= w < before.len() && total_is_for(
                                #[trigger] before[w],
                                part[j].account_id,
                                part[j].currency,
                            );
                        assert(total_is_for(now[w], more[j].account_id, more[j].currency));
                    } else {
                        assert(total_is_for(now[k as int], more[j].account_id, more[j].currency));
                    }
                }
            }
            out.push(t);
        }
        i = i + 1;
    }
    assert(all.take(all.len() as int) =~= all);
    out
}

} // verus!
