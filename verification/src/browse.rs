//! Payments as they are listed: by day, newest first; with what recognises each one in a list or a
//! graph; the descriptions that repeat; and what each account holds.

use crate::book::Account;
use crate::entry::Movement;
use crate::link::Link;
use crate::money::Minor;
use crate::paths::holds;
use crate::residual::PostingRow;
use crate::roles::str_view;
use crate::sorting::{
    in_rank, law_ranking_keeps_everything_and_orders_it, orders, rank, ranked, Ranked,
};
use crate::text::{
    lemma_text_irreflexive, lemma_text_total, lemma_text_transitive, put_text, str_eq, text_less,
    text_lt, views, with_text,
};
use vstd::prelude::*;

verus! {

broadcast use vstd::string::group_string_axioms;

/// A transaction as it is listed.
#[derive(Debug, Clone)]
pub struct Listed {
    pub id: i64,
    pub occurred_on: String,
    pub description: String,
    pub payee: Option<String>,
    pub source: String,
}

/// A place in a list, newest first: by day, then by id.
#[derive(Debug, Clone)]
pub struct Newest {
    pub at: usize,
    pub on: String,
    pub id: i64,
}

impl Ranked for Newest {
    open spec fn before(&self, other: &Self) -> bool {
        text_lt(other.on@, self.on@) || (self.on@ == other.on@ && self.id > other.id)
    }

    fn comes_before(&self, other: &Self) -> (r: bool) {
        text_less(other.on.as_str(), self.on.as_str()) || (str_eq(
            self.on.as_str(),
            other.on.as_str(),
        ) && self.id > other.id)
    }
}

/// Whether a day lies in a window, both ends counted.
pub open spec fn in_window(on: Seq<char>, from: Option<Seq<char>>, to: Option<Seq<char>>) -> bool {
    &&& from matches Some(f) ==> !text_lt(on, f)
    &&& to matches Some(t) ==> !text_lt(t, on)
}

/// The places of the first transactions that lie in a window.
pub open spec fn windowed(
    txns: Seq<Listed>,
    from: Option<Seq<char>>,
    to: Option<Seq<char>>,
    n: int,
) -> Seq<int>
    decreases n,
{
    if n <= 0 {
        Seq::empty()
    } else if in_window(txns[n - 1].occurred_on@, from, to) {
        windowed(txns, from, to, n - 1).push(n - 1)
    } else {
        windowed(txns, from, to, n - 1)
    }
}

/// Whether these are transactions at some places.
pub open spec fn are_newest(v: Seq<Newest>, txns: Seq<Listed>, at: Seq<int>) -> bool {
    v.len() == at.len() && forall|i: int|
        0 <= i < v.len() ==> (#[trigger] v[i]).at == at[i] && v[i].on@ == txns[at[i]].occurred_on@
            && v[i].id == txns[at[i]].id
}

/// As many of a list as a limit leaves; a limit below nothing leaves all.
pub open spec fn limited<T>(s: Seq<T>, limit: i64) -> Seq<T> {
    if 0 <= limit < s.len() {
        s.take(limit as int)
    } else {
        s
    }
}

/// The text that bounds a window, if there is one.
pub open spec fn bound(t: Option<&str>) -> Option<Seq<char>> {
    match t {
        Some(s) => Some(s@),
        None => None,
    }
}

fn is_in_window(on: &str, from: Option<&str>, to: Option<&str>) -> (r: bool)
    ensures
        r == in_window(on@, bound(from), bound(to)),
{
    let a = match from {
        Some(f) => !text_less(on, f),
        None => true,
    };
    let b = match to {
        Some(t) => !text_less(t, on),
        None => true,
    };
    a && b
}

fn cut_to<T>(v: &mut Vec<T>, limit: i64)
    ensures
        final(v)@ == limited(old(v)@, limit),
{
    if limit >= 0 && (limit as u64) < v.len() as u64 {
        v.truncate(limit as usize);
        assert(v@ =~= old(v)@.take(limit as int));
    }
}

/// The transactions in a window of days, newest first, up to a limit.
pub fn list(txns: &Vec<Listed>, from: Option<&str>, to: Option<&str>, limit: i64) -> (r: Vec<Newest>)
    ensures
        exists|rows: Seq<Newest>|
            #![trigger ranked(rows)]
            are_newest(
                rows,
                txns@,
                windowed(txns@, bound(from), bound(to), txns@.len() as int),
            ) && r@ == limited(ranked(rows), limit),
{
    let mut rows: Vec<Newest> = Vec::new();
    let mut i: usize = 0;
    while i < txns.len()
        invariant
            i <= txns@.len(),
            are_newest(rows@, txns@, windowed(txns@, bound(from), bound(to), i as int)),
        decreases txns@.len() - i,
    {
        let t = &txns[i];
        if is_in_window(t.occurred_on.as_str(), from, to) {
            rows.push(Newest { at: i, on: t.occurred_on.clone(), id: t.id });
        }
        i = i + 1;
    }
    let ghost own = rows@;
    let mut out = rank(rows);
    assert(out@ == ranked(own));
    cut_to(&mut out, limit);
    out
}

proof fn lemma_newest_orders()
    ensures
        orders::<Newest>(),
{
    assert forall|a: Newest, b: Newest| #[trigger] a.before(&b) implies !b.before(&a) by {
        lemma_text_irreflexive(a.on@);
        if text_lt(b.on@, a.on@) && text_lt(a.on@, b.on@) {
            lemma_text_transitive(a.on@, b.on@, a.on@);
        }
    }
    assert forall|a: Newest, b: Newest, c: Newest| #[trigger] a.before(&b) && !(
    #[trigger] c.before(&b)) implies a.before(&c) by {
        lemma_text_irreflexive(a.on@);
        lemma_text_total(b.on@, c.on@);
        if text_lt(b.on@, a.on@) {
            if text_lt(c.on@, b.on@) {
                lemma_text_transitive(c.on@, b.on@, a.on@);
            }
        }
    }
}

/// Payments are listed newest first: none stands behind one that is older.
pub proof fn law_payments_are_listed_newest_first(rows: Seq<Newest>)
    ensures
        in_rank(ranked(rows)),
        ranked(rows).to_multiset() == rows.to_multiset(),
{
    lemma_newest_orders();
    law_ranking_keeps_everything_and_orders_it(rows);
}

/// A place in a list, oldest first: by day, then by id.
#[derive(Debug, Clone)]
pub struct Oldest {
    pub at: usize,
    pub on: String,
    pub id: i64,
}

impl Ranked for Oldest {
    open spec fn before(&self, other: &Self) -> bool {
        text_lt(self.on@, other.on@) || (self.on@ == other.on@ && self.id < other.id)
    }

    fn comes_before(&self, other: &Self) -> (r: bool) {
        text_less(self.on.as_str(), other.on.as_str()) || (str_eq(
            self.on.as_str(),
            other.on.as_str(),
        ) && self.id < other.id)
    }
}

/// The places of the first transactions that are among some.
pub open spec fn picked(txns: Seq<Listed>, ids: Seq<i64>, n: int) -> Seq<int>
    decreases n,
{
    if n <= 0 {
        Seq::empty()
    } else if ids.contains(txns[n - 1].id) {
        picked(txns, ids, n - 1).push(n - 1)
    } else {
        picked(txns, ids, n - 1)
    }
}

/// Whether these are transactions at some places.
pub open spec fn are_oldest(v: Seq<Oldest>, txns: Seq<Listed>, at: Seq<int>) -> bool {
    v.len() == at.len() && forall|i: int|
        0 <= i < v.len() ==> (#[trigger] v[i]).at == at[i] && v[i].on@ == txns[at[i]].occurred_on@
            && v[i].id == txns[at[i]].id
}

/// How many links touch a transaction.
pub open spec fn links_of(links: Seq<Link>, id: i64) -> int
    decreases links.len(),
{
    if links.len() == 0 {
        0
    } else {
        links_of(links.drop_last(), id) + (if links.last().from == id || links.last().to == id {
            1int
        } else {
            0
        })
    }
}

/// A posting of a transaction, the smallest amount first.
#[derive(Debug, Clone, Copy, PartialEq, Eq, Structural)]
pub struct Smallest {
    pub at: usize,
    pub amount_minor: Minor,
}

impl Ranked for Smallest {
    open spec fn before(&self, other: &Self) -> bool {
        self.amount_minor < other.amount_minor
    }

    fn comes_before(&self, other: &Self) -> (r: bool) {
        self.amount_minor < other.amount_minor
    }
}

/// The first postings that are of a transaction, as they come.
pub open spec fn postings_of(postings: Seq<PostingRow>, id: i64, n: int) -> Seq<Smallest>
    decreases n,
{
    if n <= 0 {
        Seq::empty()
    } else {
        let rest = postings_of(postings, id, n - 1);
        if postings[n - 1].txn_id == id {
            rest.push(
                Smallest { at: (n - 1) as usize, amount_minor: postings[n - 1].amount_minor },
            )
        } else {
            rest
        }
    }
}

/// What recognises a payment in a list.
#[derive(Debug, Clone)]
pub struct Summary {
    /// Its place among the transactions.
    pub at: usize,
    /// How many links touch it.
    pub links: usize,
    /// Its postings, the smallest amount first.
    pub postings: Vec<Smallest>,
}

/// Whether this is what recognises the payment at a place.
pub open spec fn is_summary(
    s: Summary,
    key: Oldest,
    links: Seq<Link>,
    postings: Seq<PostingRow>,
) -> bool {
    &&& s.at == key.at
    &&& s.links == links_of(links, key.id)
    &&& s.postings@ == ranked(postings_of(postings, key.id, postings.len() as int))
}

fn count_links(links: &Vec<Link>, id: i64) -> (r: usize)
    ensures
        r == links_of(links@, id),
{
    let mut n: usize = 0;
    let mut i: usize = 0;
    assert(links@.take(0) =~= Seq::<Link>::empty());
    while i < links.len()
        invariant
            i <= links@.len(),
            n <= i,
            n == links_of(links@.take(i as int), id),
        decreases links@.len() - i,
    {
        assert(links@.take(i + 1).drop_last() =~= links@.take(i as int));
        if links[i].from == id || links[i].to == id {
            n = n + 1;
        }
        i = i + 1;
    }
    assert(links@.take(links@.len() as int) =~= links@);
    n
}

fn collect_postings(postings: &Vec<PostingRow>, id: i64) -> (r: Vec<Smallest>)
    ensures
        r@ == ranked(postings_of(postings@, id, postings@.len() as int)),
{
    let mut out: Vec<Smallest> = Vec::new();
    let mut i: usize = 0;
    while i < postings.len()
        invariant
            i <= postings@.len(),
            out@ == postings_of(postings@, id, i as int),
        decreases postings@.len() - i,
    {
        if postings[i].txn_id == id {
            out.push(Smallest { at: i, amount_minor: postings[i].amount_minor });
        }
        i = i + 1;
    }
    rank(out)
}

/// What recognises each of some payments, oldest first.
pub fn summarise(
    txns: &Vec<Listed>,
    links: &Vec<Link>,
    postings: &Vec<PostingRow>,
    ids: &Vec<i64>,
) -> (r: Vec<Summary>)
    ensures
        exists|rows: Seq<Oldest>|
            #![trigger ranked(rows)]
            are_oldest(rows, txns@, picked(txns@, ids@, txns@.len() as int)) && r@.len()
                == ranked(rows).len() && forall|i: int|
                0 <= i < r@.len() ==> is_summary(
                    #[trigger] r@[i],
                    ranked(rows)[i],
                    links@,
                    postings@,
                ),
{
    let mut rows: Vec<Oldest> = Vec::new();
    let mut i: usize = 0;
    while i < txns.len()
        invariant
            i <= txns@.len(),
            are_oldest(rows@, txns@, picked(txns@, ids@, i as int)),
        decreases txns@.len() - i,
    {
        let t = &txns[i];
        if holds(ids, t.id) {
            rows.push(Oldest { at: i, on: t.occurred_on.clone(), id: t.id });
        }
        i = i + 1;
    }
    let ghost own = rows@;
    let keys = rank(rows);
    assert(keys@ == ranked(own));
    let mut out: Vec<Summary> = Vec::new();
    let mut k: usize = 0;
    while k < keys.len()
        invariant
            k <= keys@.len(),
            out@.len() == k,
            forall|j: int|
                0 <= j < k ==> is_summary(#[trigger] out@[j], keys@[j], links@, postings@),
        decreases keys@.len() - k,
    {
        out.push(
            Summary {
                at: keys[k].at,
                links: count_links(links, keys[k].id),
                postings: collect_postings(postings, keys[k].id),
            },
        );
        k = k + 1;
    }
    out
}

/// A description, how often it is used, and the last day it was.
#[derive(Debug, Clone)]
pub struct DescriptionUse {
    pub description: String,
    pub count: usize,
    pub last_on: String,
}

/// The commonest first, then the one still in use, then by the text itself, so that two used equally
/// often do not swap places between identical calls.
impl Ranked for DescriptionUse {
    open spec fn before(&self, other: &Self) -> bool {
        self.count > other.count || (self.count == other.count && (text_lt(
            other.last_on@,
            self.last_on@,
        ) || (self.last_on@ == other.last_on@ && text_lt(self.description@, other.description@))))
    }

    fn comes_before(&self, other: &Self) -> (r: bool) {
        self.count > other.count || (self.count == other.count && (text_less(
            other.last_on.as_str(),
            self.last_on.as_str(),
        ) || (str_eq(self.last_on.as_str(), other.last_on.as_str()) && text_less(
            self.description.as_str(),
            other.description.as_str(),
        ))))
    }
}

/// The descriptions in use, each once, exactly as it is stored.
pub open spec fn texts_of(txns: Seq<Listed>) -> Seq<Seq<char>>
    decreases txns.len(),
{
    if txns.len() == 0 {
        Seq::empty()
    } else {
        with_text(texts_of(txns.drop_last()), txns.last().description@)
    }
}

/// How often a description is used.
pub open spec fn uses_of(txns: Seq<Listed>, d: Seq<char>) -> int
    decreases txns.len(),
{
    if txns.len() == 0 {
        0
    } else {
        uses_of(txns.drop_last(), d) + (if txns.last().description@ == d {
            1int
        } else {
            0
        })
    }
}

/// The last day a description was used.
pub open spec fn last_use(txns: Seq<Listed>, d: Seq<char>) -> Seq<char>
    decreases txns.len(),
{
    if txns.len() == 0 {
        Seq::empty()
    } else {
        let rest = last_use(txns.drop_last(), d);
        if txns.last().description@ == d && text_lt(rest, txns.last().occurred_on@) {
            txns.last().occurred_on@
        } else {
            rest
        }
    }
}

/// Whether rows are the descriptions in use.
pub open spec fn are_uses(v: Seq<DescriptionUse>, txns: Seq<Listed>) -> bool {
    let all = texts_of(txns);
    v.len() == all.len() && forall|i: int|
        0 <= i < v.len() ==> (#[trigger] v[i]).description@ == all[i] && v[i].count == uses_of(
            txns,
            all[i],
        ) && v[i].last_on@ == last_use(txns, all[i])
}

fn use_of(txns: &Vec<Listed>, d: &str) -> (r: DescriptionUse)
    ensures
        r.description@ == d@,
        r.count == uses_of(txns@, d@),
        r.last_on@ == last_use(txns@, d@),
{
    let mut count: usize = 0;
    let mut last_on = String::new();
    let mut i: usize = 0;
    assert(txns@.take(0) =~= Seq::<Listed>::empty());
    while i < txns.len()
        invariant
            i <= txns@.len(),
            count <= i,
            count == uses_of(txns@.take(i as int), d@),
            last_on@ == last_use(txns@.take(i as int), d@),
        decreases txns@.len() - i,
    {
        assert(txns@.take(i + 1).drop_last() =~= txns@.take(i as int));
        if str_eq(txns[i].description.as_str(), d) {
            count = count + 1;
            if text_less(last_on.as_str(), txns[i].occurred_on.as_str()) {
                last_on = txns[i].occurred_on.clone();
            }
        }
        i = i + 1;
    }
    assert(txns@.take(txns@.len() as int) =~= txns@);
    DescriptionUse { description: d.to_string(), count, last_on }
}

/// The descriptions of transactions, the commonest first, up to a limit: what a box offers for one
/// used before.
pub fn descriptions(txns: &Vec<Listed>, limit: i64) -> (r: Vec<DescriptionUse>)
    ensures
        exists|rows: Seq<DescriptionUse>|
            #![trigger ranked(rows)]
            are_uses(rows, txns@) && r@ == limited(ranked(rows), limit),
{
    let mut texts: Vec<String> = Vec::new();
    let mut i: usize = 0;
    assert(txns@.take(0) =~= Seq::<Listed>::empty());
    assert(views(texts@) =~= Seq::<Seq<char>>::empty());
    while i < txns.len()
        invariant
            i <= txns@.len(),
            views(texts@) == texts_of(txns@.take(i as int)),
        decreases txns@.len() - i,
    {
        assert(txns@.take(i + 1).drop_last() =~= txns@.take(i as int));
        put_text(&mut texts, txns[i].description.as_str());
        i = i + 1;
    }
    assert(txns@.take(txns@.len() as int) =~= txns@);
    let mut rows: Vec<DescriptionUse> = Vec::new();
    let mut k: usize = 0;
    while k < texts.len()
        invariant
            k <= texts@.len(),
            views(texts@) == texts_of(txns@),
            rows@.len() == k,
            forall|j: int|
                0 <= j < k ==> (#[trigger] rows@[j]).description@ == texts_of(txns@)[j]
                    && rows@[j].count == uses_of(txns@, texts_of(txns@)[j])
                    && rows@[j].last_on@ == last_use(txns@, texts_of(txns@)[j]),
        decreases texts@.len() - k,
    {
        assert(views(texts@)[k as int] == texts@[k as int]@);
        rows.push(use_of(txns, texts[k].as_str()));
        k = k + 1;
    }
    assert(views(texts@).len() == texts@.len());
    let ghost own = rows@;
    assert(are_uses(own, txns@));
    let mut out = rank(rows);
    assert(out@ == ranked(own));
    cut_to(&mut out, limit);
    out
}

/// What an open account holds.
#[derive(Debug, Clone)]
pub struct Balance {
    /// Its place among the accounts.
    pub at: usize,
    pub kind: String,
    pub name: String,
    pub balance_minor: Minor,
}

/// By kind, then by name.
impl Ranked for Balance {
    open spec fn before(&self, other: &Self) -> bool {
        text_lt(self.kind@, other.kind@) || (self.kind@ == other.kind@ && text_lt(
            self.name@,
            other.name@,
        ))
    }

    fn comes_before(&self, other: &Self) -> (r: bool) {
        text_less(self.kind.as_str(), other.kind.as_str()) || (str_eq(
            self.kind.as_str(),
            other.kind.as_str(),
        ) && text_less(self.name.as_str(), other.name.as_str()))
    }
}

/// The places of the first accounts that are open.
pub open spec fn open_places(accounts: Seq<Account>, n: int) -> Seq<int>
    decreases n,
{
    if n <= 0 {
        Seq::empty()
    } else if accounts[n - 1].closed {
        open_places(accounts, n - 1)
    } else {
        open_places(accounts, n - 1).push(n - 1)
    }
}

/// What an account's movements come to on a day, or altogether where no day is given.
pub open spec fn held_on(rows: Seq<Movement>, id: i64, as_of: Option<Seq<char>>) -> int
    decreases rows.len(),
{
    if rows.len() == 0 {
        0
    } else {
        held_on(rows.drop_last(), id, as_of) + (if rows.last().account_id == id && (as_of matches
            Some(d) ==> !text_lt(d, rows.last().on@)) {
            rows.last().moved_minor as int
        } else {
            0
        })
    }
}

/// Whether this is what the account at a place holds on a day, by its movements.
pub open spec fn is_balance(
    b: Balance,
    accounts: Seq<Account>,
    rows: Seq<Movement>,
    as_of: Option<Seq<char>>,
    at: int,
) -> bool {
    &&& b.at == at
    &&& b.kind@ == accounts[at].kind@
    &&& b.name@ == accounts[at].name@
    &&& b.balance_minor == held_on(rows, accounts[at].id, as_of)
}

/// Whether these are what the accounts at some places hold.
pub open spec fn are_balances(
    v: Seq<Balance>,
    accounts: Seq<Account>,
    rows: Seq<Movement>,
    as_of: Option<Seq<char>>,
    at: Seq<int>,
) -> bool {
    v.len() == at.len() && forall|i: int|
        0 <= i < v.len() ==> is_balance(#[trigger] v[i], accounts, rows, as_of, at[i])
}

/// Whether what every open account holds can be held as an amount.
pub open spec fn balances_fit(
    accounts: Seq<Account>,
    rows: Seq<Movement>,
    as_of: Option<Seq<char>>,
) -> bool {
    forall|i: int|
        0 <= i < accounts.len() && !(#[trigger] accounts[i]).closed ==> i64::MIN <= held_on(
            rows,
            accounts[i].id,
            as_of,
        ) <= i64::MAX
}

fn sum_on(rows: &Vec<Movement>, id: i64, as_of: Option<&str>) -> (r: i128)
    ensures
        r == held_on(rows@, id, str_view(as_of)),
{
    let mut sum: i128 = 0;
    let mut i: usize = 0;
    assert(rows@.take(0) =~= Seq::<Movement>::empty());
    while i < rows.len()
        invariant
            i <= rows@.len(),
            sum == held_on(rows@.take(i as int), id, str_view(as_of)),
            -0x8000_0000_0000_0000 * i <= sum <= 0x8000_0000_0000_0000 * i,
        decreases rows@.len() - i,
    {
        assert(rows@.take(i + 1).drop_last() =~= rows@.take(i as int));
        let counts = match as_of {
            Some(d) => !text_less(d, rows[i].on.as_str()),
            None => true,
        };
        if rows[i].account_id == id && counts {
            sum = sum + rows[i].moved_minor as i128;
        }
        i = i + 1;
    }
    assert(rows@.take(rows@.len() as int) =~= rows@);
    sum
}

/// What every open account holds on a day, or altogether where no day is given, from real postings
/// only, by kind and then by name; nothing where one of the sums is no amount.
pub fn balances(accounts: &Vec<Account>, rows: &Vec<Movement>, as_of: Option<&str>) -> (r: Option<
    Vec<Balance>,
>)
    ensures
        match r {
            Some(v) => balances_fit(accounts@, rows@, str_view(as_of)) && exists|own: Seq<Balance>|
                #![trigger ranked(own)]
                are_balances(
                    own,
                    accounts@,
                    rows@,
                    str_view(as_of),
                    open_places(accounts@, accounts@.len() as int),
                ) && v@ == ranked(own),
            None => !balances_fit(accounts@, rows@, str_view(as_of)),
        },
{
    let mut out: Vec<Balance> = Vec::new();
    let mut i: usize = 0;
    while i < accounts.len()
        invariant
            i <= accounts@.len(),
            are_balances(
                out@,
                accounts@,
                rows@,
                str_view(as_of),
                open_places(accounts@, i as int),
            ),
            forall|j: int|
                0 <= j < i && !(#[trigger] accounts@[j]).closed ==> i64::MIN <= held_on(
                    rows@,
                    accounts@[j].id,
                    str_view(as_of),
                ) <= i64::MAX,
        decreases accounts@.len() - i,
    {
        let a = &accounts[i];
        if !a.closed {
            let sum: i128 = sum_on(rows, a.id, as_of);
            if sum < i64::MIN as i128 || sum > i64::MAX as i128 {
                assert(!accounts@[i as int].closed);
                return None;
            }
            out.push(
                Balance {
                    at: i,
                    kind: a.kind.clone(),
                    name: a.name.clone(),
                    balance_minor: sum as i64,
                },
            );
        }
        i = i + 1;
    }
    let ghost own = out@;
    let v = rank(out);
    assert(v@ == ranked(own));
    Some(v)
}

} // verus!
