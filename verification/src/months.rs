//! Complete calendar months of history, what normal looks like, and the largest expenses.

use crate::analysis::{all_fit, median, middle, moves_in, totals_fit, AnalysisError};
use crate::ledger::{
    amounts_fit, are_totals, copy_entry, entry_views, lemma_amounts_fit, totals, AccountTotal,
    BookEntry, EntryView,
};
use crate::money::Minor;
use crate::sorting::{rank, ranked, Ranked};
use crate::tally::{add_to, in_order, keeps, sum_of, Sum};
use crate::text::{
    chars_of, opt_view, put_text, str_eq, text_less, text_lt, text_of, views, with_text,
};
use vstd::prelude::*;

verus! {

broadcast use vstd::string::group_string_axioms;

/// Whether a posting is income or an expense in a window.
pub open spec fn in_history(e: EntryView, from: Seq<char>, to: Seq<char>) -> bool {
    (e.kind == "income"@ || e.kind == "expense"@) && !text_lt(e.occurred_on, from) && !text_lt(
        to,
        e.occurred_on,
    )
}

/// The income and the expenses of a window.
pub open spec fn history(entries: Seq<EntryView>, from: Seq<char>, to: Seq<char>) -> Seq<EntryView>
    decreases entries.len(),
{
    if entries.len() == 0 {
        entries
    } else {
        let rest = history(entries.drop_last(), from, to);
        if in_history(entries.last(), from, to) {
            rest.push(entries.last())
        } else {
            rest
        }
    }
}

/// The year and month of an ISO date.
pub open spec fn month_of(on: Seq<char>) -> Seq<char> {
    if on.len() <= 7 {
        on
    } else {
        on.take(7)
    }
}

/// The months of postings, in order.
pub open spec fn months_in(entries: Seq<EntryView>) -> Seq<Seq<char>>
    decreases entries.len(),
{
    if entries.len() == 0 {
        Seq::empty()
    } else {
        with_text(months_in(entries.drop_last()), month_of(entries.last().occurred_on))
    }
}

/// The postings of a month.
pub open spec fn of_month(entries: Seq<EntryView>, month: Seq<char>) -> Seq<EntryView>
    decreases entries.len(),
{
    if entries.len() == 0 {
        entries
    } else {
        let rest = of_month(entries.drop_last(), month);
        if month_of(entries.last().occurred_on) == month {
            rest.push(entries.last())
        } else {
            rest
        }
    }
}

/// What is spent in a currency. Expenses are positive in the ledger's own signs.
pub open spec fn spent_in(entries: Seq<EntryView>, currency: Seq<char>) -> int
    decreases entries.len(),
{
    if entries.len() == 0 {
        0
    } else {
        let e = entries.last();
        spent_in(entries.drop_last(), currency) + (if e.currency == currency && e.kind
            == "expense"@ {
            e.amount
        } else {
            0
        })
    }
}

/// What is received in a currency. Income is negative in the ledger's own signs, and turned round.
pub open spec fn received_in(entries: Seq<EntryView>, currency: Seq<char>) -> int
    decreases entries.len(),
{
    if entries.len() == 0 {
        0
    } else {
        let e = entries.last();
        received_in(entries.drop_last(), currency) - (if e.currency == currency && e.kind
            != "expense"@ {
            e.amount
        } else {
            0
        })
    }
}

/// What an account comes to in a month.
#[derive(Debug, Clone)]
pub struct MonthCell {
    pub account: String,
    pub kind: String,
    pub currency: String,
    pub amount_minor: Minor,
}

impl Ranked for MonthCell {
    /// By name.
    open spec fn before(&self, other: &MonthCell) -> bool {
        text_lt(self.account@, other.account@)
    }

    fn comes_before(&self, other: &MonthCell) -> (r: bool) {
        text_less(self.account.as_str(), other.account.as_str())
    }
}

/// Whether a cell is what a total says.
pub open spec fn is_cell(c: MonthCell, t: AccountTotal) -> bool {
    c.account@ == t.account@ && c.kind@ == t.kind@ && c.currency@ == t.currency@ && c.amount_minor
        == t.total
}

/// Whether cells are what totals say, one for one.
pub open spec fn are_cells(c: Seq<MonthCell>, t: Seq<AccountTotal>) -> bool {
    c.len() == t.len() && forall|i: int| 0 <= i < c.len() ==> is_cell(#[trigger] c[i], t[i])
}

/// A month: what was spent and received per currency, as magnitudes, and each account's total in the
/// ledger's own signs.
#[derive(Debug, Clone)]
pub struct Month {
    pub month: String,
    pub spent: Vec<Sum>,
    pub received: Vec<Sum>,
    pub net: Vec<Sum>,
    pub by_account: Vec<MonthCell>,
}

/// Whether sums are those of a month's currencies, in order.
pub open spec fn sums_are(rows: Seq<Sum>, own: Seq<EntryView>, f: spec_fn(Seq<char>) -> int) -> bool {
    &&& in_order(rows)
    &&& forall|c: Seq<char>| #[trigger] sum_of(rows, c) == f(c)
    &&& forall|c: Seq<char>| #[trigger] keeps(rows, c) == moves_in(own, c)
}

/// Whether a month is what its postings come to.
pub open spec fn is_month(m: Month, own: Seq<EntryView>) -> bool {
    &&& exists|t: Seq<AccountTotal>, c: Seq<MonthCell>|
        are_totals(t, own) && #[trigger] are_cells(c, t) && m.by_account@ == ranked(c)
    &&& sums_are(m.spent@, own, |c: Seq<char>| spent_in(own, c))
    &&& sums_are(m.received@, own, |c: Seq<char>| received_in(own, c))
    &&& sums_are(m.net@, own, |c: Seq<char>| received_in(own, c) - spent_in(own, c))
}

/// Whether these are the months of a history, in order.
pub open spec fn are_months(v: Seq<Month>, hist: Seq<EntryView>) -> bool {
    let names = months_in(hist);
    v.len() == names.len() && forall|i: int|
        0 <= i < v.len() ==> (#[trigger] v[i]).month@ == names[i] && is_month(
            v[i],
            of_month(hist, names[i]),
        )
}

/// Whether every total of every month fits an amount.
pub open spec fn months_fit(hist: Seq<EntryView>) -> bool {
    forall|i: int|
        0 <= i < months_in(hist).len() ==> totals_fit(of_month(hist, #[trigger] months_in(hist)[i]))
}

fn month_text(on: &str) -> (r: String)
    ensures
        r@ == month_of(on@),
{
    let v = chars_of(on);
    if v.len() <= 7 {
        on.to_string()
    } else {
        let r = text_of(&v, 0, 7);
        assert(r@ =~= on@.take(7));
        r
    }
}

fn select_history(entries: &Vec<BookEntry>, from: &str, to: &str) -> (r: Vec<BookEntry>)
    ensures
        entry_views(r@) == history(entry_views(entries@), from@, to@),
{
    let ghost all = entry_views(entries@);
    let mut out: Vec<BookEntry> = Vec::new();
    let mut i: usize = 0;
    assert(all.take(0) =~= Seq::<EntryView>::empty());
    assert(entry_views(out@) =~= Seq::<EntryView>::empty());
    while i < entries.len()
        invariant
            i <= entries@.len(),
            all == entry_views(entries@),
            entry_views(out@) == history(all.take(i as int), from@, to@),
        decreases entries@.len() - i,
    {
        assert(all.take(i + 1).drop_last() =~= all.take(i as int));
        assert(all.take(i + 1).last() == entries@[i as int]@);
        let e = &entries[i];
        if (str_eq(e.kind.as_str(), "income") || str_eq(e.kind.as_str(), "expense")) && !text_less(
            e.occurred_on.as_str(),
            from,
        ) && !text_less(to, e.occurred_on.as_str()) {
            let c = copy_entry(e);
            assert(entry_views(out@.push(c)) =~= entry_views(out@).push(c@));
            out.push(c);
        }
        i = i + 1;
    }
    assert(all.take(all.len() as int) =~= all);
    out
}

fn select_month(entries: &Vec<BookEntry>, month: &str) -> (r: Vec<BookEntry>)
    ensures
        entry_views(r@) == of_month(entry_views(entries@), month@),
{
    let ghost all = entry_views(entries@);
    let mut out: Vec<BookEntry> = Vec::new();
    let mut i: usize = 0;
    assert(all.take(0) =~= Seq::<EntryView>::empty());
    assert(entry_views(out@) =~= Seq::<EntryView>::empty());
    while i < entries.len()
        invariant
            i <= entries@.len(),
            all == entry_views(entries@),
            entry_views(out@) == of_month(all.take(i as int), month@),
        decreases entries@.len() - i,
    {
        assert(all.take(i + 1).drop_last() =~= all.take(i as int));
        assert(all.take(i + 1).last() == entries@[i as int]@);
        let m = month_text(entries[i].occurred_on.as_str());
        if str_eq(m.as_str(), month) {
            let c = copy_entry(&entries[i]);
            assert(entry_views(out@.push(c)) =~= entry_views(out@).push(c@));
            out.push(c);
        }
        i = i + 1;
    }
    assert(all.take(all.len() as int) =~= all);
    out
}

proof fn lemma_flow_bound(entries: Seq<EntryView>, c: Seq<char>)
    requires
        amounts_fit(entries),
    ensures
        -(entries.len() * 0x8000_0000_0000_0000) <= spent_in(entries, c) <= entries.len()
            * 0x8000_0000_0000_0000,
        -(entries.len() * 0x8000_0000_0000_0000) <= received_in(entries, c) <= entries.len()
            * 0x8000_0000_0000_0000,
        -(entries.len() * 0x8000_0000_0000_0000) <= received_in(entries, c) - spent_in(entries, c)
            <= entries.len() * 0x8000_0000_0000_0000,
    decreases entries.len(),
{
    if entries.len() > 0 {
        let rest = entries.drop_last();
        assert forall|i: int| 0 <= i < rest.len() implies i64::MIN <= (#[trigger] rest[i]).amount
            <= i64::MAX by {
            assert(rest[i] == entries[i]);
        }
        assert(i64::MIN <= entries[entries.len() - 1].amount <= i64::MAX);
        lemma_flow_bound(rest, c);
    }
}

/// The flows of a month per currency: what was spent, what was received, and the difference.
fn flows(own: &Vec<BookEntry>) -> (r: (Vec<Sum>, Vec<Sum>, Vec<Sum>))
    ensures
        ({
            let all = entry_views(own@);
            &&& sums_are(r.0@, all, |c: Seq<char>| spent_in(all, c))
            &&& sums_are(r.1@, all, |c: Seq<char>| received_in(all, c))
            &&& sums_are(r.2@, all, |c: Seq<char>| received_in(all, c) - spent_in(all, c))
        }),
{
    let ghost all = entry_views(own@);
    let mut spent: Vec<Sum> = Vec::new();
    let mut received: Vec<Sum> = Vec::new();
    let mut net: Vec<Sum> = Vec::new();
    let mut i: usize = 0;
    assert(all.take(0) =~= Seq::<EntryView>::empty());
    while i < own.len()
        invariant
            i <= own@.len(),
            all == entry_views(own@),
            sums_are(
                spent@,
                all.take(i as int),
                |c: Seq<char>| spent_in(all.take(i as int), c),
            ),
            sums_are(
                received@,
                all.take(i as int),
                |c: Seq<char>| received_in(all.take(i as int), c),
            ),
            sums_are(
                net@,
                all.take(i as int),
                |c: Seq<char>|
                    received_in(all.take(i as int), c) - spent_in(all.take(i as int), c),
            ),
        decreases own@.len() - i,
    {
        let e = &own[i];
        let ghost part = all.take(i as int);
        let ghost more = all.take(i + 1);
        proof {
            assert(more.drop_last() =~= part);
            assert(more =~= part.push(e@));
            lemma_amounts_fit(own@);
            assert(amounts_fit(more)) by {
                assert forall|j: int| 0 <= j < more.len() implies i64::MIN <= (
                #[trigger] more[j]).amount <= i64::MAX by {
                    assert(more[j] == all[j]);
                }
            }
            lemma_flow_bound(more, e.currency@);
            assert(sum_of(spent@, e.currency@) == spent_in(part, e.currency@));
            assert(sum_of(received@, e.currency@) == received_in(part, e.currency@));
            assert(sum_of(net@, e.currency@) == received_in(part, e.currency@) - spent_in(
                part,
                e.currency@,
            ));
        }
        let (s, r): (i128, i128) = if str_eq(e.kind.as_str(), "expense") {
            (e.amount_minor as i128, 0)
        } else {
            (0, -(e.amount_minor as i128))
        };
        add_to(&mut spent, e.currency.as_str(), s);
        add_to(&mut received, e.currency.as_str(), r);
        add_to(&mut net, e.currency.as_str(), r - s);
        proof {
            assert forall|c: Seq<char>| #[trigger] keeps(spent@, c) == moves_in(more, c) by {
                crate::analysis::lemma_moves_in_push(part, e@, c);
            }
            assert forall|c: Seq<char>| #[trigger] keeps(received@, c) == moves_in(more, c) by {
                crate::analysis::lemma_moves_in_push(part, e@, c);
            }
            assert forall|c: Seq<char>| #[trigger] keeps(net@, c) == moves_in(more, c) by {
                crate::analysis::lemma_moves_in_push(part, e@, c);
            }
            assert(sums_are(spent@, more, |c: Seq<char>| spent_in(more, c)));
            assert(sums_are(received@, more, |c: Seq<char>| received_in(more, c)));
            assert(sums_are(
                net@,
                more,
                |c: Seq<char>| received_in(more, c) - spent_in(more, c),
            ));
        }
        i = i + 1;
    }
    assert(all.take(all.len() as int) =~= all);
    (spent, received, net)
}

fn make_month(month: &str, own: &Vec<BookEntry>) -> (r: Option<Month>)
    ensures
        match r {
            Some(m) => m.month@ == month@ && is_month(m, entry_views(own@)) && totals_fit(
                entry_views(own@),
            ),
            None => !totals_fit(entry_views(own@)),
        },
{
    let sums = totals(own);
    if !all_fit(&sums, Ghost(entry_views(own@))) {
        return None;
    }
    let mut cells: Vec<MonthCell> = Vec::new();
    let mut i: usize = 0;
    while i < sums.len()
        invariant
            i <= sums@.len(),
            forall|j: int|
                0 <= j < sums@.len() ==> i64::MIN <= (#[trigger] sums@[j]).total <= i64::MAX,
            cells@.len() == i,
            forall|j: int| 0 <= j < i ==> is_cell(#[trigger] cells@[j], sums@[j]),
        decreases sums@.len() - i,
    {
        let t = &sums[i];
        cells.push(
            MonthCell {
                account: t.account.clone(),
                kind: t.kind.clone(),
                currency: t.currency.clone(),
                amount_minor: t.total as i64,
            },
        );
        i = i + 1;
    }
    assert(are_cells(cells@, sums@));
    let by_account = rank(cells);
    let (spent, received, net) = flows(own);
    Some(Month { month: month.to_string(), spent, received, net, by_account })
}

/// The months of a window that have income or expenses in them: per account, and what was spent and
/// received per currency.
pub fn monthly(entries: &Vec<BookEntry>, from: &str, to: &str) -> (r: Result<
    Vec<Month>,
    AnalysisError,
>)
    ensures
        match r {
            Ok(v) => are_months(v@, history(entry_views(entries@), from@, to@)) && months_fit(
                history(entry_views(entries@), from@, to@),
            ),
            Err(e) => !months_fit(history(entry_views(entries@), from@, to@)) && e.text()
                == "integer overflow"@,
        },
{
    let hist = select_history(entries, from, to);
    let ghost all = entry_views(hist@);
    let mut names: Vec<String> = Vec::new();
    let mut i: usize = 0;
    assert(all.take(0) =~= Seq::<EntryView>::empty());
    assert(views(names@) =~= Seq::<Seq<char>>::empty());
    while i < hist.len()
        invariant
            i <= hist@.len(),
            all == entry_views(hist@),
            views(names@) == months_in(all.take(i as int)),
        decreases hist@.len() - i,
    {
        assert(all.take(i + 1).drop_last() =~= all.take(i as int));
        assert(all.take(i + 1).last() == hist@[i as int]@);
        let m = month_text(hist[i].occurred_on.as_str());
        put_text(&mut names, m.as_str());
        i = i + 1;
    }
    assert(all.take(all.len() as int) =~= all);
    let mut out: Vec<Month> = Vec::new();
    let mut n: usize = 0;
    while n < names.len()
        invariant
            n <= names@.len(),
            all == entry_views(hist@),
            all == history(entry_views(entries@), from@, to@),
            views(names@) == months_in(all),
            out@.len() == n,
            forall|j: int|
                0 <= j < n ==> (#[trigger] out@[j]).month@ == months_in(all)[j] && is_month(
                    out@[j],
                    of_month(all, months_in(all)[j]),
                ),
            forall|j: int|
                0 <= j < n ==> totals_fit(of_month(all, #[trigger] months_in(all)[j])),
        decreases names@.len() - n,
    {
        assert(views(names@)[n as int] == names@[n as int]@);
        let own = select_month(&hist, names[n].as_str());
        match make_month(names[n].as_str(), &own) {
            Some(m) => {
                out.push(m);
            },
            None => {
                assert(!totals_fit(of_month(all, months_in(all)[n as int])));
                return Err(AnalysisError::Bad("integer overflow".to_string()));
            },
        }
        n = n + 1;
    }
    Ok(out)
}

/// What names a line of what is normal.
pub struct KeyView {
    pub account: Seq<char>,
    pub kind: Seq<char>,
    pub currency: Seq<char>,
}

/// Whether one key stands before another: by account, then by kind, then by currency.
pub open spec fn key_before(a: KeyView, b: KeyView) -> bool {
    ||| text_lt(a.account, b.account)
    ||| a.account == b.account && text_lt(a.kind, b.kind)
    ||| a.account == b.account && a.kind == b.kind && text_lt(a.currency, b.currency)
}

/// The key of a cell.
pub open spec fn key_of(c: MonthCell) -> KeyView {
    KeyView { account: c.account@, kind: c.kind@, currency: c.currency@ }
}

/// A key in its place among keys in order, each once.
pub open spec fn with_key(s: Seq<KeyView>, k: KeyView) -> Seq<KeyView>
    decreases s.len(),
{
    if s.len() == 0 || key_before(s.last(), k) {
        s.push(k)
    } else if s.last() == k {
        s
    } else {
        with_key(s.drop_last(), k).push(s.last())
    }
}

/// The keys of cells, in order.
pub open spec fn keys_in(cells: Seq<MonthCell>) -> Seq<KeyView>
    decreases cells.len(),
{
    if cells.len() == 0 {
        Seq::empty()
    } else {
        with_key(keys_in(cells.drop_last()), key_of(cells.last()))
    }
}

/// The cells of months, in order.
pub open spec fn all_cells(months: Seq<Month>) -> Seq<MonthCell>
    decreases months.len(),
{
    if months.len() == 0 {
        Seq::empty()
    } else {
        all_cells(months.drop_last()) + months.last().by_account@
    }
}

/// The amounts of the cells with a key.
pub open spec fn amounts_of(cells: Seq<MonthCell>, k: KeyView) -> Seq<i64>
    decreases cells.len(),
{
    if cells.len() == 0 {
        Seq::empty()
    } else {
        let rest = amounts_of(cells.drop_last(), k);
        if key_of(cells.last()) == k {
            rest.push(cells.last().amount_minor)
        } else {
            rest
        }
    }
}

impl Ranked for i64 {
    /// The less first.
    open spec fn before(&self, other: &i64) -> bool {
        *self < *other
    }

    fn comes_before(&self, other: &i64) -> (r: bool) {
        *self < *other
    }
}

/// What is normal for an account, and how far the latest month is from it.
#[derive(Debug, Clone)]
pub struct Typical {
    pub account: String,
    pub kind: String,
    pub currency: String,
    /// How many months the median rests on: a baseline from two months is visibly not one.
    pub months_observed: usize,
    pub median_minor: Minor,
    pub latest_minor: Minor,
    pub deviation: i128,
}

impl Typical {
    /// Signs follow the ledger, so that an income median is negative; this says which way it goes.
    pub fn direction(&self) -> (r: &'static str)
        ensures
            r@ == (if self.kind@ == "income"@ {
                "money in"@
            } else {
                "money out"@
            }),
    {
        if str_eq(self.kind.as_str(), "income") {
            "money in"
        } else {
            "money out"
        }
    }
}

/// A number without its sign.
pub open spec fn size(n: int) -> int {
    if n < 0 {
        -n
    } else {
        n
    }
}

fn magnitude(n: i128) -> (r: u128)
    ensures
        r == size(n as int),
{
    if n < 0 {
        (-(n + 1)) as u128 + 1
    } else {
        n as u128
    }
}

impl Ranked for Typical {
    /// The furthest from normal first.
    open spec fn before(&self, other: &Typical) -> bool {
        size(self.deviation as int) > size(other.deviation as int)
    }

    fn comes_before(&self, other: &Typical) -> (r: bool) {
        magnitude(self.deviation) > magnitude(other.deviation)
    }
}

/// Whether a line says what is normal for a key.
pub open spec fn is_typical(t: Typical, cells: Seq<MonthCell>, k: KeyView) -> bool {
    let values = amounts_of(cells, k);
    &&& t.account@ == k.account
    &&& t.kind@ == k.kind
    &&& t.currency@ == k.currency
    &&& t.months_observed == values.len()
    &&& t.median_minor == middle(ranked(values))
    &&& t.latest_minor == values.last()
    &&& t.deviation == t.latest_minor - t.median_minor
}

/// Whether lines say what is normal, for each key in order.
pub open spec fn are_typical(rows: Seq<Typical>, cells: Seq<MonthCell>) -> bool {
    let keys = keys_in(cells);
    rows.len() == keys.len() && forall|i: int|
        0 <= i < rows.len() ==> is_typical(#[trigger] rows[i], cells, keys[i])
}

struct Key {
    account: String,
    kind: String,
    currency: String,
}

spec fn key_view(k: Key) -> KeyView {
    KeyView { account: k.account@, kind: k.kind@, currency: k.currency@ }
}

spec fn key_views(v: Seq<Key>) -> Seq<KeyView> {
    v.map_values(|k: Key| key_view(k))
}

fn key_less(a: &Key, c: &MonthCell) -> (r: bool)
    ensures
        r == key_before(key_view(*a), key_of(*c)),
{
    text_less(a.account.as_str(), c.account.as_str()) || (str_eq(
        a.account.as_str(),
        c.account.as_str(),
    ) && text_less(a.kind.as_str(), c.kind.as_str())) || (str_eq(
        a.account.as_str(),
        c.account.as_str(),
    ) && str_eq(a.kind.as_str(), c.kind.as_str()) && text_less(
        a.currency.as_str(),
        c.currency.as_str(),
    ))
}

fn key_is(a: &Key, c: &MonthCell) -> (r: bool)
    ensures
        r == (key_view(*a) == key_of(*c)),
{
    str_eq(a.account.as_str(), c.account.as_str()) && str_eq(a.kind.as_str(), c.kind.as_str())
        && str_eq(a.currency.as_str(), c.currency.as_str())
}

proof fn lemma_with_key_at(s: Seq<KeyView>, k: KeyView, at: int)
    requires
        0 <= at <= s.len(),
        forall|j: int| at <= j < s.len() ==> !key_before(#[trigger] s[j], k) && s[j] != k,
        at > 0 ==> key_before(s[at - 1], k) || s[at - 1] == k,
    ensures
        with_key(s, k) == (if at > 0 && !key_before(s[at - 1], k) {
            s
        } else {
            s.insert(at, k)
        }),
    decreases s.len(),
{
    if at < s.len() {
        let rest = s.drop_last();
        assert(!key_before(s[s.len() - 1], k));
        lemma_with_key_at(rest, k, at);
        if at > 0 && !key_before(s[at - 1], k) {
            assert(rest.push(s.last()) =~= s);
        } else {
            assert(rest.insert(at, k).push(s.last()) =~= s.insert(at, k));
        }
    } else if at == 0 || key_before(s[at - 1], k) {
        assert(s.insert(at, k) =~= s.push(k));
    }
}

fn put_key(v: &mut Vec<Key>, c: &MonthCell)
    ensures
        key_views(final(v)@) == with_key(key_views(old(v)@), key_of(*c)),
{
    let ghost before = key_views(v@);
    let mut k: usize = v.len();
    while k > 0 && !key_less(&v[k - 1], c) && !key_is(&v[k - 1], c)
        invariant
            k <= v@.len(),
            v@ == old(v)@,
            before == key_views(v@),
            forall|j: int|
                k <= j < v@.len() ==> !key_before(#[trigger] before[j], key_of(*c)) && before[j]
                    != key_of(*c),
        decreases k,
    {
        k = k - 1;
    }
    proof {
        lemma_with_key_at(before, key_of(*c), k as int);
    }
    if k > 0 && !key_less(&v[k - 1], c) {
        return;
    }
    let own = Key {
        account: c.account.clone(),
        kind: c.kind.clone(),
        currency: c.currency.clone(),
    };
    v.insert(k, own);
    assert(key_views(v@) =~= before.insert(k as int, key_of(*c)));
}

proof fn lemma_with_key_contains(s: Seq<KeyView>, k: KeyView, x: KeyView)
    ensures
        with_key(s, k).contains(x) <==> s.contains(x) || x == k,
    decreases s.len(),
{
    if s.len() == 0 || key_before(s.last(), k) {
        crate::paths::lemma_push_contains(s, k, x);
    } else if s.last() == k {
        assert(s[s.len() - 1] == k);
    } else {
        let rest = s.drop_last();
        lemma_with_key_contains(rest, k, x);
        assert(rest.push(s.last()) =~= s);
        crate::paths::lemma_push_contains(with_key(rest, k), s.last(), x);
        crate::paths::lemma_push_contains(rest, s.last(), x);
    }
}

proof fn lemma_keys_in(cells: Seq<MonthCell>, k: KeyView)
    ensures
        keys_in(cells).contains(k) <==> amounts_of(cells, k).len() > 0,
    decreases cells.len(),
{
    if cells.len() > 0 {
        lemma_keys_in(cells.drop_last(), k);
        lemma_with_key_contains(keys_in(cells.drop_last()), key_of(cells.last()), k);
    }
}

proof fn lemma_cells_upto(months: Seq<Month>, n: int, k: int)
    requires
        0 <= n < months.len(),
        0 <= k < months[n].by_account@.len(),
    ensures
        (all_cells(months.take(n)) + months[n].by_account@.take(k + 1)).drop_last() == all_cells(
            months.take(n),
        ) + months[n].by_account@.take(k),
        (all_cells(months.take(n)) + months[n].by_account@.take(k + 1)).last()
            == months[n].by_account@[k],
{
    assert((all_cells(months.take(n)) + months[n].by_account@.take(k + 1)).drop_last()
        =~= all_cells(months.take(n)) + months[n].by_account@.take(k));
}

fn collect_keys(months: &Vec<Month>) -> (r: Vec<Key>)
    ensures
        key_views(r@) == keys_in(all_cells(months@)),
{
    let mut out: Vec<Key> = Vec::new();
    let mut n: usize = 0;
    assert(key_views(out@) =~= Seq::<KeyView>::empty());
    while n < months.len()
        invariant
            n <= months@.len(),
            key_views(out@) == keys_in(all_cells(months@.take(n as int))),
        decreases months@.len() - n,
    {
        let cells = &months[n].by_account;
        let ghost base = all_cells(months@.take(n as int));
        let mut k: usize = 0;
        assert(base + cells@.take(0) =~= base);
        while k < cells.len()
            invariant
                n < months@.len(),
                cells@ == months@[n as int].by_account@,
                base == all_cells(months@.take(n as int)),
                k <= cells@.len(),
                key_views(out@) == keys_in(base + cells@.take(k as int)),
            decreases cells@.len() - k,
        {
            proof {
                lemma_cells_upto(months@, n as int, k as int);
            }
            put_key(&mut out, &cells[k]);
            k = k + 1;
        }
        proof {
            assert(cells@.take(cells@.len() as int) =~= cells@);
            assert(months@.take(n + 1).drop_last() =~= months@.take(n as int));
        }
        n = n + 1;
    }
    assert(months@.take(months@.len() as int) =~= months@);
    out
}

fn collect_amounts(months: &Vec<Month>, key: &Key) -> (r: Vec<i64>)
    ensures
        r@ == amounts_of(all_cells(months@), key_view(*key)),
{
    let mut out: Vec<i64> = Vec::new();
    let mut n: usize = 0;
    while n < months.len()
        invariant
            n <= months@.len(),
            out@ == amounts_of(all_cells(months@.take(n as int)), key_view(*key)),
        decreases months@.len() - n,
    {
        let cells = &months[n].by_account;
        let ghost base = all_cells(months@.take(n as int));
        let mut k: usize = 0;
        assert(base + cells@.take(0) =~= base);
        while k < cells.len()
            invariant
                n < months@.len(),
                cells@ == months@[n as int].by_account@,
                base == all_cells(months@.take(n as int)),
                k <= cells@.len(),
                out@ == amounts_of(base + cells@.take(k as int), key_view(*key)),
            decreases cells@.len() - k,
        {
            proof {
                lemma_cells_upto(months@, n as int, k as int);
            }
            if key_is(key, &cells[k]) {
                out.push(cells[k].amount_minor);
            }
            k = k + 1;
        }
        proof {
            assert(cells@.take(cells@.len() as int) =~= cells@);
            assert(months@.take(n + 1).drop_last() =~= months@.take(n as int));
        }
        n = n + 1;
    }
    assert(months@.take(months@.len() as int) =~= months@);
    out
}

/// What normal looks like, and how far the latest month is from it, the furthest first.
///
/// The median rather than the mean, because one annual insurance payment drags a mean far enough to
/// make every other month look frugal.
pub fn typical(months: &Vec<Month>) -> (r: Vec<Typical>)
    ensures
        exists|rows: Seq<Typical>| #[trigger]
            are_typical(rows, all_cells(months@)) && r@ == ranked(rows),
{
    let keys = collect_keys(months);
    let ghost cells = all_cells(months@);
    let mut rows: Vec<Typical> = Vec::new();
    let mut i: usize = 0;
    while i < keys.len()
        invariant
            i <= keys@.len(),
            cells == all_cells(months@),
            key_views(keys@) == keys_in(cells),
            rows@.len() == i,
            forall|j: int| 0 <= j < i ==> is_typical(#[trigger] rows@[j], cells, keys_in(cells)[j]),
        decreases keys@.len() - i,
    {
        let values = collect_amounts(months, &keys[i]);
        proof {
            assert(key_views(keys@)[i as int] == key_view(keys@[i as int]));
            assert(keys_in(cells).contains(key_view(keys@[i as int])));
            lemma_keys_in(cells, key_view(keys@[i as int]));
        }
        let observed: usize = values.len();
        let latest: i64 = values[observed - 1];
        let sorted = rank(values);
        let med: i64 = median(&sorted);
        let row = Typical {
            account: keys[i].account.clone(),
            kind: keys[i].kind.clone(),
            currency: keys[i].currency.clone(),
            months_observed: observed,
            median_minor: med,
            latest_minor: latest,
            deviation: latest as i128 - med as i128,
        };
        assert(is_typical(row, cells, keys_in(cells)[i as int]));
        rows.push(row);
        i = i + 1;
    }
    assert(are_typical(rows@, cells));
    rank(rows)
}

/// An expense.
#[derive(Debug, Clone)]
pub struct Expense {
    pub txn_id: i64,
    pub on_date: String,
    pub description: String,
    pub payee: Option<String>,
    pub account: String,
    pub currency: String,
    pub amount_minor: Minor,
}

impl Ranked for Expense {
    /// The largest first.
    open spec fn before(&self, other: &Expense) -> bool {
        self.amount_minor > other.amount_minor
    }

    fn comes_before(&self, other: &Expense) -> (r: bool) {
        self.amount_minor > other.amount_minor
    }
}

/// The expenses of a window.
pub open spec fn expenses_in(entries: Seq<EntryView>, from: Seq<char>, to: Seq<char>) -> Seq<
    EntryView,
>
    decreases entries.len(),
{
    if entries.len() == 0 {
        entries
    } else {
        let rest = expenses_in(entries.drop_last(), from, to);
        let e = entries.last();
        if e.kind == "expense"@ && !text_lt(e.occurred_on, from) && !text_lt(to, e.occurred_on) {
            rest.push(e)
        } else {
            rest
        }
    }
}

/// Whether an expense is a posting.
pub open spec fn is_expense(x: Expense, e: EntryView) -> bool {
    x.txn_id == e.txn_id && x.on_date@ == e.occurred_on && x.description@ == e.description
        && opt_view(x.payee) == e.payee && x.account@ == e.account && x.currency@ == e.currency
        && x.amount_minor == e.amount
}

/// Whether expenses are postings, one for one.
pub open spec fn are_expenses(x: Seq<Expense>, e: Seq<EntryView>) -> bool {
    x.len() == e.len() && forall|i: int| 0 <= i < x.len() ==> is_expense(#[trigger] x[i], e[i])
}

/// As many of the first of a list as are wanted.
pub open spec fn at_most<A>(s: Seq<A>, n: int) -> Seq<A> {
    if s.len() <= n {
        s
    } else {
        s.take(n)
    }
}

/// The largest expenses of a window.
pub fn largest(entries: &Vec<BookEntry>, from: &str, to: &str, n: usize) -> (r: Vec<Expense>)
    ensures
        exists|x: Seq<Expense>| #[trigger]
            are_expenses(x, expenses_in(entry_views(entries@), from@, to@)) && r@ == at_most(
                ranked(x),
                n as int,
            ),
{
    let ghost all = entry_views(entries@);
    let mut rows: Vec<Expense> = Vec::new();
    let mut i: usize = 0;
    assert(all.take(0) =~= Seq::<EntryView>::empty());
    while i < entries.len()
        invariant
            i <= entries@.len(),
            all == entry_views(entries@),
            are_expenses(rows@, expenses_in(all.take(i as int), from@, to@)),
        decreases entries@.len() - i,
    {
        assert(all.take(i + 1).drop_last() =~= all.take(i as int));
        assert(all.take(i + 1).last() == entries@[i as int]@);
        let e = &entries[i];
        if str_eq(e.kind.as_str(), "expense") && !text_less(e.occurred_on.as_str(), from)
            && !text_less(to, e.occurred_on.as_str()) {
            let x = Expense {
                txn_id: e.txn_id,
                on_date: e.occurred_on.clone(),
                description: e.description.clone(),
                payee: match &e.payee {
                    Some(p) => Some(p.clone()),
                    None => None,
                },
                account: e.account.clone(),
                currency: e.currency.clone(),
                amount_minor: e.amount_minor,
            };
            assert(is_expense(x, e@));
            rows.push(x);
        }
        i = i + 1;
    }
    assert(all.take(all.len() as int) =~= all);
    let ghost made = rows@;
    assert(are_expenses(made, expenses_in(all, from@, to@)));
    let mut out = rank(rows);
    if out.len() > n {
        out.truncate(n);
        assert(out@ =~= ranked(made).take(n as int));
    }
    out
}

/// The window of history ends before the month in progress, so that no posting of that month is in
/// it: including a part month is the most reliable way to manufacture a trend that does not exist.
pub proof fn law_the_month_in_progress_is_not_in_history(
    entries: Seq<EntryView>,
    e: EntryView,
    from: Seq<char>,
    to: Seq<char>,
)
    requires
        text_lt(to, e.occurred_on),
    ensures
        history(entries.push(e), from, to) == history(entries, from, to),
{
    assert(entries.push(e).drop_last() =~= entries);
}

} // verus!
