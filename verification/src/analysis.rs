//! Analysis: the shape a language model can actually reason about.
//!
//! Exporting makes the book available, which is not the same as making analysis effective. Handed
//! four thousand ledger lines, a model gets the arithmetic wrong, does not know which outgoings are
//! committed and which are choices, has no baseline, and annualises a four-weekly payment as twelve
//! a year. None of those are fixed by sending more data. They are fixed by sending fewer numbers,
//! already computed, in integer arithmetic by the same engine that draws the forecast.

use crate::date::{civil, day_number, is_day, Date, MAX_YEAR, MIN_YEAR};
use crate::fx::{digits_in, minor_digits, Currency};
use crate::ledger::{
    amounts_fit, are_totals, copy_entry, entry_views, has_total, is_on, lemma_amounts_fit,
    total_is_for, total_on, totals, AccountTotal, BookEntry, EntryView,
};
use crate::money::{format_minor, minor_text, round_half_away, rounded, Minor};
use crate::sorting::{rank, ranked, Ranked};
use crate::tally::{add_to, in_order, keeps, sum_of, Sum};
use crate::text::{str_eq, text_less, text_lt};
use vstd::prelude::*;

verus! {

broadcast use vstd::string::group_string_axioms;

/// Why there is no analysis.
#[derive(Debug)]
pub enum AnalysisError {
    Bad(String),
}

impl AnalysisError {
    /// The message, as a sequence of characters.
    pub open spec fn text(self) -> Seq<char> {
        match self {
            AnalysisError::Bad(m) => m@,
        }
    }

    /// The message a person reads.
    pub fn to_text(&self) -> (r: String)
        ensures
            r@ == self.text(),
    {
        match self {
            AnalysisError::Bad(m) => m.clone(),
        }
    }
}

/// What a reader must know about the brief specifically: the traps in reading numbers somebody else
/// already worked out.
pub const BRIEF_PREAMBLE: [&'static str; 8] = [
    "Every figure here is already computed from the full book in exact integer arithmetic. Use these numbers. Do not re-derive them by adding up lines you were shown -- you were not shown all the lines.",
    "monthly_equivalent_minor is NOT the amount times twelve-over-period. It is the next twelve months of the actual RFC 5545 recurrence, summed and divided by twelve, so a 4-weekly payment correctly costs 13/12 of a monthly one and a rule with an end date correctly costs less.",
    "months[] holds COMPLETE calendar months only. The month in progress is deliberately excluded: comparing a part month against whole ones is the most common way to invent a trend that is not there.",
    "spent_minor and received_minor are POSITIVE magnitudes, converted from the ledger's own signs for readability. by_account[].amount_minor keeps the ledger convention (expenses positive, income negative). Do not mix the two.",
    "commitments are what RECURS. They are not all of your spending, and an outgoing that is absent means 'not set up as a recurring series', never 'does not happen'.",
    "outlook is a PROJECTION. It has not happened, it assumes today's rules continue unchanged, and it must never be added into a total of what was actually spent.",
    "Every amount is an integer in its currency's minor unit, and each block is grouped by currency. Two currencies are never comparable and must never be summed. The divisor is 10^minor_digits, which is not always 100.",
    "Read `limits` before concluding anything. It states what this book cannot tell you, and several of its entries invalidate whole sections when they fire.",
];

/// The first day of the month of a day.
pub open spec fn first_of_month(n: int) -> int {
    let (y, m, _) = civil(n);
    day_number(y, m, 1)
}

/// The first day of the month a day is in.
pub fn month_start(d: Date) -> (r: Date)
    requires
        d.in_range(),
    ensures
        r.days == first_of_month(d.days as int),
        r.in_range(),
{
    let (y, m, _) = d.ymd();
    match Date::from_ymd_opt(y, m, 1) {
        Some(f) => f,
        None => d,
    }
}

/// Whether a day of the calendar lies in the supported range of years.
pub open spec fn supported(y: int, m: int, d: int) -> bool {
    is_day(y, m, d) && MIN_YEAR <= y <= MAX_YEAR
}

/// A day some whole months away: the same day of that month, or its first where it has no such day.
pub open spec fn months_away(n: int, delta: int) -> int {
    let (y, m, d) = civil(n);
    let total = y * 12 + (m - 1) + delta;
    let y2 = total / 12;
    let m2 = total % 12 + 1;
    if supported(y2, m2, d) {
        day_number(y2, m2, d)
    } else if supported(y2, m2, 1) {
        day_number(y2, m2, 1)
    } else {
        n
    }
}

/// Shift a day by whole months.
pub fn shift_months(d: Date, delta: i32) -> (r: Date)
    requires
        d.in_range(),
    ensures
        r.days == months_away(d.days as int, delta as int),
        r.in_range(),
{
    let (y, m, day) = d.ymd();
    let total: i64 = y as i64 * 12 + (m as i64 - 1) + delta as i64;
    // Shifted so that the division is of a number that is not negative.
    let up: u64 = (total + 12_000_000_000) as u64;
    let y2: i64 = (up / 12) as i64 - 1_000_000_000;
    let m2: u32 = (up % 12) as u32 + 1;
    assert(total / 12 == y2 as int && total % 12 == m2 - 1);
    if y2 < MIN_YEAR as i64 || y2 > MAX_YEAR as i64 {
        return d;
    }
    match Date::from_ymd_opt(y2 as i32, m2, day) {
        Some(r) => r,
        None => match Date::from_ymd_opt(y2 as i32, m2, 1) {
            Some(r) => r,
            None => d,
        },
    }
}

/// The median of values in order, halves away from zero.
pub open spec fn middle(s: Seq<i64>) -> int {
    let n = s.len() as int;
    if n == 0 {
        0
    } else if n % 2 == 1 {
        s[n / 2] as int
    } else {
        rounded(s[n / 2 - 1] + s[n / 2], 2)
    }
}

/// The median of values already in order, halves away from zero -- the book's single rounding rule.
pub fn median(sorted: &Vec<Minor>) -> (r: Minor)
    ensures
        r == middle(sorted@),
{
    let n: usize = sorted.len();
    if n == 0 {
        return 0;
    }
    if n % 2 == 1 {
        sorted[n / 2]
    } else {
        let a: i128 = sorted[n / 2 - 1] as i128;
        let b: i128 = sorted[n / 2] as i128;
        match round_half_away(a + b, 2) {
            Ok(v) => v,
            Err(_) => {
                assert(false);
                sorted[n / 2]
            },
        }
    }
}

/// The currencies of a book, so that no amount is ever written with two places by assumption.
pub struct Scales {
    pub currencies: Vec<Currency>,
}

impl Scales {
    /// Whether every currency has a number of places that an amount can be written with.
    pub open spec fn workable(&self) -> bool {
        forall|i: int|
            0 <= i < self.currencies@.len() ==> (#[trigger] self.currencies@[i]).minor_digits <= 38
    }

    /// How many places amounts of a currency are written with.
    pub open spec fn places(&self, currency: Seq<char>) -> int {
        match digits_in(self.currencies@, currency) {
            Some(d) => d,
            None => 2,
        }
    }

    /// An amount as a decimal, with the places of its currency.
    pub fn dec(&self, amount: Minor, currency: &str) -> (r: String)
        requires
            self.workable(),
        ensures
            r@ == minor_text(amount as int, self.places(currency@)),
    {
        let digits: u32 = match minor_digits(&self.currencies, currency) {
            Ok(d) => d,
            Err(_) => 2,
        };
        proof {
            crate::fx::lemma_digits_in(self.currencies@, currency@);
        }
        format_minor(amount, digits)
    }
}

/// Whether a posting is on an account that holds money, on or before a day.
pub open spec fn counts_as_held(e: EntryView, as_of: Seq<char>) -> bool {
    (e.kind == "asset"@ || e.kind == "liability"@) && !e.system && !text_lt(as_of, e.occurred_on)
}

/// The postings on accounts that hold money, on or before a day.
pub open spec fn held(entries: Seq<EntryView>, as_of: Seq<char>) -> Seq<EntryView>
    decreases entries.len(),
{
    if entries.len() == 0 {
        entries
    } else {
        let rest = held(entries.drop_last(), as_of);
        if counts_as_held(entries.last(), as_of) {
            rest.push(entries.last())
        } else {
            rest
        }
    }
}

/// Where an account stands.
#[derive(Debug, Clone)]
pub struct Balance {
    pub account: String,
    pub kind: String,
    pub currency: String,
    pub balance_minor: Minor,
    pub last_movement_on: String,
}

impl Ranked for Balance {
    /// By kind, then by name.
    open spec fn before(&self, other: &Balance) -> bool {
        text_lt(self.kind@, other.kind@) || (self.kind@ == other.kind@ && text_lt(
            self.account@,
            other.account@,
        ))
    }

    fn comes_before(&self, other: &Balance) -> (r: bool) {
        text_less(self.kind.as_str(), other.kind.as_str()) || (str_eq(
            self.kind.as_str(),
            other.kind.as_str(),
        ) && text_less(self.account.as_str(), other.account.as_str()))
    }
}

/// Whether a balance is what a total says.
pub open spec fn is_balance(b: Balance, t: AccountTotal) -> bool {
    b.account@ == t.account@ && b.kind@ == t.kind@ && b.currency@ == t.currency@ && b.balance_minor
        == t.total && b.last_movement_on@ == t.last_on@
}

/// Whether balances are what totals say, one for one.
pub open spec fn are_balances(b: Seq<Balance>, t: Seq<AccountTotal>) -> bool {
    b.len() == t.len() && forall|i: int| 0 <= i < b.len() ==> is_balance(#[trigger] b[i], t[i])
}

/// Whether every total of postings fits an amount.
pub open spec fn totals_fit(entries: Seq<EntryView>) -> bool {
    forall|a: i64, c: Seq<char>| i64::MIN <= #[trigger] total_on(entries, a, c) <= i64::MAX
}

proof fn lemma_totals_fit(v: Seq<AccountTotal>, entries: Seq<EntryView>)
    requires
        are_totals(v, entries),
        forall|i: int| 0 <= i < v.len() ==> i64::MIN <= (#[trigger] v[i]).total <= i64::MAX,
    ensures
        totals_fit(entries),
{
    assert forall|a: i64, c: Seq<char>| i64::MIN <= #[trigger] total_on(entries, a, c)
        <= i64::MAX by {
        if has_total(v, a, c) {
            let i = choose|i: int| 0 <= i < v.len() && total_is_for(#[trigger] v[i], a, c);
            assert(v[i].total == total_on(entries, a, c));
        } else {
            assert forall|i: int| 0 <= i < entries.len() implies !is_on(
                #[trigger] entries[i],
                a,
                c,
            ) by {
                assert(has_total(v, entries[i].account_id, entries[i].currency));
            }
            crate::ledger::lemma_untouched(entries, a, c);
        }
    }
}

/// Whether every total fits an amount.
pub(crate) fn all_fit(v: &Vec<AccountTotal>, entries: Ghost<Seq<EntryView>>) -> (r: bool)
    requires
        are_totals(v@, entries@),
    ensures
        r == totals_fit(entries@),
        r ==> forall|i: int| 0 <= i < v@.len() ==> i64::MIN <= (#[trigger] v@[i]).total <= i64::MAX,
{
    let mut i: usize = 0;
    while i < v.len()
        invariant
            are_totals(v@, entries@),
            i <= v@.len(),
            forall|j: int| 0 <= j < i ==> i64::MIN <= (#[trigger] v@[j]).total <= i64::MAX,
        decreases v@.len() - i,
    {
        if v[i].total < i64::MIN as i128 || v[i].total > i64::MAX as i128 {
            assert(v@[i as int].total == total_on(
                entries@,
                v@[i as int].account_id,
                v@[i as int].currency@,
            ));
            return false;
        }
        i = i + 1;
    }
    proof {
        lemma_totals_fit(v@, entries@);
    }
    true
}

/// What postings come to in a currency.
pub open spec fn total_in(entries: Seq<EntryView>, currency: Seq<char>) -> int
    decreases entries.len(),
{
    if entries.len() == 0 {
        0
    } else {
        total_in(entries.drop_last(), currency) + (if entries.last().currency == currency {
            entries.last().amount
        } else {
            0
        })
    }
}

/// Whether a posting is in a currency.
pub open spec fn moves_in(entries: Seq<EntryView>, currency: Seq<char>) -> bool {
    exists|i: int| 0 <= i < entries.len() && (#[trigger] entries[i]).currency == currency
}

/// Whether sums are those of postings per currency, in the order of the currencies.
pub open spec fn are_sums(rows: Seq<Sum>, entries: Seq<EntryView>) -> bool {
    &&& in_order(rows)
    &&& forall|c: Seq<char>| #[trigger] sum_of(rows, c) == total_in(entries, c)
    &&& forall|c: Seq<char>| #[trigger] keeps(rows, c) == moves_in(entries, c)
}

pub proof fn lemma_total_in_bound(entries: Seq<EntryView>, currency: Seq<char>)
    requires
        amounts_fit(entries),
    ensures
        -(entries.len() * 0x8000_0000_0000_0000) <= total_in(entries, currency) <= entries.len()
            * 0x8000_0000_0000_0000,
    decreases entries.len(),
{
    if entries.len() > 0 {
        let rest = entries.drop_last();
        assert forall|i: int| 0 <= i < rest.len() implies i64::MIN <= (#[trigger] rest[i]).amount
            <= i64::MAX by {
            assert(rest[i] == entries[i]);
        }
        assert(i64::MIN <= entries[entries.len() - 1].amount <= i64::MAX);
        lemma_total_in_bound(rest, currency);
    }
}

pub proof fn lemma_moves_in_push(entries: Seq<EntryView>, e: EntryView, c: Seq<char>)
    ensures
        moves_in(entries.push(e), c) == (moves_in(entries, c) || e.currency == c),
{
    let more = entries.push(e);
    if moves_in(entries, c) {
        let i = choose|i: int| 0 <= i < entries.len() && (#[trigger] entries[i]).currency == c;
        assert(more[i].currency == c);
    }
    if e.currency == c {
        assert(more[entries.len() as int].currency == c);
    }
    if moves_in(more, c) && e.currency != c {
        let i = choose|i: int| 0 <= i < more.len() && (#[trigger] more[i]).currency == c;
        assert(entries[i].currency == c);
    }
}

/// What postings come to per currency. Netting stops at the currency boundary on purpose: a total
/// across two currencies is a number with no meaning, and offering one invites quoting it.
pub fn by_currency(entries: &Vec<BookEntry>) -> (r: Vec<Sum>)
    ensures
        are_sums(r@, entry_views(entries@)),
{
    let ghost all = entry_views(entries@);
    let mut out: Vec<Sum> = Vec::new();
    let mut i: usize = 0;
    assert(all.take(0) =~= Seq::<EntryView>::empty());
    while i < entries.len()
        invariant
            i <= entries@.len(),
            all == entry_views(entries@),
            are_sums(out@, all.take(i as int)),
        decreases entries@.len() - i,
    {
        let ghost part = all.take(i as int);
        let ghost more = all.take(i + 1);
        proof {
            assert(more.drop_last() =~= part);
            assert(more =~= part.push(entries@[i as int]@));
            lemma_amounts_fit(entries@);
            assert(amounts_fit(more)) by {
                assert forall|j: int| 0 <= j < more.len() implies i64::MIN <= (
                #[trigger] more[j]).amount <= i64::MAX by {
                    assert(more[j] == all[j]);
                }
            }
            lemma_total_in_bound(more, entries@[i as int].currency@);
            assert(sum_of(out@, entries@[i as int].currency@) == total_in(
                part,
                entries@[i as int].currency@,
            ));
        }
        add_to(&mut out, entries[i].currency.as_str(), entries[i].amount_minor as i128);
        proof {
            assert forall|c: Seq<char>| #[trigger] keeps(out@, c) == moves_in(more, c) by {
                lemma_moves_in_push(part, entries@[i as int]@, c);
            }
        }
        i = i + 1;
    }
    assert(all.take(all.len() as int) =~= all);
    out
}

fn select_held(entries: &Vec<BookEntry>, as_of: &str) -> (r: Vec<BookEntry>)
    ensures
        entry_views(r@) == held(entry_views(entries@), as_of@),
{
    let ghost all = entry_views(entries@);
    let mut out: Vec<BookEntry> = Vec::new();
    let mut i: usize = 0;
    assert(all.take(0) =~= Seq::<EntryView>::empty());
    assert(entry_views(out@) =~= Seq::<EntryView>::empty());
    while i < entries.len()
        invariant
            i <= entries@.len(),
            all == entry_views(entries@),
            entry_views(out@) == held(all.take(i as int), as_of@),
        decreases entries@.len() - i,
    {
        assert(all.take(i + 1).drop_last() =~= all.take(i as int));
        assert(all.take(i + 1).last() == entries@[i as int]@);
        let e = &entries[i];
        if (str_eq(e.kind.as_str(), "asset") || str_eq(e.kind.as_str(), "liability")) && !e.system
            && !text_less(as_of, e.occurred_on.as_str()) {
            let c = copy_entry(e);
            assert(entry_views(out@.push(c)) =~= entry_views(out@).push(c@));
            out.push(c);
        }
        i = i + 1;
    }
    assert(all.take(all.len() as int) =~= all);
    out
}

/// Where the money is: per account, and netted per currency.
#[derive(Debug, Clone)]
pub struct Position {
    pub by_account: Vec<Balance>,
    pub net_by_currency: Vec<Sum>,
}

/// Whether a position is that of a book on a day.
pub open spec fn is_position(p: Position, entries: Seq<EntryView>, as_of: Seq<char>) -> bool {
    let own = held(entries, as_of);
    &&& exists|t: Seq<AccountTotal>, b: Seq<Balance>|
        are_totals(t, own) && #[trigger] are_balances(b, t) && p.by_account@ == ranked(b)
    &&& are_sums(p.net_by_currency@, own)
}

/// Where the money is on a day: per account, and netted per currency.
///
/// A payment typed in for next week is in the outlook's dip on that day, not in today's position.
pub fn position(entries: &Vec<BookEntry>, as_of: &str) -> (r: Result<Position, AnalysisError>)
    ensures
        match r {
            Ok(p) => is_position(p, entry_views(entries@), as_of@) && totals_fit(
                held(entry_views(entries@), as_of@),
            ),
            Err(e) => !totals_fit(held(entry_views(entries@), as_of@)) && e.text()
                == "integer overflow"@,
        },
{
    let own = select_held(entries, as_of);
    let sums = totals(&own);
    if !all_fit(&sums, Ghost(entry_views(own@))) {
        return Err(AnalysisError::Bad("integer overflow".to_string()));
    }
    let mut rows: Vec<Balance> = Vec::new();
    let mut i: usize = 0;
    while i < sums.len()
        invariant
            i <= sums@.len(),
            forall|j: int|
                0 <= j < sums@.len() ==> i64::MIN <= (#[trigger] sums@[j]).total <= i64::MAX,
            rows@.len() == i,
            forall|j: int| 0 <= j < i ==> is_balance(#[trigger] rows@[j], sums@[j]),
        decreases sums@.len() - i,
    {
        let t = &sums[i];
        rows.push(
            Balance {
                account: t.account.clone(),
                kind: t.kind.clone(),
                currency: t.currency.clone(),
                balance_minor: t.total as i64,
                last_movement_on: t.last_on.clone(),
            },
        );
        i = i + 1;
    }
    assert(are_balances(rows@, sums@));
    let by_account = rank(rows);
    let net_by_currency = by_currency(&own);
    Ok(Position { by_account, net_by_currency })
}

/// Two currencies never net against each other: a currency's net is untouched by what is held in
/// another.
pub proof fn law_balances_never_net_across_currencies(
    entries: Seq<EntryView>,
    e: EntryView,
    currency: Seq<char>,
)
    requires
        e.currency != currency,
    ensures
        total_in(entries.push(e), currency) == total_in(entries, currency),
{
    assert(entries.push(e).drop_last() =~= entries);
}

/// A payment dated after the day is not in that day's position.
pub proof fn law_a_later_payment_is_not_in_the_position(
    entries: Seq<EntryView>,
    e: EntryView,
    as_of: Seq<char>,
)
    requires
        text_lt(as_of, e.occurred_on),
    ensures
        held(entries.push(e), as_of) == held(entries, as_of),
{
    assert(entries.push(e).drop_last() =~= entries);
}

} // verus!
