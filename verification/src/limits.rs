//! What a book cannot tell.
//!
//! The most important section of a brief, and the one most likely to be skimmed, so that each entry
//! is phrased as the wrong conclusion it prevents. An analysis blind to its own blind spots is worse
//! than none, because it is confident.

use crate::analysis::{total_in, AnalysisError, Scales};
use crate::book::Account;
use crate::date::{iso, read_day, Date};
use crate::digits::{int_digits, int_text};
use crate::fx::RateRow;
use crate::ledger::{
    amounts_fit, copy_entry, entry_views, lemma_amounts_fit, BookEntry, EntryView,
};
use crate::money::{minor_text, Minor};
use crate::roles::{bucket, unclassified_existing, UNCLASSIFIED_NAME};
use crate::text::{opt_view, put_text, str_eq, text_less, text_lt, views, with_text};
use vstd::prelude::*;

verus! {

broadcast use vstd::string::group_string_axioms;

/// A limit on what a book can tell.
#[derive(Debug, Clone)]
pub struct Limit {
    /// fatal, high, medium or always.
    pub severity: String,
    pub limit: String,
    pub detail: String,
}

/// The content of a limit.
pub struct LimitView {
    pub severity: Seq<char>,
    pub limit: Seq<char>,
    pub detail: Seq<char>,
}

impl View for Limit {
    type V = LimitView;

    open spec fn view(&self) -> LimitView {
        LimitView { severity: self.severity@, limit: self.limit@, detail: self.detail@ }
    }
}

/// The contents of limits.
pub open spec fn limit_views(v: Seq<Limit>) -> Seq<LimitView> {
    v.map_values(|l: Limit| l@)
}

/// What a book holds, as far as its limits depend on it.
pub struct BookFacts {
    pub entries: Vec<BookEntry>,
    pub accounts: Vec<Account>,
    /// The account that uncategorised rows go to, if it is on record.
    pub unclassified_pin: Option<i64>,
    /// The first and the last day of a transaction, and how many there are.
    pub first_on: Option<String>,
    pub last_on: Option<String>,
    pub txn_count: i64,
    /// How many series there are outside any scenario.
    pub series_count: i64,
    pub display_currency: Option<String>,
    pub rates: Vec<RateRow>,
    pub scales: Scales,
    /// How many transactions do not balance.
    pub unbalanced: i64,
}

/// What is said of how far the history reaches.
pub open spec fn history_limit(f: BookFacts) -> LimitView {
    match f.first_on {
        None => LimitView {
            severity: "fatal"@,
            limit: "the book is empty"@,
            detail:
                "There are no transactions. Every section below is vacuous; do not report zeroes as findings."@,
        },
        Some(first) => LimitView {
            severity: "always"@,
            limit: "history starts here"@,
            detail: "The earliest transaction is "@ + first@ + " and the latest is "@ + (
            match f.last_on {
                Some(l) => l@,
                None => Seq::empty(),
            }) + ". \"Never\" and \"first time\" can only mean \"not since "@ + first@ + "\". "@
                + int_digits(f.txn_count as int) + " transactions in total."@,
        },
    }
}

/// What is said of a baseline of too few months.
pub open spec fn baseline_limit(months: int, from: int) -> LimitView {
    LimitView {
        severity: "high"@,
        limit: "no baseline yet"@,
        detail: "Only "@ + int_digits(months) + " complete calendar month(s) sit in the window from "@
            + iso(from)
            + ". A median over that is not a baseline -- report levels, not trends, and do not call anything unusual."@,
    }
}

/// A quotient without its fraction.
pub open spec fn whole_quotient(a: int, b: int) -> int {
    let q = (if a < 0 {
        -a
    } else {
        a
    }) / (if b < 0 {
        -b
    } else {
        b
    });
    if (a < 0) == (b < 0) {
        q
    } else {
        -q
    }
}

/// What share of a total an amount is, in whole percents.
pub open spec fn percent_of(amount: int, total: int) -> int {
    if total != 0 {
        whole_quotient(amount * 100, total)
    } else {
        0
    }
}

/// What is said of spending that has no category.
pub open spec fn uncategorised_limit(
    scales: Scales,
    currency: Seq<char>,
    amount: int,
    total: int,
    from: int,
    name: Seq<char>,
) -> LimitView {
    let pct = percent_of(amount, total);
    LimitView {
        severity: if pct >= 10 {
            "high"@
        } else {
            "medium"@
        },
        limit: "spending that has no category"@,
        detail: minor_text(amount, scales.places(currency)) + " "@ + currency + " ("@ + int_digits(
            pct,
        ) + "% of expenditure since "@ + iso(from) + ") sits in "@ + name
            + ". Category totals and medians are wrong by up to that much, in an unknown direction."@,
    }
}

/// The postings since a day on an account, or of a kind.
pub open spec fn since(
    entries: Seq<EntryView>,
    from: Seq<char>,
    account: Option<i64>,
) -> Seq<EntryView>
    decreases entries.len(),
{
    if entries.len() == 0 {
        entries
    } else {
        let rest = since(entries.drop_last(), from, account);
        let e = entries.last();
        let wanted = match account {
            Some(id) => e.account_id == id,
            None => e.kind == "expense"@,
        };
        if wanted && !text_lt(e.occurred_on, from) {
            rest.push(e)
        } else {
            rest
        }
    }
}

/// The currencies of postings, in order.
pub open spec fn codes_in(entries: Seq<EntryView>) -> Seq<Seq<char>>
    decreases entries.len(),
{
    if entries.len() == 0 {
        Seq::empty()
    } else {
        with_text(codes_in(entries.drop_last()), entries.last().currency)
    }
}

/// The postings that have no category.
pub open spec fn uncategorised(f: BookFacts, from: int) -> Seq<EntryView> {
    match bucket(f.accounts@, f.unclassified_pin) {
        Some(a) => since(entry_views(f.entries@), iso(from), Some(a.id)),
        // A book that has never imported anything has no bucket, which is an absence of
        // uncategorised spending rather than a missing measurement.
        None => Seq::empty(),
    }
}

/// What the bucket of uncategorised spending is called now.
pub open spec fn bucket_name(f: BookFacts) -> Seq<char> {
    match bucket(f.accounts@, f.unclassified_pin) {
        Some(a) => a.name@,
        None => UNCLASSIFIED_NAME@,
    }
}

/// What is said of spending that has no category, for each currency.
pub open spec fn uncategorised_limits(f: BookFacts, from: int) -> Seq<LimitView> {
    let own = uncategorised(f, from);
    let spent = since(entry_views(f.entries@), iso(from), None);
    codes_in(own).map_values(
        |c: Seq<char>|
            uncategorised_limit(
                f.scales,
                c,
                total_in(own, c),
                total_in(spent, c),
                from,
                bucket_name(f),
            ),
    )
}

/// Whether the sums that limits speak of fit an amount.
pub open spec fn sums_fit(f: BookFacts, from: int) -> bool {
    let own = uncategorised(f, from);
    let spent = since(entry_views(f.entries@), iso(from), None);
    forall|i: int|
        0 <= i < codes_in(own).len() ==> i64::MIN <= total_in(own, #[trigger] codes_in(own)[i])
            <= i64::MAX && i64::MIN <= total_in(spent, codes_in(own)[i]) <= i64::MAX
}

/// What is said where nothing recurs.
pub open spec fn recurring_limit() -> LimitView {
    LimitView {
        severity: "high"@,
        limit: "nothing recurring is recorded"@,
        detail:
            "No baseline series exist, so `commitments` is empty and `outlook` projects nothing. That is a gap in the book, not an absence of commitments in real life."@,
    }
}

/// The date of the latest rate for a currency.
pub open spec fn latest_rate(rates: Seq<RateRow>, currency: Seq<char>) -> Option<Seq<char>>
    decreases rates.len(),
{
    if rates.len() == 0 {
        None
    } else {
        let before = latest_rate(rates.drop_last(), currency);
        let r = rates.last();
        if (r.quote@ == currency || r.base@ == currency) && (before is None || text_lt(
            before->0,
            r.as_of@,
        )) {
            Some(r.as_of@)
        } else {
            before
        }
    }
}

/// Whether a rate of that date is too old to convert with.
pub open spec fn is_stale(as_of: int, latest: Option<Seq<char>>) -> bool {
    match latest {
        None => true,
        Some(t) => match read_day(t, "%Y-%m-%d"@) {
            Some(n) => as_of - n > 30,
            None => true,
        },
    }
}

/// What is said of a currency without a fresh rate.
pub open spec fn stale_limit(currency: Seq<char>, latest: Option<Seq<char>>) -> LimitView {
    LimitView {
        severity: "medium"@,
        limit: "a foreign currency has no fresh rate"@,
        detail: currency + " is held in this book but its most recent stored rate is "@ + (
        match latest {
            Some(t) => t,
            None => "absent"@,
        })
            + ". Any figure converted into the display currency is that stale, and no conversion appears in this brief at all."@,
    }
}

/// What is said of the currencies of a list that have no fresh rate and are not the one displayed.
pub open spec fn stale_limits(
    codes: Seq<Seq<char>>,
    display: Option<Seq<char>>,
    rates: Seq<RateRow>,
    as_of: int,
) -> Seq<LimitView>
    decreases codes.len(),
{
    if codes.len() == 0 {
        Seq::empty()
    } else {
        let rest = stale_limits(codes.drop_last(), display, rates, as_of);
        let c = codes.last();
        if display is Some && display->0 != c && is_stale(as_of, latest_rate(rates, c)) {
            rest.push(stale_limit(c, latest_rate(rates, c)))
        } else {
            rest
        }
    }
}

/// What is said of a book that does not balance.
pub open spec fn corrupt_limit(unbalanced: int) -> LimitView {
    LimitView {
        severity: "fatal"@,
        limit: "the book does not balance"@,
        detail: int_digits(unbalanced)
            + " transaction(s) have postings that do not sum to zero within a currency. The book is corrupt; nothing here can be trusted until db.check is clean."@,
    }
}

/// What is always said.
pub open spec fn summary_limit() -> LimitView {
    LimitView {
        severity: "always"@,
        limit: "this brief is not the ledger"@,
        detail:
            "It summarises. To answer anything at the level of an individual payment -- who, when, how often, which of these was the odd one -- call analysis.query with SQL rather than inferring from these totals."@,
    }
}

/// A limit, where it applies.
pub open spec fn where_it_applies(applies: bool, l: LimitView) -> Seq<LimitView> {
    if applies {
        seq![l]
    } else {
        Seq::empty()
    }
}

/// What a book cannot tell.
pub open spec fn limits_of(f: BookFacts, as_of: int, from: int, months: int) -> Seq<LimitView> {
    seq![history_limit(f)] + where_it_applies(months < 3, baseline_limit(months, from))
        + uncategorised_limits(f, from) + where_it_applies(f.series_count == 0, recurring_limit())
        + stale_limits(
        codes_in(entry_views(f.entries@)),
        opt_view(f.display_currency),
        f.rates@,
        as_of,
    ) + where_it_applies(f.unbalanced > 0, corrupt_limit(f.unbalanced as int)) + seq![
        summary_limit(),
    ]
}

fn say(severity: &str, limit: &str, detail: String) -> (r: Limit)
    ensures
        r@ == (LimitView { severity: severity@, limit: limit@, detail: detail@ }),
{
    Limit { severity: severity.to_string(), limit: limit.to_string(), detail }
}

fn on_history(f: &BookFacts) -> (r: Limit)
    ensures
        r@ == history_limit(*f),
{
    match &f.first_on {
        None => say(
            "fatal",
            "the book is empty",
            "There are no transactions. Every section below is vacuous; do not report zeroes as findings.".to_string(),
        ),
        Some(first) => {
            let mut d = "The earliest transaction is ".to_string();
            d.append(first.as_str());
            d.append(" and the latest is ");
            match &f.last_on {
                Some(l) => {
                    d.append(l.as_str());
                },
                None => {
                    d.append(String::new().as_str());
                },
            }
            d.append(". \"Never\" and \"first time\" can only mean \"not since ");
            d.append(first.as_str());
            d.append("\". ");
            let n = int_text(f.txn_count as i128);
            d.append(n.as_str());
            d.append(" transactions in total.");
            say("always", "history starts here", d)
        },
    }
}

fn on_baseline(months: usize, from: Date) -> (r: Limit)
    ensures
        r@ == baseline_limit(months as int, from.days as int),
{
    let mut d = "Only ".to_string();
    let n = int_text(months as i128);
    d.append(n.as_str());
    d.append(" complete calendar month(s) sit in the window from ");
    let day = from.to_text();
    d.append(day.as_str());
    d.append(
        ". A median over that is not a baseline -- report levels, not trends, and do not call anything unusual.",
    );
    say("high", "no baseline yet", d)
}

fn size_of(n: i128) -> (r: u128)
    ensures
        r == (if n < 0 {
            -n
        } else {
            n as int
        }),
{
    if n < 0 {
        (-(n + 1)) as u128 + 1
    } else {
        n as u128
    }
}

fn percent(amount: Minor, total: Minor) -> (r: i128)
    ensures
        r == percent_of(amount as int, total as int),
{
    if total == 0 {
        return 0;
    }
    let a: i128 = amount as i128 * 100;
    let b: i128 = total as i128;
    let x: u128 = size_of(a);
    let y: u128 = size_of(b);
    let q: u128 = x / y;
    assert(q <= x) by (nonlinear_arith)
        requires
            q == x / y,
            y > 0,
    ;
    if (a < 0) == (b < 0) {
        q as i128
    } else {
        -(q as i128)
    }
}

fn on_uncategorised(
    scales: &Scales,
    currency: &str,
    amount: Minor,
    total: Minor,
    from: Date,
    name: &str,
) -> (r: Limit)
    requires
        scales.workable(),
    ensures
        r@ == uncategorised_limit(
            *scales,
            currency@,
            amount as int,
            total as int,
            from.days as int,
            name@,
        ),
{
    let pct: i128 = percent(amount, total);
    let mut d = scales.dec(amount, currency);
    d.append(" ");
    d.append(currency);
    d.append(" (");
    let n = int_text(pct);
    d.append(n.as_str());
    d.append("% of expenditure since ");
    let day = from.to_text();
    d.append(day.as_str());
    d.append(") sits in ");
    d.append(name);
    d.append(
        ". Category totals and medians are wrong by up to that much, in an unknown direction.",
    );
    let severity = if pct >= 10 {
        "high"
    } else {
        "medium"
    };
    say(severity, "spending that has no category", d)
}

fn select_since(entries: &Vec<BookEntry>, from: &str, account: Option<i64>) -> (r: Vec<BookEntry>)
    ensures
        entry_views(r@) == since(entry_views(entries@), from@, account),
{
    let ghost all = entry_views(entries@);
    let mut out: Vec<BookEntry> = Vec::new();
    let mut i: usize = 0;
    assert(all.take(0) =~= Seq::<EntryView>::empty());
    assert(entry_views(out@) =~= Seq::<EntryView>::empty());
    while i < entries.len()
        invariant
            i <= entries@.len(),
            all == entry_views(entries@),
            entry_views(out@) == since(all.take(i as int), from@, account),
        decreases entries@.len() - i,
    {
        assert(all.take(i + 1).drop_last() =~= all.take(i as int));
        assert(all.take(i + 1).last() == entries@[i as int]@);
        let e = &entries[i];
        let wanted = match account {
            Some(id) => e.account_id == id,
            None => str_eq(e.kind.as_str(), "expense"),
        };
        if wanted && !text_less(e.occurred_on.as_str(), from) {
            let c = copy_entry(e);
            assert(entry_views(out@.push(c)) =~= entry_views(out@).push(c@));
            out.push(c);
        }
        i = i + 1;
    }
    assert(all.take(all.len() as int) =~= all);
    out
}

fn collect_codes(entries: &Vec<BookEntry>) -> (r: Vec<String>)
    ensures
        views(r@) == codes_in(entry_views(entries@)),
{
    let ghost all = entry_views(entries@);
    let mut out: Vec<String> = Vec::new();
    let mut i: usize = 0;
    assert(all.take(0) =~= Seq::<EntryView>::empty());
    assert(views(out@) =~= Seq::<Seq<char>>::empty());
    while i < entries.len()
        invariant
            i <= entries@.len(),
            all == entry_views(entries@),
            views(out@) == codes_in(all.take(i as int)),
        decreases entries@.len() - i,
    {
        assert(all.take(i + 1).drop_last() =~= all.take(i as int));
        assert(all.take(i + 1).last() == entries@[i as int]@);
        put_text(&mut out, entries[i].currency.as_str());
        i = i + 1;
    }
    assert(all.take(all.len() as int) =~= all);
    out
}

fn sum_in(entries: &Vec<BookEntry>, currency: &str) -> (r: i128)
    ensures
        r == total_in(entry_views(entries@), currency@),
{
    let ghost all = entry_views(entries@);
    let mut n: i128 = 0;
    let mut i: usize = 0;
    assert(all.take(0) =~= Seq::<EntryView>::empty());
    while i < entries.len()
        invariant
            i <= entries@.len(),
            all == entry_views(entries@),
            n == total_in(all.take(i as int), currency@),
        decreases entries@.len() - i,
    {
        proof {
            assert(all.take(i + 1).drop_last() =~= all.take(i as int));
            assert(all.take(i + 1).last() == entries@[i as int]@);
            lemma_amounts_fit(entries@);
            let more = all.take(i + 1);
            assert(amounts_fit(more)) by {
                assert forall|j: int| 0 <= j < more.len() implies i64::MIN <= (
                #[trigger] more[j]).amount <= i64::MAX by {
                    assert(more[j] == all[j]);
                }
            }
            crate::analysis::lemma_total_in_bound(more, currency@);
        }
        if str_eq(entries[i].currency.as_str(), currency) {
            n = n + entries[i].amount_minor as i128;
        }
        i = i + 1;
    }
    assert(all.take(all.len() as int) =~= all);
    n
}

fn find_latest(rates: &Vec<RateRow>, currency: &str) -> (r: Option<String>)
    ensures
        opt_view(r) == latest_rate(rates@, currency@),
{
    let mut out: Option<String> = None;
    let mut i: usize = 0;
    while i < rates.len()
        invariant
            i <= rates@.len(),
            opt_view(out) == latest_rate(rates@.take(i as int), currency@),
        decreases rates@.len() - i,
    {
        assert(rates@.take(i + 1).drop_last() =~= rates@.take(i as int));
        let r = &rates[i];
        if str_eq(r.quote.as_str(), currency) || str_eq(r.base.as_str(), currency) {
            let later = match &out {
                Some(l) => text_less(l.as_str(), r.as_of.as_str()),
                None => true,
            };
            if later {
                out = Some(r.as_of.clone());
            }
        }
        i = i + 1;
    }
    assert(rates@.take(rates@.len() as int) =~= rates@);
    out
}

fn stale(as_of: Date, latest: &Option<String>) -> (r: bool)
    ensures
        r == is_stale(as_of.days as int, opt_view(*latest)),
{
    match latest {
        None => true,
        Some(t) => match Date::parse(t.as_str()) {
            Some(d) => as_of.days as i64 - d.days as i64 > 30,
            None => true,
        },
    }
}

fn on_stale(currency: &str, latest: &Option<String>) -> (r: Limit)
    ensures
        r@ == stale_limit(currency@, opt_view(*latest)),
{
    let mut d = currency.to_string();
    d.append(" is held in this book but its most recent stored rate is ");
    match latest {
        Some(t) => {
            d.append(t.as_str());
        },
        None => {
            d.append("absent");
        },
    }
    d.append(
        ". Any figure converted into the display currency is that stale, and no conversion appears in this brief at all.",
    );
    say("medium", "a foreign currency has no fresh rate", d)
}

fn note(out: &mut Vec<Limit>, l: Limit)
    ensures
        limit_views(final(out)@) == limit_views(old(out)@).push(l@),
{
    let ghost before = out@;
    out.push(l);
    assert(limit_views(out@) =~= limit_views(before).push(l@));
}

fn add_uncategorised(f: &BookFacts, from: Date, out: &mut Vec<Limit>) -> (ok: bool)
    requires
        f.scales.workable(),
    ensures
        ok == sums_fit(*f, from.days as int),
        ok ==> limit_views(final(out)@) == limit_views(old(out)@) + uncategorised_limits(
            *f,
            from.days as int,
        ),
{
    let day = from.to_text();
    let found = unclassified_existing(&f.accounts, f.unclassified_pin);
    let (own, name): (Vec<BookEntry>, String) = match found {
        Some(p) => (select_since(&f.entries, day.as_str(), Some(p.0)), p.1),
        None => (Vec::new(), UNCLASSIFIED_NAME.to_string()),
    };
    let ghost mine = uncategorised(*f, from.days as int);
    assert(entry_views(own@) =~= mine);
    let spent = select_since(&f.entries, day.as_str(), None);
    let codes = collect_codes(&own);
    let ghost want = uncategorised_limits(*f, from.days as int);
    let ghost start = limit_views(out@);
    let mut i: usize = 0;
    assert(start + want.take(0) =~= start);
    while i < codes.len()
        invariant
            i <= codes@.len(),
            f.scales.workable(),
            mine == uncategorised(*f, from.days as int),
            entry_views(own@) == mine,
            entry_views(spent@) == since(entry_views(f.entries@), iso(from.days as int), None),
            views(codes@) == codes_in(mine),
            want == uncategorised_limits(*f, from.days as int),
            name@ == bucket_name(*f),
            start == limit_views(old(out)@),
            limit_views(out@) == start + want.take(i as int),
            forall|j: int|
                0 <= j < i ==> i64::MIN <= total_in(mine, #[trigger] codes_in(mine)[j])
                    <= i64::MAX && i64::MIN <= total_in(entry_views(spent@), codes_in(mine)[j])
                    <= i64::MAX,
        decreases codes@.len() - i,
    {
        assert(views(codes@)[i as int] == codes@[i as int]@);
        let c = codes[i].as_str();
        let amount: i128 = sum_in(&own, c);
        let total: i128 = sum_in(&spent, c);
        if amount < i64::MIN as i128 || amount > i64::MAX as i128 || total < i64::MIN as i128
            || total > i64::MAX as i128 {
            assert(codes_in(mine)[i as int] == codes@[i as int]@);
            return false;
        }
        let l = on_uncategorised(
            &f.scales,
            c,
            amount as i64,
            total as i64,
            from,
            name.as_str(),
        );
        assert(l@ == want[i as int]);
        note(out, l);
        assert(want.take(i + 1) =~= want.take(i as int).push(l@));
        i = i + 1;
        assert(limit_views(out@) =~= start + want.take(i as int));
    }
    assert(want.take(want.len() as int) =~= want);
    true
}

fn add_stale(f: &BookFacts, as_of: Date, out: &mut Vec<Limit>)
    ensures
        limit_views(final(out)@) == limit_views(old(out)@) + stale_limits(
            codes_in(entry_views(f.entries@)),
            opt_view(f.display_currency),
            f.rates@,
            as_of.days as int,
        ),
{
    let codes = collect_codes(&f.entries);
    let ghost all = views(codes@);
    let ghost shown = opt_view(f.display_currency);
    let ghost start = limit_views(out@);
    let mut i: usize = 0;
    assert(all.take(0) =~= Seq::<Seq<char>>::empty());
    assert(start + stale_limits(all.take(0), shown, f.rates@, as_of.days as int) =~= start);
    while i < codes.len()
        invariant
            i <= codes@.len(),
            all == views(codes@),
            shown == opt_view(f.display_currency),
            start == limit_views(old(out)@),
            limit_views(out@) == start + stale_limits(
                all.take(i as int),
                shown,
                f.rates@,
                as_of.days as int,
            ),
        decreases codes@.len() - i,
    {
        assert(all.take(i + 1).drop_last() =~= all.take(i as int));
        assert(all.take(i + 1).last() == codes@[i as int]@);
        let c = codes[i].as_str();
        let foreign = match &f.display_currency {
            Some(d) => !str_eq(d.as_str(), c),
            None => false,
        };
        if foreign {
            let latest = find_latest(&f.rates, c);
            if stale(as_of, &latest) {
                let l = on_stale(c, &latest);
                note(out, l);
            }
        }
        i = i + 1;
        assert(limit_views(out@) =~= start + stale_limits(
            all.take(i as int),
            shown,
            f.rates@,
            as_of.days as int,
        ));
    }
    assert(all.take(all.len() as int) =~= all);
}

/// What a book cannot tell: how far back it reaches, how thin its baseline is, how much of its
/// spending has no category, what is missing from it, and whether it is sound at all.
///
/// The bucket of uncategorised spending is found by its id and named by what it is called now, so
/// that a rename cannot switch the caveat off.
pub fn limits(f: &BookFacts, as_of: Date, window_from: Date, complete_months: usize) -> (r: Result<
    Vec<Limit>,
    AnalysisError,
>)
    requires
        f.scales.workable(),
    ensures
        match r {
            Ok(v) => limit_views(v@) == limits_of(
                *f,
                as_of.days as int,
                window_from.days as int,
                complete_months as int,
            ) && sums_fit(*f, window_from.days as int),
            Err(e) => !sums_fit(*f, window_from.days as int) && e.text() == "integer overflow"@,
        },
{
    let mut out: Vec<Limit> = Vec::new();
    assert(limit_views(out@) =~= Seq::<LimitView>::empty());
    note(&mut out, on_history(f));
    let ghost a = seq![history_limit(*f)];
    assert(limit_views(out@) =~= a);
    let ghost b = a + where_it_applies(
        complete_months < 3,
        baseline_limit(complete_months as int, window_from.days as int),
    );
    if complete_months < 3 {
        note(&mut out, on_baseline(complete_months, window_from));
    }
    assert(limit_views(out@) =~= b);
    if !add_uncategorised(f, window_from, &mut out) {
        return Err(AnalysisError::Bad("integer overflow".to_string()));
    }
    let ghost c = b + uncategorised_limits(*f, window_from.days as int);
    let ghost d = c + where_it_applies(f.series_count == 0, recurring_limit());
    if f.series_count == 0 {
        note(
            &mut out,
            say(
                "high",
                "nothing recurring is recorded",
                "No baseline series exist, so `commitments` is empty and `outlook` projects nothing. That is a gap in the book, not an absence of commitments in real life.".to_string(),
            ),
        );
    }
    assert(limit_views(out@) =~= d);
    add_stale(f, as_of, &mut out);
    let ghost e = limit_views(out@);
    let ghost g = e + where_it_applies(f.unbalanced > 0, corrupt_limit(f.unbalanced as int));
    if f.unbalanced > 0 {
        let mut t = int_text(f.unbalanced as i128);
        t.append(
            " transaction(s) have postings that do not sum to zero within a currency. The book is corrupt; nothing here can be trusted until db.check is clean.",
        );
        note(&mut out, say("fatal", "the book does not balance", t));
    }
    assert(limit_views(out@) =~= g);
    note(
        &mut out,
        say(
            "always",
            "this brief is not the ledger",
            "It summarises. To answer anything at the level of an individual payment -- who, when, how often, which of these was the odd one -- call analysis.query with SQL rather than inferring from these totals.".to_string(),
        ),
    );
    assert(limit_views(out@) =~= g + seq![summary_limit()]);
    Ok(out)
}

/// Renaming the bucket does not silence its caveat: while its account is on record, the uncategorised
/// postings are the same whatever the accounts are called.
pub proof fn law_a_rename_does_not_silence_the_caveat(f: BookFacts, g: BookFacts, from: int)
    requires
        entry_views(f.entries@) == entry_views(g.entries@),
        bucket(f.accounts@, f.unclassified_pin) is Some,
        bucket(g.accounts@, g.unclassified_pin) is Some,
        bucket(f.accounts@, f.unclassified_pin)->0.id == bucket(
            g.accounts@,
            g.unclassified_pin,
        )->0.id,
    ensures
        uncategorised(f, from) == uncategorised(g, from),
        uncategorised_limits(f, from).len() == uncategorised_limits(g, from).len(),
{
}

} // verus!
