//! When the picture of a book says what it cannot tell.

use crate::date::read_day;
use crate::fx::RateRow;
use crate::ledger::{entry_views, EntryView};
use crate::limits::{
    codes_in, is_stale, latest_rate, limits_of, percent_of, since, stale_limits, uncategorised,
    uncategorised_limit, uncategorised_limits, where_it_applies, BookFacts, LimitView,
};
use crate::text::{
    lemma_text_irreflexive, lemma_text_transitive, lemma_with_text, opt_view, text_lt,
};
use vstd::prelude::*;

verus! {

/// Whether something of this name is said, with this weight.
pub open spec fn says(l: Seq<LimitView>, severity: Seq<char>, name: Seq<char>) -> bool {
    exists|i: int| 0 <= i < l.len() && (#[trigger] l[i]).limit == name && l[i].severity == severity
}

/// Whether anything of this name is said.
pub open spec fn mentions(l: Seq<LimitView>, name: Seq<char>) -> bool {
    exists|i: int| 0 <= i < l.len() && (#[trigger] l[i]).limit == name
}

proof fn lemma_names()
    ensures
        "the book is empty"@.len() == 17,
        "history starts here"@.len() == 19,
        "no baseline yet"@.len() == 15,
        "spending that has no category"@.len() == 29,
        "nothing recurring is recorded"@.len() == 29,
        "spending that has no category"@[0] == 's',
        "nothing recurring is recorded"@[0] == 'n',
        "a foreign currency has no fresh rate"@.len() == 36,
        "the book does not balance"@.len() == 25,
        "this brief is not the ledger"@.len() == 28,
{
    reveal_strlit("the book is empty");
    reveal_strlit("history starts here");
    reveal_strlit("no baseline yet");
    reveal_strlit("spending that has no category");
    reveal_strlit("nothing recurring is recorded");
    reveal_strlit("a foreign currency has no fresh rate");
    reveal_strlit("the book does not balance");
    reveal_strlit("this brief is not the ledger");
}

proof fn lemma_mentions_join(a: Seq<LimitView>, b: Seq<LimitView>, n: Seq<char>, s: Seq<char>)
    ensures
        mentions(a + b, n) <==> mentions(a, n) || mentions(b, n),
        says(a + b, s, n) <==> says(a, s, n) || says(b, s, n),
{
    let t = a + b;
    if mentions(a, n) {
        let i = choose|i: int| 0 <= i < a.len() && (#[trigger] a[i]).limit == n;
        assert(t[i].limit == n);
    }
    if mentions(b, n) {
        let i = choose|i: int| 0 <= i < b.len() && (#[trigger] b[i]).limit == n;
        assert(t[a.len() + i].limit == n);
    }
    if says(a, s, n) {
        let i = choose|i: int| 0 <= i < a.len() && (#[trigger] a[i]).limit == n && a[i].severity == s;
        assert(t[i].limit == n);
    }
    if says(b, s, n) {
        let i = choose|i: int| 0 <= i < b.len() && (#[trigger] b[i]).limit == n && b[i].severity == s;
        assert(t[a.len() + i].limit == n);
    }
    if mentions(t, n) {
        let i = choose|i: int| 0 <= i < t.len() && (#[trigger] t[i]).limit == n;
        if i < a.len() {
            assert(a[i].limit == n);
        } else {
            assert(b[i - a.len()].limit == n);
        }
    }
    if says(t, s, n) {
        let i = choose|i: int| 0 <= i < t.len() && (#[trigger] t[i]).limit == n && t[i].severity == s;
        if i < a.len() {
            assert(a[i].limit == n);
        } else {
            assert(b[i - a.len()].limit == n);
        }
    }
}

proof fn lemma_where_it_applies(applies: bool, l: LimitView, n: Seq<char>, s: Seq<char>)
    ensures
        mentions(where_it_applies(applies, l), n) <==> applies && l.limit == n,
        says(where_it_applies(applies, l), s, n) <==> applies && l.limit == n && l.severity == s,
{
    if applies {
        assert(where_it_applies(applies, l)[0] == l);
    }
}

/// The rates that would make a currency's figures fresh: of it, and dated within thirty days.
pub open spec fn has_fresh_rate(rates: Seq<RateRow>, currency: Seq<char>, latest: Seq<char>) -> bool {
    exists|i: int|
        0 <= i < rates.len() && ((#[trigger] rates[i]).quote@ == currency || rates[i].base@ == currency)
            && rates[i].as_of@ == latest
}

/// The latest stored rate of a currency is of it, whichever side it stands on, and none of it is
/// later.
pub proof fn law_the_latest_rate_is_the_latest(rates: Seq<RateRow>, currency: Seq<char>)
    ensures
        latest_rate(rates, currency) matches Some(t) ==> has_fresh_rate(rates, currency, t),
        forall|i: int|
            0 <= i < rates.len() && ((#[trigger] rates[i]).quote@ == currency || rates[i].base@
                == currency) ==> latest_rate(rates, currency) is Some && !text_lt(
                latest_rate(rates, currency)->0,
                rates[i].as_of@,
            ),
    decreases rates.len(),
{
    if rates.len() > 0 {
        let rest = rates.drop_last();
        let r = rates.last();
        law_the_latest_rate_is_the_latest(rest, currency);
        assert(rates[rates.len() - 1] == r);
        if latest_rate(rest, currency) is Some {
            let t = latest_rate(rest, currency)->0;
            let i = choose|i: int|
                0 <= i < rest.len() && ((#[trigger] rest[i]).quote@ == currency || rest[i].base@
                    == currency) && rest[i].as_of@ == t;
            assert(rates[i] == rest[i]);
        }
        assert forall|i: int|
            0 <= i < rates.len() && ((#[trigger] rates[i]).quote@ == currency || rates[i].base@
                == currency) implies latest_rate(rates, currency) is Some && !text_lt(
            latest_rate(rates, currency)->0,
            rates[i].as_of@,
        ) by {
            lemma_text_irreflexive(rates[i].as_of@);
            if i < rest.len() {
                assert(rest[i] == rates[i]);
                let b = latest_rate(rest, currency)->0;
                if text_lt(b, r.as_of@) && text_lt(r.as_of@, rest[i].as_of@) {
                    lemma_text_transitive(b, r.as_of@, rest[i].as_of@);
                }
            }
        }
    }
}

/// A currency is stale where it has no rate, one whose day cannot be read, or one more than thirty
/// days old; a rate of thirty days is fresh.
pub proof fn law_a_rate_is_stale_after_thirty_days(as_of: int, latest: Seq<char>, n: int)
    ensures
        is_stale(as_of, None),
        read_day(latest, "%Y-%m-%d"@) is None ==> is_stale(as_of, Some(latest)),
        read_day(latest, "%Y-%m-%d"@) == Some(n) ==> (is_stale(as_of, Some(latest)) <==> n + 30
            < as_of),
{
}

proof fn lemma_stale(
    codes: Seq<Seq<char>>,
    display: Option<Seq<char>>,
    rates: Seq<RateRow>,
    as_of: int,
)
    ensures
        ({
            let l = stale_limits(codes, display, rates, as_of);
            let name = "a foreign currency has no fresh rate"@;
            &&& forall|i: int| 0 <= i < l.len() ==> (#[trigger] l[i]).limit == name && l[i].severity
                == "medium"@
            &&& l.len() > 0 <==> exists|i: int|
                0 <= i < codes.len() && display is Some && #[trigger] codes[i] != display->0
                    && is_stale(as_of, latest_rate(rates, codes[i]))
        }),
    decreases codes.len(),
{
    if codes.len() > 0 {
        let rest = codes.drop_last();
        lemma_stale(rest, display, rates, as_of);
        assert(codes[codes.len() - 1] == codes.last());
        assert forall|i: int| 0 <= i < rest.len() implies rest[i] == #[trigger] codes[i] by {}
        if exists|i: int|
            0 <= i < rest.len() && display is Some && #[trigger] rest[i] != display->0 && is_stale(
                as_of,
                latest_rate(rates, rest[i]),
            ) {
            let i = choose|i: int|
                0 <= i < rest.len() && display is Some && #[trigger] rest[i] != display->0 && is_stale(
                    as_of,
                    latest_rate(rates, rest[i]),
                );
            assert(codes[i] == rest[i]);
        }
    }
}

proof fn lemma_codes_has(entries: Seq<EntryView>, c: Seq<char>)
    ensures
        codes_in(entries).contains(c) <==> exists|i: int|
            0 <= i < entries.len() && (#[trigger] entries[i]).currency == c,
    decreases entries.len(),
{
    if entries.len() > 0 {
        let rest = entries.drop_last();
        lemma_codes_has(rest, c);
        lemma_with_text(codes_in(rest), entries.last().currency, c);
        assert(entries[entries.len() - 1] == entries.last());
        if exists|i: int| 0 <= i < rest.len() && (#[trigger] rest[i]).currency == c {
            let i = choose|i: int| 0 <= i < rest.len() && (#[trigger] rest[i]).currency == c;
            assert(entries[i].currency == c);
        }
        if exists|i: int| 0 <= i < entries.len() && (#[trigger] entries[i]).currency == c {
            let i = choose|i: int| 0 <= i < entries.len() && (#[trigger] entries[i]).currency == c;
            if i < rest.len() {
                assert(rest[i].currency == c);
            }
        }
    }
}

/// What is said of a book: that it is empty exactly where it has no first day; that it has no
/// baseline exactly where fewer than three months are complete; that nothing recurring is recorded
/// exactly where there are no series; that it does not balance exactly where some transaction does
/// not; that a currency has no fresh rate exactly where one that is held, and is not the one
/// displayed, has none; and, always, that it is a summary.
pub proof fn law_what_a_book_cannot_tell_is_said(f: BookFacts, as_of: int, from: int, months: int)
    ensures
        ({
            let l = limits_of(f, as_of, from, months);
            &&& mentions(l, "the book is empty"@) <==> f.first_on is None
            &&& says(l, "fatal"@, "the book is empty"@) <==> f.first_on is None
            &&& mentions(l, "history starts here"@) <==> f.first_on is Some
            &&& mentions(l, "no baseline yet"@) <==> months < 3
            &&& says(l, "high"@, "no baseline yet"@) <==> months < 3
            &&& mentions(l, "nothing recurring is recorded"@) <==> f.series_count == 0
            &&& says(l, "high"@, "nothing recurring is recorded"@) <==> f.series_count == 0
            &&& mentions(l, "the book does not balance"@) <==> f.unbalanced > 0
            &&& says(l, "fatal"@, "the book does not balance"@) <==> f.unbalanced > 0
            &&& says(l, "always"@, "this brief is not the ledger"@)
            &&& mentions(l, "a foreign currency has no fresh rate"@) <==> exists|c: Seq<char>|
                #![trigger latest_rate(f.rates@, c)]
                is_used(entry_views(f.entries@), c) && f.display_currency is Some
                    && f.display_currency->0@ != c && is_stale(as_of, latest_rate(f.rates@, c))
            &&& mentions(l, "spending that has no category"@) <==> exists|c: Seq<char>| #[trigger]
                is_used(uncategorised(f, from), c)
        }),
{
    lemma_names();
    reveal_strlit("fatal");
    reveal_strlit("high");
    reveal_strlit("medium");
    reveal_strlit("always");
    let entries = entry_views(f.entries@);
    let codes = codes_in(entries);
    let u = uncategorised_limits(f, from);
    let s = stale_limits(codes, opt_view(f.display_currency), f.rates@, as_of);
    let own = uncategorised(f, from);
    lemma_stale(codes, opt_view(f.display_currency), f.rates@, as_of);
    lemma_said(f, as_of, from, months, "fatal"@, "the book is empty"@);
    lemma_said(f, as_of, from, months, "always"@, "history starts here"@);
    lemma_said(f, as_of, from, months, "high"@, "no baseline yet"@);
    lemma_said(f, as_of, from, months, "high"@, "nothing recurring is recorded"@);
    lemma_said(f, as_of, from, months, "fatal"@, "the book does not balance"@);
    lemma_said(f, as_of, from, months, "always"@, "this brief is not the ledger"@);
    lemma_said(f, as_of, from, months, "medium"@, "a foreign currency has no fresh rate"@);
    lemma_said(f, as_of, from, months, "medium"@, "spending that has no category"@);
    if s.len() > 0 {
        assert(s[0].limit == "a foreign currency has no fresh rate"@);
        let i = choose|i: int|
            0 <= i < codes.len() && f.display_currency is Some && #[trigger] codes[i]
                != f.display_currency->0@ && is_stale(as_of, latest_rate(f.rates@, codes[i]));
        lemma_codes_has(entries, codes[i]);
        assert(codes.contains(codes[i]));
        assert(is_used(entries, codes[i]));
    }
    if exists|x: Seq<char>|
        #![trigger latest_rate(f.rates@, x)]
        is_used(entries, x) && f.display_currency is Some && f.display_currency->0@ != x && is_stale(
            as_of,
            latest_rate(f.rates@, x),
        ) {
        let x = choose|x: Seq<char>|
            #![trigger latest_rate(f.rates@, x)]
            is_used(entries, x) && f.display_currency is Some && f.display_currency->0@ != x
                && is_stale(as_of, latest_rate(f.rates@, x));
        lemma_codes_has(entries, x);
        let i = choose|i: int| 0 <= i < codes.len() && codes[i] == x;
        assert(codes[i] != f.display_currency->0@);
        assert(s.len() > 0);
        assert(s[0].limit == "a foreign currency has no fresh rate"@);
        assert(mentions(s, "a foreign currency has no fresh rate"@));
    }
    if u.len() > 0 {
        assert(u[0].limit == "spending that has no category"@);
        let x = codes_in(own)[0];
        lemma_codes_has(own, x);
        assert(codes_in(own).contains(x));
        assert(is_used(own, x));
    }
    if exists|x: Seq<char>| #[trigger] is_used(own, x) {
        let x = choose|x: Seq<char>| #[trigger] is_used(own, x);
        lemma_codes_has(own, x);
        let i = choose|i: int| 0 <= i < codes_in(own).len() && codes_in(own)[i] == x;
        assert(u[i].limit == "spending that has no category"@);
        assert(mentions(u, "spending that has no category"@));
    }
}

/// What is said under a name, piece by piece.
proof fn lemma_said(
    f: BookFacts,
    as_of: int,
    from: int,
    months: int,
    sev: Seq<char>,
    n: Seq<char>,
)
    ensures
        ({
            let l = limits_of(f, as_of, from, months);
            let s = stale_limits(
                codes_in(entry_views(f.entries@)),
                opt_view(f.display_currency),
                f.rates@,
                as_of,
            );
            let u = uncategorised_limits(f, from);
            let first = crate::limits::history_limit(f);
            &&& mentions(l, n) <==> {
                ||| first.limit == n
                ||| months < 3 && n == "no baseline yet"@
                ||| u.len() > 0 && n == "spending that has no category"@
                ||| f.series_count == 0 && n == "nothing recurring is recorded"@
                ||| s.len() > 0 && n == "a foreign currency has no fresh rate"@
                ||| f.unbalanced > 0 && n == "the book does not balance"@
                ||| n == "this brief is not the ledger"@
            }
            &&& n != "spending that has no category"@ ==> (says(l, sev, n) <==> {
                ||| first.limit == n && first.severity == sev
                ||| months < 3 && n == "no baseline yet"@ && sev == "high"@
                ||| f.series_count == 0 && n == "nothing recurring is recorded"@ && sev == "high"@
                ||| s.len() > 0 && n == "a foreign currency has no fresh rate"@ && sev == "medium"@
                ||| f.unbalanced > 0 && n == "the book does not balance"@ && sev == "fatal"@
                ||| n == "this brief is not the ledger"@ && sev == "always"@
            })
        }),
{
    let codes = codes_in(entry_views(f.entries@));
    let first = crate::limits::history_limit(f);
    let baseline = crate::limits::baseline_limit(months, from);
    let recurring = crate::limits::recurring_limit();
    let corrupt = crate::limits::corrupt_limit(f.unbalanced as int);
    let summary = crate::limits::summary_limit();
    let h = where_it_applies(true, first);
    let b = where_it_applies(months < 3, baseline);
    let u = uncategorised_limits(f, from);
    let r = where_it_applies(f.series_count == 0, recurring);
    let s = stale_limits(codes, opt_view(f.display_currency), f.rates@, as_of);
    let c = where_it_applies(f.unbalanced > 0, corrupt);
    let z = where_it_applies(true, summary);
    lemma_mentions_join(h, b, n, sev);
    lemma_mentions_join(h + b, u, n, sev);
    lemma_mentions_join(h + b + u, r, n, sev);
    lemma_mentions_join(h + b + u + r, s, n, sev);
    lemma_mentions_join(h + b + u + r + s, c, n, sev);
    lemma_mentions_join(h + b + u + r + s + c, z, n, sev);
    lemma_where_it_applies(true, first, n, sev);
    lemma_where_it_applies(months < 3, baseline, n, sev);
    lemma_where_it_applies(f.series_count == 0, recurring, n, sev);
    lemma_where_it_applies(f.unbalanced > 0, corrupt, n, sev);
    lemma_where_it_applies(true, summary, n, sev);
    lemma_stale(codes, opt_view(f.display_currency), f.rates@, as_of);
    if s.len() > 0 {
        assert(s[0].limit == "a foreign currency has no fresh rate"@ && s[0].severity == "medium"@);
    }
    assert forall|i: int| 0 <= i < u.len() implies (#[trigger] u[i]).limit
        == "spending that has no category"@ by {}
    if u.len() > 0 {
        assert(u[0].limit == "spending that has no category"@);
    }
    assert(limits_of(f, as_of, from, months) == h + b + u + r + s + c + z);
}

/// Whether anything is posted in a currency.
pub open spec fn is_used(entries: Seq<EntryView>, currency: Seq<char>) -> bool {
    exists|i: int| 0 <= i < entries.len() && (#[trigger] entries[i]).currency == currency
}

/// What has no category is what was posted since a day to the account for it; what was spent is what
/// was posted since then to expenses.
pub proof fn law_only_what_is_recent_and_of_the_account_counts(
    entries: Seq<EntryView>,
    e: EntryView,
    from: Seq<char>,
    account: Option<i64>,
)
    ensures
        !text_lt(e.occurred_on, from) && (account matches Some(id) ==> e.account_id == id) && (account
            is None ==> e.kind == "expense"@) ==> since(entries.push(e), from, account) == since(
            entries,
            from,
            account,
        ).push(e),
        text_lt(e.occurred_on, from) || (account is Some && e.account_id != account->0) || (account
            is None && e.kind != "expense"@) ==> since(entries.push(e), from, account) == since(
            entries,
            from,
            account,
        ),
{
    assert(entries.push(e).drop_last() =~= entries);
}

/// A share of spending is its percentage of it, without the rest, and weighs heavily from a tenth on.
pub proof fn law_a_tenth_without_a_category_weighs_heavily(
    f: BookFacts,
    currency: Seq<char>,
    amount: int,
    total: int,
    from: int,
    name: Seq<char>,
)
    requires
        0 <= amount,
        0 < total,
    ensures
        percent_of(amount, total) * total <= amount * 100 < (percent_of(amount, total) + 1) * total,
        uncategorised_limit(f.scales, currency, amount, total, from, name).severity == "high"@ <==> 10
            * amount >= total,
        uncategorised_limit(f.scales, currency, amount, total, from, name).severity == "medium"@
            <==> 10 * amount < total,
{
    reveal_strlit("high");
    reveal_strlit("medium");
    assert("high"@.len() == 4 && "medium"@.len() == 6);
    let a = amount * 100;
    let p = a / total;
    assert(p * total <= a < (p + 1) * total) by (nonlinear_arith)
        requires
            total > 0,
            a >= 0,
            p == a / total,
    ;
    assert(p >= 10 <==> a >= 10 * total) by (nonlinear_arith)
        requires
            p * total <= a < (p + 1) * total,
            total > 0,
    ;
}

} // verus!
