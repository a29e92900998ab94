//! What the months of a book came to, what is usual in them, what is committed and where the accounts
//! are heading.

use crate::analysis::{first_of_month, middle, months_away};
use crate::book::Account;
use crate::brief::half_year_on;
use crate::brief_laws::lemma_ranked_has;
use crate::commitments::{
    are_commitments, count_for, counted, first_of, is_commitment, is_of, is_primary, primary_of,
    seen_from, series_in, shows, sum_for, Commitment, Commitments,
};
use crate::date::{day_number, is_day, lemma_civil, month_len, MAX_YEAR, MIN_YEAR};
use crate::forecast::{Occurrence, PointView, Series};
use crate::ledger::EntryView;
use crate::lists::{lemma_first, lemma_first_is, lemma_push_has};
use crate::money::law_rounding_is_nearest;
use crate::months::{
    amounts_of, are_expenses, are_months, at_most, expenses_in, history, is_expense, is_month,
    is_typical, key_of, month_of, months_in, of_month, received_in, spent_in, Expense, KeyView,
    Month, MonthCell, Typical,
};
use crate::outlook::{
    followed, law_the_low_point_is_the_first_of_the_lowest, lowest, names_in, points_of, track_of,
    tracks,
};
use crate::paths::lemma_with_id;
use crate::sorting::{law_ranking_keeps_everything_and_orders_it, orders, ranked, Ranked};
use crate::tally::sum_of;
use crate::text::{lemma_text_total, lemma_text_transitive, lemma_with_text, text_lt, with_text};
use vstd::prelude::*;

verus! {

/// Whether a day is of a month: the month is its first seven characters.
pub open spec fn is_in_month(on: Seq<char>, month: Seq<char>) -> bool {
    if on.len() >= 7 {
        month.len() == 7 && forall|i: int| 0 <= i < 7 ==> #[trigger] month[i] == on[i]
    } else {
        month == on
    }
}

proof fn lemma_is_in_month(on: Seq<char>, month: Seq<char>)
    ensures
        is_in_month(on, month) <==> month_of(on) == month,
{
    if on.len() >= 7 {
        if is_in_month(on, month) {
            assert(month_of(on) =~= month);
        }
    }
}

/// Whether a day lies in a window, both of its ends among it.
pub open spec fn is_within(on: Seq<char>, from: Seq<char>, to: Seq<char>) -> bool {
    !text_lt(on, from) && !text_lt(to, on)
}

/// What the postings of a kind, a currency and a month within a window come to.
pub open spec fn posted(
    entries: Seq<EntryView>,
    from: Seq<char>,
    to: Seq<char>,
    month: Seq<char>,
    currency: Seq<char>,
    kind: Seq<char>,
) -> int
    decreases entries.len(),
{
    if entries.len() == 0 {
        0
    } else {
        let e = entries.last();
        posted(entries.drop_last(), from, to, month, currency, kind) + (if e.kind == kind && e.currency
            == currency && is_within(e.occurred_on, from, to) && is_in_month(e.occurred_on, month) {
            e.amount
        } else {
            0
        })
    }
}

proof fn lemma_flow_kinds()
    ensures
        "income"@ != "expense"@,
{
    reveal_strlit("income");
    reveal_strlit("expense");
    assert("income"@.len() == 6);
    assert("expense"@.len() == 7);
}

proof fn lemma_posted(
    entries: Seq<EntryView>,
    from: Seq<char>,
    to: Seq<char>,
    month: Seq<char>,
    currency: Seq<char>,
)
    ensures
        spent_in(of_month(history(entries, from, to), month), currency) == posted(
            entries,
            from,
            to,
            month,
            currency,
            "expense"@,
        ),
        received_in(of_month(history(entries, from, to), month), currency) == -posted(
            entries,
            from,
            to,
            month,
            currency,
            "income"@,
        ),
    decreases entries.len(),
{
    lemma_flow_kinds();
    if entries.len() > 0 {
        let rest = entries.drop_last();
        let e = entries.last();
        lemma_posted(rest, from, to, month, currency);
        lemma_is_in_month(e.occurred_on, month);
        let h = history(rest, from, to);
        assert(h.push(e).drop_last() =~= h);
        let o = of_month(h, month);
        assert(o.push(e).drop_last() =~= o);
    }
}

/// A month spent what was posted to expenses in it and received the opposite of what was posted to
/// income; its net is what it received without what it spent.
pub proof fn law_a_month_spends_on_expenses_and_receives_income(
    v: Seq<Month>,
    entries: Seq<EntryView>,
    from: Seq<char>,
    to: Seq<char>,
    i: int,
    currency: Seq<char>,
)
    requires
        are_months(v, history(entries, from, to)),
        0 <= i < v.len(),
    ensures
        sum_of(v[i].spent@, currency) == posted(
            entries,
            from,
            to,
            v[i].month@,
            currency,
            "expense"@,
        ),
        sum_of(v[i].received@, currency) == -posted(
            entries,
            from,
            to,
            v[i].month@,
            currency,
            "income"@,
        ),
        sum_of(v[i].net@, currency) == sum_of(v[i].received@, currency) - sum_of(
            v[i].spent@,
            currency,
        ),
{
    lemma_posted(entries, from, to, v[i].month@, currency);
    assert(is_month(v[i], of_month(history(entries, from, to), months_in(history(entries, from, to))[i])));
}

proof fn lemma_history_has(entries: Seq<EntryView>, from: Seq<char>, to: Seq<char>, x: EntryView)
    ensures
        history(entries, from, to).contains(x) <==> entries.contains(x) && (x.kind == "income"@
            || x.kind == "expense"@) && is_within(x.occurred_on, from, to),
    decreases entries.len(),
{
    if entries.len() > 0 {
        let rest = entries.drop_last();
        lemma_history_has(rest, from, to, x);
        lemma_push_has(rest, entries.last(), x);
        lemma_push_has(history(rest, from, to), entries.last(), x);
        assert(rest.push(entries.last()) =~= entries);
    }
}

proof fn lemma_months_has(entries: Seq<EntryView>, e: EntryView)
    requires
        entries.contains(e),
    ensures
        months_in(entries).contains(month_of(e.occurred_on)),
    decreases entries.len(),
{
    let rest = entries.drop_last();
    lemma_with_text(months_in(rest), month_of(entries.last().occurred_on), month_of(e.occurred_on));
    if entries.last() != e {
        let i = choose|i: int| 0 <= i < entries.len() && entries[i] == e;
        assert(rest[i] == e);
        lemma_months_has(rest, e);
    }
}

proof fn lemma_text_put(s: Seq<Seq<char>>, t: Seq<char>)
    requires
        forall|i: int, j: int| 0 <= i < j < s.len() ==> text_lt(#[trigger] s[i], #[trigger] s[j]),
    ensures
        forall|i: int, j: int|
            0 <= i < j < with_text(s, t).len() ==> text_lt(
                #[trigger] with_text(s, t)[i],
                #[trigger] with_text(s, t)[j],
            ),
    decreases s.len(),
{
    let w = with_text(s, t);
    if s.len() == 0 || text_lt(s.last(), t) {
        assert forall|i: int, j: int| 0 <= i < j < w.len() implies text_lt(
            #[trigger] w[i],
            #[trigger] w[j],
        ) by {
            if j == s.len() && i < s.len() - 1 {
                assert(text_lt(s[i], s[s.len() - 1]));
                lemma_text_transitive(s[i], s.last(), t);
            }
        }
    } else if s.last() != t {
        let rest = s.drop_last();
        assert forall|i: int, j: int| 0 <= i < j < rest.len() implies text_lt(
            #[trigger] rest[i],
            #[trigger] rest[j],
        ) by {
            assert(rest[i] == s[i] && rest[j] == s[j]);
        }
        lemma_text_put(rest, t);
        lemma_text_total(s.last(), t);
        let u = with_text(rest, t);
        assert forall|i: int, j: int| 0 <= i < j < w.len() implies text_lt(
            #[trigger] w[i],
            #[trigger] w[j],
        ) by {
            if j == u.len() {
                lemma_with_text(rest, t, u[i]);
                assert(u.contains(u[i]));
                if u[i] != t {
                    let h = choose|h: int| 0 <= h < rest.len() && rest[h] == u[i];
                    assert(text_lt(s[h], s[s.len() - 1]));
                }
            }
        }
    }
}

proof fn lemma_months_ascend(entries: Seq<EntryView>)
    ensures
        forall|i: int, j: int|
            0 <= i < j < months_in(entries).len() ==> text_lt(
                #[trigger] months_in(entries)[i],
                #[trigger] months_in(entries)[j],
            ),
    decreases entries.len(),
{
    if entries.len() > 0 {
        lemma_months_ascend(entries.drop_last());
        lemma_text_put(months_in(entries.drop_last()), month_of(entries.last().occurred_on));
    }
}

/// The months stand in order, each once, and every month with income or an expense in the window is
/// among them.
pub proof fn law_every_month_of_the_window_is_shown_once(
    v: Seq<Month>,
    entries: Seq<EntryView>,
    from: Seq<char>,
    to: Seq<char>,
    k: int,
) -> (i: int)
    requires
        are_months(v, history(entries, from, to)),
        0 <= k < entries.len(),
        entries[k].kind == "income"@ || entries[k].kind == "expense"@,
        is_within(entries[k].occurred_on, from, to),
    ensures
        0 <= i < v.len(),
        is_in_month(entries[k].occurred_on, v[i].month@),
        forall|a: int, b: int|
            0 <= a < b < v.len() ==> text_lt((#[trigger] v[a]).month@, (#[trigger] v[b]).month@),
{
    let hist = history(entries, from, to);
    let e = entries[k];
    assert(entries.contains(e));
    lemma_history_has(entries, from, to, e);
    lemma_months_has(hist, e);
    lemma_months_ascend(hist);
    let names = months_in(hist);
    let i = choose|i: int| 0 <= i < names.len() && names[i] == month_of(e.occurred_on);
    lemma_is_in_month(e.occurred_on, names[i]);
    assert forall|a: int, b: int| 0 <= a < b < v.len() implies text_lt(
        (#[trigger] v[a]).month@,
        (#[trigger] v[b]).month@,
    ) by {
        assert(v[a].month@ == names[a] && v[b].month@ == names[b]);
        assert(text_lt(names[a], names[b]));
    }
    i
}

/// The median of values in order lies between the two in the middle, halfway but for the rounding,
/// and is the one in the middle where there is one.
pub proof fn law_the_median_is_in_the_middle(s: Seq<i64>, h: int)
    requires
        forall|i: int, j: int| 0 <= i < j < s.len() ==> #[trigger] s[i] <= #[trigger] s[j],
    ensures
        s.len() == 2 * h + 1 && h >= 0 ==> middle(s) == s[h],
        s.len() == 2 * h && h > 0 ==> s[h - 1] <= middle(s) <= s[h] && -1 <= 2 * middle(s) - (s[h - 1]
            + s[h]) <= 1,
{
    if s.len() == 2 * h && h > 0 {
        assert(s[h - 1] <= s[h]);
        law_rounding_is_nearest(s[h - 1] + s[h], 2);
    }
}

/// What is usual of an account: how many months it was seen in, its latest amount and how far that is
/// from the middle of them all.
pub proof fn law_what_is_usual_is_measured_against_the_latest(
    t: Typical,
    cells: Seq<MonthCell>,
    k: KeyView,
    j: int,
)
    requires
        is_typical(t, cells, k),
        0 <= j < cells.len(),
        key_of(cells[j]) == k,
        forall|i: int| j < i < cells.len() ==> key_of(#[trigger] cells[i]) != k,
    ensures
        t.account@ == cells[j].account@,
        t.kind@ == cells[j].kind@,
        t.currency@ == cells[j].currency@,
        t.latest_minor == cells[j].amount_minor,
        t.median_minor + t.deviation == t.latest_minor,
{
    lemma_latest(cells, k, j);
}

proof fn lemma_latest(cells: Seq<MonthCell>, k: KeyView, j: int)
    requires
        0 <= j < cells.len(),
        key_of(cells[j]) == k,
        forall|i: int| j < i < cells.len() ==> key_of(#[trigger] cells[i]) != k,
    ensures
        amounts_of(cells, k).len() > 0,
        amounts_of(cells, k).last() == cells[j].amount_minor,
    decreases cells.len(),
{
    if j < cells.len() - 1 {
        let rest = cells.drop_last();
        assert(key_of(cells[cells.len() - 1]) != k);
        assert forall|i: int| j < i < rest.len() implies key_of(#[trigger] rest[i]) != k by {
            assert(rest[i] == cells[i]);
        }
        lemma_latest(rest, k, j);
    }
}

proof fn lemma_typical_order()
    ensures
        orders::<Typical>(),
{
}

/// What is furthest from usual, either way, comes first.
pub proof fn law_the_furthest_from_usual_comes_first(rows: Seq<Typical>, i: int, j: int)
    requires
        0 <= i < j < rows.len(),
    ensures
        ({
            let a = ranked(rows)[i].deviation;
            let b = ranked(rows)[j].deviation;
            (if b < 0 {
                -b
            } else {
                b as int
            }) <= (if a < 0 {
                -a
            } else {
                a as int
            })
        }),
{
    lemma_typical_order();
    law_ranking_keeps_everything_and_orders_it(rows);
    assert(!ranked(rows)[j].before(&ranked(rows)[i]));
}

proof fn lemma_expenses_has(entries: Seq<EntryView>, from: Seq<char>, to: Seq<char>, x: EntryView)
    ensures
        expenses_in(entries, from, to).contains(x) <==> entries.contains(x) && x.kind == "expense"@
            && is_within(x.occurred_on, from, to),
    decreases entries.len(),
{
    if entries.len() > 0 {
        let rest = entries.drop_last();
        lemma_expenses_has(rest, from, to, x);
        lemma_push_has(rest, entries.last(), x);
        lemma_push_has(expenses_in(rest, from, to), entries.last(), x);
        assert(rest.push(entries.last()) =~= entries);
    }
}

proof fn lemma_expense_order()
    ensures
        orders::<Expense>(),
{
}

/// Whether an expense is one of the entries within a window.
pub open spec fn is_spent(
    x: Expense,
    entries: Seq<EntryView>,
    from: Seq<char>,
    to: Seq<char>,
) -> bool {
    exists|e: EntryView| #[trigger]
        entries.contains(e) && e.kind == "expense"@ && is_within(e.occurred_on, from, to)
            && x.txn_id == e.txn_id && x.on_date@ == e.occurred_on && x.description@ == e.description
            && crate::text::opt_view(x.payee) == e.payee && x.account@ == e.account && x.currency@
            == e.currency && x.amount_minor == e.amount
}

/// The largest expenses are expenses of the window, the larger before the smaller; there are as many
/// as were asked for or all there are, and none that is left out is larger than one that is shown.
pub proof fn law_the_largest_expenses_are_the_largest(
    r: Seq<Expense>,
    x: Seq<Expense>,
    entries: Seq<EntryView>,
    from: Seq<char>,
    to: Seq<char>,
    n: int,
)
    requires
        n >= 0,
        are_expenses(x, expenses_in(entries, from, to)),
        r == at_most(ranked(x), n),
    ensures
        r.len() <= n,
        forall|i: int, j: int|
            0 <= i < j < r.len() ==> (#[trigger] r[j]).amount_minor <= (#[trigger] r[i]).amount_minor,
        forall|i: int| 0 <= i < r.len() ==> is_spent(#[trigger] r[i], entries, from, to),
        forall|e: EntryView| #[trigger]
            entries.contains(e) && e.kind == "expense"@ && is_within(e.occurred_on, from, to) ==> (
            exists|i: int| 0 <= i < r.len() && is_expense(#[trigger] r[i], e)) || (r.len() == n
                && forall|i: int| 0 <= i < r.len() ==> e.amount <= (#[trigger] r[i]).amount_minor),
{
    lemma_expense_order();
    law_ranking_keeps_everything_and_orders_it(x);
    let all = ranked(x);
    let own = expenses_in(entries, from, to);
    assert forall|i: int, j: int| 0 <= i < j < r.len() implies (#[trigger] r[j]).amount_minor <= (
    #[trigger] r[i]).amount_minor by {
        assert(!all[j].before(&all[i]));
    }
    assert forall|i: int| 0 <= i < r.len() implies is_spent(#[trigger] r[i], entries, from, to) by {
        lemma_ranked_has(x, all[i]);
        assert(all.contains(all[i]));
        let k = choose|k: int| 0 <= k < x.len() && x[k] == all[i];
        assert(is_expense(x[k], own[k]));
        lemma_expenses_has(entries, from, to, own[k]);
        assert(own.contains(own[k]));
        assert(entries.contains(own[k]));
    }
    assert forall|e: EntryView| #[trigger]
        entries.contains(e) && e.kind == "expense"@ && is_within(e.occurred_on, from, to) implies (
    exists|i: int| 0 <= i < r.len() && is_expense(#[trigger] r[i], e)) || (r.len() == n
        && forall|i: int| 0 <= i < r.len() ==> e.amount <= (#[trigger] r[i]).amount_minor) by {
        lemma_expenses_has(entries, from, to, e);
        let k = choose|k: int| 0 <= k < own.len() && own[k] == e;
        assert(is_expense(x[k], own[k]));
        lemma_ranked_has(x, x[k]);
        assert(x.contains(x[k]));
        let h = choose|h: int| 0 <= h < all.len() && all[h] == x[k];
        if h < r.len() {
            assert(is_expense(r[h], e));
        } else {
            assert forall|i: int| 0 <= i < r.len() implies e.amount <= (#[trigger] r[i]).amount_minor by {
                assert(!all[h].before(&all[i]));
            }
        }
    }
}

/// The first day of a month is its first day.
pub proof fn law_a_month_starts_on_its_first(y: int, m: int, d: int)
    requires
        is_day(y, m, d),
    ensures
        first_of_month(day_number(y, m, d)) == day_number(y, m, 1),
{
    lemma_civil(y, m, d);
}

/// A first of the month some months away is the first of the month that many months away.
pub proof fn law_months_away_is_the_same_day_of_that_month(
    y: int,
    m: int,
    d: int,
    delta: int,
    y2: int,
    m2: int,
)
    requires
        is_day(y, m, d),
        1 <= m2 <= 12,
        y2 * 12 + m2 == y * 12 + m + delta,
        MIN_YEAR <= y2 <= MAX_YEAR,
    ensures
        d <= month_len(y2, m2) ==> months_away(day_number(y, m, d), delta) == day_number(y2, m2, d),
        d > month_len(y2, m2) ==> months_away(day_number(y, m, d), delta) == day_number(y2, m2, 1),
{
    lemma_civil(y, m, d);
    let total = y * 12 + (m - 1) + delta;
    assert(total == y2 * 12 + (m2 - 1));
    assert(total / 12 == y2 && total % 12 == m2 - 1);
}

/// Half a year on is the same day of the sixth month after, or the last day of that month where it
/// has no such day.
pub proof fn law_half_a_year_is_six_months(y: int, m: int, d: int, y2: int, m2: int)
    requires
        is_day(y, m, d),
        1 <= m2 <= 12,
        y2 * 12 + m2 == y * 12 + m + 6,
        y2 <= MAX_YEAR,
    ensures
        d <= month_len(y2, m2) ==> half_year_on(day_number(y, m, d)) == day_number(y2, m2, d),
        d > month_len(y2, m2) ==> half_year_on(day_number(y, m, d)) == day_number(
            y2,
            m2,
            month_len(y2, m2),
        ),
{
    lemma_civil(y, m, d);
    assert(y2 == y + (m + 5) / 12 && m2 == (m + 5) % 12 + 1);
}

/// A series is seen from the account of its first primary posting, unless it is a later hop of a
/// chain.
pub proof fn law_a_series_is_seen_from_its_primary_posting(s: Series, p: int)
    requires
        0 <= p <= s.postings@.len(),
        forall|i: int| 0 <= i < p ==> (#[trigger] s.postings@[i]).role@ != "primary"@,
        p < s.postings@.len() ==> s.postings@[p].role@ == "primary"@,
    ensures
        p < s.postings@.len() && (s.chain_seq is None || s.chain_seq->0 <= 0) ==> seen_from(s) == Some(
            s.postings@[p].account_id,
        ),
        p == s.postings@.len() || (s.chain_seq is Some && s.chain_seq->0 > 0) ==> seen_from(s) is None,
{
    let q = is_primary(s.postings@);
    assert forall|j: int| 0 <= j < p implies !#[trigger] q(j) by {
        assert(s.postings@[j].role@ != "primary"@);
    }
    lemma_first(s.postings@.len() as int, q, p);
}

/// The account that a series of its own id is seen from.
pub proof fn law_the_only_series_of_an_id_says_where_it_is_seen_from(series: Seq<Series>, i: int)
    requires
        0 <= i < series.len(),
        forall|j: int| 0 <= j < series.len() && j != i ==> (#[trigger] series[j]).id != series[i].id,
    ensures
        primary_of(series, series[i].id) == seen_from(series[i]),
    decreases series.len(),
{
    let rest = series.drop_last();
    if i == series.len() - 1 {
        if seen_from(series[i]) is None {
            assert forall|j: int| 0 <= j < rest.len() implies (#[trigger] rest[j]).id != series[i].id by {
                assert(rest[j] == series[j]);
            }
            lemma_unseen(rest, series[i].id);
        }
    } else {
        assert(rest[i] == series[i]);
        assert(series[series.len() - 1].id != series[i].id);
        assert forall|j: int| 0 <= j < rest.len() && j != i implies (#[trigger] rest[j]).id
            != rest[i].id by {
            assert(rest[j] == series[j]);
        }
        law_the_only_series_of_an_id_says_where_it_is_seen_from(rest, i);
    }
}

proof fn lemma_unseen(series: Seq<Series>, id: i64)
    requires
        forall|j: int| 0 <= j < series.len() ==> (#[trigger] series[j]).id != id,
    ensures
        primary_of(series, id) is None,
    decreases series.len(),
{
    if series.len() > 0 {
        let rest = series.drop_last();
        assert(series[series.len() - 1].id != id);
        assert forall|j: int| 0 <= j < rest.len() implies (#[trigger] rest[j]).id != id by {
            assert(rest[j] == series[j]);
        }
        lemma_unseen(rest, id);
    }
}

/// What the occurrences of a series on an account come to.
pub open spec fn cost(occs: Seq<Occurrence>, id: i64, account: i64) -> int
    decreases occs.len(),
{
    if occs.len() == 0 {
        0
    } else {
        cost(occs.drop_last(), id, account) + (if occs.last().series_id == id && occs.last().account_id
            == account {
            occs.last().amount_minor as int
        } else {
            0
        })
    }
}

/// How many occurrences of a series there are on an account.
pub open spec fn times(occs: Seq<Occurrence>, id: i64, account: i64) -> int
    decreases occs.len(),
{
    if occs.len() == 0 {
        0
    } else {
        times(occs.drop_last(), id, account) + (if occs.last().series_id == id
            && occs.last().account_id == account {
            1int
        } else {
            0
        })
    }
}

proof fn lemma_cost(series: Seq<Series>, occs: Seq<Occurrence>, id: i64, account: i64)
    requires
        primary_of(series, id) == Some(account),
    ensures
        sum_for(counted(series, occs), id) == cost(occs, id, account),
        count_for(counted(series, occs), id) == times(occs, id, account),
    decreases occs.len(),
{
    if occs.len() > 0 {
        let rest = occs.drop_last();
        lemma_cost(series, rest, id, account);
        let own = counted(series, rest);
        assert(own.push(occs.last()).drop_last() =~= own);
    }
}

proof fn lemma_counted_has(series: Seq<Series>, occs: Seq<Occurrence>, o: Occurrence)
    ensures
        counted(series, occs).contains(o) <==> occs.contains(o) && primary_of(series, o.series_id)
            == Some(o.account_id),
    decreases occs.len(),
{
    if occs.len() > 0 {
        let rest = occs.drop_last();
        lemma_counted_has(series, rest, o);
        lemma_push_has(rest, occs.last(), o);
        lemma_push_has(counted(series, rest), occs.last(), o);
        assert(rest.push(occs.last()) =~= occs);
    }
}

proof fn lemma_series_has(occs: Seq<Occurrence>, id: i64)
    ensures
        series_in(occs).contains(id) <==> exists|i: int|
            0 <= i < occs.len() && (#[trigger] occs[i]).series_id == id,
    decreases occs.len(),
{
    if occs.len() > 0 {
        let rest = occs.drop_last();
        lemma_series_has(rest, id);
        lemma_with_id(series_in(rest), occs.last().series_id);
        assert(occs[occs.len() - 1] == occs.last());
        if exists|i: int| 0 <= i < rest.len() && (#[trigger] rest[i]).series_id == id {
            let i = choose|i: int| 0 <= i < rest.len() && (#[trigger] rest[i]).series_id == id;
            assert(occs[i].series_id == id);
        }
        if exists|i: int| 0 <= i < occs.len() && (#[trigger] occs[i]).series_id == id {
            let i = choose|i: int| 0 <= i < occs.len() && (#[trigger] occs[i]).series_id == id;
            if i < rest.len() {
                assert(rest[i].series_id == id);
            }
        }
    }
}

/// A commitment is of a series that falls due on the account it is seen from: it counts those
/// occurrences and no others, costs in a year what they come to, and in a month a twelfth of that to
/// the nearest; its next day is one of theirs.
pub proof fn law_a_commitment_costs_what_its_series_does(
    c: Commitments,
    series: Seq<Series>,
    occs: Seq<Occurrence>,
    k: int,
) -> (account: i64)
    requires
        shows(c, series, occs),
        0 <= k < c.series@.len(),
    ensures
        ({
            let r = c.series@[k];
            let year = cost(occs, r.series_id, account);
            &&& primary_of(series, r.series_id) == Some(account)
            &&& r.occurrences == times(occs, r.series_id, account)
            &&& i64::MIN <= year <= i64::MAX ==> r.annual_minor == year && -6 <= 12 * r.monthly_minor
                - year <= 6
            &&& exists|o: Occurrence| #[trigger]
                occs.contains(o) && o.series_id == r.series_id && o.account_id == account
                    && r.next_on@ == o.value_on@ && r.account@ == o.account@ && r.currency@
                    == o.currency@
        }),
{
    let own = counted(series, occs);
    let rows = choose|rows: Seq<Commitment>| #[trigger]
        are_commitments(rows, series, own) && c.series@ == ranked(rows);
    let r = c.series@[k];
    lemma_ranked_has(rows, r);
    assert(ranked(rows).contains(r));
    let n = choose|n: int| 0 <= n < rows.len() && rows[n] == r;
    let id = series_in(own)[n];
    assert(is_commitment(rows[n], series, own, id));
    lemma_series_has(own, id);
    assert(series_in(own).contains(id));
    let i = choose|i: int| 0 <= i < own.len() && (#[trigger] own[i]).series_id == id;
    lemma_first_is(own.len() as int, is_of(own, id));
    assert(is_of(own, id)(i));
    let f = own[first_of(own, id)];
    assert(is_of(own, id)(first_of(own, id)));
    assert(own.contains(f));
    lemma_counted_has(series, occs, f);
    let account = f.account_id;
    lemma_cost(series, occs, id, account);
    let year = cost(occs, id, account);
    law_rounding_is_nearest(year, 12);
    assert(occs.contains(f));
    account
}

/// Every series that falls due on the account it is seen from is a commitment.
pub proof fn law_every_series_that_falls_due_is_a_commitment(
    c: Commitments,
    series: Seq<Series>,
    occs: Seq<Occurrence>,
    o: Occurrence,
) -> (k: int)
    requires
        shows(c, series, occs),
        occs.contains(o),
        primary_of(series, o.series_id) == Some(o.account_id),
    ensures
        0 <= k < c.series@.len(),
        c.series@[k].series_id == o.series_id,
{
    let own = counted(series, occs);
    let rows = choose|rows: Seq<Commitment>| #[trigger]
        are_commitments(rows, series, own) && c.series@ == ranked(rows);
    lemma_counted_has(series, occs, o);
    let i = choose|i: int| 0 <= i < own.len() && own[i] == o;
    lemma_series_has(own, o.series_id);
    assert(own[i].series_id == o.series_id);
    let n = choose|n: int| 0 <= n < series_in(own).len() && series_in(own)[n] == o.series_id;
    assert(is_commitment(rows[n], series, own, series_in(own)[n]));
    lemma_ranked_has(rows, rows[n]);
    assert(rows.contains(rows[n]));
    let k = choose|k: int| 0 <= k < c.series@.len() && c.series@[k] == rows[n];
    k
}

proof fn lemma_points_has(points: Seq<PointView>, name: Seq<char>, x: PointView)
    ensures
        points_of(points, name).contains(x) <==> points.contains(x) && x.account == name,
    decreases points.len(),
{
    if points.len() > 0 {
        let rest = points.drop_last();
        lemma_points_has(rest, name, x);
        lemma_push_has(rest, points.last(), x);
        lemma_push_has(points_of(rest, name), points.last(), x);
        assert(rest.push(points.last()) =~= points);
    }
}

proof fn lemma_names_has(accounts: Seq<Account>, points: Seq<PointView>, name: Seq<char>)
    ensures
        names_in(accounts, points).contains(name) <==> followed(accounts, name) && exists|i: int|
            0 <= i < points.len() && (#[trigger] points[i]).account == name,
    decreases points.len(),
{
    if points.len() > 0 {
        let rest = points.drop_last();
        lemma_names_has(accounts, rest, name);
        lemma_with_text(names_in(accounts, rest), points.last().account, name);
        assert(points[points.len() - 1] == points.last());
        if exists|i: int| 0 <= i < rest.len() && (#[trigger] rest[i]).account == name {
            let i = choose|i: int| 0 <= i < rest.len() && (#[trigger] rest[i]).account == name;
            assert(points[i].account == name);
        }
        if exists|i: int| 0 <= i < points.len() && (#[trigger] points[i]).account == name {
            let i = choose|i: int| 0 <= i < points.len() && (#[trigger] points[i]).account == name;
            if i < rest.len() {
                assert(rest[i].account == name);
            }
        }
    }
}

/// An account is followed exactly where the last account of its name that is not the core's own is an
/// asset or a liability.
pub proof fn law_what_holds_money_is_followed(accounts: Seq<Account>, name: Seq<char>, i: int)
    requires
        -1 <= i < accounts.len(),
        i >= 0 ==> !accounts[i].system && accounts[i].name@ == name,
        forall|j: int|
            i < j < accounts.len() ==> (#[trigger] accounts[j]).system || accounts[j].name@ != name,
    ensures
        followed(accounts, name) <==> i >= 0 && (accounts[i].kind@ == "asset"@ || accounts[i].kind@
            == "liability"@),
    decreases accounts.len(),
{
    if accounts.len() > 0 && i < accounts.len() - 1 {
        let rest = accounts.drop_last();
        assert(accounts[accounts.len() - 1].system || accounts[accounts.len() - 1].name@ != name);
        assert forall|j: int| i < j < rest.len() implies (#[trigger] rest[j]).system || rest[j].name@
            != name by {
            assert(rest[j] == accounts[j]);
        }
        law_what_holds_money_is_followed(rest, name, i);
    }
}

/// The outlook of an account: no projected balance of it is below its low, which is one of them; it
/// closes on its last balance; and the first day under is that of the first balance below nothing.
pub proof fn law_an_outlook_shows_the_low_the_close_and_the_first_day_under(
    accounts: Seq<Account>,
    points: Seq<PointView>,
    k: int,
)
    requires
        0 <= k < tracks(accounts, points).len(),
    ensures
        ({
            let t = tracks(accounts, points)[k];
            let own = points_of(points, t.account);
            &&& followed(accounts, t.account)
            &&& own.len() > 0
            &&& forall|x: PointView| #[trigger] points.contains(x) && x.account == t.account
                ==> t.lowest <= x.balance
            &&& exists|x: PointView| #[trigger] points.contains(x) && x.account == t.account
                && t.lowest == x.balance && t.lowest_on == x.on
            &&& t.closing == own.last().balance && t.closing_on == own.last().on
            &&& t.currency == own[0].currency
            &&& t.first_negative_on is None ==> forall|x: PointView| #[trigger]
                points.contains(x) && x.account == t.account ==> x.balance >= 0
            &&& t.first_negative_on matches Some(d) ==> exists|j: int|
                0 <= j < own.len() && (#[trigger] own[j]).balance < 0 && own[j].on == d && forall|h: int|
                    0 <= h < j ==> (#[trigger] own[h]).balance >= 0
        }),
{
    let names = names_in(accounts, points);
    let name = names[k];
    let own = points_of(points, name);
    let t = tracks(accounts, points)[k];
    assert(t == track_of(name, own));
    lemma_names_has(accounts, points, name);
    assert(names.contains(name));
    let i = choose|i: int| 0 <= i < points.len() && (#[trigger] points[i]).account == name;
    lemma_points_has(points, name, points[i]);
    assert(points.contains(points[i]));
    assert(own.contains(points[i]));
    law_the_low_point_is_the_first_of_the_lowest(own);
    let u = crate::outlook::is_under(own);
    lemma_first_is(own.len() as int, u);
    let at = crate::lists::first(own.len() as int, u);
    assert forall|x: PointView| #[trigger] points.contains(x) && x.account == t.account implies t.lowest
        <= x.balance && (t.first_negative_on is None ==> x.balance >= 0) by {
        lemma_points_has(points, name, x);
        let j = choose|j: int| 0 <= j < own.len() && own[j] == x;
        assert(own[lowest(own)].balance <= own[j].balance);
        if t.first_negative_on is None {
            assert(!u(j));
        }
    }
    let low = own[lowest(own)];
    lemma_points_has(points, name, low);
    assert(own.contains(low));
    assert(points.contains(low));
    if at < own.len() {
        assert(u(at));
        assert(own[at].balance < 0);
        assert forall|h: int| 0 <= h < at implies (#[trigger] own[h]).balance >= 0 by {
            assert(!u(h));
        }
    }
}

} // verus!
