//! How numbers and amounts are read, what a journey tells of its legs and what is left of it, and
//! when a change is quiet.

use crate::book::{account_of, net_in, Account};
use crate::browse::{
    are_uses, is_summary, last_use, links_of, postings_of, texts_of, uses_of, DescriptionUse,
    Listed, Oldest, Summary,
};
use crate::change::{is_quiet, Revision};
use crate::commitments::{
    are_commitments, costs_in, counted, is_commitment, monthly_in, series_place, shows, Commitment,
    Commitments,
};
use crate::date::Date;
use crate::digits::{all_digits, is_digit, number_in, value_of};
use crate::entry::{refuses_account, refuses_legs, EntryError, Restated};
use crate::forecast::{Occurrence, Series};
use crate::journey::{are_legs, hops, txn_place, JourneyLeg, Member, TxnRow};
use crate::link::{visited, with_new, Link, Visit};
use crate::lists::lemma_first_is;
use crate::money::{digits_of, has_decimal_comma};
use crate::reschedule::{claim_days, claims_day, days_where, first_claim, Claim};
use crate::residual::{are_residuals, in_order, is_for, listed, net, By, PostingRow, Residual};
use crate::review::{counts_in, RuleReview};
use crate::revise::{end_set, new_ask, rule_changes, rule_set, Edit};
use crate::sorting::ranked;
use crate::standing::{are_ahead, is_after, Ahead};
use crate::standing_laws::{lemma_claimed, lemma_where_has};
use crate::text::{cut, lemma_index_of, text_lt};
use crate::tally::{keeps, sum_of};
use crate::trace_laws::law_an_account_is_the_first_with_its_id;
use vstd::prelude::*;

verus! {

/// A text is cut at the first place its separator stands, and the separator itself is dropped.
pub proof fn law_a_text_is_cut_at_its_first_separator(a: Seq<char>, sep: char, b: Seq<char>)
    requires
        !a.contains(sep),
    ensures
        cut(a.push(sep) + b, sep) == Some((a, b)),
        cut(a, sep) is None,
{
    let s = a.push(sep) + b;
    assert forall|j: int| 0 <= j < a.len() implies s[j] != sep by {
        assert(s[j] == a[j]);
        assert(a.contains(a[j]));
    }
    assert(s[a.len() as int] == sep);
    lemma_index_of(s, sep, a.len() as int);
    assert forall|j: int| 0 <= j < a.len() implies a[j] != sep by {
        assert(a.contains(a[j]));
    }
    lemma_index_of(a, sep, a.len() as int);
    assert(s.take(a.len() as int) =~= a);
    assert(s.skip((a.len() + 1) as int) =~= b);
}

proof fn lemma_all_digits(b: Seq<char>)
    requires
        all_digits(b),
    ensures
        digits_of(b) == b,
    decreases b.len(),
{
    if b.len() > 0 {
        assert(is_digit(b[b.len() - 1]));
        assert forall|i: int| 0 <= i < b.drop_last().len() implies is_digit(#[trigger] b.drop_last()[i]) by {
            assert(b.drop_last()[i] == b[i]);
        }
        lemma_all_digits(b.drop_last());
        assert(b.drop_last().push(b.last()) =~= b);
    } else {
        assert(b =~= Seq::<char>::empty());
    }
}

/// A comma before digits alone is a decimal comma unless exactly three digits follow it: then it
/// parts thousands.
pub proof fn law_a_comma_before_three_digits_parts_thousands(a: Seq<char>, b: Seq<char>)
    requires
        !a.contains(','),
        all_digits(b),
    ensures
        has_decimal_comma(a.push(',') + b) <==> b.len() != 0 && b.len() != 3,
        !has_decimal_comma(a),
{
    law_a_text_is_cut_at_its_first_separator(a, ',', b);
    lemma_all_digits(b);
    assert(!b.contains(',') && !b.contains('.')) by {
        if b.contains(',') {
            let i = choose|i: int| 0 <= i < b.len() && b[i] == ',';
            assert(is_digit(b[i]));
        }
        if b.contains('.') {
            let i = choose|i: int| 0 <= i < b.len() && b[i] == '.';
            assert(is_digit(b[i]));
        }
    }
}

/// A number is read from its digits, each counting ten times the next, with a sign before them where
/// the range allows one; and it has to lie in the range.
pub proof fn law_a_number_is_read_from_its_digits(d: Seq<char>, c: char, lo: int, hi: int)
    requires
        all_digits(d),
        d.len() > 0,
        is_digit(c),
    ensures
        value_of(d.push(c)) == 10 * value_of(d) + (c as int - 48),
        value_of(Seq::empty()) == 0,
        lo <= value_of(d) <= hi ==> number_in(d, lo, hi) == Some(value_of(d)),
        !(lo <= value_of(d) <= hi) ==> number_in(d, lo, hi) is None,
        lo <= value_of(d) <= hi ==> number_in(seq!['+'] + d, lo, hi) == Some(value_of(d)),
        lo < 0 && lo <= -value_of(d) <= hi ==> number_in(seq!['-'] + d, lo, hi) == Some(-value_of(d)),
        lo >= 0 ==> number_in(seq!['-'] + d, lo, hi) is None,
        number_in(Seq::empty(), lo, hi) is None,
{
    assert(d.push(c).drop_last() =~= d);
    assert(is_digit(d[0]));
    let p = seq!['+'] + d;
    let m = seq!['-'] + d;
    assert(p.skip(1) =~= d);
    assert(m.skip(1) =~= d);
    assert(p[0] == '+' && m[0] == '-');
    assert(!is_digit(m[0]));
    if lo >= 0 {
        assert(!all_digits(m));
    }
}

/// A journey's leg is told with its own place and role and with the date and the words of its
/// transaction.
pub proof fn law_a_leg_is_told_with_its_transaction(
    legs: Seq<JourneyLeg>,
    from: Seq<Member>,
    txns: Seq<TxnRow>,
    i: int,
)
    requires
        are_legs(legs, from, txns),
        0 <= i < legs.len(),
    ensures
        legs.len() == from.len(),
        legs[i].seq == from[i].seq,
        legs[i].role@ == from[i].role@,
        legs[i].txn_id == from[i].txn_id,
        ({
            let at = txn_place(txns, from[i].txn_id);
            at < txns.len() && legs[i].occurred_on@ == txns[at].occurred_on@ && legs[i].description@
                == txns[at].description@
        }),
{
    assert(crate::journey::is_leg(legs[i], from[i], txns));
}

/// A journey goes over its own members, in their order, as far as their transactions are on record.
pub proof fn law_a_journey_goes_over_its_own_members(
    members: Seq<Member>,
    m: Member,
    txns: Seq<TxnRow>,
    journey: i64,
)
    ensures
        m.journey_id == journey && txn_place(txns, m.txn_id) < txns.len() ==> hops(
            members.push(m),
            txns,
            journey,
        ) == hops(members, txns, journey).push(m),
        m.journey_id != journey || txn_place(txns, m.txn_id) >= txns.len() ==> hops(
            members.push(m),
            txns,
            journey,
        ) == hops(members, txns, journey),
{
    assert(members.push(m).drop_last() =~= members);
}

/// What is left of a journey is listed once for each account and currency on which something is left,
/// with exactly that.
pub proof fn law_what_is_left_is_listed_once(
    v: Seq<Residual>,
    postings: Seq<PostingRow>,
    txns: Seq<i64>,
    account: i64,
    currency: Seq<char>,
    i: int,
    j: int,
)
    requires
        are_residuals(v, postings, txns),
    ensures
        listed(v, account, currency) <==> net(postings, txns, account, currency) != 0,
        0 <= i < v.len() && v[i].account_id == account && v[i].currency@ == currency ==> v[i].amount_minor
            == net(postings, txns, account, currency),
        0 <= i < v.len() && 0 <= j < v.len() && v[i].account_id == v[j].account_id && v[i].currency@
            == v[j].currency@ ==> i == j,
{
    if listed(v, account, currency) {
        let k = choose|k: int| 0 <= k < v.len() && is_for(#[trigger] v[k], account, currency);
        assert(v[k].amount_minor != 0);
    }
    if 0 <= i < v.len() && 0 <= j < v.len() && i != j {
        if i < j {
            assert(!is_for(v[i], v[j].account_id, v[j].currency@));
        } else {
            assert(!is_for(v[j], v[i].account_id, v[i].currency@));
        }
    }
}

/// What is newly met is visited at the depth it is met at; what was met before keeps its own.
pub proof fn law_what_is_met_again_keeps_its_depth(s: Seq<Visit>, ids: Seq<i64>, id: i64, depth: u64)
    ensures
        visited(with_new(s, ids, depth), id) ==> with_new(s, ids.push(id), depth) == with_new(
            s,
            ids,
            depth,
        ),
        !visited(with_new(s, ids, depth), id) ==> {
            let w = with_new(s, ids.push(id), depth);
            &&& w.drop_last() == with_new(s, ids, depth)
            &&& w.last().txn_id == id
            &&& w.last().depth == depth
        },
        with_new(s, Seq::empty(), depth) == s,
{
    assert(ids.push(id).drop_last() =~= ids);
    if !visited(with_new(s, ids, depth), id) {
        assert(with_new(s, ids.push(id), depth).drop_last() =~= with_new(s, ids, depth));
    }
}

/// A currency counts in a month where some rule that has not ended is in it.
pub proof fn law_a_currency_counts_where_a_rule_is_in_it(v: Seq<RuleReview>, c: Seq<char>)
    ensures
        counts_in(v, c) <==> exists|i: int|
            0 <= i < v.len() && !((#[trigger] v[i]).group is Ended) && v[i].shape.currency@ == c && c.len()
                > 0,
    decreases v.len(),
{
    if v.len() > 0 {
        let rest = v.drop_last();
        law_a_currency_counts_where_a_rule_is_in_it(rest, c);
        assert(v[v.len() - 1] == v.last());
        if counts_in(rest, c) {
            let i = choose|i: int|
                0 <= i < rest.len() && !((#[trigger] rest[i]).group is Ended) && rest[i].shape.currency@
                    == c && c.len() > 0;
            assert(v[i] == rest[i]);
        }
        if exists|i: int|
            0 <= i < v.len() && !((#[trigger] v[i]).group is Ended) && v[i].shape.currency@ == c && c.len()
                > 0 {
            let i = choose|i: int|
                0 <= i < v.len() && !((#[trigger] v[i]).group is Ended) && v[i].shape.currency@ == c
                    && c.len() > 0;
            if i < rest.len() {
                assert(rest[i] == v[i]);
            }
        }
    }
}

/// A change is quiet exactly where it touches no recorded payment, no adjustment and nothing that
/// sleeps.
pub proof fn law_a_quiet_change_touches_nothing_else(v: Revision)
    ensures
        is_quiet(v) <==> v.effects.blocked@.len() == 0 && v.effects.suggest_from is None
            && v.effects.dropped@.len() == 0 && v.effects.left_on_old_dates@.len() == 0
            && v.effects.carried@.len() == 0 && v.effects.left_behind@.len() == 0
            && v.amends.follow@.len() == 0 && v.amends.keep@.len() == 0 && v.dormant.recorded@.len()
            == 0 && v.dormant.adjusted@.len() == 0,
{
}

/// A description is told with how often it was used and when last.
pub proof fn law_a_description_is_told_with_its_uses(v: Seq<DescriptionUse>, txns: Seq<Listed>, i: int)
    requires
        are_uses(v, txns),
        0 <= i < v.len(),
    ensures
        v[i].count == uses_of(txns, v[i].description@),
        v[i].last_on@ == last_use(txns, v[i].description@),
        texts_of(txns).contains(v[i].description@),
{
    assert(texts_of(txns)[i] == v[i].description@);
}

/// A summary counts the links of its own transaction and shows its own postings.
pub proof fn law_a_summary_is_of_its_own_transaction(
    s: Summary,
    key: Oldest,
    links: Seq<Link>,
    postings: Seq<PostingRow>,
)
    requires
        is_summary(s, key, links, postings),
    ensures
        s.at == key.at,
        s.links == links_of(links, key.id),
        s.postings@ == ranked(postings_of(postings, key.id, postings.len() as int)),
{
}

/// A payment recorded ahead is on a day after today that a payment claims, and is told with the date
/// of the first that does.
pub proof fn law_a_payment_ahead_is_after_today(v: Seq<Ahead>, claims: Seq<Claim>, as_of: Date, i: int)
    requires
        are_ahead(v, claims, as_of),
        0 <= i < v.len(),
    ensures
        v[i].occurrence_on > as_of.days,
        exists|k: int|
            0 <= k < claims.len() && (#[trigger] claims[k]).occurrence_on.days == v[i].occurrence_on
                && v[i].occurred_on == claims[k].occurred_on && forall|j: int|
                0 <= j < k ==> (#[trigger] claims[j]).occurrence_on.days != v[i].occurrence_on,
{
    let days = days_where(claim_days(claims), is_after(as_of.days as i64));
    let d = days[i];
    assert(v[i].occurrence_on == d);
    assert(days.contains(d));
    lemma_where_has(claim_days(claims), is_after(as_of.days as i64), d);
    lemma_claimed(claims, d);
    let p = claims_day(claims, d);
    lemma_first_is(claims.len() as int, p);
    let k = first_claim(claims, d);
    let w = choose|w: int| 0 <= w < claims.len() && (#[trigger] claims[w]).occurrence_on.days == d;
    assert(p(w));
    assert(k < claims.len());
    assert(p(k));
    assert forall|j: int| 0 <= j < k implies (#[trigger] claims[j]).occurrence_on.days != d by {
        assert(!p(j));
    }
    assert(claims[k].occurrence_on.days == v[i].occurrence_on);
}

/// What is left is listed by the names of the accounts, or from the smallest amount up.
pub proof fn law_what_is_left_is_listed_in_order(v: Seq<Residual>, by: By, i: int, j: int)
    requires
        in_order(v, by),
        0 <= i < j < v.len(),
    ensures
        by is Name ==> !text_lt(v[j].account@, v[i].account@),
        by is Amount ==> v[i].amount_minor <= v[j].amount_minor,
{
    assert(!crate::residual::precedes(v[j], v[i], by));
}

proof fn lemma_series_place(series: Seq<Series>, id: i64, k: int)
    requires
        0 <= k < series.len(),
        series[k].id == id,
        forall|j: int| k < j < series.len() ==> (#[trigger] series[j]).id != id,
    ensures
        series_place(series, id) == k,
    decreases series.len(),
{
    if k < series.len() - 1 {
        let rest = series.drop_last();
        assert(series[series.len() - 1].id != id);
        assert(rest[k] == series[k]);
        assert forall|j: int| k < j < rest.len() implies (#[trigger] rest[j]).id != id by {
            assert(rest[j] == series[j]);
        }
        lemma_series_place(rest, id, k);
    }
}

/// A commitment bears the words and the rule of its series.
pub proof fn law_a_commitment_bears_the_words_of_its_series(
    c: Commitment,
    series: Seq<Series>,
    own: Seq<Occurrence>,
    id: i64,
    k: int,
)
    requires
        is_commitment(c, series, own, id),
        0 <= k < series.len(),
        series[k].id == id,
        forall|j: int| k < j < series.len() ==> (#[trigger] series[j]).id != id,
    ensures
        c.series_id == id,
        c.description@ == series[k].description@,
        c.rrule@ == series[k].rrule@,
{
    lemma_series_place(series, id, k);
}

/// What recurs in a month is kept currency by currency: each commitment's share counts in its own.
pub proof fn law_a_months_share_counts_in_its_currency(
    rows: Seq<Commitment>,
    c: Commitment,
    n: Seq<char>,
)
    ensures
        c.currency@ == n ==> monthly_in(rows.push(c), n) == monthly_in(rows, n) + c.monthly_minor,
        c.currency@ != n ==> monthly_in(rows.push(c), n) == monthly_in(rows, n),
        monthly_in(Seq::empty(), n) == 0,
{
    assert(rows.push(c).drop_last() =~= rows);
}

/// The months' shares are those of the commitments shown.
pub proof fn law_the_months_shares_are_those_of_what_is_shown(
    c: Commitments,
    series: Seq<Series>,
    occs: Seq<Occurrence>,
    n: Seq<char>,
) -> (rows: Seq<Commitment>)
    requires
        shows(c, series, occs),
    ensures
        c.series@ == ranked(rows),
        sum_of(c.monthly_by_currency@, n) == monthly_in(rows, n),
        keeps(c.monthly_by_currency@, n) <==> exists|i: int|
            0 <= i < rows.len() && (#[trigger] rows[i]).currency@ == n,
{
    let own = counted(series, occs);
    let rows = choose|rows: Seq<Commitment>| #[trigger]
        are_commitments(rows, series, own) && c.series@ == ranked(rows) && (forall|n: Seq<char>|
         #[trigger]
            sum_of(c.monthly_by_currency@, n) == monthly_in(rows, n)) && (forall|n: Seq<char>|
         #[trigger] keeps(c.monthly_by_currency@, n) == costs_in(rows, n));
    assert(sum_of(c.monthly_by_currency@, n) == monthly_in(rows, n));
    assert(keeps(c.monthly_by_currency@, n) == costs_in(rows, n));
    rows
}

/// An account that may not be posted to is refused by its id where there is none with it, and by its
/// name where it is one of the book's own.
pub proof fn law_an_account_is_refused_by_id_or_name(e: EntryError, accounts: Seq<Account>, id: i64)
    requires
        refuses_account(e, accounts, id),
    ensures
        (forall|i: int| 0 <= i < accounts.len() ==> (#[trigger] accounts[i]).id != id) ==> e
            == EntryError::NoSuchAccount(id),
        (exists|i: int| 0 <= i < accounts.len() && (#[trigger] accounts[i]).id == id) ==> (
        e matches EntryError::SystemAccount(n) && n@ == account_of(accounts, id).name@),
{
    law_an_account_is_the_first_with_its_id(accounts, id);
}

/// The words, the account, the missing posting or the difference that refuses restated postings is
/// the one that is told.
pub proof fn law_restated_postings_are_refused_for_what_is_wrong(
    e: EntryError,
    accounts: Seq<Account>,
    what: Restated,
    c: Seq<char>,
)
    requires
        refuses_legs(e, accounts, what),
    ensures
        what matches Restated::Says(m) ==> (e matches EntryError::Invalid(s) && s@ == m),
        what is TooFew ==> e is TooFewPostings,
        what matches Restated::Unbalanced(legs) ==> (e matches EntryError::Unbalanced(rows) && sum_of(
            rows@,
            c,
        ) == net_in(legs, c)),
        what is Account ==> e is NoSuchAccount || e is SystemAccount,
{
    if what is Unbalanced {
        assert(sum_of(e->Unbalanced_0@, c) == net_in(what->Unbalanced_0, c));
    }
}

/// A change from a date is asked for from that date on: counted from the rule's own start where the
/// rule stays as it is, from the date where it does not; and up to the new end.
pub proof fn law_a_change_from_a_date_is_asked_for_from_it(e: Edit, f: Date)
    requires
        e.patch.from_on == Some(f),
    ensures
        new_ask(e).rule == rule_set(e),
        new_ask(e).until == end_set(e),
        new_ask(e).lo == f,
        !rule_changes(e) ==> new_ask(e).dtstart == e.before.dtstart,
        rule_changes(e) ==> new_ask(e).dtstart == f,
        f.days <= 3_000_000 ==> new_ask(e).hi.days == f.days + 732,
{
}

} // verus!
