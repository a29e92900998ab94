//! What is listed, exported and told: which rows, in which order, and with what beside them.

use crate::book::Account;
use crate::brief_laws::lemma_ranked_has;
use crate::browse::{
    are_balances, are_newest, bound, held_on, last_use, limited, links_of, list, open_places,
    picked, postings_of, texts_of, uses_of, windowed, Balance, DescriptionUse, Listed, Newest,
    Smallest,
};
use crate::entry::Movement;
use crate::export::{
    csv_fields, doubled, escaped, line_row, line_rows, needs_quotes, projected_row, ExportView,
    LedgerLine,
};
use crate::forecast::OccView;
use crate::journey::{
    attached, detached, hops, is_leg, is_member, leg_count, of_txn, place_in, txn_place, JourneyLeg,
    Member, MemberView, TxnRow,
};
use crate::link::{inner, one_way, visited, Link, LinkView, NeighbourView, Visit};
use crate::lists::{lemma_first, lemma_first_is, lemma_push_has};
use crate::residual::{net, PostingRow};
use crate::sorting::{law_ranking_keeps_everything_and_orders_it, orders, ranked, Ranked};
use crate::text::{
    lemma_text_irreflexive, lemma_text_total, lemma_text_transitive, lemma_with_text, opt_view,
    text_lt,
};
use vstd::prelude::*;

verus! {

/// Whether a day lies in a window, both of whose ends are among it and may be missing.
pub open spec fn is_within(on: Seq<char>, from: Option<Seq<char>>, to: Option<Seq<char>>) -> bool {
    (from is None || !text_lt(on, from->0)) && (to is None || !text_lt(to->0, on))
}

proof fn lemma_windowed(
    txns: Seq<Listed>,
    from: Option<Seq<char>>,
    to: Option<Seq<char>>,
    n: int,
    k: int,
)
    requires
        0 <= n <= txns.len(),
    ensures
        windowed(txns, from, to, n).contains(k) <==> 0 <= k < n && is_within(
            txns[k].occurred_on@,
            from,
            to,
        ),
    decreases n,
{
    if n > 0 {
        lemma_windowed(txns, from, to, n - 1, k);
        lemma_push_has(windowed(txns, from, to, n - 1), n - 1, k);
    }
}

proof fn lemma_text_swap(a: Seq<char>, b: Seq<char>, c: Seq<char>)
    requires
        text_lt(a, b),
        !text_lt(c, b),
    ensures
        text_lt(a, c),
{
    lemma_text_total(c, b);
    if c != b {
        lemma_text_transitive(a, b, c);
    }
}

proof fn lemma_text_back(a: Seq<char>, b: Seq<char>, c: Seq<char>)
    requires
        text_lt(a, b),
        !text_lt(a, c),
    ensures
        text_lt(c, b),
{
    lemma_text_total(a, c);
    if a != c {
        lemma_text_transitive(c, a, b);
    }
}

proof fn lemma_no_return(a: Seq<char>, b: Seq<char>)
    ensures
        !(text_lt(a, b) && text_lt(b, a)),
        !text_lt(a, a),
{
    lemma_text_irreflexive(a);
    if text_lt(a, b) && text_lt(b, a) {
        lemma_text_transitive(a, b, a);
    }
}

proof fn lemma_newest_order()
    ensures
        orders::<Newest>(),
{
    assert forall|a: Newest, b: Newest| #[trigger] a.before(&b) implies !b.before(&a) by {
        lemma_no_return(a.on@, b.on@);
        lemma_no_return(b.on@, a.on@);
    }
    assert forall|a: Newest, b: Newest, c: Newest| #[trigger]
        a.before(&b) && !(#[trigger] c.before(&b)) implies a.before(&c) by {
        lemma_text_total(b.on@, c.on@);
        if text_lt(b.on@, a.on@) {
            lemma_text_back(b.on@, a.on@, c.on@);
        }
    }
}

/// A list of payments holds those of the window, the latest day first and of one day the last
/// recorded; where it may not hold all, none that is left out comes before one that it holds.
pub proof fn law_a_list_holds_the_newest_of_the_window(
    txns: &Vec<Listed>,
    from: Option<&str>,
    to: Option<&str>,
    limit: i64,
    r: Vec<Newest>,
    i: int,
    j: int,
)
    requires
        call_ensures(list, (txns, from, to, limit), r),
        0 <= i < r@.len(),
        0 <= j < txns@.len(),
    ensures
        limit >= 0 ==> r@.len() <= limit,
        r@[i].at < txns@.len(),
        r@[i].id == txns@[r@[i].at as int].id,
        r@[i].on@ == txns@[r@[i].at as int].occurred_on@,
        is_within(r@[i].on@, bound(from), bound(to)),
        forall|a: int, b: int|
            0 <= a < b < r@.len() ==> text_lt((#[trigger] r@[b]).on@, (#[trigger] r@[a]).on@) || (
            r@[a].on@ == r@[b].on@ && r@[a].id >= r@[b].id),
        is_within(txns@[j].occurred_on@, bound(from), bound(to)) && (limit < 0 || r@.len() < limit)
            ==> exists|k: int| 0 <= k < r@.len() && (#[trigger] r@[k]).at == j,
        is_within(txns@[j].occurred_on@, bound(from), bound(to)) && !(exists|k: int|
            0 <= k < r@.len() && (#[trigger] r@[k]).at == j) ==> !text_lt(
            r@[i].on@,
            txns@[j].occurred_on@,
        ),
{
    let at = windowed(txns@, bound(from), bound(to), txns@.len() as int);
    let rows = choose|rows: Seq<Newest>|
        #![trigger ranked(rows)]
        are_newest(rows, txns@, at) && r@ == limited(ranked(rows), limit);
    lemma_newest_order();
    law_ranking_keeps_everything_and_orders_it(rows);
    let all = ranked(rows);
    assert(r@[i] == all[i]);
    lemma_ranked_has(rows, all[i]);
    assert(all.contains(all[i]));
    let n = choose|n: int| 0 <= n < rows.len() && rows[n] == all[i];
    assert(rows[n].at == at[n]);
    lemma_windowed(txns@, bound(from), bound(to), txns@.len() as int, at[n]);
    assert(at.contains(at[n]));
    assert forall|a: int, b: int| 0 <= a < b < r@.len() implies text_lt(
        (#[trigger] r@[b]).on@,
        (#[trigger] r@[a]).on@,
    ) || (r@[a].on@ == r@[b].on@ && r@[a].id >= r@[b].id) by {
        assert(r@[a] == all[a] && r@[b] == all[b]);
        assert(!all[b].before(&all[a]));
        lemma_text_total(r@[a].on@, r@[b].on@);
    }
    if is_within(txns@[j].occurred_on@, bound(from), bound(to)) {
        lemma_windowed(txns@, bound(from), bound(to), txns@.len() as int, j);
        let m = choose|m: int| 0 <= m < at.len() && at[m] == j;
        assert(rows[m].at == at[m]);
        lemma_ranked_has(rows, rows[m]);
        assert(rows.contains(rows[m]));
        let k = choose|k: int| 0 <= k < all.len() && all[k] == rows[m];
        if k < r@.len() {
            assert(r@[k].at == j);
        } else {
            assert(i < k);
            assert(!all[k].before(&all[i]));
        }
    }
}

proof fn lemma_picked(txns: Seq<Listed>, ids: Seq<i64>, n: int, k: int)
    requires
        0 <= n <= txns.len(),
    ensures
        picked(txns, ids, n).contains(k) <==> 0 <= k < n && ids.contains(txns[k].id),
    decreases n,
{
    if n > 0 {
        lemma_picked(txns, ids, n - 1, k);
        lemma_push_has(picked(txns, ids, n - 1), n - 1, k);
    }
}

/// What is summarised are the transactions asked for.
pub proof fn law_a_summary_is_of_what_was_asked_for(txns: Seq<Listed>, ids: Seq<i64>, k: int)
    ensures
        picked(txns, ids, txns.len() as int).contains(k) <==> 0 <= k < txns.len() && ids.contains(
            txns[k].id,
        ),
{
    lemma_picked(txns, ids, txns.len() as int, k);
}

/// A link counts for each of the two it joins, once.
pub proof fn law_a_link_counts_at_both_its_ends(links: Seq<Link>, l: Link, id: i64)
    ensures
        links_of(links.push(l), id) == links_of(links, id) + (if l.from == id || l.to == id {
            1int
        } else {
            0
        }),
        links_of(Seq::empty(), id) == 0,
{
    assert(links.push(l).drop_last() =~= links);
}

/// A transaction's postings are those that name it.
pub proof fn law_a_transactions_postings_are_its_own(
    postings: Seq<PostingRow>,
    id: i64,
    n: int,
    x: Smallest,
)
    requires
        0 <= n <= postings.len(),
        postings.len() <= usize::MAX,
    ensures
        postings_of(postings, id, n).contains(x) <==> x.at < n && postings[x.at as int].txn_id == id
            && x.amount_minor == postings[x.at as int].amount_minor,
    decreases n,
{
    if n > 0 {
        law_a_transactions_postings_are_its_own(postings, id, n - 1, x);
        lemma_push_has(
            postings_of(postings, id, n - 1),
            Smallest { at: (n - 1) as usize, amount_minor: postings[n - 1].amount_minor },
            x,
        );
    }
}

/// A description is used as often as it stands on a transaction, and last on the latest day that it
/// does; and every description that is used is told.
pub proof fn law_a_description_is_counted_where_it_is_used(
    txns: Seq<Listed>,
    t: Listed,
    d: Seq<char>,
)
    ensures
        uses_of(txns.push(t), d) == uses_of(txns, d) + (if t.description@ == d {
            1int
        } else {
            0
        }),
        uses_of(Seq::empty(), d) == 0,
        t.description@ == d ==> !text_lt(last_use(txns.push(t), d), t.occurred_on@) && !text_lt(
            last_use(txns.push(t), d),
            last_use(txns, d),
        ) && (last_use(txns.push(t), d) == t.occurred_on@ || last_use(txns.push(t), d) == last_use(
            txns,
            d,
        )),
        t.description@ != d ==> last_use(txns.push(t), d) == last_use(txns, d),
        texts_of(txns.push(t)).contains(d) <==> texts_of(txns).contains(d) || t.description@ == d,
{
    assert(txns.push(t).drop_last() =~= txns);
    lemma_text_irreflexive(t.occurred_on@);
    lemma_text_irreflexive(last_use(txns, d));
    lemma_no_return(last_use(txns, d), t.occurred_on@);
    lemma_with_text(texts_of(txns), t.description@, d);
}

proof fn lemma_uses_order()
    ensures
        orders::<DescriptionUse>(),
{
    assert forall|a: DescriptionUse, b: DescriptionUse| #[trigger]
        a.before(&b) implies !b.before(&a) by {
        lemma_no_return(a.last_on@, b.last_on@);
        lemma_no_return(b.last_on@, a.last_on@);
        lemma_no_return(a.description@, b.description@);
        lemma_no_return(b.description@, a.description@);
    }
    assert forall|a: DescriptionUse, b: DescriptionUse, c: DescriptionUse| #[trigger]
        a.before(&b) && !(#[trigger] c.before(&b)) implies a.before(&c) by {
        lemma_text_total(b.last_on@, c.last_on@);
        if text_lt(b.last_on@, a.last_on@) && !text_lt(b.last_on@, c.last_on@) {
            lemma_text_back(b.last_on@, a.last_on@, c.last_on@);
        }
        if text_lt(a.description@, b.description@) && !text_lt(c.description@, b.description@) {
            lemma_text_swap(a.description@, b.description@, c.description@);
        }
    }
}

/// Descriptions stand by how often they are used, of as many uses by the latest, and of one day by
/// name.
pub proof fn law_the_most_used_description_comes_first(rows: Seq<DescriptionUse>, i: int, j: int)
    requires
        0 <= i < j < rows.len(),
    ensures
        ({
            let a = ranked(rows)[i];
            let b = ranked(rows)[j];
            &&& a.count >= b.count
            &&& a.count == b.count ==> !text_lt(a.last_on@, b.last_on@)
            &&& a.count == b.count && a.last_on@ == b.last_on@ ==> !text_lt(
                b.description@,
                a.description@,
            )
        }),
{
    lemma_uses_order();
    law_ranking_keeps_everything_and_orders_it(rows);
    assert(!ranked(rows)[j].before(&ranked(rows)[i]));
}

/// What an account holds on a day is what moved on it on or before the day.
pub proof fn law_an_account_holds_what_moved_by_the_day(
    rows: Seq<Movement>,
    m: Movement,
    id: i64,
    as_of: Option<Seq<char>>,
)
    ensures
        m.account_id == id && (as_of is None || !text_lt(as_of->0, m.on@)) ==> held_on(
            rows.push(m),
            id,
            as_of,
        ) == held_on(rows, id, as_of) + m.moved_minor,
        m.account_id != id || (as_of is Some && text_lt(as_of->0, m.on@)) ==> held_on(
            rows.push(m),
            id,
            as_of,
        ) == held_on(rows, id, as_of),
        held_on(Seq::empty(), id, as_of) == 0,
{
    assert(rows.push(m).drop_last() =~= rows);
}

/// The accounts shown are those that are not closed, each with what it holds.
pub proof fn law_every_open_account_is_shown(
    v: Seq<Balance>,
    accounts: Seq<Account>,
    rows: Seq<Movement>,
    as_of: Option<Seq<char>>,
    k: int,
)
    requires
        are_balances(v, accounts, rows, as_of, open_places(accounts, accounts.len() as int)),
        0 <= k < accounts.len(),
    ensures
        (exists|i: int| 0 <= i < v.len() && (#[trigger] v[i]).at == k) <==> !accounts[k].closed,
        forall|i: int|
            0 <= i < v.len() && (#[trigger] v[i]).at == k ==> v[i].name@ == accounts[k].name@ && v[i].kind@
                == accounts[k].kind@ && v[i].balance_minor == held_on(rows, accounts[k].id, as_of),
{
    let at = open_places(accounts, accounts.len() as int);
    lemma_open(accounts, accounts.len() as int, k);
    if at.contains(k) {
        let i = choose|i: int| 0 <= i < at.len() && at[i] == k;
        assert(v[i].at == k);
    }
    if exists|i: int| 0 <= i < v.len() && (#[trigger] v[i]).at == k {
        let i = choose|i: int| 0 <= i < v.len() && (#[trigger] v[i]).at == k;
        assert(at[i] == k);
    }
}

proof fn lemma_open(accounts: Seq<Account>, n: int, k: int)
    requires
        0 <= n <= accounts.len(),
    ensures
        open_places(accounts, n).contains(k) <==> 0 <= k < n && !accounts[k].closed,
    decreases n,
{
    if n > 0 {
        lemma_open(accounts, n - 1, k);
        lemma_push_has(open_places(accounts, n - 1), n - 1, k);
    }
}

/// An exported line is the ledger's, field by field; where it is redacted its story is left out and
/// its numbers are not.
pub proof fn law_an_exported_line_is_the_ledgers(l: LedgerLine, redact: bool)
    ensures
        ({
            let r = line_row(l, redact);
            &&& r.posting_id == Some(l.posting_id)
            &&& r.txn_id == Some(l.txn_id)
            &&& r.on_date == l.on_date@
            &&& r.account == l.account@
            &&& r.account_kind == Some(l.account_kind@)
            &&& r.amount == l.amount_minor
            &&& r.currency == l.currency@
            &&& r.minor_digits == Some(l.minor_digits)
            &&& r.amount_decimal == opt_view(l.amount_decimal)
            &&& r.occurrence_on == opt_view(l.occurrence_on)
            &&& r.source == l.source@
            &&& !r.is_projection
            &&& !redact ==> r.description == l.description@ && r.payee == opt_view(l.payee) && r.series
                == opt_view(l.series)
            &&& redact ==> r.description == "[redacted]"@ && r.payee is None && r.series is None
        }),
{
}

/// Every line of the window is exported and no other.
pub proof fn law_every_line_of_the_window_is_exported(
    all: Seq<LedgerLine>,
    l: LedgerLine,
    from: Option<Seq<char>>,
    to: Option<Seq<char>>,
    redact: bool,
)
    ensures
        is_within(l.on_date@, from, to) ==> line_rows(all.push(l), from, to, redact) == line_rows(
            all,
            from,
            to,
            redact,
        ).push(line_row(l, redact)),
        !is_within(l.on_date@, from, to) ==> line_rows(all.push(l), from, to, redact) == line_rows(
            all,
            from,
            to,
            redact,
        ),
        line_rows(Seq::empty(), from, to, redact).len() == 0,
{
    assert(all.push(l).drop_last() =~= all);
}

/// A projected row is on the day its money moves, in its slot, and says that it is a forecast.
pub proof fn law_a_projected_row_is_the_forecasts(o: OccView, redact: bool)
    ensures
        ({
            let r = projected_row(o, redact);
            &&& r.on_date == o.value_on
            &&& r.occurrence_on == Some(o.occurrence_on)
            &&& r.account == o.account
            &&& r.amount == o.amount
            &&& r.currency == o.currency
            &&& r.is_projection
            &&& r.txn_id is None && r.posting_id is None
            &&& !redact ==> r.description == o.description
            &&& redact ==> r.description == "[redacted]"@
        }),
{
}

/// A text is put in quotes exactly where it holds a comma, a quote or a line end, and only then are
/// its quotes doubled.
pub proof fn law_a_field_is_quoted_where_it_has_to_be(s: Seq<char>)
    ensures
        !s.contains(',') && !s.contains('"') && !s.contains('\n') ==> escaped(s) == s,
        s.contains(',') || s.contains('"') || s.contains('\n') ==> escaped(s).len() >= 2 && escaped(s)[0]
            == '"' && escaped(s).last() == '"',
{
    reveal_strlit("\"");
    assert("\""@.len() == 1);
    assert("\""@[0] == '"');
    if needs_quotes(s) {
        let e = "\""@ + doubled(s) + "\""@;
        assert(e[0] == '"' && e.last() == '"');
    }
}

/// The columns of a line of the file are those of its heading, in its order.
pub proof fn law_the_columns_stand_in_the_order_of_the_heading(r: ExportView)
    ensures
        csv_fields(r).len() == 11,
        csv_fields(r)[0] == escaped(r.on_date),
        csv_fields(r)[2] == escaped(r.account),
        csv_fields(r)[4] == escaped(r.description),
        csv_fields(r)[8] == escaped(r.currency),
        csv_fields(r)[10] == escaped(r.source),
        csv_fields(r)[6] == escaped(crate::digits::int_digits(r.amount)),
        r.txn_id matches Some(t) ==> csv_fields(r)[1] == escaped(crate::digits::int_digits(t as int)),
        r.account_kind matches Some(k) ==> csv_fields(r)[3] == escaped(k),
        r.payee matches Some(p) ==> csv_fields(r)[5] == escaped(p),
        r.amount_decimal matches Some(d) ==> csv_fields(r)[7] == escaped(d),
        r.minor_digits matches Some(d) ==> csv_fields(r)[9] == escaped(
            crate::digits::int_digits(d as int),
        ),
{
}

proof fn lemma_place_in(v: Seq<MemberView>, journey: i64, txn: i64)
    ensures
        0 <= place_in(v, journey, txn) <= v.len(),
        place_in(v, journey, txn) < v.len() ==> v[place_in(v, journey, txn)].journey_id == journey
            && v[place_in(v, journey, txn)].txn_id == txn,
        forall|i: int|
            0 <= i < place_in(v, journey, txn) ==> (#[trigger] v[i]).journey_id != journey || v[i].txn_id
                != txn,
{
    let p = is_member(v, journey, txn);
    lemma_first_is(v.len() as int, p);
    let at = place_in(v, journey, txn);
    if at < v.len() {
        assert(p(at));
    }
    assert forall|i: int| 0 <= i < at implies (#[trigger] v[i]).journey_id != journey || v[i].txn_id
        != txn by {
        assert(!p(i));
    }
}

/// Attaching a transaction to a journey puts it there as it is given and leaves every other member
/// as it was.
pub proof fn law_attaching_puts_in_what_is_given(v: Seq<MemberView>, m: MemberView, x: MemberView)
    ensures
        attached(v, m).contains(m),
        x.journey_id != m.journey_id || x.txn_id != m.txn_id ==> (attached(v, m).contains(x)
            <==> v.contains(x)),
{
    let at = place_in(v, m.journey_id, m.txn_id);
    lemma_place_in(v, m.journey_id, m.txn_id);
    let w = attached(v, m);
    if at < v.len() {
        assert(w[at] == m);
        if v.contains(x) && (x.journey_id != m.journey_id || x.txn_id != m.txn_id) {
            let i = choose|i: int| 0 <= i < v.len() && v[i] == x;
            assert(w[i] == x);
        }
        if w.contains(x) && x != m {
            let i = choose|i: int| 0 <= i < w.len() && w[i] == x;
            assert(v[i] == x);
        }
    } else {
        lemma_push_has(v, m, m);
        lemma_push_has(v, m, x);
    }
}

/// Detaching a transaction from a journey leaves every other member as it was.
pub proof fn law_detaching_takes_out_that_one_alone(
    v: Seq<MemberView>,
    journey: i64,
    txn: i64,
    x: MemberView,
)
    requires
        x.journey_id != journey || x.txn_id != txn,
    ensures
        detached(v, journey, txn).contains(x) <==> v.contains(x),
        (exists|i: int| 0 <= i < v.len() && (#[trigger] v[i]).journey_id == journey && v[i].txn_id == txn)
            ==> detached(v, journey, txn).len() == v.len() - 1,
{
    let at = place_in(v, journey, txn);
    lemma_place_in(v, journey, txn);
    let w = detached(v, journey, txn);
    if at < v.len() {
        if v.contains(x) {
            let i = choose|i: int| 0 <= i < v.len() && v[i] == x;
            if i < at {
                assert(w[i] == x);
            } else {
                assert(w[i - 1] == x);
            }
        }
        if w.contains(x) {
            let i = choose|i: int| 0 <= i < w.len() && w[i] == x;
            if i < at {
                assert(v[i] == x);
            } else {
                assert(v[i + 1] == x);
            }
        }
    } else if exists|i: int|
        0 <= i < v.len() && (#[trigger] v[i]).journey_id == journey && v[i].txn_id == txn {
        let i = choose|i: int|
            0 <= i < v.len() && (#[trigger] v[i]).journey_id == journey && v[i].txn_id == txn;
        assert(v[i].journey_id != journey || v[i].txn_id != txn);
    }
}

/// The hops of a journey are its members whose transactions are there.
pub proof fn law_a_journeys_hops_are_its_members(
    members: Seq<Member>,
    txns: Seq<TxnRow>,
    journey: i64,
    m: Member,
)
    ensures
        hops(members, txns, journey).contains(m) <==> members.contains(m) && m.journey_id == journey && (
        exists|i: int| 0 <= i < txns.len() && (#[trigger] txns[i]).id == m.txn_id),
    decreases members.len(),
{
    let p = crate::journey::is_txn(txns, m.txn_id);
    lemma_first_is(txns.len() as int, p);
    if txn_place(txns, m.txn_id) < txns.len() {
        assert(p(txn_place(txns, m.txn_id)));
        assert(txns[txn_place(txns, m.txn_id)].id == m.txn_id);
    }
    if exists|i: int| 0 <= i < txns.len() && (#[trigger] txns[i]).id == m.txn_id {
        let i = choose|i: int| 0 <= i < txns.len() && (#[trigger] txns[i]).id == m.txn_id;
        assert(p(i));
    }
    if members.len() > 0 {
        let rest = members.drop_last();
        law_a_journeys_hops_are_its_members(rest, txns, journey, m);
        lemma_push_has(rest, members.last(), m);
        lemma_push_has(hops(rest, txns, journey), members.last(), m);
        assert(rest.push(members.last()) =~= members);
    }
}

/// A leg of a journey is its member with the day and the name of the member's transaction.
pub proof fn law_a_leg_is_its_member_and_its_transaction(
    l: JourneyLeg,
    m: Member,
    txns: Seq<TxnRow>,
    i: int,
)
    requires
        is_leg(l, m, txns),
        0 <= i < txns.len(),
        txns[i].id == m.txn_id,
        forall|j: int| 0 <= j < i ==> (#[trigger] txns[j]).id != m.txn_id,
    ensures
        l.txn_id == m.txn_id,
        l.seq == m.seq,
        l.role@ == m.role@,
        l.occurred_on@ == txns[i].occurred_on@,
        l.description@ == txns[i].description@,
{
    let p = crate::journey::is_txn(txns, m.txn_id);
    assert forall|j: int| 0 <= j < i implies !#[trigger] p(j) by {
        assert(txns[j].id != m.txn_id);
    }
    lemma_first(txns.len() as int, p, i);
}

/// A journey counts its own members.
pub proof fn law_a_journey_counts_its_own(members: Seq<Member>, m: Member, journey: i64)
    ensures
        leg_count(members.push(m), journey) == leg_count(members, journey) + (if m.journey_id == journey {
            1int
        } else {
            0
        }),
        leg_count(Seq::empty(), journey) == 0,
{
    assert(members.push(m).drop_last() =~= members);
}

/// The journeys of a transaction are those it is a member of.
pub proof fn law_a_transactions_journeys_are_those_it_is_in(
    members: Seq<MemberView>,
    txn: i64,
    x: MemberView,
)
    ensures
        of_txn(members, txn).contains(x) <==> members.contains(x) && x.txn_id == txn,
    decreases members.len(),
{
    if members.len() > 0 {
        let rest = members.drop_last();
        law_a_transactions_journeys_are_those_it_is_in(rest, txn, x);
        lemma_push_has(rest, members.last(), x);
        lemma_push_has(of_txn(rest, txn), members.last(), x);
        assert(rest.push(members.last()) =~= members);
    }
}

/// What a transaction leads to is at the far end of a link from it, and what leads to it at the near
/// end of a link to it; each with the link's own note.
pub proof fn law_a_neighbour_is_at_the_other_end_of_a_link(
    links: Seq<LinkView>,
    id: i64,
    out: bool,
    x: NeighbourView,
)
    ensures
        one_way(links, id, out).contains(x) <==> x.out == out && exists|i: int|
            0 <= i < links.len() && (#[trigger] links[i]).note == x.note && (if out {
                links[i].from == id && links[i].to == x.txn_id
            } else {
                links[i].to == id && links[i].from == x.txn_id
            }),
    decreases links.len(),
{
    if links.len() > 0 {
        let rest = links.drop_last();
        let l = links.last();
        law_a_neighbour_is_at_the_other_end_of_a_link(rest, id, out, x);
        let n = NeighbourView {
            txn_id: if out {
                l.to
            } else {
                l.from
            },
            out,
            note: l.note,
        };
        lemma_push_has(one_way(rest, id, out), n, x);
        assert(links[links.len() - 1] == l);
        if exists|i: int|
            0 <= i < rest.len() && (#[trigger] rest[i]).note == x.note && (if out {
                rest[i].from == id && rest[i].to == x.txn_id
            } else {
                rest[i].to == id && rest[i].from == x.txn_id
            }) {
            let i = choose|i: int|
                0 <= i < rest.len() && (#[trigger] rest[i]).note == x.note && (if out {
                    rest[i].from == id && rest[i].to == x.txn_id
                } else {
                    rest[i].to == id && rest[i].from == x.txn_id
                });
            assert(links[i] == rest[i]);
        }
        if exists|i: int|
            0 <= i < links.len() && (#[trigger] links[i]).note == x.note && (if out {
                links[i].from == id && links[i].to == x.txn_id
            } else {
                links[i].to == id && links[i].from == x.txn_id
            }) {
            let i = choose|i: int|
                0 <= i < links.len() && (#[trigger] links[i]).note == x.note && (if out {
                    links[i].from == id && links[i].to == x.txn_id
                } else {
                    links[i].to == id && links[i].from == x.txn_id
                });
            if i < rest.len() {
                assert(rest[i] == links[i]);
            }
        }
    }
}

/// The links of a chain are those between two that it visits.
pub proof fn law_a_chains_links_are_between_its_visits(
    links: Seq<LinkView>,
    s: Seq<Visit>,
    l: LinkView,
)
    ensures
        inner(links, s).contains(l) <==> links.contains(l) && visited(s, l.from) && visited(s, l.to),
    decreases links.len(),
{
    if links.len() > 0 {
        let rest = links.drop_last();
        law_a_chains_links_are_between_its_visits(rest, s, l);
        lemma_push_has(rest, links.last(), l);
        lemma_push_has(inner(rest, s), links.last(), l);
        assert(rest.push(links.last()) =~= links);
    }
}

/// A posting of one of the transactions moves what its account is left with by its amount, in its own
/// currency; no other posting moves anything.
pub proof fn law_a_posting_moves_what_its_account_is_left_with(
    postings: Seq<PostingRow>,
    p: PostingRow,
    txns: Seq<i64>,
    account: i64,
    currency: Seq<char>,
)
    ensures
        txns.contains(p.txn_id) && p.account_id == account && p.currency@ == currency ==> net(
            postings.push(p),
            txns,
            account,
            currency,
        ) == net(postings, txns, account, currency) + p.amount_minor,
        !txns.contains(p.txn_id) || p.account_id != account || p.currency@ != currency ==> net(
            postings.push(p),
            txns,
            account,
            currency,
        ) == net(postings, txns, account, currency),
        net(Seq::empty(), txns, account, currency) == 0,
{
    assert(postings.push(p).drop_last() =~= postings);
}

} // verus!
