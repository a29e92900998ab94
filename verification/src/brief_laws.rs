//! What the computed picture of a book says of it: what is held, what the months came to, what is
//! usual, what is committed and where the accounts are heading.

use crate::analysis::{are_balances, held, is_position, total_in, Balance, Position};
use crate::ledger::{are_totals, has_total, is_on, last_on, total_on, AccountTotal, EntryView};
use crate::lists::lemma_push_has;
use crate::sorting::{law_ranking_keeps_everything_and_orders_it, orders, placed, ranked, Ranked};
use crate::tally::{sum_of, Sum};
use crate::text::{lemma_text_irreflexive, lemma_text_total, lemma_text_transitive, text_lt};
use vstd::prelude::*;

verus! {

/// Whether a posting counts in a position on a day: it is dated on or before the day, on an account
/// that is not the core's own, and that account is an asset or a liability.
pub open spec fn is_held(e: EntryView, as_of: Seq<char>) -> bool {
    &&& !text_lt(as_of, e.occurred_on)
    &&& !e.system
    &&& e.kind == "asset"@ || e.kind == "liability"@
}

/// A posting dated on or before the day, on an account that is not the core's own, changes the net of
/// its currency by its amount where that account is an asset, and equally where it is a liability. It
/// changes no other currency's, and no posting of another kind changes any.
pub proof fn law_a_held_posting_moves_the_net(
    before: Position,
    after: Position,
    entries: Seq<EntryView>,
    e: EntryView,
    as_of: Seq<char>,
    currency: Seq<char>,
)
    requires
        is_position(before, entries, as_of),
        is_position(after, entries.push(e), as_of),
    ensures
        is_held(e, as_of) && e.currency == currency ==> sum_of(after.net_by_currency@, currency)
            == sum_of(before.net_by_currency@, currency) + e.amount,
        !is_held(e, as_of) || e.currency != currency ==> sum_of(after.net_by_currency@, currency)
            == sum_of(before.net_by_currency@, currency),
{
    assert(entries.push(e).drop_last() =~= entries);
    let own = held(entries, as_of);
    assert(own.push(e).drop_last() =~= own);
    assert(sum_of(before.net_by_currency@, currency) == total_in(own, currency));
    assert(sum_of(after.net_by_currency@, currency) == total_in(
        held(entries.push(e), as_of),
        currency,
    ));
}

/// An empty book holds nothing.
pub proof fn law_an_empty_book_holds_nothing(p: Position, as_of: Seq<char>, currency: Seq<char>)
    requires
        is_position(p, Seq::empty(), as_of),
    ensures
        sum_of(p.net_by_currency@, currency) == 0,
        p.by_account@.len() == 0,
{
    let own = held(Seq::empty(), as_of);
    assert(own.len() == 0);
    assert(sum_of(p.net_by_currency@, currency) == total_in(own, currency));
    let (t, b) = choose|t: Seq<AccountTotal>, b: Seq<Balance>|
        are_totals(t, own) && #[trigger] are_balances(b, t) && p.by_account@ == ranked(b);
    if t.len() > 0 {
        assert(t[0] == t[0]);
        assert(false);
    }
    assert(b.len() == 0);
}

/// The postings of an account in a currency that a position holds, added up.
pub open spec fn held_on(
    entries: Seq<EntryView>,
    as_of: Seq<char>,
    account: i64,
    currency: Seq<char>,
) -> int
    decreases entries.len(),
{
    if entries.len() == 0 {
        0
    } else {
        let e = entries.last();
        held_on(entries.drop_last(), as_of, account, currency) + (if is_held(e, as_of) && e.account_id
            == account && e.currency == currency {
            e.amount
        } else {
            0
        })
    }
}

proof fn lemma_held_on(entries: Seq<EntryView>, as_of: Seq<char>, account: i64, currency: Seq<char>)
    ensures
        total_on(held(entries, as_of), account, currency) == held_on(
            entries,
            as_of,
            account,
            currency,
        ),
    decreases entries.len(),
{
    if entries.len() > 0 {
        let rest = entries.drop_last();
        lemma_held_on(rest, as_of, account, currency);
        assert(held(rest, as_of).push(entries.last()).drop_last() =~= held(rest, as_of));
    }
}

proof fn lemma_held_has(entries: Seq<EntryView>, as_of: Seq<char>, x: EntryView)
    ensures
        held(entries, as_of).contains(x) <==> entries.contains(x) && is_held(x, as_of),
    decreases entries.len(),
{
    if entries.len() > 0 {
        let rest = entries.drop_last();
        lemma_held_has(rest, as_of, x);
        lemma_push_has(rest, entries.last(), x);
        lemma_push_has(held(rest, as_of), entries.last(), x);
        assert(rest.push(entries.last()) =~= entries);
    }
}

proof fn lemma_last_on(entries: Seq<EntryView>, account: i64, currency: Seq<char>)
    ensures
        last_on(entries, account, currency) matches Some(d) ==> exists|i: int|
            0 <= i < entries.len() && is_on(#[trigger] entries[i], account, currency)
                && entries[i].occurred_on == d,
        forall|i: int|
            0 <= i < entries.len() && is_on(#[trigger] entries[i], account, currency) ==> last_on(
                entries,
                account,
                currency,
            ) is Some && !text_lt(last_on(entries, account, currency)->0, entries[i].occurred_on),
    decreases entries.len(),
{
    if entries.len() > 0 {
        let rest = entries.drop_last();
        let now = entries.last();
        lemma_last_on(rest, account, currency);
        assert(entries[entries.len() - 1] == now);
        if last_on(rest, account, currency) is Some {
            let i = choose|i: int|
                0 <= i < rest.len() && is_on(#[trigger] rest[i], account, currency)
                    && Some(rest[i].occurred_on) == last_on(rest, account, currency);
            assert(entries[i] == rest[i]);
        }
        assert forall|i: int|
            0 <= i < entries.len() && is_on(#[trigger] entries[i], account, currency) implies last_on(
            entries,
            account,
            currency,
        ) is Some && !text_lt(last_on(entries, account, currency)->0, entries[i].occurred_on) by {
            lemma_text_irreflexive(entries[i].occurred_on);
            if i < rest.len() {
                assert(rest[i] == entries[i]);
                let b = last_on(rest, account, currency)->0;
                if text_lt(b, now.occurred_on) && text_lt(now.occurred_on, rest[i].occurred_on) {
                    lemma_text_transitive(b, now.occurred_on, rest[i].occurred_on);
                }
            }
        }
    }
}

proof fn lemma_placed_has<T: Ranked>(s: Seq<T>, x: T, y: T)
    ensures
        placed(s, x).contains(y) <==> s.contains(y) || y == x,
    decreases s.len(),
{
    if s.len() > 0 && x.before(&s.last()) {
        let rest = s.drop_last();
        lemma_placed_has(rest, x, y);
        lemma_push_has(placed(rest, x), s.last(), y);
        lemma_push_has(rest, s.last(), y);
        assert(rest.push(s.last()) =~= s);
    } else {
        lemma_push_has(s, x, y);
    }
}

/// Ranking loses nothing and adds nothing.
pub proof fn lemma_ranked_has<T: Ranked>(s: Seq<T>, y: T)
    ensures
        ranked(s).contains(y) <==> s.contains(y),
        ranked(s).len() == s.len(),
    decreases s.len(),
{
    if s.len() > 0 {
        let rest = s.drop_last();
        lemma_ranked_has(rest, y);
        lemma_placed_has(ranked(rest), s.last(), y);
        lemma_placed_len(ranked(rest), s.last());
        lemma_push_has(rest, s.last(), y);
        assert(rest.push(s.last()) =~= s);
    }
}

proof fn lemma_placed_len<T: Ranked>(s: Seq<T>, x: T)
    ensures
        placed(s, x).len() == s.len() + 1,
    decreases s.len(),
{
    if s.len() > 0 && x.before(&s.last()) {
        lemma_placed_len(s.drop_last(), x);
    }
}

/// A balance is what the postings held on its account in its currency come to, and its last movement
/// the latest day of any of them.
pub proof fn law_a_balance_is_what_its_account_holds(
    p: Position,
    entries: Seq<EntryView>,
    as_of: Seq<char>,
    i: int,
) -> (j: int)
    requires
        is_position(p, entries, as_of),
        0 <= i < p.by_account@.len(),
    ensures
        0 <= j < entries.len(),
        ({
            let b = p.by_account@[i];
            let e = entries[j];
            &&& is_held(e, as_of)
            &&& b.account@ == e.account && b.kind@ == e.kind && b.currency@ == e.currency
            &&& b.balance_minor == held_on(entries, as_of, e.account_id, e.currency)
            &&& forall|k: int|
                0 <= k < entries.len() && is_held(#[trigger] entries[k], as_of)
                    && entries[k].account_id == e.account_id && entries[k].currency == e.currency
                    ==> !text_lt(b.last_movement_on@, entries[k].occurred_on)
            &&& exists|k: int|
                0 <= k < entries.len() && is_held(#[trigger] entries[k], as_of)
                    && entries[k].account_id == e.account_id && entries[k].currency == e.currency
                    && b.last_movement_on@ == entries[k].occurred_on
        }),
{
    let own = held(entries, as_of);
    let (t, b) = choose|t: Seq<AccountTotal>, b: Seq<Balance>|
        are_totals(t, own) && #[trigger] are_balances(b, t) && p.by_account@ == ranked(b);
    let row = p.by_account@[i];
    lemma_ranked_has(b, row);
    assert(ranked(b).contains(row));
    let n = choose|n: int| 0 <= n < b.len() && b[n] == row;
    let total = t[n];
    assert(crate::analysis::is_balance(b[n], t[n]));
    let m = choose|m: int|
        0 <= m < own.len() && is_on(#[trigger] own[m], total.account_id, total.currency@)
            && own[m].account == total.account@ && own[m].kind == total.kind@;
    lemma_held_has(entries, as_of, own[m]);
    assert(own.contains(own[m]));
    let j = choose|j: int| 0 <= j < entries.len() && entries[j] == own[m];
    lemma_held_on(entries, as_of, total.account_id, total.currency@);
    lemma_last_on(own, total.account_id, total.currency@);
    assert forall|k: int|
        0 <= k < entries.len() && is_held(#[trigger] entries[k], as_of) && entries[k].account_id
            == total.account_id && entries[k].currency == total.currency@ implies !text_lt(
        row.last_movement_on@,
        entries[k].occurred_on,
    ) by {
        lemma_held_has(entries, as_of, entries[k]);
        assert(entries.contains(entries[k]));
        let h = choose|h: int| 0 <= h < own.len() && own[h] == entries[k];
        assert(is_on(own[h], total.account_id, total.currency@));
    }
    let h = choose|h: int|
        0 <= h < own.len() && is_on(#[trigger] own[h], total.account_id, total.currency@)
            && own[h].occurred_on == total.last_on@;
    lemma_held_has(entries, as_of, own[h]);
    assert(own.contains(own[h]));
    let k = choose|k: int| 0 <= k < entries.len() && entries[k] == own[h];
    assert(is_held(entries[k], as_of));
    j
}

/// Every account that something held is on has a balance.
pub proof fn law_every_held_account_has_a_balance(
    p: Position,
    entries: Seq<EntryView>,
    as_of: Seq<char>,
    j: int,
) -> (i: int)
    requires
        is_position(p, entries, as_of),
        0 <= j < entries.len(),
        is_held(entries[j], as_of),
    ensures
        0 <= i < p.by_account@.len(),
        p.by_account@[i].currency@ == entries[j].currency,
        p.by_account@[i].balance_minor == held_on(
            entries,
            as_of,
            entries[j].account_id,
            entries[j].currency,
        ),
{
    let own = held(entries, as_of);
    let (t, b) = choose|t: Seq<AccountTotal>, b: Seq<Balance>|
        are_totals(t, own) && #[trigger] are_balances(b, t) && p.by_account@ == ranked(b);
    lemma_held_has(entries, as_of, entries[j]);
    assert(entries.contains(entries[j]));
    let m = choose|m: int| 0 <= m < own.len() && own[m] == entries[j];
    assert(has_total(t, own[m].account_id, own[m].currency));
    let n = choose|n: int|
        0 <= n < t.len() && crate::ledger::total_is_for(
            #[trigger] t[n],
            own[m].account_id,
            own[m].currency,
        );
    assert(crate::analysis::is_balance(b[n], t[n]));
    lemma_ranked_has(b, b[n]);
    assert(b.contains(b[n]));
    lemma_held_on(entries, as_of, t[n].account_id, t[n].currency@);
    let i = choose|i: int| 0 <= i < p.by_account@.len() && p.by_account@[i] == b[n];
    i
}

proof fn lemma_text_swap(a: Seq<char>, b: Seq<char>, c: Seq<char>)
    requires
        text_lt(a, b),
        !text_lt(c, b),
    ensures
        text_lt(a, c),
{
    lemma_text_total(c, b);
    if c != b {
        lemma_text_transitive(a, b, c);
    }
}

proof fn lemma_balances_order()
    ensures
        orders::<Balance>(),
{
    assert forall|a: Balance, b: Balance| #[trigger] a.before(&b) implies !b.before(&a) by {
        lemma_text_irreflexive(a.kind@);
        lemma_text_irreflexive(a.account@);
        if text_lt(a.kind@, b.kind@) && text_lt(b.kind@, a.kind@) {
            lemma_text_transitive(a.kind@, b.kind@, a.kind@);
        }
        if text_lt(a.account@, b.account@) && text_lt(b.account@, a.account@) {
            lemma_text_transitive(a.account@, b.account@, a.account@);
        }
        lemma_text_irreflexive(b.kind@);
    }
    assert forall|a: Balance, b: Balance, c: Balance| #[trigger]
        a.before(&b) && !(#[trigger] c.before(&b)) implies a.before(&c) by {
        lemma_text_total(c.kind@, b.kind@);
        if text_lt(a.kind@, b.kind@) {
            lemma_text_swap(a.kind@, b.kind@, c.kind@);
        } else {
            if c.kind@ == b.kind@ {
                lemma_text_swap(a.account@, b.account@, c.account@);
            }
        }
    }
}

/// Balances stand by kind, and of one kind by account.
pub proof fn law_balances_stand_by_kind_and_account(
    p: Position,
    entries: Seq<EntryView>,
    as_of: Seq<char>,
    i: int,
    j: int,
)
    requires
        is_position(p, entries, as_of),
        0 <= i < j < p.by_account@.len(),
    ensures
        !text_lt(p.by_account@[j].kind@, p.by_account@[i].kind@),
        p.by_account@[i].kind@ == p.by_account@[j].kind@ ==> !text_lt(
            p.by_account@[j].account@,
            p.by_account@[i].account@,
        ),
{
    let own = held(entries, as_of);
    let (t, b) = choose|t: Seq<AccountTotal>, b: Seq<Balance>|
        are_totals(t, own) && #[trigger] are_balances(b, t) && p.by_account@ == ranked(b);
    lemma_balances_order();
    law_ranking_keeps_everything_and_orders_it(b);
    assert(!p.by_account@[j].before(&p.by_account@[i]));
}

/// A list of sums by name gives for each name in it the total beside it.
pub proof fn law_a_sum_is_the_total_beside_its_name(rows: Seq<Sum>, i: int)
    requires
        crate::tally::in_order(rows),
        0 <= i < rows.len(),
    ensures
        sum_of(rows, rows[i].name@) == rows[i].total,
{
    crate::tally::lemma_sum_at(rows, i);
}

} // verus!
