//! What a forecast is given of a book: every row as it stands, the balances on the day and the rates in
//! force, and of one rule only what is its own.

use crate::book::Account;
use crate::date::{iso, read_day, Date};
use crate::entry::Movement;
use crate::forecast::{InterestRule, Series, Slot, SlotOverride, Snapshot};
use crate::lists::lemma_push_has;
use crate::load::{
    come_to, day_in, is_interest, is_override, is_payment, is_series, is_snapshot, moved_by,
    names_by_id, opt_day_in, postings_for, rate_on, rate_place, rated, slots_filled, BookRows,
    ClaimRow, InterestRow, PostingRow, RatePeriod,
};
use crate::paths::lemma_with_id;
use crate::sub::{in_play, is_sub, overrides_of, series_of, slots_of};
use crate::text::{lemma_text_irreflexive, lemma_text_transitive, opt_view, text_lt};
use vstd::prelude::*;

verus! {

/// An account opens with what moved on it on or before the day.
pub proof fn law_an_account_opens_with_what_moved_by_the_day(
    rows: Seq<Movement>,
    m: Movement,
    id: i64,
    day: Seq<char>,
)
    ensures
        m.account_id == id && !text_lt(day, m.on@) ==> come_to(rows.push(m), id, day) == come_to(
            rows,
            id,
            day,
        ) + m.moved_minor,
        m.account_id != id || text_lt(day, m.on@) ==> come_to(rows.push(m), id, day) == come_to(
            rows,
            id,
            day,
        ),
        come_to(Seq::empty(), id, day) == 0,
{
    assert(rows.push(m).drop_last() =~= rows);
}

proof fn lemma_moved_by(rows: Seq<Movement>, day: Seq<char>, id: i64)
    ensures
        moved_by(rows, day).contains(id) <==> exists|i: int|
            0 <= i < rows.len() && (#[trigger] rows[i]).account_id == id && !text_lt(day, rows[i].on@),
    decreases rows.len(),
{
    if rows.len() > 0 {
        let rest = rows.drop_last();
        lemma_moved_by(rest, day, id);
        lemma_with_id(moved_by(rest, day), rows.last().account_id);
        assert(rows[rows.len() - 1] == rows.last());
        if exists|i: int|
            0 <= i < rest.len() && (#[trigger] rest[i]).account_id == id && !text_lt(day, rest[i].on@) {
            let i = choose|i: int|
                0 <= i < rest.len() && (#[trigger] rest[i]).account_id == id && !text_lt(
                    day,
                    rest[i].on@,
                );
            assert(rows[i] == rest[i]);
        }
        if exists|i: int|
            0 <= i < rows.len() && (#[trigger] rows[i]).account_id == id && !text_lt(day, rows[i].on@) {
            let i = choose|i: int|
                0 <= i < rows.len() && (#[trigger] rows[i]).account_id == id && !text_lt(
                    day,
                    rows[i].on@,
                );
            if i < rest.len() {
                assert(rest[i] == rows[i]);
            }
        }
    }
}

/// A snapshot opens exactly the accounts that moved on or before the day.
pub proof fn law_a_snapshot_opens_what_has_moved(s: Snapshot, b: BookRows, as_of: Date, id: i64)
    requires
        is_snapshot(s, b, as_of),
    ensures
        s.opening@.dom().contains(id) <==> exists|i: int|
            0 <= i < b.movements@.len() && (#[trigger] b.movements@[i]).account_id == id && !text_lt(
                iso(as_of.days as int),
                b.movements@[i].on@,
            ),
        s.opening@.dom().contains(id) ==> s.opening@[id] == come_to(
            b.movements@,
            id,
            iso(as_of.days as int),
        ),
{
    lemma_moved_by(b.movements@, iso(as_of.days as int), id);
}

/// A day on record is the day it reads as.
pub proof fn law_a_day_on_record_is_the_day_it_reads_as(t: String, n: int)
    requires
        read_day(t@, "%Y-%m-%d"@) == Some(n),
        i32::MIN <= n <= i32::MAX,
    ensures
        day_in(t@).days == n,
        opt_day_in(Some(t)) == Some(day_in(t@)),
        opt_day_in(None) is None,
{
}

/// Every series of the book is in the snapshot as it is on record, with the postings that name it.
pub proof fn law_a_series_is_loaded_as_it_is_on_record(
    s: Snapshot,
    b: BookRows,
    as_of: Date,
    i: int,
)
    requires
        is_snapshot(s, b, as_of),
        0 <= i < b.series@.len(),
    ensures
        s.series@.len() == b.series@.len(),
        ({
            let x = s.series@[i];
            let r = b.series@[i];
            &&& x.id == r.id
            &&& x.description@ == r.description@
            &&& x.rrule@ == r.rrule@
            &&& x.dtstart == day_in(r.dtstart@)
            &&& r.until_on matches Some(u) ==> x.until_on == Some(day_in(u@))
            &&& r.until_on is None ==> x.until_on is None
            &&& x.weekend_rule@ == r.weekend_rule@
            &&& x.scenario_id == r.scenario_id
            &&& x.supersedes_id == r.supersedes_id
            &&& x.chain_id == r.chain_id
            &&& x.chain_seq == r.chain_seq
            &&& x.postings@ == postings_for(b.postings@, r.id)
        }),
{
    assert(is_series(s.series@[i], b.series@[i], b.postings@));
}

/// A series has the postings that name it, as they are on record, and no others.
pub proof fn law_a_posting_belongs_to_the_series_it_names(
    rows: Seq<PostingRow>,
    p: PostingRow,
    id: i64,
)
    ensures
        p.series_id != id ==> postings_for(rows.push(p), id) == postings_for(rows, id),
        p.series_id == id ==> {
            let v = postings_for(rows.push(p), id);
            &&& v.len() == postings_for(rows, id).len() + 1
            &&& v.drop_last() == postings_for(rows, id)
            &&& v.last().account_id == p.account_id
            &&& v.last().currency@ == p.currency@
            &&& v.last().amount_minor == p.amount_minor
            &&& v.last().role@ == p.role@
        },
{
    assert(rows.push(p).drop_last() =~= rows);
    if p.series_id == id {
        assert(postings_for(rows.push(p), id).drop_last() =~= postings_for(rows, id));
    }
}

/// Every override and every payment rule of the book is in the snapshot as it is on record.
pub proof fn law_overrides_and_payment_rules_are_loaded_as_they_are_on_record(
    s: Snapshot,
    b: BookRows,
    as_of: Date,
    i: int,
    j: int,
)
    requires
        is_snapshot(s, b, as_of),
        0 <= i < b.overrides@.len(),
        0 <= j < b.payments@.len(),
    ensures
        s.overrides@.len() == b.overrides@.len(),
        s.payment_rules@.len() == b.payments@.len(),
        ({
            let o = s.overrides@[i];
            let r = b.overrides@[i];
            &&& o.series_id == r.series_id
            &&& o.occurrence_on == day_in(r.occurrence_on@)
            &&& o.change.action@ == r.action@
            &&& r.moved_to matches Some(t) ==> o.change.moved_to == Some(day_in(t@))
            &&& r.moved_to is None ==> o.change.moved_to is None
            &&& o.change.amount_minor == r.amount_minor
            &&& opt_view(o.change.description) == opt_view(r.description)
        }),
        ({
            let x = s.payment_rules@[j];
            let r = b.payments@[j];
            &&& x.id == r.id
            &&& x.account_id == r.account_id
            &&& x.from_account_id == r.from_account_id
            &&& x.amount_kind@ == r.amount_kind@
            &&& x.fixed_minor == r.fixed_minor
            &&& x.pct_e15 == r.pct_e15
            &&& x.floor_minor == r.floor_minor
            &&& x.cap_minor == r.cap_minor
            &&& x.level_payment_minor == r.level_payment_minor
            &&& x.rrule@ == r.rrule@
            &&& x.dtstart == day_in(r.dtstart@)
            &&& r.until_on matches Some(u) ==> x.until_on == Some(day_in(u@))
            &&& r.until_on is None ==> x.until_on is None
            &&& x.scenario_id == r.scenario_id
        }),
{
    assert(is_override(s.overrides@[i], b.overrides@[i]));
    assert(is_payment(s.payment_rules@[j], b.payments@[j]));
}

/// The slots that a snapshot takes as filled are those that the transactions of the book fill.
pub proof fn law_a_snapshot_takes_the_books_slots_as_filled(
    s: Snapshot,
    b: BookRows,
    as_of: Date,
    c: Slot,
)
    requires
        is_snapshot(s, b, as_of),
    ensures
        s.claimed@.contains(c) <==> exists|i: int|
            0 <= i < b.claims@.len() && (#[trigger] b.claims@[i]).series_id == Some(c.series_id)
                && b.claims@[i].occurrence_on is Some && day_in(b.claims@[i].occurrence_on->0@)
                == c.occurrence_on,
{
    law_a_slot_is_filled_where_a_transaction_claims_it(b.claims@, c);
}

/// A slot is filled exactly where a transaction says which series and which day it is for.
pub proof fn law_a_slot_is_filled_where_a_transaction_claims_it(rows: Seq<ClaimRow>, s: Slot)
    ensures
        slots_filled(rows).contains(s) <==> exists|i: int|
            0 <= i < rows.len() && (#[trigger] rows[i]).series_id == Some(s.series_id)
                && rows[i].occurrence_on is Some && day_in(rows[i].occurrence_on->0@) == s.occurrence_on,
    decreases rows.len(),
{
    if rows.len() > 0 {
        let rest = rows.drop_last();
        law_a_slot_is_filled_where_a_transaction_claims_it(rest, s);
        let r = rows.last();
        assert(rows[rows.len() - 1] == r);
        if r.series_id is Some && r.occurrence_on is Some {
            lemma_push_has(
                slots_filled(rest),
                Slot { series_id: r.series_id->0, occurrence_on: day_in(r.occurrence_on->0@) },
                s,
            );
        }
        if exists|i: int|
            0 <= i < rest.len() && (#[trigger] rest[i]).series_id == Some(s.series_id)
                && rest[i].occurrence_on is Some && day_in(rest[i].occurrence_on->0@)
                == s.occurrence_on {
            let i = choose|i: int|
                0 <= i < rest.len() && (#[trigger] rest[i]).series_id == Some(s.series_id)
                    && rest[i].occurrence_on is Some && day_in(rest[i].occurrence_on->0@)
                    == s.occurrence_on;
            assert(rows[i] == rest[i]);
        }
        if exists|i: int|
            0 <= i < rows.len() && (#[trigger] rows[i]).series_id == Some(s.series_id)
                && rows[i].occurrence_on is Some && day_in(rows[i].occurrence_on->0@)
                == s.occurrence_on {
            let i = choose|i: int|
                0 <= i < rows.len() && (#[trigger] rows[i]).series_id == Some(s.series_id)
                    && rows[i].occurrence_on is Some && day_in(rows[i].occurrence_on->0@)
                    == s.occurrence_on;
            if i < rest.len() {
                assert(rest[i] == rows[i]);
            }
        }
    }
}

/// Whether a rate of a rule holds on a day: from its first day on, and until the day before its last.
pub open spec fn is_in_force(p: RatePeriod, id: i64, day: Seq<char>) -> bool {
    p.rule_id == id && !text_lt(day, p.effective_from@) && (p.effective_to is None || text_lt(
        day,
        p.effective_to->0@,
    ))
}

/// The rate of a rule on a day is that of a period in force, and of those the one that started last.
pub proof fn law_a_rules_rate_is_of_the_latest_period_in_force(
    rates: Seq<RatePeriod>,
    id: i64,
    day: Seq<char>,
)
    ensures
        rate_on(rates, id, day) is None <==> forall|i: int|
            0 <= i < rates.len() ==> !is_in_force(#[trigger] rates[i], id, day),
        rate_on(rates, id, day) matches Some(v) ==> exists|k: int|
            #![trigger rates[k]]
            0 <= k < rates.len() && is_in_force(rates[k], id, day) && rates[k].periodic_rate_e15 == v
                && forall|i: int|
                0 <= i < rates.len() && is_in_force(#[trigger] rates[i], id, day) ==> !text_lt(
                    rates[k].effective_from@,
                    rates[i].effective_from@,
                ),
{
    lemma_rate_place(rates, id, day, rates.len() as int);
}

proof fn lemma_rate_place(rates: Seq<RatePeriod>, id: i64, day: Seq<char>, n: int)
    requires
        0 <= n <= rates.len(),
    ensures
        rate_place(rates, id, day, n) is None <==> forall|i: int|
            0 <= i < n ==> !is_in_force(#[trigger] rates[i], id, day),
        rate_place(rates, id, day, n) matches Some(k) ==> 0 <= k < n && is_in_force(rates[k], id, day)
            && forall|i: int|
            0 <= i < n && is_in_force(#[trigger] rates[i], id, day) ==> !text_lt(
                rates[k].effective_from@,
                rates[i].effective_from@,
            ),
    decreases n,
{
    if n > 0 {
        lemma_rate_place(rates, id, day, n - 1);
        let p = rates[n - 1];
        lemma_text_irreflexive(p.effective_from@);
        if rate_place(rates, id, day, n - 1) is Some {
            let k = rate_place(rates, id, day, n - 1)->0;
            assert forall|i: int|
                0 <= i < n - 1 && is_in_force(#[trigger] rates[i], id, day) && text_lt(
                    rates[k].effective_from@,
                    p.effective_from@,
                ) implies !text_lt(p.effective_from@, rates[i].effective_from@) by {
                if text_lt(p.effective_from@, rates[i].effective_from@) {
                    lemma_text_transitive(
                        rates[k].effective_from@,
                        p.effective_from@,
                        rates[i].effective_from@,
                    );
                }
            }
        }
    }
}

proof fn lemma_rated(rows: Seq<InterestRow>, rates: Seq<RatePeriod>, day: Seq<char>, n: int, k: int)
    requires
        0 <= n <= rows.len(),
    ensures
        rated(rows, rates, day, n).contains(k) <==> 0 <= k < n && rate_on(rates, rows[k].id, day) is Some,
    decreases n,
{
    if n > 0 {
        lemma_rated(rows, rates, day, n - 1, k);
        lemma_push_has(rated(rows, rates, day, n - 1), n - 1, k);
    }
}

/// Every interest rule that has a rate on the day is in the snapshot, as it is on record and with that
/// rate; and no other is.
pub proof fn law_an_interest_rule_is_loaded_with_the_rate_of_the_day(
    s: Snapshot,
    b: BookRows,
    as_of: Date,
    k: int,
)
    requires
        is_snapshot(s, b, as_of),
        0 <= k < b.interest@.len(),
    ensures
        rate_on(b.rates@, b.interest@[k].id, iso(as_of.days as int)) matches Some(rate) ==> exists|i: int|
            0 <= i < s.interest_rules@.len() && is_as_recorded(
                #[trigger] s.interest_rules@[i],
                b.interest@[k],
                rate,
            ),
        forall|i: int|
            0 <= i < s.interest_rules@.len() ==> exists|j: int|
                0 <= j < b.interest@.len() && (#[trigger] b.interest@[j]).id == (
                #[trigger] s.interest_rules@[i]).id && rate_on(
                    b.rates@,
                    b.interest@[j].id,
                    iso(as_of.days as int),
                ) == Some(s.interest_rules@[i].periodic_rate_e15),
{
    let day = iso(as_of.days as int);
    let at = rated(b.interest@, b.rates@, day, b.interest@.len() as int);
    lemma_rated(b.interest@, b.rates@, day, b.interest@.len() as int, k);
    if rate_on(b.rates@, b.interest@[k].id, day) is Some {
        let i = choose|i: int| 0 <= i < at.len() && at[i] == k;
        assert(is_interest(
            s.interest_rules@[i],
            b.interest@[at[i]],
            rate_on(b.rates@, b.interest@[at[i]].id, day)->0,
        ));
    }
    assert forall|i: int| 0 <= i < s.interest_rules@.len() implies exists|j: int|
        0 <= j < b.interest@.len() && (#[trigger] b.interest@[j]).id == (
        #[trigger] s.interest_rules@[i]).id && rate_on(b.rates@, b.interest@[j].id, day) == Some(
            s.interest_rules@[i].periodic_rate_e15,
        ) by {
        lemma_rated(b.interest@, b.rates@, day, b.interest@.len() as int, at[i]);
        assert(at.contains(at[i]));
        assert(is_interest(
            s.interest_rules@[i],
            b.interest@[at[i]],
            rate_on(b.rates@, b.interest@[at[i]].id, day)->0,
        ));
        assert(b.interest@[at[i]].id == s.interest_rules@[i].id);
    }
}

/// Whether an interest rule is as it is on record, with a rate.
pub open spec fn is_as_recorded(x: InterestRule, r: InterestRow, rate: i64) -> bool {
    &&& x.id == r.id
    &&& x.account_id == r.account_id
    &&& x.counter_account_id == r.counter_account_id
    &&& x.shape@ == r.shape@
    &&& x.accrues_on@ == r.accrues_on@
    &&& x.accrual_freq@ == r.accrual_freq@
    &&& x.capitalise_rrule@ == r.capitalise_rrule@
    &&& x.capitalise_dtstart == day_in(r.capitalise_dtstart@)
    &&& x.periodic_rate_e15 == rate
    &&& x.grace_period == r.grace_period
    &&& x.scenario_id == r.scenario_id
}

/// An account is called, and holds the currency, that the last row with its id says.
pub proof fn law_an_account_is_called_what_its_row_says(rows: Seq<Account>, i: int)
    requires
        0 <= i < rows.len(),
        forall|j: int| i < j < rows.len() ==> (#[trigger] rows[j]).id != rows[i].id,
    ensures
        names_by_id(rows, false).dom().contains(rows[i].id),
        names_by_id(rows, false)[rows[i].id]@ == rows[i].name@,
        names_by_id(rows, true).dom().contains(rows[i].id),
        names_by_id(rows, true)[rows[i].id]@ == rows[i].currency@,
    decreases rows.len(),
{
    if i < rows.len() - 1 {
        let rest = rows.drop_last();
        assert(rows[rows.len() - 1].id != rows[i].id);
        assert(rest[i] == rows[i]);
        assert forall|j: int| i < j < rest.len() implies (#[trigger] rest[j]).id != rest[i].id by {
            assert(rest[j] == rows[j]);
        }
        law_an_account_is_called_what_its_row_says(rest, i);
    }
}

/// The holidays are the days on record.
pub proof fn law_holidays_are_the_days_on_record(s: Snapshot, b: BookRows, as_of: Date, i: int)
    requires
        is_snapshot(s, b, as_of),
        0 <= i < b.holidays@.len(),
    ensures
        s.holidays@.len() == b.holidays@.len(),
        s.holidays@[i] == day_in(b.holidays@[i]@),
{
}

/// Of a rule alone its own series, overrides and claims are projected: those that name one of its
/// rows. It starts from nothing, with the book's accounts and holidays and without its interest.
pub proof fn law_a_rule_alone_is_its_own_rows(
    sub: Snapshot,
    snap: Snapshot,
    ids: Seq<i64>,
    o: SlotOverride,
    c: Slot,
)
    requires
        is_sub(sub, snap, ids),
    ensures
        sub.overrides@.contains(o) <==> snap.overrides@.contains(o) && ids.contains(o.series_id),
        sub.claimed@.contains(c) <==> snap.claimed@.contains(c) && ids.contains(c.series_id),
        sub.interest_rules@.len() == 0,
        sub.payment_rules@.len() == 0,
        sub.opening@.dom().len() == 0,
        sub.holidays@ == snap.holidays@,
        sub.account_name@ == snap.account_name@,
        sub.account_currency@ == snap.account_currency@,
{
    lemma_overrides_of(snap.overrides@, ids, o);
    lemma_slots_of(snap.claimed@, ids, c);
}

proof fn lemma_overrides_of(all: Seq<SlotOverride>, ids: Seq<i64>, o: SlotOverride)
    ensures
        overrides_of(all, ids).contains(o) <==> all.contains(o) && ids.contains(o.series_id),
    decreases all.len(),
{
    if all.len() > 0 {
        let rest = all.drop_last();
        lemma_overrides_of(rest, ids, o);
        lemma_push_has(rest, all.last(), o);
        lemma_push_has(overrides_of(rest, ids), all.last(), o);
        assert(rest.push(all.last()) =~= all);
    }
}

proof fn lemma_slots_of(all: Seq<Slot>, ids: Seq<i64>, c: Slot)
    ensures
        slots_of(all, ids).contains(c) <==> all.contains(c) && ids.contains(c.series_id),
    decreases all.len(),
{
    if all.len() > 0 {
        let rest = all.drop_last();
        lemma_slots_of(rest, ids, c);
        lemma_push_has(rest, all.last(), c);
        lemma_push_has(slots_of(rest, ids), all.last(), c);
        assert(rest.push(all.last()) =~= all);
    }
}

/// A series is projected alone as the book has it.
pub proof fn law_a_series_alone_is_as_the_book_has_it(
    sub: Snapshot,
    snap: Snapshot,
    ids: Seq<i64>,
    i: int,
)
    requires
        is_sub(sub, snap, ids),
        0 <= i < sub.series@.len(),
    ensures
        ({
            let x = sub.series@[i];
            let s = series_of(snap.series@, ids)[i];
            &&& x.id == s.id
            &&& x.description == s.description
            &&& x.rrule == s.rrule
            &&& x.dtstart == s.dtstart
            &&& x.until_on == s.until_on
            &&& x.weekend_rule == s.weekend_rule
            &&& x.scenario_id == s.scenario_id
            &&& x.supersedes_id == s.supersedes_id
            &&& x.chain_id == s.chain_id
            &&& x.chain_seq == s.chain_seq
            &&& x.postings@ == s.postings@
        }),
        sub.series@.len() == series_of(snap.series@, ids).len(),
{
}

/// Every series of the rule is projected, in the order of the book.
pub proof fn law_every_series_of_a_rule_is_projected(all: Seq<Series>, s: Series, ids: Seq<i64>)
    ensures
        ids.contains(s.id) ==> series_of(all.push(s), ids) == series_of(all, ids).push(s),
        !ids.contains(s.id) ==> series_of(all.push(s), ids) == series_of(all, ids),
        series_of(Seq::empty(), ids).len() == 0,
{
    assert(all.push(s).drop_last() =~= all);
}

/// A rule of a what-if is projected with that what-if in play and no other, one of the book with none.
pub proof fn law_a_rule_is_projected_in_its_own_what_if(scenario: Option<i64>, s: i64)
    ensures
        in_play(scenario).contains(s) <==> scenario == Some(s),
{
}

} // verus!
