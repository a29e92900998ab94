//! Which exchange rate applies, and what an amount is worth by it.

use crate::book::LegView;
use crate::fx::{
    conversion_views, convert_ok, converted, currency_place, digits_in, in_force,
    law_the_latest_rate_on_or_before_is_in_force, others, pair_rate, rate_of, resolution, row_from,
    valued, worth, Currency, Holding, Rate, RateRow, RateView, Resolved,
};
use crate::digits::pow10;
use crate::lists::lemma_push_has;
use crate::money::{law_rounding_is_nearest, Minor};
use crate::text::text_lt;
use vstd::prelude::*;

verus! {

/// Whether a rate was known for a pair on a day.
pub open spec fn is_known(r: RateRow, base: Seq<char>, quote: Seq<char>, on: Seq<char>) -> bool {
    r.base@ == base && r.quote@ == quote && !text_lt(on, r.as_of@)
}

proof fn lemma_sources()
    ensures
        "manual"@ != "boe"@,
{
    reveal_strlit("manual");
    reveal_strlit("boe");
    assert("manual"@.len() == 6 && "boe"@.len() == 3);
}

/// The rate in force on a day is one known by then; no other known by then is later; and of the same
/// day one set by hand comes before the central bank's, and that before any other.
pub proof fn law_the_rate_in_force_is_the_latest_and_most_trusted(
    rows: Seq<RateRow>,
    base: Seq<char>,
    quote: Seq<char>,
    on: Seq<char>,
    i: int,
)
    requires
        0 <= i < rows.len(),
        is_known(rows[i], base, quote, on),
    ensures
        in_force(rows, base, quote, on) matches Some(b) && is_known(b, base, quote, on) && !text_lt(
            b.as_of@,
            rows[i].as_of@,
        ) && (rows[i].as_of@ == b.as_of@ && rows[i].source@ == "manual"@ ==> b.source@ == "manual"@) && (
        rows[i].as_of@ == b.as_of@ && rows[i].source@ == "boe"@ ==> b.source@ == "manual"@ || b.source@
            == "boe"@),
{
    lemma_sources();
    law_the_latest_rate_on_or_before_is_in_force(rows, base, quote, on);
    assert(crate::fx::applies(rows[i], base, quote, on));
}

/// Without a rate known by then none is in force.
pub proof fn law_no_rate_is_made_up(
    rows: Seq<RateRow>,
    base: Seq<char>,
    quote: Seq<char>,
    on: Seq<char>,
)
    requires
        forall|i: int| 0 <= i < rows.len() ==> !is_known(#[trigger] rows[i], base, quote, on),
    ensures
        in_force(rows, base, quote, on) is None,
{
    law_the_latest_rate_on_or_before_is_in_force(rows, base, quote, on);
    if in_force(rows, base, quote, on) is Some {
        lemma_in_force_from(rows, base, quote, on);
    }
}

proof fn lemma_in_force_from(rows: Seq<RateRow>, base: Seq<char>, quote: Seq<char>, on: Seq<char>)
    ensures
        in_force(rows, base, quote, on) matches Some(b) ==> exists|i: int|
            0 <= i < rows.len() && #[trigger] rows[i] == b && is_known(b, base, quote, on),
    decreases rows.len(),
{
    if rows.len() > 0 {
        let rest = rows.drop_last();
        lemma_in_force_from(rest, base, quote, on);
        if in_force(rest, base, quote, on) is Some {
            let b = in_force(rest, base, quote, on)->0;
            let i = choose|i: int| 0 <= i < rest.len() && #[trigger] rest[i] == b;
            assert(rows[i] == b);
        }
        assert(rows[rows.len() - 1] == rows.last());
    }
}

/// The rate of a pair is the one in force for it, else the inverse of the one the other way round.
pub proof fn law_a_pairs_rate_is_its_own_or_the_inverse(
    rows: Seq<RateRow>,
    base: Seq<char>,
    quote: Seq<char>,
    on: Seq<char>,
)
    ensures
        in_force(rows, base, quote, on) matches Some(r) ==> (pair_rate(rows, base, quote, on) matches Some(
            v,
        ) && v.num == r.rate.num && v.den == r.rate.den && v.as_of == r.as_of@),
        in_force(rows, base, quote, on) is None ==> (in_force(rows, quote, base, on) matches Some(r)
            ==> (pair_rate(rows, base, quote, on) matches Some(v) && v.num == r.rate.den && v.den
            == r.rate.num && v.as_of == r.as_of@)),
        pair_rate(rows, base, quote, on) is None <==> in_force(rows, base, quote, on) is None && in_force(
            rows,
            quote,
            base,
            on,
        ) is None,
{
}

/// A currency is worth itself; a pair goes by its own rate; and where it has none, through the
/// display currency: so many of the quote to one of the base as the two rates give, as old as the
/// older of them.
pub proof fn law_a_rate_goes_direct_or_through_the_display_currency(
    rows: Seq<RateRow>,
    display: Seq<char>,
    base: Seq<char>,
    quote: Seq<char>,
    on: Seq<char>,
)
    ensures
        base == quote ==> resolution(rows, display, base, quote, on) == Resolved::Rate(
            RateView { num: 1, den: 1, as_of: on },
        ),
        base != quote ==> (pair_rate(rows, base, quote, on) matches Some(v) ==> resolution(
            rows,
            display,
            base,
            quote,
            on,
        ) == Resolved::Rate(v)),
        base != quote && pair_rate(rows, base, quote, on) is None && base != display && quote != display
            && pair_rate(rows, display, quote, on) is Some && pair_rate(rows, display, base, on) is Some
            ==> {
            let q = pair_rate(rows, display, quote, on)->0;
            let b = pair_rate(rows, display, base, on)->0;
            &&& !(resolution(rows, display, base, quote, on) is Missing)
            &&& resolution(rows, display, base, quote, on) matches Resolved::Rate(v) ==> v.num == q.num
                * b.den && v.den == q.den * b.num && !text_lt(q.as_of, v.as_of) && !text_lt(
                b.as_of,
                v.as_of,
            ) && (v.as_of == q.as_of || v.as_of == b.as_of)
        },
        base != quote && pair_rate(rows, base, quote, on) is None && (base == display || quote == display)
            ==> resolution(rows, display, base, quote, on) == Resolved::Missing(base, quote),
{
    if pair_rate(rows, display, quote, on) is Some && pair_rate(rows, display, base, on) is Some {
        let q = pair_rate(rows, display, quote, on)->0;
        let b = pair_rate(rows, display, base, on)->0;
        crate::text::lemma_text_irreflexive(q.as_of);
        crate::text::lemma_text_irreflexive(b.as_of);
        if text_lt(q.as_of, b.as_of) && text_lt(b.as_of, q.as_of) {
            crate::text::lemma_text_transitive(q.as_of, b.as_of, q.as_of);
        }
    }
}

/// An amount converted is the amount at the rate, moved from the one currency's places to the other's,
/// to the nearest.
pub proof fn law_a_converted_amount_is_the_nearest(
    amount: int,
    rate: Rate,
    from_digits: int,
    to_digits: int,
)
    requires
        rate.den > 0,
        from_digits >= 0,
        to_digits >= 0,
    ensures
        ({
            let exact = amount * rate.num * pow10(to_digits as nat);
            let unit = rate.den * pow10(from_digits as nat);
            -unit <= 2 * (exact - unit * converted(amount, rate, from_digits, to_digits)) <= unit
        }),
{
    crate::digits::lemma_pow10(from_digits as nat);
    let unit = rate.den * pow10(from_digits as nat);
    assert(unit > 0) by (nonlinear_arith)
        requires
            unit == rate.den * pow10(from_digits as nat),
            rate.den > 0,
            pow10(from_digits as nat) > 0,
    ;
    law_rounding_is_nearest(amount * rate.num * pow10(to_digits as nat), unit);
}

/// A currency's places are those of the first one with its code.
pub proof fn law_a_currencys_places_are_its_own(currencies: Seq<Currency>, code: Seq<char>, i: int)
    requires
        0 <= i <= currencies.len(),
        forall|j: int| 0 <= j < i ==> (#[trigger] currencies[j]).code@ != code,
        i < currencies.len() ==> currencies[i].code@ == code,
    ensures
        i < currencies.len() ==> digits_in(currencies, code) == Some(currencies[i].minor_digits as int),
        i == currencies.len() ==> digits_in(currencies, code) is None,
{
    lemma_currency_place(currencies, code, i);
}

proof fn lemma_currency_place(currencies: Seq<Currency>, code: Seq<char>, i: int)
    requires
        0 <= i <= currencies.len(),
        forall|j: int| 0 <= j < i ==> (#[trigger] currencies[j]).code@ != code,
        i < currencies.len() ==> currencies[i].code@ == code,
    ensures
        currency_place(currencies, code) == i,
    decreases currencies.len(),
{
    if i > 0 {
        let rest = currencies.drop_first();
        assert(currencies[0].code@ != code);
        assert forall|j: int| 0 <= j < i - 1 implies (#[trigger] rest[j]).code@ != code by {
            assert(currencies[j + 1] == rest[j]);
        }
        lemma_currency_place(rest, code, i - 1);
    }
}

/// A conversion that is carried out uses the rate for its pair and day, and says which and how old.
pub proof fn law_a_conversion_uses_the_rate_of_its_day(
    p: (Minor, Rate, String),
    rows: Seq<RateRow>,
    currencies: Seq<Currency>,
    display: Seq<char>,
    amount: int,
    from: Seq<char>,
    to: Seq<char>,
    on: Seq<char>,
)
    requires
        convert_ok(Ok(p), rows, currencies, display, amount, from, to, on),
    ensures
        resolution(rows, display, from, to, on) matches Resolved::Rate(v) && p.2@ == v.as_of && p.1
            == rate_of(v) && digits_in(currencies, from) is Some && digits_in(currencies, to) is Some && p.0
            == converted(amount, p.1, digits_in(currencies, from)->0, digits_in(currencies, to)->0),
{
}

/// What is held in the display currency is worth itself; anything else what it converts to; and all
/// of it together the sum.
pub proof fn law_a_holding_is_worth_what_it_converts_to(
    h: Holding,
    leg: Holding,
    rows: Seq<RateRow>,
    currencies: Seq<Currency>,
    display: Seq<char>,
    on: Seq<char>,
    legs: Seq<Holding>,
)
    requires
        valued(h, leg, rows, currencies, display, on),
    ensures
        h.currency@ == leg.currency@,
        h.amount_minor == leg.amount_minor,
        leg.currency@ == display ==> h.valued_minor == leg.amount_minor,
        leg.currency@ != display ==> exists|p: (Minor, Rate, String)|
            p.0 == h.valued_minor && #[trigger] convert_ok(
                Ok(p),
                rows,
                currencies,
                display,
                leg.amount_minor as int,
                leg.currency@,
                display,
                on,
            ),
        worth(legs.push(h)) == worth(legs) + h.valued_minor,
        worth(Seq::empty()) == 0,
{
    assert(legs.push(h).drop_last() =~= legs);
}

/// A conversion takes what left out of the one account and brings what arrived to the other, and puts
/// the opposite of each on the trading account of its currency.
pub proof fn law_a_conversion_goes_through_the_trading_accounts(
    from_account: i64,
    from_cur: Seq<char>,
    from_minor: int,
    from_trading: i64,
    to_account: i64,
    to_cur: Seq<char>,
    to_minor: int,
    to_trading: i64,
)
    ensures
        ({
            let l = conversion_views(
                from_account,
                from_cur,
                from_minor,
                from_trading,
                to_account,
                to_cur,
                to_minor,
                to_trading,
            );
            &&& l.contains(
                (LegView { account_id: from_account, currency: from_cur, amount_minor: -from_minor }),
            )
            &&& l.contains(
                (LegView { account_id: from_trading, currency: from_cur, amount_minor: from_minor }),
            )
            &&& l.contains((LegView { account_id: to_account, currency: to_cur, amount_minor: to_minor }))
            &&& l.contains(
                (LegView { account_id: to_trading, currency: to_cur, amount_minor: -to_minor }),
            )
            &&& l.len() == 4
        }),
{
    let l = conversion_views(
        from_account,
        from_cur,
        from_minor,
        from_trading,
        to_account,
        to_cur,
        to_minor,
        to_trading,
    );
    assert(l[0].amount_minor == -from_minor && l[1].amount_minor == from_minor && l[2].amount_minor
        == to_minor && l[3].amount_minor == -to_minor);
}

/// The currencies to ask rates for are all but the one they are asked against.
pub proof fn law_rates_are_asked_for_every_other_currency(
    codes: Seq<Seq<char>>,
    base: Seq<char>,
    c: Seq<char>,
)
    ensures
        others(codes, base).contains(c) <==> codes.contains(c) && c != base,
    decreases codes.len(),
{
    if codes.len() > 0 {
        let rest = codes.drop_last();
        law_rates_are_asked_for_every_other_currency(rest, base, c);
        lemma_push_has(rest, codes.last(), c);
        lemma_push_has(others(rest, base), codes.last(), c);
        assert(rest.push(codes.last()) =~= codes);
    }
}

/// A published rate is stored under the pair and the day it is reported for, as published.
pub proof fn law_a_published_rate_is_stored_as_reported(
    row: RateRow,
    entry: (Seq<char>, Seq<char>),
    base: Seq<char>,
    reported: Seq<char>,
)
    requires
        row_from(row, entry, base, reported),
    ensures
        row.base@ == base,
        row.quote@ == entry.0,
        row.as_of@ == reported,
        row.source@ == "ecb"@,
        row.rate.num > 0,
{
}

} // verus!
