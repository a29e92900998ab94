//! How days move off the weekend, how rules and amounts are put into words, and what interest and
//! payments come to.

use crate::date::{civil, Date, MAX_DAYS, MIN_DAYS};
use crate::db::{migrate, DbError};
use crate::digits::int_digits;
use crate::interest::{
    accrue, allocate, derive_level_payment, derive_periodic_rate, Amortised, InterestError,
    RATE_SCALE,
};
use crate::money::{law_rounding_is_nearest, Minor};
use crate::recur::{
    adjusted, blocked, day_name, day_names, next_day, ordinal, phrase, previous_day, walk,
    weekday_code, with_part, PartsView, MONTHS,
};
use crate::text::{cut, is_white, joined, lemma_trimmed_id, text_lt, trimmed};
use crate::wording::in_words;
use vstd::prelude::*;

verus! {

/// Whether money does not move on a day: a Saturday, a Sunday or a holiday, the first day of all
/// being a Monday.
pub open spec fn is_day_off(n: int, holidays: Seq<Date>) -> bool {
    n % 7 == 6 || n % 7 == 0 || exists|i: int|
        0 <= i < holidays.len() && (#[trigger] holidays[i]).days == n
}

proof fn lemma_day_off(n: int, holidays: Seq<Date>)
    ensures
        blocked(n, holidays) <==> is_day_off(n, holidays),
{
}

proof fn lemma_walk(d: Date, forward: bool, holidays: Seq<Date>, steps: nat)
    requires
        MIN_DAYS + steps <= d.days <= MAX_DAYS - steps,
        steps > 0,
    ensures
        ({
            let r = walk(d, forward, holidays, steps);
            if forward {
                &&& d.days < r.days <= d.days + steps
                &&& forall|n: int| d.days < n < r.days ==> #[trigger] is_day_off(n, holidays)
                &&& !is_day_off(r.days as int, holidays) || r.days == d.days + steps
            } else {
                &&& d.days - steps <= r.days < d.days
                &&& forall|n: int| r.days < n < d.days ==> #[trigger] is_day_off(n, holidays)
                &&& !is_day_off(r.days as int, holidays) || r.days == d.days - steps
            }
        }),
    decreases steps,
{
    let c = if forward {
        next_day(d)
    } else {
        previous_day(d)
    };
    lemma_day_off(c.days as int, holidays);
    if blocked(c.days as int, holidays) {
        if steps > 1 {
            lemma_walk(c, forward, holidays, (steps - 1) as nat);
            let r = walk(c, forward, holidays, (steps - 1) as nat);
            assert(walk(d, forward, holidays, steps) == r);
            assert forall|n: int|
                (forward && d.days < n < r.days) || (!forward && r.days < n
                    < d.days) implies #[trigger] is_day_off(n, holidays) by {
                if n == c.days {
                }
            }
        } else {
            assert(walk(c, forward, holidays, 0) == c);
        }
    }
}

/// A payment on a day off moves, by the rule "after", to the next day that is not one, and by
/// "before" to the last that was not, within ten days; by "modified_after" it goes ahead unless that
/// would leave the month, and back where it would; by any other rule it stays, and so does every
/// payment on a day that is not one.
pub proof fn law_a_payment_moves_off_its_day_off(d: Date, rule: Seq<char>, holidays: Seq<Date>)
    requires
        MIN_DAYS + 10 <= d.days <= MAX_DAYS - 10,
    ensures
        ({
            let r = adjusted(d, rule, holidays);
            let ahead = adjusted(d, "after"@, holidays);
            let back = adjusted(d, "before"@, holidays);
            &&& !is_day_off(d.days as int, holidays) ==> r == d
            &&& rule == "none"@ ==> r == d
            &&& rule != "before"@ && rule != "after"@ && rule != "modified_after"@ ==> r == d
            &&& is_day_off(d.days as int, holidays) && rule == "after"@ ==> {
                &&& d.days < r.days
                &&& forall|n: int| d.days < n < r.days ==> #[trigger] is_day_off(n, holidays)
                &&& !is_day_off(r.days as int, holidays) || r.days == d.days + 10
            }
            &&& is_day_off(d.days as int, holidays) && rule == "before"@ ==> {
                &&& r.days < d.days
                &&& forall|n: int| r.days < n < d.days ==> #[trigger] is_day_off(n, holidays)
                &&& !is_day_off(r.days as int, holidays) || r.days == d.days - 10
            }
            &&& rule == "modified_after"@ && civil(ahead.days as int).1 == civil(d.days as int).1 ==> r
                == ahead
            &&& rule == "modified_after"@ && civil(ahead.days as int).1 != civil(d.days as int).1 ==> r
                == back
        }),
{
    reveal_strlit("none");
    reveal_strlit("after");
    reveal_strlit("before");
    reveal_strlit("modified_after");
    assert("none"@.len() == 4 && "after"@.len() == 5 && "before"@.len() == 6 && "modified_after"@.len()
        == 14);
    lemma_day_off(d.days as int, holidays);
    lemma_walk(d, true, holidays, 10);
    lemma_walk(d, false, holidays, 10);
}

/// A text stands before another where it is the shorter beginning of it, or where at the first place
/// they differ its character is the lower.
pub proof fn law_texts_stand_by_their_first_difference(a: Seq<char>, b: Seq<char>, k: int)
    requires
        0 <= k <= a.len(),
        k <= b.len(),
        forall|i: int| 0 <= i < k ==> a[i] == b[i],
    ensures
        k == a.len() && k < b.len() ==> text_lt(a, b),
        k == b.len() ==> !text_lt(a, b),
        k < a.len() && k < b.len() && a[k] != b[k] ==> (text_lt(a, b) <==> (a[k] as int) < (b[k] as int)),
    decreases k,
{
    if k > 0 {
        let (x, y) = (a.drop_first(), b.drop_first());
        assert forall|i: int| 0 <= i < k - 1 implies x[i] == y[i] by {
            assert(a[i + 1] == b[i + 1]);
        }
        assert(a[0] == b[0]);
        law_texts_stand_by_their_first_difference(x, y, k - 1);
    }
}

/// Texts joined stand one after the other with the separator between each two.
pub proof fn law_joined_texts_stand_one_after_the_other(
    parts: Seq<Seq<char>>,
    p: Seq<char>,
    sep: Seq<char>,
)
    ensures
        joined(Seq::empty(), sep).len() == 0,
        parts.len() == 0 ==> joined(parts.push(p), sep) == p,
        parts.len() > 0 ==> joined(parts.push(p), sep) == joined(parts, sep) + sep + p,
{
    assert(parts.push(p).drop_last() =~= parts);
}

/// Things are listed with commas between them and "and" before the last.
pub proof fn law_things_are_listed_with_and_before_the_last(items: Seq<Seq<char>>, x: Seq<char>)
    ensures
        items.len() == 0 ==> in_words(items.push(x)) == x,
        items.len() > 0 ==> in_words(items.push(x)) == joined(items, ", "@) + " and "@ + x,
        in_words(Seq::empty()).len() == 0,
{
    assert(items.push(x).drop_last() =~= items);
}

/// A part of a rule sets what its key names and nothing else; one without a key, or with a key that
/// is not known, is not understood.
pub proof fn law_a_part_of_a_rule_sets_what_it_names(
    v: PartsView,
    part: Seq<char>,
    k: Seq<char>,
    val: Seq<char>,
)
    requires
        trimmed(part).len() > 0,
        cut(part, '=') == Some((k, val)),
    ensures
        trimmed(k) == "FREQ"@ ==> with_part(v, part) == Some(
            PartsView { freq: Some(trimmed(val)), ..v },
        ),
        trimmed(k) == "BYDAY"@ ==> with_part(v, part) == Some(
            PartsView { byday: Some(trimmed(val)), ..v },
        ),
        trimmed(k) == "BYMONTHDAY"@ ==> with_part(v, part) == Some(
            PartsView { bymonthday: Some(trimmed(val)), ..v },
        ),
        trimmed(k) == "BYSETPOS"@ ==> with_part(v, part) == Some(
            PartsView { bysetpos: Some(trimmed(val)), ..v },
        ),
        trimmed(k) == "BYMONTH"@ ==> with_part(v, part) == Some(
            PartsView { bymonth: Some(trimmed(val)), ..v },
        ),
        trimmed(k) == "WKST"@ ==> with_part(v, part) == Some(v),
        trimmed(k) == "INTERVAL"@ ==> (with_part(v, part) matches Some(w) ==> w.interval >= 1 && w == (
        PartsView { interval: w.interval, ..v })),
        trimmed(k) == "COUNT"@ || trimmed(k) == "UNTIL"@ ==> with_part(v, part) is None,
{
    reveal_strlit("FREQ");
    reveal_strlit("INTERVAL");
    reveal_strlit("BYDAY");
    reveal_strlit("BYMONTHDAY");
    reveal_strlit("BYSETPOS");
    reveal_strlit("BYMONTH");
    reveal_strlit("WKST");
    reveal_strlit("COUNT");
    reveal_strlit("UNTIL");
    assert("FREQ"@.len() == 4 && "INTERVAL"@.len() == 8 && "BYDAY"@.len() == 5 && "BYMONTHDAY"@.len()
        == 10 && "BYSETPOS"@.len() == 8 && "BYMONTH"@.len() == 7 && "WKST"@.len() == 4 && "COUNT"@.len()
        == 5 && "UNTIL"@.len() == 5);
    assert("FREQ"@[0] == 'F' && "WKST"@[0] == 'W');
    assert("INTERVAL"@[0] == 'I' && "BYSETPOS"@[0] == 'B');
    assert("BYDAY"@[0] == 'B' && "COUNT"@[0] == 'C' && "UNTIL"@[0] == 'U');
}

/// A number is followed by "st", "nd" or "rd" by its last digit, and by "th" otherwise and where it
/// ends in eleven, twelve or thirteen.
pub proof fn law_a_number_has_the_ending_it_is_spoken_with(n: int)
    requires
        n >= 0,
    ensures
        n % 10 == 1 && n % 100 != 11 ==> ordinal(n) == int_digits(n) + "st"@,
        n % 10 == 2 && n % 100 != 12 ==> ordinal(n) == int_digits(n) + "nd"@,
        n % 10 == 3 && n % 100 != 13 ==> ordinal(n) == int_digits(n) + "rd"@,
        n % 10 == 0 || n % 10 >= 4 || 11 <= n % 100 <= 13 ==> ordinal(n) == int_digits(n) + "th"@,
{
}

/// The weekday of a day is named by counting on from a Monday.
pub proof fn law_weekdays_are_named_from_monday(d: Date)
    ensures
        d.days % 7 == 1 ==> day_name(weekday_code(d)) == Some("Monday"@),
        d.days % 7 == 2 ==> day_name(weekday_code(d)) == Some("Tuesday"@),
        d.days % 7 == 3 ==> day_name(weekday_code(d)) == Some("Wednesday"@),
        d.days % 7 == 4 ==> day_name(weekday_code(d)) == Some("Thursday"@),
        d.days % 7 == 5 ==> day_name(weekday_code(d)) == Some("Friday"@),
        d.days % 7 == 6 ==> day_name(weekday_code(d)) == Some("Saturday"@),
        d.days % 7 == 0 ==> day_name(weekday_code(d)) == Some("Sunday"@),
{
    reveal_strlit("MO");
    reveal_strlit("TU");
    reveal_strlit("WE");
    reveal_strlit("TH");
    reveal_strlit("FR");
    reveal_strlit("SA");
    reveal_strlit("SU");
    assert("MO"@[0] == 'M' && "TU"@[0] == 'T' && "TU"@[1] == 'U' && "WE"@[0] == 'W' && "TH"@[0] == 'T'
        && "TH"@[1] == 'H' && "FR"@[0] == 'F' && "SA"@[0] == 'S' && "SA"@[1] == 'A' && "SU"@[0] == 'S'
        && "SU"@[1] == 'U');
}

proof fn lemma_code_is_bare(d: Date)
    ensures
        trimmed(weekday_code(d)) == weekday_code(d),
{
    reveal_strlit("MO");
    reveal_strlit("TU");
    reveal_strlit("WE");
    reveal_strlit("TH");
    reveal_strlit("FR");
    reveal_strlit("SA");
    reveal_strlit("SU");
    lemma_trimmed_id("MO"@);
    lemma_trimmed_id("TU"@);
    lemma_trimmed_id("WE"@);
    lemma_trimmed_id("TH"@);
    lemma_trimmed_id("FR"@);
    lemma_trimmed_id("SA"@);
    lemma_trimmed_id("SU"@);
}

/// Trimming takes white space off both ends and nothing else.
pub proof fn law_trimming_takes_white_space_off_the_ends(s: Seq<char>, c: char)
    ensures
        is_white(c) ==> trimmed(seq![c] + s) == trimmed(s),
        is_white(c) ==> trimmed(s.push(c)) == trimmed(s),
        !is_white(c) ==> trimmed((seq![c] + s).push(c)) == (seq![c] + s).push(c),
    decreases s.len(),
{
    assert((seq![c] + s).drop_first() =~= s);
    if !is_white(c) {
        lemma_trimmed_id((seq![c] + s).push(c));
    }
    if is_white(c) {
        let t = s.push(c);
        if s.len() == 0 {
            assert(t.drop_first() =~= Seq::<char>::empty());
            assert(s =~= Seq::<char>::empty());
        } else if is_white(s[0]) {
            law_trimming_takes_white_space_off_the_ends(s.drop_first(), c);
            assert(t.drop_first() =~= s.drop_first().push(c));
        } else {
            assert(t.drop_last() =~= s);
        }
    }
}

/// A plain rule is put into words by how often it falls and on which day it starts.
pub proof fn law_a_plain_rule_is_said_by_its_start(v: PartsView, dtstart: Date, name: Seq<char>)
    requires
        v.byday is None,
        v.bymonthday is None,
        v.bysetpos is None,
        v.bymonth is None,
        v.interval == 1,
        day_name(weekday_code(dtstart)) == Some(name),
    ensures
        v.freq == Some("DAILY"@) ==> phrase(v, dtstart) == Some("daily"@),
        v.freq == Some("WEEKLY"@) ==> phrase(v, dtstart) == Some("weekly"@ + " on "@ + name),
        v.freq == Some("MONTHLY"@) && civil(dtstart.days as int).2 < 29 ==> phrase(v, dtstart) == Some(
            "monthly"@ + " on "@ + ("the "@ + ordinal(civil(dtstart.days as int).2) + ""@),
        ),
        v.freq == Some("MONTHLY"@) && civil(dtstart.days as int).2 >= 29 ==> phrase(v, dtstart) == Some(
            "monthly"@ + " on "@ + ("the "@ + ordinal(civil(dtstart.days as int).2)
                + " (skips months without one)"@),
        ),
{
    reveal_strlit("DAILY");
    reveal_strlit("WEEKLY");
    reveal_strlit("MONTHLY");
    assert("DAILY"@.len() == 5 && "WEEKLY"@.len() == 6 && "MONTHLY"@.len() == 7);
    let codes = seq![weekday_code(dtstart)];
    lemma_code_is_bare(dtstart);
    assert(codes.drop_last() =~= Seq::empty());
    assert(day_names(Seq::<Seq<char>>::empty()) == Some(Seq::<Seq<char>>::empty()));
    let names = Seq::<Seq<char>>::empty().push(name);
    assert(day_names(codes) == Some(names));
    assert(names.drop_last() =~= Seq::empty());
    assert(joined(names, ", "@) == name);
    let days = seq![civil(dtstart.days as int).2];
    assert(days[0] == civil(dtstart.days as int).2);
}

/// A payment goes to the interest due first, and only what is left of it to what is owed; it is never
/// more than itself.
pub proof fn law_interest_is_paid_first(payment: Minor, due: Minor, r: (Minor, Minor))
    requires
        call_ensures(allocate, (payment, due), r),
    ensures
        r.0 + r.1 == payment,
        payment >= 0 && due >= 0 ==> 0 <= r.0 <= due && 0 <= r.1 && (r.0 == due || r.1 == 0),
        payment < 0 || due < 0 ==> r.0 == 0,
{
}

/// A nominal rate is shared out over the periods of a year to the nearest; an effective one is what
/// compounds to it; and no other basis is known.
pub proof fn law_a_rate_is_quoted_on_a_basis(
    quoted: i64,
    basis: &str,
    periods: i64,
    root: Option<i64>,
    r: Result<i64, InterestError>,
)
    requires
        call_ensures(derive_periodic_rate, (quoted, basis, periods, root), r),
    ensures
        periods <= 0 ==> r is Err,
        basis@ != "nominal"@ && basis@ != "effective"@ ==> r is Err,
        periods > 0 && basis@ == "nominal"@ ==> r is Ok && -periods <= 2 * (quoted - periods * (r->Ok_0))
            <= periods,
        periods > 0 && basis@ == "effective"@ && quoted > -1_000_000_000_000_000 && root is Some ==> r
            == Ok::<i64, InterestError>(root->0),
        periods > 0 && basis@ == "effective"@ && quoted <= -1_000_000_000_000_000 ==> r is Err,
{
    reveal_strlit("nominal");
    reveal_strlit("effective");
    assert("nominal"@.len() == 7 && "effective"@.len() == 9);
    if periods > 0 {
        law_rounding_is_nearest(quoted as int, periods as int);
    }
}

/// Without interest a debt is shared out over its term to the nearest; with interest the payment is
/// the one that was worked out; and there is no payment over no term.
pub proof fn law_a_level_payment_clears_over_its_term(
    principal: Minor,
    rate: i64,
    term: i64,
    amortised: Amortised,
    r: Result<Minor, InterestError>,
)
    requires
        call_ensures(derive_level_payment, (principal, rate, term, amortised), r),
    ensures
        term <= 0 ==> r is Err,
        term > 0 && rate == 0 ==> r is Ok && -term <= 2 * (principal - term * (r->Ok_0)) <= term,
        term > 0 && rate != 0 ==> (amortised matches Amortised::Payment(v) ==> r == Ok::<
            Minor,
            InterestError,
        >(v)),
        term > 0 && rate != 0 && !(amortised is Payment) ==> r is Err,
{
    if term > 0 {
        law_rounding_is_nearest(principal as int, term as int);
    }
}

/// Interest for a period is the balance at the rate, to the nearest.
pub proof fn law_interest_is_the_balance_at_the_rate(
    balance: Minor,
    rate: i64,
    r: Result<Minor, InterestError>,
)
    requires
        call_ensures(accrue, (balance, rate), r),
        r is Ok,
    ensures
        -1_000_000_000_000_000 <= 2 * (balance * rate - 1_000_000_000_000_000 * (r->Ok_0))
            <= 1_000_000_000_000_000,
{
    law_rounding_is_nearest(balance * rate, RATE_SCALE as int);
}

/// A book of a newer version than is known is refused; any other is brought up from where it is.
pub proof fn law_a_book_is_brought_up_from_where_it_is(found: i64, r: Result<usize, DbError>)
    requires
        call_ensures(migrate, (found,), r),
    ensures
        found > 4 ==> r == Err::<usize, DbError>(DbError::FromTheFuture { found, known: 4 }),
        0 <= found <= 4 ==> r == Ok::<usize, DbError>(found as usize),
{
}

/// Days of the month in a rule are said as what they are: the last day, the last working day, or a
/// weekday counted from either end of the month.
pub proof fn law_a_monthly_rule_is_said_by_its_day(
    v: PartsView,
    dtstart: Date,
    name: Seq<char>,
)
    requires
        v.freq == Some("MONTHLY"@),
        v.bymonth is None,
        v.interval == 1,
    ensures
        v.bymonthday == Some("-1"@) && v.byday is None && v.bysetpos is None ==> phrase(v, dtstart)
            == Some("monthly"@ + " on "@ + "the last day"@),
        v.bymonthday is None && v.byday == Some("MO,TU,WE,TH,FR"@) && v.bysetpos == Some("-1"@)
            ==> phrase(v, dtstart) == Some("monthly"@ + " on "@ + "the last working day"@),
        v.bymonthday is None && v.byday is Some && v.byday != Some("MO,TU,WE,TH,FR"@) && v.bysetpos
            == Some("-1"@) && day_name(v.byday->0) == Some(name) ==> phrase(v, dtstart) == Some(
            "monthly"@ + " on "@ + ("the last "@ + name),
        ),
        v.bymonthday is None && v.byday is Some && day_name(v.byday->0) == Some(name) && v.bysetpos
            == Some("1"@) ==> phrase(v, dtstart) == Some(
            "monthly"@ + " on "@ + ("the "@ + "first"@ + " "@ + name),
        ),
        v.bymonthday is None && v.byday is Some && day_name(v.byday->0) == Some(name) && v.bysetpos
            == Some("2"@) ==> phrase(v, dtstart) == Some(
            "monthly"@ + " on "@ + ("the "@ + "second"@ + " "@ + name),
        ),
        v.bymonthday is None && v.byday is Some && day_name(v.byday->0) == Some(name) && v.bysetpos
            == Some("3"@) ==> phrase(v, dtstart) == Some(
            "monthly"@ + " on "@ + ("the "@ + "third"@ + " "@ + name),
        ),
        v.bymonthday is None && v.byday is Some && day_name(v.byday->0) == Some(name) && v.bysetpos
            == Some("4"@) ==> phrase(v, dtstart) == Some(
            "monthly"@ + " on "@ + ("the "@ + "fourth"@ + " "@ + name),
        ),
{
    reveal_strlit("DAILY");
    reveal_strlit("WEEKLY");
    reveal_strlit("MONTHLY");
    reveal_strlit("-1");
    reveal_strlit("1");
    reveal_strlit("2");
    reveal_strlit("3");
    reveal_strlit("4");
    assert("DAILY"@.len() == 5 && "WEEKLY"@.len() == 6 && "MONTHLY"@.len() == 7 && "-1"@.len() == 2);
    assert("1"@[0] == '1' && "2"@[0] == '2' && "3"@[0] == '3' && "4"@[0] == '4');
    assert("1"@.len() == 1 && "2"@.len() == 1 && "3"@.len() == 1 && "4"@.len() == 1);
}

/// A yearly rule without a day of its own is said by the day and the month it starts on.
pub proof fn law_a_yearly_rule_is_said_by_its_start(v: PartsView, dtstart: Date)
    requires
        v.freq == Some("YEARLY"@),
        v.byday is None,
        v.bymonthday is None,
        v.bysetpos is None,
        v.bymonth is None,
        v.interval == 1,
    ensures
        phrase(v, dtstart) == Some(
            "yearly"@ + " on "@ + int_digits(civil(dtstart.days as int).2) + " "@ + MONTHS@[civil(
                dtstart.days as int,
            ).1 - 1]@,
        ),
{
    reveal_strlit("DAILY");
    reveal_strlit("WEEKLY");
    reveal_strlit("MONTHLY");
    reveal_strlit("YEARLY");
    assert("DAILY"@.len() == 5 && "WEEKLY"@.len() == 6 && "MONTHLY"@.len() == 7 && "YEARLY"@.len() == 6);
    assert("YEARLY"@[0] == 'Y' && "WEEKLY"@[0] == 'W');
}

} // verus!
