//! Multi-currency: exact-rational rates, and conversions that still balance.
//!
//! An executed rate is the one a conversion actually got. It is never stored as a number -- it is
//! the ratio of the two integer legs. That is what makes a conversion have no rounding residual at
//! all. A market rate is ambient and fluctuating, used to value holdings for a report. Those are
//! exact rationals, never floats, never a fixed scale.
//!
//! A transaction must sum to zero per currency, but a GBP->EUR conversion cannot. So the core adds
//! postings to per-currency trading accounts: £400 out of Current and €466.64 into Euro pot becomes
//! four postings, and both currencies balance.

use crate::book::{balanced, leg_views, net_in, Leg, LegView};
use crate::date::{iso, Date};
use crate::digits::{
    all_digits, int_digits, int_text, is_digit, lemma_digits_len, lemma_nat_digits, lemma_padded,
    lemma_pow10, lemma_pow10_monotonic, lemma_value_concat, nat_digits, number_in, padded, parse_i64,
    pow10, power_of_ten, value_of,
};
use crate::money::{minor_text, round_half_away, rounded, Minor, MoneyError, MAX_MINOR_DIGITS};
use crate::text::{cut, lemma_index_of, split_once, str_eq, text_less, text_lt};
use crate::wording::{bad, says, EditError};
use vstd::prelude::*;
use vstd::utf8::encode_utf8;

verus! {

broadcast use vstd::string::group_string_axioms;

/// Why a rate or a conversion was refused.
#[derive(Debug)]
pub enum FxError {
    NoRate { base: String, quote: String, on: String },
    UnknownCurrency(String),
    SameCurrency(String),
    BadRate(String),
}

impl FxError {
    /// The message, as a sequence of characters.
    pub open spec fn text(self) -> Seq<char> {
        match self {
            FxError::NoRate { base, quote, on } => "no "@ + base@ + "/"@ + quote@
                + " rate on or before "@ + on@,
            FxError::UnknownCurrency(c) => "unknown currency: "@ + c@,
            FxError::SameCurrency(c) => c@ + " to itself is not a conversion"@,
            FxError::BadRate(m) => "bad rate: "@ + m@,
        }
    }

    /// The message a person reads.
    pub fn to_text(&self) -> (r: String)
        ensures
            r@ == self.text(),
    {
        match self {
            FxError::NoRate { base, quote, on } => {
                let mut out = "no ".to_string();
                out.append(base.as_str());
                out.append("/");
                out.append(quote.as_str());
                out.append(" rate on or before ");
                out.append(on.as_str());
                out
            },
            FxError::UnknownCurrency(c) => {
                let mut out = "unknown currency: ".to_string();
                out.append(c.as_str());
                out
            },
            FxError::SameCurrency(c) => {
                let mut out = c.clone();
                out.append(" to itself is not a conversion");
                out
            },
            FxError::BadRate(m) => {
                let mut out = "bad rate: ".to_string();
                out.append(m.as_str());
                out
            },
        }
    }
}

/// An exact rational rate: 1 `base` = num/den `quote`, in major units.
#[derive(Debug, Clone, Copy, PartialEq, Eq)]
pub struct Rate {
    pub num: i64,
    pub den: i64,
}

/// A stored rate.
#[derive(Debug, Clone)]
pub struct RateRow {
    pub base: String,
    pub quote: String,
    /// The date the source reports, not the date asked for.
    pub as_of: String,
    pub source: String,
    pub rate: Rate,
}

/// A currency of the book.
#[derive(Debug, Clone)]
pub struct Currency {
    pub code: String,
    pub minor_digits: u32,
}

/// Check a rate before it is stored: it is between two currencies, and a positive number.
pub fn put_rate(base: &str, quote: &str, as_of: &str, source: &str, rate: Rate) -> (r: Result<
    RateRow,
    FxError,
>)
    ensures
        match r {
            Ok(row) => base@ != quote@ && rate.num > 0 && rate.den > 0 && row.base@ == base@
                && row.quote@ == quote@ && row.as_of@ == as_of@ && row.source@ == source@
                && row.rate == rate,
            Err(FxError::SameCurrency(c)) => base@ == quote@ && c@ == base@,
            Err(FxError::BadRate(m)) => base@ != quote@ && (rate.num <= 0 || rate.den <= 0) && m@
                == int_digits(rate.num as int) + "/"@ + int_digits(rate.den as int),
            Err(_) => false,
        },
{
    if str_eq(base, quote) {
        return Err(FxError::SameCurrency(base.to_string()));
    }
    if rate.num <= 0 || rate.den <= 0 {
        let mut m = int_text(rate.num as i128);
        m.append("/");
        let d = int_text(rate.den as i128);
        m.append(d.as_str());
        return Err(FxError::BadRate(m));
    }
    Ok(
        RateRow {
            base: base.to_string(),
            quote: quote.to_string(),
            as_of: as_of.to_string(),
            source: source.to_string(),
            rate,
        },
    )
}

/// Which source wins on the same day: a manual rate, then the Bank of England's, then any other.
pub open spec fn rank(source: Seq<char>) -> int {
    if source == "manual"@ {
        0
    } else if source == "boe"@ {
        1
    } else {
        2
    }
}

fn rank_of(source: &str) -> (r: u8)
    ensures
        r == rank(source@),
{
    if str_eq(source, "manual") {
        0
    } else if str_eq(source, "boe") {
        1
    } else {
        2
    }
}

/// Whether a stored rate is for this pair and dated on or before a day.
pub open spec fn applies(r: RateRow, base: Seq<char>, quote: Seq<char>, on: Seq<char>) -> bool {
    r.base@ == base && r.quote@ == quote && !text_lt(on, r.as_of@)
}

/// Whether one stored rate is preferred to another: the later, and on one day the better source.
pub open spec fn preferred(a: RateRow, b: RateRow) -> bool {
    text_lt(b.as_of@, a.as_of@) || (a.as_of@ == b.as_of@ && rank(a.source@) < rank(b.source@))
}

/// The stored rate for a pair that is in force on a day; of equally good ones the first.
pub open spec fn in_force(
    rows: Seq<RateRow>,
    base: Seq<char>,
    quote: Seq<char>,
    on: Seq<char>,
) -> Option<RateRow>
    decreases rows.len(),
{
    if rows.len() == 0 {
        None
    } else {
        let before = in_force(rows.drop_last(), base, quote, on);
        if applies(rows.last(), base, quote, on) && (before matches Some(b) ==> preferred(
            rows.last(),
            b,
        )) {
            Some(rows.last())
        } else {
            before
        }
    }
}

/// A rate and the date it came from: numerator, denominator, date.
pub struct RateView {
    pub num: int,
    pub den: int,
    pub as_of: Seq<char>,
}

/// The rate of a pair, from the pair itself or from its reverse turned upside down.
pub open spec fn pair_rate(
    rows: Seq<RateRow>,
    base: Seq<char>,
    quote: Seq<char>,
    on: Seq<char>,
) -> Option<RateView> {
    match in_force(rows, base, quote, on) {
        Some(r) => Some(
            RateView { num: r.rate.num as int, den: r.rate.den as int, as_of: r.as_of@ },
        ),
        None => match in_force(rows, quote, base, on) {
            Some(r) => Some(
                RateView { num: r.rate.den as int, den: r.rate.num as int, as_of: r.as_of@ },
            ),
            None => None,
        },
    }
}

fn find_rate(rows: &Vec<RateRow>, base: &str, quote: &str, on: &str) -> (r: Option<usize>)
    ensures
        match r {
            Some(i) => i < rows@.len() && in_force(rows@, base@, quote@, on@) == Some(
                rows@[i as int],
            ),
            None => in_force(rows@, base@, quote@, on@) is None,
        },
{
    let mut best: Option<usize> = None;
    let mut i: usize = 0;
    while i < rows.len()
        invariant
            i <= rows@.len(),
            match best {
                Some(b) => b < i && in_force(rows@.take(i as int), base@, quote@, on@) == Some(
                    rows@[b as int],
                ),
                None => in_force(rows@.take(i as int), base@, quote@, on@) is None,
            },
        decreases rows@.len() - i,
    {
        assert(rows@.take(i + 1).drop_last() =~= rows@.take(i as int));
        let row = &rows[i];
        let fits = str_eq(row.base.as_str(), base) && str_eq(row.quote.as_str(), quote)
            && !text_less(on, row.as_of.as_str());
        if fits {
            let better = match best {
                None => true,
                Some(b) => text_less(rows[b].as_of.as_str(), row.as_of.as_str()) || (str_eq(
                    rows[b].as_of.as_str(),
                    row.as_of.as_str(),
                ) && rank_of(row.source.as_str()) < rank_of(rows[b].source.as_str())),
            };
            if better {
                best = Some(i);
            }
        }
        i = i + 1;
    }
    assert(rows@.take(rows@.len() as int) =~= rows@);
    best
}

fn find_pair(rows: &Vec<RateRow>, base: &str, quote: &str, on: &str) -> (r: Option<(Rate, String)>)
    ensures
        match r {
            Some(p) => pair_rate(rows@, base@, quote@, on@) matches Some(v) && v.num == p.0.num
                && v.den == p.0.den && v.as_of == p.1@,
            None => pair_rate(rows@, base@, quote@, on@) is None,
        },
{
    if let Some(i) = find_rate(rows, base, quote, on) {
        return Some((rows[i].rate, rows[i].as_of.clone()));
    }
    // Stored the other way round: invert exactly by swapping the rational's parts. No precision is
    // lost, which is the whole reason rates are rationals and not decimals.
    if let Some(i) = find_rate(rows, quote, base, on) {
        let rate = Rate { num: rows[i].rate.den, den: rows[i].rate.num };
        return Some((rate, rows[i].as_of.clone()));
    }
    None
}

/// How the rate of a pair comes out.
pub enum Resolved {
    /// The rate.
    Rate(RateView),
    /// No rate is known for this pair.
    Missing(Seq<char>, Seq<char>),
    /// The two rates are known and their quotient does not fit.
    TooLarge,
}

/// The rate of a pair on a day: one for a currency to itself, else the pair's own, else the
/// quotient of the two rates from the display currency.
pub open spec fn resolution(
    rows: Seq<RateRow>,
    display: Seq<char>,
    base: Seq<char>,
    quote: Seq<char>,
    on: Seq<char>,
) -> Resolved {
    if base == quote {
        Resolved::Rate(RateView { num: 1, den: 1, as_of: on })
    } else if pair_rate(rows, base, quote, on) is Some {
        Resolved::Rate(pair_rate(rows, base, quote, on)->0)
    } else if base == display || quote == display {
        Resolved::Missing(base, quote)
    } else {
        match (pair_rate(rows, display, quote, on), pair_rate(rows, display, base, on)) {
            (None, _) => Resolved::Missing(display, quote),
            (_, None) => Resolved::Missing(display, base),
            (Some(q), Some(b)) => {
                let num = q.num * b.den;
                let den = q.den * b.num;
                if i64::MIN <= num <= i64::MAX && i64::MIN <= den <= i64::MAX {
                    Resolved::Rate(
                        RateView {
                            num,
                            den,
                            as_of: if text_lt(q.as_of, b.as_of) {
                                q.as_of
                            } else {
                                b.as_of
                            },
                        },
                    )
                } else {
                    Resolved::TooLarge
                }
            },
        }
    }
}

fn no_rate(base: &str, quote: &str, on: &str) -> (e: FxError)
    ensures
        e matches FxError::NoRate { base: b, quote: q, on: o } && b@ == base@ && q@ == quote@ && o@
            == on@,
{
    FxError::NoRate { base: base.to_string(), quote: quote.to_string(), on: on.to_string() }
}

/// The product of two numbers of a rate, where it fits.
fn product(a: i64, b: i64) -> (r: Option<i64>)
    ensures
        match r {
            Some(p) => p == a * b,
            None => !(i64::MIN <= a * b <= i64::MAX),
        },
{
    a.checked_mul(b)
}

/// The rate in force for `base`->`quote` on `on`: the latest one dated on or before it.
///
/// One code path serves history and the forecast. For a past date it finds the rate that applied;
/// for a future date it finds the most recent known spot and holds it flat, made visible by the
/// date in the result.
pub fn resolve_rate(
    rows: &Vec<RateRow>,
    display: &str,
    base: &str,
    quote: &str,
    on: Date,
) -> (r: Result<(Rate, String), FxError>)
    ensures
        match resolution(rows@, display@, base@, quote@, iso(on.days as int)) {
            Resolved::Rate(v) => r matches Ok(p) && p.0.num == v.num && p.0.den == v.den && p.1@
                == v.as_of,
            Resolved::Missing(b, q) => r matches Err(
                FxError::NoRate { base: b2, quote: q2, on: o },
            ) && b2@ == b && q2@ == q && o@ == iso(on.days as int),
            Resolved::TooLarge => r matches Err(FxError::BadRate(m)) && m@
                == "cross rate out of range"@,
        },
{
    let on_text = on.to_text();
    if str_eq(base, quote) {
        return Ok((Rate { num: 1, den: 1 }, on_text));
    }
    if let Some(hit) = find_pair(rows, base, quote, on_text.as_str()) {
        return Ok(hit);
    }
    if str_eq(base, display) || str_eq(quote, display) {
        return Err(no_rate(base, quote, on_text.as_str()));
    }
    // Cross via the display currency: EUR->USD = (GBP->USD) / (GBP->EUR).
    let to_quote = match find_pair(rows, display, quote, on_text.as_str()) {
        Some(hit) => hit,
        None => {
            return Err(no_rate(display, quote, on_text.as_str()));
        },
    };
    let to_base = match find_pair(rows, display, base, on_text.as_str()) {
        Some(hit) => hit,
        None => {
            return Err(no_rate(display, base, on_text.as_str()));
        },
    };
    match (product(to_quote.0.num, to_base.0.den), product(to_quote.0.den, to_base.0.num)) {
        (Some(num), Some(den)) => {
            let as_of = if text_less(to_quote.1.as_str(), to_base.1.as_str()) {
                to_quote.1
            } else {
                to_base.1
            };
            Ok((Rate { num, den }, as_of))
        },
        _ => Err(FxError::BadRate("cross rate out of range".to_string())),
    }
}

/// What the numerator and denominator of a conversion come to.
pub open spec fn scaled_num(amount: int, rate: Rate, to_digits: int) -> int {
    amount * rate.num * pow10(to_digits as nat)
}

pub open spec fn scaled_den(rate: Rate, from_digits: int) -> int {
    rate.den * pow10(from_digits as nat)
}

/// An amount in another currency, before it is known to fit.
pub open spec fn converted(amount: int, rate: Rate, from_digits: int, to_digits: int) -> int {
    rounded(scaled_num(amount, rate, to_digits), scaled_den(rate, from_digits))
}

/// Whether a conversion can be worked out in 128 bits.
pub open spec fn workable(amount: int, rate: Rate, from_digits: int, to_digits: int) -> bool {
    &&& from_digits <= 38
    &&& to_digits <= 38
    &&& rate.den != 0
    &&& i128::MIN <= scaled_num(amount, rate, to_digits) <= i128::MAX
    &&& i128::MIN <= scaled_den(rate, from_digits) <= i128::MAX
    &&& scaled_den(rate, from_digits) < 0 ==> scaled_num(amount, rate, to_digits) > i128::MIN
        && scaled_den(rate, from_digits) > i128::MIN
}

/// What a conversion comes to as a result: the amount where it fits, the refusal where not.
pub open spec fn conversion_result(r: Result<Minor, FxError>, v: int) -> bool {
    match r {
        Ok(m) => m == v,
        Err(FxError::BadRate(s)) => !(i64::MIN <= v <= i64::MAX) && exists|e: MoneyError|
            s@ == #[trigger] e.text() && (e matches MoneyError::Overflow(t) && t@ == int_digits(v)),
        Err(_) => false,
    }
}

/// Convert an amount between currencies of possibly different scales.
///
/// The scale change is part of the arithmetic, not an afterthought: 100 JPY (0dp) into GBP (2dp)
/// must multiply by 100 as well as by the rate, and doing that in one step means one rounding
/// rather than two.
pub fn convert_minor(amount: Minor, rate: Rate, from_digits: u32, to_digits: u32) -> (r: Result<
    Minor,
    FxError,
>)
    requires
        workable(amount as int, rate, from_digits as int, to_digits as int),
    ensures
        conversion_result(
            r,
            converted(amount as int, rate, from_digits as int, to_digits as int),
        ),
{
    match scaled(amount, rate, from_digits, to_digits) {
        Some((num, den)) => match round_half_away(num, den) {
            Ok(v) => Ok(v),
            Err(e) => {
                let t = e.to_text();
                assert(t@ == e.text());
                Err(FxError::BadRate(t))
            },
        },
        None => Err(FxError::BadRate(String::new())),
    }
}

/// The numerator and denominator of a conversion, where it can be worked out in 128 bits.
fn scaled(amount: Minor, rate: Rate, from_digits: u32, to_digits: u32) -> (r: Option<(i128, i128)>)
    ensures
        match r {
            Some(p) => workable(amount as int, rate, from_digits as int, to_digits as int) && p.0
                == scaled_num(amount as int, rate, to_digits as int) && p.1 == scaled_den(
                rate,
                from_digits as int,
            ) && p.1 != 0,
            None => !workable(amount as int, rate, from_digits as int, to_digits as int),
        },
{
    if from_digits > 38 || to_digits > 38 || rate.den == 0 {
        return None;
    }
    let a: i128 = amount as i128;
    let n: i128 = rate.num as i128;
    let d: i128 = rate.den as i128;
    assert(-0x4000_0000_0000_0000_0000_0000_0000_0000 <= a * n
        <= 0x4000_0000_0000_0000_0000_0000_0000_0000) by (nonlinear_arith)
        requires
            -0x8000_0000_0000_0000 <= a <= 0x7fff_ffff_ffff_ffff,
            -0x8000_0000_0000_0000 <= n <= 0x7fff_ffff_ffff_ffff,
    ;
    proof {
        lemma_pow10_monotonic(from_digits as nat, 38);
        lemma_pow10_monotonic(to_digits as nat, 38);
        assert(pow10(38) == 100_000_000_000_000_000_000_000_000_000_000_000_000) by {
            reveal_with_fuel(pow10, 39);
        }
    }
    let up: i128 = power_of_ten(to_digits) as i128;
    let down: i128 = power_of_ten(from_digits) as i128;
    proof {
        lemma_pow10(from_digits as nat);
        let (dd, ww) = (rate.den as int, pow10(from_digits as nat) as int);
        assert(dd * ww != 0) by (nonlinear_arith)
            requires
                dd != 0,
                ww >= 1,
        ;
    }
    match ((a * n).checked_mul(up), d.checked_mul(down)) {
        (Some(num), Some(den)) => {
            if den < 0 && (num == i128::MIN || den == i128::MIN) {
                None
            } else {
                Some((num, den))
            }
        },
        _ => None,
    }
}

/// The place of the first currency with this code, or the number of currencies.
pub open spec fn currency_place(currencies: Seq<Currency>, code: Seq<char>) -> int
    decreases currencies.len(),
{
    if currencies.len() == 0 {
        0
    } else if currencies[0].code@ == code {
        0
    } else {
        1 + currency_place(currencies.drop_first(), code)
    }
}

/// How many places a currency has, if the book has the currency.
pub open spec fn digits_in(currencies: Seq<Currency>, code: Seq<char>) -> Option<int> {
    let i = currency_place(currencies, code);
    if i < currencies.len() {
        Some(currencies[i].minor_digits as int)
    } else {
        None
    }
}

/// The place of a currency is one of the currencies' places, or their number.
pub proof fn lemma_digits_in(currencies: Seq<Currency>, code: Seq<char>)
    ensures
        0 <= currency_place(currencies, code) <= currencies.len(),
    decreases currencies.len(),
{
    if currencies.len() > 0 {
        lemma_digits_in(currencies.drop_first(), code);
    }
}

proof fn lemma_currency_place(currencies: Seq<Currency>, code: Seq<char>, i: int)
    requires
        0 <= i <= currencies.len(),
        forall|j: int| 0 <= j < i ==> (#[trigger] currencies[j]).code@ != code,
        i < currencies.len() ==> currencies[i].code@ == code,
    ensures
        currency_place(currencies, code) == i,
    decreases i,
{
    if i > 0 {
        assert(currencies[0].code@ != code);
        let rest = currencies.drop_first();
        assert forall|j: int| 0 <= j < i - 1 implies (#[trigger] rest[j]).code@ != code by {
            assert(currencies[j + 1].code@ != code);
        }
        lemma_currency_place(rest, code, i - 1);
    }
}

/// How many places a currency has.
pub fn minor_digits(currencies: &Vec<Currency>, code: &str) -> (r: Result<u32, FxError>)
    ensures
        match r {
            Ok(d) => digits_in(currencies@, code@) == Some(d as int),
            Err(FxError::UnknownCurrency(c)) => digits_in(currencies@, code@) is None && c@
                == code@,
            Err(_) => false,
        },
{
    let mut i: usize = 0;
    while i < currencies.len()
        invariant
            i <= currencies@.len(),
            forall|j: int| 0 <= j < i ==> (#[trigger] currencies@[j]).code@ != code@,
        decreases currencies@.len() - i,
    {
        if str_eq(currencies[i].code.as_str(), code) {
            proof {
                lemma_currency_place(currencies@, code@, i as int);
            }
            return Ok(currencies[i].minor_digits);
        }
        i = i + 1;
    }
    proof {
        lemma_currency_place(currencies@, code@, i as int);
    }
    Err(FxError::UnknownCurrency(code.to_string()))
}

/// The rate a resolution gives, as a pair of 64-bit numbers.
pub open spec fn rate_of(v: RateView) -> Rate {
    Rate { num: v.num as i64, den: v.den as i64 }
}

/// Whether `r` is what converting `amount` between two currencies on a day comes to.
pub open spec fn convert_ok(
    r: Result<(Minor, Rate, String), FxError>,
    rows: Seq<RateRow>,
    currencies: Seq<Currency>,
    display: Seq<char>,
    amount: int,
    from: Seq<char>,
    to: Seq<char>,
    on: Seq<char>,
) -> bool {
    match resolution(rows, display, from, to, on) {
        Resolved::Missing(b, q) => r matches Err(FxError::NoRate { base, quote, on: o }) && base@
            == b && quote@ == q && o@ == on,
        Resolved::TooLarge => r matches Err(FxError::BadRate(m)) && m@
            == "cross rate out of range"@,
        Resolved::Rate(v) => {
            let rate = rate_of(v);
            match (digits_in(currencies, from), digits_in(currencies, to)) {
                (None, _) => r matches Err(FxError::UnknownCurrency(c)) && c@ == from,
                (_, None) => r matches Err(FxError::UnknownCurrency(c)) && c@ == to,
                (Some(f), Some(t)) => if !workable(amount, rate, f, t) {
                    r matches Err(FxError::BadRate(m)) && m@ == "conversion out of range"@
                } else {
                    match r {
                        Ok(p) => conversion_result(Ok(p.0), converted(amount, rate, f, t)) && p.1
                            == rate && p.2@ == v.as_of,
                        Err(e) => conversion_result(Err(e), converted(amount, rate, f, t)),
                    }
                },
            }
        },
    }
}

/// Convert an amount at the rate in force on a day; the rate and its date come with it.
pub fn convert(
    rows: &Vec<RateRow>,
    currencies: &Vec<Currency>,
    display: &str,
    amount: Minor,
    from: &str,
    to: &str,
    on: Date,
) -> (r: Result<(Minor, Rate, String), FxError>)
    ensures
        convert_ok(
            r,
            rows@,
            currencies@,
            display@,
            amount as int,
            from@,
            to@,
            iso(on.days as int),
        ),
{
    let (rate, as_of) = match resolve_rate(rows, display, from, to, on) {
        Ok(p) => p,
        Err(e) => {
            return Err(e);
        },
    };
    let from_digits: u32 = match minor_digits(currencies, from) {
        Ok(d) => d,
        Err(e) => {
            return Err(e);
        },
    };
    let to_digits: u32 = match minor_digits(currencies, to) {
        Ok(d) => d,
        Err(e) => {
            return Err(e);
        },
    };
    if scaled(amount, rate, from_digits, to_digits).is_none() {
        return Err(FxError::BadRate("conversion out of range".to_string()));
    }
    match convert_minor(amount, rate, from_digits, to_digits) {
        Ok(v) => Ok((v, rate, as_of)),
        Err(e) => Err(e),
    }
}

/// The four legs of a conversion: the money leaving is offset inside its own currency's trading
/// account, and likewise the money arriving.
pub open spec fn conversion_views(
    from_account: i64,
    from_cur: Seq<char>,
    from_minor: int,
    from_trading: i64,
    to_account: i64,
    to_cur: Seq<char>,
    to_minor: int,
    to_trading: i64,
) -> Seq<LegView> {
    seq![
        LegView { account_id: from_account, currency: from_cur, amount_minor: -from_minor },
        LegView { account_id: from_trading, currency: from_cur, amount_minor: from_minor },
        LegView { account_id: to_account, currency: to_cur, amount_minor: to_minor },
        LegView { account_id: to_trading, currency: to_cur, amount_minor: -to_minor },
    ]
}

/// Build a currency conversion as one balanced transaction.
///
/// `from_minor` is what leaves (positive), `to_minor` what arrives. Both are given explicitly and
/// exactly: the caller knows what actually happened, and deriving one from a rate would bring back
/// the sub-penny residual this design exists to avoid. The trading accounts are those of the two
/// currencies.
pub fn build_conversion(
    from_account: i64,
    from_cur: &str,
    from_minor: Minor,
    from_trading: i64,
    to_account: i64,
    to_cur: &str,
    to_minor: Minor,
    to_trading: i64,
) -> (r: Result<Vec<Leg>, FxError>)
    requires
        from_minor > i64::MIN,
        to_minor > i64::MIN,
    ensures
        match r {
            Ok(legs) => from_cur@ != to_cur@ && leg_views(legs@) == conversion_views(
                from_account,
                from_cur@,
                from_minor as int,
                from_trading,
                to_account,
                to_cur@,
                to_minor as int,
                to_trading,
            ),
            Err(FxError::SameCurrency(c)) => from_cur@ == to_cur@ && c@ == from_cur@,
            Err(_) => false,
        },
{
    if str_eq(from_cur, to_cur) {
        return Err(FxError::SameCurrency(from_cur.to_string()));
    }
    let mut legs: Vec<Leg> = Vec::new();
    legs.push(
        Leg { account_id: from_account, currency: from_cur.to_string(), amount_minor: -from_minor },
    );
    legs.push(
        Leg { account_id: from_trading, currency: from_cur.to_string(), amount_minor: from_minor },
    );
    legs.push(Leg { account_id: to_account, currency: to_cur.to_string(), amount_minor: to_minor });
    legs.push(
        Leg { account_id: to_trading, currency: to_cur.to_string(), amount_minor: -to_minor },
    );
    assert(leg_views(legs@) =~= conversion_views(
        from_account,
        from_cur@,
        from_minor as int,
        from_trading,
        to_account,
        to_cur@,
        to_minor as int,
        to_trading,
    ));
    Ok(legs)
}

/// A conversion balances in every currency, with no residual.
pub proof fn law_conversions_balance(
    from_account: i64,
    from_cur: Seq<char>,
    from_minor: int,
    from_trading: i64,
    to_account: i64,
    to_cur: Seq<char>,
    to_minor: int,
    to_trading: i64,
)
    ensures
        balanced(
            conversion_views(
                from_account,
                from_cur,
                from_minor,
                from_trading,
                to_account,
                to_cur,
                to_minor,
                to_trading,
            ),
        ),
{
    let legs = conversion_views(
        from_account,
        from_cur,
        from_minor,
        from_trading,
        to_account,
        to_cur,
        to_minor,
        to_trading,
    );
    let l3 = legs.drop_last();
    let l2 = l3.drop_last();
    let l1 = l2.drop_last();
    let l0 = l1.drop_last();
    assert forall|c: Seq<char>| #[trigger] net_in(legs, c) == 0 by {
        assert(net_in(l0, c) == 0);
        assert(net_in(l1, c) == (if from_cur == c {
            -from_minor
        } else {
            0
        }));
        assert(net_in(l2, c) == 0);
        assert(net_in(l3, c) == (if to_cur == c {
            to_minor
        } else {
            0
        }));
    }
}

/// The rate in force is for the pair, dated on or before the day, and none that applies is
/// preferred to it.
pub proof fn law_the_latest_rate_on_or_before_is_in_force(
    rows: Seq<RateRow>,
    base: Seq<char>,
    quote: Seq<char>,
    on: Seq<char>,
)
    ensures
        match in_force(rows, base, quote, on) {
            Some(b) => applies(b, base, quote, on) && forall|i: int|
                0 <= i < rows.len() && applies(#[trigger] rows[i], base, quote, on) ==> !preferred(
                    rows[i],
                    b,
                ),
            None => forall|i: int|
                0 <= i < rows.len() ==> !applies(#[trigger] rows[i], base, quote, on),
        },
    decreases rows.len(),
{
    if rows.len() > 0 {
        let rest = rows.drop_last();
        law_the_latest_rate_on_or_before_is_in_force(rest, base, quote, on);
        let last = rows.last();
        let before = in_force(rest, base, quote, on);
        match in_force(rows, base, quote, on) {
            Some(b) => {
                assert forall|i: int|
                    0 <= i < rows.len() && applies(
                        #[trigger] rows[i],
                        base,
                        quote,
                        on,
                    ) implies !preferred(rows[i], b) by {
                    if i < rest.len() {
                        assert(rest[i] == rows[i]);
                        assert(before is Some);
                        if before != Some(b) {
                            lemma_preferred_carries(rows[i], b, before->0);
                        }
                    } else {
                        lemma_not_preferred_to_itself(last);
                    }
                }
            },
            None => {
                assert forall|i: int| 0 <= i < rows.len() implies !applies(
                    #[trigger] rows[i],
                    base,
                    quote,
                    on,
                ) by {
                    if i < rest.len() {
                        assert(rest[i] == rows[i]);
                    }
                }
            },
        }
    }
}

proof fn lemma_not_preferred_to_itself(a: RateRow)
    ensures
        !preferred(a, a),
{
    crate::text::lemma_text_irreflexive(a.as_of@);
}

/// What is not preferred to `c` is not preferred to `b` either, where `b` is preferred to `c`.
proof fn lemma_preferred_carries(a: RateRow, b: RateRow, c: RateRow)
    requires
        preferred(b, c),
        !preferred(a, c),
    ensures
        !preferred(a, b),
{
    if preferred(a, b) {
        if text_lt(b.as_of@, a.as_of@) && text_lt(c.as_of@, b.as_of@) {
            crate::text::lemma_text_transitive(c.as_of@, b.as_of@, a.as_of@);
        }
    }
}

/// A pair read backwards gives the same rational upside down, where only one direction is stored.
pub proof fn law_rates_invert_losslessly(
    rows: Seq<RateRow>,
    base: Seq<char>,
    quote: Seq<char>,
    on: Seq<char>,
)
    requires
        in_force(rows, quote, base, on) is None,
        in_force(rows, base, quote, on) is Some,
    ensures
        pair_rate(rows, base, quote, on) matches Some(v) && pair_rate(rows, quote, base, on)
            matches Some(w) && w.num == v.den && w.den == v.num && w.as_of == v.as_of,
{
}

/// What one trading account holds, and what that is worth in the display currency.
#[derive(Debug, Clone)]
pub struct Holding {
    pub currency: String,
    pub amount_minor: Minor,
    pub valued_minor: Minor,
}

/// What the trading accounts say the FX has cost or made, valued at one date.
#[derive(Debug, Clone)]
pub struct Position {
    pub as_of: String,
    pub display_currency: String,
    pub gain_minor: i128,
    pub legs: Vec<Holding>,
}

/// What a list of holdings is worth together.
pub open spec fn worth(legs: Seq<Holding>) -> int
    decreases legs.len(),
{
    if legs.len() == 0 {
        0
    } else {
        worth(legs.drop_last()) + legs.last().valued_minor
    }
}

/// Whether a holding is what a trading account's amount comes to when valued on a day: itself in
/// the display currency, else converted at the rate in force.
pub open spec fn valued(
    h: Holding,
    leg: Holding,
    rows: Seq<RateRow>,
    currencies: Seq<Currency>,
    display: Seq<char>,
    on: Seq<char>,
) -> bool {
    &&& h.currency@ == leg.currency@
    &&& h.amount_minor == leg.amount_minor
    &&& if leg.currency@ == display {
        h.valued_minor == leg.amount_minor
    } else {
        converts_to(
            h.valued_minor,
            rows,
            currencies,
            display,
            leg.amount_minor as int,
            leg.currency@,
            on,
        )
    }
}

/// Whether an amount is worth `v` in the display currency on a day, at whatever rate is in force.
pub open spec fn converts_to(
    v: Minor,
    rows: Seq<RateRow>,
    currencies: Seq<Currency>,
    display: Seq<char>,
    amount: int,
    from: Seq<char>,
    on: Seq<char>,
) -> bool {
    exists|p: (Minor, Rate, String)|
        p.0 == v && #[trigger] convert_ok(
            Ok(p),
            rows,
            currencies,
            display,
            amount,
            from,
            display,
            on,
        )
}

/// Whether a trading account's amount can be valued on a day.
pub open spec fn can_value(
    leg: Holding,
    rows: Seq<RateRow>,
    currencies: Seq<Currency>,
    display: Seq<char>,
    on: Seq<char>,
) -> bool {
    exists|h: Holding| #[trigger] valued(h, leg, rows, currencies, display, on)
}

/// What the trading accounts say the FX has cost or made, valued at `on`.
///
/// Each trading account holds the gross flow in its own currency; `held` lists them, their
/// `valued_minor` unread. Valued in the display currency at one date, they sum to the gain or loss
/// with the sign turned: a positive gain is a gain in the display currency. The first holding that
/// cannot be valued refuses the whole.
pub fn fx_position(
    rows: &Vec<RateRow>,
    currencies: &Vec<Currency>,
    display: &str,
    held: &Vec<Holding>,
    on: Date,
) -> (r: Result<Position, FxError>)
    ensures
        match r {
            Ok(p) => {
                &&& p.as_of@ == iso(on.days as int)
                &&& p.display_currency@ == display@
                &&& p.gain_minor == -worth(p.legs@)
                &&& p.legs@.len() == held@.len()
                &&& forall|i: int|
                    0 <= i < held@.len() ==> valued(
                        #[trigger] p.legs@[i],
                        held@[i],
                        rows@,
                        currencies@,
                        display@,
                        iso(on.days as int),
                    )
            },
            Err(e) => exists|i: int|
                0 <= i < held@.len() && (#[trigger] held@[i]).currency@ != display@ && convert_ok(
                    Err(e),
                    rows@,
                    currencies@,
                    display@,
                    held@[i].amount_minor as int,
                    held@[i].currency@,
                    display@,
                    iso(on.days as int),
                ) && forall|j: int|
                    0 <= j < i ==> can_value(
                        #[trigger] held@[j],
                        rows@,
                        currencies@,
                        display@,
                        iso(on.days as int),
                    ),
        },
{
    let mut total: i128 = 0;
    let mut detail: Vec<Holding> = Vec::new();
    let mut i: usize = 0;
    while i < held.len()
        invariant
            i <= held.len(),
            detail@.len() == i,
            total == worth(detail@),
            -0x8000_0000_0000_0000 * i <= total <= 0x8000_0000_0000_0000 * i,
            forall|j: int|
                0 <= j < i ==> valued(
                    #[trigger] detail@[j],
                    held@[j],
                    rows@,
                    currencies@,
                    display@,
                    iso(on.days as int),
                ),
        decreases held.len() - i,
    {
        let amount = held[i].amount_minor;
        let cur = held[i].currency.as_str();
        let v: Minor = if str_eq(cur, display) {
            amount
        } else {
            match convert(rows, currencies, display, amount, cur, display, on) {
                Ok(p) => {
                    assert(converts_to(
                        p.0,
                        rows@,
                        currencies@,
                        display@,
                        amount as int,
                        cur@,
                        iso(on.days as int),
                    ));
                    p.0
                },
                Err(e) => {
                    proof {
                        assert forall|j: int| 0 <= j < i implies can_value(
                            #[trigger] held@[j],
                            rows@,
                            currencies@,
                            display@,
                            iso(on.days as int),
                        ) by {
                            assert(valued(
                                detail@[j],
                                held@[j],
                                rows@,
                                currencies@,
                                display@,
                                iso(on.days as int),
                            ));
                        }
                        assert(held@[i as int].currency@ != display@);
                    }
                    return Err(e);
                },
            }
        };
        let h = Holding { currency: held[i].currency.clone(), amount_minor: amount, valued_minor: v };
        total = total + v as i128;
        assert(detail@.push(h).drop_last() =~= detail@);
        assert(valued(h, held@[i as int], rows@, currencies@, display@, iso(on.days as int)));
        detail.push(h);
        i = i + 1;
    }
    Ok(
        Position {
            as_of: on.to_text(),
            display_currency: display.to_string(),
            // Trading accounts net to zero at the rate used at the time; a non-zero total is the
            // movement since.
            gain_minor: -total,
            legs: detail,
        },
    )
}

/// How many bytes a text takes in UTF-8.
pub open spec fn byte_len(s: Seq<char>) -> usize {
    encode_utf8(s).len() as usize
}

/// The whole and the fractional digits of a decimal.
pub open spec fn decimal_parts(text: Seq<char>) -> (Seq<char>, Seq<char>) {
    match cut(text, '.') {
        Some(p) => p,
        None => (text, Seq::empty()),
    }
}

/// Parse a decimal like "1.1666" into an exact rational, losslessly. No float ever holds it.
pub fn decimal_to_rate(text: &str) -> (r: Result<Rate, FxError>)
    ensures
        ({
            let (whole, frac) = decimal_parts(text@);
            let num = number_in(whole + frac, i64::MIN as int, i64::MAX as int);
            if byte_len(frac) > 18 {
                r matches Err(FxError::BadRate(m)) && m@ == text@ + ": too many decimal places"@
            } else {
                match num {
                    Some(n) => r matches Ok(rate) && rate.num == n && rate.den == pow10(
                        byte_len(frac) as nat,
                    ),
                    None => r matches Err(FxError::BadRate(m)) && m@ == text@,
                }
            }
        }),
{
    let (whole, frac) = match split_once(text, '.') {
        Some(p) => p,
        None => (text.to_string(), String::new()),
    };
    assert(decimal_parts(text@).1 =~= frac@);
    let places: usize = frac.as_str().len();
    if places > 18 {
        let mut m = text.to_string();
        m.append(": too many decimal places");
        return Err(FxError::BadRate(m));
    }
    let mut digits = whole;
    digits.append(frac.as_str());
    match parse_i64(digits.as_str()) {
        Some(num) => {
            proof {
                lemma_pow10_monotonic(places as nat, 18);
                assert(pow10(18) == 1_000_000_000_000_000_000) by {
                    reveal_with_fuel(pow10, 19);
                }
            }
            let den: i64 = power_of_ten(places as u32) as i64;
            Ok(Rate { num, den })
        },
        None => Err(FxError::BadRate(text.to_string())),
    }
}

/// Digits take a byte each.
proof fn lemma_digits_are_bytes(s: Seq<char>)
    requires
        all_digits(s),
    ensures
        encode_utf8(s).len() == s.len(),
    decreases s.len(),
{
    if s.len() > 0 {
        assert(is_digit(s[0]));
        let rest = s.drop_first();
        assert forall|i: int| 0 <= i < rest.len() implies is_digit(#[trigger] rest[i]) by {
            assert(is_digit(s[i + 1]));
        }
        lemma_digits_are_bytes(rest);
    }
}

/// A decimal becomes the very rational it denotes: an amount as it is written, at every scale a
/// currency may have, is read as its minor units over the scale, with its sign.
pub proof fn law_a_written_decimal_is_the_rational_it_denotes(v: i64, minor_digits: u32)
    requires
        minor_digits <= MAX_MINOR_DIGITS,
    ensures
        ({
            let (whole, frac) = decimal_parts(minor_text(v as int, minor_digits as int));
            &&& byte_len(frac) == minor_digits
            &&& number_in(whole + frac, i64::MIN as int, i64::MAX as int) == Some(v as int)
            &&& pow10(byte_len(frac) as nat) == pow10(minor_digits as nat)
        }),
{
    let n = v as int;
    let md = minor_digits as int;
    let text = minor_text(n, md);
    let abs: int = if n < 0 {
        -n
    } else {
        n
    };
    let scale = pow10(md as nat) as int;
    lemma_pow10(md as nat);
    assert(abs / scale >= 0 && 0 <= abs % scale < scale) by (nonlinear_arith)
        requires
            abs >= 0,
            scale >= 1,
    ;
    let sign: Seq<char> = if n < 0 {
        seq!['-']
    } else {
        Seq::empty()
    };
    let digits = if md == 0 {
        nat_digits(abs as nat)
    } else {
        nat_digits((abs / scale) as nat)
    };
    lemma_nat_digits(abs as nat);
    lemma_nat_digits((abs / scale) as nat);
    let head = sign + digits;
    let tail: Seq<char> = if md == 0 {
        Seq::empty()
    } else {
        padded((abs % scale) as nat, md)
    };
    lemma_padded((abs % scale) as nat, md);
    if md > 0 {
        lemma_digits_len((abs % scale) as nat, md as nat);
        assert(text =~= head + seq!['.'] + tail);
        lemma_value_concat(digits, tail);
        assert(abs == (abs / scale) * scale + abs % scale) by (nonlinear_arith)
            requires
                scale >= 1,
        ;
    } else {
        assert(text =~= head);
        assert(digits + tail =~= digits);
    }
    assert(value_of(digits + tail) == abs);
    assert forall|j: int| 0 <= j < head.len() implies head[j] != '.' by {
        if j >= sign.len() {
            assert(head[j] == digits[j - sign.len()]);
            assert(is_digit(digits[j - sign.len()]));
        }
    }
    assert forall|j: int| 0 <= j < head.len() implies text[j] != '.' by {
        assert(text[j] == head[j]);
    }
    lemma_index_of(text, '.', head.len() as int);
    let (whole, frac) = decimal_parts(text);
    assert(whole =~= head);
    assert(frac =~= tail);
    lemma_digits_are_bytes(frac);
    let all = digits + tail;
    assert(all_digits(all)) by {
        assert forall|i: int| 0 <= i < all.len() implies is_digit(#[trigger] all[i]) by {
            if i < digits.len() {
                assert(is_digit(digits[i]));
            } else {
                assert(is_digit(tail[i - digits.len()]));
            }
        }
    }
    assert(is_digit(all[0]));
    let s = whole + frac;
    if n < 0 {
        assert(s.skip(1) =~= all);
    } else {
        assert(s =~= all);
    }
}

/// Whether a decimal has more places than the scale of a rate can hold.
pub open spec fn too_fine(text: Seq<char>) -> bool {
    byte_len(decimal_parts(text).1) > 18
}

/// The number a decimal's digits make, its point left out.
pub open spec fn decimal_number(text: Seq<char>) -> Option<int> {
    let (whole, frac) = decimal_parts(text);
    number_in(whole + frac, i64::MIN as int, i64::MAX as int)
}

/// A rate as it is entered: an exact rational, or a decimal that is read exactly into one.
pub fn entered_rate(num: Option<i64>, den: Option<i64>, text: Option<&str>) -> (r: Result<
    Rate,
    EditError,
>)
    requires
        num is Some && den is Some || text is None || decimal_number(text->0@) is None
            || !too_fine(text->0@),
    ensures
        match (num, den, text) {
            (Some(n), Some(d), _) => r matches Ok(rate) && rate.num == n && rate.den == d,
            (_, _, None) => r matches Err(e) && says(e, "bad_params"@, "rate or num/den"@),
            (_, _, Some(t)) => match decimal_number(t@) {
                Some(n) => r matches Ok(rate) && rate.num == n && rate.den == pow10(
                    byte_len(decimal_parts(t@).1) as nat,
                ),
                None => r matches Err(e) && says(e, "bad_params"@, "rate must be a decimal"@),
            },
        },
{
    if let Some(n) = num {
        if let Some(d) = den {
            return Ok(Rate { num: n, den: d });
        }
    }
    let t = match text {
        Some(t) => t,
        None => return Err(bad("rate or num/den")),
    };
    let (whole, frac) = match split_once(t, '.') {
        Some(p) => p,
        None => (t.to_string(), String::new()),
    };
    assert(decimal_parts(t@).1 =~= frac@);
    let mut digits = whole;
    digits.append(frac.as_str());
    match parse_i64(digits.as_str()) {
        Some(num) => {
            let places: usize = frac.as_str().len();
            proof {
                lemma_pow10_monotonic(places as nat, 18);
                assert(pow10(18) == 1_000_000_000_000_000_000) by {
                    reveal_with_fuel(pow10, 19);
                }
            }
            let den: i64 = power_of_ten(places as u32) as i64;
            Ok(Rate { num, den })
        },
        None => Err(bad("rate must be a decimal")),
    }
}

/// What a JSON text says under a key of its outermost object, if it says a text there; the reader's
/// reason where the text is no JSON. By the `serde_json` crate.
pub uninterp spec fn json_text(body: Seq<char>, key: Seq<char>) -> Result<
    Option<Seq<char>>,
    Seq<char>,
>;

/// The entries of the object that a JSON text holds under a key of its outermost object, each key
/// with its value written out as JSON, if there is an object there; the reader's reason where the
/// text is no JSON. By the `serde_json` crate.
pub uninterp spec fn json_entries(body: Seq<char>, key: Seq<char>) -> Result<
    Option<Seq<(Seq<char>, Seq<char>)>>,
    Seq<char>,
>;

/// The keys and values of a list of entries.
pub open spec fn entry_views(v: Seq<(String, String)>) -> Seq<(Seq<char>, Seq<char>)> {
    v.map_values(|p: (String, String)| (p.0@, p.1@))
}

/// `serde_json::from_str`, with the text found under a key by `Value::get` and `Value::as_str`: a
/// function of the text and the key alone, named [`json_text`].
#[verifier::external_body]
fn text_under(body: &str, key: &str) -> (r: Result<Option<String>, String>)
    ensures
        match r {
            Ok(Some(s)) => json_text(body@, key@) == Ok::<Option<Seq<char>>, Seq<char>>(Some(s@)),
            Ok(None) => json_text(body@, key@) == Ok::<Option<Seq<char>>, Seq<char>>(None),
            Err(e) => json_text(body@, key@) == Err::<Option<Seq<char>>, Seq<char>>(e@),
        },
{
    match serde_json::from_str::<serde_json::Value>(body) {
        Ok(doc) => Ok(doc.get(key).and_then(|v| v.as_str()).map(|s| s.to_string())),
        Err(e) => Err(e.to_string()),
    }
}

/// `serde_json::from_str`, with the entries found under a key by `Value::get` and
/// `Value::as_object`, each value by `Value::to_string`: a function of the text and the key alone,
/// named [`json_entries`].
#[verifier::external_body]
fn entries_under(body: &str, key: &str) -> (r: Result<Option<Vec<(String, String)>>, String>)
    ensures
        match r {
            Ok(Some(v)) => json_entries(body@, key@) == Ok::<
                Option<Seq<(Seq<char>, Seq<char>)>>,
                Seq<char>,
            >(Some(entry_views(v@))),
            Ok(None) => json_entries(body@, key@) == Ok::<
                Option<Seq<(Seq<char>, Seq<char>)>>,
                Seq<char>,
            >(None),
            Err(e) => json_entries(body@, key@) == Err::<
                Option<Seq<(Seq<char>, Seq<char>)>>,
                Seq<char>,
            >(e@),
        },
{
    match serde_json::from_str::<serde_json::Value>(body) {
        Ok(doc) => Ok(
            doc.get(key).and_then(|v| v.as_object()).map(
                |o| o.iter().map(|(k, v)| (k.clone(), v.to_string())).collect(),
            ),
        ),
        Err(e) => Err(e.to_string()),
    }
}

/// Where the reference rates of a day are to be had, and for which currencies: every one of the
/// book but the display currency. `None` where the book has no other.
pub fn rates_url(on: Date, base: &str, codes: &Vec<String>) -> (r: Option<String>)
    ensures
        ({
            let symbols = others(crate::text::views(codes@), base@);
            match r {
                Some(url) => symbols.len() > 0 && url@ == "https://api.frankfurter.dev/v1/"@ + iso(
                    on.days as int,
                ) + "?base="@ + base@ + "&symbols="@ + crate::text::joined(symbols, ","@),
                None => symbols.len() == 0,
            }
        }),
{
    let mut symbols: Vec<String> = Vec::new();
    let mut i: usize = 0;
    assert(crate::text::views(symbols@) =~= others(
        crate::text::views(codes@).take(0),
        base@,
    ));
    while i < codes.len()
        invariant
            i <= codes@.len(),
            crate::text::views(symbols@) == others(
                crate::text::views(codes@).take(i as int),
                base@,
            ),
        decreases codes@.len() - i,
    {
        let ghost before = symbols@;
        assert(crate::text::views(codes@).take(i + 1).drop_last() =~= crate::text::views(
            codes@,
        ).take(i as int));
        assert(crate::text::views(codes@).take(i + 1).last() == codes@[i as int]@);
        if !str_eq(codes[i].as_str(), base) {
            symbols.push(codes[i].clone());
            assert(crate::text::views(symbols@) =~= crate::text::views(before).push(
                codes@[i as int]@,
            ));
        }
        i = i + 1;
    }
    assert(crate::text::views(codes@).take(codes@.len() as int) =~= crate::text::views(codes@));
    assert(crate::text::views(symbols@).len() == symbols@.len());
    if symbols.len() == 0 {
        return None;
    }
    let mut url = "https://api.frankfurter.dev/v1/".to_string();
    let day = on.to_text();
    url.append(day.as_str());
    url.append("?base=");
    url.append(base);
    url.append("&symbols=");
    let list = crate::text::join(&symbols, ",");
    url.append(list.as_str());
    Some(url)
}

/// The codes other than `base`, in order.
pub open spec fn others(codes: Seq<Seq<char>>, base: Seq<char>) -> Seq<Seq<char>>
    decreases codes.len(),
{
    if codes.len() == 0 {
        Seq::empty()
    } else if codes.last() != base {
        others(codes.drop_last(), base).push(codes.last())
    } else {
        others(codes.drop_last(), base)
    }
}

/// Whether a stored rate is what one entry of a reply gives: the decimal as an exact rational,
/// under the date the source reported, never the date asked for.
pub open spec fn row_from(
    row: RateRow,
    entry: (Seq<char>, Seq<char>),
    base: Seq<char>,
    reported: Seq<char>,
) -> bool {
    let (whole, frac) = decimal_parts(entry.1);
    &&& row.base@ == base
    &&& row.quote@ == entry.0
    &&& row.as_of@ == reported
    &&& row.source@ == "ecb"@
    &&& number_in(whole + frac, i64::MIN as int, i64::MAX as int) == Some(row.rate.num as int)
    &&& row.rate.den == pow10(byte_len(frac) as nat)
    &&& row.rate.num > 0
}

/// Whether an entry of a reply can be stored.
pub open spec fn storable(entry: (Seq<char>, Seq<char>), base: Seq<char>) -> bool {
    let (whole, frac) = decimal_parts(entry.1);
    &&& byte_len(frac) <= 18
    &&& number_in(whole + frac, i64::MIN as int, i64::MAX as int) matches Some(n) && n > 0
    &&& base != entry.0
}

/// Whether this is why an entry of a reply cannot be stored.
pub open spec fn entry_refused(e: FxError, entry: (Seq<char>, Seq<char>), base: Seq<char>) -> bool {
    let (whole, frac) = decimal_parts(entry.1);
    if byte_len(frac) > 18 {
        e matches FxError::BadRate(m) && m@ == entry.1 + ": too many decimal places"@
    } else {
        match number_in(whole + frac, i64::MIN as int, i64::MAX as int) {
            None => e matches FxError::BadRate(m) && m@ == entry.1,
            Some(n) => if base == entry.0 {
                e matches FxError::SameCurrency(c) && c@ == base
            } else {
                n <= 0 && (e matches FxError::BadRate(m) && m@ == int_digits(n) + "/"@ + int_digits(
                    pow10(byte_len(frac) as nat) as int,
                ))
            },
        }
    }
}

/// Whether the stored rates are what the entries of a reply give, entry for entry.
pub open spec fn all_stored(
    rows: Seq<RateRow>,
    entries: Seq<(Seq<char>, Seq<char>)>,
    base: Seq<char>,
    reported: Seq<char>,
) -> bool {
    &&& rows.len() == entries.len()
    &&& forall|i: int|
        0 <= i < entries.len() ==> storable(#[trigger] entries[i], base) && row_from(
            rows[i],
            entries[i],
            base,
            reported,
        )
}

/// The rates that a reply gives to be stored, up to the first entry that cannot be, and why that one
/// cannot.
#[derive(Debug)]
pub struct RatesRead {
    pub rows: Vec<RateRow>,
    pub refused: Option<FxError>,
}

/// Whether these are the rates of the entries before the first that cannot be stored, and why it
/// cannot.
pub open spec fn rates_of(
    r: RatesRead,
    entries: Seq<(Seq<char>, Seq<char>)>,
    base: Seq<char>,
    reported: Seq<char>,
) -> bool {
    let n = r.rows@.len() as int;
    &&& n <= entries.len()
    &&& all_stored(r.rows@, entries.take(n), base, reported)
    &&& match r.refused {
        None => n == entries.len(),
        Some(e) => n < entries.len() && entry_refused(e, entries[n], base),
    }
}

/// The rates of a reply, each as an exact rational under the date the source reported. The first
/// entry that cannot be stored ends them.
pub fn rates_from(base: &str, reported: &str, entries: &Vec<(String, String)>) -> (r: RatesRead)
    ensures
        rates_of(r, entry_views(entries@), base@, reported@),
{
    let mut rows: Vec<RateRow> = Vec::new();
    let mut i: usize = 0;
    while i < entries.len()
        invariant
            i <= entries@.len(),
            rows@.len() == i,
            forall|j: int|
                0 <= j < i ==> storable(#[trigger] entry_views(entries@)[j], base@) && row_from(
                    rows@[j],
                    entry_views(entries@)[j],
                    base@,
                    reported@,
                ),
        decreases entries@.len() - i,
    {
        let ghost e = entry_views(entries@)[i as int];
        assert(e == (entries@[i as int].0@, entries@[i as int].1@));
        assert(entry_views(entries@).len() == entries@.len());
        let rate = match decimal_to_rate(entries[i].1.as_str()) {
            Ok(rate) => rate,
            Err(e) => {
                return RatesRead { rows, refused: Some(e) };
            },
        };
        proof {
            let (whole, frac) = decimal_parts(e.1);
            lemma_pow10(byte_len(frac) as nat);
        }
        match put_rate(base, entries[i].0.as_str(), reported, "ecb", rate) {
            Ok(row) => {
                assert(row_from(row, e, base@, reported@));
                rows.push(row);
            },
            Err(e) => {
                return RatesRead { rows, refused: Some(e) };
            },
        }
        i = i + 1;
    }
    RatesRead { rows, refused: None }
}

/// Read what the source answered: the date it reports and its rates against `base`. The rates before
/// one that cannot be stored are given with why it cannot.
pub fn read_rates(base: &str, body: &str) -> (r: Result<(String, RatesRead), FxError>)
    ensures
        match (json_text(body@, "date"@), json_entries(body@, "rates"@)) {
            (Err(e), _) => r matches Err(FxError::BadRate(m)) && m@ == "not JSON: "@ + e,
            (Ok(None), _) => r matches Err(FxError::BadRate(m)) && m@ == "response has no date"@,
            (Ok(Some(_)), Err(e)) => r matches Err(FxError::BadRate(m)) && m@ == "not JSON: "@ + e,
            (Ok(Some(_)), Ok(None)) => r matches Err(FxError::BadRate(m)) && m@
                == "response has no rates"@,
            (Ok(Some(date)), Ok(Some(entries))) => r matches Ok(p) && p.0@ == date && rates_of(
                p.1,
                entries,
                base@,
                date,
            ),
        },
{
    let reported = match text_under(body, "date") {
        Err(e) => {
            let mut m = "not JSON: ".to_string();
            m.append(e.as_str());
            return Err(FxError::BadRate(m));
        },
        Ok(None) => {
            return Err(FxError::BadRate("response has no date".to_string()));
        },
        Ok(Some(d)) => d,
    };
    let entries = match entries_under(body, "rates") {
        Err(e) => {
            let mut m = "not JSON: ".to_string();
            m.append(e.as_str());
            return Err(FxError::BadRate(m));
        },
        Ok(None) => {
            return Err(FxError::BadRate("response has no rates".to_string()));
        },
        Ok(Some(v)) => v,
    };
    let read = rates_from(base, reported.as_str(), &entries);
    Ok((reported, read))
}

} // verus!
