//! Integer money. The only place rounding is implemented.
//!
//! Amounts are signed minor units (pence, cents, satoshi) in an `i64`. A float that reaches an
//! amount is a bug that shows up years later as a penny that will not reconcile, so there is none.
//!
//! `minor_digits` runs 0..=8. Eight is not arbitrary: BTC's native precision is 8, and `i64` at 8
//! decimals still represents 92 billion units.

use crate::digits::{
    all_digits, digits_value, int_digits, int_text, is_digit, lemma_digits_len, lemma_nat_digits,
    lemma_padded, lemma_pow10, lemma_pow10_monotonic, lemma_value_concat, lemma_value_nonneg,
    nat_digits, nat_text, padded, padded_text, pow10, power_of_ten, value_of,
};
use crate::text::{
    chars_of, cut, index_of, is_white, lemma_index_bounds, lemma_index_of, lemma_trimmed_between, lemma_trimmed_ends,
    lemma_trimmed_id, lemma_trimmed_parts, quote, quoted, split_once, text_of, trim, trimmed,
};
use vstd::prelude::*;

verus! {

broadcast use vstd::string::group_string_axioms;

/// A signed amount in minor units. The currency is carried alongside, never inside.
pub type Minor = i64;

/// The most decimal places a currency may have.
pub const MAX_MINOR_DIGITS: u32 = 8;

/// Why an amount was refused.
#[derive(Debug, Clone, PartialEq, Eq)]
pub enum MoneyError {
    /// The text was not a number at all.
    NotANumber(String),
    /// More decimal places than the currency has. Refused rather than rounded: silently dropping a
    /// digit from imported data is how a ledger acquires a discrepancy nobody can trace.
    TooPrecise { got: u32, allowed: u32 },
    /// Outside `i64` after scaling.
    Overflow(String),
    /// `minor_digits` outside `0..=MAX_MINOR_DIGITS`.
    BadScale(u32),
}

impl MoneyError {
    /// The message, as a sequence of characters.
    pub open spec fn text(self) -> Seq<char> {
        match self {
            MoneyError::NotANumber(s) => "not a number: "@ + quoted(s@),
            MoneyError::TooPrecise { got, allowed } => int_digits(got as int)
                + " decimal places but the currency allows "@ + int_digits(allowed as int),
            MoneyError::Overflow(s) => "amount out of range: "@ + quoted(s@),
            MoneyError::BadScale(d) => "minor_digits "@ + int_digits(d as int) + " outside 0..=8"@,
        }
    }

    /// The message a person reads.
    pub fn to_text(&self) -> (r: String)
        ensures
            r@ == self.text(),
    {
        let mut out = String::new();
        match self {
            MoneyError::NotANumber(s) => {
                out.append("not a number: ");
                let q = quote(s.as_str());
                out.append(q.as_str());
            },
            MoneyError::TooPrecise { got, allowed } => {
                let g = int_text(*got as i128);
                let a = int_text(*allowed as i128);
                out.append(g.as_str());
                out.append(" decimal places but the currency allows ");
                out.append(a.as_str());
            },
            MoneyError::Overflow(s) => {
                out.append("amount out of range: ");
                let q = quote(s.as_str());
                out.append(q.as_str());
            },
            MoneyError::BadScale(d) => {
                let t = int_text(*d as i128);
                out.append("minor_digits ");
                out.append(t.as_str());
                out.append(" outside 0..=8");
            },
        }
        assert(out@ =~= self.text());
        out
    }
}

/// `num / den` to the nearest whole number, halves away from zero.
pub open spec fn rounded(num: int, den: int) -> int {
    let n = if den < 0 {
        -num
    } else {
        num
    };
    let d = if den < 0 {
        -den
    } else {
        den
    };
    if n >= 0 {
        (2 * n + d) / (2 * d)
    } else {
        -((2 * -n + d) / (2 * d))
    }
}

/// Rounding takes the nearest whole number: what it is off by is at most half the denominator.
pub proof fn law_rounding_is_nearest(num: int, den: int)
    requires
        den != 0,
    ensures
        -(if den < 0 {
            -den
        } else {
            den
        }) <= 2 * (num - den * rounded(num, den)) <= (if den < 0 {
            -den
        } else {
            den
        }),
{
    let n = if den < 0 {
        -num
    } else {
        num
    };
    let d = if den < 0 {
        -den
    } else {
        den
    };
    let m = if n >= 0 {
        n
    } else {
        -n
    };
    let q = (2 * m + d) / (2 * d);
    assert(2 * d * q <= 2 * m + d < 2 * d * q + 2 * d) by (nonlinear_arith)
        requires
            q == (2 * m + d) / (2 * d),
            d > 0,
    ;
    let r = rounded(num, den);
    assert(d * q == q * d) by (nonlinear_arith);
    assert(2 * d * q == 2 * (d * q)) by (nonlinear_arith);
    if den < 0 {
        assert(den * r == -(d * r)) by (nonlinear_arith)
            requires
                den == -d,
        ;
    }
    if n < 0 {
        assert(d * r == -(d * q)) by (nonlinear_arith)
            requires
                r == -q,
        ;
    }
}

/// A half goes away from zero.
pub proof fn law_halves_go_away_from_zero(whole: int, den: int)
    requires
        den > 0,
        whole >= 0,
    ensures
        rounded(2 * whole * den + den, 2 * den) == whole + 1,
        rounded(-(2 * whole * den + den), 2 * den) == -(whole + 1),
{
    let n = 2 * whole * den + den;
    assert(n >= 0) by (nonlinear_arith)
        requires
            n == 2 * whole * den + den,
            whole >= 0,
            den > 0,
    ;
    assert((2 * n + 2 * den) / (2 * (2 * den)) == whole + 1) by (nonlinear_arith)
        requires
            n == 2 * whole * den + den,
            den > 0,
    ;
}

/// Rounding a negated value gives the negated result, whichever side the sign stands on.
pub proof fn law_rounding_is_symmetric(num: int, den: int)
    requires
        den != 0,
    ensures
        rounded(-num, den) == -rounded(num, den),
        rounded(num, -den) == -rounded(num, den),
{
    let d = if den < 0 {
        -den
    } else {
        den
    };
    if num == 0 {
        assert((2 * 0 + d) / (2 * d) == 0) by (nonlinear_arith)
            requires
                d > 0,
        ;
    }
}

/// Dividing by one or more leaves no more than there was.
pub proof fn lemma_rounded_bound(num: int, den: int)
    requires
        den >= 1,
    ensures
        num >= 0 ==> 0 <= rounded(num, den) <= num,
        num <= 0 ==> num <= rounded(num, den) <= 0,
{
    let m = if num >= 0 {
        num
    } else {
        -num
    };
    assert(0 <= (2 * m + den) / (2 * den) <= m) by (nonlinear_arith)
        requires
            den >= 1,
            m >= 0,
    ;
}

/// The magnitude of a number.
fn magnitude(n: i128) -> (r: u128)
    ensures
        r == (if n < 0 {
            -(n as int)
        } else {
            n as int
        }),
{
    if n < 0 {
        (-(n + 1)) as u128 + 1
    } else {
        n as u128
    }
}

/// Round `num / den` to the nearest integer, halves away from zero.
///
/// Half away from zero (not banker's rounding) because that is what UK consumer finance does: a
/// statement showing 0.5p of interest charges 1p. This is the single implementation, so interest,
/// FX valuation and apportionment cannot disagree.
///
/// Takes `i128` so a caller may multiply two `i64`s before dividing without overflowing first.
pub fn round_half_away(num: i128, den: i128) -> (r: Result<Minor, MoneyError>)
    requires
        den != 0,
    ensures
        match r {
            Ok(v) => v == rounded(num as int, den as int),
            Err(e) => !(i64::MIN <= rounded(num as int, den as int) <= i64::MAX) && (e matches
                MoneyError::Overflow(s) && s@ == int_digits(rounded(num as int, den as int))),
        },
{
    let negative = (num < 0) != (den < 0);
    let m: u128 = magnitude(num);
    let d: u128 = magnitude(den);
    let q: u128 = m / d;
    let r: u128 = m % d;
    assert(m == d * q + r && r < d) by (nonlinear_arith)
        requires
            q == m / d,
            r == m % d,
            d > 0,
    ;
    assert(q <= m) by (nonlinear_arith)
        requires
            m == d * q + r,
            d > 0,
            q >= 0,
            r >= 0,
    ;
    let up: bool = r >= d - r;
    assert(up ==> q < u128::MAX);
    let b: u128 = if up {
        q + 1
    } else {
        q
    };
    proof {
        let x = 2 * (m as int) + (d as int);
        let w = 2 * (d as int);
        let rest = if up {
            2 * (r as int) - (d as int)
        } else {
            2 * (r as int) + (d as int)
        };
        assert(x == w * (b as int) + rest) by (nonlinear_arith)
            requires
                m == d * q + r,
                x == 2 * (m as int) + (d as int),
                w == 2 * (d as int),
                up ==> b == q + 1 && rest == 2 * (r as int) - (d as int),
                !up ==> b == q && rest == 2 * (r as int) + (d as int),
        ;
        assert(x / w == b) by (nonlinear_arith)
            requires
                x == w * (b as int) + rest,
                0 <= rest < w,
        ;
        if num == 0 {
            assert(b == 0);
        }
        assert(rounded(num as int, den as int) == (if negative {
            -(b as int)
        } else {
            b as int
        }));
    }
    if negative {
        if b <= 9_223_372_036_854_775_808u128 {
            Ok((-(b as i128)) as i64)
        } else {
            let mut s = String::new();
            s.push('-');
            let t = nat_text(b);
            s.append(t.as_str());
            assert(s@ =~= int_digits(-(b as int)));
            Err(MoneyError::Overflow(s))
        }
    } else {
        if b <= 9_223_372_036_854_775_807u128 {
            Ok(b as i64)
        } else {
            Err(MoneyError::Overflow(nat_text(b)))
        }
    }
}

/// What reading an amount comes to.
pub enum Reading {
    /// The currency's scale is out of range.
    BadScale,
    /// The text is no amount.
    NotANumber,
    /// The text has this many decimal places, more than the currency has.
    TooPrecise(int),
    /// The amount does not fit.
    OutOfRange,
    /// The amount, in minor units.
    Minor(int),
}

/// The characters that carry no value: separators and currency symbols.
pub open spec fn is_filler(c: char) -> bool {
    c == ',' || c == ' ' || c == '\u{00a0}' || c == '\u{202f}' || c == '_' || c == '£' || c == '$'
        || c == '€' || c == '¥'
}

/// The two characters that make an amount negative when they stand first.
pub open spec fn is_minus(c: char) -> bool {
    c == '-' || c == '\u{2212}'
}

/// The digits among `s`, in order.
pub open spec fn digits_of(s: Seq<char>) -> Seq<char>
    decreases s.len(),
{
    if s.len() == 0 {
        Seq::empty()
    } else if is_digit(s.last()) {
        digits_of(s.drop_last()).push(s.last())
    } else {
        digits_of(s.drop_last())
    }
}

/// How many decimal points stand in `s`.
pub open spec fn points(s: Seq<char>) -> int
    decreases s.len(),
{
    if s.len() == 0 {
        0
    } else {
        points(s.drop_last()) + (if s.last() == '.' {
            1int
        } else {
            0
        })
    }
}

/// How many digits of `s` stand behind a decimal point.
pub open spec fn places(s: Seq<char>) -> int
    decreases s.len(),
{
    if s.len() == 0 {
        0
    } else {
        places(s.drop_last()) + (if is_digit(s.last()) && points(s.drop_last()) > 0 {
            1int
        } else {
            0
        })
    }
}

/// Whether a comma of an amount may be meant for its decimal point: it is the only one, no point
/// follows it, and what follows has digits, but not the three of a group of thousands.
pub open spec fn has_decimal_comma(s: Seq<char>) -> bool {
    match cut(s, ',') {
        Some(p) => !p.1.contains(',') && !p.1.contains('.') && digits_of(p.1).len() != 0
            && digits_of(p.1).len() != 3,
        None => false,
    }
}

/// Whether the character at `i` may stand in an amount.
pub open spec fn may_stand(s: Seq<char>, i: int) -> bool {
    let c = s[i];
    ||| is_digit(c)
    ||| c == '.' && points(s.take(i)) == 0
    ||| is_filler(c)
    ||| i == 0 && (is_minus(c) || c == '+')
}

/// Whether `s` is an amount's sign, digits, point and fillers, and nothing else.
pub open spec fn well_formed(s: Seq<char>) -> bool {
    &&& forall|i: int| 0 <= i < s.len() ==> #[trigger] may_stand(s, i)
    &&& digits_of(s).len() > 0
}

/// Whether an amount stands in the accountant's parentheses.
pub open spec fn in_parens(raw: Seq<char>) -> bool {
    raw.len() >= 2 && raw[0] == '(' && raw.last() == ')'
}

/// An amount's text without the parentheses it may stand in.
pub open spec fn amount_body(raw: Seq<char>) -> Seq<char> {
    if in_parens(raw) {
        trimmed(raw.subrange(1, raw.len() - 1))
    } else {
        raw
    }
}

/// What reading `text` as an amount of a currency with `minor_digits` places comes to.
pub open spec fn reading(text: Seq<char>, minor_digits: int) -> Reading {
    let raw = trimmed(text);
    let body = amount_body(raw);
    let negative = in_parens(raw) || (body.len() > 0 && is_minus(body[0]));
    let value = value_of(digits_of(body)) * pow10((minor_digits - places(body)) as nat);
    let signed = if negative {
        -value
    } else {
        value
    };
    if minor_digits > MAX_MINOR_DIGITS {
        Reading::BadScale
    } else if !well_formed(body) {
        Reading::NotANumber
    } else if places(body) > minor_digits {
        Reading::TooPrecise(places(body))
    } else if has_decimal_comma(body) {
        Reading::NotANumber
    } else if i64::MIN <= signed <= i64::MAX {
        Reading::Minor(signed)
    } else {
        Reading::OutOfRange
    }
}

proof fn lemma_places_bounds(s: Seq<char>)
    ensures
        0 <= places(s) <= digits_of(s).len() <= s.len(),
        points(s) >= 0,
        all_digits(digits_of(s)),
    decreases s.len(),
{
    if s.len() > 0 {
        lemma_places_bounds(s.drop_last());
    }
}

/// The part of an amount between its parentheses, if it stands in a pair.
fn strip_parens(raw: &Vec<char>) -> (r: Option<String>)
    ensures
        match r {
            Some(s) => in_parens(raw@) && s@ == amount_body(raw@),
            None => !in_parens(raw@),
        },
{
    if raw.len() >= 2 && raw[0] == '(' && raw[raw.len() - 1] == ')' {
        let inner = text_of(raw, 1, raw.len() - 1);
        Some(trim(inner.as_str()))
    } else {
        None
    }
}

/// `value` ten-folded `times` times, or `None` where that leaves the range of an amount.
fn scale_up(value: u128, times: u32) -> (r: Option<u128>)
    requires
        times <= 8,
    ensures
        match r {
            Some(v) => v == value * pow10(times as nat),
            None => value * pow10(times as nat) > 10_000_000_000_000_000_000,
        },
{
    let p: u128 = power_of_ten(times);
    proof {
        lemma_pow10(times as nat);
        lemma_pow10_monotonic(times as nat, 8);
        reveal_with_fuel(pow10, 9);
        assert(value * p >= value) by (nonlinear_arith)
            requires
                p >= 1,
                value >= 0,
        ;
    }
    if value > 10_000_000_000_000_000_000u128 {
        return None;
    }
    assert(value * p <= 10_000_000_000_000_000_000 * 100_000_000) by (nonlinear_arith)
        requires
            0 <= value <= 10_000_000_000_000_000_000,
            1 <= p <= 100_000_000,
    ;
    Some(value * p)
}

/// Whether the character is a digit.
fn digit(c: char) -> (r: bool)
    ensures
        r == is_digit(c),
{
    let code: u32 = c as u32;
    code >= 48 && code <= 57
}

/// Whether a comma of an amount may be meant for its decimal point.
fn comma_is_decimal(body: &str) -> (r: bool)
    ensures
        r == has_decimal_comma(body@),
{
    let tail = match split_once(body, ',') {
        Some((_, t)) => t,
        None => return false,
    };
    let v = chars_of(tail.as_str());
    let mut n: usize = 0;
    let mut i: usize = 0;
    assert(v@.take(0) =~= Seq::<char>::empty());
    while i < v.len()
        invariant
            i <= v@.len(),
            n <= i,
            v@ == tail@,
            cut(body@, ',') matches Some(p) && p.1 == tail@,
            n == digits_of(v@.take(i as int)).len(),
            forall|k: int| 0 <= k < i ==> v@[k] != ',' && v@[k] != '.',
        decreases v@.len() - i,
    {
        assert(v@.take(i + 1).drop_last() =~= v@.take(i as int));
        if v[i] == ',' || v[i] == '.' {
            assert(tail@.contains(v@[i as int]));
            return false;
        }
        if digit(v[i]) {
            n = n + 1;
        }
        i = i + 1;
    }
    assert(v@.take(v@.len() as int) =~= v@);
    n != 0 && n != 3
}

/// Parse a human or CSV amount into minor units for a currency with `minor_digits`.
///
/// Deliberately tolerant of what real bank exports contain -- currency symbols, thousands
/// separators, non-breaking spaces, and parentheses for negatives -- and deliberately intolerant of
/// excess precision, which is a data problem rather than a formatting one. A comma is a thousands
/// separator, never a decimal point: a European "1,50" is refused rather than silently read.
pub fn parse_minor(text: &str, minor_digits: u32) -> (r: Result<Minor, MoneyError>)
    ensures
        match r {
            Ok(v) => reading(text@, minor_digits as int) == Reading::Minor(v as int),
            Err(MoneyError::NotANumber(s)) => reading(text@, minor_digits as int)
                == Reading::NotANumber && s@ == text@,
            Err(MoneyError::TooPrecise { got, allowed }) => allowed == minor_digits && (reading(
                text@,
                minor_digits as int,
            ) matches Reading::TooPrecise(n) && got == (if n > u32::MAX {
                u32::MAX as int
            } else {
                n
            })),
            Err(MoneyError::Overflow(s)) => reading(text@, minor_digits as int)
                == Reading::OutOfRange && s@ == text@,
            Err(MoneyError::BadScale(d)) => reading(text@, minor_digits as int) == Reading::BadScale
                && d == minor_digits,
        },
{
    if minor_digits > MAX_MINOR_DIGITS {
        return Err(MoneyError::BadScale(minor_digits));
    }
    let raw = trim(text);
    let raw_chars = chars_of(raw.as_str());
    let (body_text, paren_neg) = match strip_parens(&raw_chars) {
        Some(inner) => (inner, true),
        None => (raw, false),
    };
    let body = chars_of(body_text.as_str());
    assert(body@ == amount_body(trimmed(text@)));

    let mut digits: Vec<char> = Vec::new();
    let mut seen_dot = false;
    let mut neg = false;
    let mut frac: u32 = 0;
    let mut i: usize = 0;
    assert(body@.take(0) =~= Seq::<char>::empty());
    while i < body.len()
        invariant
            i <= body@.len(),
            body@ == amount_body(trimmed(text@)),
            minor_digits <= 8,
            digits@ == digits_of(body@.take(i as int)),
            seen_dot == (points(body@.take(i as int)) > 0),
            frac == (if places(body@.take(i as int)) > u32::MAX {
                u32::MAX as int
            } else {
                places(body@.take(i as int))
            }),
            neg == (i > 0 && is_minus(body@[0])),
            forall|k: int| 0 <= k < i ==> #[trigger] may_stand(body@, k),
        decreases body@.len() - i,
    {
        let ch = body[i];
        let code: u32 = ch as u32;
        proof {
            assert(body@.take(i + 1).drop_last() =~= body@.take(i as int));
            assert(body@.take(i + 1).last() == ch);
            lemma_places_bounds(body@.take(i as int));
        }
        if code >= 48 && code <= 57 {
            digits.push(ch);
            if seen_dot && frac < u32::MAX {
                frac = frac + 1;
            }
        } else if i == 0 && (ch == '-' || ch == '\u{2212}') {
            neg = true;
        } else if i == 0 && ch == '+' {
        } else if ch == '.' && !seen_dot {
            seen_dot = true;
        } else if ch == ',' || ch == ' ' || ch == '\u{00a0}' || ch == '\u{202f}' || ch == '_' || ch
            == '£' || ch == '$' || ch == '€' || ch == '¥' {
        } else {
            assert(!may_stand(body@, i as int));
            return Err(MoneyError::NotANumber(text.to_string()));
        }
        assert(may_stand(body@, i as int));
        i = i + 1;
    }
    assert(body@.take(body@.len() as int) =~= body@);
    if digits.len() == 0 {
        return Err(MoneyError::NotANumber(text.to_string()));
    }
    proof {
        lemma_places_bounds(body@);
        lemma_value_nonneg(digits@);
        assert(digits@.subrange(0, digits@.len() as int) =~= digits@);
        lemma_pow10((minor_digits - frac) as nat);
    }
    if frac > minor_digits {
        return Err(MoneyError::TooPrecise { got: frac, allowed: minor_digits });
    }
    if comma_is_decimal(body_text.as_str()) {
        return Err(MoneyError::NotANumber(text.to_string()));
    }
    let value: u128 = match digits_value(&digits, 0, digits.len()) {
        Some(v) => v,
        None => {
            proof {
                let p = pow10((minor_digits - frac) as nat);
                let d = value_of(digits@);
                assert(d * p >= d) by (nonlinear_arith)
                    requires
                        p >= 1,
                        d >= 0,
                ;
            }
            return Err(MoneyError::Overflow(text.to_string()));
        },
    };
    let scaled: u128 = match scale_up(value, minor_digits - frac) {
        Some(v) => v,
        None => {
            return Err(MoneyError::Overflow(text.to_string()));
        },
    };
    if neg || paren_neg {
        if scaled <= 9_223_372_036_854_775_808u128 {
            Ok((-(scaled as i128)) as i64)
        } else {
            Err(MoneyError::Overflow(text.to_string()))
        }
    } else {
        if scaled <= 9_223_372_036_854_775_807u128 {
            Ok(scaled as i64)
        } else {
            Err(MoneyError::Overflow(text.to_string()))
        }
    }
}

/// An amount as a plain decimal with exactly `minor_digits` places.
pub open spec fn minor_text(amount: int, minor_digits: int) -> Seq<char> {
    let abs = if amount < 0 {
        -amount
    } else {
        amount
    };
    let scale = pow10(minor_digits as nat) as int;
    if minor_digits == 0 {
        int_digits(amount)
    } else {
        (if amount < 0 {
            seq!['-']
        } else {
            Seq::empty()
        }) + nat_digits((abs / scale) as nat) + seq!['.'] + padded(
            (abs % scale) as nat,
            minor_digits,
        )
    }
}

/// Render minor units as a plain decimal string. No symbol, no thousands separators, always
/// exactly `minor_digits` places -- this is for round-tripping and export, not for display chrome.
pub fn format_minor(amount: Minor, minor_digits: u32) -> (r: String)
    requires
        minor_digits <= 38,
    ensures
        r@ == minor_text(amount as int, minor_digits as int),
{
    if minor_digits == 0 {
        return int_text(amount as i128);
    }
    let neg = amount < 0;
    // Via i128: (-i64::MIN) overflows i64.
    let abs: u128 = magnitude(amount as i128);
    let scale: u128 = power_of_ten(minor_digits);
    proof {
        lemma_pow10(minor_digits as nat);
    }
    let whole = nat_text(abs / scale);
    let frac = padded_text(abs % scale, minor_digits as usize);
    let mut out = String::new();
    if neg {
        out.push('-');
    }
    out.append(whole.as_str());
    out.push('.');
    out.append(frac.as_str());
    assert(out@ =~= minor_text(amount as int, minor_digits as int));
    out
}

proof fn lemma_digits_of_digits(s: Seq<char>)
    requires
        all_digits(s),
    ensures
        digits_of(s) == s,
        points(s) == 0,
        places(s) == 0,
    decreases s.len(),
{
    if s.len() > 0 {
        assert(is_digit(s[s.len() - 1]));
        assert forall|i: int| 0 <= i < s.drop_last().len() implies is_digit(
            #[trigger] s.drop_last()[i],
        ) by {
            assert(is_digit(s[i]));
        }
        lemma_digits_of_digits(s.drop_last());
        assert(s.drop_last().push(s.last()) =~= s);
    }
}

/// A decimal point behind `a` and digits `b` behind that: every digit counts, those of `b` as
/// decimal places.
proof fn lemma_decimal(a: Seq<char>, b: Seq<char>)
    requires
        all_digits(b),
    ensures
        digits_of(a.push('.') + b) == digits_of(a) + b,
        points(a.push('.') + b) == points(a) + 1,
        places(a.push('.') + b) == places(a) + b.len(),
        points(a) >= 0,
    decreases b.len(),
{
    lemma_places_bounds(a);
    let s = a.push('.') + b;
    if b.len() == 0 {
        assert(s =~= a.push('.'));
        assert(s.drop_last() =~= a);
        assert(digits_of(a) + b =~= digits_of(a));
    } else {
        assert(is_digit(b[b.len() - 1]));
        assert forall|i: int| 0 <= i < b.drop_last().len() implies is_digit(
            #[trigger] b.drop_last()[i],
        ) by {
            assert(is_digit(b[i]));
        }
        lemma_decimal(a, b.drop_last());
        assert(s.drop_last() =~= a.push('.') + b.drop_last());
        assert((digits_of(a) + b.drop_last()).push(b.last()) =~= digits_of(a) + b);
    }
}

/// A minus sign in front of digits is no digit itself.
proof fn lemma_signed_digits(a: Seq<char>)
    requires
        all_digits(a),
    ensures
        digits_of(seq!['-'] + a) == a,
        points(seq!['-'] + a) == 0,
        places(seq!['-'] + a) == 0,
    decreases a.len(),
{
    let s = seq!['-'] + a;
    if a.len() == 0 {
        assert(s.drop_last() =~= Seq::<char>::empty());
        assert(s.last() == '-');
        assert(a =~= Seq::<char>::empty());
        assert(digits_of(s.drop_last()) =~= a);
        assert(points(s.drop_last()) == 0);
        assert(places(s.drop_last()) == 0);
    } else {
        assert(is_digit(a[a.len() - 1]));
        assert forall|i: int| 0 <= i < a.drop_last().len() implies is_digit(
            #[trigger] a.drop_last()[i],
        ) by {
            assert(is_digit(a[i]));
        }
        lemma_signed_digits(a.drop_last());
        assert(s.drop_last() =~= seq!['-'] + a.drop_last());
        assert(a.drop_last().push(a.last()) =~= a);
    }
}

/// What an amount is written as reads back as the amount, at every scale a currency may have.
pub proof fn law_written_amounts_read_back(amount: i64, minor_digits: u32)
    requires
        minor_digits <= MAX_MINOR_DIGITS,
    ensures
        reading(minor_text(amount as int, minor_digits as int), minor_digits as int)
            == Reading::Minor(amount as int),
{
    let n = amount as int;
    let md = minor_digits as int;
    let abs: int = if n < 0 {
        -n
    } else {
        n
    };
    let text = minor_text(n, md);
    let scale = pow10(md as nat) as int;
    lemma_pow10(md as nat);
    let whole = if md == 0 {
        nat_digits(abs as nat)
    } else {
        nat_digits((abs / scale) as nat)
    };
    let head = if n < 0 {
        seq!['-'] + whole
    } else {
        whole
    };
    lemma_nat_digits(abs as nat);
    lemma_nat_digits((abs / scale) as nat);
    assert(abs / scale >= 0) by (nonlinear_arith)
        requires
            abs >= 0,
            scale >= 1,
    ;
    lemma_digits_of_digits(whole);
    lemma_signed_digits(whole);
    let tail = padded((abs % scale) as nat, md);
    lemma_padded((abs % scale) as nat, md);
    if md > 0 {
        lemma_digits_len((abs % scale) as nat, md as nat);
        assert(text =~= head.push('.') + tail);
        lemma_decimal(head, tail);
        lemma_value_concat(whole, tail);
        assert(abs == (abs / scale) * scale + abs % scale) by (nonlinear_arith)
            requires
                scale >= 1,
        ;
    } else {
        assert(text =~= head);
        lemma_pow10(0);
        assert(scale == 1);
    }
    let all = digits_of(text);
    assert(value_of(all) == abs);
    assert(places(text) == md);
    assert(abs * pow10(0) == abs) by {
        assert(pow10(0) == 1);
    }
    assert(is_digit(whole[0]));
    let last = text.last();
    assert(is_digit(last)) by {
        if md > 0 {
            assert(is_digit(tail[tail.len() - 1]));
            assert(text.last() == tail[tail.len() - 1]);
        } else {
            assert(is_digit(whole[whole.len() - 1]));
        }
    }
    assert(text[0] == head[0]);
    assert(n >= 0 ==> is_digit(text[0]));
    lemma_trimmed_id(text);
    assert(trimmed(text) == text);
    assert(!in_parens(text));
    assert forall|i: int| 0 <= i < text.len() implies #[trigger] may_stand(text, i) by {
        if i < head.len() {
            if i == 0 && n < 0 {
            } else {
                let k = if n < 0 {
                    i - 1
                } else {
                    i
                };
                assert(is_digit(whole[k]));
                assert(text[i] == whole[k]);
            }
        } else if i == head.len() {
            assert(text.take(i) =~= head);
        } else {
            assert(is_digit(tail[i - head.len() - 1]));
        }
    }
    assert(all.len() > 0);
    assert(!text.contains(',')) by {
        if text.contains(',') {
            let j = choose|j: int| 0 <= j < text.len() && text[j] == ',';
            assert(may_stand(text, j));
            if j < head.len() {
                if !(j == 0 && n < 0) {
                    let k = if n < 0 {
                        j - 1
                    } else {
                        j
                    };
                    assert(is_digit(whole[k]));
                    assert(text[j] == whole[k]);
                }
            } else if j > head.len() {
                assert(is_digit(tail[j - head.len() - 1]));
            }
        }
    }
    lemma_no_comma(text);
}

/// An amount with more places than its currency has is never read: it is refused, not rounded.
pub proof fn law_excess_precision_is_refused(text: Seq<char>, minor_digits: u32)
    requires
        minor_digits <= MAX_MINOR_DIGITS,
        places(amount_body(trimmed(text))) > minor_digits,
    ensures
        !(reading(text, minor_digits as int) is Minor),
{
}

/// A sign in front of an amount adds no digit and no place.
proof fn lemma_behind_a_sign(c: char, s: Seq<char>)
    requires
        is_minus(c),
    ensures
        digits_of(seq![c] + s) == digits_of(s),
        points(seq![c] + s) == points(s),
        places(seq![c] + s) == places(s),
    decreases s.len(),
{
    let t = seq![c] + s;
    if s.len() == 0 {
        assert(t.drop_last() =~= s);
        assert(t.last() == c);
        assert(digits_of(t.drop_last()) == digits_of(s));
        assert(points(t.drop_last()) == 0);
    } else {
        lemma_behind_a_sign(c, s.drop_last());
        assert(t.drop_last() =~= seq![c] + s.drop_last());
        assert(t.last() == s.last());
    }
}

/// A sign in front of an amount makes nothing of its comma.
proof fn lemma_comma_behind_a_sign(c: char, s: Seq<char>)
    requires
        is_minus(c),
    ensures
        has_decimal_comma(seq![c] + s) == has_decimal_comma(s),
{
    let t = seq![c] + s;
    assert(t.drop_first() =~= s);
    assert(index_of(t, ',') == 1 + index_of(s, ','));
    let i = index_of(s, ',');
    lemma_index_bounds(s, ',');
    if i < s.len() {
        assert(t.skip(i + 2) =~= s.skip(i + 1));
    }
}

/// A text without a comma has none that may be a decimal point.
proof fn lemma_no_comma(s: Seq<char>)
    requires
        !s.contains(','),
    ensures
        !has_decimal_comma(s),
{
    assert forall|j: int| 0 <= j < s.len() implies s[j] != ',' by {
        if s[j] == ',' {
            assert(s.contains(s[j]));
        }
    }
    lemma_index_of(s, ',', s.len() as int);
}

/// A well-formed amount that begins with a digit is well-formed behind a minus sign.
proof fn lemma_well_formed_behind_a_sign(c: char, s: Seq<char>)
    requires
        is_minus(c),
        well_formed(s),
        s.len() > 0,
        is_digit(s[0]),
    ensures
        well_formed(seq![c] + s),
{
    let t = seq![c] + s;
    lemma_behind_a_sign(c, s);
    assert forall|i: int| 0 <= i < t.len() implies #[trigger] may_stand(t, i) by {
        if i > 0 {
            assert(may_stand(s, i - 1));
            assert(t[i] == s[i - 1]);
            assert(t.take(i) =~= seq![c] + s.take(i - 1));
            lemma_behind_a_sign(c, s.take(i - 1));
        }
    }
}

/// A leading minus, of either kind, makes an amount its opposite, and so do parentheses, which do not
/// undo a minus between them.
pub proof fn law_a_minus_or_parentheses_give_the_opposite(
    s: Seq<char>,
    minus: char,
    minor_digits: u32,
    v: int,
)
    requires
        trimmed(s) == s,
        s.len() > 0,
        is_digit(s[0]),
        is_minus(minus),
        reading(s, minor_digits as int) == Reading::Minor(v),
    ensures
        v >= 0,
        reading(seq![minus] + s, minor_digits as int) == Reading::Minor(-v),
        reading(seq!['('] + s + seq![')'], minor_digits as int) == Reading::Minor(-v),
        reading(seq!['('] + seq![minus] + s + seq![')'], minor_digits as int)
            == Reading::Minor(-v),
{
    let md = minor_digits as int;
    let t = seq![minus] + s;
    assert(!in_parens(s));
    lemma_behind_a_sign(minus, s);
    lemma_well_formed_behind_a_sign(minus, s);
    lemma_comma_behind_a_sign(minus, s);
    lemma_places_bounds(s);
    lemma_value_nonneg(digits_of(s));
    lemma_pow10((md - places(s)) as nat);
    assert(value_of(digits_of(s)) * pow10((md - places(s)) as nat) >= 0) by (nonlinear_arith)
        requires
            value_of(digits_of(s)) >= 0,
            pow10((md - places(s)) as nat) >= 1,
    ;
    lemma_trimmed_ends(s);
    assert(t.last() == s.last());
    lemma_trimmed_id(t);
    assert(!in_parens(t));
    let p = seq!['('] + s + seq![')'];
    lemma_trimmed_id(p);
    assert(p.subrange(1, p.len() - 1) =~= s);
    let q = seq!['('] + seq![minus] + s + seq![')'];
    lemma_trimmed_id(q);
    assert(q.subrange(1, q.len() - 1) =~= t);
}

/// A text without its separators and currency symbols.
pub open spec fn plain(s: Seq<char>) -> Seq<char>
    decreases s.len(),
{
    if s.len() == 0 {
        s
    } else if is_filler(s.last()) {
        plain(s.drop_last())
    } else {
        plain(s.drop_last()).push(s.last())
    }
}

proof fn lemma_plain_concat(a: Seq<char>, b: Seq<char>)
    ensures
        plain(a + b) == plain(a) + plain(b),
    decreases b.len(),
{
    if b.len() == 0 {
        assert(a + b =~= a);
        assert(plain(a) + plain(b) =~= plain(a));
    } else {
        lemma_plain_concat(a, b.drop_last());
        assert((a + b).drop_last() =~= a + b.drop_last());
        assert((a + b).last() == b.last());
        if !is_filler(b.last()) {
            assert((plain(a) + plain(b.drop_last())).push(b.last()) =~= plain(a) + plain(b));
        }
    }
}

/// What is left of a text are characters of it that are no fillers.
proof fn lemma_plain_kept(s: Seq<char>, j: int)
    requires
        0 <= j < plain(s).len(),
    ensures
        !is_filler(plain(s)[j]),
        exists|i: int| 0 <= i < s.len() && s[i] == plain(s)[j],
    decreases s.len(),
{
    let rest = plain(s.drop_last());
    if j < rest.len() {
        lemma_plain_kept(s.drop_last(), j);
        let i = choose|i: int| 0 <= i < s.drop_last().len() && s.drop_last()[i] == rest[j];
        assert(s[i] == plain(s)[j]);
    } else {
        assert(s[s.len() - 1] == plain(s)[j]);
    }
}

proof fn lemma_plain_counts(s: Seq<char>)
    ensures
        digits_of(plain(s)) == digits_of(s),
        points(plain(s)) == points(s),
        places(plain(s)) == places(s),
    decreases s.len(),
{
    if s.len() > 0 {
        lemma_plain_counts(s.drop_last());
        if !is_filler(s.last()) {
            assert(plain(s).drop_last() =~= plain(s.drop_last()));
        }
    }
}

/// The fillers of an amount that may stand can be left out.
proof fn lemma_plain_stands(s: Seq<char>, n: int)
    requires
        0 <= n <= s.len(),
        forall|i: int| 0 <= i < s.len() ==> #[trigger] may_stand(s, i),
    ensures
        forall|j: int| 0 <= j < plain(s.take(n)).len() ==> #[trigger] may_stand(plain(s.take(n)), j),
    decreases n,
{
    if n > 0 {
        lemma_plain_stands(s, n - 1);
        let before = plain(s.take(n - 1));
        let now = plain(s.take(n));
        assert(s.take(n).drop_last() =~= s.take(n - 1));
        assert(may_stand(s, n - 1));
        assert forall|j: int| 0 <= j < now.len() implies #[trigger] may_stand(now, j) by {
            if j < before.len() {
                assert(may_stand(before, j));
                lemma_plain_kept(s.take(n - 1), j);
                assert(now[j] == before[j]);
                assert(now.take(j) =~= before.take(j));
            } else {
                assert(now.take(j) =~= before);
                lemma_plain_counts(s.take(n - 1));
                if n == 1 {
                    assert(s.take(0) =~= Seq::<char>::empty());
                }
            }
        }
    }
}

/// Only a minus that stood first stands first once the fillers are left out.
proof fn lemma_plain_sign(s: Seq<char>)
    requires
        forall|i: int| 0 <= i < s.len() ==> #[trigger] may_stand(s, i),
        plain(s).len() > 0,
    ensures
        s.len() > 0,
        is_minus(plain(s)[0]) == is_minus(s[0]),
{
    let head = s.take(1);
    let tail = s.skip(1);
    assert(s =~= head + tail);
    lemma_plain_concat(head, tail);
    assert(head.drop_last() =~= Seq::<char>::empty());
    assert(head.last() == s[0]);
    reveal_with_fuel(plain, 2);
    if is_filler(s[0]) {
        assert(plain(head) =~= Seq::<char>::empty());
        assert(plain(s) =~= plain(tail));
        lemma_plain_kept(tail, 0);
        let i = choose|i: int| 0 <= i < tail.len() && tail[i] == plain(tail)[0];
        assert(may_stand(s, i + 1));
    } else {
        assert(plain(head) =~= seq![s[0]]);
    }
}

/// What is left of white space is white.
proof fn lemma_plain_white(w: Seq<char>)
    requires
        forall|i: int| 0 <= i < w.len() ==> is_white(#[trigger] w[i]),
    ensures
        forall|j: int| 0 <= j < plain(w).len() ==> is_white(#[trigger] plain(w)[j]),
{
    assert forall|j: int| 0 <= j < plain(w).len() implies is_white(#[trigger] plain(w)[j]) by {
        lemma_plain_kept(w, j);
    }
}

/// An amount with its fillers left out can be trimmed as before.
proof fn lemma_plain_trimmed(text: Seq<char>)
    requires
        plain(trimmed(text)).len() > 0,
        !is_white(plain(trimmed(text))[0]),
        !is_white(plain(trimmed(text)).last()),
    ensures
        trimmed(plain(text)) == plain(trimmed(text)),
{
    let (a, b) = lemma_trimmed_parts(text);
    lemma_plain_concat(a + trimmed(text), b);
    lemma_plain_concat(a, trimmed(text));
    lemma_plain_white(a);
    lemma_plain_white(b);
    lemma_trimmed_between(plain(a), plain(trimmed(text)), plain(b));
}

/// Separators and currency symbols carry no value: an amount reads the same without them.
pub proof fn law_separators_and_symbols_carry_no_value(text: Seq<char>, minor_digits: u32)
    requires
        reading(text, minor_digits as int) is Minor,
    ensures
        reading(plain(text), minor_digits as int) == reading(text, minor_digits as int),
{
    let raw = trimmed(text);
    let body = amount_body(raw);
    let bare = plain(body);
    lemma_plain_counts(body);
    lemma_plain_stands(body, body.len() as int);
    assert(body.take(body.len() as int) =~= body);
    assert(bare.len() > 0) by {
        lemma_places_bounds(bare);
    }
    assert forall|j: int| 0 <= j < bare.len() implies !is_white(#[trigger] bare[j]) && bare[j]
        != '(' by {
        assert(may_stand(bare, j));
        lemma_plain_kept(body, j);
    }
    lemma_plain_sign(body);
    assert(!bare.contains(',')) by {
        if bare.contains(',') {
            let j = choose|j: int| 0 <= j < bare.len() && bare[j] == ',';
            lemma_plain_kept(body, j);
        }
    }
    lemma_no_comma(bare);
    if in_parens(raw) {
        let inner = raw.subrange(1, raw.len() - 1);
        assert(raw =~= seq!['('] + inner + seq![')']);
        lemma_plain_concat(seq!['('] + inner, seq![')']);
        lemma_plain_concat(seq!['('], inner);
        lemma_plain_one('(');
        lemma_plain_one(')');
        let cleaned = plain(raw);
        assert(cleaned =~= seq!['('] + plain(inner) + seq![')']);
        lemma_plain_trimmed(text);
        assert(cleaned.subrange(1, cleaned.len() - 1) =~= plain(inner));
        lemma_plain_trimmed(inner);
    } else {
        lemma_plain_trimmed(text);
    }
}

proof fn lemma_plain_one(c: char)
    requires
        !is_filler(c),
    ensures
        plain(seq![c]) == seq![c],
{
    reveal_with_fuel(plain, 2);
    assert(seq![c].drop_last() =~= Seq::<char>::empty());
    assert(Seq::<char>::empty().push(c) =~= seq![c]);
}

} // verus!
