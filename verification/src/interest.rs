//! Interest: rate derivation at write time, and the pure functions the forecast folds.
//!
//! Interest is not a recurring series. A series knows its amount in advance; interest is a function
//! of the balance on the day, and the balance is what the forecast is computing. So it is folded
//! into the forward walk, where each day's interest changes every later day's balance, and the
//! functions here take the running balance as an argument.
//!
//! Converting a quoted APR into a per-period rate needs a root, and an amortisation payment needs a
//! power. Both are worked out once, in floating point, by the caller, and handed in as integers
//! here; every later step -- every accrual, every allocation, every projected balance -- is integer.

use crate::digits::{int_digits, int_text};
use crate::money::{
    law_rounding_is_nearest, lemma_rounded_bound, round_half_away, rounded, Minor, MoneyError,
};
use crate::text::str_eq;
use vstd::arithmetic::power::{lemma_pow0, lemma_pow_positive, pow};
use vstd::prelude::*;

verus! {

broadcast use vstd::string::group_string_axioms;

/// Rates are stored as integers scaled by 1e15: 0.0187624... becomes 18_762_473_077_360.
/// Fifteen places is far past any published rate's precision and leaves plenty of i64 headroom.
pub const RATE_SCALE: i128 = 1_000_000_000_000_000;

/// Why a rate, a term or a payment was refused.
#[derive(Debug, PartialEq)]
pub enum InterestError {
    BadRate(String),
    BadTerm(String),
    Money(MoneyError),
}

impl InterestError {
    /// The message, as a sequence of characters.
    pub open spec fn text(self) -> Seq<char> {
        match self {
            InterestError::BadRate(m) => "bad rate: "@ + m@,
            InterestError::BadTerm(m) => "bad term: "@ + m@,
            InterestError::Money(e) => e.text(),
        }
    }

    /// The message a person reads.
    pub fn to_text(&self) -> (r: String)
        ensures
            r@ == self.text(),
    {
        match self {
            InterestError::BadRate(m) => {
                let mut out = "bad rate: ".to_string();
                out.append(m.as_str());
                out
            },
            InterestError::BadTerm(m) => {
                let mut out = "bad term: ".to_string();
                out.append(m.as_str());
                out
            },
            InterestError::Money(e) => e.to_text(),
        }
    }
}

/// Whether an error is a bad rate with this reason.
pub open spec fn is_bad_rate(e: InterestError, reason: Seq<char>) -> bool {
    e matches InterestError::BadRate(s) && s@ == reason
}

fn bad_rate(reason: &str) -> (e: InterestError)
    ensures
        is_bad_rate(e, reason@),
{
    InterestError::BadRate(reason.to_string())
}

fn bad_rate_with(reason: &str, detail: &str) -> (e: InterestError)
    ensures
        is_bad_rate(e, reason@ + detail@),
{
    let mut out = reason.to_string();
    out.append(detail);
    InterestError::BadRate(out)
}

/// Convert a quoted annual rate into the per-period rate, as an e15 integer.
///
/// `effective` (AER, and APR as UK consumer credit quotes it) compounds: the periodic rate is the
/// nth root, `(1+r)^(1/n) - 1`, which the caller works out and hands over as `root_e15`, scaled and
/// rounded; `None` says that the root is not finite. `nominal` simply divides. Getting this
/// backwards overstates a 24.99% card by about 11% of its interest, every month, forever.
pub fn derive_periodic_rate(
    quoted_e15: i64,
    basis: &str,
    periods_per_year: i64,
    root_e15: Option<i64>,
) -> (r: Result<i64, InterestError>)
    ensures
        if periods_per_year <= 0 {
            r matches Err(e) && is_bad_rate(
                e,
                "periods_per_year "@ + int_digits(periods_per_year as int),
            )
        } else if basis@ == "nominal"@ {
            r matches Ok(v) && v == rounded(quoted_e15 as int, periods_per_year as int)
        } else if basis@ == "effective"@ {
            if quoted_e15 <= -RATE_SCALE {
                r matches Err(e) && is_bad_rate(e, "rate <= -100%"@)
            } else {
                match root_e15 {
                    Some(v) => r == Ok::<i64, InterestError>(v),
                    None => r matches Err(e) && is_bad_rate(e, "not finite"@),
                }
            }
        } else {
            r matches Err(e) && is_bad_rate(e, "unknown basis "@ + basis@)
        },
{
    if periods_per_year <= 0 {
        let n = int_text(periods_per_year as i128);
        return Err(bad_rate_with("periods_per_year ", n.as_str()));
    }
    if str_eq(basis, "nominal") {
        // Exact integer division -- no float involved at all.
        proof {
            lemma_rounded_bound(quoted_e15 as int, periods_per_year as int);
        }
        match round_half_away(quoted_e15 as i128, periods_per_year as i128) {
            Ok(v) => Ok(v),
            Err(e) => Err(InterestError::Money(e)),
        }
    } else if str_eq(basis, "effective") {
        if quoted_e15 as i128 <= -RATE_SCALE {
            return Err(bad_rate("rate <= -100%"));
        }
        match root_e15 {
            Some(v) => Ok(v),
            None => Err(bad_rate("not finite")),
        }
    } else {
        Err(bad_rate_with("unknown basis ", basis))
    }
}

/// A nominal rate divides: its periods come to the quoted rate, to within half a unit of the scale for
/// each of them.
pub proof fn law_a_nominal_rate_divides(quoted_e15: i64, periods_per_year: i64)
    requires
        periods_per_year > 0,
    ensures
        -periods_per_year <= 2 * (quoted_e15 - periods_per_year * rounded(
            quoted_e15 as int,
            periods_per_year as int,
        )) <= periods_per_year,
{
    law_rounding_is_nearest(quoted_e15 as int, periods_per_year as int);
}

/// Whether a periodic rate is the root of a quoted one to within some units of the scale: over the
/// periods of a year that much less compounds to no more than the quoted rate, and that much more to
/// no less.
pub open spec fn is_root(rate: int, quoted: int, periods: int, slack: int) -> bool {
    let s = RATE_SCALE as int;
    pow(s + rate - slack, periods as nat) <= pow(s, (periods - 1) as nat) * (s + quoted) <= pow(
        s + rate + slack,
        periods as nat,
    )
}

/// Compounding grows no faster than twice simply, while it is little.
proof fn lemma_little_growth(s: int, t: int, k: nat, n: nat)
    requires
        s > 0,
        t >= 0,
        k <= n,
        2 * (n * t) <= s,
    ensures
        s * pow(s + t, k) <= pow(s, k) * (s + 2 * (k * t)),
    decreases k,
{
    if k == 0 {
        lemma_pow0(s + t);
        lemma_pow0(s);
        assert(k * t == 0) by (nonlinear_arith)
            requires
                k == 0,
        ;
    } else {
        let j = (k - 1) as nat;
        lemma_little_growth(s, t, j, n);
        reveal(pow);
        let (x, y) = (pow(s + t, j), pow(s, j));
        lemma_pow_positive(s, j);
        assert(2 * (j * t) <= s) by (nonlinear_arith)
            requires
                2 * (n * t) <= s,
                j <= n,
                t >= 0,
        ;
        assert((s + t) * (s + 2 * (j * t)) <= s * (s + 2 * (k * t))) by (nonlinear_arith)
            requires
                2 * (j * t) <= s,
                k == j + 1,
                t >= 0,
                s > 0,
        ;
        assert(s * ((s + t) * x) <= (s * y) * (s + 2 * (k * t))) by (nonlinear_arith)
            requires
                s * x <= y * (s + 2 * (j * t)),
                (s + t) * (s + 2 * (j * t)) <= s * (s + 2 * (k * t)),
                y > 0,
                s > 0,
                t >= 0,
        {
            assert((s + t) * (s * x) <= (s + t) * (y * (s + 2 * (j * t))));
            assert((s + t) * (y * (s + 2 * (j * t))) == y * ((s + t) * (s + 2 * (j * t))));
            assert(y * ((s + t) * (s + 2 * (j * t))) <= y * (s * (s + 2 * (k * t))));
            assert(y * (s * (s + 2 * (k * t))) == (s * y) * (s + 2 * (k * t)));
            assert(s * ((s + t) * x) == (s + t) * (s * x));
        }
    }
}

/// Compounding grows by at least what is simple and what comes of each pair of periods.
proof fn lemma_pairs_of_growth(s: int, a: int, k: nat)
    requires
        s > 0,
        a >= 0,
    ensures
        2 * (s * s) * pow(s + a, k) >= pow(s, k) * (2 * (s * s) + 2 * (k * a) * s + k * (k - 1) * (a
            * a)),
    decreases k,
{
    if k == 0 {
        lemma_pow0(s + a);
        lemma_pow0(s);
        assert(2 * (k * a) * s == 0 && k * (k - 1) * (a * a) == 0) by (nonlinear_arith)
            requires
                k == 0,
        ;
    } else {
        let j: nat = (k - 1) as nat;
        lemma_pairs_of_growth(s, a, j);
        reveal(pow);
        let (x, y) = (pow(s + a, j), pow(s, j));
        lemma_pow_positive(s, j);
        let b = 2 * (s * s) + 2 * (j * a) * s + j * (j - 1) * (a * a);
        let c = 2 * (s * s) + 2 * (k * a) * s + k * (k - 1) * (a * a);
        assert((s + a) * b >= s * c) by {
            lemma_pairs_step(s, a, j as int);
        }
        assert(2 * (s * s) * ((s + a) * x) >= (s * y) * c) by (nonlinear_arith)
            requires
                2 * (s * s) * x >= y * b,
                (s + a) * b >= s * c,
                y > 0,
                s > 0,
                a >= 0,
        {
            assert((s + a) * (2 * (s * s) * x) >= (s + a) * (y * b));
            assert((s + a) * (y * b) == y * ((s + a) * b));
            assert(y * ((s + a) * b) >= y * (s * c));
            assert(y * (s * c) == (s * y) * c);
            assert((s + a) * (2 * (s * s) * x) == 2 * (s * s) * ((s + a) * x));
        }
    }
}

proof fn lemma_pairs_step(s: int, a: int, j: int)
    requires
        s > 0,
        a >= 0,
        j >= 0,
    ensures
        (s + a) * (2 * (s * s) + 2 * (j * a) * s + j * (j - 1) * (a * a)) >= s * (2 * (s * s) + 2 * ((j
            + 1) * a) * s + (j + 1) * j * (a * a)),
{
    let q = a * a;
    let r = j * (j - 1);
    assert(r >= 0) by (nonlinear_arith)
        requires
            r == j * (j - 1),
            j >= 0,
    ;
    assert((j + 1) * j == r + 2 * j) by (nonlinear_arith)
        requires
            r == j * (j - 1),
    ;
    let (t, u, v) = (s * s, j * a, r * q);
    assert((j + 1) * a == u + a) by (nonlinear_arith)
        requires
            u == j * a,
    ;
    assert((r + 2 * j) * q == v + 2 * (u * a)) by (nonlinear_arith)
        requires
            u == j * a,
            v == r * q,
            q == a * a,
    ;
    assert((s + a) * (2 * t + 2 * u * s + v) == s * (2 * t + 2 * u * s + v) + a * (2 * t) + a * (2 * u
        * s) + a * v) by (nonlinear_arith);
    assert(s * (2 * t + 2 * (u + a) * s + (v + 2 * (u * a))) == s * (2 * t + 2 * u * s + v) + s * (2 * a
        * s) + s * (2 * (u * a))) by (nonlinear_arith);
    assert(a * (2 * t) == s * (2 * a * s)) by (nonlinear_arith)
        requires
            t == s * s,
    ;
    assert(a * (2 * u * s) == s * (2 * (u * a))) by (nonlinear_arith);
    assert(a * (r * q) >= 0) by (nonlinear_arith)
        requires
            r >= 0,
            a >= 0,
            q == a * a,
    ;
}

/// Compounding is not simple: of one quoted rate, the effective periodic rate lies above nothing and
/// below the nominal one, where the root is right to within ten units of the scale.
pub proof fn law_an_effective_rate_lies_below_the_nominal(
    quoted_e15: i64,
    periods_per_year: i64,
    rate_e15: int,
    slack: int,
)
    requires
        quoted_e15 >= 100_000_000_000,
        2 <= periods_per_year <= 366,
        0 <= slack <= 10,
        -slack <= rate_e15 + RATE_SCALE,
        is_root(rate_e15, quoted_e15 as int, periods_per_year as int, slack),
    ensures
        0 < rate_e15 < rounded(quoted_e15 as int, periods_per_year as int),
{
    let s = RATE_SCALE as int;
    let q = quoted_e15 as int;
    let n = periods_per_year as nat;
    let m = rounded(q, n as int);
    let z = pow(s, (n - 1) as nat);
    lemma_pow_positive(s, (n - 1) as nat);
    assert(pow(s, n) == s * z) by {
        reveal(pow);
    }
    if rate_e15 <= 0 {
        assert(2 * (n * slack) <= s) by (nonlinear_arith)
            requires
                n <= 366,
                0 <= slack <= 10,
                s == 1_000_000_000_000_000,
        ;
        lemma_little_growth(s, slack, n, n);
        lemma_pow_increases_base(s + rate_e15 + slack, s + slack, n);
        let p = pow(s + slack, n);
        assert(2 * (n * slack) < q) by (nonlinear_arith)
            requires
                n <= 366,
                0 <= slack <= 10,
                q >= 100_000_000_000,
        ;
        assert(false) by (nonlinear_arith)
            requires
                z * (s + q) <= p,
                s * p <= (s * z) * (s + 2 * (n * slack)),
                2 * (n * slack) < q,
                z > 0,
                s > 0,
        {
            assert(s * (z * (s + q)) <= s * p);
            assert((s * z) * (s + q) == s * (z * (s + q)));
            assert(s * z > 0);
            assert((s * z) * (s + 2 * (n * slack)) < (s * z) * (s + q));
        }
    }
    if rate_e15 >= m {
        law_rounding_is_nearest(q, n as int);
        let a = m - slack;
        assert(a >= 273_000_000) by (nonlinear_arith)
            requires
                2 * (q - n * m) <= n,
                q >= 100_000_000_000,
                2 <= n <= 366,
                slack <= 10,
                a == m - slack,
        ;
        lemma_pairs_of_growth(s, a, n);
        lemma_pow_increases_base(s + a, s + rate_e15 - slack, n);
        let p = pow(s + a, n);
        let b = 2 * (s * s) + 2 * (n * a) * s + n * (n - 1) * (a * a);
        assert(2 * s * (s + q) >= b) by (nonlinear_arith)
            requires
                p <= z * (s + q),
                2 * (s * s) * p >= (s * z) * b,
                z > 0,
                s > 0,
        {
            assert(2 * (s * s) * p <= 2 * (s * s) * (z * (s + q)));
            assert(2 * (s * s) * (z * (s + q)) == (s * z) * (2 * s * (s + q)));
            assert(s * z > 0);
        }
        assert(false) by (nonlinear_arith)
            requires
                2 * s * (s + q) >= b,
                b == 2 * (s * s) + 2 * (n * a) * s + n * (n - 1) * (a * a),
                2 * (q - n * m) <= n,
                a == m - slack,
                a >= 273_000_000,
                0 <= slack <= 10,
                n >= 2,
                s == 1_000_000_000_000_000,
        {
            assert(a * a >= 273_000_000 * 273_000_000);
            assert(2 * (n * a) == 2 * (n * m) - 2 * (n * slack));
            assert(n * slack <= 10 * n);
            assert(2 * (n * a) >= 2 * q - 21 * n);
            assert(2 * (n * a) * s >= (2 * q - 21 * n) * s);
            assert(n * (n - 1) >= n);
            assert(n * (n - 1) * (a * a) >= n * (a * a));
            assert(n * (a * a) > n * (21 * s));
        }
    }
}

proof fn lemma_pow_increases_base(a: int, b: int, n: nat)
    requires
        0 <= a <= b,
    ensures
        0 <= pow(a, n) <= pow(b, n),
    decreases n,
{
    reveal(pow);
    if n > 0 {
        let j = (n - 1) as nat;
        lemma_pow_increases_base(a, b, j);
        let (x, y) = (pow(a, j), pow(b, j));
        assert(0 <= a * x <= b * y) by (nonlinear_arith)
            requires
                0 <= a <= b,
                0 <= x <= y,
        ;
    }
}

/// Interest on a balance for one period, before it is known to fit.
pub open spec fn interest_on(balance: int, periodic_rate_e15: int) -> int {
    rounded(balance * periodic_rate_e15, RATE_SCALE as int)
}

/// What a rounded share of an amount comes to: the amount where it fits, the refusal where not.
pub open spec fn fits_or_overflows(r: Result<Minor, InterestError>, v: int) -> bool {
    match r {
        Ok(m) => m == v,
        Err(InterestError::Money(MoneyError::Overflow(s))) => !(i64::MIN <= v <= i64::MAX) && s@
            == int_digits(v),
        Err(_) => false,
    }
}

/// Interest on a balance for one period. Integer throughout: the product needs i128 because a large
/// balance times an e15 rate overflows i64 long before either operand does.
pub fn accrue(balance_minor: Minor, periodic_rate_e15: i64) -> (r: Result<Minor, InterestError>)
    ensures
        fits_or_overflows(r, interest_on(balance_minor as int, periodic_rate_e15 as int)),
{
    let b: i128 = balance_minor as i128;
    let p: i128 = periodic_rate_e15 as i128;
    assert(-0x4000_0000_0000_0000_0000_0000_0000_0000 <= b * p
        <= 0x4000_0000_0000_0000_0000_0000_0000_0000) by (nonlinear_arith)
        requires
            -0x8000_0000_0000_0000 <= b <= 0x7fff_ffff_ffff_ffff,
            -0x8000_0000_0000_0000 <= p <= 0x7fff_ffff_ffff_ffff,
    ;
    match round_half_away(b * p, RATE_SCALE) {
        Ok(v) => Ok(v),
        Err(e) => Err(InterestError::Money(e)),
    }
}

/// What the amortisation formula `P*i / (1 - (1+i)^-n)` came to in floating point.
#[derive(Debug, Clone, Copy, PartialEq, Eq)]
pub enum Amortised {
    /// The denominator is as good as zero.
    Degenerate,
    /// The quotient is not finite.
    NotFinite,
    /// The payment, rounded to a whole minor unit.
    Payment(Minor),
}

/// The level payment that clears `principal` over `term` periods at `rate`.
///
/// Standard amortisation. A zero rate degrades to plain division rather than dividing by zero; for
/// any other rate the caller works the formula out and hands the outcome over as `amortised`.
pub fn derive_level_payment(
    principal_minor: Minor,
    periodic_rate_e15: i64,
    term_periods: i64,
    amortised: Amortised,
) -> (r: Result<Minor, InterestError>)
    ensures
        if term_periods <= 0 {
            r matches Err(InterestError::BadTerm(s)) && s@ == "term "@ + int_digits(
                term_periods as int,
            )
        } else if periodic_rate_e15 == 0 {
            r matches Ok(v) && v == rounded(principal_minor as int, term_periods as int)
        } else {
            match amortised {
                Amortised::Degenerate => r matches Err(e) && is_bad_rate(
                    e,
                    "degenerate amortisation"@,
                ),
                Amortised::NotFinite => r matches Err(e) && is_bad_rate(e, "not finite"@),
                Amortised::Payment(v) => r == Ok::<Minor, InterestError>(v),
            }
        },
{
    if term_periods <= 0 {
        let mut out = "term ".to_string();
        let n = int_text(term_periods as i128);
        out.append(n.as_str());
        return Err(InterestError::BadTerm(out));
    }
    if periodic_rate_e15 == 0 {
        proof {
            lemma_rounded_bound(principal_minor as int, term_periods as int);
        }
        return match round_half_away(principal_minor as i128, term_periods as i128) {
            Ok(v) => Ok(v),
            Err(e) => Err(InterestError::Money(e)),
        };
    }
    match amortised {
        Amortised::Degenerate => Err(bad_rate("degenerate amortisation")),
        Amortised::NotFinite => Err(bad_rate("not finite")),
        Amortised::Payment(v) => Ok(v),
    }
}

/// Split a payment into interest and principal.
///
/// Interest first, always -- that is how consumer credit works, and it is what makes an early
/// payment reduce the term rather than the next instalment. A payment smaller than the interest
/// due pays no principal at all and the debt grows; that is not an error, it is what negative
/// amortisation is.
pub fn allocate(payment_minor: Minor, interest_due_minor: Minor) -> (r: (Minor, Minor))
    ensures
        r.0 + r.1 == payment_minor,
        payment_minor >= 0 && interest_due_minor >= 0 ==> r.0 == (if payment_minor
            < interest_due_minor {
            payment_minor
        } else {
            interest_due_minor
        }),
        payment_minor < 0 || interest_due_minor < 0 ==> r.0 == 0,
{
    let least = if payment_minor < interest_due_minor {
        payment_minor
    } else {
        interest_due_minor
    };
    let to_interest = if least < 0 {
        0
    } else {
        least
    };
    let to_principal = payment_minor - to_interest;
    (to_interest, to_principal)
}

/// What a payment rule is given to work from.
///
/// `balance` and `statement` are both supplied because the shapes disagree about which they mean: a
/// minimum payment is a percentage of the statement balance (frozen on the statement date), not of
/// today's, which may already hold this month's spending.
#[derive(Debug, Clone, Copy)]
pub struct PaymentContext {
    pub balance_minor: Minor,
    pub statement_minor: Minor,
    pub interest_minor: Minor,
    pub fees_minor: Minor,
}

/// The greater of two numbers.
pub open spec fn greater(a: int, b: int) -> int {
    if a < b {
        b
    } else {
        a
    }
}

/// The lesser of two numbers.
pub open spec fn lesser(a: int, b: int) -> int {
    if b < a {
        b
    } else {
        a
    }
}

/// The most that can be owed: the statement or the balance, whichever is more, and never less
/// than nothing.
pub open spec fn owed_at_most(ctx: PaymentContext) -> int {
    greater(greater(ctx.statement_minor as int, ctx.balance_minor as int), 0)
}

/// The amount of which a rule of this kind takes a percentage.
pub open spec fn pct_base(kind: Seq<char>, ctx: PaymentContext) -> int {
    if kind == "pct_of_balance"@ {
        ctx.balance_minor as int
    } else {
        ctx.statement_minor as int
    }
}

/// Whether a rule of this kind takes a percentage.
pub open spec fn takes_pct(kind: Seq<char>) -> bool {
    kind != "fixed"@ && (kind == "pct_of_balance"@ || kind == "pct_of_statement"@ || kind
        == "interest_fees_plus_pct"@)
}

/// What a rule asks for before its floor, its cap and the amount owed are looked at.
pub open spec fn asked(
    kind: Seq<char>,
    ctx: PaymentContext,
    fixed: Option<Minor>,
    pct_e15: Option<i64>,
    level: Option<Minor>,
) -> Result<int, Seq<char>> {
    let share = interest_on(pct_base(kind, ctx), pct_e15.unwrap_or(0) as int);
    if kind == "fixed"@ {
        match fixed {
            Some(v) => Ok(v as int),
            None => Err("fixed required"@),
        }
    } else if takes_pct(kind) {
        if pct_e15 is None {
            Err("pct required"@)
        } else if kind == "pct_of_balance"@ || kind == "pct_of_statement"@ {
            Ok(share)
        } else {
            // The real UK minimum-payment shape: interest, fees and a percentage of the balance.
            Ok(ctx.interest_minor + ctx.fees_minor + share)
        }
    } else if kind == "full_statement"@ {
        Ok(ctx.statement_minor as int)
    } else if kind == "amortising_level"@ {
        match level {
            Some(v) => Ok(v as int),
            None => Err("level payment required"@),
        }
    } else {
        Err("unknown amount_kind "@ + kind)
    }
}

/// What is asked, held to its floor and then its cap, and never more than is owed.
pub open spec fn payable(
    raw: int,
    floor: Option<Minor>,
    cap: Option<Minor>,
    ctx: PaymentContext,
) -> int {
    let floored = match floor {
        Some(f) => greater(raw, f as int),
        None => raw,
    };
    let capped = match cap {
        Some(c) => lesser(floored, c as int),
        None => floored,
    };
    lesser(greater(capped, 0), owed_at_most(ctx))
}

/// A percentage of an amount, the percentage being required.
fn pct_of(amount: Minor, pct_e15: Option<i64>) -> (r: Result<Minor, InterestError>)
    ensures
        match pct_e15 {
            Some(p) => fits_or_overflows(r, interest_on(amount as int, p as int)),
            None => r matches Err(e) && is_bad_rate(e, "pct required"@),
        },
{
    match pct_e15 {
        Some(p) => accrue(amount, p),
        None => Err(bad_rate("pct required")),
    }
}

/// What a payment rule asks for this period.
///
/// A minimum payment is "the greater of £N and X%": the floor applies before the cap, and what is
/// outstanding bounds both, so nothing beyond what is owed is ever asked for, nor a negative sum.
pub fn payment_amount(
    kind: &str,
    ctx: PaymentContext,
    fixed_minor: Option<Minor>,
    pct_e15: Option<i64>,
    floor_minor: Option<Minor>,
    cap_minor: Option<Minor>,
    level_payment_minor: Option<Minor>,
) -> (r: Result<Minor, InterestError>)
    ensures
        match asked(kind@, ctx, fixed_minor, pct_e15, level_payment_minor) {
            Err(reason) => r matches Err(e) && is_bad_rate(e, reason),
            Ok(raw) => {
                let share = interest_on(pct_base(kind@, ctx), pct_e15.unwrap_or(0) as int);
                if takes_pct(kind@) && !(i64::MIN <= share <= i64::MAX) {
                    r is Err && fits_or_overflows(r, share)
                } else {
                    r matches Ok(v) && v == payable(raw, floor_minor, cap_minor, ctx)
                }
            },
        },
{
    let raw: i128 = if str_eq(kind, "fixed") {
        match fixed_minor {
            Some(v) => v as i128,
            None => {
                return Err(bad_rate("fixed required"));
            },
        }
    } else if str_eq(kind, "pct_of_balance") {
        match pct_of(ctx.balance_minor, pct_e15) {
            Ok(v) => v as i128,
            Err(e) => {
                return Err(e);
            },
        }
    } else if str_eq(kind, "pct_of_statement") {
        match pct_of(ctx.statement_minor, pct_e15) {
            Ok(v) => v as i128,
            Err(e) => {
                return Err(e);
            },
        }
    } else if str_eq(kind, "interest_fees_plus_pct") {
        match pct_of(ctx.statement_minor, pct_e15) {
            Ok(v) => ctx.interest_minor as i128 + ctx.fees_minor as i128 + v as i128,
            Err(e) => {
                return Err(e);
            },
        }
    } else if str_eq(kind, "full_statement") {
        ctx.statement_minor as i128
    } else if str_eq(kind, "amortising_level") {
        match level_payment_minor {
            Some(v) => v as i128,
            None => {
                return Err(bad_rate("level payment required"));
            },
        }
    } else {
        return Err(bad_rate_with("unknown amount_kind ", kind));
    };
    let floored: i128 = match floor_minor {
        Some(f) => if raw < f as i128 {
            f as i128
        } else {
            raw
        },
        None => raw,
    };
    let capped: i128 = match cap_minor {
        Some(c) => if (c as i128) < floored {
            c as i128
        } else {
            floored
        },
        None => floored,
    };
    // Never demand more than is outstanding, and never a negative payment.
    let owed: Minor = if ctx.statement_minor < ctx.balance_minor {
        ctx.balance_minor
    } else {
        ctx.statement_minor
    };
    let most: i128 = if owed < 0 {
        0
    } else {
        owed as i128
    };
    let least: i128 = if capped < 0 {
        0
    } else {
        capped
    };
    Ok(
        (if most < least {
            most
        } else {
            least
        }) as i64,
    )
}

/// A payment never exceeds what is owed and is never negative, whatever the rule says.
pub proof fn law_payments_stay_within_what_is_owed(
    raw: int,
    floor: Option<Minor>,
    cap: Option<Minor>,
    ctx: PaymentContext,
)
    ensures
        0 <= payable(raw, floor, cap, ctx) <= owed_at_most(ctx),
{
}

/// A floor is reached where it is owed and the cap allows it: it applies before the cap.
pub proof fn law_the_floor_applies_before_the_cap(
    raw: int,
    floor: Minor,
    cap: Option<Minor>,
    ctx: PaymentContext,
)
    requires
        0 <= floor <= owed_at_most(ctx),
        cap matches Some(c) ==> floor <= c,
    ensures
        payable(raw, Some(floor), cap, ctx) >= floor,
{
}

/// At a rate of nothing there is no interest, and a balance of nothing earns none.
pub proof fn law_no_interest_on_nothing(balance: int, rate: int)
    ensures
        interest_on(balance, 0) == 0,
        interest_on(0, rate) == 0,
{
    vstd::arithmetic::mul::lemma_mul_basics(balance);
    vstd::arithmetic::mul::lemma_mul_basics(rate);
    lemma_rounded_bound(0, RATE_SCALE as int);
}

/// A debt and a saving of the same size at the same rate earn the same interest with the sign
/// turned.
pub proof fn law_interest_on_a_debt_mirrors_a_saving(balance: int, rate: int)
    ensures
        interest_on(-balance, rate) == -interest_on(balance, rate),
{
    assert((-balance) * rate == -(balance * rate)) by (nonlinear_arith);
    crate::money::law_rounding_is_symmetric(balance * rate, RATE_SCALE as int);
}

} // verus!
