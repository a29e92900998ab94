//! Whole numbers in decimal: what a number is written as, and what a digit string is worth.

use crate::text::chars_of;
use vstd::prelude::*;

verus! {

broadcast use vstd::string::group_string_axioms;

/// The character for a digit.
pub open spec fn digit(d: int) -> char {
    (48 + d) as char
}

/// Whether a character is an ASCII digit.
pub open spec fn is_digit(c: char) -> bool {
    48 <= c as u32 <= 57
}

/// What a digit is worth.
pub open spec fn digit_value(c: char) -> int {
    c as u32 - 48
}

/// Whether every character is an ASCII digit.
pub open spec fn all_digits(s: Seq<char>) -> bool {
    forall|i: int| 0 <= i < s.len() ==> is_digit(#[trigger] s[i])
}

/// What a string of digits is worth; the empty string is worth nothing.
pub open spec fn value_of(s: Seq<char>) -> int
    decreases s.len(),
{
    if s.len() == 0 {
        0
    } else {
        value_of(s.drop_last()) * 10 + digit_value(s.last())
    }
}

/// How a natural number is written.
pub open spec fn nat_digits(n: nat) -> Seq<char>
    decreases n,
{
    if n < 10 {
        seq![digit(n as int)]
    } else {
        nat_digits(n / 10).push(digit((n % 10) as int))
    }
}

/// How a whole number is written: a minus sign where it is negative, then its digits.
pub open spec fn int_digits(n: int) -> Seq<char> {
    if n < 0 {
        seq!['-'] + nat_digits((-n) as nat)
    } else {
        nat_digits(n as nat)
    }
}

/// `k` zeros.
pub open spec fn zeros(k: int) -> Seq<char> {
    Seq::new(
        if k > 0 {
            k as nat
        } else {
            0
        },
        |i: int| '0',
    )
}

/// How a natural number is written in at least `width` digits.
pub open spec fn padded(n: nat, width: int) -> Seq<char> {
    zeros(width - nat_digits(n).len()) + nat_digits(n)
}

/// A number's digits are digits, there is at least one, and they are worth the number.
pub proof fn lemma_nat_digits(n: nat)
    ensures
        all_digits(nat_digits(n)),
        nat_digits(n).len() > 0,
        value_of(nat_digits(n)) == n,
    decreases n,
{
    if n < 10 {
        let s = nat_digits(n);
        assert(s.drop_last() =~= Seq::<char>::empty());
        assert(value_of(s.drop_last()) == 0);
    } else {
        lemma_nat_digits(n / 10);
        let s = nat_digits(n);
        assert(s.drop_last() =~= nat_digits(n / 10));
    }
}

/// Digits before and digits after: the ones before are worth a power of ten each more.
pub proof fn lemma_value_zero_prefix(k: int, s: Seq<char>)
    ensures
        value_of(zeros(k) + s) == value_of(s),
    decreases s.len(), k,
{
    if s.len() > 0 {
        assert((zeros(k) + s).drop_last() =~= zeros(k) + s.drop_last());
        lemma_value_zero_prefix(k, s.drop_last());
    } else if k > 0 {
        assert((zeros(k) + s).drop_last() =~= zeros(k - 1) + s);
        lemma_value_zero_prefix(k - 1, s);
    } else {
        assert(zeros(k) + s =~= s);
    }
}

/// A padded number is digits all through, and worth the number.
pub proof fn lemma_padded(n: nat, width: int)
    ensures
        all_digits(padded(n, width)),
        value_of(padded(n, width)) == n,
        padded(n, width).len() == (if width > nat_digits(n).len() {
            width
        } else {
            nat_digits(n).len() as int
        }),
{
    lemma_nat_digits(n);
    lemma_value_zero_prefix(width - nat_digits(n).len(), nat_digits(n));
}

/// A digit string is worth at least nothing.
pub proof fn lemma_value_nonneg(s: Seq<char>)
    requires
        all_digits(s),
    ensures
        value_of(s) >= 0,
    decreases s.len(),
{
    if s.len() > 0 {
        assert(is_digit(s[s.len() - 1]));
        assert forall|i: int| 0 <= i < s.drop_last().len() implies is_digit(
            #[trigger] s.drop_last()[i],
        ) by {
            assert(is_digit(s[i]));
        }
        lemma_value_nonneg(s.drop_last());
    }
}

/// More digits are worth no less than the digits they begin with.
pub proof fn lemma_value_prefix(s: Seq<char>, k: int)
    requires
        all_digits(s),
        0 <= k <= s.len(),
    ensures
        value_of(s.take(k)) <= value_of(s),
    decreases s.len() - k,
{
    if k < s.len() {
        lemma_value_prefix(s, k + 1);
        let t = s.take(k + 1);
        assert(t.drop_last() =~= s.take(k));
        assert(is_digit(s[k]));
        assert forall|i: int| 0 <= i < s.take(k).len() implies is_digit(
            #[trigger] s.take(k)[i],
        ) by {
            assert(is_digit(s[i]));
        }
        lemma_value_nonneg(s.take(k));
    } else {
        assert(s.take(k) =~= s);
    }
}

/// Ten to the power `k`.
pub open spec fn pow10(k: nat) -> nat
    decreases k,
{
    if k == 0 {
        1
    } else {
        10 * pow10((k - 1) as nat)
    }
}

pub proof fn lemma_pow10(k: nat)
    ensures
        pow10(k) >= 1,
        pow10(k + 1) == 10 * pow10(k),
    decreases k,
{
    if k > 0 {
        lemma_pow10((k - 1) as nat);
    }
}

/// Ten to a smaller power is smaller.
pub proof fn lemma_pow10_monotonic(a: nat, b: nat)
    requires
        a <= b,
    ensures
        pow10(a) <= pow10(b),
    decreases b,
{
    if a < b {
        lemma_pow10_monotonic(a, (b - 1) as nat);
        lemma_pow10((b - 1) as nat);
    }
}

/// Digits that follow others shift them by a power of ten each.
pub proof fn lemma_value_concat(a: Seq<char>, b: Seq<char>)
    ensures
        value_of(a + b) == value_of(a) * pow10(b.len()) + value_of(b),
    decreases b.len(),
{
    if b.len() == 0 {
        assert(a + b =~= a);
        assert(value_of(a) * pow10(0) == value_of(a)) by {
            assert(pow10(0) == 1);
        }
    } else {
        let c = b.drop_last();
        assert((a + b).drop_last() =~= a + c);
        lemma_value_concat(a, c);
        lemma_pow10(c.len());
        let (x, p, y, z) = (value_of(a), pow10(c.len()), value_of(c), digit_value(b.last()));
        assert((x * p + y) * 10 + z == x * (10 * p) + (y * 10 + z)) by (nonlinear_arith);
        assert(b.len() == c.len() + 1);
        assert((a + b).last() == b.last());
    }
}

/// A number below a power of ten is written in no more digits than the power.
pub proof fn lemma_digits_len(n: nat, k: nat)
    requires
        n < pow10(k),
        k >= 1,
    ensures
        nat_digits(n).len() <= k,
    decreases k,
{
    if n >= 10 {
        if k == 1 {
            assert(pow10(1) == 10 * pow10(0));
            assert(pow10(0) == 1);
        } else {
            lemma_pow10((k - 1) as nat);
            lemma_digits_len(n / 10, (k - 1) as nat);
        }
    }
}

/// Ten to the power `k`.
pub fn power_of_ten(k: u32) -> (r: u128)
    requires
        k <= 38,
    ensures
        r == pow10(k as nat),
{
    let mut p: u128 = 1;
    let mut i: u32 = 0;
    while i < k
        invariant
            i <= k <= 38,
            p == pow10(i as nat),
        decreases k - i,
    {
        proof {
            lemma_pow10(i as nat);
            lemma_pow10_monotonic((i + 1) as nat, 38);
            assert(pow10(38) == 100_000_000_000_000_000_000_000_000_000_000_000_000) by {
                reveal_with_fuel(pow10, 39);
            }
        }
        p = p * 10;
        i = i + 1;
    }
    p
}

/// The character for a digit.
fn digit_char(d: u8) -> (r: char)
    requires
        d < 10,
    ensures
        r == digit(d as int),
{
    (48u8 + d) as char
}

/// A natural number in decimal.
pub fn nat_text(n: u128) -> (r: String)
    ensures
        r@ == nat_digits(n as nat),
    decreases n,
{
    if n < 10 {
        let mut s = String::new();
        s.push(digit_char(n as u8));
        assert(s@ =~= nat_digits(n as nat));
        s
    } else {
        let mut s = nat_text(n / 10);
        s.push(digit_char((n % 10) as u8));
        s
    }
}

/// A whole number in decimal.
pub fn int_text(n: i128) -> (r: String)
    ensures
        r@ == int_digits(n as int),
{
    if n < 0 {
        let mut s = String::new();
        s.push('-');
        let m = nat_text((-(n + 1)) as u128 + 1);
        s.append(m.as_str());
        assert(s@ =~= int_digits(n as int));
        s
    } else {
        nat_text(n as u128)
    }
}

/// A natural number in at least `width` digits.
pub fn padded_text(n: u128, width: usize) -> (r: String)
    ensures
        r@ == padded(n as nat, width as int),
{
    let d = nat_text(n);
    let len: usize = chars_of(d.as_str()).len();
    let mut s = String::new();
    let mut k: usize = len;
    while k < width
        invariant
            len <= k,
            k <= width || k == len,
            s@ == zeros(k - len),
        decreases width - k,
    {
        s.push('0');
        k = k + 1;
        assert(s@ =~= zeros(k - len));
    }
    assert(zeros(width - len) =~= s@);
    s.append(d.as_str());
    s
}

/// What the digits `v[from..to]` are worth, or `None` where one of them is no digit or the worth
/// does not fit.
pub fn digits_value(v: &Vec<char>, from: usize, to: usize) -> (r: Option<u128>)
    requires
        from <= to <= v@.len(),
    ensures
        match r {
            Some(n) => all_digits(v@.subrange(from as int, to as int)) && n == value_of(
                v@.subrange(from as int, to as int),
            ),
            None => !all_digits(v@.subrange(from as int, to as int)) || value_of(
                v@.subrange(from as int, to as int),
            ) > u128::MAX,
        },
{
    let ghost s = v@.subrange(from as int, to as int);
    let mut acc: u128 = 0;
    let mut over = false;
    let mut i: usize = from;
    assert(s.take(0) =~= Seq::<char>::empty());
    while i < to
        invariant
            from <= i <= to <= v@.len(),
            s == v@.subrange(from as int, to as int),
            forall|j: int| 0 <= j < i - from ==> is_digit(#[trigger] s[j]),
            !over ==> acc == value_of(s.take(i - from)),
            over ==> value_of(s.take(i - from)) > u128::MAX,
        decreases to - i,
    {
        let c = v[i];
        let n: u32 = c as u32;
        assert(s[i - from] == c);
        if n < 48 || n > 57 {
            assert(!is_digit(s[i - from]));
            return None;
        }
        proof {
            assert(s.take(i - from + 1).drop_last() =~= s.take(i - from));
            assert(s.take(i - from + 1).last() == c);
        }
        let d: u128 = (n - 48) as u128;
        if !over {
            match acc.checked_mul(10) {
                Some(m) => {
                    match m.checked_add(d) {
                        Some(t) => {
                            acc = t;
                        },
                        None => {
                            over = true;
                        },
                    }
                },
                None => {
                    over = true;
                },
            }
        }
        i = i + 1;
    }
    assert(s.take(to - from) =~= s);
    if over {
        None
    } else {
        Some(acc)
    }
}

/// What a signed or unsigned decimal is worth, where its digits are digits and its worth lies in
/// `lo..=hi`. A minus sign is read only where `lo` is negative; a plus sign always.
pub open spec fn number_in(s: Seq<char>, lo: int, hi: int) -> Option<int> {
    let neg = lo < 0 && s.len() > 0 && s[0] == '-';
    let signed = neg || (s.len() > 0 && s[0] == '+');
    let d = if signed {
        s.skip(1)
    } else {
        s
    };
    let n = if neg {
        -value_of(d)
    } else {
        value_of(d)
    };
    if d.len() > 0 && all_digits(d) && lo <= n <= hi {
        Some(n)
    } else {
        None
    }
}

/// The whole number in `lo..=hi` that a text is, if it is one.
fn number(s: &str, lo: i128, hi: i128) -> (r: Option<i128>)
    ensures
        match r {
            Some(n) => number_in(s@, lo as int, hi as int) == Some(n as int),
            None => number_in(s@, lo as int, hi as int) is None,
        },
{
    let v = chars_of(s);
    let neg = lo < 0 && v.len() > 0 && v[0] == '-';
    let signed = neg || (v.len() > 0 && v[0] == '+');
    let from: usize = if signed {
        1
    } else {
        0
    };
    let ghost d = if signed {
        s@.skip(1)
    } else {
        s@
    };
    proof {
        assert(v@.subrange(from as int, v@.len() as int) =~= d);
        if all_digits(d) {
            lemma_value_nonneg(d);
        }
    }
    if from == v.len() {
        return None;
    }
    match digits_value(&v, from, v.len()) {
        None => None,
        Some(n) => {
            if n > i128::MAX as u128 {
                if neg && n == i128::MAX as u128 + 1 && lo == i128::MIN && i128::MIN <= hi {
                    return Some(i128::MIN);
                }
                return None;
            }
            let m: i128 = if neg {
                -(n as i128)
            } else {
                n as i128
            };
            if lo <= m && m <= hi {
                Some(m)
            } else {
                None
            }
        },
    }
}

/// The text as an `i64`, as `str::parse` reads it.
pub fn parse_i64(s: &str) -> (r: Option<i64>)
    ensures
        match r {
            Some(n) => number_in(s@, i64::MIN as int, i64::MAX as int) == Some(n as int),
            None => number_in(s@, i64::MIN as int, i64::MAX as int) is None,
        },
{
    match number(s, i64::MIN as i128, i64::MAX as i128) {
        Some(n) => Some(n as i64),
        None => None,
    }
}

/// The text as a `u32`, as `str::parse` reads it.
pub fn parse_u32(s: &str) -> (r: Option<u32>)
    ensures
        match r {
            Some(n) => number_in(s@, 0, u32::MAX as int) == Some(n as int),
            None => number_in(s@, 0, u32::MAX as int) is None,
        },
{
    match number(s, 0, u32::MAX as i128) {
        Some(n) => Some(n as u32),
        None => None,
    }
}

} // verus!
