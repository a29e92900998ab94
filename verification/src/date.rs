//! Calendar days.
//!
//! A ledger occurrence is a date, never an instant: bank exports are date-granular, so any time
//! stored would be invented. A day is held as its number, counting 1 January of the year 1 in the
//! proleptic Gregorian calendar as day 1, which makes order, distance and weekday plain arithmetic;
//! year, month and day of the month are read off it.

use crate::digits::{padded, padded_text};
use vstd::arithmetic::div_mod::{
    lemma_fundamental_div_mod, lemma_fundamental_div_mod_converse, lemma_mod_bound,
    lemma_mod_multiples_vanish,
};
use vstd::prelude::*;

verus! {

broadcast use vstd::string::group_string_axioms;

/// The first day of the supported range: 1 January of the year -262143.
pub const MIN_DAYS: i32 = -95_746_129;

/// The last day of the supported range: 31 December of the year 262142.
pub const MAX_DAYS: i32 = 95_745_399;

/// The first year of the supported range.
pub const MIN_YEAR: i32 = -262_143;

/// The last year of the supported range.
pub const MAX_YEAR: i32 = 262_142;

/// A calendar day.
#[derive(Debug, Clone, Copy, PartialEq, Eq, PartialOrd, Ord, Hash, Structural)]
pub struct Date {
    /// The number of the day, 1 January of the year 1 being day 1.
    pub days: i32,
}

/// Whether a year has a 29 February.
pub open spec fn is_leap(y: int) -> bool {
    y % 4 == 0 && (y % 100 != 0 || y % 400 == 0)
}

/// How many days a month has.
pub open spec fn month_len(y: int, m: int) -> int {
    if m == 2 {
        if is_leap(y) {
            29
        } else {
            28
        }
    } else if m == 4 || m == 6 || m == 9 || m == 11 {
        30
    } else {
        31
    }
}

/// How many days of a year lie before its month `m`.
pub open spec fn days_before(y: int, m: int) -> int
    decreases m,
{
    if m <= 1 {
        0
    } else {
        days_before(y, m - 1) + month_len(y, m - 1)
    }
}

/// The number of the last day before a year begins.
pub open spec fn year_base(y: int) -> int {
    365 * (y - 1) + (y - 1) / 4 - (y - 1) / 100 + (y - 1) / 400
}

/// Whether a year, a month and a day of the month make a day of the calendar.
pub open spec fn is_day(y: int, m: int, d: int) -> bool {
    1 <= m <= 12 && 1 <= d <= month_len(y, m)
}

/// The number of a day.
pub open spec fn day_number(y: int, m: int, d: int) -> int {
    year_base(y) + days_before(y, m) + d
}

/// The year, month and day of the month of the day with a number.
pub open spec fn civil(n: int) -> (int, int, int) {
    choose|c: (int, int, int)|
        is_day(c.0, c.1, c.2) && #[trigger] day_number(c.0, c.1, c.2) == n
}

/// The weekday of the day with a number, Monday being 0.
pub open spec fn weekday_of(n: int) -> int {
    (n - 1) % 7
}

/// One more multiple is counted exactly where a number is one.
proof fn lemma_multiple_step(y: int, k: int)
    requires
        k > 1,
    ensures
        y / k - (y - 1) / k == (if y % k == 0 {
            1int
        } else {
            0
        }),
{
    let (q, r) = (y / k, y % k);
    lemma_fundamental_div_mod(y, k);
    lemma_mod_bound(y, k);
    if r > 0 {
        assert(y - 1 == q * k + (r - 1)) by (nonlinear_arith)
            requires
                y == k * q + r,
        ;
        lemma_fundamental_div_mod_converse(y - 1, k, q, r - 1);
    } else {
        assert(y - 1 == (q - 1) * k + (k - 1)) by (nonlinear_arith)
            requires
                y == k * q + r,
                r == 0,
        ;
        lemma_fundamental_div_mod_converse(y - 1, k, q - 1, k - 1);
    }
}

proof fn lemma_multiple_of(y: int, k: int, n: int)
    requires
        k > 1,
        n > 1,
    ensures
        y % (k * n) == 0 ==> y % k == 0,
{
    assert(k * n > 0) by (nonlinear_arith)
        requires
            k > 1,
            n > 1,
    ;
    if y % (k * n) == 0 {
        let q = y / (k * n);
        lemma_fundamental_div_mod(y, k * n);
        assert(y == (n * q) * k + 0) by (nonlinear_arith)
            requires
                y == (k * n) * q,
        ;
        lemma_fundamental_div_mod_converse(y, k, n * q, 0);
    }
}

proof fn lemma_year_step(y: int)
    ensures
        year_base(y + 1) == year_base(y) + 365 + (if is_leap(y) {
            1int
        } else {
            0
        }),
        days_before(y, 13) == 365 + (if is_leap(y) {
            1int
        } else {
            0
        }),
{
    lemma_multiple_step(y, 4);
    lemma_multiple_step(y, 100);
    lemma_multiple_step(y, 400);
    lemma_multiple_of(y, 100, 4);
    lemma_multiple_of(y, 4, 25);
    lemma_year_length(y);
}

proof fn lemma_year_length(y: int)
    ensures
        days_before(y, 13) == 365 + (if is_leap(y) {
            1int
        } else {
            0
        }),
{
    assert(days_before(y, 1) == 0);
    assert(days_before(y, 2) == 31);
    assert(days_before(y, 3) == 31 + month_len(y, 2));
    assert(days_before(y, 4) == days_before(y, 3) + 31);
    assert(days_before(y, 5) == days_before(y, 4) + 30);
    assert(days_before(y, 6) == days_before(y, 5) + 31);
    assert(days_before(y, 7) == days_before(y, 6) + 30);
    assert(days_before(y, 8) == days_before(y, 7) + 31);
    assert(days_before(y, 9) == days_before(y, 8) + 31);
    assert(days_before(y, 10) == days_before(y, 9) + 30);
    assert(days_before(y, 11) == days_before(y, 10) + 31);
    assert(days_before(y, 12) == days_before(y, 11) + 30);
    assert(days_before(y, 13) == days_before(y, 12) + 31);
}

proof fn lemma_year_base_grows(a: int, b: int)
    requires
        a <= b,
    ensures
        year_base(a) + 365 * (b - a) <= year_base(b) <= year_base(a) + 366 * (b - a),
    decreases b - a,
{
    if a < b {
        lemma_year_base_grows(a, b - 1);
        lemma_year_step(b - 1);
    }
}

proof fn lemma_days_before_grows(y: int, a: int, b: int)
    requires
        1 <= a <= b,
    ensures
        days_before(y, a) <= days_before(y, b),
        days_before(y, a) >= 0,
    decreases b,
{
    if a < b {
        lemma_days_before_grows(y, a, b - 1);
    } else if a > 1 {
        lemma_days_before_grows(y, a - 1, a - 1);
    }
}

/// No two days of the calendar have the same number.
pub proof fn law_day_numbers_are_distinct(y: int, m: int, d: int, y2: int, m2: int, d2: int)
    requires
        is_day(y, m, d),
        is_day(y2, m2, d2),
        day_number(y, m, d) == day_number(y2, m2, d2),
    ensures
        y == y2 && m == m2 && d == d2,
{
    lemma_within_year(y, m, d);
    lemma_within_year(y2, m2, d2);
    lemma_year_step(y);
    lemma_year_step(y2);
    if y < y2 {
        lemma_year_base_grows(y + 1, y2);
    } else if y2 < y {
        lemma_year_base_grows(y2 + 1, y);
    } else if m < m2 {
        lemma_days_before_grows(y, m + 1, m2);
    } else if m2 < m {
        lemma_days_before_grows(y, m2 + 1, m);
    }
}

proof fn lemma_within_year(y: int, m: int, d: int)
    requires
        is_day(y, m, d),
    ensures
        1 <= days_before(y, m) + d <= days_before(y, 13),
{
    lemma_days_before_grows(y, m, m);
    lemma_days_before_grows(y, m + 1, 13);
}

/// A day with these year, month and day of the month is the one its number stands for.
pub proof fn lemma_civil(y: int, m: int, d: int)
    requires
        is_day(y, m, d),
    ensures
        civil(day_number(y, m, d)) == (y, m, d),
{
    let n = day_number(y, m, d);
    let c0 = (y, m, d);
    assert(is_day(c0.0, c0.1, c0.2) && day_number(c0.0, c0.1, c0.2) == n);
    let c = civil(n);
    law_day_numbers_are_distinct(c.0, c.1, c.2, y, m, d);
}

/// The last of the twelve months that begin on a day: the day before the same day of the next year,
/// or the last of the month where that year has no such day. The day itself at the end of the
/// supported range.
pub open spec fn year_end(n: int) -> int {
    let (y, m, d) = civil(n);
    if y >= MAX_YEAR {
        n
    } else {
        day_number(y + 1, m, d) - 1
    }
}

/// Days are numbered in the order of the calendar, where the day after a month's last counts as one
/// of that month.
proof fn lemma_numbered_in_order(y: int, m: int, d: int, y2: int, m2: int, d2: int)
    requires
        1 <= m <= 12,
        1 <= d <= month_len(y, m) + 1,
        is_day(y2, m2, d2),
        y < y2 || (y == y2 && m < m2) || (y == y2 && m == m2 && d < d2),
    ensures
        day_number(y, m, d) <= day_number(y2, m2, d2),
{
    lemma_within_year(y2, m2, d2);
    lemma_days_before_grows(y, m + 1, 13);
    if y < y2 {
        lemma_year_step(y);
        lemma_year_base_grows(y + 1, y2);
    } else if m < m2 {
        lemma_days_before_grows(y, m + 1, m2);
    }
}

/// Twelve months hold no day of a month twice: where one lies in them, the same day a year later
/// lies behind their end.
pub proof fn law_twelve_months_hold_a_day_of_a_month_once(n: int, y: int, m: int, d: int)
    requires
        is_day(civil(n).0, civil(n).1, civil(n).2),
        day_number(civil(n).0, civil(n).1, civil(n).2) == n,
        civil(n).0 < MAX_YEAR,
        is_day(y, m, d),
        is_day(y + 1, m, d),
        n <= day_number(y, m, d),
    ensures
        year_end(n) < day_number(y + 1, m, d),
{
    let (p, q, r) = civil(n);
    if y < p || (y == p && m < q) || (y == p && m == q && d < r) {
        lemma_numbered_in_order(y, m, d, p, q, r);
        law_day_numbers_are_distinct(y, m, d, p, q, r);
    }
    if !(y == p && m == q && d == r) {
        lemma_numbered_in_order(p + 1, q, r, y + 1, m, d);
    }
}

/// Whether a year has a 29 February.
fn leap(y: i64) -> (r: bool)
    requires
        -10_000_000 <= y <= 10_000_000,
    ensures
        r == is_leap(y as int),
{
    let u: u64 = (y + 4_000_000_000) as u64;
    proof {
        lemma_mod_multiples_vanish(1_000_000_000, y as int, 4);
        lemma_mod_multiples_vanish(40_000_000, y as int, 100);
        lemma_mod_multiples_vanish(10_000_000, y as int, 400);
    }
    u % 4 == 0 && (u % 100 != 0 || u % 400 == 0)
}

/// How many days a month has.
fn length_of_month(y: i64, m: u32) -> (r: i64)
    requires
        -10_000_000 <= y <= 10_000_000,
    ensures
        r == month_len(y as int, m as int),
{
    if m == 2 {
        if leap(y) {
            29
        } else {
            28
        }
    } else if m == 4 || m == 6 || m == 9 || m == 11 {
        30
    } else {
        31
    }
}

/// The number of the last day before a year begins.
fn base_of_year(y: i64) -> (r: i64)
    requires
        -10_000_000 <= y <= 10_000_000,
    ensures
        r == year_base(y as int),
        -3_700_000_000 <= r <= 3_700_000_000,
{
    let u: u64 = (y - 1 + 4_000_000_000) as u64;
    let fours: i64 = (u / 4) as i64 - 1_000_000_000;
    let hundreds: i64 = (u / 100) as i64 - 40_000_000;
    let cycles: i64 = (u / 400) as i64 - 10_000_000;
    assert(fours == (y - 1) / 4 && -2_500_001 <= fours <= 2_500_000);
    assert(hundreds == (y - 1) / 100 && -100_001 <= hundreds <= 100_000);
    assert(cycles == (y - 1) / 400 && -25_001 <= cycles <= 25_000);
    365 * (y - 1) + fours - hundreds + cycles
}

/// The year that the day with this number lies in.
fn year_of(n: i32) -> (r: i64)
    ensures
        year_base(r as int) < n <= year_base(r + 1),
        -6_000_000 <= r <= 6_000_000,
{
    // A guess from the mean length of a year, off by one at most; the loops settle it.
    let u: u64 = (n as i64 + 2_921_940_000) as u64;
    let mut y: i64 = ((u * 400) / 146_097) as i64 - 8_000_000 + 1;
    while base_of_year(y) >= n as i64
        invariant
            -6_000_100 <= y <= 6_000_100,
        decreases y + 6_000_100,
    {
        proof {
            lemma_far_year(y as int, n as int);
        }
        y = y - 1;
    }
    while base_of_year(y + 1) < n as i64
        invariant
            -6_000_100 <= y <= 6_000_100,
            year_base(y as int) < n,
        decreases 6_000_100 - y,
    {
        proof {
            lemma_far_year(y + 1, n as int);
        }
        y = y + 1;
    }
    proof {
        lemma_far_year(y as int, n as int);
        lemma_far_year(y + 1, n as int);
    }
    y
}

/// A year that begins after a day of the 32-bit range is not far before it, and the other way
/// about.
proof fn lemma_far_year(y: int, n: int)
    requires
        -2_147_483_648 <= n <= 2_147_483_647,
        -6_001_000 <= y <= 6_001_000,
    ensures
        year_base(y) >= n ==> y > -5_900_000,
        year_base(y) < n ==> y < 5_900_000,
{
    if y <= -5_900_000 {
        lemma_year_base_grows(y, -5_900_000);
    }
    if y >= 5_900_000 {
        lemma_year_base_grows(5_900_000, y);
    }
}

/// The number of a year, as the calendar writes it: four digits, and a sign where four digits are
/// not enough or the year is negative.
pub open spec fn year_text(y: int) -> Seq<char> {
    if 0 <= y <= 9999 {
        padded(y as nat, 4)
    } else if y < 0 {
        seq!['-'] + padded((-y) as nat, 4)
    } else {
        seq!['+'] + padded(y as nat, 4)
    }
}

/// A day as ISO 8601 writes it: year, month and day of the month with hyphens between.
pub open spec fn iso(n: int) -> Seq<char> {
    let c = civil(n);
    year_text(c.0) + seq!['-'] + padded(c.1 as nat, 2) + seq!['-'] + padded(c.2 as nat, 2)
}

/// A day in the basic form: year, month and day of the month with nothing between.
pub open spec fn compact(n: int) -> Seq<char> {
    let c = civil(n);
    year_text(c.0) + padded(c.1 as nat, 2) + padded(c.2 as nat, 2)
}

/// What a text is worth as a day under a `strftime` pattern, by the reader of the `chrono` crate.
pub uninterp spec fn read_day(text: Seq<char>, pattern: Seq<char>) -> Option<int>;

/// `chrono::NaiveDate::parse_from_str`, with the day it gives handed over by its number: a function
/// of the text and the pattern alone, named [`read_day`]; a day it gives lies in the supported
/// range.
#[verifier::external_body]
fn chrono_parse(text: &str, pattern: &str) -> (r: Option<i32>)
    ensures
        match r {
            Some(n) => read_day(text@, pattern@) == Some(n as int) && MIN_DAYS <= n <= MAX_DAYS,
            None => read_day(text@, pattern@) is None,
        },
{
    chrono::NaiveDate::parse_from_str(text, pattern).ok().map(
        |d| chrono::Datelike::num_days_from_ce(&d),
    )
}

impl Date {
    /// Whether the day lies in the supported range.
    pub open spec fn in_range(self) -> bool {
        MIN_DAYS <= self.days <= MAX_DAYS
    }

    /// The day with this year, month and day of the month, where the calendar has it and it lies
    /// in the supported range.
    pub fn from_ymd_opt(year: i32, month: u32, day: u32) -> (r: Option<Date>)
        ensures
            match r {
                Some(d) => is_day(year as int, month as int, day as int) && MIN_YEAR <= year
                    <= MAX_YEAR && d.days == day_number(year as int, month as int, day as int)
                    && d.in_range() && civil(d.days as int) == (
                    year as int,
                    month as int,
                    day as int,
                ),
                None => !is_day(year as int, month as int, day as int) || !(MIN_YEAR <= year
                    <= MAX_YEAR),
            },
    {
        if year < MIN_YEAR || year > MAX_YEAR || month < 1 || month > 12 || day < 1 {
            return None;
        }
        let y: i64 = year as i64;
        if day as i64 > length_of_month(y, month) {
            return None;
        }
        let mut before: i64 = 0;
        let mut m: u32 = 1;
        while m < month
            invariant
                1 <= m <= month <= 12,
                -10_000_000 <= y <= 10_000_000,
                before == days_before(y as int, m as int),
                0 <= before <= 31 * (m - 1),
            decreases month - m,
        {
            before = before + length_of_month(y, m);
            m = m + 1;
        }
        let n: i64 = base_of_year(y) + before + day as i64;
        proof {
            let (yy, mm, dd) = (year as int, month as int, day as int);
            lemma_civil(yy, mm, dd);
            lemma_within_year(yy, mm, dd);
            lemma_year_base_grows(MIN_YEAR as int, yy);
            lemma_year_step(yy);
            lemma_year_base_grows(yy + 1, MAX_YEAR + 1);
        }
        Some(Date { days: n as i32 })
    }

    /// The year, month and day of the month.
    pub fn ymd(&self) -> (r: (i32, u32, u32))
        ensures
            (r.0 as int, r.1 as int, r.2 as int) == civil(self.days as int),
            is_day(r.0 as int, r.1 as int, r.2 as int),
            day_number(r.0 as int, r.1 as int, r.2 as int) == self.days,
            self.in_range() ==> MIN_YEAR <= r.0 <= MAX_YEAR,
    {
        let y: i64 = year_of(self.days);
        let mut rest: i64 = self.days as i64 - base_of_year(y);
        let mut m: u32 = 1;
        proof {
            lemma_year_step(y as int);
        }
        while rest > length_of_month(y, m)
            invariant
                1 <= m <= 12,
                -6_000_000 <= y <= 6_000_000,
                rest >= 1,
                year_base(y as int) + days_before(y as int, m as int) + rest == self.days,
                self.days <= year_base(y as int) + days_before(y as int, 13),
            decreases 13 - m,
        {
            proof {
                if m == 12 {
                    assert(days_before(y as int, 13) == days_before(y as int, 12) + month_len(
                        y as int,
                        12,
                    ));
                }
            }
            rest = rest - length_of_month(y, m);
            m = m + 1;
        }
        proof {
            lemma_civil(y as int, m as int, rest as int);
            if self.in_range() {
                if y < MIN_YEAR {
                    lemma_year_base_grows(y + 1, MIN_YEAR as int);
                } else if y > MAX_YEAR {
                    lemma_year_base_grows(MAX_YEAR + 1, y as int);
                }
            }
        }
        (y as i32, m, rest as u32)
    }

    /// The year.
    pub fn year(&self) -> (r: i32)
        ensures
            r == civil(self.days as int).0,
    {
        self.ymd().0
    }

    /// The month, from 1.
    pub fn month(&self) -> (r: u32)
        ensures
            r == civil(self.days as int).1,
            1 <= r <= 12,
    {
        self.ymd().1
    }

    /// The day of the month, from 1.
    pub fn day(&self) -> (r: u32)
        ensures
            r == civil(self.days as int).2,
            1 <= r <= 31,
    {
        self.ymd().2
    }

    /// The weekday, Monday being 0.
    pub fn weekday(&self) -> (r: u32)
        ensures
            r == weekday_of(self.days as int),
            r < 7,
    {
        let u: u64 = (self.days as i64 - 1 + 7_000_000_000) as u64;
        (u % 7) as u32
    }

    /// The day after, unless this is the last day of the supported range.
    pub fn succ_opt(&self) -> (r: Option<Date>)
        ensures
            match r {
                Some(d) => self.days < MAX_DAYS && d.days == self.days + 1,
                None => self.days >= MAX_DAYS,
            },
    {
        if self.days >= MAX_DAYS {
            None
        } else {
            Some(Date { days: self.days + 1 })
        }
    }

    /// The last day of the twelve months that begin on this day.
    pub fn year_end(self) -> (r: Date)
        requires
            self.in_range(),
        ensures
            r.days == year_end(self.days as int),
            r.in_range(),
    {
        let (y, m, d) = self.ymd();
        if y >= MAX_YEAR {
            return self;
        }
        match Date::from_ymd_opt(y + 1, m, d) {
            Some(r) => {
                proof {
                    lemma_numbered_in_order(
                        y as int,
                        m as int,
                        d as int,
                        y + 1,
                        m as int,
                        d as int,
                    );
                    if r.days == self.days {
                        law_day_numbers_are_distinct(
                            y as int,
                            m as int,
                            d as int,
                            y + 1,
                            m as int,
                            d as int,
                        );
                    }
                }
                Date { days: r.days - 1 }
            },
            None => match Date::from_ymd_opt(y + 1, m, d - 1) {
                Some(r) => r,
                None => self,
            },
        }
    }

    /// The day before, unless this is the first day of the supported range.
    pub fn pred_opt(&self) -> (r: Option<Date>)
        ensures
            match r {
                Some(d) => self.days > MIN_DAYS && d.days == self.days - 1,
                None => self.days <= MIN_DAYS,
            },
    {
        if self.days <= MIN_DAYS {
            None
        } else {
            Some(Date { days: self.days - 1 })
        }
    }

    /// The day as ISO 8601 writes it.
    pub fn to_text(&self) -> (r: String)
        ensures
            r@ == iso(self.days as int),
    {
        let c = self.ymd();
        let mut out = year_string(c.0);
        let m = padded_text(c.1 as u128, 2);
        let d = padded_text(c.2 as u128, 2);
        out.push('-');
        out.append(m.as_str());
        out.push('-');
        out.append(d.as_str());
        assert(out@ =~= iso(self.days as int));
        out
    }

    /// The day in the basic form.
    pub fn to_compact(&self) -> (r: String)
        ensures
            r@ == compact(self.days as int),
    {
        let c = self.ymd();
        let mut out = year_string(c.0);
        let m = padded_text(c.1 as u128, 2);
        let d = padded_text(c.2 as u128, 2);
        out.append(m.as_str());
        out.append(d.as_str());
        out
    }

    /// The day a text is, under a `strftime` pattern.
    pub fn parse_from_str(text: &str, pattern: &str) -> (r: Option<Date>)
        ensures
            match r {
                Some(d) => read_day(text@, pattern@) == Some(d.days as int) && d.in_range(),
                None => read_day(text@, pattern@) is None,
            },
    {
        match chrono_parse(text, pattern) {
            Some(n) => Some(Date { days: n }),
            None => None,
        }
    }

    /// The day an ISO 8601 text is.
    pub fn parse(text: &str) -> (r: Option<Date>)
        ensures
            match r {
                Some(d) => read_day(text@, "%Y-%m-%d"@) == Some(d.days as int) && d.in_range(),
                None => read_day(text@, "%Y-%m-%d"@) is None,
            },
    {
        Date::parse_from_str(text, "%Y-%m-%d")
    }
}

/// The number of a year as the calendar writes it.
pub(crate) fn year_string(y: i32) -> (r: String)
    ensures
        r@ == year_text(y as int),
{
    let mut out = String::new();
    if y < 0 {
        out.push('-');
        let t = padded_text((-(y as i128)) as u128, 4);
        out.append(t.as_str());
        assert(out@ =~= year_text(y as int));
    } else if y > 9999 {
        out.push('+');
        let t = padded_text(y as u128, 4);
        out.append(t.as_str());
        assert(out@ =~= year_text(y as int));
    } else {
        let t = padded_text(y as u128, 4);
        out.append(t.as_str());
        assert(out@ =~= year_text(y as int));
    }
    out
}

} // verus!
