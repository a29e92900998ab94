//! Recurrence: turning an RFC 5545 rule into the dates it lands on.
//!
//! Behind a trait so the expander is swappable: expansion correctness is the one thing here that
//! absolutely cannot be quietly wrong, so being able to substitute an implementation is worth it.
//!
//! Dates only. To keep a recurrence library's timezone machinery from ever changing a date, every
//! date crosses into it as noon UTC and comes back as a date. Noon is the standard trick: a DST
//! shift of an hour either way cannot move noon across a midnight boundary.

use crate::date::{civil, compact, weekday_of, Date, MAX_DAYS, MIN_DAYS};
use crate::digits::{int_digits, int_text, number_in, parse_u32};
use crate::text::{
    chars_of, cut, join, joined, split, split_on, split_once, str_eq, text_of, to_upper, trim,
    trimmed, upper, views,
};
use vstd::prelude::*;

verus! {

broadcast use vstd::string::group_string_axioms;

/// Why a rule or a date was refused.
#[derive(Debug)]
pub enum RecurError {
    /// The rule text did not parse, with the expander's reason.
    BadRule(String),
    BadDate(String),
}

impl RecurError {
    /// The message, as a sequence of characters.
    pub open spec fn text(self) -> Seq<char> {
        match self {
            RecurError::BadRule(m) => "bad recurrence rule: "@ + m@,
            RecurError::BadDate(m) => "bad date: "@ + m@,
        }
    }

    /// The message a person reads.
    pub fn to_text(&self) -> (r: String)
        ensures
            r@ == self.text(),
    {
        match self {
            RecurError::BadRule(m) => {
                let mut out = "bad recurrence rule: ".to_string();
                out.append(m.as_str());
                out
            },
            RecurError::BadDate(m) => {
                let mut out = "bad date: ".to_string();
                out.append(m.as_str());
                out
            },
        }
    }
}

/// What is asked of an expander: a rule, the day it starts, the day it is bounded by, and the
/// window in which its occurrences are wanted.
pub struct Ask {
    /// The rule's text, an RFC 5545 RRULE body.
    pub rule: Seq<char>,
    pub dtstart: Date,
    pub until: Option<Date>,
    pub lo: Date,
    pub hi: Date,
}

/// Expansion, isolated so it can be swapped or held against a second implementation.
pub trait Recurrence {
    /// Whether the expander may answer with these dates.
    spec fn yields(&self, ask: Ask, dates: Seq<Date>) -> bool;

    /// Whether the expander may refuse with these words.
    spec fn refuses(&self, ask: Ask, text: Seq<char>) -> bool;

    /// Every occurrence of `rrule` (an RFC 5545 RRULE body, no DTSTART line) starting at `dtstart`,
    /// within `lo..=hi` inclusive. `until` bounds the series itself.
    fn expand(
        &self,
        rrule: &str,
        dtstart: Date,
        until: Option<Date>,
        lo: Date,
        hi: Date,
    ) -> (r: Result<Vec<Date>, RecurError>)
        ensures
            match r {
                Ok(v) => self.yields((Ask { rule: rrule@, dtstart, until, lo, hi }), v@),
                Err(e) => self.refuses((Ask { rule: rrule@, dtstart, until, lo, hi }), e.text()),
            },
    ;
}

/// Hard ceiling on occurrences per expansion. A daily rule over a 30-year horizon is about 11,000,
/// so this is generous; it exists because an unbounded rule would otherwise be a hang.
pub const EXPANSION_LIMIT: u16 = 65_535;

/// The hour at which every date crosses into the expander.
pub const NOON: u32 = 12;

/// The days that a start date and rule in RFC 5545 text land on, up to an hour of a day and no more
/// than a number of them, by the `rrule` crate; `None` where it refuses the text.
pub uninterp spec fn rule_days(
    text: Seq<char>,
    last_day: int,
    hour: int,
    limit: int,
) -> Option<Seq<int>>;

/// Whether a text is one start date in UTC and one rule, each on a line of its own.
///
/// On such a text nothing the `rrule` crate returns rests on the machine's time zone: a date without
/// a zone can stand only in the rule's UNTIL, which is refused beside a start in UTC.
pub open spec fn start_and_rule(text: Seq<char>, start: Seq<char>, rule: Seq<char>) -> bool {
    &&& text == "DTSTART:"@ + start + "Z\nRRULE:"@ + rule
    &&& !start.contains('\n')
    &&& !rule.contains('\n')
}

/// The numbers of a list of days.
pub open spec fn numbers(days: Seq<Date>) -> Seq<int> {
    days.map_values(|d: Date| d.days as int)
}

/// Whether no day comes before one in front of it.
pub open spec fn in_order(days: Seq<int>) -> bool {
    forall|i: int, j: int| 0 <= i < j < days.len() ==> days[i] <= days[j]
}

/// Whether no day lies before a day.
pub open spec fn none_before(days: Seq<int>, first: int) -> bool {
    forall|i: int| 0 <= i < days.len() ==> first <= #[trigger] days[i]
}

/// Whether days begin with others, and none of those that follow lies before a day.
pub open spec fn go_on(more: Seq<int>, days: Seq<int>, from: int) -> bool {
    &&& days.len() <= more.len()
    &&& days == more.take(days.len() as int)
    &&& forall|i: int| days.len() <= i < more.len() ==> from <= #[trigger] more[i]
}

/// What the days of a start at noon and one rule are like: they are in order, none lies before the
/// start, and a longer run of the same text begins with them, unless it was cut short by the limit.
pub open spec fn is_run(
    text: Seq<char>,
    last_day: int,
    hour: int,
    limit: int,
    days: Seq<int>,
) -> bool {
    &&& in_order(days)
    &&& forall|d: int, rule: Seq<char>|
        MIN_DAYS <= d <= MAX_DAYS && #[trigger] start_and_rule(text, compact(d) + "T120000"@, rule)
            ==> none_before(days, d)
    &&& forall|later: int|
        last_day <= later <= MAX_DAYS ==> (#[trigger] rule_days(text, later, hour, limit) matches Some(
            more,
        ) ==> more.len() < limit ==> go_on(more, days, last_day))
}

/// How many bytes a character takes in UTF-8.
pub open spec fn width(c: char) -> int {
    let n = c as u32;
    if n < 0x80 {
        1
    } else if n < 0x800 {
        2
    } else if n < 0x1_0000 {
        3
    } else {
        4
    }
}

/// Whether a text is shorter than two bytes, or a character starts two bytes before its end.
pub open spec fn ends_in_two_bytes(s: Seq<char>) -> bool {
    ||| s.len() == 0
    ||| s.len() == 1 && width(s[0]) == 1
    ||| width(s.last()) == 2
    ||| s.len() >= 2 && width(s.last()) == 1 && width(s[s.len() - 2]) == 1
}

/// Whether each item of a list with commas is one that the `rrule` crate can take for a weekday:
/// it cuts the item two bytes before its end.
pub open spec fn weekdays_can_be_cut(list: Seq<char>) -> bool {
    forall|i: int|
        0 <= i < split(list, ',').len() ==> ends_in_two_bytes(#[trigger] split(list, ',')[i])
}

/// Whether the key of a rule's part, in capitals, is one of those that list weekdays.
pub open spec fn lists_weekdays(key: Seq<char>) -> bool {
    key == "BYDAY"@ || key == "BYWEEKDAY"@
}

/// Whether a part of a rule can be read without cutting a character in two.
pub open spec fn part_can_be_cut(part: Seq<char>) -> bool {
    match cut(part, '=') {
        Some(p) => lists_weekdays(upper(p.0)) ==> weekdays_can_be_cut(p.1),
        None => true,
    }
}

/// What a line says behind the name of its property, or all of it where it names none.
pub open spec fn line_value(line: Seq<char>) -> Seq<char> {
    match cut(line, ':') {
        Some(p) => p.1,
        None => line,
    }
}

/// Whether every part of a line can be read without cutting a character in two.
pub open spec fn line_can_be_cut(line: Seq<char>) -> bool {
    forall|i: int|
        0 <= i < split(line_value(line), ';').len() ==> part_can_be_cut(
            #[trigger] split(line_value(line), ';')[i],
        )
}

/// A line without the carriage return it may end in.
pub open spec fn without_return(line: Seq<char>) -> Seq<char> {
    if line.len() > 0 && line.last() == '\r' {
        line.drop_last()
    } else {
        line
    }
}

/// Whether every line of a text, with the carriage return it may end in and without it, can be read
/// without cutting a character in two.
pub open spec fn can_be_cut(text: Seq<char>) -> bool {
    forall|i: int|
        0 <= i < split(text, '\n').len() ==> line_can_be_cut(#[trigger] split(text, '\n')[i])
            && line_can_be_cut(without_return(split(text, '\n')[i]))
}

fn width_of(c: char) -> (r: u32)
    ensures
        r == width(c),
{
    let n: u32 = c as u32;
    if n < 0x80 {
        1
    } else if n < 0x800 {
        2
    } else if n < 0x1_0000 {
        3
    } else {
        4
    }
}

fn check_item(item: &str) -> (r: bool)
    ensures
        r == ends_in_two_bytes(item@),
{
    let v = chars_of(item);
    let n: usize = v.len();
    if n == 0 {
        return true;
    }
    let last: u32 = width_of(v[n - 1]);
    if n == 1 {
        last <= 2
    } else {
        last == 2 || (last == 1 && width_of(v[n - 2]) == 1)
    }
}

fn check_list(list: &str) -> (r: bool)
    ensures
        r == weekdays_can_be_cut(list@),
{
    let items = split_on(list, ',');
    let mut i: usize = 0;
    assert(views(items@).len() == items@.len());
    while i < items.len()
        invariant
            i <= items@.len(),
            views(items@) == split(list@, ','),
            views(items@).len() == items@.len(),
            forall|k: int| 0 <= k < i ==> ends_in_two_bytes(#[trigger] split(list@, ',')[k]),
        decreases items@.len() - i,
    {
        assert(views(items@)[i as int] == items@[i as int]@);
        if !check_item(items[i].as_str()) {
            assert(!ends_in_two_bytes(split(list@, ',')[i as int]));
            return false;
        }
        i = i + 1;
    }
    true
}

fn check_part(part: &str) -> (r: bool)
    ensures
        r == part_can_be_cut(part@),
{
    match split_once(part, '=') {
        Some((key, value)) => {
            let name = to_upper(key.as_str());
            if str_eq(name.as_str(), "BYDAY") || str_eq(name.as_str(), "BYWEEKDAY") {
                check_list(value.as_str())
            } else {
                true
            }
        },
        None => true,
    }
}

fn check_line(line: &str) -> (r: bool)
    ensures
        r == line_can_be_cut(line@),
{
    let value = match split_once(line, ':') {
        Some((_, v)) => v,
        None => line.to_string(),
    };
    let parts = split_on(value.as_str(), ';');
    let mut i: usize = 0;
    assert(views(parts@).len() == parts@.len());
    while i < parts.len()
        invariant
            i <= parts@.len(),
            value@ == line_value(line@),
            views(parts@) == split(value@, ';'),
            views(parts@).len() == parts@.len(),
            forall|k: int| 0 <= k < i ==> part_can_be_cut(#[trigger] split(value@, ';')[k]),
        decreases parts@.len() - i,
    {
        assert(views(parts@)[i as int] == parts@[i as int]@);
        if !check_part(parts[i].as_str()) {
            assert(!part_can_be_cut(split(value@, ';')[i as int]));
            return false;
        }
        i = i + 1;
    }
    true
}

fn check_text(text: &str) -> (r: bool)
    ensures
        r == can_be_cut(text@),
{
    let lines = split_on(text, '\n');
    let mut i: usize = 0;
    assert(views(lines@).len() == lines@.len());
    while i < lines.len()
        invariant
            i <= lines@.len(),
            views(lines@) == split(text@, '\n'),
            views(lines@).len() == lines@.len(),
            forall|k: int|
                0 <= k < i ==> line_can_be_cut(#[trigger] split(text@, '\n')[k])
                    && line_can_be_cut(without_return(split(text@, '\n')[k])),
        decreases lines@.len() - i,
    {
        assert(views(lines@)[i as int] == lines@[i as int]@);
        let line = lines[i].as_str();
        let v = chars_of(line);
        let n: usize = v.len();
        let bare = if n > 0 && v[n - 1] == '\r' {
            let t = text_of(&v, 0, n - 1);
            assert(t@ =~= line@.drop_last());
            t
        } else {
            line.to_string()
        };
        if !check_line(line) || !check_line(bare.as_str()) {
            assert(!(line_can_be_cut(split(text@, '\n')[i as int]) && line_can_be_cut(
                without_return(split(text@, '\n')[i as int]),
            )));
            return false;
        }
        i = i + 1;
    }
    true
}

/// `str::parse` into an `rrule::RRuleSet`, then `RRuleSet::before` and `RRuleSet::all`, each date
/// that comes back handed over by its number.
///
/// On a start in UTC and one rule the days, and whether the text is refused, are a function of the
/// arguments alone, named [`rule_days`]. On other texts the crate may read the machine's time zone,
/// and nothing is said of them; nor is anything said of the reason of a refusal, which rests on that
/// time zone where an UNTIL without a zone names an hour that the zone's clocks show twice.
///
/// Of these days three things are claimed. They are in order: the crate walks the years, months, weeks
/// or days of a rule forwards, and the dates of each in order. None lies before the start: an earlier
/// date is passed over. And a later end takes the same walk further: dates come one after another up
/// to the first past the end, so a run that the limit did not cut begins with the dates up to any
/// earlier end.
///
/// The crate cuts each item of a list of weekdays two bytes before its end and panics where no
/// character starts there, so only texts that can be cut so are handed to it.
#[verifier::external_body]
fn rrule_days(text: &str, last_day: Date, hour: u32, limit: u16) -> (r: Result<Vec<Date>, String>)
    requires
        last_day.in_range(),
        hour < 24,
        can_be_cut(text@),
    ensures
        (exists|start: Seq<char>, rule: Seq<char>| #[trigger]
            start_and_rule(text@, start, rule)) ==> match r {
            Ok(v) => rule_days(text@, last_day.days as int, hour as int, limit as int) == Some(
                numbers(v@),
            ) && is_run(
                text@,
                last_day.days as int,
                hour as int,
                limit as int,
                numbers(v@),
            ),
            Err(_) => rule_days(text@, last_day.days as int, hour as int, limit as int) is None,
        },
{
    let set: rrule::RRuleSet = text.parse().map_err(|e: rrule::RRuleError| e.to_string())?;
    let day = chrono::NaiveDate::from_num_days_from_ce_opt(last_day.days).unwrap();
    let end = chrono::TimeZone::from_utc_datetime(&rrule::Tz::UTC, &day.and_hms_opt(hour, 0, 0).unwrap());
    let dates = set.before(end).all(limit).dates;
    Ok(dates.iter().map(|d| Date { days: chrono::Datelike::num_days_from_ce(&d.date_naive()) }).collect())
}

/// The last day of a series that counts: the end of the window or of the series, whichever is
/// first.
pub open spec fn effective_hi(until: Option<Date>, hi: Date) -> Date {
    match until {
        Some(u) => if u.days < hi.days {
            u
        } else {
            hi
        },
        None => hi,
    }
}

/// The day after, or the day itself at the end of the supported range.
pub open spec fn next_day(d: Date) -> Date {
    if d.days >= MAX_DAYS {
        d
    } else {
        Date { days: (d.days + 1) as i32 }
    }
}

/// Whether nothing can come of an expansion: the window is turned about, or ends before the series
/// starts or before it begins.
pub open spec fn nothing_wanted(ask: Ask) -> bool {
    let hi = effective_hi(ask.until, ask.hi);
    ask.hi.days < ask.lo.days || hi.days < ask.dtstart.days || hi.days < ask.lo.days
}

/// The text that a rule and its start are expanded from.
pub open spec fn rule_text(ask: Ask) -> Seq<char> {
    "DTSTART:"@ + compact(ask.dtstart.days as int) + "T120000Z\nRRULE:"@ + trimmed(ask.rule)
}

/// The days within a window, each run of the same day kept once.
pub open spec fn kept(days: Seq<int>, lo: int, hi: int) -> Seq<int>
    decreases days.len(),
{
    if days.len() == 0 {
        Seq::empty()
    } else {
        let before = kept(days.drop_last(), lo, hi);
        let d = days.last();
        if lo <= d <= hi && !(before.len() > 0 && before.last() == d) {
            before.push(d)
        } else {
            before
        }
    }
}

/// Whether every day lies in a window.
pub open spec fn all_within(days: Seq<Date>, lo: int, hi: int) -> bool {
    forall|i: int| 0 <= i < days.len() ==> lo <= (#[trigger] days[i]).days <= hi
}

/// Keep the days within the window, each run of the same day once.
pub fn keep_within(days: &Vec<Date>, lo: Date, hi: Date) -> (r: Vec<Date>)
    ensures
        numbers(r@) == kept(numbers(days@), lo.days as int, hi.days as int),
        all_within(r@, lo.days as int, hi.days as int),
{
    let mut out: Vec<Date> = Vec::new();
    let mut i: usize = 0;
    assert(numbers(out@) =~= kept(numbers(days@).take(0), lo.days as int, hi.days as int));
    while i < days.len()
        invariant
            i <= days@.len(),
            numbers(out@) == kept(numbers(days@).take(i as int), lo.days as int, hi.days as int),
            all_within(out@, lo.days as int, hi.days as int),
        decreases days@.len() - i,
    {
        let ghost before = out@;
        let d = days[i];
        proof {
            assert(numbers(days@).take(i + 1).drop_last() =~= numbers(days@).take(i as int));
            assert(numbers(days@).take(i + 1).last() == d.days);
            if out@.len() > 0 {
                assert(numbers(out@).last() == out@[out@.len() - 1].days);
            }
            assert(numbers(out@).len() == out@.len());
        }
        let same = out.len() > 0 && out[out.len() - 1].days == d.days;
        if lo.days <= d.days && d.days <= hi.days && !same {
            out.push(d);
            assert(numbers(out@) =~= numbers(before).push(d.days as int));
        }
        i = i + 1;
    }
    assert(numbers(days@).take(days@.len() as int) =~= numbers(days@));
    out
}

/// The expander of the `rrule` crate.
pub struct RRuleCrate;

impl Recurrence for RRuleCrate {
    open spec fn yields(&self, ask: Ask, dates: Seq<Date>) -> bool {
        let hi = effective_hi(ask.until, ask.hi);
        if nothing_wanted(ask) {
            dates.len() == 0
        } else {
            &&& all_within(dates, ask.lo.days as int, hi.days as int)
            &&& can_be_cut(rule_text(ask))
            &&& !trimmed(ask.rule).contains('\n') ==> (rule_days(
                rule_text(ask),
                next_day(hi).days as int,
                NOON as int,
                EXPANSION_LIMIT as int,
            ) matches Some(days) && is_run(
                rule_text(ask),
                next_day(hi).days as int,
                NOON as int,
                EXPANSION_LIMIT as int,
                days,
            ) && numbers(dates) == kept(days, ask.lo.days as int, hi.days as int))
        }
    }

    open spec fn refuses(&self, ask: Ask, text: Seq<char>) -> bool {
        let hi = effective_hi(ask.until, ask.hi);
        &&& !nothing_wanted(ask)
        &&& if !hi.in_range() {
            text == "bad recurrence rule: "@ + "the window leaves the calendar"@
        } else if !can_be_cut(rule_text(ask)) {
            text == "bad recurrence rule: "@ + "it lists a weekday that cannot be read"@
        } else {
            // The crate's own reason follows; it can rest on the machine's time zone.
            &&& "bad recurrence rule: "@.is_prefix_of(text)
            &&& !trimmed(ask.rule).contains('\n') ==> rule_days(
                rule_text(ask),
                next_day(hi).days as int,
                NOON as int,
                EXPANSION_LIMIT as int,
            ) is None
        }
    }

    fn expand(
        &self,
        rrule: &str,
        dtstart: Date,
        until: Option<Date>,
        lo: Date,
        hi: Date,
    ) -> (r: Result<Vec<Date>, RecurError>) {
        let ghost ask = Ask { rule: rrule@, dtstart, until, lo, hi };
        if hi.days < lo.days {
            return Ok(Vec::new());
        }
        // The end of the series is applied here rather than folded into the rule text: RFC 5545's
        // UNTIL is an instant, and appending one to a rule the operator wrote risks contradicting a
        // UNTIL already in it. Ours is an inclusive date, so it is a filter.
        let last = match until {
            Some(u) => if u.days < hi.days {
                u
            } else {
                hi
            },
            None => hi,
        };
        if last.days < dtstart.days || last.days < lo.days {
            return Ok(Vec::new());
        }
        if last.days < MIN_DAYS || last.days > MAX_DAYS {
            return Err(RecurError::BadRule("the window leaves the calendar".to_string()));
        }
        let mut text = "DTSTART:".to_string();
        let start = dtstart.to_compact();
        let rule = trim(rrule);
        text.append(start.as_str());
        text.append("T120000Z\nRRULE:");
        text.append(rule.as_str());
        assert(text@ == rule_text(ask));
        if !check_text(text.as_str()) {
            return Err(RecurError::BadRule("it lists a weekday that cannot be read".to_string()));
        }
        // One day past the horizon is asked for and the filter is exact: whether the crate treats
        // its bound as inclusive or exclusive then makes no difference.
        let fetch_to = match last.succ_opt() {
            Some(d) => d,
            None => last,
        };
        proof {
            if !rule@.contains('\n') {
                lemma_rule_text(ask);
            }
        }
        match rrule_days(text.as_str(), fetch_to, NOON, EXPANSION_LIMIT) {
            Ok(days) => Ok(keep_within(&days, lo, last)),
            Err(reason) => {
                let e = RecurError::BadRule(reason);
                proof {
                    let head = "bad recurrence rule: "@;
                    assert(e.text().subrange(0, head.len() as int) =~= head);
                }
                Err(e)
            },
        }
    }
}

proof fn lemma_no_break_in_digits(s: Seq<char>)
    requires
        crate::digits::all_digits(s),
    ensures
        !s.contains('\n'),
{
    if s.contains('\n') {
        let i = choose|i: int| 0 <= i < s.len() && s[i] == '\n';
        assert(crate::digits::is_digit(s[i]));
    }
}

/// The text a rule without a line break is expanded from is a start and one rule.
proof fn lemma_rule_text(ask: Ask)
    requires
        !trimmed(ask.rule).contains('\n'),
    ensures
        start_and_rule(
            rule_text(ask),
            compact(ask.dtstart.days as int) + "T120000"@,
            trimmed(ask.rule),
        ),
{
    reveal_strlit("DTSTART:");
    reveal_strlit("T120000Z\nRRULE:");
    reveal_strlit("T120000");
    reveal_strlit("Z\nRRULE:");
    let c = civil(ask.dtstart.days as int);
    let day = compact(ask.dtstart.days as int);
    let start = day + "T120000"@;
    assert(rule_text(ask) =~= "DTSTART:"@ + start + "Z\nRRULE:"@ + trimmed(ask.rule));
    let abs = if c.0 < 0 {
        (-c.0) as nat
    } else {
        c.0 as nat
    };
    crate::digits::lemma_padded(abs, 4);
    crate::digits::lemma_padded(c.1 as nat, 2);
    crate::digits::lemma_padded(c.2 as nat, 2);
    lemma_no_break_in_digits(crate::digits::padded(abs, 4));
    lemma_no_break_in_digits(crate::digits::padded(c.1 as nat, 2));
    lemma_no_break_in_digits(crate::digits::padded(c.2 as nat, 2));
    let y = crate::date::year_text(c.0);
    let m = crate::digits::padded(c.1 as nat, 2);
    let d = crate::digits::padded(c.2 as nat, 2);
    assert(!y.contains('\n')) by {
        if y.contains('\n') {
            let i = choose|i: int| 0 <= i < y.len() && y[i] == '\n';
            if 0 <= c.0 <= 9999 {
                assert(crate::digits::padded(abs, 4)[i] == '\n');
            } else if i > 0 {
                assert(crate::digits::padded(abs, 4)[i - 1] == '\n');
            }
        }
    }
    assert(!start.contains('\n')) by {
        if start.contains('\n') {
            let i = choose|i: int| 0 <= i < start.len() && start[i] == '\n';
            if i < y.len() {
                assert(y[i] == '\n');
            } else if i < y.len() + m.len() {
                assert(m[i - y.len()] == '\n');
            } else if i < y.len() + m.len() + d.len() {
                assert(d[i - y.len() - m.len()] == '\n');
            } else {
                assert("T120000"@[i - day.len()] == '\n');
            }
        }
    }
}

proof fn lemma_kept_in_order(days: Seq<int>, lo: int, hi: int)
    requires
        in_order(days),
    ensures
        forall|i: int, j: int|
            0 <= i < j < kept(days, lo, hi).len() ==> kept(days, lo, hi)[i] < kept(days, lo, hi)[j],
        forall|i: int|
            0 <= i < kept(days, lo, hi).len() ==> lo <= #[trigger] kept(days, lo, hi)[i] <= hi,
        kept(days, lo, hi).len() > 0 ==> kept(days, lo, hi).last() <= days.last(),
    decreases days.len(),
{
    if days.len() > 0 {
        let rest = days.drop_last();
        lemma_kept_in_order(rest, lo, hi);
        let before = kept(rest, lo, hi);
        if before.len() > 0 {
            assert(rest.last() == days[days.len() - 2]);
            assert(days[days.len() - 2] <= days[days.len() - 1]);
        }
        assert forall|i: int| 0 <= i < before.len() implies before[i] <= before.last() by {
            if i < before.len() - 1 {
                assert(before[i] < before[before.len() - 1]);
            }
        }
    }
}

/// Days in order that lie in a window are those up to a day in it and those after.
proof fn lemma_kept_parts(days: Seq<int>, lo: int, mid: int, hi: int)
    requires
        in_order(days),
        lo <= mid < hi,
    ensures
        kept(days, lo, hi) == kept(days, lo, mid) + kept(days, mid + 1, hi),
    decreases days.len(),
{
    let (a, b) = (kept(days, lo, mid), kept(days, mid + 1, hi));
    if days.len() == 0 {
        assert(kept(days, lo, hi) =~= a + b);
    } else {
        let rest = days.drop_last();
        let d = days.last();
        lemma_kept_parts(rest, lo, mid, hi);
        lemma_kept_in_order(rest, lo, mid);
        lemma_kept_in_order(rest, mid + 1, hi);
        let (x, y) = (kept(rest, lo, mid), kept(rest, mid + 1, hi));
        if x.len() > 0 {
            assert(lo <= x[x.len() - 1] <= mid);
        }
        if y.len() > 0 {
            assert(mid + 1 <= y[y.len() - 1] <= hi);
            assert(rest.last() == days[days.len() - 2]);
            assert(days[days.len() - 2] <= d);
            assert((x + y).last() == y.last());
        } else {
            assert(x + y =~= x);
        }
        if d <= mid {
            assert(y =~= Seq::<int>::empty());
            assert(kept(days, lo, hi) =~= a + b);
        } else {
            assert(kept(days, lo, hi) =~= a + b);
        }
    }
}

proof fn lemma_kept_go_on(more: Seq<int>, days: Seq<int>, lo: int, hi: int)
    requires
        go_on(more, days, hi + 1),
    ensures
        kept(more, lo, hi) == kept(days, lo, hi),
    decreases more.len(),
{
    if days.len() < more.len() {
        let rest = more.drop_last();
        assert(days =~= rest.take(days.len() as int));
        assert forall|i: int| days.len() <= i < rest.len() implies hi + 1 <= #[trigger] rest[i] by {
            assert(rest[i] == more[i]);
        }
        lemma_kept_go_on(rest, days, lo, hi);
        assert(hi + 1 <= more[more.len() - 1]);
    } else {
        assert(days =~= more);
    }
}

proof fn lemma_days_from_numbers(a: Seq<Date>, b: Seq<Date>)
    requires
        numbers(a) == numbers(b),
    ensures
        a == b,
{
    assert(a.len() == numbers(a).len());
    assert forall|i: int| 0 <= i < a.len() implies a[i] == b[i] by {
        assert(numbers(a)[i] == a[i].days);
        assert(numbers(b)[i] == b[i].days);
    }
    assert(a =~= b);
}

/// The occurrences of a rule on one line are in order, each day once, and lie between the start of
/// the series or of the window and the end of either.
pub proof fn law_occurrences_are_in_order(ask: Ask, dates: Seq<Date>, i: int)
    requires
        RRuleCrate.yields(ask, dates),
        !trimmed(ask.rule).contains('\n'),
        ask.dtstart.in_range(),
        0 <= i < dates.len(),
    ensures
        ask.lo.days <= dates[i].days <= ask.hi.days,
        ask.dtstart.days <= dates[i].days,
        ask.until matches Some(u) ==> dates[i].days <= u.days,
        i + 1 < dates.len() ==> dates[i].days < dates[i + 1].days,
{
    let hi = effective_hi(ask.until, ask.hi);
    let days = rule_days(
        rule_text(ask),
        next_day(hi).days as int,
        NOON as int,
        EXPANSION_LIMIT as int,
    )->0;
    let own = kept(days, ask.lo.days as int, hi.days as int);
    lemma_rule_text(ask);
    lemma_kept_in_order(days, ask.lo.days as int, hi.days as int);
    assert(numbers(dates)[i] == dates[i].days);
    law_the_window_is_inclusive(days, ask.lo.days as int, hi.days as int, own[i]);
    assert(own.contains(own[i]));
    let k = choose|k: int| 0 <= k < days.len() && days[k] == own[i];
    assert(start_and_rule(
        rule_text(ask),
        compact(ask.dtstart.days as int) + "T120000"@,
        trimmed(ask.rule),
    ));
    assert(none_before(days, ask.dtstart.days as int));
    if i + 1 < dates.len() {
        assert(numbers(dates)[i + 1] == dates[i + 1].days);
        assert(own[i] < own[i + 1]);
    }
}

/// Whether the limit on occurrences does not cut an expansion short.
pub open spec fn is_whole(ask: Ask) -> bool {
    rule_days(
        rule_text(ask),
        next_day(effective_hi(ask.until, ask.hi)).days as int,
        NOON as int,
        EXPANSION_LIMIT as int,
    ) matches Some(days) ==> days.len() < EXPANSION_LIMIT
}

/// Windows that meet add up: the occurrences of a rule on one line in a window are those up to a day
/// of it and then those after that day, unless the limit cuts the whole window short.
pub proof fn law_windows_add_up(ask: Ask, mid: Date, all: Seq<Date>, a: Seq<Date>, b: Seq<Date>)
    requires
        !trimmed(ask.rule).contains('\n'),
        ask.dtstart.in_range(),
        ask.hi.in_range(),
        ask.lo.days <= mid.days < ask.hi.days,
        is_whole(ask),
        RRuleCrate.yields(ask, all),
        RRuleCrate.yields((Ask { hi: mid, ..ask }), a),
        RRuleCrate.yields((Ask { lo: next_day(mid), ..ask }), b),
    ensures
        all == a + b,
{
    let (lo, m) = (ask.lo.days as int, mid.days as int);
    let hi = effective_hi(ask.until, ask.hi);
    let one = Ask { hi: mid, ..ask };
    let two = Ask { lo: next_day(mid), ..ask };
    let last = next_day(hi).days as int;
    let text = rule_text(ask);
    let more = rule_days(text, last, NOON as int, EXPANSION_LIMIT as int)->0;
    lemma_rule_text(ask);
    assert(rule_text(one) == text && rule_text(two) == text);
    if nothing_wanted(ask) {
        assert(all =~= a + b);
    } else if effective_hi(ask.until, mid) == hi {
        assert(nothing_wanted(two));
        assert(numbers(all) == numbers(a));
        lemma_days_from_numbers(all, a);
        assert(all =~= a + b);
    } else {
        assert(effective_hi(ask.until, mid) == mid);
        lemma_kept_parts(more, lo, m, hi.days as int);
        if nothing_wanted(one) {
            assert(start_and_rule(
                text,
                compact(ask.dtstart.days as int) + "T120000"@,
                trimmed(ask.rule),
            ));
            assert(none_before(more, ask.dtstart.days as int));
            let early = kept(more, lo, m);
            if early.len() > 0 {
                law_the_window_is_inclusive(more, lo, m, early[0]);
                assert(early.contains(early[0]));
                let k = choose|k: int| 0 <= k < more.len() && more[k] == early[0];
                assert(ask.dtstart.days <= more[k]);
            }
            assert(numbers(all) =~= numbers(b));
            lemma_days_from_numbers(all, b);
            assert(all =~= a + b);
        } else {
            let days = rule_days(text, m + 1, NOON as int, EXPANSION_LIMIT as int)->0;
            assert(go_on(more, days, m + 1));
            lemma_kept_go_on(more, days, lo, m);
            assert(numbers(a + b) =~= numbers(a) + numbers(b));
            lemma_days_from_numbers(all, a + b);
        }
    }
}

/// A day of the expansion is kept exactly where it lies in the window, both ends counted.
pub proof fn law_the_window_is_inclusive(days: Seq<int>, lo: int, hi: int, d: int)
    ensures
        kept(days, lo, hi).contains(d) <==> days.contains(d) && lo <= d <= hi,
    decreases days.len(),
{
    if days.len() > 0 {
        let rest = days.drop_last();
        let before = kept(rest, lo, hi);
        let l = days.last();
        law_the_window_is_inclusive(rest, lo, hi, d);
        assert(days.contains(d) <==> rest.contains(d) || d == l) by {
            if days.contains(d) {
                let i = choose|i: int| 0 <= i < days.len() && days[i] == d;
                if i < rest.len() {
                    assert(rest[i] == d);
                }
            }
            if rest.contains(d) {
                let i = choose|i: int| 0 <= i < rest.len() && rest[i] == d;
                assert(days[i] == d);
            }
            assert(days[days.len() - 1] == l);
        }
        let now = kept(days, lo, hi);
        if lo <= l <= hi && !(before.len() > 0 && before.last() == l) {
            assert(now == before.push(l));
            assert(now[before.len() as int] == l);
            if before.contains(d) {
                let i = choose|i: int| 0 <= i < before.len() && before[i] == d;
                assert(now[i] == d);
            }
            if now.contains(d) {
                let i = choose|i: int| 0 <= i < now.len() && now[i] == d;
                if i < before.len() {
                    assert(before[i] == d);
                }
            }
        } else if lo <= l <= hi {
            assert(before[before.len() - 1] == l);
        }
    }
}

/// A window turned about expands to nothing.
pub proof fn law_a_reversed_window_is_empty(ask: Ask, dates: Seq<Date>)
    requires
        ask.hi.days < ask.lo.days,
        RRuleCrate.yields(ask, dates),
    ensures
        dates.len() == 0,
{
}

/// No occurrence lies outside its window or after the end of its series.
pub proof fn law_occurrences_stay_in_their_window(ask: Ask, dates: Seq<Date>, i: int)
    requires
        RRuleCrate.yields(ask, dates),
        0 <= i < dates.len(),
    ensures
        ask.lo.days <= dates[i].days <= ask.hi.days,
        ask.until matches Some(u) ==> dates[i].days <= u.days,
{
}

/// The same question about a rule of one line always has the same answer.
pub proof fn law_expansion_is_determined(ask: Ask, a: Seq<Date>, b: Seq<Date>)
    requires
        !trimmed(ask.rule).contains('\n'),
        RRuleCrate.yields(ask, a),
        RRuleCrate.yields(ask, b),
    ensures
        a == b,
{
    if !nothing_wanted(ask) {
        assert(numbers(a) == numbers(b));
        assert(numbers(a).len() == a.len() && numbers(b).len() == b.len());
        assert forall|i: int| 0 <= i < a.len() implies a[i] == b[i] by {
            assert(numbers(a)[i] == a[i].days);
            assert(numbers(b)[i] == b[i].days);
        }
    }
    assert(a =~= b);
}

/// The parts of a rule that are put into words.
pub struct PartsView {
    pub freq: Option<Seq<char>>,
    pub interval: int,
    pub byday: Option<Seq<char>>,
    pub bymonthday: Option<Seq<char>>,
    pub bysetpos: Option<Seq<char>>,
    pub bymonth: Option<Seq<char>>,
}

struct Parts {
    freq: Option<String>,
    interval: u32,
    byday: Option<String>,
    bymonthday: Option<String>,
    bysetpos: Option<String>,
    bymonth: Option<String>,
}

impl View for Parts {
    type V = PartsView;

    closed spec fn view(&self) -> PartsView {
        PartsView {
            freq: crate::text::opt_view(self.freq),
            interval: self.interval as int,
            byday: crate::text::opt_view(self.byday),
            bymonthday: crate::text::opt_view(self.bymonthday),
            bysetpos: crate::text::opt_view(self.bysetpos),
            bymonth: crate::text::opt_view(self.bymonth),
        }
    }
}

/// A rule of no parts.
pub open spec fn no_parts() -> PartsView {
    PartsView {
        freq: None,
        interval: 1,
        byday: None,
        bymonthday: None,
        bysetpos: None,
        bymonth: None,
    }
}

/// A rule with one more part, or `None` where the part is not one that is understood.
pub open spec fn with_part(v: PartsView, part: Seq<char>) -> Option<PartsView> {
    if trimmed(part).len() == 0 {
        Some(v)
    } else {
        match cut(part, '=') {
            None => None,
            Some((k, val)) => {
                let key = trimmed(k);
                let value = trimmed(val);
                if key == "FREQ"@ {
                    Some(PartsView { freq: Some(value), ..v })
                } else if key == "INTERVAL"@ {
                    match number_in(value, 0, u32::MAX as int) {
                        Some(n) => if n >= 1 {
                            Some(PartsView { interval: n, ..v })
                        } else {
                            None
                        },
                        None => None,
                    }
                } else if key == "BYDAY"@ {
                    Some(PartsView { byday: Some(value), ..v })
                } else if key == "BYMONTHDAY"@ {
                    Some(PartsView { bymonthday: Some(value), ..v })
                } else if key == "BYSETPOS"@ {
                    Some(PartsView { bysetpos: Some(value), ..v })
                } else if key == "BYMONTH"@ {
                    Some(PartsView { bymonth: Some(value), ..v })
                } else if key == "WKST"@ {
                    Some(v)
                } else {
                    None
                }
            },
        }
    }
}

/// The parts of a rule, or `None` where one of them is not understood.
pub open spec fn parts_of(pieces: Seq<Seq<char>>) -> Option<PartsView>
    decreases pieces.len(),
{
    if pieces.len() == 0 {
        Some(no_parts())
    } else {
        match parts_of(pieces.drop_last()) {
            None => None,
            Some(v) => with_part(v, pieces.last()),
        }
    }
}

proof fn lemma_parts_none(pieces: Seq<Seq<char>>, k: int)
    requires
        0 <= k <= pieces.len(),
        parts_of(pieces.take(k)) is None,
    ensures
        parts_of(pieces) is None,
    decreases pieces.len() - k,
{
    if k < pieces.len() {
        assert(pieces.take(k + 1).drop_last() =~= pieces.take(k));
        lemma_parts_none(pieces, k + 1);
    } else {
        assert(pieces.take(k) =~= pieces);
    }
}

fn read_parts(up: &str) -> (r: Option<Parts>)
    ensures
        match r {
            Some(v) => parts_of(split(up@, ';')) == Some(v@),
            None => parts_of(split(up@, ';')) is None,
        },
{
    let pieces = split_on(up, ';');
    let ghost all = views(pieces@);
    let mut v = Parts {
        freq: None,
        interval: 1,
        byday: None,
        bymonthday: None,
        bysetpos: None,
        bymonth: None,
    };
    let mut i: usize = 0;
    assert(all.take(0) =~= Seq::<Seq<char>>::empty());
    while i < pieces.len()
        invariant
            i <= pieces@.len(),
            all == views(pieces@),
            all == split(up@, ';'),
            parts_of(all.take(i as int)) == Some(v@),
        decreases pieces@.len() - i,
    {
        let piece = pieces[i].as_str();
        proof {
            assert(all.take(i + 1).drop_last() =~= all.take(i as int));
            assert(all.take(i + 1).last() == piece@);
            if with_part(v@, piece@) is None {
                lemma_parts_none(all, i + 1);
            }
        }
        let blank = trim(piece);
        if blank.as_str().unicode_len() > 0 {
            match split_once(piece, '=') {
                None => {
                    return None;
                },
                Some((k, val)) => {
                    let key = trim(k.as_str());
                    let key = key.as_str();
                    let value = trim(val.as_str());
                    if str_eq(key, "FREQ") {
                        v.freq = Some(value);
                    } else if str_eq(key, "INTERVAL") {
                        match parse_u32(value.as_str()) {
                            Some(n) => {
                                if n < 1 {
                                    return None;
                                }
                                v.interval = n;
                            },
                            None => {
                                return None;
                            },
                        }
                    } else if str_eq(key, "BYDAY") {
                        v.byday = Some(value);
                    } else if str_eq(key, "BYMONTHDAY") {
                        v.bymonthday = Some(value);
                    } else if str_eq(key, "BYSETPOS") {
                        v.bysetpos = Some(value);
                    } else if str_eq(key, "BYMONTH") {
                        v.bymonth = Some(value);
                    } else if str_eq(key, "WKST") {
                    } else {
                        return None;
                    }
                },
            }
        }
        i = i + 1;
    }
    assert(all.take(all.len() as int) =~= all);
    Some(v)
}

/// A number with its ordinal ending: 1st, 2nd, 3rd, 4th, 11th.
pub open spec fn ordinal(n: int) -> Seq<char> {
    int_digits(n) + (if 11 <= n % 100 <= 13 {
        "th"@
    } else if n % 10 == 1 {
        "st"@
    } else if n % 10 == 2 {
        "nd"@
    } else if n % 10 == 3 {
        "rd"@
    } else {
        "th"@
    })
}

fn ordinal_text(n: u32) -> (r: String)
    ensures
        r@ == ordinal(n as int),
{
    let mut out = int_text(n as i128);
    let hundred: u32 = n % 100;
    let ten: u32 = n % 10;
    if 11 <= hundred && hundred <= 13 {
        out.append("th");
    } else if ten == 1 {
        out.append("st");
    } else if ten == 2 {
        out.append("nd");
    } else if ten == 3 {
        out.append("rd");
    } else {
        out.append("th");
    }
    out
}

/// The name of the weekday with a code.
pub open spec fn day_name(code: Seq<char>) -> Option<Seq<char>> {
    if code == "MO"@ {
        Some("Monday"@)
    } else if code == "TU"@ {
        Some("Tuesday"@)
    } else if code == "WE"@ {
        Some("Wednesday"@)
    } else if code == "TH"@ {
        Some("Thursday"@)
    } else if code == "FR"@ {
        Some("Friday"@)
    } else if code == "SA"@ {
        Some("Saturday"@)
    } else if code == "SU"@ {
        Some("Sunday"@)
    } else {
        None
    }
}

fn name_of_day(code: &str) -> (r: Option<&'static str>)
    ensures
        match r {
            Some(n) => day_name(code@) == Some(n@),
            None => day_name(code@) is None,
        },
{
    if str_eq(code, "MO") {
        Some("Monday")
    } else if str_eq(code, "TU") {
        Some("Tuesday")
    } else if str_eq(code, "WE") {
        Some("Wednesday")
    } else if str_eq(code, "TH") {
        Some("Thursday")
    } else if str_eq(code, "FR") {
        Some("Friday")
    } else if str_eq(code, "SA") {
        Some("Saturday")
    } else if str_eq(code, "SU") {
        Some("Sunday")
    } else {
        None
    }
}

/// The code of a day's weekday.
pub open spec fn weekday_code(d: Date) -> Seq<char> {
    let w = weekday_of(d.days as int);
    if w == 0 {
        "MO"@
    } else if w == 1 {
        "TU"@
    } else if w == 2 {
        "WE"@
    } else if w == 3 {
        "TH"@
    } else if w == 4 {
        "FR"@
    } else if w == 5 {
        "SA"@
    } else {
        "SU"@
    }
}

fn code_of_day(d: Date) -> (r: &'static str)
    ensures
        r@ == weekday_code(d),
{
    let w: u32 = d.weekday();
    if w == 0 {
        "MO"
    } else if w == 1 {
        "TU"
    } else if w == 2 {
        "WE"
    } else if w == 3 {
        "TH"
    } else if w == 4 {
        "FR"
    } else if w == 5 {
        "SA"
    } else {
        "SU"
    }
}

/// The months' names.
pub const MONTHS: [&'static str; 12] = [
    "January",
    "February",
    "March",
    "April",
    "May",
    "June",
    "July",
    "August",
    "September",
    "October",
    "November",
    "December",
];

/// How often, in words: the one word where the interval is one, else "every n" of the unit.
pub open spec fn every(interval: int, one: Seq<char>, unit: Seq<char>) -> Seq<char> {
    if interval == 1 {
        one
    } else {
        "every "@ + int_digits(interval) + " "@ + unit
    }
}

fn every_text(interval: u32, one: &str, unit: &str) -> (r: String)
    ensures
        r@ == every(interval as int, one@, unit@),
{
    if interval == 1 {
        one.to_string()
    } else {
        let mut out = "every ".to_string();
        let n = int_text(interval as i128);
        out.append(n.as_str());
        out.append(" ");
        out.append(unit);
        out
    }
}

/// The names of a list of weekday codes, or `None` where one is no code.
pub open spec fn day_names(codes: Seq<Seq<char>>) -> Option<Seq<Seq<char>>>
    decreases codes.len(),
{
    if codes.len() == 0 {
        Some(Seq::empty())
    } else {
        match (day_names(codes.drop_last()), day_name(trimmed(codes.last()))) {
            (Some(before), Some(n)) => Some(before.push(n)),
            _ => None,
        }
    }
}

proof fn lemma_day_names_none(codes: Seq<Seq<char>>, k: int)
    requires
        0 <= k <= codes.len(),
        day_names(codes.take(k)) is None,
    ensures
        day_names(codes) is None,
    decreases codes.len() - k,
{
    if k < codes.len() {
        assert(codes.take(k + 1).drop_last() =~= codes.take(k));
        lemma_day_names_none(codes, k + 1);
    } else {
        assert(codes.take(k) =~= codes);
    }
}

fn names_of_days(codes: &Vec<String>) -> (r: Option<Vec<String>>)
    ensures
        match r {
            Some(v) => day_names(views(codes@)) == Some(views(v@)),
            None => day_names(views(codes@)) is None,
        },
{
    let ghost all = views(codes@);
    let mut out: Vec<String> = Vec::new();
    let mut i: usize = 0;
    assert(views(out@) =~= Seq::<Seq<char>>::empty());
    assert(all.take(0) =~= Seq::<Seq<char>>::empty());
    while i < codes.len()
        invariant
            i <= codes@.len(),
            all == views(codes@),
            day_names(all.take(i as int)) == Some(views(out@)),
        decreases codes@.len() - i,
    {
        proof {
            assert(all.take(i + 1).drop_last() =~= all.take(i as int));
            assert(all.take(i + 1).last() == codes@[i as int]@);
        }
        let code = trim(codes[i].as_str());
        match name_of_day(code.as_str()) {
            Some(n) => {
                let n = n.to_string();
                assert(views(out@.push(n)) =~= views(out@).push(n@));
                out.push(n);
            },
            None => {
                proof {
                    lemma_day_names_none(all, i + 1);
                }
                return None;
            },
        }
        i = i + 1;
    }
    assert(all.take(all.len() as int) =~= all);
    Some(out)
}

/// A weekly rule in words.
pub open spec fn weekly(v: PartsView, dtstart: Date) -> Option<Seq<char>> {
    let base = if v.interval == 2 {
        "fortnightly"@
    } else {
        every(v.interval, "weekly"@, "weeks"@)
    };
    let codes = match v.byday {
        Some(list) => split(list, ','),
        None => seq![weekday_code(dtstart)],
    };
    match day_names(codes) {
        Some(names) => Some(base + " on "@ + joined(names, ", "@)),
        None => None,
    }
}

/// The days of the month of a rule, or `None` where one is no day of a month.
pub open spec fn month_days(pieces: Seq<Seq<char>>) -> Option<Seq<int>>
    decreases pieces.len(),
{
    if pieces.len() == 0 {
        Some(Seq::empty())
    } else {
        match (
            month_days(pieces.drop_last()),
            number_in(trimmed(pieces.last()), 0, u32::MAX as int),
        ) {
            (Some(before), Some(n)) => if 1 <= n <= 31 {
                Some(before.push(n))
            } else {
                None
            },
            _ => None,
        }
    }
}

/// The remark on days that not every month has: the 31st falls seven times a year.
pub open spec fn skips(days: Seq<int>) -> Seq<char> {
    if forall|i: int| 0 <= i < days.len() ==> #[trigger] days[i] >= 29 {
        " (skips months without one)"@
    } else {
        ""@
    }
}

/// The ordinals of a list of days.
pub open spec fn ordinals(days: Seq<int>) -> Seq<Seq<char>> {
    days.map_values(|n: int| ordinal(n))
}

/// Which of a month's weekdays a position is, counted from the front.
pub open spec fn nth(pos: Seq<char>) -> Option<Seq<char>> {
    if pos == "1"@ {
        Some("first"@)
    } else if pos == "2"@ {
        Some("second"@)
    } else if pos == "3"@ {
        Some("third"@)
    } else if pos == "4"@ {
        Some("fourth"@)
    } else {
        None
    }
}

/// Which of a month's weekdays a signed number in front of a code is.
pub open spec fn signed_nth(num: Seq<char>) -> Option<Seq<char>> {
    if num == "-1"@ {
        Some("last"@)
    } else if num == "1"@ || num == "+1"@ {
        Some("first"@)
    } else if num == "2"@ || num == "+2"@ {
        Some("second"@)
    } else if num == "3"@ || num == "+3"@ {
        Some("third"@)
    } else if num == "4"@ || num == "+4"@ {
        Some("fourth"@)
    } else {
        None
    }
}

/// The number in front of a weekday code, and the code: the last two characters are the code.
pub open spec fn number_and_code(day: Seq<char>) -> (Seq<char>, Seq<char>) {
    let k = if day.len() >= 2 {
        day.len() - 2
    } else {
        0
    };
    (day.take(k), day.skip(k))
}

/// On which day of the month a monthly rule falls, in words.
pub open spec fn month_suffix(v: PartsView, dtstart: Date) -> Option<Seq<char>> {
    match (v.bymonthday, v.byday, v.bysetpos) {
        (None, None, None) => {
            let d = civil(dtstart.days as int).2;
            Some("the "@ + ordinal(d) + skips(seq![d]))
        },
        (Some(days), None, None) => if days == "-1"@ {
            Some("the last day"@)
        } else {
            match month_days(split(days, ',')) {
                Some(nums) => Some("the "@ + joined(ordinals(nums), " and "@) + skips(nums)),
                None => None,
            }
        },
        (None, Some(days), Some(pos)) => if pos == "-1"@ {
            if days == "MO,TU,WE,TH,FR"@ {
                Some("the last working day"@)
            } else {
                match day_name(days) {
                    Some(name) => Some("the last "@ + name),
                    None => None,
                }
            }
        } else {
            match (day_name(days), nth(pos)) {
                (Some(name), Some(n)) => Some("the "@ + n + " "@ + name),
                _ => None,
            }
        },
        (None, Some(day), None) => {
            let (num, code) = number_and_code(day);
            match (day_name(code), signed_nth(num)) {
                (Some(name), Some(n)) => Some("the "@ + n + " "@ + name),
                _ => None,
            }
        },
        _ => None,
    }
}

/// The day and month a yearly rule falls on.
pub open spec fn year_day(v: PartsView, dtstart: Date) -> Option<(int, int)> {
    match (v.bymonthday, v.bymonth) {
        (None, None) => Some((civil(dtstart.days as int).2, civil(dtstart.days as int).1)),
        (Some(d), Some(m)) => match (
            number_in(d, 0, u32::MAX as int),
            number_in(m, 0, u32::MAX as int),
        ) {
            (Some(d), Some(m)) => if 1 <= d <= 31 && 1 <= m <= 12 {
                Some((d, m))
            } else {
                None
            },
            _ => None,
        },
        _ => None,
    }
}

/// A rule in words, or `None` where some part of it has none.
pub open spec fn phrase(v: PartsView, dtstart: Date) -> Option<Seq<char>> {
    if v.freq == Some("DAILY"@) && v.byday is None && v.bymonthday is None && v.bysetpos is None
        && v.bymonth is None {
        Some(every(v.interval, "daily"@, "days"@))
    } else if v.freq == Some("WEEKLY"@) && v.bymonthday is None && v.bysetpos is None && v.bymonth
        is None {
        weekly(v, dtstart)
    } else if v.freq == Some("MONTHLY"@) && v.bymonth is None {
        match month_suffix(v, dtstart) {
            Some(suffix) => Some(every(v.interval, "monthly"@, "months"@) + " on "@ + suffix),
            None => None,
        }
    } else if v.freq == Some("YEARLY"@) && v.byday is None && v.bysetpos is None {
        match year_day(v, dtstart) {
            Some((d, m)) => Some(
                every(v.interval, "yearly"@, "years"@) + " on "@ + int_digits(d) + " "@
                    + MONTHS@[m - 1]@,
            ),
            None => None,
        }
    } else {
        None
    }
}

/// A rule in words where every part of it is understood and the expander takes it, else its own
/// text.
pub open spec fn described(rule: Seq<char>, dtstart: Date, expands: bool) -> Seq<char> {
    described_by(trimmed(rule), upper(trimmed(rule)), dtstart, expands)
}

/// A rule in words, given its text and its text in upper case.
pub open spec fn described_by(
    raw: Seq<char>,
    up: Seq<char>,
    dtstart: Date,
    expands: bool,
) -> Seq<char> {
    match parts_of(split(up, ';')) {
        None => raw,
        Some(v) => if !expands {
            raw
        } else {
            match phrase(v, dtstart) {
                Some(p) => p,
                None => raw,
            }
        },
    }
}

proof fn lemma_month_days_none(pieces: Seq<Seq<char>>, k: int)
    requires
        0 <= k <= pieces.len(),
        month_days(pieces.take(k)) is None,
    ensures
        month_days(pieces) is None,
    decreases pieces.len() - k,
{
    if k < pieces.len() {
        assert(pieces.take(k + 1).drop_last() =~= pieces.take(k));
        lemma_month_days_none(pieces, k + 1);
    } else {
        assert(pieces.take(k) =~= pieces);
    }
}

/// The numbers of a list of `u32`.
pub open spec fn ints(v: Seq<u32>) -> Seq<int> {
    v.map_values(|n: u32| n as int)
}

fn read_month_days(list: &str) -> (r: Option<Vec<u32>>)
    ensures
        match r {
            Some(v) => month_days(split(list@, ',')) == Some(ints(v@)),
            None => month_days(split(list@, ',')) is None,
        },
{
    let pieces = split_on(list, ',');
    let ghost all = views(pieces@);
    let mut out: Vec<u32> = Vec::new();
    let mut i: usize = 0;
    assert(ints(out@) =~= Seq::<int>::empty());
    assert(all.take(0) =~= Seq::<Seq<char>>::empty());
    while i < pieces.len()
        invariant
            i <= pieces@.len(),
            all == views(pieces@),
            all == split(list@, ','),
            month_days(all.take(i as int)) == Some(ints(out@)),
        decreases pieces@.len() - i,
    {
        proof {
            assert(all.take(i + 1).drop_last() =~= all.take(i as int));
            assert(all.take(i + 1).last() == pieces@[i as int]@);
            if month_days(all.take(i + 1)) is None {
                lemma_month_days_none(all, i + 1);
            }
        }
        let t = trim(pieces[i].as_str());
        match parse_u32(t.as_str()) {
            Some(n) => {
                if n < 1 || n > 31 {
                    return None;
                }
                assert(ints(out@.push(n)) =~= ints(out@).push(n as int));
                out.push(n);
            },
            None => {
                return None;
            },
        }
        i = i + 1;
    }
    assert(all.take(all.len() as int) =~= all);
    Some(out)
}

fn skips_text(days: &Vec<u32>) -> (r: &'static str)
    ensures
        r@ == skips(ints(days@)),
{
    let mut i: usize = 0;
    while i < days.len()
        invariant
            i <= days@.len(),
            forall|j: int| 0 <= j < i ==> days@[j] >= 29,
        decreases days@.len() - i,
    {
        if days[i] < 29 {
            assert(ints(days@)[i as int] < 29);
            return "";
        }
        i = i + 1;
    }
    assert forall|j: int| 0 <= j < ints(days@).len() implies #[trigger] ints(days@)[j] >= 29 by {
        assert(days@[j] >= 29);
    }
    " (skips months without one)"
}

fn ordinals_text(days: &Vec<u32>) -> (r: Vec<String>)
    ensures
        views(r@) == ordinals(ints(days@)),
{
    let mut out: Vec<String> = Vec::new();
    let mut i: usize = 0;
    while i < days.len()
        invariant
            i <= days@.len(),
            views(out@) == ordinals(ints(days@)).take(i as int),
        decreases days@.len() - i,
    {
        let o = ordinal_text(days[i]);
        assert(views(out@.push(o)) =~= views(out@).push(o@));
        assert(ordinals(ints(days@)).take(i + 1) =~= ordinals(ints(days@)).take(i as int).push(o@));
        out.push(o);
        i = i + 1;
    }
    assert(views(out@) =~= ordinals(ints(days@)));
    out
}

fn nth_text(pos: &str) -> (r: Option<&'static str>)
    ensures
        match r {
            Some(n) => nth(pos@) == Some(n@),
            None => nth(pos@) is None,
        },
{
    if str_eq(pos, "1") {
        Some("first")
    } else if str_eq(pos, "2") {
        Some("second")
    } else if str_eq(pos, "3") {
        Some("third")
    } else if str_eq(pos, "4") {
        Some("fourth")
    } else {
        None
    }
}

fn signed_nth_text(num: &str) -> (r: Option<&'static str>)
    ensures
        match r {
            Some(n) => signed_nth(num@) == Some(n@),
            None => signed_nth(num@) is None,
        },
{
    if str_eq(num, "-1") {
        Some("last")
    } else if str_eq(num, "1") || str_eq(num, "+1") {
        Some("first")
    } else if str_eq(num, "2") || str_eq(num, "+2") {
        Some("second")
    } else if str_eq(num, "3") || str_eq(num, "+3") {
        Some("third")
    } else if str_eq(num, "4") || str_eq(num, "+4") {
        Some("fourth")
    } else {
        None
    }
}

fn the(n: &str, name: &str) -> (r: String)
    ensures
        r@ == "the "@ + n@ + " "@ + name@,
{
    let mut out = "the ".to_string();
    out.append(n);
    out.append(" ");
    out.append(name);
    out
}

/// Whether an optional text is this one.
fn is_text(o: &Option<String>, s: &str) -> (r: bool)
    ensures
        r == (crate::text::opt_view(*o) == Some(s@)),
{
    match o {
        Some(t) => str_eq(t.as_str(), s),
        None => false,
    }
}

fn weekly_text(v: &Parts, dtstart: Date) -> (r: Option<String>)
    ensures
        crate::text::opt_view(r) == weekly(v@, dtstart),
{
    let mut base = if v.interval == 2 {
        "fortnightly".to_string()
    } else {
        every_text(v.interval, "weekly", "weeks")
    };
    let codes: Vec<String> = match &v.byday {
        Some(list) => split_on(list.as_str(), ','),
        None => {
            let mut one: Vec<String> = Vec::new();
            one.push(code_of_day(dtstart).to_string());
            assert(views(one@) =~= seq![weekday_code(dtstart)]);
            one
        },
    };
    match names_of_days(&codes) {
        Some(names) => {
            let list = join(&names, ", ");
            base.append(" on ");
            base.append(list.as_str());
            Some(base)
        },
        None => None,
    }
}

fn month_suffix_text(v: &Parts, dtstart: Date) -> (r: Option<String>)
    ensures
        crate::text::opt_view(r) == month_suffix(v@, dtstart),
{
    match (&v.bymonthday, &v.byday, &v.bysetpos) {
        (None, None, None) => {
            let d: u32 = dtstart.day();
            let mut days: Vec<u32> = Vec::new();
            days.push(d);
            assert(ints(days@) =~= seq![d as int]);
            let mut out = "the ".to_string();
            let o = ordinal_text(d);
            out.append(o.as_str());
            out.append(skips_text(&days));
            Some(out)
        },
        (Some(list), None, None) => {
            if str_eq(list.as_str(), "-1") {
                return Some("the last day".to_string());
            }
            match read_month_days(list.as_str()) {
                Some(nums) => {
                    let parts = ordinals_text(&nums);
                    let text = join(&parts, " and ");
                    let mut out = "the ".to_string();
                    out.append(text.as_str());
                    out.append(skips_text(&nums));
                    Some(out)
                },
                None => None,
            }
        },
        (None, Some(days), Some(pos)) => {
            if str_eq(pos.as_str(), "-1") {
                if str_eq(days.as_str(), "MO,TU,WE,TH,FR") {
                    return Some("the last working day".to_string());
                }
                return match name_of_day(days.as_str()) {
                    Some(name) => {
                        let mut out = "the last ".to_string();
                        out.append(name);
                        Some(out)
                    },
                    None => None,
                };
            }
            match (name_of_day(days.as_str()), nth_text(pos.as_str())) {
                (Some(name), Some(n)) => Some(the(n, name)),
                _ => None,
            }
        },
        (None, Some(day), None) => {
            // "-1FR" is the last Friday; "2MO" is the second Monday.
            let chars = chars_of(day.as_str());
            let k: usize = if chars.len() >= 2 {
                chars.len() - 2
            } else {
                0
            };
            let num = text_of(&chars, 0, k);
            let code = text_of(&chars, k, chars.len());
            assert(num@ =~= number_and_code(day@).0);
            assert(code@ =~= number_and_code(day@).1);
            match (name_of_day(code.as_str()), signed_nth_text(num.as_str())) {
                (Some(name), Some(n)) => Some(the(n, name)),
                _ => None,
            }
        },
        _ => None,
    }
}

fn year_day_of(v: &Parts, dtstart: Date) -> (r: Option<(u32, u32)>)
    ensures
        match r {
            Some(p) => year_day(v@, dtstart) == Some((p.0 as int, p.1 as int)) && 1 <= p.1 <= 12,
            None => year_day(v@, dtstart) is None,
        },
{
    match (&v.bymonthday, &v.bymonth) {
        (None, None) => {
            let c = dtstart.ymd();
            Some((c.2, c.1))
        },
        (Some(d), Some(m)) => match (parse_u32(d.as_str()), parse_u32(m.as_str())) {
            (Some(d), Some(m)) => if 1 <= d && d <= 31 && 1 <= m && m <= 12 {
                Some((d, m))
            } else {
                None
            },
            _ => None,
        },
        _ => None,
    }
}

fn phrase_text(v: &Parts, dtstart: Date) -> (r: Option<String>)
    ensures
        crate::text::opt_view(r) == phrase(v@, dtstart),
{
    if is_text(&v.freq, "DAILY") && v.byday.is_none() && v.bymonthday.is_none()
        && v.bysetpos.is_none() && v.bymonth.is_none() {
        Some(every_text(v.interval, "daily", "days"))
    } else if is_text(&v.freq, "WEEKLY") && v.bymonthday.is_none() && v.bysetpos.is_none()
        && v.bymonth.is_none() {
        weekly_text(v, dtstart)
    } else if is_text(&v.freq, "MONTHLY") && v.bymonth.is_none() {
        match month_suffix_text(v, dtstart) {
            Some(suffix) => {
                let mut out = every_text(v.interval, "monthly", "months");
                out.append(" on ");
                out.append(suffix.as_str());
                Some(out)
            },
            None => None,
        }
    } else if is_text(&v.freq, "YEARLY") && v.byday.is_none() && v.bysetpos.is_none() {
        match year_day_of(v, dtstart) {
            Some((d, m)) => {
                let mut out = every_text(v.interval, "yearly", "years");
                out.append(" on ");
                let n = int_text(d as i128);
                out.append(n.as_str());
                out.append(" ");
                out.append(MONTHS[(m - 1) as usize]);
                Some(out)
            },
            None => None,
        }
    } else {
        None
    }
}

/// The rule in words, given whether the expander takes it.
///
/// It only ever names what it fully understands: a rule with any part it does not recognise, or one
/// that does not expand, comes back as its own text rather than as a phrase that drops the part it
/// could not read.
pub fn describe_given(rrule: &str, dtstart: Date, expands: bool) -> (r: String)
    ensures
        r@ == described(rrule@, dtstart, expands),
{
    let raw = trim(rrule);
    let up = to_upper(raw.as_str());
    describe_upper(raw.as_str(), up.as_str(), dtstart, expands)
}

/// The rule in words, given its text, its text in upper case, and whether the expander takes it.
pub fn describe_upper(raw: &str, up: &str, dtstart: Date, expands: bool) -> (r: String)
    ensures
        r@ == described_by(raw@, up@, dtstart, expands),
{
    match read_parts(up) {
        None => raw.to_string(),
        Some(v) => {
            // A rule the expander refuses is not described at all: a phrase would suggest it works.
            if !expands {
                return raw.to_string();
            }
            match phrase_text(&v, dtstart) {
                Some(p) => p,
                None => raw.to_string(),
            }
        },
    }
}

/// The rule in words: "monthly on the 1st", "fortnightly on Friday", "yearly on 5 March".
///
/// This is what tells a reader whether a rule is the one they meant, which the RRULE text does not.
/// `dtstart` answers the questions a rule leaves to its start date, such as which weekday a bare
/// WEEKLY falls on. Whether the rule expands is asked of the expander for its first day.
pub fn describe(rrule: &str, dtstart: Date) -> (r: String)
    ensures
        ({
            let ask = Ask {
                rule: trimmed(rrule@),
                dtstart,
                until: None,
                lo: dtstart,
                hi: dtstart,
            };
            ||| r@ == described(rrule@, dtstart, true) && exists|dates: Seq<Date>|
                RRuleCrate.yields(ask, dates)
            ||| r@ == described(rrule@, dtstart, false) && exists|why: Seq<char>|
                RRuleCrate.refuses(ask, why)
        }),
{
    let raw = trim(rrule);
    match RRuleCrate.expand(raw.as_str(), dtstart, None, dtstart, dtstart) {
        Ok(_) => describe_given(rrule, dtstart, true),
        Err(_) => describe_given(rrule, dtstart, false),
    }
}

/// How the words of a rule with an interval begin: "every" and the interval, or "fortnightly" for every
/// second week.
pub open spec fn interval_words(v: PartsView) -> Seq<char> {
    if v.freq == Some("WEEKLY"@) && v.interval == 2 {
        "fortnightly"@
    } else {
        "every "@ + int_digits(v.interval) + " "@
    }
}

/// A rule that is put into words says its interval: no quarterly rule reads "monthly".
pub proof fn law_an_interval_is_never_dropped(v: PartsView, dtstart: Date)
    requires
        v.interval >= 2,
        phrase(v, dtstart) is Some,
    ensures
        interval_words(v).is_prefix_of(phrase(v, dtstart)->0),
{
    reveal_strlit("DAILY");
    reveal_strlit("WEEKLY");
    reveal_strlit("MONTHLY");
    reveal_strlit("YEARLY");
    let p = phrase(v, dtstart)->0;
    let head = interval_words(v);
    assert("DAILY"@.len() == 5 && "WEEKLY"@.len() == 6);
    assert("MONTHLY"@.len() == 7);
    assert("YEARLY"@[0] == 'Y' && "WEEKLY"@[0] == 'W');
    assert(p.subrange(0, head.len() as int) =~= head);
}

/// Whether money does not move on a day: a weekend, or a holiday.
pub open spec fn blocked(n: int, holidays: Seq<Date>) -> bool {
    weekday_of(n) == 5 || weekday_of(n) == 6 || exists|i: int|
        0 <= i < holidays.len() && (#[trigger] holidays[i]).days == n
}

fn is_blocked(d: Date, holidays: &Vec<Date>) -> (r: bool)
    ensures
        r == blocked(d.days as int, holidays@),
{
    let w: u32 = d.weekday();
    if w == 5 || w == 6 {
        return true;
    }
    let mut i: usize = 0;
    while i < holidays.len()
        invariant
            i <= holidays@.len(),
            forall|j: int| 0 <= j < i ==> (#[trigger] holidays@[j]).days != d.days,
        decreases holidays@.len() - i,
    {
        if holidays[i].days == d.days {
            return true;
        }
        i = i + 1;
    }
    false
}

/// The day before, or the day itself at the beginning of the supported range.
pub open spec fn previous_day(d: Date) -> Date {
    if d.days <= MIN_DAYS {
        d
    } else {
        Date { days: (d.days - 1) as i32 }
    }
}

/// The first day money moves on, walking away from `d` one day at a time, or the day reached after
/// `steps` of them.
pub open spec fn walk(d: Date, forward: bool, holidays: Seq<Date>, steps: nat) -> Date
    decreases steps,
{
    if steps == 0 {
        d
    } else {
        let c = if forward {
            next_day(d)
        } else {
            previous_day(d)
        };
        if !blocked(c.days as int, holidays) {
            c
        } else {
            walk(c, forward, holidays, (steps - 1) as nat)
        }
    }
}

fn walk_from(d: Date, forward: bool, holidays: &Vec<Date>) -> (r: Date)
    ensures
        r == walk(d, forward, holidays@, 10),
{
    let mut c = d;
    // A bounded walk: ten is more than any run of weekend and bank holidays.
    let mut left: u32 = 10;
    while left > 0
        invariant
            left <= 10,
            walk(c, forward, holidays@, left as nat) == walk(d, forward, holidays@, 10),
        decreases left,
    {
        c = if forward {
            match c.succ_opt() {
                Some(n) => n,
                None => c,
            }
        } else {
            match c.pred_opt() {
                Some(n) => n,
                None => c,
            }
        };
        if !is_blocked(c, holidays) {
            return c;
        }
        left = left - 1;
    }
    c
}

/// Where a weekend rule moves a day.
pub open spec fn adjusted(d: Date, rule: Seq<char>, holidays: Seq<Date>) -> Date {
    let ahead = walk(d, true, holidays, 10);
    let back = walk(d, false, holidays, 10);
    if rule == "none"@ || !blocked(d.days as int, holidays) {
        d
    } else if rule == "before"@ {
        back
    } else if rule == "after"@ {
        ahead
    } else if rule == "modified_after"@ {
        if civil(ahead.days as int).1 != civil(d.days as int).1 {
            back
        } else {
            ahead
        }
    } else {
        d
    }
}

/// Move a date off a weekend, per the series' weekend rule.
///
/// This is applied after expansion and moves the value date only -- never the occurrence identity.
/// The slot a real transaction claims is the unadjusted date, so changing the weekend rule later
/// cannot orphan existing overrides or double-project a payment. "Modified following" goes forward
/// unless that crosses into the next month, then backward: the convention UK direct debits use.
pub fn business_adjust(d: Date, rule: &str, holidays: &Vec<Date>) -> (r: Date)
    ensures
        r == adjusted(d, rule@, holidays@),
{
    if str_eq(rule, "none") || !is_blocked(d, holidays) {
        return d;
    }
    if str_eq(rule, "before") {
        walk_from(d, false, holidays)
    } else if str_eq(rule, "after") {
        walk_from(d, true, holidays)
    } else if str_eq(rule, "modified_after") {
        let ahead = walk_from(d, true, holidays);
        if ahead.month() != d.month() {
            walk_from(d, false, holidays)
        } else {
            ahead
        }
    } else {
        d
    }
}

/// A day money moves on stays where it is, whatever the rule.
pub proof fn law_a_working_day_is_left_alone(d: Date, rule: Seq<char>, holidays: Seq<Date>)
    requires
        !blocked(d.days as int, holidays),
    ensures
        adjusted(d, rule, holidays) == d,
{
}

/// From a weekend, with no holidays, the next working day is Monday and the last one Friday.
proof fn lemma_off_a_weekend(d: Date)
    requires
        MIN_DAYS + 2 <= d.days <= MAX_DAYS - 2,
        weekday_of(d.days as int) >= 5,
    ensures
        ({
            let w = weekday_of(d.days as int);
            walk(d, true, Seq::<Date>::empty(), 10).days == d.days + 7 - w && walk(
                d,
                false,
                Seq::<Date>::empty(),
                10,
            ).days == d.days - (w - 4)
        }),
{
    let none = Seq::<Date>::empty();
    let w = weekday_of(d.days as int);
    reveal_with_fuel(walk, 3);
    let n1 = next_day(d);
    let n2 = next_day(n1);
    let p1 = previous_day(d);
    let p2 = previous_day(p1);
    assert(weekday_of(n1.days as int) == (if w == 6 {
        0
    } else {
        w + 1
    }));
    if w == 5 {
        assert(weekday_of(n2.days as int) == 0);
        assert(weekday_of(p1.days as int) == 4);
    } else {
        assert(weekday_of(p1.days as int) == 5);
        assert(weekday_of(p2.days as int) == 4);
    }
    assert forall|n: int| weekday_of(n) < 5 implies !#[trigger] blocked(n, none) by {}
}

/// Where there are no holidays, every rule but "none" lands on a working day.
pub proof fn law_adjusting_leaves_the_weekend(d: Date, rule: Seq<char>)
    requires
        MIN_DAYS + 2 <= d.days <= MAX_DAYS - 2,
        rule != "none"@,
        rule == "before"@ || rule == "after"@ || rule == "modified_after"@,
    ensures
        weekday_of(adjusted(d, rule, Seq::<Date>::empty()).days as int) < 5,
{
    if weekday_of(d.days as int) >= 5 {
        lemma_off_a_weekend(d);
    } else {
        assert(!blocked(d.days as int, Seq::<Date>::empty()));
    }
}

/// A day of a month less than its day of the month further on or back is of the same month.
proof fn lemma_same_month(n: int, y: int, m: int, d: int, k: int)
    requires
        crate::date::is_day(y, m, d),
        crate::date::day_number(y, m, d) == n,
        1 <= d + k <= crate::date::month_len(y, m),
    ensures
        civil(n + k) == (y, m, d + k),
        civil(n) == (y, m, d),
{
    crate::date::lemma_civil(y, m, d + k);
    crate::date::lemma_civil(y, m, d);
}

/// "Modified following" never leaves the month where there are no holidays.
pub proof fn law_modified_following_stays_in_the_month(d: Date, y: int, m: int, day: int)
    requires
        MIN_DAYS + 2 <= d.days <= MAX_DAYS - 2,
        crate::date::is_day(y, m, day),
        crate::date::day_number(y, m, day) == d.days,
    ensures
        civil(adjusted(d, "modified_after"@, Seq::<Date>::empty()).days as int).1 == m,
{
    let none = Seq::<Date>::empty();
    crate::date::lemma_civil(y, m, day);
    reveal_strlit("none");
    reveal_strlit("before");
    reveal_strlit("after");
    reveal_strlit("modified_after");
    assert("modified_after"@.len() != "none"@.len());
    assert("modified_after"@.len() != "before"@.len());
    assert("modified_after"@.len() != "after"@.len());
    if weekday_of(d.days as int) >= 5 {
        lemma_off_a_weekend(d);
        let w = weekday_of(d.days as int);
        let ahead = walk(d, true, none, 10);
        if civil(ahead.days as int).1 != m {
            if day + 7 - w <= crate::date::month_len(y, m) {
                lemma_same_month(d.days as int, y, m, day, 7 - w);
            }
            lemma_same_month(d.days as int, y, m, day, -(w - 4));
        }
    } else {
        assert(!blocked(d.days as int, none));
    }
}

} // verus!
