//! What is said to the person editing a recurring payment.

use crate::date::{civil, read_day, year_string, year_text, Date};
use crate::digits::{int_digits, int_text};
use crate::text::{join, joined, to_upper, trim, trimmed, upper, views};
use vstd::prelude::*;

verus! {

broadcast use vstd::string::group_string_axioms;

/// Why a request is refused: a code for the caller, a message for the person.
#[derive(Debug, Clone)]
pub struct EditError {
    pub code: &'static str,
    pub message: String,
}

/// Whether a refusal has this code and this message.
pub open spec fn says(e: EditError, code: Seq<char>, message: Seq<char>) -> bool {
    e.code@ == code && e.message@ == message
}

/// A refusal.
pub fn fail(code: &'static str, message: String) -> (r: EditError)
    ensures
        says(r, code@, message@),
{
    EditError { code, message }
}

/// A refusal of what was handed over.
pub fn bad(message: &str) -> (r: EditError)
    ensures
        says(r, "bad_params"@, message@),
{
    EditError { code: "bad_params", message: message.to_string() }
}

/// A day as it is said to a person: day, month and year, with no leading zeros.
pub open spec fn said(n: int) -> Seq<char> {
    let (y, m, d) = civil(n);
    int_digits(d) + "/"@ + int_digits(m) + "/"@ + year_text(y)
}

/// A day as it is said to a person.
pub fn dmy(d: Date) -> (r: String)
    ensures
        r@ == said(d.days as int),
{
    let (y, m, day) = d.ymd();
    let mut out = int_text(day as i128);
    out.append("/");
    let month = int_text(m as i128);
    out.append(month.as_str());
    out.append("/");
    let year = year_string(y);
    out.append(year.as_str());
    out
}

/// A day given as text, as a person says it; the text itself where it is no day.
pub open spec fn said_text(t: Seq<char>) -> Seq<char> {
    match read_day(t, "%Y-%m-%d"@) {
        Some(n) => said(n),
        None => t,
    }
}

/// A day given as text, as a person says it; the text itself where it is no day.
pub fn dmy_iso(t: &str) -> (r: String)
    ensures
        r@ == said_text(t@),
{
    match Date::parse(t) {
        Some(d) => dmy(d),
        None => t.to_string(),
    }
}

/// Things as they are listed in a sentence: commas between them, and "and" before the last.
pub open spec fn in_words(items: Seq<Seq<char>>) -> Seq<char> {
    if items.len() == 0 {
        Seq::empty()
    } else if items.len() == 1 {
        items[0]
    } else {
        joined(items.drop_last(), ", "@) + " and "@ + items.last()
    }
}

/// Things as they are listed in a sentence.
pub fn list_words(items: &Vec<String>) -> (r: String)
    ensures
        r@ == in_words(views(items@)),
{
    let n: usize = items.len();
    if n == 0 {
        return String::new();
    }
    if n == 1 {
        assert(views(items@)[0] == items@[0]@);
        return items[0].clone();
    }
    let mut head: Vec<String> = Vec::new();
    let mut i: usize = 0;
    assert(views(head@) =~= views(items@).take(0));
    while i < n - 1
        invariant
            n == items@.len(),
            n >= 2,
            i <= n - 1,
            views(head@) =~= views(items@).take(i as int),
        decreases n - 1 - i,
    {
        let c = items[i].clone();
        assert(views(head@.push(c)) =~= views(head@).push(c@));
        assert(views(items@).take(i + 1) =~= views(items@).take(i as int).push(items@[i as int]@));
        head.push(c);
        i = i + 1;
    }
    assert(views(items@).take(n - 1) =~= views(items@).drop_last());
    let mut out = join(&head, ", ");
    out.append(" and ");
    out.append(items[n - 1].as_str());
    out
}

/// A rule as rules are compared: without white space around it, in upper case.
pub open spec fn normal_rule(r: Seq<char>) -> Seq<char> {
    upper(trimmed(r))
}

/// A rule as rules are compared.
pub fn norm_rule(r: &str) -> (s: String)
    ensures
        s@ == normal_rule(r@),
{
    let t = trim(r);
    to_upper(t.as_str())
}

} // verus!
