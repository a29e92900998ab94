//! CSV import: stage, review, commit, revert.
//!
//! Nothing is written to the ledger by importing. A file lands as a staged batch that can be looked
//! at, corrected and thrown away. Only `commit` creates transactions, and a revert undoes exactly
//! what a batch created.
//!
//! Deduplication is by a fingerprint that is deliberately human-readable -- `date|amount|payee` --
//! rather than a hash. When two rows collide one can see why.
//!
//! A bank CSV tells one side of each transaction. The other side is a guess, so every row lands
//! against a single bucket unless a rule says otherwise, which keeps the book balanced and honest:
//! the bucket's balance is a visible to-do list.

use crate::book::{account_of, balanced, find, known, leg_views, net_in, Account, Leg, LegView};
use crate::date::{iso, read_day, Date};
use crate::digits::{int_digits, int_text, is_digit, lemma_nat_digits, nat_digits};
use crate::money::{parse_minor, reading, Minor, Reading};
use crate::text::{
    alphanumeric, ascii_lower, chars_of, contains, has_part, is_alphanumeric, is_white, is_whitespace,
    join, joined, lower_ascii, opt_view, starts_with, str_eq, text_from, text_less, text_lt, text_of, to_upper, trim,
    trimmed, upper, views,
};
use vstd::math::abs;
use vstd::prelude::*;

verus! {

broadcast use vstd::string::group_string_axioms;

/// Why an import was refused.
#[derive(Debug)]
pub enum ImportError {
    Csv(String),
    NoProfile(i64),
    NoBatch(i64),
    BadMapping(String),
    AlreadyCommitted(i64),
    NoAccount(i64),
    /// A row whose far account holds another currency: posted as it stands it would balance in
    /// neither.
    OtherCurrency {
        row_id: i64,
        far: i64,
    },
}

impl ImportError {
    /// The message, as a sequence of characters.
    pub open spec fn text(self) -> Seq<char> {
        match self {
            ImportError::Csv(m) => "csv: "@ + m@,
            ImportError::NoProfile(id) => "no such import profile: "@ + int_digits(id as int),
            ImportError::NoBatch(id) => "no such import batch: "@ + int_digits(id as int),
            ImportError::BadMapping(m) => "bad mapping: "@ + m@,
            ImportError::AlreadyCommitted(id) => "batch "@ + int_digits(id as int)
                + " is already committed"@,
            ImportError::NoAccount(id) => "no such account: "@ + int_digits(id as int),
            ImportError::OtherCurrency { row_id, far } => "row "@ + int_digits(row_id as int)
                + " is not in the currency of its far account "@ + int_digits(far as int)
                + ": record it as a conversion"@,
        }
    }

    /// The message a person reads.
    pub fn to_text(&self) -> (r: String)
        ensures
            r@ == self.text(),
    {
        match self {
            ImportError::Csv(m) => {
                let mut out = "csv: ".to_string();
                out.append(m.as_str());
                out
            },
            ImportError::NoProfile(id) => {
                let mut out = "no such import profile: ".to_string();
                let n = int_text(*id as i128);
                out.append(n.as_str());
                out
            },
            ImportError::NoBatch(id) => {
                let mut out = "no such import batch: ".to_string();
                let n = int_text(*id as i128);
                out.append(n.as_str());
                out
            },
            ImportError::BadMapping(m) => {
                let mut out = "bad mapping: ".to_string();
                out.append(m.as_str());
                out
            },
            ImportError::AlreadyCommitted(id) => {
                let mut out = "batch ".to_string();
                let n = int_text(*id as i128);
                out.append(n.as_str());
                out.append(" is already committed");
                out
            },
            ImportError::NoAccount(id) => {
                let mut out = "no such account: ".to_string();
                let n = int_text(*id as i128);
                out.append(n.as_str());
                out
            },
            ImportError::OtherCurrency { row_id, far } => {
                let mut out = "row ".to_string();
                let n = int_text(*row_id as i128);
                out.append(n.as_str());
                out.append(" is not in the currency of its far account ");
                let f = int_text(*far as i128);
                out.append(f.as_str());
                out.append(": record it as a conversion");
                out
            },
        }
    }
}

/// Which CSV column feeds which field.
#[derive(Debug, Clone)]
pub struct Mapping {
    pub date: String,
    /// A single signed amount column...
    pub amount: Option<String>,
    /// ...or separate money-in and money-out columns, which several UK banks use instead.
    pub money_in: Option<String>,
    pub money_out: Option<String>,
    pub description: Option<String>,
    pub payee: Option<String>,
    pub bank_category: Option<String>,
    pub txn_type: Option<String>,
    pub currency: Option<String>,
    pub balance: Option<String>,
    pub external_id: Option<String>,
}

impl Default for Mapping {
    /// A mapping of no columns.
    fn default() -> (r: Mapping)
        ensures
            r.date@ == Seq::<char>::empty() && r.amount is None && r.money_in is None && r.money_out
                is None && r.description is None && r.payee is None && r.bank_category is None
                && r.txn_type is None && r.currency is None && r.balance is None && r.external_id
                is None,
    {
        Mapping {
            date: String::new(),
            amount: None,
            money_in: None,
            money_out: None,
            description: None,
            payee: None,
            bank_category: None,
            txn_type: None,
            currency: None,
            balance: None,
            external_id: None,
        }
    }
}

/// The words of a text: its runs of characters that are not white space.
pub open spec fn words(s: Seq<char>) -> Seq<Seq<char>> {
    let (done, open) = word_scan(s);
    if open.len() > 0 {
        done.push(open)
    } else {
        done
    }
}

/// The words of a text that are complete, and the one its end leaves open.
pub open spec fn word_scan(s: Seq<char>) -> (Seq<Seq<char>>, Seq<char>)
    decreases s.len(),
{
    if s.len() == 0 {
        (Seq::empty(), Seq::empty())
    } else {
        let (done, open) = word_scan(s.drop_last());
        if is_white(s.last()) {
            (
                if open.len() > 0 {
                    done.push(open)
                } else {
                    done
                },
                Seq::empty(),
            )
        } else {
            (done, open.push(s.last()))
        }
    }
}

fn split_words(s: &str) -> (r: Vec<String>)
    ensures
        views(r@) == words(s@),
{
    let v = chars_of(s);
    let mut done: Vec<String> = Vec::new();
    let mut open: Vec<char> = Vec::new();
    let mut i: usize = 0;
    assert(v@.take(0) =~= Seq::<char>::empty());
    assert(views(done@) =~= Seq::<Seq<char>>::empty());
    while i < v.len()
        invariant
            i <= v@.len(),
            word_scan(v@.take(i as int)) == (views(done@), open@),
        decreases v@.len() - i,
    {
        assert(v@.take(i + 1).drop_last() =~= v@.take(i as int));
        let c = v[i];
        if is_whitespace(c) {
            if open.len() > 0 {
                let w = text_from(&open);
                assert(views(done@.push(w)) =~= views(done@).push(w@));
                done.push(w);
            }
            open = Vec::new();
        } else {
            open.push(c);
        }
        i = i + 1;
    }
    assert(v@.take(v@.len() as int) =~= v@);
    if open.len() > 0 {
        let w = text_from(&open);
        assert(views(done@.push(w)) =~= views(done@).push(w@));
        done.push(w);
    }
    done
}

/// The letters, numbers and spaces of a text.
pub open spec fn plain_chars(s: Seq<char>) -> Seq<char>
    decreases s.len(),
{
    if s.len() == 0 {
        s
    } else if alphanumeric(s.last()) || s.last() == ' ' {
        plain_chars(s.drop_last()).push(s.last())
    } else {
        plain_chars(s.drop_last())
    }
}

/// How many characters of a description count for its fingerprint.
pub const NORMAL_LEN: usize = 48;

/// The first `n` characters of a text, or all of it.
pub open spec fn head(s: Seq<char>, n: int) -> Seq<char> {
    if s.len() <= n {
        s
    } else {
        s.take(n)
    }
}

/// A character in upper case, ASCII letters only.
pub open spec fn ascii_upper(c: char) -> char {
    if 97 <= c as u32 <= 122 {
        ((c as u32 - 32) as u8) as char
    } else {
        c
    }
}

/// A text with its ASCII letters in upper case.
pub open spec fn capitals(s: Seq<char>) -> Seq<char> {
    s.map_values(|c: char| ascii_upper(c))
}

fn put_in_capitals(s: &str) -> (r: String)
    ensures
        r@ == capitals(s@),
{
    let v = chars_of(s);
    let mut out = String::new();
    let mut i: usize = 0;
    assert(out@ =~= capitals(v@.take(0)));
    while i < v.len()
        invariant
            i <= v@.len(),
            out@ == capitals(v@.take(i as int)),
        decreases v@.len() - i,
    {
        let c = v[i];
        let n: u32 = c as u32;
        let up = if 97 <= n && n <= 122 {
            ((n - 32) as u8) as char
        } else {
            c
        };
        assert(capitals(v@.take(i + 1)) =~= capitals(v@.take(i as int)).push(up));
        out.push(up);
        i = i + 1;
    }
    assert(v@.take(v@.len() as int) =~= v@);
    out
}

/// The letters, numbers and spaces of a text in upper case, trimmed, and no more than the first 48 of
/// them.
pub open spec fn normal_of(up: Seq<char>) -> Seq<char> {
    head(trimmed(plain_chars(up)), NORMAL_LEN as int)
}

/// A description normalised for fingerprinting: its words in upper case with single spaces between,
/// letters, numbers and spaces alone, and no more than the first 48 characters.
pub open spec fn normal(s: Seq<char>) -> Seq<char> {
    normal_of(upper(capitals(joined(words(s), " "@))))
}

/// Normalise a description for fingerprinting: collapse white space, upper case, and drop what is
/// neither letter nor number. The ASCII letters are put in capitals here, so that it can be said of
/// them that their case makes no difference.
pub fn normalise(s: &str) -> (r: String)
    ensures
        r@ == normal(s@),
{
    let list = split_words(s);
    let one = join(&list, " ");
    let capital = put_in_capitals(one.as_str());
    let up = to_upper(capital.as_str());
    normalise_upper(up.as_str())
}

/// Normalise a description whose words are in upper case already, with single spaces between.
pub fn normalise_upper(up: &str) -> (r: String)
    ensures
        r@ == normal_of(up@),
{
    let v = chars_of(up);
    let mut plain = String::new();
    let mut i: usize = 0;
    assert(v@.take(0) =~= Seq::<char>::empty());
    while i < v.len()
        invariant
            i <= v@.len(),
            plain@ == plain_chars(v@.take(i as int)),
        decreases v@.len() - i,
    {
        assert(v@.take(i + 1).drop_last() =~= v@.take(i as int));
        let c = v[i];
        if is_alphanumeric(c) || c == ' ' {
            plain.push(c);
        }
        i = i + 1;
    }
    assert(v@.take(v@.len() as int) =~= v@);
    let t = trim(plain.as_str());
    let chars = chars_of(t.as_str());
    if chars.len() <= NORMAL_LEN {
        t
    } else {
        let r = text_of(&chars, 0, NORMAL_LEN);
        assert(r@ =~= chars@.take(NORMAL_LEN as int));
        r
    }
}

/// A stable, inspectable row identity.
pub open spec fn print_of(on: Seq<char>, amount: int, description: Seq<char>) -> Seq<char> {
    on + "|"@ + int_digits(amount) + "|"@ + normal(description)
}

/// A stable, inspectable row identity. Not a hash, so that a collision can be read.
pub fn fingerprint(occurred_on: &str, amount_minor: Minor, description: &str) -> (r: String)
    ensures
        r@ == print_of(occurred_on@, amount_minor as int, description@),
{
    let mut out = occurred_on.to_string();
    out.append("|");
    let n = int_text(amount_minor as i128);
    out.append(n.as_str());
    out.append("|");
    let d = normalise(description);
    out.append(d.as_str());
    out
}

/// Whether two descriptions have the same words in the same order, but for the case of ASCII letters.
pub open spec fn same_words(a: Seq<char>, b: Seq<char>) -> bool {
    words(a).map_values(|w: Seq<char>| capitals(w)) == words(b).map_values(
        |w: Seq<char>| capitals(w),
    )
}

proof fn lemma_capitals_joined(parts: Seq<Seq<char>>)
    ensures
        capitals(joined(parts, " "@)) == joined(
            parts.map_values(|w: Seq<char>| capitals(w)),
            capitals(" "@),
        ),
    decreases parts.len(),
{
    let all = parts.map_values(|w: Seq<char>| capitals(w));
    if parts.len() == 0 {
        assert(capitals(joined(parts, " "@)) =~= Seq::<char>::empty());
    } else if parts.len() > 1 {
        lemma_capitals_joined(parts.drop_last());
        assert(all.drop_last() =~= parts.drop_last().map_values(|w: Seq<char>| capitals(w)));
        assert(all.last() == capitals(parts.last()));
        assert(capitals(joined(parts, " "@)) =~= capitals(joined(parts.drop_last(), " "@))
            + capitals(" "@) + capitals(parts.last()));
    }
}

/// Two descriptions with the same words have the same fingerprint, however they are spaced and
/// whatever the case of their ASCII letters.
pub proof fn law_spacing_and_case_do_not_change_a_fingerprint(
    on: Seq<char>,
    amount: int,
    a: Seq<char>,
    b: Seq<char>,
)
    requires
        same_words(a, b),
    ensures
        print_of(on, amount, a) == print_of(on, amount, b),
{
    lemma_capitals_joined(words(a));
    lemma_capitals_joined(words(b));
}

/// A different amount always gives a different fingerprint, whatever the descriptions.
pub proof fn law_a_different_amount_gives_a_different_fingerprint(
    on: Seq<char>,
    amount: int,
    other: int,
    a: Seq<char>,
    b: Seq<char>,
)
    requires
        amount != other,
    ensures
        print_of(on, amount, a) != print_of(on, other, b),
{
    reveal_strlit("|");
    let p = print_of(on, amount, a);
    let q = print_of(on, other, b);
    let x = int_digits(amount);
    let y = int_digits(other);
    lemma_no_bar(amount);
    lemma_no_bar(other);
    if p == q {
        let k = on.len() as int + 1;
        let rest = p.skip(k);
        assert(rest =~= x + "|"@ + normal(a));
        assert(rest =~= y + "|"@ + normal(b));
        assert(rest[x.len() as int] == '|');
        assert(rest[y.len() as int] == '|');
        assert(x.len() == y.len()) by {
            if x.len() < y.len() {
                assert(rest[x.len() as int] == y[x.len() as int]);
            } else if y.len() < x.len() {
                assert(rest[y.len() as int] == x[y.len() as int]);
            }
        }
        assert(rest.take(x.len() as int) =~= x);
        assert(rest.take(x.len() as int) =~= y);
        lemma_written_once(amount, other);
    }
}

/// No bar stands in a number as it is written.
proof fn lemma_no_bar(n: int)
    ensures
        forall|i: int| 0 <= i < int_digits(n).len() ==> #[trigger] int_digits(n)[i] != '|',
{
    let s = int_digits(n);
    let d = nat_digits(abs(n));
    lemma_nat_digits(abs(n));
    assert forall|i: int| 0 <= i < s.len() implies #[trigger] s[i] != '|' by {
        if n >= 0 {
            assert(is_digit(d[i]));
        } else if i > 0 {
            assert(s[i] == d[i - 1]);
            assert(is_digit(d[i - 1]));
        }
    }
}

/// Numbers that are written the same are the same.
proof fn lemma_written_once(a: int, b: int)
    requires
        int_digits(a) == int_digits(b),
    ensures
        a == b,
{
    let x = nat_digits(abs(a));
    let y = nat_digits(abs(b));
    lemma_nat_digits(abs(a));
    lemma_nat_digits(abs(b));
    assert(is_digit(x[0]));
    assert(is_digit(y[0]));
    if a < 0 {
        assert(int_digits(a)[0] == '-');
        assert(int_digits(a).skip(1) =~= x);
    }
    if b < 0 {
        assert(int_digits(b)[0] == '-');
        assert(int_digits(b).skip(1) =~= y);
    }
}

/// A fingerprint begins with the date and the amount as they are written.
pub proof fn law_a_fingerprint_can_be_read(on: Seq<char>, amount: int, description: Seq<char>)
    ensures
        (on + "|"@ + int_digits(amount) + "|"@).is_prefix_of(print_of(on, amount, description)),
        normal(description).len() <= NORMAL_LEN,
{
    let h = on + "|"@ + int_digits(amount) + "|"@;
    assert(print_of(on, amount, description).subrange(0, h.len() as int) =~= h);
}

/// The day a text is in a profile's format: that format, else ISO, else day/month/year.
pub open spec fn profile_day(text: Seq<char>, format: Seq<char>) -> Option<int> {
    let t = trimmed(text);
    if read_day(t, format) is Some {
        read_day(t, format)
    } else if read_day(t, "%Y-%m-%d"@) is Some {
        read_day(t, "%Y-%m-%d"@)
    } else {
        read_day(t, "%d/%m/%Y"@)
    }
}

/// Parse a date in the profile's format, into ISO form. Handles the three shapes UK exports use:
/// ISO is worth trying unconditionally, since several exports claim one format and emit ISO.
pub fn parse_date(text: &str, format: &str) -> (r: Option<String>)
    ensures
        match profile_day(text@, format@) {
            Some(n) => r matches Some(s) && s@ == iso(n),
            None => r is None,
        },
{
    let t = trim(text);
    if let Some(d) = Date::parse_from_str(t.as_str(), format) {
        return Some(d.to_text());
    }
    if let Some(d) = Date::parse(t.as_str()) {
        return Some(d.to_text());
    }
    if let Some(d) = Date::parse_from_str(t.as_str(), "%d/%m/%Y") {
        return Some(d.to_text());
    }
    None
}

/// Whether two texts are the same but for the case of ASCII letters.
pub open spec fn same_ignoring_case(a: Seq<char>, b: Seq<char>) -> bool {
    a.len() == b.len() && forall|i: int|
        0 <= i < a.len() ==> ascii_lower(#[trigger] a[i]) == ascii_lower(b[i])
}

fn eq_ignore_case(a: &str, b: &str) -> (r: bool)
    ensures
        r == same_ignoring_case(a@, b@),
{
    let x = chars_of(a);
    let y = chars_of(b);
    if x.len() != y.len() {
        return false;
    }
    let mut i: usize = 0;
    while i < x.len()
        invariant
            x@ == a@,
            y@ == b@,
            x@.len() == y@.len(),
            i <= x@.len(),
            forall|j: int| 0 <= j < i ==> ascii_lower(#[trigger] x@[j]) == ascii_lower(y@[j]),
        decreases x@.len() - i,
    {
        if lower_ascii(x[i]) != lower_ascii(y[i]) {
            assert(ascii_lower(a@[i as int]) != ascii_lower(b@[i as int]));
            return false;
        }
        i = i + 1;
    }
    true
}

/// Whether the header at a place is the named column's.
pub open spec fn is_header(headers: Seq<Seq<char>>, name: Seq<char>) -> spec_fn(int) -> bool {
    |i: int| same_ignoring_case(trimmed(headers[i]), trimmed(name))
}

/// What a record says in a named column: the first of that name, in any case.
pub open spec fn column(
    record: Seq<Seq<char>>,
    headers: Seq<Seq<char>>,
    name: Seq<char>,
) -> Option<Seq<char>> {
    let i = crate::lists::first(headers.len() as int, is_header(headers, name));
    if i < headers.len() && i < record.len() {
        Some(record[i])
    } else {
        None
    }
}

fn col(record: &Vec<String>, headers: &Vec<String>, name: &str) -> (r: Option<String>)
    ensures
        opt_view(r) == column(views(record@), views(headers@), name@),
{
    let ghost h = views(headers@);
    let wanted = trim(name);
    let mut i: usize = 0;
    while i < headers.len()
        invariant
            i <= headers@.len(),
            h == views(headers@),
            wanted@ == trimmed(name@),
            forall|j: int| 0 <= j < i ==> !#[trigger] is_header(h, name@)(j),
        decreases headers@.len() - i,
    {
        let t = trim(headers[i].as_str());
        if eq_ignore_case(t.as_str(), wanted.as_str()) {
            proof {
                assert(h[i as int] == headers@[i as int]@);
                crate::lists::lemma_first(h.len() as int, is_header(h, name@), i as int);
            }
            return if i < record.len() {
                Some(record[i].clone())
            } else {
                None
            };
        }
        assert(h[i as int] == headers@[i as int]@);
        i = i + 1;
    }
    proof {
        crate::lists::lemma_first(h.len() as int, is_header(h, name@), i as int);
    }
    None
}

/// What a record says in a column that the mapping may not have.
pub open spec fn mapped(
    record: Seq<Seq<char>>,
    headers: Seq<Seq<char>>,
    name: Option<String>,
) -> Option<Seq<char>> {
    match name {
        Some(n) => column(record, headers, n@),
        None => None,
    }
}

fn mapped_col(record: &Vec<String>, headers: &Vec<String>, name: &Option<String>) -> (r: Option<
    String,
>)
    ensures
        opt_view(r) == mapped(views(record@), views(headers@), *name),
{
    match name {
        Some(n) => col(record, headers, n.as_str()),
        None => None,
    }
}

/// The amount a field is, if it is one: a blank field is none.
pub open spec fn field_amount(field: Option<Seq<char>>, minor_digits: int) -> Option<int> {
    match field {
        Some(t) => if trimmed(t).len() == 0 {
            None
        } else {
            match reading(t, minor_digits) {
                Reading::Minor(v) => Some(v),
                _ => None,
            }
        },
        None => None,
    }
}

fn read_amount(field: &Option<String>, minor_digits: u32) -> (r: Option<Minor>)
    ensures
        match r {
            Some(v) => field_amount(opt_view(*field), minor_digits as int) == Some(v as int),
            None => field_amount(opt_view(*field), minor_digits as int) is None,
        },
{
    match field {
        Some(t) => {
            let blank = trim(t.as_str());
            if blank.as_str().unicode_len() == 0 {
                return None;
            }
            match parse_minor(t.as_str(), minor_digits) {
                Ok(v) => Some(v),
                Err(_) => None,
            }
        },
        None => None,
    }
}

/// What an import profile says.
#[derive(Debug, Clone)]
pub struct Profile {
    pub mapping: Mapping,
    pub date_format: String,
    pub account_id: Option<i64>,
    pub default_currency: String,
    pub delimiter: String,
    /// The places of the default currency.
    pub minor_digits: u32,
}

/// The amount of a record: one signed column, or what came in, else what went out as a negative.
pub open spec fn record_amount(
    record: Seq<Seq<char>>,
    headers: Seq<Seq<char>>,
    p: Profile,
) -> Option<int> {
    let md = p.minor_digits as int;
    match p.mapping.amount {
        Some(a) => field_amount(column(record, headers, a@), md),
        None => {
            let inn = field_amount(mapped(record, headers, p.mapping.money_in), md);
            let out = field_amount(mapped(record, headers, p.mapping.money_out), md);
            if inn is Some && inn->0 != 0 {
                inn
            } else if out is Some && out->0 != 0 {
                Some(
                    if out->0 > 0 {
                        -(out->0)
                    } else {
                        out->0
                    },
                )
            } else {
                None
            }
        },
    }
}

fn amount_in(record: &Vec<String>, headers: &Vec<String>, p: &Profile) -> (r: Option<Minor>)
    ensures
        match r {
            Some(v) => record_amount(views(record@), views(headers@), *p) == Some(v as int),
            None => record_amount(views(record@), views(headers@), *p) is None,
        },
{
    if let Some(a) = &p.mapping.amount {
        let f = col(record, headers, a.as_str());
        return read_amount(&f, p.minor_digits);
    }
    let inn = mapped_col(record, headers, &p.mapping.money_in);
    if let Some(v) = read_amount(&inn, p.minor_digits) {
        if v != 0 {
            return Some(v);
        }
    }
    let out = mapped_col(record, headers, &p.mapping.money_out);
    if let Some(v) = read_amount(&out, p.minor_digits) {
        if v > 0 {
            return Some(-v);
        }
        if v != 0 {
            return Some(v);
        }
    }
    None
}

/// The header row of a CSV text with a delimiter, by the `csv` crate; its reason where it has none.
pub uninterp spec fn csv_headers(text: Seq<char>, delimiter: u8) -> Result<Seq<Seq<char>>, Seq<char>>;

/// The records of a CSV text with a delimiter, the header row aside, by the `csv` crate; its reason
/// for each it cannot read.
pub uninterp spec fn csv_records(text: Seq<char>, delimiter: u8) -> Seq<
    Result<Seq<Seq<char>>, Seq<char>>,
>;

/// What a record that was read, or not, holds.
pub open spec fn record_view(r: Result<Vec<String>, String>) -> Result<Seq<Seq<char>>, Seq<char>> {
    match r {
        Ok(v) => Ok(views(v@)),
        Err(e) => Err(e@),
    }
}

/// What a list of records holds.
pub open spec fn record_views(v: Seq<Result<Vec<String>, String>>) -> Seq<
    Result<Seq<Seq<char>>, Seq<char>>,
> {
    v.map_values(|r: Result<Vec<String>, String>| record_view(r))
}

/// `csv::Reader::headers` of a reader over the text, its records of any length: a function of the
/// text and the delimiter alone, named [`csv_headers`].
#[verifier::external_body]
pub(crate) fn read_headers(text: &str, delimiter: u8) -> (r: Result<Vec<String>, String>)
    ensures
        csv_headers(text@, delimiter) == record_view(r),
{
    let mut reader = csv::ReaderBuilder::new().delimiter(delimiter).flexible(true).from_reader(
        text.as_bytes(),
    );
    match reader.headers() {
        Ok(h) => Ok(h.iter().map(|s| s.to_string()).collect()),
        Err(e) => Err(e.to_string()),
    }
}

/// `csv::Reader::records` of a reader over the text, its records of any length: a function of the
/// text and the delimiter alone, named [`csv_records`].
#[verifier::external_body]
pub(crate) fn read_records(text: &str, delimiter: u8) -> (r: Vec<Result<Vec<String>, String>>)
    ensures
        csv_records(text@, delimiter) == record_views(r@),
{
    let mut reader = csv::ReaderBuilder::new().delimiter(delimiter).flexible(true).from_reader(
        text.as_bytes(),
    );
    let convert = |r: Result<csv::StringRecord, csv::Error>| match r {
        Ok(rec) => Ok(rec.iter().map(|s| s.to_string()).collect()),
        Err(e) => Err(e.to_string()),
    };
    reader.records().map(convert).collect()
}

/// A list of texts as JSON, by the `serde_json` crate; its reason where it cannot write it.
pub uninterp spec fn json_list(items: Seq<Seq<char>>) -> Result<Seq<char>, Seq<char>>;

/// `serde_json::to_string` of a list of texts: a function of the list alone, named [`json_list`].
#[verifier::external_body]
fn list_as_json(items: &Vec<String>) -> (r: Result<String, String>)
    ensures
        json_list(views(items@)) == (match r {
            Ok(s) => Ok::<Seq<char>, Seq<char>>(s@),
            Err(e) => Err::<Seq<char>, Seq<char>>(e@),
        }),
{
    serde_json::to_string(items).map_err(|e| e.to_string())
}

/// A record as it is kept beside its row: its fields as JSON, or an empty list where they cannot be
/// written.
pub open spec fn raw_text(record: Seq<Seq<char>>) -> Seq<char> {
    match json_list(record) {
        Ok(s) => s,
        Err(_) => "[]"@,
    }
}

/// A row of a staged batch.
#[derive(Debug, Clone)]
pub struct StagedRow {
    /// The record's number, from 1.
    pub line_no: usize,
    pub raw_json: String,
    pub account_id: Option<i64>,
    pub occurred_on: Option<String>,
    pub description: String,
    pub payee: Option<String>,
    pub bank_category: Option<String>,
    pub txn_type: Option<String>,
    pub amount_minor: Option<Minor>,
    pub currency: Option<String>,
    pub external_id: Option<String>,
    pub fingerprint: Option<String>,
    /// new, duplicate or error.
    pub state: String,
    pub error: Option<String>,
    pub dup_of_txn_id: Option<i64>,
    pub accepted: bool,
}

/// The content of a staged row.
pub struct StagedView {
    pub line_no: int,
    pub raw_json: Seq<char>,
    pub account_id: Option<i64>,
    pub occurred_on: Option<Seq<char>>,
    pub description: Seq<char>,
    pub payee: Option<Seq<char>>,
    pub bank_category: Option<Seq<char>>,
    pub txn_type: Option<Seq<char>>,
    pub amount: Option<int>,
    pub currency: Option<Seq<char>>,
    pub external_id: Option<Seq<char>>,
    pub fingerprint: Option<Seq<char>>,
    pub state: Seq<char>,
    pub error: Option<Seq<char>>,
    pub dup_of_txn_id: Option<i64>,
    pub accepted: bool,
}

impl View for StagedRow {
    type V = StagedView;

    open spec fn view(&self) -> StagedView {
        StagedView {
            line_no: self.line_no as int,
            raw_json: self.raw_json@,
            account_id: self.account_id,
            occurred_on: opt_view(self.occurred_on),
            description: self.description@,
            payee: opt_view(self.payee),
            bank_category: opt_view(self.bank_category),
            txn_type: opt_view(self.txn_type),
            amount: match self.amount_minor {
                Some(v) => Some(v as int),
                None => None,
            },
            currency: opt_view(self.currency),
            external_id: opt_view(self.external_id),
            fingerprint: opt_view(self.fingerprint),
            state: self.state@,
            error: opt_view(self.error),
            dup_of_txn_id: self.dup_of_txn_id,
            accepted: self.accepted,
        }
    }
}

/// A fingerprint already imported into the profile's account, and the transaction it became.
#[derive(Debug, Clone)]
pub struct ImportKey {
    pub fingerprint: String,
    pub txn_id: i64,
}

/// Whether the key at a place has this fingerprint.
pub open spec fn is_key(keys: Seq<ImportKey>, print: Seq<char>) -> spec_fn(int) -> bool {
    |i: int| keys[i].fingerprint@ == print
}

/// The transaction a fingerprint was already imported as, if it was.
pub open spec fn imported_as(keys: Seq<ImportKey>, print: Seq<char>) -> Option<i64> {
    let i = crate::lists::first(keys.len() as int, is_key(keys, print));
    if i < keys.len() {
        Some(keys[i].txn_id)
    } else {
        None
    }
}

fn find_key(keys: &Vec<ImportKey>, print: &str) -> (r: Option<i64>)
    ensures
        r == imported_as(keys@, print@),
{
    let mut i: usize = 0;
    while i < keys.len()
        invariant
            i <= keys@.len(),
            forall|j: int| 0 <= j < i ==> !#[trigger] is_key(keys@, print@)(j),
        decreases keys@.len() - i,
    {
        if str_eq(keys[i].fingerprint.as_str(), print) {
            proof {
                crate::lists::lemma_first(keys@.len() as int, is_key(keys@, print@), i as int);
            }
            return Some(keys[i].txn_id);
        }
        i = i + 1;
    }
    proof {
        crate::lists::lemma_first(keys@.len() as int, is_key(keys@, print@), i as int);
    }
    None
}

/// What a record that was read is staged as.
///
/// A row needs a date and an amount; with both it is new, unless its fingerprint was already
/// imported into the same account, which makes it a duplicate. Deduplication is per account: the
/// same payment in two accounts' exports is two real rows.
pub open spec fn staged_record(
    record: Seq<Seq<char>>,
    headers: Seq<Seq<char>>,
    p: Profile,
    keys: Seq<ImportKey>,
    line_no: int,
) -> StagedView {
    let m = p.mapping;
    let on = match column(record, headers, m.date@) {
        Some(t) => match profile_day(t, p.date_format@) {
            Some(n) => Some(iso(n)),
            None => None,
        },
        None => None,
    };
    let amount = record_amount(record, headers, p);
    let description = match mapped(record, headers, m.description) {
        Some(d) => trimmed(d),
        None => trimmed(""@),
    };
    let print = match (on, amount) {
        (Some(d), Some(a)) => Some(print_of(d, a, description)),
        _ => None,
    };
    let dup = match (print, p.account_id) {
        (Some(f), Some(_)) => imported_as(keys, f),
        _ => None,
    };
    let complete = on is Some && amount is Some;
    StagedView {
        line_no,
        raw_json: raw_text(record),
        account_id: p.account_id,
        occurred_on: on,
        description,
        payee: mapped(record, headers, m.payee),
        bank_category: mapped(record, headers, m.bank_category),
        txn_type: mapped(record, headers, m.txn_type),
        amount,
        currency: match mapped(record, headers, m.currency) {
            Some(c) => Some(c),
            None => Some(p.default_currency@),
        },
        external_id: mapped(record, headers, m.external_id),
        fingerprint: print,
        state: if dup is Some {
            "duplicate"@
        } else if complete {
            "new"@
        } else {
            "error"@
        },
        error: if on is None {
            Some("unparseable date"@)
        } else if amount is None {
            Some("unparseable amount"@)
        } else {
            None
        },
        dup_of_txn_id: dup,
        accepted: dup is None && complete,
    }
}

/// What a record that could not be read is staged as.
pub open spec fn staged_unreadable(reason: Seq<char>, line_no: int) -> StagedView {
    StagedView {
        line_no,
        raw_json: "{}"@,
        account_id: None,
        occurred_on: None,
        description: Seq::empty(),
        payee: None,
        bank_category: None,
        txn_type: None,
        amount: None,
        currency: None,
        external_id: None,
        fingerprint: None,
        state: "error"@,
        error: Some(reason),
        dup_of_txn_id: None,
        accepted: false,
    }
}

/// What a record is staged as.
pub open spec fn staged_as(
    record: Result<Seq<Seq<char>>, Seq<char>>,
    headers: Seq<Seq<char>>,
    p: Profile,
    keys: Seq<ImportKey>,
    line_no: int,
) -> StagedView {
    match record {
        Ok(r) => staged_record(r, headers, p, keys, line_no),
        Err(e) => staged_unreadable(e, line_no),
    }
}

fn stage_record(
    record: &Vec<String>,
    headers: &Vec<String>,
    p: &Profile,
    keys: &Vec<ImportKey>,
    line_no: usize,
) -> (r: StagedRow)
    ensures
        r@ == staged_record(views(record@), views(headers@), *p, keys@, line_no as int),
{
    let m = &p.mapping;
    let occurred_on: Option<String> = match col(record, headers, m.date.as_str()) {
        Some(t) => parse_date(t.as_str(), p.date_format.as_str()),
        None => None,
    };
    let amount_minor: Option<Minor> = amount_in(record, headers, p);
    let description = match mapped_col(record, headers, &m.description) {
        Some(d) => trim(d.as_str()),
        None => trim(""),
    };
    let print: Option<String> = match (&occurred_on, amount_minor) {
        (Some(d), Some(a)) => Some(fingerprint(d.as_str(), a, description.as_str())),
        _ => None,
    };
    let dup: Option<i64> = match (&print, p.account_id) {
        (Some(f), Some(_)) => find_key(keys, f.as_str()),
        _ => None,
    };
    let complete = occurred_on.is_some() && amount_minor.is_some();
    let state = if dup.is_some() {
        "duplicate".to_string()
    } else if complete {
        "new".to_string()
    } else {
        "error".to_string()
    };
    let error = if occurred_on.is_none() {
        Some("unparseable date".to_string())
    } else if amount_minor.is_none() {
        Some("unparseable amount".to_string())
    } else {
        None
    };
    let currency = match mapped_col(record, headers, &m.currency) {
        Some(c) => c,
        None => p.default_currency.clone(),
    };
    StagedRow {
        line_no,
        raw_json: match list_as_json(record) {
            Ok(s) => s,
            Err(_) => "[]".to_string(),
        },
        account_id: p.account_id,
        occurred_on,
        description,
        payee: mapped_col(record, headers, &m.payee),
        bank_category: mapped_col(record, headers, &m.bank_category),
        txn_type: mapped_col(record, headers, &m.txn_type),
        amount_minor,
        currency: Some(currency),
        external_id: mapped_col(record, headers, &m.external_id),
        fingerprint: print,
        state,
        error,
        dup_of_txn_id: dup,
        accepted: dup.is_none() && complete,
    }
}

/// What staging a file came to.
#[derive(Debug, Clone)]
pub struct StageReport {
    pub batch_id: i64,
    pub rows: usize,
    pub new_rows: usize,
    pub duplicates: usize,
    pub errors: usize,
}

/// A staged batch, ready to be stored: its rows, and the first and last day among them.
#[derive(Debug, Clone)]
pub struct Batch {
    pub file_fingerprint: String,
    pub rows: Vec<StagedRow>,
    pub first_on: Option<String>,
    pub last_on: Option<String>,
    pub new_rows: usize,
    pub duplicates: usize,
    pub errors: usize,
}

/// The contents of staged rows.
pub open spec fn staged_views(rows: Seq<StagedRow>) -> Seq<StagedView> {
    rows.map_values(|r: StagedRow| r@)
}

/// What the records of a file are staged as.
pub open spec fn staged_all(
    records: Seq<Result<Seq<Seq<char>>, Seq<char>>>,
    headers: Seq<Seq<char>>,
    p: Profile,
    keys: Seq<ImportKey>,
) -> Seq<StagedView> {
    Seq::new(records.len(), |i: int| staged_as(records[i], headers, p, keys, i + 1))
}

/// How many rows are accepted to begin with.
pub open spec fn count_new(rows: Seq<StagedView>) -> int
    decreases rows.len(),
{
    if rows.len() == 0 {
        0
    } else {
        count_new(rows.drop_last()) + (if rows.last().accepted {
            1int
        } else {
            0
        })
    }
}

/// How many rows were imported before.
pub open spec fn count_duplicates(rows: Seq<StagedView>) -> int
    decreases rows.len(),
{
    if rows.len() == 0 {
        0
    } else {
        count_duplicates(rows.drop_last()) + (if rows.last().dup_of_txn_id is Some {
            1int
        } else {
            0
        })
    }
}

/// How many rows have something wrong with them.
pub open spec fn count_errors(rows: Seq<StagedView>) -> int
    decreases rows.len(),
{
    if rows.len() == 0 {
        0
    } else {
        count_errors(rows.drop_last()) + (if rows.last().error is Some {
            1int
        } else {
            0
        })
    }
}

/// The first day among rows.
pub open spec fn first_day(rows: Seq<StagedView>) -> Option<Seq<char>>
    decreases rows.len(),
{
    if rows.len() == 0 {
        None
    } else {
        let before = first_day(rows.drop_last());
        match rows.last().occurred_on {
            Some(d) => if before is None || text_lt(d, before->0) {
                Some(d)
            } else {
                before
            },
            None => before,
        }
    }
}

/// The last day among rows.
pub open spec fn last_day(rows: Seq<StagedView>) -> Option<Seq<char>>
    decreases rows.len(),
{
    if rows.len() == 0 {
        None
    } else {
        let before = last_day(rows.drop_last());
        match rows.last().occurred_on {
            Some(d) => if before is None || text_lt(before->0, d) {
                Some(d)
            } else {
                before
            },
            None => before,
        }
    }
}

/// Whether a batch is what staging rows comes to.
pub open spec fn is_batch(b: Batch, rows: Seq<StagedView>) -> bool {
    &&& staged_views(b.rows@) == rows
    &&& opt_view(b.first_on) == first_day(rows)
    &&& opt_view(b.last_on) == last_day(rows)
    &&& b.new_rows == count_new(rows)
    &&& b.duplicates == count_duplicates(rows)
    &&& b.errors == count_errors(rows)
}

/// Stage the records of a file through a profile.
pub fn stage_records(
    headers: &Vec<String>,
    records: &Vec<Result<Vec<String>, String>>,
    p: &Profile,
    keys: &Vec<ImportKey>,
) -> (b: Batch)
    ensures
        is_batch(b, staged_all(record_views(records@), views(headers@), *p, keys@)),
        b.file_fingerprint@ == Seq::<char>::empty(),
{
    let ghost all = staged_all(record_views(records@), views(headers@), *p, keys@);
    let mut b = Batch {
        file_fingerprint: String::new(),
        rows: Vec::new(),
        first_on: None,
        last_on: None,
        new_rows: 0,
        duplicates: 0,
        errors: 0,
    };
    let mut i: usize = 0;
    assert(staged_views(b.rows@) =~= all.take(0));
    while i < records.len()
        invariant
            i <= records@.len(),
            all == staged_all(record_views(records@), views(headers@), *p, keys@),
            all.len() == records@.len(),
            is_batch(b, all.take(i as int)),
            b.file_fingerprint@ == Seq::<char>::empty(),
            b.new_rows <= i,
            b.duplicates <= i,
            b.errors <= i,
        decreases records@.len() - i,
    {
        proof {
            assert(all.take(i + 1).drop_last() =~= all.take(i as int));
            assert(all.take(i + 1).last() == all[i as int]);
            assert(record_views(records@)[i as int] == record_view(records@[i as int]));
        }
        let row = match &records[i] {
            Ok(rec) => stage_record(rec, headers, p, keys, i + 1),
            Err(e) => StagedRow {
                line_no: i + 1,
                raw_json: "{}".to_string(),
                account_id: None,
                occurred_on: None,
                description: String::new(),
                payee: None,
                bank_category: None,
                txn_type: None,
                amount_minor: None,
                currency: None,
                external_id: None,
                fingerprint: None,
                state: "error".to_string(),
                error: Some(e.clone()),
                dup_of_txn_id: None,
                accepted: false,
            },
        };
        assert(row@ == all[i as int]);
        if row.accepted {
            b.new_rows = b.new_rows + 1;
        }
        if row.dup_of_txn_id.is_some() {
            b.duplicates = b.duplicates + 1;
        }
        if row.error.is_some() {
            b.errors = b.errors + 1;
        }
        if let Some(d) = &row.occurred_on {
            let earlier = match &b.first_on {
                Some(f) => text_less(d.as_str(), f.as_str()),
                None => true,
            };
            let later = match &b.last_on {
                Some(l) => text_less(l.as_str(), d.as_str()),
                None => true,
            };
            if earlier {
                b.first_on = Some(d.clone());
            }
            if later {
                b.last_on = Some(d.clone());
            }
        }
        let ghost before = b.rows@;
        b.rows.push(row);
        assert(staged_views(b.rows@) =~= staged_views(before).push(row@));
        assert(all.take(i + 1) =~= all.take(i as int).push(row@));
        i = i + 1;
    }
    assert(all.take(all.len() as int) =~= all);
    b
}

/// The byte that separates fields: the delimiter's first, or a comma where it is empty.
pub open spec fn delimiter_byte(delimiter: Seq<char>) -> u8 {
    let bytes = vstd::utf8::encode_utf8(delimiter);
    if bytes.len() > 0 {
        bytes[0]
    } else {
        44
    }
}

/// Read `csv_text` through a profile into a new staged batch. Writes nothing to the ledger.
///
/// `keys` are the fingerprints already imported into the profile's account.
pub fn stage(p: &Profile, source_name: &str, csv_text: &str, keys: &Vec<ImportKey>) -> (r: Result<
    Batch,
    ImportError,
>)
    requires
        vstd::utf8::encode_utf8(csv_text@).len() <= i64::MAX,
    ensures
        ({
            let d = delimiter_byte(p.delimiter@);
            match csv_headers(csv_text@, d) {
                Err(reason) => r matches Err(ImportError::Csv(m)) && m@ == reason,
                Ok(headers) => r matches Ok(b) && is_batch(
                    b,
                    staged_all(csv_records(csv_text@, d), headers, *p, keys@),
                ) && b.file_fingerprint@ == print_of(
                    "file"@,
                    vstd::utf8::encode_utf8(csv_text@).len() as int,
                    source_name@,
                ),
            }
        }),
{
    let bytes = p.delimiter.as_str().as_bytes();
    let d: u8 = if bytes.len() > 0 {
        bytes[0]
    } else {
        44
    };
    let headers = match read_headers(csv_text, d) {
        Ok(h) => h,
        Err(e) => {
            return Err(ImportError::Csv(e));
        },
    };
    let records = read_records(csv_text, d);
    let mut b = stage_records(&headers, &records, p, keys);
    let len: usize = csv_text.as_bytes().len();
    b.file_fingerprint = fingerprint("file", len as i64, source_name);
    Ok(b)
}

/// A row of a stored batch.
#[derive(Debug, Clone)]
pub struct BatchRow {
    pub id: i64,
    pub account_id: Option<i64>,
    pub occurred_on: Option<String>,
    pub description: String,
    pub payee: Option<String>,
    pub bank_category: Option<String>,
    pub txn_type: Option<String>,
    pub amount_minor: Option<Minor>,
    pub currency: String,
    pub far_account_id: Option<i64>,
    pub fingerprint: Option<String>,
    pub state: String,
    pub accepted: bool,
    /// The transaction the row became.
    pub txn_id: Option<i64>,
}

/// The content of a stored row.
pub struct RowView {
    pub id: i64,
    pub account_id: Option<i64>,
    pub occurred_on: Option<Seq<char>>,
    pub description: Seq<char>,
    pub payee: Option<Seq<char>>,
    pub bank_category: Option<Seq<char>>,
    pub txn_type: Option<Seq<char>>,
    pub amount: Option<i64>,
    pub currency: Seq<char>,
    pub far_account_id: Option<i64>,
    pub fingerprint: Option<Seq<char>>,
    pub state: Seq<char>,
    pub accepted: bool,
    pub txn_id: Option<i64>,
}

impl View for BatchRow {
    type V = RowView;

    open spec fn view(&self) -> RowView {
        RowView {
            id: self.id,
            account_id: self.account_id,
            occurred_on: opt_view(self.occurred_on),
            description: self.description@,
            payee: opt_view(self.payee),
            bank_category: opt_view(self.bank_category),
            txn_type: opt_view(self.txn_type),
            amount: self.amount_minor,
            currency: self.currency@,
            far_account_id: self.far_account_id,
            fingerprint: opt_view(self.fingerprint),
            state: self.state@,
            accepted: self.accepted,
            txn_id: self.txn_id,
        }
    }
}

/// The contents of stored rows.
pub open spec fn row_views(rows: Seq<BatchRow>) -> Seq<RowView> {
    rows.map_values(|r: BatchRow| r@)
}

/// A categorisation rule.
#[derive(Debug, Clone)]
pub struct ImportRule {
    pub id: i64,
    pub priority: i64,
    pub enabled: bool,
    /// payee, bank_category, txn_type; anything else is the description.
    pub field: String,
    /// equals, starts_with; anything else is contains.
    pub op: String,
    pub pattern: String,
    /// Money in only (positive), money out only (negative), or either.
    pub sign: i64,
    pub set_far_account_id: Option<i64>,
}

/// An optional text, empty where there is none.
pub open spec fn or_empty(t: Option<Seq<char>>) -> Seq<char> {
    match t {
        Some(s) => s,
        None => Seq::empty(),
    }
}

/// The text of a row that a rule looks at.
pub open spec fn looked_at(field: Seq<char>, row: RowView) -> Seq<char> {
    if field == "payee"@ {
        or_empty(row.payee)
    } else if field == "bank_category"@ {
        or_empty(row.bank_category)
    } else if field == "txn_type"@ {
        or_empty(row.txn_type)
    } else {
        row.description
    }
}

/// A row's amount, nothing where it has none.
pub open spec fn amount_or_zero(row: RowView) -> int {
    match row.amount {
        Some(v) => v as int,
        None => 0,
    }
}

/// Whether a rule catches a row. A rule may be restricted to money in or money out: a shop's name
/// is a purchase when money leaves and a refund when it arrives.
pub open spec fn catches(rule: ImportRule, row: RowView) -> bool {
    catches_by(
        rule,
        amount_or_zero(row),
        upper(looked_at(rule.field@, row)),
        upper(rule.pattern@),
    )
}

/// Whether a rule catches a row with an amount, given the text it looks at and its pattern, each in
/// upper case.
pub open spec fn catches_by(
    rule: ImportRule,
    amount: int,
    hay: Seq<char>,
    needle: Seq<char>,
) -> bool {
    &&& rule.enabled
    &&& rule.sign > 0 ==> amount > 0
    &&& rule.sign < 0 ==> amount < 0
    &&& if rule.op@ == "equals"@ {
        hay == needle
    } else if rule.op@ == "starts_with"@ {
        needle.is_prefix_of(hay)
    } else {
        has_part(hay, needle)
    }
}

/// Whether one rule is asked before another: by priority, the highest first, then by id.
pub open spec fn before(a: ImportRule, b: ImportRule) -> bool {
    a.priority > b.priority || (a.priority == b.priority && a.id < b.id)
}

/// The place of the rule that decides a row: of those that catch it, the one asked first.
pub open spec fn decider(rules: Seq<ImportRule>, row: RowView) -> Option<int>
    decreases rules.len(),
{
    if rules.len() == 0 {
        None
    } else {
        let rest = decider(rules.drop_last(), row);
        if catches(rules.last(), row) && (rest is None || before(rules.last(), rules[rest->0])) {
            Some(rules.len() - 1)
        } else {
            rest
        }
    }
}

/// A row's far side as a rule sets it.
#[derive(Debug, Clone, Copy)]
pub struct RuleHit {
    pub row_id: i64,
    pub far_account_id: Option<i64>,
    pub rule_id: i64,
}

/// Whether a row is still open to categorisation.
pub open spec fn open_row(row: RowView) -> bool {
    row.state == "new"@ || row.state == "pending"@
}

/// What the rules set on rows.
pub open spec fn hits(rules: Seq<ImportRule>, rows: Seq<RowView>) -> Seq<RuleHit>
    decreases rows.len(),
{
    if rows.len() == 0 {
        Seq::empty()
    } else {
        let rest = hits(rules, rows.drop_last());
        if open_row(rows.last()) && decider(rules, rows.last()) is Some {
            let rule = rules[decider(rules, rows.last())->0];
            rest.push(
                RuleHit {
                    row_id: rows.last().id,
                    far_account_id: rule.set_far_account_id,
                    rule_id: rule.id,
                },
            )
        } else {
            rest
        }
    }
}

fn text_or_empty(t: &Option<String>) -> (r: String)
    ensures
        r@ == or_empty(opt_view(*t)),
{
    match t {
        Some(s) => s.clone(),
        None => String::new(),
    }
}

fn rule_catches(rule: &ImportRule, row: &BatchRow) -> (r: bool)
    ensures
        r == catches(*rule, row@),
{
    let amount: i64 = match row.amount_minor {
        Some(v) => v,
        None => 0,
    };
    let text = if str_eq(rule.field.as_str(), "payee") {
        text_or_empty(&row.payee)
    } else if str_eq(rule.field.as_str(), "bank_category") {
        text_or_empty(&row.bank_category)
    } else if str_eq(rule.field.as_str(), "txn_type") {
        text_or_empty(&row.txn_type)
    } else {
        row.description.clone()
    };
    let hay = to_upper(text.as_str());
    let needle = to_upper(rule.pattern.as_str());
    catches_upper(rule, amount, hay.as_str(), needle.as_str())
}

/// Whether a rule catches a row with an amount, given the text it looks at and its pattern, each in
/// upper case.
pub fn catches_upper(rule: &ImportRule, amount: i64, hay: &str, needle: &str) -> (r: bool)
    ensures
        r == catches_by(*rule, amount as int, hay@, needle@),
{
    if !rule.enabled || (rule.sign > 0 && amount <= 0) || (rule.sign < 0 && amount >= 0) {
        return false;
    }
    if str_eq(rule.op.as_str(), "equals") {
        str_eq(hay, needle)
    } else if str_eq(rule.op.as_str(), "starts_with") {
        starts_with(hay, needle)
    } else {
        contains(hay, needle)
    }
}

fn find_rule(rules: &Vec<ImportRule>, row: &BatchRow) -> (r: Option<usize>)
    ensures
        match r {
            Some(i) => i < rules@.len() && decider(rules@, row@) == Some(i as int),
            None => decider(rules@, row@) is None,
        },
{
    let mut best: Option<usize> = None;
    let mut i: usize = 0;
    while i < rules.len()
        invariant
            i <= rules@.len(),
            match best {
                Some(b) => b < i && decider(rules@.take(i as int), row@) == Some(b as int),
                None => decider(rules@.take(i as int), row@) is None,
            },
        decreases rules@.len() - i,
    {
        assert(rules@.take(i + 1).drop_last() =~= rules@.take(i as int));
        if rule_catches(&rules[i], row) {
            let better = match best {
                Some(b) => rules[i].priority > rules[b].priority || (rules[i].priority
                    == rules[b].priority && rules[i].id < rules[b].id),
                None => true,
            };
            if better {
                best = Some(i);
            }
        }
        i = i + 1;
    }
    assert(rules@.take(rules@.len() as int) =~= rules@);
    best
}

/// Apply the enabled categorisation rules to a staged batch, setting the far side of each row.
/// Highest priority first; the first match wins and says which rule did it.
pub fn categorise(rules: &Vec<ImportRule>, rows: &Vec<BatchRow>) -> (r: Vec<RuleHit>)
    ensures
        r@ == hits(rules@, row_views(rows@)),
{
    let mut out: Vec<RuleHit> = Vec::new();
    let ghost all = row_views(rows@);
    let mut i: usize = 0;
    assert(all.take(0) =~= Seq::<RowView>::empty());
    while i < rows.len()
        invariant
            i <= rows@.len(),
            all == row_views(rows@),
            out@ == hits(rules@, all.take(i as int)),
        decreases rows@.len() - i,
    {
        assert(all.take(i + 1).drop_last() =~= all.take(i as int));
        assert(all.take(i + 1).last() == rows@[i as int]@);
        let row = &rows[i];
        if str_eq(row.state.as_str(), "new") || str_eq(row.state.as_str(), "pending") {
            if let Some(k) = find_rule(rules, row) {
                out.push(
                    RuleHit {
                        row_id: row.id,
                        far_account_id: rules[k].set_far_account_id,
                        rule_id: rules[k].id,
                    },
                );
            }
        }
        i = i + 1;
    }
    assert(all.take(all.len() as int) =~= all);
    out
}

/// The rule that decides a row catches it, and no rule that catches it is asked before that one. A
/// row that no rule decides is caught by none.
pub proof fn law_the_first_rule_asked_wins(rules: Seq<ImportRule>, row: RowView)
    ensures
        match decider(rules, row) {
            Some(w) => 0 <= w < rules.len() && catches(rules[w], row) && forall|i: int|
                0 <= i < rules.len() && catches(#[trigger] rules[i], row) ==> !before(
                    rules[i],
                    rules[w],
                ),
            None => forall|i: int| 0 <= i < rules.len() ==> !catches(#[trigger] rules[i], row),
        },
    decreases rules.len(),
{
    if rules.len() > 0 {
        let rest = rules.drop_last();
        law_the_first_rule_asked_wins(rest, row);
        assert forall|i: int| 0 <= i < rules.len() - 1 implies #[trigger] rules[i] == rest[i] by {}
    }
}

/// Whether an accepted row has all that a transaction needs.
pub open spec fn ready(row: RowView) -> bool {
    row.accepted && (row.state == "new"@ || row.state == "matched"@) && row.account_id is Some
        && row.occurred_on is Some && row.amount is Some
}

/// The account on the far side of a row.
pub open spec fn far_side(row: RowView, unclassified: i64) -> i64 {
    match row.far_account_id {
        Some(id) => id,
        None => unclassified,
    }
}

/// A transaction that a row becomes.
#[derive(Debug, Clone)]
pub struct ImportedTxn {
    pub row_id: i64,
    pub occurred_on: String,
    pub description: String,
    pub payee: Option<String>,
    pub legs: Vec<Leg>,
    /// The account and fingerprint by which the row will be known again.
    pub account_id: i64,
    pub fingerprint: Option<String>,
}

/// The content of a transaction that a row becomes.
pub struct ImportedView {
    pub row_id: i64,
    pub occurred_on: Seq<char>,
    pub description: Seq<char>,
    pub payee: Option<Seq<char>>,
    pub legs: Seq<LegView>,
    pub account_id: i64,
    pub fingerprint: Option<Seq<char>>,
}

impl View for ImportedTxn {
    type V = ImportedView;

    open spec fn view(&self) -> ImportedView {
        ImportedView {
            row_id: self.row_id,
            occurred_on: self.occurred_on@,
            description: self.description@,
            payee: opt_view(self.payee),
            legs: leg_views(self.legs@),
            account_id: self.account_id,
            fingerprint: opt_view(self.fingerprint),
        }
    }
}

/// The contents of transactions.
pub open spec fn imported_views(txns: Seq<ImportedTxn>) -> Seq<ImportedView> {
    txns.map_values(|t: ImportedTxn| t@)
}

/// The transaction a ready row becomes: the amount on the bank account, and its opposite, in its
/// own currency, on the far side.
pub open spec fn imported(row: RowView, unclassified: i64, accounts: Seq<Account>) -> ImportedView {
    let far = far_side(row, unclassified);
    ImportedView {
        row_id: row.id,
        occurred_on: row.occurred_on->0,
        description: row.description,
        payee: row.payee,
        legs: seq![
            LegView {
                account_id: row.account_id->0,
                currency: row.currency,
                amount_minor: row.amount->0 as int,
            },
            LegView {
                account_id: far,
                currency: account_of(accounts, far).currency@,
                amount_minor: -(row.amount->0),
            },
        ],
        account_id: row.account_id->0,
        fingerprint: row.fingerprint,
    }
}

/// The transactions that rows become.
pub open spec fn imported_all(
    rows: Seq<RowView>,
    unclassified: i64,
    accounts: Seq<Account>,
) -> Seq<ImportedView>
    decreases rows.len(),
{
    if rows.len() == 0 {
        Seq::empty()
    } else {
        let rest = imported_all(rows.drop_last(), unclassified, accounts);
        if ready(rows.last()) {
            rest.push(imported(rows.last(), unclassified, accounts))
        } else {
            rest
        }
    }
}

/// Why a row cannot be posted: its far account is not in the book, or holds another currency.
pub open spec fn far_refusal(
    row: RowView,
    unclassified: i64,
    accounts: Seq<Account>,
) -> Option<ImportError> {
    let far = far_side(row, unclassified);
    if !known(accounts, far) {
        Some(ImportError::NoAccount(far))
    } else if account_of(accounts, far).currency@ != row.currency {
        Some(ImportError::OtherCurrency { row_id: row.id, far })
    } else {
        None
    }
}

/// Whether the row at a place is ready and cannot be posted.
pub open spec fn has_no_far(
    rows: Seq<RowView>,
    unclassified: i64,
    accounts: Seq<Account>,
) -> spec_fn(int) -> bool {
    |i: int| ready(rows[i]) && far_refusal(rows[i], unclassified, accounts) is Some
}

/// Whether an accepted row has all that a transaction needs.
pub fn is_ready(row: &BatchRow) -> (r: bool)
    ensures
        r == ready(row@),
{
    row.accepted && (str_eq(row.state.as_str(), "new") || str_eq(row.state.as_str(), "matched"))
        && row.account_id.is_some() && row.occurred_on.is_some() && row.amount_minor.is_some()
}

/// Turn the accepted rows of a batch, in the order of their lines, into real transactions. A row
/// with no far account goes to the bucket for what is not yet classified. Every one of them balances:
/// a row whose far account holds another currency is refused.
///
/// `state` is the batch's own, or `None` where there is no such batch.
pub fn commit(
    batch_id: i64,
    state: Option<&str>,
    rows: &Vec<BatchRow>,
    unclassified: i64,
    accounts: &Vec<Account>,
) -> (r: Result<Vec<ImportedTxn>, ImportError>)
    requires
        forall|i: int|
            0 <= i < rows@.len() && ready((#[trigger] rows@[i])@) ==> rows@[i].amount_minor->0
                > i64::MIN,
    ensures
        ({
            let all = row_views(rows@);
            let stuck = crate::lists::first(
                all.len() as int,
                has_no_far(all, unclassified, accounts@),
            );
            match state {
                None => r matches Err(ImportError::NoBatch(id)) && id == batch_id,
                Some(s) => if s@ == "committed"@ {
                    r matches Err(ImportError::AlreadyCommitted(id)) && id == batch_id
                } else if stuck < all.len() {
                    r matches Err(e) && far_refusal(all[stuck], unclassified, accounts@) == Some(e)
                } else {
                    r matches Ok(txns) && imported_views(txns@) == imported_all(
                        all,
                        unclassified,
                        accounts@,
                    ) && forall|i: int|
                        0 <= i < txns@.len() ==> balanced(leg_views((#[trigger] txns@[i]).legs@))
                },
            }
        }),
{
    match state {
        None => {
            return Err(ImportError::NoBatch(batch_id));
        },
        Some(s) => {
            if str_eq(s, "committed") {
                return Err(ImportError::AlreadyCommitted(batch_id));
            }
        },
    }
    let ghost all = row_views(rows@);
    let mut out: Vec<ImportedTxn> = Vec::new();
    let mut i: usize = 0;
    assert(all.take(0) =~= Seq::<RowView>::empty());
    assert(imported_views(out@) =~= Seq::<ImportedView>::empty());
    while i < rows.len()
        invariant
            state matches Some(s) && s@ != "committed"@,
            i <= rows@.len(),
            all == row_views(rows@),
            all.len() == rows@.len(),
            forall|j: int|
                0 <= j < rows@.len() && ready((#[trigger] rows@[j])@) ==> rows@[j].amount_minor->0
                    > i64::MIN,
            forall|j: int| 0 <= j < i ==> !#[trigger] has_no_far(all, unclassified, accounts@)(j),
            imported_views(out@) == imported_all(all.take(i as int), unclassified, accounts@),
            forall|j: int|
                0 <= j < out@.len() ==> balanced(leg_views((#[trigger] out@[j]).legs@)),
        decreases rows@.len() - i,
    {
        assert(all.take(i + 1).drop_last() =~= all.take(i as int));
        assert(all.take(i + 1).last() == rows@[i as int]@);
        assert(all[i as int] == rows@[i as int]@);
        let row = &rows[i];
        if is_ready(row) {
            let far: i64 = match row.far_account_id {
                Some(id) => id,
                None => unclassified,
            };
            match (row.account_id, row.amount_minor, &row.occurred_on, find(accounts, far)) {
                (Some(account_id), Some(amount), Some(on), Some(k)) => {
                    if !str_eq(accounts[k].currency.as_str(), row.currency.as_str()) {
                        proof {
                            crate::lists::lemma_first(
                                all.len() as int,
                                has_no_far(all, unclassified, accounts@),
                                i as int,
                            );
                        }
                        return Err(ImportError::OtherCurrency { row_id: row.id, far });
                    }
                    let mut legs: Vec<Leg> = Vec::new();
                    legs.push(
                        Leg { account_id, currency: row.currency.clone(), amount_minor: amount },
                    );
                    legs.push(
                        Leg {
                            account_id: far,
                            currency: accounts[k].currency.clone(),
                            amount_minor: -amount,
                        },
                    );
                    let payee = match &row.payee {
                        Some(p) => Some(p.clone()),
                        None => None,
                    };
                    let fingerprint = match &row.fingerprint {
                        Some(f) => Some(f.clone()),
                        None => None,
                    };
                    let t = ImportedTxn {
                        row_id: row.id,
                        occurred_on: on.clone(),
                        description: row.description.clone(),
                        payee,
                        legs,
                        account_id,
                        fingerprint,
                    };
                    assert(t@.legs =~= imported(row@, unclassified, accounts@).legs);
                    proof {
                        law_committed_rows_balance(row@, unclassified, accounts@);
                    }
                    assert(imported_views(out@.push(t)) =~= imported_views(out@).push(t@));
                    out.push(t);
                },
                _ => {
                    proof {
                        crate::lists::lemma_first(
                            all.len() as int,
                            has_no_far(all, unclassified, accounts@),
                            i as int,
                        );
                    }
                    return Err(ImportError::NoAccount(far));
                },
            }
        }
        i = i + 1;
    }
    proof {
        crate::lists::lemma_first(
            all.len() as int,
            has_no_far(all, unclassified, accounts@),
            i as int,
        );
        assert(all.take(all.len() as int) =~= all);
    }
    Ok(out)
}

/// A row that can be posted becomes a balanced transaction.
pub proof fn law_committed_rows_balance(row: RowView, unclassified: i64, accounts: Seq<Account>)
    requires
        ready(row),
        far_refusal(row, unclassified, accounts) is None,
    ensures
        balanced(imported(row, unclassified, accounts).legs),
{
    let legs = imported(row, unclassified, accounts).legs;
    assert forall|c: Seq<char>| #[trigger] net_in(legs, c) == 0 by {
        reveal_with_fuel(net_in, 3);
        assert(legs.drop_last().drop_last() =~= Seq::empty());
    }
}

/// What undoing a batch takes: the transactions to delete, and the rows to open again.
#[derive(Debug, Clone)]
pub struct Reverted {
    pub txn_ids: Vec<i64>,
    pub row_ids: Vec<i64>,
}

/// The transactions that rows became.
pub open spec fn created_by(rows: Seq<RowView>) -> Seq<i64>
    decreases rows.len(),
{
    if rows.len() == 0 {
        Seq::empty()
    } else {
        match rows.last().txn_id {
            Some(id) => created_by(rows.drop_last()).push(id),
            None => created_by(rows.drop_last()),
        }
    }
}

/// The rows that were committed.
pub open spec fn committed_in(rows: Seq<RowView>) -> Seq<i64>
    decreases rows.len(),
{
    if rows.len() == 0 {
        Seq::empty()
    } else if rows.last().state == "committed"@ {
        committed_in(rows.drop_last()).push(rows.last().id)
    } else {
        committed_in(rows.drop_last())
    }
}

/// Undo exactly what a batch created: its transactions go, and its committed rows are new again.
pub fn revert(rows: &Vec<BatchRow>) -> (r: Reverted)
    ensures
        r.txn_ids@ == created_by(row_views(rows@)),
        r.row_ids@ == committed_in(row_views(rows@)),
{
    let ghost all = row_views(rows@);
    let mut txn_ids: Vec<i64> = Vec::new();
    let mut row_ids: Vec<i64> = Vec::new();
    let mut i: usize = 0;
    assert(all.take(0) =~= Seq::<RowView>::empty());
    while i < rows.len()
        invariant
            i <= rows@.len(),
            all == row_views(rows@),
            txn_ids@ == created_by(all.take(i as int)),
            row_ids@ == committed_in(all.take(i as int)),
        decreases rows@.len() - i,
    {
        assert(all.take(i + 1).drop_last() =~= all.take(i as int));
        assert(all.take(i + 1).last() == rows@[i as int]@);
        if let Some(id) = rows[i].txn_id {
            txn_ids.push(id);
        }
        if str_eq(rows[i].state.as_str(), "committed") {
            row_ids.push(rows[i].id);
        }
        i = i + 1;
    }
    assert(all.take(all.len() as int) =~= all);
    Reverted { txn_ids, row_ids }
}

/// The rows of a batch once its transactions are stored under new ids, in order.
pub open spec fn recorded(rows: Seq<RowView>, ids: Seq<i64>) -> Seq<RowView>
    decreases rows.len(),
{
    if rows.len() == 0 {
        rows
    } else if ready(rows.last()) {
        recorded(rows.drop_last(), ids.drop_last()).push(
            RowView { state: "committed"@, txn_id: Some(ids.last()), ..rows.last() },
        )
    } else {
        recorded(rows.drop_last(), ids).push(rows.last())
    }
}

/// Reverting a committed batch deletes exactly the transactions that committing it stored.
pub proof fn law_revert_undoes_exactly_what_commit_did(
    rows: Seq<RowView>,
    unclassified: i64,
    accounts: Seq<Account>,
    ids: Seq<i64>,
)
    requires
        forall|i: int| 0 <= i < rows.len() ==> (#[trigger] rows[i]).txn_id is None,
        ids.len() == imported_all(rows, unclassified, accounts).len(),
    ensures
        created_by(recorded(rows, ids)) == ids,
    decreases rows.len(),
{
    if rows.len() == 0 {
        assert(ids =~= Seq::<i64>::empty());
    } else {
        let rest = rows.drop_last();
        assert forall|i: int| 0 <= i < rest.len() implies (#[trigger] rest[i]).txn_id is None by {
            assert(rest[i] == rows[i]);
        }
        assert(rows.last() == rows[rows.len() - 1]);
        if ready(rows.last()) {
            law_revert_undoes_exactly_what_commit_did(rest, unclassified, accounts, ids.drop_last());
            assert(recorded(rows, ids).drop_last() =~= recorded(rest, ids.drop_last()));
            assert(ids.drop_last().push(ids.last()) =~= ids);
        } else {
            law_revert_undoes_exactly_what_commit_did(rest, unclassified, accounts, ids);
            assert(recorded(rows, ids).drop_last() =~= recorded(rest, ids));
        }
    }
}

/// Whether a fingerprint is among keys.
pub open spec fn among(keys: Seq<ImportKey>, print: Seq<char>) -> bool {
    exists|i: int| 0 <= i < keys.len() && (#[trigger] keys[i]).fingerprint@ == print
}

/// A record that has a date and an amount is new exactly where its account has not had it before.
pub proof fn law_a_row_is_new_where_its_account_has_not_had_it(
    record: Seq<Seq<char>>,
    headers: Seq<Seq<char>>,
    p: Profile,
    keys: Seq<ImportKey>,
    line_no: int,
)
    ensures
        ({
            let row = staged_record(record, headers, p, keys, line_no);
            row.accepted <==> row.fingerprint is Some && !(p.account_id is Some && among(
                keys,
                row.fingerprint->0,
            ))
        }),
{
    let row = staged_record(record, headers, p, keys, line_no);
    if row.fingerprint is Some {
        let f = row.fingerprint->0;
        crate::lists::lemma_first_is(keys.len() as int, is_key(keys, f));
        let i = crate::lists::first(keys.len() as int, is_key(keys, f));
        if i < keys.len() {
            assert(keys[i].fingerprint@ == f);
        } else {
            assert forall|j: int| 0 <= j < keys.len() implies (#[trigger] keys[j]).fingerprint@
                != f by {
                assert(!is_key(keys, f)(j));
            }
        }
    }
}

/// Importing a file again adds nothing: once the rows it added are known, none of its rows is new. Its
/// rows and its errors stay as they were, and all the others are duplicates.
pub proof fn law_importing_again_adds_nothing(
    records: Seq<Result<Seq<Seq<char>>, Seq<char>>>,
    headers: Seq<Seq<char>>,
    p: Profile,
    keys: Seq<ImportKey>,
    added: Seq<ImportKey>,
)
    requires
        p.account_id is Some,
        forall|i: int|
            0 <= i < records.len() && (#[trigger] staged_all(records, headers, p, keys)[i]).accepted
                ==> among(added, staged_all(records, headers, p, keys)[i].fingerprint->0),
    ensures
        count_new(staged_all(records, headers, p, keys + added)) == 0,
        staged_all(records, headers, p, keys + added).len() == staged_all(
            records,
            headers,
            p,
            keys,
        ).len(),
        count_errors(staged_all(records, headers, p, keys + added)) == count_errors(
            staged_all(records, headers, p, keys),
        ),
        count_duplicates(staged_all(records, headers, p, keys + added)) == staged_all(
            records,
            headers,
            p,
            keys + added,
        ).len() - count_errors(staged_all(records, headers, p, keys + added)),
{
    let once = staged_all(records, headers, p, keys);
    let again = staged_all(records, headers, p, keys + added);
    assert forall|i: int| 0 <= i < again.len() implies !(#[trigger] again[i]).accepted by {
        if let Ok(r) = records[i] {
            law_a_row_is_new_where_its_account_has_not_had_it(r, headers, p, keys, i + 1);
            law_a_row_is_new_where_its_account_has_not_had_it(r, headers, p, keys + added, i + 1);
            if again[i].accepted {
                let f = again[i].fingerprint->0;
                assert(once[i].fingerprint == again[i].fingerprint);
                if among(keys, f) {
                    let k = choose|k: int| 0 <= k < keys.len() && (#[trigger] keys[k]).fingerprint@ == f;
                    assert((keys + added)[k].fingerprint@ == f);
                }
                if among(added, f) {
                    let k = choose|k: int|
                        0 <= k < added.len() && (#[trigger] added[k]).fingerprint@ == f;
                    assert((keys + added)[keys.len() + k].fingerprint@ == f);
                }
                assert(once[i].accepted);
            }
        }
    }
    lemma_none_new(again);
    assert forall|i: int| 0 <= i < again.len() implies (#[trigger] again[i]).error is Some
        == once[i].error is Some && again[i].dup_of_txn_id is Some == again[i].error is None by {
        assert(!again[i].accepted);
    }
    lemma_same_errors(once, again);
    lemma_duplicates_or_errors(again);
}

proof fn lemma_same_errors(a: Seq<StagedView>, b: Seq<StagedView>)
    requires
        a.len() == b.len(),
        forall|i: int|
            0 <= i < b.len() ==> (#[trigger] b[i]).error is Some == a[i].error is Some,
    ensures
        count_errors(a) == count_errors(b),
    decreases a.len(),
{
    if a.len() > 0 {
        assert forall|i: int| 0 <= i < b.len() - 1 implies (#[trigger] b.drop_last()[i]).error
            is Some == a.drop_last()[i].error is Some by {
            assert(b.drop_last()[i] == b[i]);
        }
        assert(b[b.len() - 1].error is Some == a[a.len() - 1].error is Some);
        lemma_same_errors(a.drop_last(), b.drop_last());
    }
}

proof fn lemma_duplicates_or_errors(rows: Seq<StagedView>)
    requires
        forall|i: int|
            0 <= i < rows.len() ==> (#[trigger] rows[i]).dup_of_txn_id is Some
                == rows[i].error is None,
    ensures
        count_duplicates(rows) == rows.len() - count_errors(rows),
    decreases rows.len(),
{
    if rows.len() > 0 {
        assert forall|i: int| 0 <= i < rows.len() - 1 implies (
        #[trigger] rows.drop_last()[i]).dup_of_txn_id is Some == rows.drop_last()[i].error
            is None by {
            assert(rows.drop_last()[i] == rows[i]);
        }
        assert(rows[rows.len() - 1].dup_of_txn_id is Some == rows[rows.len() - 1].error is None);
        lemma_duplicates_or_errors(rows.drop_last());
    }
}

proof fn lemma_none_new(rows: Seq<StagedView>)
    requires
        forall|i: int| 0 <= i < rows.len() ==> !(#[trigger] rows[i]).accepted,
    ensures
        count_new(rows) == 0,
    decreases rows.len(),
{
    if rows.len() > 0 {
        assert forall|i: int| 0 <= i < rows.len() - 1 implies !(#[trigger] rows.drop_last()[i]).accepted by {
            assert(rows.drop_last()[i] == rows[i]);
        }
        assert(!rows[rows.len() - 1].accepted);
        lemma_none_new(rows.drop_last());
    }
}

} // verus!
