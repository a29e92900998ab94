//! Export for analysis.
//!
//! The audience is a language model reading the book cold, so the export leads with a preamble
//! stating the invariants it must not violate. Without it a model reliably sums across currencies,
//! divides minor units by 100 when the currency has 0 or 8 decimal places, and counts postings as
//! if they were transactions.
//!
//! Projections are included only on request and are flagged on every row: mixing a forecast into
//! history unlabelled is the one mistake that would make an analysis actively misleading.

use crate::date::{read_day, Date};
use crate::digits::{int_digits, int_text};
use crate::forecast::{occ_views, OccView, Projection};
use crate::money::Minor;
use crate::roles::str_view;
use crate::sorting::{
    in_rank, law_ranking_keeps_everything_and_orders_it, orders, rank, ranked, Ranked,
};
use crate::text::{
    chars_of, join, joined, lemma_text_irreflexive, lemma_text_total, lemma_text_transitive,
    opt_view, str_eq, text_less, text_lt, views,
};
use vstd::prelude::*;

verus! {

broadcast use vstd::string::group_string_axioms;

/// Why an export was refused.
#[derive(Debug)]
pub enum ExportError {
    Io(String),
}

impl ExportError {
    /// The message, as a sequence of characters.
    pub open spec fn text(self) -> Seq<char> {
        match self {
            ExportError::Io(m) => m@,
        }
    }

    /// The message a person reads.
    pub fn to_text(&self) -> (r: String)
        ensures
            r@ == self.text(),
    {
        match self {
            ExportError::Io(m) => m.clone(),
        }
    }
}

/// What the reader has to know to not draw a wrong conclusion. Deliberately blunt, and deliberately
/// about the traps rather than about the schema: the schema is self-describing, the traps are not.
pub const PREAMBLE: [&'static str; 5] = [
    "This is a double-entry ledger. Each transaction (txn_id) has two or more postings that SUM TO ZERO within each currency. Counting postings will double-count; group by txn_id.",
    "amount_minor is an INTEGER in the currency's minor unit. The divisor is 10^minor_digits, which is NOT always 100: JPY has 0, BTC has 8. Use amount_decimal if you want a ready-made decimal.",
    "Amounts in different currencies are NOT comparable and must never be summed together. Group by currency, or convert explicitly using a dated rate.",
    "Sign convention: positive increases the account, negative decreases it. An expense posting is positive; the asset it was paid from is negative. Income accounts hold negative balances.",
    "Rows with is_projection=true are FORECAST, not history. They have not happened. Never mix them into a total of what was actually spent.",
];

/// What an export asks for.
pub struct Options<'a> {
    pub from: Option<&'a str>,
    pub to: Option<&'a str>,
    pub redact: bool,
    /// Append projected occurrences, each flagged as a projection.
    pub forecast_to: Option<&'a str>,
}

/// A posting of the ledger with what its transaction, account and currency say of it.
#[derive(Debug, Clone)]
pub struct LedgerLine {
    pub posting_id: i64,
    pub txn_id: i64,
    pub on_date: String,
    pub account: String,
    pub account_kind: String,
    pub description: String,
    pub payee: Option<String>,
    pub amount_minor: Minor,
    pub currency: String,
    pub minor_digits: i64,
    pub amount_decimal: Option<String>,
    pub series: Option<String>,
    pub occurrence_on: Option<String>,
    pub source: String,
}

/// A row of an export: a ledger line, or a projected one.
#[derive(Debug, Clone)]
pub struct ExportRow {
    pub posting_id: Option<i64>,
    pub txn_id: Option<i64>,
    pub on_date: String,
    pub account: String,
    pub account_kind: Option<String>,
    pub description: String,
    pub payee: Option<String>,
    pub amount_minor: Minor,
    pub currency: String,
    pub minor_digits: Option<i64>,
    pub amount_decimal: Option<String>,
    pub series: Option<String>,
    pub occurrence_on: Option<String>,
    pub source: String,
    pub is_projection: bool,
}

/// The content of an export row.
pub struct ExportView {
    pub posting_id: Option<i64>,
    pub txn_id: Option<i64>,
    pub on_date: Seq<char>,
    pub account: Seq<char>,
    pub account_kind: Option<Seq<char>>,
    pub description: Seq<char>,
    pub payee: Option<Seq<char>>,
    pub amount: int,
    pub currency: Seq<char>,
    pub minor_digits: Option<i64>,
    pub amount_decimal: Option<Seq<char>>,
    pub series: Option<Seq<char>>,
    pub occurrence_on: Option<Seq<char>>,
    pub source: Seq<char>,
    pub is_projection: bool,
}

impl View for ExportRow {
    type V = ExportView;

    open spec fn view(&self) -> ExportView {
        ExportView {
            posting_id: self.posting_id,
            txn_id: self.txn_id,
            on_date: self.on_date@,
            account: self.account@,
            account_kind: opt_view(self.account_kind),
            description: self.description@,
            payee: opt_view(self.payee),
            amount: self.amount_minor as int,
            currency: self.currency@,
            minor_digits: self.minor_digits,
            amount_decimal: opt_view(self.amount_decimal),
            series: opt_view(self.series),
            occurrence_on: opt_view(self.occurrence_on),
            source: self.source@,
            is_projection: self.is_projection,
        }
    }
}

/// The contents of export rows.
pub open spec fn export_views(rows: Seq<ExportRow>) -> Seq<ExportView> {
    rows.map_values(|r: ExportRow| r@)
}

/// Whether a date is in a window, either end of which may be open.
pub open spec fn in_window(on: Seq<char>, from: Option<Seq<char>>, to: Option<Seq<char>>) -> bool {
    &&& from matches Some(f) ==> !text_lt(on, f)
    &&& to matches Some(t) ==> !text_lt(t, on)
}

/// A description as it is exported: blanked where the story is to stay private.
pub open spec fn told(description: Seq<char>, redact: bool) -> Seq<char> {
    if redact {
        "[redacted]"@
    } else {
        description
    }
}

/// The row of a ledger line.
pub open spec fn line_row(l: LedgerLine, redact: bool) -> ExportView {
    ExportView {
        posting_id: Some(l.posting_id),
        txn_id: Some(l.txn_id),
        on_date: l.on_date@,
        account: l.account@,
        account_kind: Some(l.account_kind@),
        description: told(l.description@, redact),
        payee: if redact {
            None
        } else {
            opt_view(l.payee)
        },
        amount: l.amount_minor as int,
        currency: l.currency@,
        minor_digits: Some(l.minor_digits),
        amount_decimal: opt_view(l.amount_decimal),
        series: if redact {
            None
        } else {
            opt_view(l.series)
        },
        occurrence_on: opt_view(l.occurrence_on),
        source: l.source@,
        is_projection: false,
    }
}

/// The rows of the ledger lines in a window.
pub open spec fn line_rows(
    all: Seq<LedgerLine>,
    from: Option<Seq<char>>,
    to: Option<Seq<char>>,
    redact: bool,
) -> Seq<ExportView>
    decreases all.len(),
{
    if all.len() == 0 {
        Seq::empty()
    } else {
        let rest = line_rows(all.drop_last(), from, to, redact);
        if in_window(all.last().on_date@, from, to) {
            rest.push(line_row(all.last(), redact))
        } else {
            rest
        }
    }
}

fn copy_text(t: &Option<String>) -> (r: Option<String>)
    ensures
        opt_view(r) == opt_view(*t),
{
    match t {
        Some(s) => Some(s.clone()),
        None => None,
    }
}

fn tell(description: &str, redact: bool) -> (r: String)
    ensures
        r@ == told(description@, redact),
{
    if redact {
        "[redacted]".to_string()
    } else {
        description.to_string()
    }
}

/// By day, then by transaction, then by posting.
impl Ranked for LedgerLine {
    open spec fn before(&self, other: &Self) -> bool {
        text_lt(self.on_date@, other.on_date@) || (self.on_date@ == other.on_date@ && (self.txn_id
            < other.txn_id || (self.txn_id == other.txn_id && self.posting_id < other.posting_id)))
    }

    fn comes_before(&self, other: &Self) -> (r: bool) {
        text_less(self.on_date.as_str(), other.on_date.as_str()) || (str_eq(
            self.on_date.as_str(),
            other.on_date.as_str(),
        ) && (self.txn_id < other.txn_id || (self.txn_id == other.txn_id && self.posting_id
            < other.posting_id)))
    }
}

proof fn lemma_lines_order()
    ensures
        orders::<LedgerLine>(),
{
    assert forall|a: LedgerLine, b: LedgerLine| #[trigger] a.before(&b) implies !b.before(&a) by {
        lemma_text_irreflexive(a.on_date@);
        if text_lt(b.on_date@, a.on_date@) && text_lt(a.on_date@, b.on_date@) {
            lemma_text_transitive(a.on_date@, b.on_date@, a.on_date@);
        }
    }
    assert forall|a: LedgerLine, b: LedgerLine, c: LedgerLine| #[trigger] a.before(&b) && !(
    #[trigger] c.before(&b)) implies a.before(&c) by {
        lemma_text_irreflexive(b.on_date@);
        lemma_text_total(b.on_date@, c.on_date@);
        if text_lt(a.on_date@, b.on_date@) {
            if text_lt(b.on_date@, c.on_date@) {
                lemma_text_transitive(a.on_date@, b.on_date@, c.on_date@);
            }
        }
    }
}

/// An export tells the book in order: no line stands behind a later one, and none is left out or
/// told twice.
pub proof fn law_lines_are_told_in_order(all: Seq<LedgerLine>)
    ensures
        in_rank(ranked(all)),
        ranked(all).to_multiset() == all.to_multiset(),
{
    lemma_lines_order();
    law_ranking_keeps_everything_and_orders_it(all);
}

/// The ledger lines of a window, by day and in order within it. Redaction blanks the free-text fields, which
/// is what makes it safe to hand a book to a model one does not control: the shape and the numbers
/// survive, the payees and descriptions do not.
pub fn lines(all: Vec<LedgerLine>, from: Option<&str>, to: Option<&str>, redact: bool) -> (r: Vec<
    ExportRow,
>)
    ensures
        export_views(r@) == line_rows(ranked(all@), str_view(from), str_view(to), redact),
{
    let all = rank(all);
    let mut out: Vec<ExportRow> = Vec::new();
    let mut i: usize = 0;
    assert(export_views(out@) =~= Seq::<ExportView>::empty());
    while i < all.len()
        invariant
            i <= all@.len(),
            export_views(out@) == line_rows(
                all@.take(i as int),
                str_view(from),
                str_view(to),
                redact,
            ),
        decreases all@.len() - i,
    {
        assert(all@.take(i + 1).drop_last() =~= all@.take(i as int));
        let l = &all[i];
        let early = match from {
            Some(f) => text_less(l.on_date.as_str(), f),
            None => false,
        };
        let late = match to {
            Some(t) => text_less(t, l.on_date.as_str()),
            None => false,
        };
        if !early && !late {
            let payee = if redact {
                None
            } else {
                copy_text(&l.payee)
            };
            let series = if redact {
                None
            } else {
                copy_text(&l.series)
            };
            let row = ExportRow {
                posting_id: Some(l.posting_id),
                txn_id: Some(l.txn_id),
                on_date: l.on_date.clone(),
                account: l.account.clone(),
                account_kind: Some(l.account_kind.clone()),
                description: tell(l.description.as_str(), redact),
                payee,
                amount_minor: l.amount_minor,
                currency: l.currency.clone(),
                minor_digits: Some(l.minor_digits),
                amount_decimal: copy_text(&l.amount_decimal),
                series,
                occurrence_on: copy_text(&l.occurrence_on),
                source: l.source.clone(),
                is_projection: false,
            };
            assert(export_views(out@.push(row)) =~= export_views(out@).push(row@));
            out.push(row);
        }
        i = i + 1;
    }
    assert(all@.take(all@.len() as int) =~= all@);
    out
}

/// The row of a projected occurrence. It has no transaction: it has not happened.
pub open spec fn projected_row(o: OccView, redact: bool) -> ExportView {
    ExportView {
        posting_id: None,
        txn_id: None,
        on_date: o.value_on,
        account: o.account,
        account_kind: None,
        description: told(o.description, redact),
        payee: None,
        amount: o.amount,
        currency: o.currency,
        minor_digits: None,
        amount_decimal: None,
        series: None,
        occurrence_on: Some(o.occurrence_on),
        source: "forecast"@,
        is_projection: true,
    }
}

/// The rows of projected occurrences.
pub open spec fn projected_rows(occs: Seq<OccView>, redact: bool) -> Seq<ExportView> {
    occs.map_values(|o: OccView| projected_row(o, redact))
}

/// The window a projection for an export covers, if one is asked for: from the last day exported,
/// or today, to the horizon.
pub fn forecast_window(opt: &Options, today: Date) -> (r: Option<(Date, Date)>)
    requires
        today.in_range(),
    ensures
        match opt.forecast_to {
            None => r is None,
            Some(h) => match read_day(h@, "%Y-%m-%d"@) {
                None => r is None,
                Some(n) => r matches Some(w) && w.1.days == n && w.1.in_range() && (match opt.to {
                    Some(t) => match read_day(t@, "%Y-%m-%d"@) {
                        Some(m) => w.0.days == m,
                        None => w.0 == today,
                    },
                    None => w.0 == today,
                }) && w.0.in_range(),
            },
        },
{
    match opt.forecast_to {
        None => None,
        Some(h) => {
            let as_of = match opt.to {
                Some(t) => match Date::parse(t) {
                    Some(d) => d,
                    None => today,
                },
                None => today,
            };
            match Date::parse(h) {
                Some(horizon) => Some((as_of, horizon)),
                None => None,
            }
        },
    }
}

/// The rows of an export: the ledger lines of its window and, where a projection was made, its
/// occurrences after them.
pub fn bundle(all: Vec<LedgerLine>, opt: &Options, projection: Option<&Projection>) -> (r: Vec<
    ExportRow,
>)
    ensures
        export_views(r@) == line_rows(
            ranked(all@),
            str_view(opt.from),
            str_view(opt.to),
            opt.redact,
        ) + (
        match projection {
            Some(p) => projected_rows(occ_views(p.occurrences@), opt.redact),
            None => Seq::empty(),
        }),
{
    let mut rows = lines(all, opt.from, opt.to, opt.redact);
    let ghost own = export_views(rows@);
    if let Some(p) = projection {
        let ghost more = projected_rows(occ_views(p.occurrences@), opt.redact);
        let mut i: usize = 0;
        assert(own + more.take(0) =~= own);
        while i < p.occurrences.len()
            invariant
                i <= p.occurrences@.len(),
                more == projected_rows(occ_views(p.occurrences@), opt.redact),
                more.len() == p.occurrences@.len(),
                export_views(rows@) == own + more.take(i as int),
            decreases p.occurrences@.len() - i,
        {
            let o = &p.occurrences[i];
            let row = ExportRow {
                posting_id: None,
                txn_id: None,
                on_date: o.value_on.clone(),
                account: o.account.clone(),
                account_kind: None,
                description: tell(o.description.as_str(), opt.redact),
                payee: None,
                amount_minor: o.amount_minor,
                currency: o.currency.clone(),
                minor_digits: None,
                amount_decimal: None,
                series: None,
                occurrence_on: Some(o.occurrence_on.clone()),
                source: "forecast".to_string(),
                is_projection: true,
            };
            assert(row@ == more[i as int]);
            assert(export_views(rows@.push(row)) =~= export_views(rows@).push(row@));
            assert(more.take(i + 1) =~= more.take(i as int).push(row@));
            rows.push(row);
            i = i + 1;
            assert(export_views(rows@) =~= own + more.take(i as int));
        }
        assert(more.take(more.len() as int) =~= more);
    } else {
        assert(own + Seq::<ExportView>::empty() =~= own);
    }
    rows
}

/// Redaction keeps the rows, their numbers and their accounts, and drops the story: the description
/// is blanked, the payee and the series' own description are left out, and nothing else changes.
pub proof fn law_redaction_keeps_the_numbers_and_drops_the_story(
    all: Seq<LedgerLine>,
    from: Option<Seq<char>>,
    to: Option<Seq<char>>,
)
    ensures
        ({
            let plain = line_rows(all, from, to, false);
            let told = line_rows(all, from, to, true);
            plain.len() == told.len() && forall|i: int|
                0 <= i < plain.len() ==> #[trigger] told[i] == (ExportView {
                    description: "[redacted]"@,
                    payee: None,
                    series: None,
                    ..plain[i]
                })
        }),
    decreases all.len(),
{
    if all.len() > 0 {
        law_redaction_keeps_the_numbers_and_drops_the_story(all.drop_last(), from, to);
        let plain = line_rows(all, from, to, false);
        let rest = line_rows(all.drop_last(), from, to, false);
        let told_rest = line_rows(all.drop_last(), from, to, true);
        if in_window(all.last().on_date@, from, to) {
            assert forall|i: int| 0 <= i < plain.len() implies #[trigger] line_rows(
                all,
                from,
                to,
                true,
            )[i] == (ExportView {
                description: "[redacted]"@,
                payee: None,
                series: None,
                ..plain[i]
            }) by {
                if i < rest.len() {
                    assert(told_rest[i] == (ExportView {
                        description: "[redacted]"@,
                        payee: None,
                        series: None,
                        ..rest[i]
                    }));
                }
            }
        }
    }
}

/// Every row of history has a transaction and is not flagged; every projected row is flagged and has
/// none.
pub proof fn law_projected_rows_are_always_flagged(
    all: Seq<LedgerLine>,
    from: Option<Seq<char>>,
    to: Option<Seq<char>>,
    redact: bool,
    occs: Seq<OccView>,
)
    ensures
        forall|i: int|
            0 <= i < line_rows(all, from, to, redact).len() ==> !(#[trigger] line_rows(
                all,
                from,
                to,
                redact,
            )[i]).is_projection && line_rows(all, from, to, redact)[i].txn_id is Some,
        forall|i: int|
            0 <= i < occs.len() ==> (#[trigger] projected_rows(occs, redact)[i]).is_projection
                && projected_rows(occs, redact)[i].txn_id is None && projected_rows(
                occs,
                redact,
            )[i].source == "forecast"@,
    decreases all.len(),
{
    if all.len() > 0 {
        law_projected_rows_are_always_flagged(all.drop_last(), from, to, redact, occs);
    }
}

/// A text with every double quote written twice.
pub open spec fn doubled(s: Seq<char>) -> Seq<char>
    decreases s.len(),
{
    if s.len() == 0 {
        s
    } else if s.last() == '"' {
        doubled(s.drop_last()).push('"').push('"')
    } else {
        doubled(s.drop_last()).push(s.last())
    }
}

/// Whether a CSV field has to be quoted.
pub open spec fn needs_quotes(s: Seq<char>) -> bool {
    s.contains(',') || s.contains('"') || s.contains('\n')
}

/// A CSV field.
pub open spec fn escaped(s: Seq<char>) -> Seq<char> {
    if needs_quotes(s) {
        "\""@ + doubled(s) + "\""@
    } else {
        s
    }
}

fn escape(s: &str) -> (r: String)
    ensures
        r@ == escaped(s@),
{
    let v = chars_of(s);
    let mut twice = String::new();
    let mut quotes = false;
    let mut i: usize = 0;
    assert(v@.take(0) =~= Seq::<char>::empty());
    while i < v.len()
        invariant
            i <= v@.len(),
            twice@ == doubled(v@.take(i as int)),
            quotes == needs_quotes(v@.take(i as int)),
        decreases v@.len() - i,
    {
        let c = v[i];
        assert(v@.take(i + 1).drop_last() =~= v@.take(i as int));
        proof {
            lemma_needs_quotes_push(v@.take(i as int), c);
            assert(v@.take(i + 1) =~= v@.take(i as int).push(c));
        }
        if c == ',' || c == '"' || c == '\n' {
            quotes = true;
        }
        if c == '"' {
            twice.push('"');
        }
        twice.push(c);
        i = i + 1;
    }
    assert(v@.take(v@.len() as int) =~= v@);
    if quotes {
        let mut out = "\"".to_string();
        out.append(twice.as_str());
        out.append("\"");
        out
    } else {
        s.to_string()
    }
}

proof fn lemma_contains_push(s: Seq<char>, c: char, d: char)
    ensures
        s.push(c).contains(d) == (s.contains(d) || c == d),
{
    if s.contains(d) {
        let i = choose|i: int| 0 <= i < s.len() && s[i] == d;
        assert(s.push(c)[i] == d);
    }
    if c == d {
        assert(s.push(c)[s.len() as int] == d);
    }
    if s.push(c).contains(d) && c != d {
        let i = choose|i: int| 0 <= i < s.push(c).len() && s.push(c)[i] == d;
        assert(s[i] == d);
    }
}

proof fn lemma_needs_quotes_push(s: Seq<char>, c: char)
    ensures
        needs_quotes(s.push(c)) == (needs_quotes(s) || c == ',' || c == '"' || c == '\n'),
{
    lemma_contains_push(s, c, ',');
    lemma_contains_push(s, c, '"');
    lemma_contains_push(s, c, '\n');
}

/// A text with every pair of double quotes read as one.
pub open spec fn undoubled(s: Seq<char>) -> Seq<char>
    decreases s.len(),
{
    if s.len() == 0 {
        s
    } else if s.len() >= 2 && s.last() == '"' && s[s.len() - 2] == '"' {
        undoubled(s.take(s.len() - 2)).push('"')
    } else {
        undoubled(s.drop_last()).push(s.last())
    }
}

/// What a CSV field says.
pub open spec fn field_text(f: Seq<char>) -> Seq<char> {
    if f.len() >= 2 && f[0] == '"' {
        undoubled(f.subrange(1, f.len() - 1))
    } else {
        f
    }
}

proof fn lemma_undoubled(s: Seq<char>)
    ensures
        undoubled(doubled(s)) == s,
    decreases s.len(),
{
    if s.len() > 0 {
        lemma_undoubled(s.drop_last());
        let rest = doubled(s.drop_last());
        assert(s.drop_last().push(s.last()) =~= s);
        if s.last() == '"' {
            assert(rest.push('"').push('"').take(rest.len() as int) =~= rest);
        } else {
            assert(rest.push(s.last()).drop_last() =~= rest);
        }
    }
}

/// Whatever a field holds -- commas, quotes, line breaks -- the CSV says it back.
pub proof fn law_escaped_fields_read_back(s: Seq<char>)
    ensures
        field_text(escaped(s)) == s,
{
    reveal_strlit("\"");
    if needs_quotes(s) {
        let f = escaped(s);
        assert(f.subrange(1, f.len() - 1) =~= doubled(s));
        lemma_undoubled(s);
    } else if s.len() > 0 {
        if s[0] == '"' {
            assert(s.contains('"'));
        }
    }
}

/// The columns of the CSV.
pub const CSV_HEADER: &'static str = "on_date,txn_id,account,account_kind,description,payee,amount_minor,amount_decimal,currency,minor_digits,source\n";

/// An optional number as CSV writes it.
pub open spec fn number_or_blank(n: Option<i64>) -> Seq<char> {
    match n {
        Some(v) => int_digits(v as int),
        None => Seq::empty(),
    }
}

/// An optional text as CSV writes it.
pub open spec fn text_or_blank(t: Option<Seq<char>>) -> Seq<char> {
    match t {
        Some(s) => s,
        None => Seq::empty(),
    }
}

/// The fields of a row, in the order of the columns.
pub open spec fn csv_fields(r: ExportView) -> Seq<Seq<char>> {
    seq![
        escaped(r.on_date),
        escaped(number_or_blank(r.txn_id)),
        escaped(r.account),
        escaped(text_or_blank(r.account_kind)),
        escaped(r.description),
        escaped(text_or_blank(r.payee)),
        escaped(int_digits(r.amount)),
        escaped(text_or_blank(r.amount_decimal)),
        escaped(r.currency),
        escaped(number_or_blank(r.minor_digits)),
        escaped(r.source),
    ]
}

/// The CSV of rows: the header, then a line for each.
pub open spec fn csv_text(rows: Seq<ExportView>) -> Seq<char>
    decreases rows.len(),
{
    if rows.len() == 0 {
        CSV_HEADER@
    } else {
        csv_text(rows.drop_last()) + joined(csv_fields(rows.last()), ","@) + "\n"@
    }
}

fn text_field(t: &Option<String>) -> (r: String)
    ensures
        r@ == escaped(text_or_blank(opt_view(*t))),
{
    match t {
        Some(s) => escape(s.as_str()),
        None => {
            let empty = String::new();
            escape(empty.as_str())
        },
    }
}

fn number_field(n: Option<i64>) -> (r: String)
    ensures
        r@ == escaped(number_or_blank(n)),
{
    let s = match n {
        Some(v) => int_text(v as i128),
        None => String::new(),
    };
    escape(s.as_str())
}

/// Flat CSV of the ledger lines, for a spreadsheet. The preamble cannot travel with it, which is
/// precisely why the bundle is the recommended shape.
pub fn csv(all: Vec<LedgerLine>, opt: &Options) -> (r: String)
    ensures
        r@ == csv_text(
            line_rows(ranked(all@), str_view(opt.from), str_view(opt.to), opt.redact),
        ),
{
    let rows = lines(all, opt.from, opt.to, opt.redact);
    let ghost views_all = export_views(rows@);
    let mut out = CSV_HEADER.to_string();
    let mut i: usize = 0;
    assert(views_all.take(0) =~= Seq::<ExportView>::empty());
    while i < rows.len()
        invariant
            i <= rows@.len(),
            views_all == export_views(rows@),
            out@ == csv_text(views_all.take(i as int)),
        decreases rows@.len() - i,
    {
        assert(views_all.take(i + 1).drop_last() =~= views_all.take(i as int));
        assert(views_all.take(i + 1).last() == rows@[i as int]@);
        let r = &rows[i];
        let mut line: Vec<String> = Vec::new();
        line.push(escape(r.on_date.as_str()));
        line.push(number_field(r.txn_id));
        line.push(escape(r.account.as_str()));
        line.push(text_field(&r.account_kind));
        line.push(escape(r.description.as_str()));
        line.push(text_field(&r.payee));
        line.push(number_field(Some(r.amount_minor)));
        line.push(text_field(&r.amount_decimal));
        line.push(escape(r.currency.as_str()));
        line.push(number_field(r.minor_digits));
        line.push(escape(r.source.as_str()));
        assert(views(line@) =~= csv_fields(r@));
        let text = join(&line, ",");
        out.append(text.as_str());
        out.append("\n");
        i = i + 1;
    }
    assert(views_all.take(views_all.len() as int) =~= views_all);
    out
}

/// Whether a copy of the book may be written to a path: never over something that is there.
pub fn snapshot_db(path: &str, exists: bool) -> (r: Result<(), ExportError>)
    ensures
        match r {
            Ok(_) => !exists,
            Err(e) => exists && e.text() == path@ + " already exists"@,
        },
{
    if exists {
        let mut m = path.to_string();
        m.append(" already exists");
        return Err(ExportError::Io(m));
    }
    Ok(())
}

} // verus!
