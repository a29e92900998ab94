//! Requests: which there are, how far each may reach, and the code a refusal is answered with.

use crate::analysis::AnalysisError;
use crate::db::DbError;
use crate::entry::EntryError;
use crate::export::ExportError;
use crate::fx::FxError;
use crate::importer::{
    csv_headers, csv_records, read_headers, read_records, record_view, record_views, ImportError,
};
use crate::journey::JourneyError;
use crate::link::LinkError;
use crate::revise::{is_refusal, outcome_is};
use crate::text::{chars_of, starts_with, str_eq, trim, trimmed, views};
use crate::wording::{fail, EditError};
use vstd::prelude::*;

verus! {

broadcast use vstd::string::group_string_axioms;

/// The requests there are.
pub const METHODS: [&'static str; 80] = [
    "health.ping",
    "money.parse",
    "money.format",
    "db.check",
    "currency.list",
    "currency.create",
    "currency.delete",
    "account.create",
    "account.list",
    "account.rename",
    "account.close",
    "account.delete",
    "account.opening",
    "account.set_opening",
    "account.balances",
    "account.history",
    "txn.create",
    "txn.create_chain",
    "txn.get",
    "txn.list",
    "txn.rename",
    "txn.update",
    "txn.delete",
    "series.preview",
    "series.create",
    "series.create_chain",
    "series.list",
    "series.rename",
    "series.end",
    "series.override",
    "series.clear_override",
    "series.revise",
    "series.undo_change",
    "series.review",
    "scenario.create",
    "scenario.delete",
    "scenario.list",
    "forecast.project",
    "journey.create",
    "journey.list",
    "journey.get",
    "journey.attach",
    "journey.detach",
    "journey.close",
    "journey.for_txn",
    "fx.put_rate",
    "fx.rate",
    "fx.convert",
    "fx.fetch",
    "fx.position",
    "txn.convert",
    "interest.create_rule",
    "payment.create_rule",
    "interest.level_payment",
    "import.peek",
    "import.profiles",
    "import.batches",
    "import.create_profile",
    "import.stage",
    "import.categorise",
    "import.rows",
    "import.set_row",
    "import.commit",
    "import.revert",
    "import.create_rule",
    "export.bundle",
    "export.csv",
    "book.reset",
    "export.snapshot",
    "analysis.brief",
    "analysis.query",
    "analysis.schema",
    "analysis.tools",
    "txn.browse",
    "txn.descriptions",
    "link.create",
    "link.delete",
    "link.for_txn",
    "link.chain",
    "link.graph",
];

/// Whether a text names a request.
pub open spec fn is_method(m: Seq<char>) -> bool {
    exists|i: int| 0 <= i < METHODS@.len() && (#[trigger] METHODS@[i])@ == m
}

/// Whether there is such a request.
pub fn check_method(m: &str) -> (r: Result<(), EditError>)
    ensures
        outcome_is(
            r,
            if is_method(m@) {
                None
            } else {
                Some(("unknown_method"@, "no such method: "@ + m@))
            },
        ),
{
    let all = METHODS;
    let mut i: usize = 0;
    while i < all.len()
        invariant
            i <= all@.len(),
            all@ == METHODS@,
            forall|j: int| 0 <= j < i ==> (#[trigger] METHODS@[j])@ != m@,
        decreases all@.len() - i,
    {
        if str_eq(all[i], m) {
            assert(METHODS@[i as int]@ == m@);
            return Ok(());
        }
        i = i + 1;
    }
    let mut t = "no such method: ".to_string();
    t.append(m);
    Err(fail("unknown_method", t))
}

/// The code a refused payment is answered with.
pub fn entry_code(e: &EntryError) -> (r: &'static str)
    ensures
        r@ == (match e {
            EntryError::Unbalanced(_) => "unbalanced"@,
            EntryError::TooFewPostings => "too_few_postings"@,
            EntryError::NoSuchAccount(_) => "no_such_account"@,
            EntryError::SystemAccount(_) => "system_account"@,
            EntryError::NotFound(_) => "not_found"@,
            EntryError::Chain(_) => "bad_chain"@,
            EntryError::Invalid(_) => "bad_params"@,
        }),
{
    match e {
        EntryError::Unbalanced(_) => "unbalanced",
        EntryError::TooFewPostings => "too_few_postings",
        EntryError::NoSuchAccount(_) => "no_such_account",
        EntryError::SystemAccount(_) => "system_account",
        EntryError::NotFound(_) => "not_found",
        EntryError::Chain(_) => "bad_chain",
        EntryError::Invalid(_) => "bad_params",
    }
}

/// The code a refused journey is answered with.
pub fn journey_code(e: &JourneyError) -> (r: &'static str)
    ensures
        r@ == (match e {
            JourneyError::NotFound(_) => "not_found"@,
            JourneyError::NoSuchTxn(_) => "no_such_txn"@,
            JourneyError::OutOfRange(_) => "sql"@,
        }),
{
    match e {
        JourneyError::NotFound(_) => "not_found",
        JourneyError::NoSuchTxn(_) => "no_such_txn",
        JourneyError::OutOfRange(_) => "sql",
    }
}

/// The code a refused conversion is answered with.
pub fn fx_code(e: &FxError) -> (r: &'static str)
    ensures
        r@ == (match e {
            FxError::NoRate { .. } => "no_rate"@,
            FxError::UnknownCurrency(_) => "unknown_currency"@,
            FxError::SameCurrency(_) => "same_currency"@,
            FxError::BadRate(_) => "bad_rate"@,
        }),
{
    match e {
        FxError::NoRate { .. } => "no_rate",
        FxError::UnknownCurrency(_) => "unknown_currency",
        FxError::SameCurrency(_) => "same_currency",
        FxError::BadRate(_) => "bad_rate",
    }
}

/// The code a refused import is answered with.
pub fn import_code(e: &ImportError) -> (r: &'static str)
    ensures
        r@ == (match e {
            ImportError::NoProfile(_) => "no_profile"@,
            ImportError::NoBatch(_) => "no_batch"@,
            ImportError::BadMapping(_) => "bad_mapping"@,
            ImportError::AlreadyCommitted(_) => "already_committed"@,
            ImportError::Csv(_) => "csv"@,
            ImportError::NoAccount(_) => "sql"@,
            ImportError::OtherCurrency { .. } => "other_currency"@,
        }),
{
    match e {
        ImportError::NoProfile(_) => "no_profile",
        ImportError::NoBatch(_) => "no_batch",
        ImportError::BadMapping(_) => "bad_mapping",
        ImportError::AlreadyCommitted(_) => "already_committed",
        ImportError::Csv(_) => "csv",
        ImportError::NoAccount(_) => "sql",
        ImportError::OtherCurrency { .. } => "other_currency",
    }
}

/// The code a refused link is answered with.
pub fn link_code(e: &LinkError) -> (r: &'static str)
    ensures
        r@ == (match e {
            LinkError::NoSuchTxn(_) => "no_such_txn"@,
            LinkError::SelfLink => "self_link"@,
            LinkError::Exists(_, _) => "already_linked"@,
            LinkError::Unexpected(_) => "sql"@,
        }),
{
    match e {
        LinkError::NoSuchTxn(_) => "no_such_txn",
        LinkError::SelfLink => "self_link",
        LinkError::Exists(_, _) => "already_linked",
        LinkError::Unexpected(_) => "sql",
    }
}

/// The code a refused export is answered with.
pub fn export_code(e: &ExportError) -> (r: &'static str)
    ensures
        r@ == (match e {
            ExportError::Io(_) => "io"@,
        }),
{
    match e {
        ExportError::Io(_) => "io",
    }
}

/// The code a refused analysis is answered with.
pub fn analysis_code(e: &AnalysisError) -> (r: &'static str)
    ensures
        r@ == (match e {
            AnalysisError::Bad(_) => "bad_query"@,
        }),
{
    match e {
        AnalysisError::Bad(_) => "bad_query",
    }
}

/// The code a book that cannot be opened is answered with.
pub fn db_code(e: &DbError) -> (r: &'static str)
    ensures
        r@ == (match e {
            DbError::FromTheFuture { .. } => "db"@,
        }),
{
    match e {
        DbError::FromTheFuture { .. } => "db",
    }
}

/// A number no less than one bound and no more than another.
pub open spec fn within(n: int, lo: int, hi: int) -> int {
    if n < lo {
        lo
    } else if n > hi {
        hi
    } else {
        n
    }
}

/// How many months of history a brief looks back over: six where nothing is asked for.
pub fn brief_months(asked: Option<u64>) -> (r: u32)
    ensures
        r == within(
            match asked {
                Some(n) => n as int,
                None => 6,
            },
            1,
            120,
        ),
{
    match asked {
        None => 6,
        Some(n) => if n < 1 {
            1
        } else if n > 120 {
            120
        } else {
            n as u32
        },
    }
}

/// How many of the largest payments a brief names: ten where nothing is asked for.
pub fn brief_largest(asked: Option<u64>) -> (r: usize)
    ensures
        r == within(
            match asked {
                Some(n) => n as int,
                None => 10,
            },
            0,
            100,
        ),
{
    match asked {
        None => 10,
        Some(n) => if n > 100 {
            100
        } else {
            n as usize
        },
    }
}

/// How many rows a page holds: fifty where nothing is asked for.
pub fn page_limit(asked: Option<i64>) -> (r: i64)
    ensures
        r == within(
            match asked {
                Some(n) => n as int,
                None => 50,
            },
            1,
            500,
        ),
{
    match asked {
        None => 50,
        Some(n) => if n < 1 {
            1
        } else if n > 500 {
            500
        } else {
            n
        },
    }
}

/// Where a page starts: at the beginning where nothing is asked for.
pub fn page_offset(asked: Option<i64>) -> (r: i64)
    ensures
        r == (match asked {
            Some(n) => if n < 0 {
                0
            } else {
                n
            },
            None => 0,
        }),
{
    match asked {
        None => 0,
        Some(n) => if n < 0 {
            0
        } else {
            n
        },
    }
}

/// How many payments a thread is followed through: two hundred where nothing is asked for.
pub fn thread_limit(asked: Option<u64>) -> (r: usize)
    ensures
        r == within(
            match asked {
                Some(n) => n as int,
                None => 200,
            },
            1,
            2000,
        ),
{
    match asked {
        None => 200,
        Some(n) => if n < 1 {
            1
        } else if n > 2000 {
            2000
        } else {
            n as usize
        },
    }
}

/// The side on which an account of a shape accrues interest where none is given.
pub fn accrues_on(shape: &str, given: Option<&str>) -> (r: String)
    ensures
        r@ == (match given {
            Some(s) => s@,
            None => if shape@ == "savings"@ {
                "positive"@
            } else {
                "negative"@
            },
        }),
{
    match given {
        Some(s) => s.to_string(),
        None => if str_eq(shape, "savings") {
            "positive".to_string()
        } else {
            "negative".to_string()
        },
    }
}

/// How many periods a year has where none is given: its days for daily interest, its months
/// otherwise.
pub fn periods_per_year(freq: &str, given: Option<i64>) -> (r: i64)
    ensures
        r == (match given {
            Some(n) => n,
            None => if freq@ == "daily"@ {
                365
            } else {
                12
            },
        }),
{
    match given {
        Some(n) => n,
        None => if str_eq(freq, "daily") {
            365
        } else {
            12
        },
    }
}

/// What has to be said for the book to be emptied.
pub const RESET_TOKEN: &'static str = "DELETE";

/// Whether emptying the book is confirmed, so that a stray or replayed request cannot do it.
pub fn check_reset(confirm: &str) -> (r: Result<(), EditError>)
    ensures
        outcome_is(
            r,
            if confirm@ == RESET_TOKEN@ {
                None
            } else {
                Some(("not_confirmed"@, "book.reset requires confirm = \"DELETE\""@))
            },
        ),
{
    if str_eq(confirm, RESET_TOKEN) {
        Ok(())
    } else {
        Err(fail("not_confirmed", "book.reset requires confirm = \"DELETE\"".to_string()))
    }
}

/// Where the book is set aside before it is emptied.
pub fn backup_path(dir: &str, stamp: &str) -> (r: String)
    ensures
        r@ == dir@ + "/book-before-reset-"@ + stamp@ + ".db"@,
{
    let mut p = dir.to_string();
    p.append("/book-before-reset-");
    p.append(stamp);
    p.append(".db");
    p
}

/// Whether emptying the book empties a table: every one but the reference data and the book's own
/// record, so that one added later is not left full.
pub fn is_emptied(table: &str) -> (r: bool)
    ensures
        r == !("sqlite_"@.is_prefix_of(table@) || table@ == "currency"@ || table@ == "book_meta"@),
{
    !(starts_with(table, "sqlite_") || str_eq(table, "currency") || str_eq(table, "book_meta"))
}

/// The comma, by which a file is read before it has a profile.
pub const COMMA: u8 = 44;

/// How many line ends a text has.
pub open spec fn line_ends(s: Seq<char>) -> int
    decreases s.len(),
{
    if s.len() == 0 {
        0
    } else {
        line_ends(s.drop_last()) + (if s.last() == '\n' {
            1int
        } else {
            0
        })
    }
}

/// How many lines a text has: a line end closes one, and what stands behind the last is one too.
pub open spec fn line_count(s: Seq<char>) -> int {
    line_ends(s) + (if s.len() > 0 && s.last() != '\n' {
        1int
    } else {
        0
    })
}

fn count_lines(s: &str) -> (r: usize)
    ensures
        r == line_count(s@),
{
    let v = chars_of(s);
    let n: usize = v.len();
    let mut ends: usize = 0;
    let mut i: usize = 0;
    assert(v@.take(0) =~= Seq::<char>::empty());
    while i < n
        invariant
            i <= n,
            n == v@.len(),
            ends <= i,
            ends == line_ends(v@.take(i as int)),
            i > 0 && v@[i - 1] != '\n' ==> ends < i,
        decreases n - i,
    {
        assert(v@.take(i + 1).drop_last() =~= v@.take(i as int));
        if v[i] == '\n' {
            ends = ends + 1;
        }
        i = i + 1;
    }
    assert(v@.take(n as int) =~= v@);
    if n > 0 && v[n - 1] != '\n' {
        ends + 1
    } else {
        ends
    }
}

/// What a file holds, before anything is made of it.
#[derive(Debug, Clone)]
pub struct Peek {
    pub headers: Vec<String>,
    /// A few rows, by which a wrong mapping shows.
    pub sample: Vec<Vec<String>>,
    pub total_lines: usize,
}

/// Headers without the space around them.
pub open spec fn trimmed_all(h: Seq<Seq<char>>) -> Seq<Seq<char>> {
    h.map_values(|s: Seq<char>| trimmed(s))
}

/// The rows among the first records that can be read.
pub open spec fn readable(records: Seq<Result<Seq<Seq<char>>, Seq<char>>>) -> Seq<Seq<Seq<char>>>
    decreases records.len(),
{
    if records.len() == 0 {
        Seq::empty()
    } else {
        let rest = readable(records.drop_last());
        match records.last() {
            Ok(row) => rest.push(row),
            Err(_) => rest,
        }
    }
}

/// The first three records, or all there are.
pub open spec fn first_three(records: Seq<Result<Seq<Seq<char>>, Seq<char>>>) -> Seq<
    Result<Seq<Seq<char>>, Seq<char>>,
> {
    if records.len() < 3 {
        records
    } else {
        records.take(3)
    }
}

/// The contents of rows.
pub open spec fn row_views(v: Seq<Vec<String>>) -> Seq<Seq<Seq<char>>> {
    v.map_values(|r: Vec<String>| views(r@))
}

/// Whether this is what a file with some headers and records holds.
pub open spec fn is_peek(
    p: Peek,
    headers: Seq<Seq<char>>,
    records: Seq<Result<Seq<Seq<char>>, Seq<char>>>,
    text: Seq<char>,
) -> bool {
    &&& views(p.headers@) == trimmed_all(headers)
    &&& row_views(p.sample@) == readable(first_three(records))
    &&& p.total_lines == (if line_count(text) > 0 {
        line_count(text) - 1
    } else {
        0
    })
}

fn trim_all(h: &Vec<String>) -> (r: Vec<String>)
    ensures
        views(r@) == trimmed_all(views(h@)),
{
    let ghost all = trimmed_all(views(h@));
    let mut out: Vec<String> = Vec::new();
    let mut i: usize = 0;
    assert(views(out@) =~= all.take(0));
    while i < h.len()
        invariant
            i <= h@.len(),
            all == trimmed_all(views(h@)),
            views(out@) =~= all.take(i as int),
        decreases h@.len() - i,
    {
        let t = trim(h[i].as_str());
        assert(t@ == all[i as int]);
        assert(views(out@.push(t)) =~= views(out@).push(t@));
        assert(all.take(i + 1) =~= all.take(i as int).push(t@));
        out.push(t);
        i = i + 1;
    }
    assert(all.take(all.len() as int) =~= all);
    out
}

fn copy_row(row: &Vec<String>) -> (r: Vec<String>)
    ensures
        views(r@) == views(row@),
{
    let ghost all = views(row@);
    let mut out: Vec<String> = Vec::new();
    let mut i: usize = 0;
    assert(views(out@) =~= all.take(0));
    while i < row.len()
        invariant
            i <= row@.len(),
            all == views(row@),
            views(out@) =~= all.take(i as int),
        decreases row@.len() - i,
    {
        let t = row[i].clone();
        assert(views(out@.push(t)) =~= views(out@).push(t@));
        assert(all.take(i + 1) =~= all.take(i as int).push(t@));
        out.push(t);
        i = i + 1;
    }
    assert(all.take(all.len() as int) =~= all);
    out
}

/// What a file holds, given its headers and records as the reader hands them out.
pub fn peek_given(
    headers: &Vec<String>,
    records: &Vec<Result<Vec<String>, String>>,
    text: &str,
) -> (r: Peek)
    ensures
        is_peek(r, views(headers@), record_views(records@), text@),
{
    let ghost all = record_views(records@);
    let n: usize = if records.len() < 3 {
        records.len()
    } else {
        3
    };
    let ghost few = first_three(all);
    let mut sample: Vec<Vec<String>> = Vec::new();
    let mut i: usize = 0;
    assert(few.take(0) =~= Seq::<Result<Seq<Seq<char>>, Seq<char>>>::empty());
    assert(row_views(sample@) =~= Seq::<Seq<Seq<char>>>::empty());
    while i < n
        invariant
            i <= n,
            n <= records@.len(),
            all == record_views(records@),
            few == first_three(all),
            few.len() == n,
            row_views(sample@) == readable(few.take(i as int)),
        decreases n - i,
    {
        assert(few.take(i + 1).drop_last() =~= few.take(i as int));
        assert(few.take(i + 1).last() == record_view(records@[i as int]));
        if let Ok(row) = &records[i] {
            let own = copy_row(row);
            assert(row_views(sample@.push(own)) =~= row_views(sample@).push(views(own@)));
            sample.push(own);
        }
        i = i + 1;
    }
    assert(few.take(n as int) =~= few);
    let lines: usize = count_lines(text);
    Peek {
        headers: trim_all(headers),
        sample,
        total_lines: if lines > 0 {
            lines - 1
        } else {
            0
        },
    }
}

/// What a file holds, without staging anything, so that a mapping can be made from the real column
/// names.
pub fn peek(text: &str) -> (r: Result<Peek, EditError>)
    ensures
        match csv_headers(text@, COMMA) {
            Ok(h) => r matches Ok(p) && is_peek(p, h, csv_records(text@, COMMA), text@),
            Err(m) => r matches Err(e) && is_refusal(e, ("csv"@, m)),
        },
{
    match read_headers(text, COMMA) {
        Ok(h) => {
            let records = read_records(text, COMMA);
            Ok(peek_given(&h, &records, text))
        },
        Err(m) => Err(fail("csv", m)),
    }
}

} // verus!
