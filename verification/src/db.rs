//! Which schema a book is at, and what brings it up to date.
//!
//! Migrations are keyed on the version the book records of itself, so the value is visible to
//! anything reading the file.

use crate::digits::{int_digits, int_text, number_in, parse_i64};
use vstd::prelude::*;

verus! {

broadcast use vstd::string::group_string_axioms;

/// Every migration in order, by the file that holds it. Index + 1 is the version it brings the book
/// to, so appending is the only supported edit -- never reorder, never rewrite a landed one.
pub const MIGRATIONS: [&'static str; 4] = [
    "0001_init.sql",
    "0002_txn_link.sql",
    "0003_role_account_pins.sql",
    "0004_series_chain.sql",
];

/// The version this build brings a book to.
pub fn current_version() -> (r: i64)
    ensures
        r == MIGRATIONS@.len(),
        r == 4,
{
    MIGRATIONS.len() as i64
}

/// Why a book was not opened.
#[derive(Debug)]
pub enum DbError {
    /// The file was written by a newer build. Refuse rather than guess: a forward migration we do
    /// not have could mean columns we would silently ignore.
    FromTheFuture { found: i64, known: i64 },
}

impl DbError {
    /// The message, as a sequence of characters.
    pub open spec fn text(self) -> Seq<char> {
        match self {
            DbError::FromTheFuture { found, known } => "book is schema version "@ + int_digits(
                found as int,
            ) + " but this build only knows "@ + int_digits(known as int)
                + " -- upgrade minka-ledger"@,
        }
    }

    /// The message a person reads.
    pub fn to_text(&self) -> (r: String)
        ensures
            r@ == self.text(),
    {
        match self {
            DbError::FromTheFuture { found, known } => {
                let mut out = "book is schema version ".to_string();
                let f = int_text(*found as i128);
                let k = int_text(*known as i128);
                out.append(f.as_str());
                out.append(" but this build only knows ");
                out.append(k.as_str());
                out.append(" -- upgrade minka-ledger");
                out
            },
        }
    }
}

/// The version a book records: an absent or unreadable record means a brand new book.
pub open spec fn recorded_version(record: Option<Seq<char>>) -> int {
    match record {
        Some(s) => match number_in(s, i64::MIN as int, i64::MAX as int) {
            Some(n) => n,
            None => 0,
        },
        None => 0,
    }
}

/// The version a book records.
pub fn read_version(record: Option<&str>) -> (r: i64)
    ensures
        r == recorded_version(crate::roles::str_view(record)),
{
    match record {
        Some(s) => match parse_i64(s) {
            Some(n) => n,
            None => 0,
        },
        None => 0,
    }
}

/// The place of the first migration that a book at a version still needs; every later one follows.
pub open spec fn first_pending(found: int) -> int {
    if 0 <= found <= MIGRATIONS@.len() {
        found
    } else {
        MIGRATIONS@.len() as int
    }
}

/// Which migrations bring a book at version `found` up to date: the place of the first, every later
/// one following. Each is applied in a transaction of its own, so a failure leaves the book at the
/// last good version rather than half-applied.
pub fn migrate(found: i64) -> (r: Result<usize, DbError>)
    ensures
        match r {
            Ok(first) => found <= 4 && first == first_pending(found as int),
            Err(e) => found > 4 && e == (DbError::FromTheFuture { found, known: 4 }),
        },
{
    let known: i64 = current_version();
    if found > known {
        return Err(DbError::FromTheFuture { found, known });
    }
    if found < 0 {
        return Ok(known as usize);
    }
    Ok(found as usize)
}

/// A book is brought up one version by each migration, and one that is up to date needs none.
pub proof fn law_migrations_end_at_the_current_version(found: int)
    requires
        0 <= found <= MIGRATIONS@.len(),
    ensures
        found < MIGRATIONS@.len() ==> first_pending(found + 1) == first_pending(found) + 1,
        first_pending(MIGRATIONS@.len() as int) == MIGRATIONS@.len(),
{
}

/// The views that find what no operator can cause. Any non-empty result is a book-level bug.
pub const CHECKS: [&'static str; 3] = [
    "v_check_txn_unbalanced",
    "v_check_book_unbalanced",
    "v_check_missing_conversion",
];

/// Whether a book is sound: none of the checks finds anything.
pub fn integrity(counts: &Vec<i64>) -> (ok: bool)
    ensures
        ok == forall|i: int| 0 <= i < counts@.len() ==> #[trigger] counts@[i] == 0,
{
    let mut i: usize = 0;
    while i < counts.len()
        invariant
            i <= counts@.len(),
            forall|j: int| 0 <= j < i ==> #[trigger] counts@[j] == 0,
        decreases counts@.len() - i,
    {
        if counts[i] != 0 {
            return false;
        }
        i = i + 1;
    }
    true
}

} // verus!
