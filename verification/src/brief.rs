//! The brief: the computed picture of a book, and what it cannot tell; and the rules for drilling
//! down with a query.

use crate::analysis::{
    first_of_month, is_position, month_start, months_away, position, shift_months, totals_fit,
    AnalysisError, Position,
};
use crate::commitments::{commitments, shows, Commitments};
use crate::date::{
    civil, day_number, iso, month_len, year_end, Date, MAX_YEAR, MIN_DAYS, MIN_YEAR,
};
use crate::digits::{int_digits, int_text};
use crate::forecast::{
    leaves_range, point_views, project, projects, some_refused, ProjectError, Projection, Snapshot,
};
use crate::ledger::entry_views;
use crate::limits::{limit_views, limits, limits_of, sums_fit, BookFacts, Limit};
use crate::months::{
    all_cells, are_expenses, are_months, are_typical, at_most, expenses_in, history, largest,
    monthly, months_fit, typical, Expense, Month, Typical,
};
use crate::outlook::{outlook, some_go_under, track_views, tracks, Outlook};
use crate::recur::Recurrence;
use crate::sorting::ranked;
use std::collections::HashSet;
use vstd::prelude::*;

verus! {

broadcast use {vstd::string::group_string_axioms, vstd::std_specs::hash::group_hash_axioms};

/// What a brief asks for.
#[derive(Debug, Clone, Copy)]
pub struct BriefOptions {
    pub as_of: Date,
    /// Complete calendar months of history to summarise.
    pub months: u32,
    /// How far forward the outlook projects.
    pub horizon: Date,
    pub largest_n: usize,
}

/// The window of history a brief covers.
#[derive(Debug, Clone, Copy)]
pub struct Window {
    pub from: Date,
    pub to: Date,
    /// How many complete months were asked for and lie in it.
    pub complete: usize,
    /// The first day of the month in progress, which it leaves out.
    pub excludes: Date,
}

/// The last day before a month's first, as far as days are supported.
pub open spec fn day_before(month: int, as_of: int) -> int {
    if month > MIN_DAYS {
        month - 1
    } else {
        as_of
    }
}

/// The window of history: it ends at the last day of the last complete month. Including the month in
/// progress is the single most reliable way to manufacture a downward trend that does not exist.
pub fn history_window(as_of: Date, months: u32) -> (r: Window)
    requires
        as_of.in_range(),
        months <= i32::MAX,
    ensures
        r.excludes.days == first_of_month(as_of.days as int),
        r.to.days == day_before(first_of_month(as_of.days as int), as_of.days as int),
        r.from.days == months_away(first_of_month(as_of.days as int), -(months as int)),
        r.complete == (if r.to.days < r.from.days {
            0int
        } else {
            months as int
        }),
{
    let excludes = month_start(as_of);
    let to = match excludes.pred_opt() {
        Some(d) => d,
        None => as_of,
    };
    let from = shift_months(excludes, -(months as i32));
    let complete: usize = if to.days < from.days {
        0
    } else {
        months as usize
    };
    Window { from, to, complete, excludes }
}

/// The computed picture of a book.
#[derive(Debug, Clone)]
pub struct Brief {
    pub window: Window,
    pub position: Position,
    /// The end of the year over which commitments are counted.
    pub year_end: Date,
    pub commitments: Commitments,
    pub months: Vec<Month>,
    pub typical: Vec<Typical>,
    pub largest: Vec<Expense>,
    pub outlook: Outlook,
    pub projected_movements: usize,
    pub limits: Vec<Limit>,
}

/// The day half a year on: the same day of that month, or its last where it has no such day.
pub open spec fn half_year_on(n: int) -> int {
    let (y, m, d) = civil(n);
    let y2 = y + (m + 5) / 12;
    let m2 = (m + 5) % 12 + 1;
    if y2 > MAX_YEAR {
        n
    } else {
        day_number(
            y2,
            m2,
            if d < month_len(y2, m2) {
                d
            } else {
                month_len(y2, m2)
            },
        )
    }
}

/// The day a brief looks ahead to where none is given.
pub fn default_horizon(as_of: Date) -> (r: Date)
    requires
        as_of.in_range(),
    ensures
        r.days == half_year_on(as_of.days as int),
        r.in_range(),
{
    let (y, m, d) = as_of.ymd();
    let y2: i32 = y + ((m + 5) / 12) as i32;
    let m2: u32 = (m + 5) % 12 + 1;
    if y2 > MAX_YEAR {
        return as_of;
    }
    let mut day: u32 = d;
    while day > 28
        invariant
            28 <= day <= d || day == d,
            1 <= d <= 31,
            1 <= m2 <= 12,
            MIN_YEAR <= y2 <= MAX_YEAR,
            day < d ==> month_len(y2 as int, m2 as int) <= day,
            as_of.in_range(),
            (y as int, m as int, d as int) == civil(as_of.days as int),
            y2 == y + (m + 5) / 12,
            m2 == (m + 5) % 12 + 1,
        decreases day,
    {
        match Date::from_ymd_opt(y2, m2, day) {
            Some(r) => return r,
            None => {
                day = day - 1;
            },
        }
    }
    match Date::from_ymd_opt(y2, m2, day) {
        Some(r) => r,
        None => as_of,
    }
}

/// Whether a projection of a snapshot, no scenario active, may fail with a reason.
pub open spec fn fails_with<R: Recurrence>(
    recur: R,
    snap: Snapshot,
    as_of: Date,
    horizon: Date,
    e: ProjectError,
) -> bool {
    match e {
        ProjectError::OutOfRange => leaves_range(recur, snap, Set::empty(), as_of, horizon),
        ProjectError::Recur(x) => some_refused(
            recur,
            snap,
            Set::empty(),
            as_of,
            horizon,
            x.text(),
        ),
    }
}

/// Whether a projection of a snapshot, no scenario active, may come out.
pub open spec fn comes_out<R: Recurrence>(
    recur: R,
    snap: Snapshot,
    as_of: Date,
    horizon: Date,
) -> bool {
    exists|p: Projection| #[trigger] projects(recur, snap, Set::empty(), as_of, horizon, p)
}

/// Whether a brief's commitments are those of the coming year.
pub open spec fn commits<R: Recurrence>(recur: R, b: Brief, snap: Snapshot, as_of: Date) -> bool {
    exists|p: Projection| #[trigger]
        projects(recur, snap, Set::empty(), as_of, b.year_end, p) && shows(
            b.commitments,
            snap.series@,
            p.occurrences@,
        )
}

/// Whether a brief's outlook is that of the projection to its horizon.
pub open spec fn looks_ahead<R: Recurrence>(
    recur: R,
    b: Brief,
    facts: BookFacts,
    snap: Snapshot,
    as_of: Date,
    horizon: Date,
) -> bool {
    exists|p: Projection| #[trigger]
        projects(recur, snap, Set::empty(), as_of, horizon, p) && track_views(
            b.outlook.accounts@,
        ) == tracks(facts.accounts@, point_views(p.balances@)) && b.outlook.goes_negative
            == some_go_under(track_views(b.outlook.accounts@)) && b.projected_movements
            == p.occurrences@.len()
}

/// Whether a brief's history is that of its window.
pub open spec fn remembers(b: Brief, facts: BookFacts, n: usize) -> bool {
    let entries = entry_views(facts.entries@);
    let from = iso(b.window.from.days as int);
    let to = iso(b.window.to.days as int);
    &&& are_months(b.months@, history(entries, from, to))
    &&& exists|rows: Seq<Typical>| #[trigger]
        are_typical(rows, all_cells(b.months@)) && b.typical@ == ranked(rows)
    &&& exists|x: Seq<Expense>| #[trigger]
        are_expenses(x, expenses_in(entries, from, to)) && b.largest@ == at_most(
            ranked(x),
            n as int,
        )
}

/// The computed picture of a book: where the money is, what recurs, what was normal, what is ahead,
/// and what the book cannot tell.
pub fn brief<R: Recurrence>(recur: &R, facts: &BookFacts, snap: &Snapshot, opt: &BriefOptions) -> (r:
    Result<Brief, AnalysisError>)
    requires
        opt.as_of.in_range(),
        opt.horizon.in_range(),
        opt.months <= i32::MAX,
        facts.scales.workable(),
        snap.series@.len() <= i64::MAX,
    ensures
        ({
            let entries = entry_views(facts.entries@);
            let as_of = opt.as_of.days as int;
            let month = first_of_month(as_of);
            let from = months_away(month, -(opt.months as int));
            let to = day_before(month, as_of);
            let hist = history(entries, iso(from), iso(to));
            match r {
                Ok(b) => {
                    &&& b.window.from.days == from
                    &&& b.window.to.days == to
                    &&& b.window.excludes.days == month
                    &&& b.window.complete == (if to < from {
                        0int
                    } else {
                        opt.months as int
                    })
                    &&& is_position(b.position, entries, iso(as_of))
                    &&& b.year_end.days == year_end(as_of)
                    &&& commits(*recur, b, *snap, opt.as_of)
                    &&& remembers(b, *facts, opt.largest_n)
                    &&& looks_ahead(*recur, b, *facts, *snap, opt.as_of, opt.horizon)
                    &&& limit_views(b.limits@) == limits_of(
                        *facts,
                        as_of,
                        from,
                        b.months@.len() as int,
                    )
                    &&& months_fit(hist)
                    &&& totals_fit(crate::analysis::held(entries, iso(as_of)))
                    &&& sums_fit(*facts, from)
                },
                Err(e) => {
                    let year = Date { days: year_end(as_of) as i32 };
                    if !months_fit(hist) || !totals_fit(crate::analysis::held(entries, iso(as_of))) {
                        e.text() == "integer overflow"@
                    } else {
                        ||| exists|x: ProjectError|
                            #[trigger] fails_with(*recur, *snap, opt.as_of, year, x) && e.text()
                                == x.text()
                        ||| comes_out(*recur, *snap, opt.as_of, year) && exists|x: ProjectError|
                            #[trigger] fails_with(*recur, *snap, opt.as_of, opt.horizon, x)
                                && e.text() == x.text()
                        ||| comes_out(*recur, *snap, opt.as_of, year) && comes_out(
                            *recur,
                            *snap,
                            opt.as_of,
                            opt.horizon,
                        ) && !sums_fit(*facts, from) && e.text() == "integer overflow"@
                    }
                },
            }
        }),
{
    let window = history_window(opt.as_of, opt.months);
    let from = window.from.to_text();
    let to = window.to.to_text();
    let today = opt.as_of.to_text();
    let months = match monthly(&facts.entries, from.as_str(), to.as_str()) {
        Ok(v) => v,
        Err(e) => {
            return Err(e);
        },
    };
    let position = match position(&facts.entries, today.as_str()) {
        Ok(p) => p,
        Err(e) => {
            return Err(e);
        },
    };
    let none: HashSet<i64> = HashSet::new();
    assert(none@ =~= Set::<i64>::empty());
    let year_end = opt.as_of.year_end();
    let year = match project(recur, snap, opt.as_of, year_end, &none) {
        Ok(p) => p,
        Err(e) => {
            assert(fails_with(*recur, *snap, opt.as_of, year_end, e));
            return Err(AnalysisError::Bad(e.to_text()));
        },
    };
    assert(projects(*recur, *snap, Set::empty(), opt.as_of, year_end, year));
    let commitments = commitments(&snap.series, &year.occurrences);
    let typical = typical(&months);
    let largest = largest(&facts.entries, from.as_str(), to.as_str(), opt.largest_n);
    let ahead = match project(recur, snap, opt.as_of, opt.horizon, &none) {
        Ok(p) => p,
        Err(e) => {
            assert(fails_with(*recur, *snap, opt.as_of, opt.horizon, e));
            return Err(AnalysisError::Bad(e.to_text()));
        },
    };
    assert(projects(*recur, *snap, Set::empty(), opt.as_of, opt.horizon, ahead));
    let outlook = outlook(&facts.accounts, &ahead.balances);
    let projected_movements: usize = ahead.occurrences.len();
    let limits = match limits(facts, opt.as_of, window.from, months.len()) {
        Ok(v) => v,
        Err(e) => {
            return Err(e);
        },
    };
    let b = Brief {
        window,
        position,
        year_end,
        commitments,
        months,
        typical,
        largest,
        outlook,
        projected_movements,
        limits,
    };
    assert(projects(*recur, *snap, Set::empty(), opt.as_of, b.year_end, year));
    assert(projects(*recur, *snap, Set::empty(), opt.as_of, opt.horizon, ahead));
    assert(commits(*recur, b, *snap, opt.as_of));
    assert(looks_ahead(*recur, b, *facts, *snap, opt.as_of, opt.horizon));
    assert(remembers(b, *facts, opt.largest_n));
    Ok(b)
}

/// Rows the reader is allowed back from one query. A cap exists so that a model asking for
/// everything gets a truncation flag rather than a context overflow it will not notice.
pub const MAX_ROWS: usize = 2000;

/// How many steps a query may burn before it is interrupted. A cartesian join is easy to write by
/// accident and would otherwise wedge a server with nobody to cancel it.
pub const STEP_BUDGET: usize = 200_000;

/// How many steps go by between two looks at the budget.
pub const STEP_LOOK: usize = 1000;

/// How many rows a query that asks for a number of them may have.
pub fn row_limit(asked: usize) -> (r: usize)
    ensures
        r == (if asked < 1 {
            1int
        } else if asked > MAX_ROWS {
            MAX_ROWS as int
        } else {
            asked as int
        }),
{
    if asked < 1 {
        1
    } else if asked > MAX_ROWS {
        MAX_ROWS
    } else {
        asked
    }
}

/// The steps a query has burned at the next look, and whether it is to be interrupted.
pub fn burn(steps: usize) -> (r: (usize, bool))
    requires
        steps <= STEP_BUDGET + STEP_LOOK,
    ensures
        r.0 == steps + STEP_LOOK,
        r.1 == (steps + STEP_LOOK > STEP_BUDGET),
{
    let now: usize = steps + STEP_LOOK;
    (now, now > STEP_BUDGET)
}

/// Take a row of an answer, unless it has as many as it may: then the answer is cut short.
pub fn take_row<T>(rows: &mut Vec<T>, row: T, limit: usize) -> (taken: bool)
    ensures
        taken == (old(rows)@.len() < limit),
        final(rows)@ == (if taken {
            old(rows)@.push(row)
        } else {
            old(rows)@
        }),
{
    if rows.len() >= limit {
        return false;
    }
    rows.push(row);
    true
}

/// What a block of bytes is shown as.
pub fn blob_text(len: usize) -> (r: String)
    ensures
        r@ == "<"@ + int_digits(len as int) + " bytes>"@,
{
    let mut out = "<".to_string();
    let n = int_text(len as i128);
    out.append(n.as_str());
    out.append(" bytes>");
    out
}

/// What is said of an answer.
pub fn query_note(limit: usize, truncated: bool) -> (r: String)
    ensures
        r@ == (if truncated {
            "stopped at "@ + int_digits(limit as int)
                + " rows -- add LIMIT, or aggregate, rather than assuming this is all of them"@
        } else {
            "complete result"@
        }),
{
    if truncated {
        let mut out = "stopped at ".to_string();
        let n = int_text(limit as i128);
        out.append(n.as_str());
        out.append(" rows -- add LIMIT, or aggregate, rather than assuming this is all of them");
        out
    } else {
        "complete result".to_string()
    }
}

/// Where a reader of the schema starts.
pub const START_HERE: [&'static str; 5] = [
    "v_ledger_line is one row per POSTING with the account, the date, a pre-formatted amount_decimal and the series it came from. It is the right table for almost every question about what happened.",
    "v_export_facts is one row per account per currency with its closing balance.",
    "Aggregate in SQL. SUM(), GROUP BY and strftime('%Y-%m', on_date) are exact here and are not exact when done by reading rows.",
    "The three v_check_* views must return zero rows. If any returns a row, stop.",
    "A recurring chain is several series rows sharing chain_id, one per leg; when summing commitments count only chain_seq = 0 (or NULL), or the same money is counted once per leg.",
];

/// The order in which an agent is told to call things.
pub const SUGGESTED_ORDER: [&'static str; 3] = [
    "analysis.brief once, to get the computed picture and its limits",
    "analysis.schema if you intend to query",
    "analysis.query as many times as needed, to answer specifics",
];

/// What an agent may call.
pub const TOOL_NAMES: [&'static str; 5] = [
    "analysis.brief",
    "analysis.query",
    "analysis.schema",
    "forecast.project",
    "export.bundle",
];

/// What each of those does.
pub const TOOL_DESCRIPTIONS: [&'static str; 5] = [
    "The computed financial picture: balances, what recurs and its true monthly cost, complete-month history, medians and deviations, the largest expenses, the forward outlook, and what the book cannot tell you.",
    "Read-only SQL against the book. The connection is opened read-only, so writes are refused by the database, not by a filter.",
    "Every table and view with its DDL and comments, plus which views to start from.",
    "The full projection, including scenario overlays, when the brief's summarised outlook is not enough.",
    "The whole ledger as JSON. Large. Prefer analysis.query unless you genuinely need every line.",
];

/// Something an agent may call.
#[derive(Debug, Clone, Copy)]
pub struct Tool {
    pub name: &'static str,
    pub description: &'static str,
}

/// What an agent may call. Handed to a model up front, this is the difference between one that asks
/// for a data dump and one that asks a question.
pub fn tools() -> (r: Vec<Tool>)
    ensures
        r@.len() == TOOL_NAMES@.len(),
        forall|i: int|
            0 <= i < r@.len() ==> (#[trigger] r@[i]).name@ == TOOL_NAMES@[i]@
                && r@[i].description@ == TOOL_DESCRIPTIONS@[i]@,
{
    let mut out: Vec<Tool> = Vec::new();
    let mut i: usize = 0;
    while i < 5
        invariant
            i <= 5,
            out@.len() == i,
            forall|j: int|
                0 <= j < i ==> (#[trigger] out@[j]).name@ == TOOL_NAMES@[j]@
                    && out@[j].description@ == TOOL_DESCRIPTIONS@[j]@,
        decreases 5 - i,
    {
        out.push(Tool { name: TOOL_NAMES[i], description: TOOL_DESCRIPTIONS[i] });
        i = i + 1;
    }
    out
}

} // verus!
