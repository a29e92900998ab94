//! What the desk does with a request.

use crate::analysis::{first_of_month, months_away};
use crate::ask::{
    day_in, edit_refusal, is_edit_asked, is_list_asked, undo_ask_refusal, AskedEdit, RawEdit,
    RawUndo,
};
use crate::book::{account_of, known, Account};
use crate::brief::{history_window, Window};
use crate::date::Date;
use crate::desk::{
    against_equity, currency_removal_refusal, opening_amount, opening_place, opening_refusal,
    removal_refusal, rename_refusal, set_opening, shape_refusal, OpeningEdit, Uses,
};
use crate::ledger::BookEntry;
use crate::lists::lemma_first_is;
use crate::money::Minor;
use crate::requests::line_count;
use crate::revise::{left_out, Param};
use crate::roles::reservation;
use crate::text::{
    lemma_text_irreflexive, lemma_text_total, lemma_text_transitive, text_lt, trimmed,
};
use crate::wording::EditError;
use vstd::prelude::*;

verus! {

/// Setting an opening balance to nothing takes away the one there is; to an amount, changes the one
/// there is or writes one; and an account that is itself a counterweight, or is the core's own, or is
/// not there, has none.
pub proof fn law_an_opening_balance_is_written_changed_or_taken_away(
    accounts: &Vec<Account>,
    id: i64,
    amount: Minor,
    existing: Option<i64>,
    r: Result<OpeningEdit, EditError>,
)
    requires
        call_ensures(set_opening, (accounts, id, amount, existing), r),
    ensures
        r is Err <==> !known(accounts@, id) || account_of(accounts@, id).kind@ == "equity"@
            || account_of(accounts@, id).system,
        r is Ok && amount == 0 ==> (existing matches Some(t) ==> r->Ok_0 == OpeningEdit::Remove(t)),
        r is Ok && amount != 0 ==> (existing matches Some(t) ==> r->Ok_0 == OpeningEdit::Update(t)),
        r is Ok && existing is None ==> r->Ok_0 == (if amount == 0 {
            OpeningEdit::Nothing
        } else {
            OpeningEdit::Create
        }),
{
}

/// An account starts with the balance it is given, unless that is nothing or the account is a
/// counterweight.
pub proof fn law_an_account_starts_with_what_it_is_given(
    kind: &str,
    amount: Option<Minor>,
    r: Option<Minor>,
)
    requires
        call_ensures(opening_amount, (kind, amount), r),
    ensures
        r is Some <==> amount is Some && amount->0 != 0 && kind@ != "equity"@,
        r is Some ==> r == amount,
{
}

/// A currency can be removed exactly where nothing uses it, it is not the one displayed, and it is
/// there.
pub proof fn law_a_currency_in_use_stays(code: Seq<char>, uses: i64, display: Seq<char>, known: bool)
    ensures
        currency_removal_refusal(code, uses, display, known) is None <==> uses <= 0 && display != code
            && known,
{
}

/// An account can be renamed exactly where the name is more than white space, the account is there
/// and not the core's own, the name is not one that the book keeps unless it is its own, and no other
/// account has it.
pub proof fn law_an_account_can_be_renamed_to_what_is_free(
    accounts: Seq<Account>,
    id: i64,
    name: Seq<char>,
)
    ensures
        rename_refusal(accounts, id, name) is None <==> {
            &&& trimmed(name).len() > 0
            &&& known(accounts, id)
            &&& !account_of(accounts, id).system
            &&& trimmed(name) == account_of(accounts, id).name@ || reservation(trimmed(name)) is None
            &&& forall|i: int|
                0 <= i < accounts.len() ==> (#[trigger] accounts[i]).name@ != trimmed(name)
                    || accounts[i].id == id
        },
{
    let p = crate::desk::has_name(accounts, trimmed(name), id);
    lemma_first_is(accounts.len() as int, p);
    let at = crate::lists::first(accounts.len() as int, p);
    if at < accounts.len() {
        assert(p(at));
        assert(accounts[at].name@ == trimmed(name));
    } else {
        assert forall|i: int| 0 <= i < accounts.len() implies (#[trigger] accounts[i]).name@
            != trimmed(name) || accounts[i].id == id by {
            assert(!p(i));
        }
    }
}

/// An account can be removed exactly where it is there, is not the core's own and nothing uses it.
pub proof fn law_an_account_in_use_stays(accounts: Seq<Account>, id: i64, u: Uses)
    ensures
        removal_refusal(accounts, id, u) is None <==> known(accounts, id) && !account_of(
            accounts,
            id,
        ).system && u.transactions <= 0 && u.recurring <= 0 && u.rules <= 0 && u.imports <= 0
            && u.children <= 0,
{
}

/// An account has an opening balance where it is there, is not a counterweight and not the core's
/// own; and only one of two postings can be changed.
pub proof fn law_a_counterweight_has_no_opening_balance(
    accounts: Seq<Account>,
    id: i64,
    txn: i64,
    near: usize,
    far: usize,
)
    ensures
        opening_refusal(accounts, id) is None <==> known(accounts, id) && account_of(accounts, id).kind@
            != "equity"@ && !account_of(accounts, id).system,
        shape_refusal(txn, near, far) is None <==> near == 1 && far == 1,
{
}

/// An account's opening balance is the earliest of its postings whose transaction also posts to
/// equity, the first recorded of one day.
pub proof fn law_the_opening_balance_is_the_earliest_against_equity(
    entries: Seq<BookEntry>,
    id: i64,
    n: int,
    i: int,
)
    requires
        0 <= i < n <= entries.len(),
        entries[i].account_id == id,
        against_equity(entries, entries[i].txn_id),
    ensures
        opening_place(entries, id, n) matches Some(k) && 0 <= k < n && entries[k].account_id == id
            && against_equity(entries, entries[k].txn_id) && !text_lt(
            entries[i].occurred_on@,
            entries[k].occurred_on@,
        ) && (entries[i].occurred_on@ == entries[k].occurred_on@ ==> entries[k].txn_id
            <= entries[i].txn_id),
    decreases n,
{
    let e = entries[n - 1];
    if opening_place(entries, id, n - 1) is Some {
        lemma_opening(entries, id, n - 1);
        let k = opening_place(entries, id, n - 1)->0;
        lemma_text_irreflexive(e.occurred_on@);
        if i < n - 1 {
            law_the_opening_balance_is_the_earliest_against_equity(entries, id, n - 1, i);
            if text_lt(e.occurred_on@, entries[k].occurred_on@) {
                if text_lt(entries[i].occurred_on@, e.occurred_on@) {
                    lemma_text_transitive(
                        entries[i].occurred_on@,
                        e.occurred_on@,
                        entries[k].occurred_on@,
                    );
                }
            }
        } else {
            lemma_text_total(e.occurred_on@, entries[k].occurred_on@);
        }
    } else {
        lemma_text_irreflexive(e.occurred_on@);
        if i < n - 1 {
            law_the_opening_balance_is_the_earliest_against_equity(entries, id, n - 1, i);
        }
    }
}

proof fn lemma_opening(entries: Seq<BookEntry>, id: i64, n: int)
    ensures
        opening_place(entries, id, n) matches Some(k) ==> 0 <= k < n && entries[k].account_id == id
            && against_equity(entries, entries[k].txn_id),
    decreases n,
{
    if n > 0 {
        lemma_opening(entries, id, n - 1);
    }
}

/// Whether a value is a day, or left out.
pub open spec fn day_or_nothing(p: Param) -> bool {
    left_out(p) || day_in(p) is Some
}

/// Whether a value is a list of whole numbers, or left out.
pub open spec fn list_or_nothing(p: Param) -> bool {
    left_out(p) || (p is List && forall|i: int|
        0 <= i < p->List_0@.len() ==> (#[trigger] p->List_0@[i]) is Some)
}

/// Whether a value is true or false, or left out.
pub open spec fn flag_or_nothing(p: Param) -> bool {
    left_out(p) || p is Bool
}

/// An edit can be read exactly where each of its values is of its own kind or left out: an id and a
/// day are needed, and a day to change from where the change is from a date.
pub proof fn law_an_edit_is_read_where_every_value_is_of_its_kind(q: RawEdit)
    ensures
        edit_refusal(q) is None <==> {
            let mode = if q.mode is Text {
                q.mode->Text_0@
            } else {
                "whole"@
            };
            let amends = if q.amends is Text {
                q.amends->Text_0@
            } else {
                "keep"@
            };
            &&& q.id is Int
            &&& day_in(q.as_of) is Some
            &&& mode == "whole"@ || mode == "from"@
            &&& day_or_nothing(q.from_on)
            &&& mode == "from"@ ==> !left_out(q.from_on)
            &&& left_out(q.description) || q.description is Text
            &&& left_out(q.rrule) || q.rrule is Text
            &&& left_out(q.weekend_rule) || q.weekend_rule is Text
            &&& day_or_nothing(q.dtstart)
            &&& day_or_nothing(q.until_on)
            &&& list_or_nothing(q.route)
            &&& list_or_nothing(q.amounts)
            &&& amends == "keep"@ || amends == "follow"@
            &&& flag_or_nothing(q.drop_overrides)
            &&& flag_or_nothing(q.acknowledge_due)
            &&& flag_or_nothing(q.dry_run)
        },
{
}

/// An undo can be read exactly where its id is a number, its day is one and its flags are flags.
pub proof fn law_an_undo_is_read_where_every_value_is_of_its_kind(q: RawUndo)
    ensures
        undo_ask_refusal(q) is None <==> q.id is Int && day_in(q.as_of) is Some && flag_or_nothing(
            q.acknowledge_due,
        ) && flag_or_nothing(q.dry_run),
{
}

/// What an edit asks for is what its values say, each in its own place: a text without white space
/// around it, the weekend rule as it stands, a day as its day and a list as its numbers. An end that
/// is null takes the end away, and one that is absent leaves it.
pub proof fn law_an_edit_asks_for_what_its_values_say(a: AskedEdit, q: RawEdit)
    requires
        is_edit_asked(a, q),
    ensures
        q.id == Param::Int(a.id),
        day_in(q.as_of) == Some(a.as_of.days as int),
        q.description matches Param::Text(t) ==> a.patch.description is Some && (
        a.patch.description->0)@ == trimmed(t@),
        q.rrule matches Param::Text(t) ==> a.patch.rrule is Some && (a.patch.rrule->0)@ == trimmed(t@),
        q.weekend_rule matches Param::Text(t) ==> a.patch.weekend_rule is Some && (
        a.patch.weekend_rule->0)@ == t@,
        left_out(q.description) ==> a.patch.description is None,
        left_out(q.rrule) ==> a.patch.rrule is None,
        left_out(q.weekend_rule) ==> a.patch.weekend_rule is None,
        left_out(q.dtstart) ==> a.patch.dtstart is None,
        !left_out(q.dtstart) ==> a.patch.dtstart is Some && day_in(q.dtstart) == Some(
            (a.patch.dtstart->0).days as int,
        ),
        q.until_on is Absent ==> a.patch.until_on is None,
        q.until_on is Null ==> a.patch.until_on == Some(None::<Date>),
        !left_out(q.until_on) ==> (a.patch.until_on matches Some(Some(u)) && day_in(q.until_on) == Some(
            u.days as int,
        )),
        left_out(q.route) ==> a.patch.route is None,
        left_out(q.amounts) ==> a.patch.amounts is None,
        q.route matches Param::List(v) ==> a.patch.route is Some && (a.patch.route->0)@.len() == v@.len()
            && forall|i: int| 0 <= i < v@.len() ==> #[trigger] v@[i] == Some((a.patch.route->0)@[i]),
        q.amounts matches Param::List(v) ==> a.patch.amounts is Some && (a.patch.amounts->0)@.len()
            == v@.len() && forall|i: int|
            0 <= i < v@.len() ==> #[trigger] v@[i] == Some((a.patch.amounts->0)@[i]),
        a.drop_overrides <==> q.drop_overrides == Param::Bool(true),
        a.acknowledge_due <==> q.acknowledge_due == Param::Bool(true),
        a.dry_run <==> q.dry_run == Param::Bool(true),
        a.follow <==> (q.amends is Text && q.amends->Text_0@ == "follow"@),
        a.patch.from_on is Some <==> (q.mode is Text && q.mode->Text_0@ == "from"@),
        a.patch.from_on is Some ==> day_in(q.from_on) == Some((a.patch.from_on->0).days as int),
{
    reveal_strlit("keep");
    reveal_strlit("follow");
    reveal_strlit("whole");
    reveal_strlit("from");
    assert("keep"@.len() == 4 && "follow"@.len() == 6 && "whole"@.len() == 5 && "from"@.len() == 4);
    assert(is_list_asked(a.patch.route, q.route));
    if q.route is List {
        let x = (a.patch.route->0)@;
        assert forall|i: int| 0 <= i < q.route->List_0@.len() implies #[trigger] q.route->List_0@[i]
            == Some(x[i]) by {
            assert(Some(x[i]) == q.route->List_0@[i]);
        }
    }
    if q.amounts is List {
        let x = (a.patch.amounts->0)@;
        assert forall|i: int| 0 <= i < q.amounts->List_0@.len() implies #[trigger] q.amounts->List_0@[i]
            == Some(x[i]) by {
            assert(Some(x[i]) == q.amounts->List_0@[i]);
        }
    }
}

/// How many months, rows and payments a request asks for: as many as it says, between the least and
/// the most there may be, and the usual number where it does not say.
pub proof fn law_a_request_asks_for_no_more_than_there_may_be(
    months: Option<u64>,
    m: u32,
    page: Option<i64>,
    p: i64,
    from: Option<i64>,
    f: i64,
)
    requires
        call_ensures(crate::requests::brief_months, (months,), m),
        call_ensures(crate::requests::page_limit, (page,), p),
        call_ensures(crate::requests::page_offset, (from,), f),
    ensures
        months is None ==> m == 6,
        months matches Some(n) ==> (1 <= n <= 120 ==> m == n),
        1 <= m <= 120,
        page is None ==> p == 50,
        page matches Some(n) ==> (1 <= n <= 500 ==> p == n),
        1 <= p <= 500,
        f >= 0,
        from is None ==> f == 0,
        from matches Some(n) ==> (n >= 0 ==> f == n),
{
}

/// A text has as many lines as it has line ends, and one more where it does not end with one.
pub proof fn law_a_line_is_counted_whether_or_not_it_ends(s: Seq<char>, c: char)
    ensures
        line_count(Seq::empty()) == 0,
        line_count(s.push('\n')) == line_count(s) + (if s.len() == 0 || s.last() == '\n' {
            1int
        } else {
            0
        }),
        c != '\n' ==> line_count(s.push(c)) == line_count(s) + (if s.len() == 0 || s.last() == '\n' {
            1int
        } else {
            0
        }),
{
    assert(s.push('\n').drop_last() =~= s);
    assert(s.push(c).drop_last() =~= s);
}

/// The window of history ends the day before the month in progress, starts the months asked for
/// before that month does, and leaves that month out.
pub proof fn law_history_ends_with_the_last_complete_month(as_of: Date, months: u32, r: Window)
    requires
        as_of.in_range(),
        months <= i32::MAX,
        call_ensures(history_window, (as_of, months), r),
        first_of_month(as_of.days as int) > crate::date::MIN_DAYS,
    ensures
        r.to.days + 1 == r.excludes.days,
        r.excludes.days == first_of_month(as_of.days as int),
        r.from.days == months_away(r.excludes.days as int, -(months as int)),
        r.from.days <= r.to.days ==> r.complete == months,
        r.from.days > r.to.days ==> r.complete == 0,
{
}

} // verus!
