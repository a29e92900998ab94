//! Editing a recurring payment: what a change asks for, and why it is refused.
//!
//! A change applies to the whole of a rule's newest part, or from a date. Every recorded payment and
//! every adjustment hangs off a slot, a date the rule itself produced, and that key is never
//! rewritten. Nothing is written that would break the forecast of the whole book: a rule must parse,
//! repeat at most daily, and produce at least one payment from its start.

use crate::book::{account_of, find, known, Account};
use crate::date::Date;
use crate::digits::{int_digits, int_text};
use crate::lists::{first, lemma_first};
use crate::money::Minor;
use crate::paths::holds;
use crate::recur::{Ask, Recurrence};
use crate::shape::Shape;
use crate::text::{contains, has_part, join, joined, str_eq, to_upper, upper, views};
use crate::wording::{bad, dmy, fail, norm_rule, normal_rule, said, says, EditError};
use vstd::prelude::*;

verus! {

broadcast use vstd::string::group_string_axioms;

/// A value handed over by a caller, as far as an edit reads it.
#[derive(Debug, Clone)]
pub enum Param {
    Absent,
    Null,
    Bool(bool),
    Int(i64),
    Text(String),
    /// A list; `None` stands for an item that is not a whole number.
    List(Vec<Option<i64>>),
    Other,
}

/// Whether a value is left out.
pub open spec fn left_out(p: Param) -> bool {
    p is Absent || p is Null
}

fn with_key(key: &str, rest: &str) -> (r: EditError)
    ensures
        says(r, "bad_params"@, key@ + rest@),
{
    let mut m = key.to_string();
    m.append(rest);
    bad(m.as_str())
}

/// A date, if one is given.
pub fn opt_date(p: &Param, key: &str) -> (r: Result<Option<Date>, EditError>)
    ensures
        if left_out(*p) {
            r matches Ok(d) && d is None
        } else if *p matches Param::Text(t) && crate::date::read_day(t@, "%Y-%m-%d"@) is Some {
            r matches Ok(Some(d)) && crate::date::read_day((*p)->Text_0@, "%Y-%m-%d"@) == Some(
                d.days as int,
            ) && d.in_range()
        } else {
            r matches Err(e) && says(e, "bad_params"@, key@ + " must be YYYY-MM-DD"@)
        },
{
    match p {
        Param::Absent => Ok(None),
        Param::Null => Ok(None),
        Param::Text(t) => match Date::parse(t.as_str()) {
            Some(d) => Ok(Some(d)),
            None => Err(with_key(key, " must be YYYY-MM-DD")),
        },
        _ => Err(with_key(key, " must be YYYY-MM-DD")),
    }
}

/// Whether every item of a list is a whole number.
pub open spec fn all_whole(items: Seq<Option<i64>>) -> bool {
    forall|i: int| 0 <= i < items.len() ==> #[trigger] items[i] is Some
}

/// A list of whole numbers, if one is given.
pub fn opt_ints(p: &Param, key: &str) -> (r: Result<Option<Vec<i64>>, EditError>)
    ensures
        if left_out(*p) {
            r matches Ok(v) && v is None
        } else if *p matches Param::List(items) && all_whole(items@) {
            r matches Ok(Some(v)) && v@.len() == (*p)->List_0@.len() && forall|i: int|
                0 <= i < v@.len() ==> Some(#[trigger] v@[i]) == (*p)->List_0@[i]
        } else {
            r matches Err(e) && says(e, "bad_params"@, key@ + " must be a list of whole numbers"@)
        },
{
    match p {
        Param::Absent => Ok(None),
        Param::Null => Ok(None),
        Param::List(items) => {
            let mut out: Vec<i64> = Vec::new();
            let mut i: usize = 0;
            while i < items.len()
                invariant
                    i <= items@.len(),
                    *p == Param::List(*items),
                    out@.len() == i,
                    forall|j: int| 0 <= j < i ==> Some(#[trigger] out@[j]) == items@[j],
                decreases items@.len() - i,
            {
                match items[i] {
                    Some(v) => {
                        out.push(v);
                    },
                    None => {
                        assert(!(items@[i as int] is Some));
                        return Err(with_key(key, " must be a list of whole numbers"));
                    },
                }
                i = i + 1;
            }
            assert forall|j: int| 0 <= j < items@.len() implies #[trigger] items@[j] is Some by {
                assert(Some(out@[j]) == items@[j]);
            }
            Ok(Some(out))
        },
        _ => Err(with_key(key, " must be a list of whole numbers")),
    }
}

/// A flag: left out it is false, and anything but true or false is refused. Strict on purpose: a dry
/// run read as false by mistake would write what the caller asked only to preview.
pub fn opt_bool(p: &Param, key: &str) -> (r: Result<bool, EditError>)
    ensures
        if left_out(*p) {
            r matches Ok(b) && !b
        } else if *p matches Param::Bool(x) {
            r matches Ok(b) && b == (*p)->Bool_0
        } else {
            r matches Err(e) && says(e, "bad_params"@, key@ + " must be true or false"@)
        },
{
    match p {
        Param::Absent => Ok(false),
        Param::Null => Ok(false),
        Param::Bool(b) => Ok(*b),
        _ => Err(with_key(key, " must be true or false")),
    }
}

/// The terms of a part.
#[derive(Debug, Clone)]
pub struct Terms {
    pub description: String,
    pub rrule: String,
    pub dtstart: Date,
    pub until_on: Option<Date>,
    pub weekend_rule: String,
    pub route: Vec<i64>,
    pub amounts: Vec<Minor>,
}

/// What an edit changes.
#[derive(Debug, Clone)]
pub struct Patch {
    pub description: Option<String>,
    pub rrule: Option<String>,
    pub weekend_rule: Option<String>,
    pub dtstart: Option<Date>,
    /// Left out it keeps the end; given as nothing it clears it.
    pub until_on: Option<Option<Date>>,
    pub route: Option<Vec<i64>>,
    pub amounts: Option<Vec<Minor>>,
    /// The date it applies from; the whole of the newest part where there is none.
    pub from_on: Option<Date>,
}

/// An edit of a rule's newest part.
pub struct Edit {
    pub before: Terms,
    pub shape: Shape,
    /// How many hops the part has.
    pub hops: usize,
    /// The accounts of its legs, in order.
    pub leg_accounts: Vec<i64>,
    /// The end of the part before it, where there is one.
    pub earlier: Option<Option<Date>>,
    pub patch: Patch,
    pub accounts: Vec<Account>,
}

/// Whether every day that an edit speaks of lies in the supported range.
pub open spec fn days_fit(e: Edit) -> bool {
    &&& e.before.dtstart.in_range()
    &&& e.before.until_on matches Some(u) ==> u.in_range()
    &&& e.patch.dtstart matches Some(d) ==> d.in_range()
    &&& e.patch.until_on matches Some(Some(u)) ==> u.in_range()
    &&& e.patch.from_on matches Some(f) ==> f.in_range()
    &&& e.earlier matches Some(Some(u)) ==> u.in_range()
}

/// A refusal: its code and its message.
pub type Refusal = (Seq<char>, Seq<char>);

/// The rule that an edit sets: the one given, unless it says the same as the one that is.
pub open spec fn rule_set(e: Edit) -> Seq<char> {
    match e.patch.rrule {
        Some(r) => if normal_rule(r@) != normal_rule(e.before.rrule@) {
            r@
        } else {
            e.before.rrule@
        },
        None => e.before.rrule@,
    }
}

/// Whether an edit sets another rule.
pub open spec fn rule_changes(e: Edit) -> bool {
    e.patch.rrule matches Some(r) && normal_rule(r@) != normal_rule(e.before.rrule@)
}

/// The end that an edit sets.
pub open spec fn end_set(e: Edit) -> Option<Date> {
    match e.patch.until_on {
        Some(u) => u,
        None => e.before.until_on,
    }
}

/// The name that an edit sets.
pub open spec fn name_set(e: Edit) -> Seq<char> {
    match e.patch.description {
        Some(d) => d@,
        None => e.before.description@,
    }
}

/// The weekend rule that an edit sets.
pub open spec fn weekend_set(e: Edit) -> Seq<char> {
    match e.patch.weekend_rule {
        Some(w) => w@,
        None => e.before.weekend_rule@,
    }
}

/// The route that an edit sets.
pub open spec fn route_set(e: Edit) -> Seq<i64> {
    match e.patch.route {
        Some(r) => r@,
        None => e.before.route@,
    }
}

/// The amounts that an edit sets.
pub open spec fn amounts_set(e: Edit) -> Seq<i64> {
    match e.patch.amounts {
        Some(a) => a@,
        None => e.before.amounts@,
    }
}

/// Whether an edit moves other money.
pub open spec fn money_changes(e: Edit) -> bool {
    route_set(e) != e.before.route@ || amounts_set(e) != e.before.amounts@
}

/// Whether an edit changes anything that depends on a date.
pub open spec fn is_dated(e: Edit) -> bool {
    rule_changes(e) || money_changes(e)
}

/// Whether a text is one of the weekend rules.
pub open spec fn is_weekend_rule(w: Seq<char>) -> bool {
    w == "none"@ || w == "before"@ || w == "after"@ || w == "modified_after"@
}

/// Why the fields that need no date are refused.
pub open spec fn field_refusal(e: Edit) -> Option<Refusal> {
    if e.patch.description matches Some(d) && d@.len() == 0 {
        Some(("bad_params"@, "description must not be empty"@))
    } else if e.patch.weekend_rule matches Some(w) && !is_weekend_rule(w@) {
        Some(("bad_params"@, "weekend_rule must be none, before, after or modified_after"@))
    } else {
        None
    }
}

/// Whether an error is a refusal.
pub open spec fn is_refusal(e: EditError, r: Refusal) -> bool {
    says(e, r.0, r.1)
}

/// Whether an outcome is a refusal where there is one.
pub open spec fn outcome_is(r: Result<(), EditError>, refusal: Option<Refusal>) -> bool {
    match refusal {
        Some(x) => r matches Err(e) && is_refusal(e, x),
        None => r is Ok,
    }
}

fn check_fields(e: &Edit) -> (r: Result<(), EditError>)
    ensures
        outcome_is(r, field_refusal(*e)),
{
    if let Some(d) = &e.patch.description {
        if d.as_str().unicode_len() == 0 {
            return Err(bad("description must not be empty"));
        }
    }
    if let Some(w) = &e.patch.weekend_rule {
        let w = w.as_str();
        if !(str_eq(w, "none") || str_eq(w, "before") || str_eq(w, "after") || str_eq(
            w,
            "modified_after",
        )) {
            return Err(bad("weekend_rule must be none, before, after or modified_after"));
        }
    }
    Ok(())
}

/// Why a start is refused: that of a rule that was changed from a date cannot move.
pub open spec fn start_refusal(e: Edit) -> Option<Refusal> {
    if e.patch.from_on is None && e.earlier is Some && (e.patch.dtstart matches Some(d) && d
        != e.before.dtstart) {
        Some(
            (
                "overlaps_part"@,
                e.before.description@ + " changed on "@ + said(e.before.dtstart.days as int)
                    + ": its start can't move — undo that change and make it again"@,
            ),
        )
    } else {
        None
    }
}

fn check_start(e: &Edit) -> (r: Result<(), EditError>)
    ensures
        outcome_is(r, start_refusal(*e)),
{
    if e.patch.from_on.is_none() && e.earlier.is_some() {
        if let Some(d) = e.patch.dtstart {
            if d.days != e.before.dtstart.days {
                let mut m = e.before.description.clone();
                m.append(" changed on ");
                let on = dmy(e.before.dtstart);
                m.append(on.as_str());
                m.append(": its start can't move — undo that change and make it again");
                return Err(fail("overlaps_part", m));
            }
        }
    }
    Ok(())
}

/// The name of an account, nothing where it is not in the book.
pub open spec fn account_name(accounts: Seq<Account>, id: i64) -> Seq<char> {
    if known(accounts, id) {
        account_of(accounts, id).name@
    } else {
        Seq::empty()
    }
}

/// The names of accounts.
pub open spec fn account_names(accounts: Seq<Account>, ids: Seq<i64>) -> Seq<Seq<char>> {
    ids.map_values(|id: i64| account_name(accounts, id))
}

/// The name of an account, nothing where it is not in the book.
pub fn name_of(accounts: &Vec<Account>, id: i64) -> (r: String)
    ensures
        r@ == account_name(accounts@, id),
{
    match find(accounts, id) {
        Some(i) => accounts[i].name.clone(),
        None => String::new(),
    }
}

/// The names of accounts.
pub fn names_of(accounts: &Vec<Account>, ids: &Vec<i64>) -> (r: Vec<String>)
    ensures
        views(r@) == account_names(accounts@, ids@),
{
    let ghost all = account_names(accounts@, ids@);
    let mut out: Vec<String> = Vec::new();
    let mut i: usize = 0;
    assert(views(out@) =~= all.take(0));
    while i < ids.len()
        invariant
            i <= ids@.len(),
            all == account_names(accounts@, ids@),
            views(out@) =~= all.take(i as int),
        decreases ids@.len() - i,
    {
        let n = name_of(accounts, ids[i]);
        assert(views(out@.push(n)) =~= views(out@).push(n@));
        assert(all.take(i + 1) =~= all.take(i as int).push(n@));
        out.push(n);
        i = i + 1;
    }
    assert(all.take(all.len() as int) =~= all);
    out
}

/// Why the money of a part that is not of the ordinary shape is not edited.
pub open spec fn template_refusal(e: Edit) -> Option<Refusal> {
    if (e.patch.route is Some || e.patch.amounts is Some) && !e.shape.two_leg {
        Some(
            (
                "custom_template"@,
                e.before.description@ + " has "@ + int_digits(e.leg_accounts@.len() as int)
                    + " legs of its own ("@ + joined(
                    account_names(e.accounts@, e.leg_accounts@),
                    ", "@,
                )
                    + "): its amounts and accounts can't be edited here, only its name, schedule, weekend rule and end"@,
            ),
        )
    } else {
        None
    }
}

fn check_template(e: &Edit) -> (r: Result<(), EditError>)
    ensures
        outcome_is(r, template_refusal(*e)),
{
    if (e.patch.route.is_some() || e.patch.amounts.is_some()) && !e.shape.two_leg {
        let mut m = e.before.description.clone();
        m.append(" has ");
        let n = int_text(e.leg_accounts.len() as i128);
        m.append(n.as_str());
        m.append(" legs of its own (");
        let names = names_of(&e.accounts, &e.leg_accounts);
        let list = join(&names, ", ");
        m.append(list.as_str());
        m.append(
            "): its amounts and accounts can't be edited here, only its name, schedule, weekend rule and end",
        );
        return Err(fail("custom_template", m));
    }
    Ok(())
}

/// Whether the amount at a place is not one.
pub open spec fn not_positive(amounts: Seq<i64>) -> spec_fn(int) -> bool {
    |i: int| amounts[i] <= 0
}

/// Whether a stop of a route is the next one too.
pub open spec fn stays_put(route: Seq<i64>) -> spec_fn(int) -> bool {
    |i: int| route[i] == route[i + 1]
}

/// Why a stop of a route is refused.
pub open spec fn stop_refusal(e: Edit, route: Seq<i64>, i: int) -> Option<Refusal> {
    let id = route[i];
    let a = account_of(e.accounts@, id);
    let already = e.before.route@.contains(id);
    let desc = e.before.description@;
    let cur = e.shape.currency@;
    if !known(e.accounts@, id) {
        Some(("no_such_account"@, "no such account: "@ + int_digits(id as int)))
    } else if a.system && !already {
        Some(
            (
                "system_account"@,
                a.name@ + " is a system account -- only the core may post to it"@,
            ),
        )
    } else if a.closed && !already {
        Some(
            (
                "closed_account"@,
                a.name@ + " is closed: reopen it before moving "@ + desc + " onto it"@,
            ),
        )
    } else if a.currency@ != cur {
        Some(
            (
                "currency_change"@,
                desc + " is in "@ + cur + " and "@ + a.name@ + " holds "@ + a.currency@
                    + ": a recurring payment can't change currency, because its amounts and adjustments are stored in "@
                    + cur + " — end it and create a new one"@,
            ),
        )
    } else if 0 < i < route.len() - 1 && a.kind@ != "asset"@ && a.kind@ != "liability"@ {
        Some(
            (
                "bad_chain"@,
                "money can only pass through an asset or liability account: "@ + a.name@
                    + " is an "@ + a.kind@ + " account"@,
            ),
        )
    } else {
        None
    }
}

/// Whether the stop at a place of a route is refused.
pub open spec fn stop_refused(e: Edit, route: Seq<i64>) -> spec_fn(int) -> bool {
    |i: int| stop_refusal(e, route, i) is Some
}

/// Why the money an edit sets is refused.
pub open spec fn money_refusal(e: Edit) -> Option<Refusal> {
    let route = route_set(e);
    let amounts = amounts_set(e);
    let n = e.hops as int;
    let desc = e.before.description@;
    let bad_amount = first(amounts.len() as int, not_positive(amounts));
    let stuck = first(route.len() - 1, stays_put(route));
    let stop = first(route.len() as int, stop_refused(e, route));
    if !money_changes(e) {
        None
    } else if route.len() != n + 1 {
        Some(
            (
                "bad_chain"@,
                desc + " has "@ + int_digits(n) + " leg"@ + (if n == 1 {
                    ""@
                } else {
                    "s"@
                }) + ": stops can't be added or removed here — end it and create a new one"@,
            ),
        )
    } else if amounts.len() != n {
        Some(
            (
                "bad_params"@,
                "amounts needs one amount per leg: "@ + desc + " has "@ + int_digits(n),
            ),
        )
    } else if bad_amount < amounts.len() {
        Some(
            (
                "bad_params"@,
                "an amount is always positive, and "@ + int_digits(amounts[bad_amount] as int)
                    + " is not one"@,
            ),
        )
    } else if stuck < route.len() - 1 {
        Some(("bad_params"@, "a payment cannot move money from an account to itself"@))
    } else if stop < route.len() {
        stop_refusal(e, route, stop)
    } else {
        None
    }
}

fn same_ints(a: &Vec<i64>, b: &Vec<i64>) -> (r: bool)
    ensures
        r == (a@ == b@),
{
    if a.len() != b.len() {
        return false;
    }
    let mut i: usize = 0;
    while i < a.len()
        invariant
            a@.len() == b@.len(),
            i <= a@.len(),
            forall|j: int| 0 <= j < i ==> a@[j] == b@[j],
        decreases a@.len() - i,
    {
        if a[i] != b[i] {
            return false;
        }
        i = i + 1;
    }
    assert(a@ =~= b@);
    true
}

/// The route an edit sets.
pub fn new_route(e: &Edit) -> (r: &Vec<i64>)
    ensures
        r@ == route_set(*e),
{
    match &e.patch.route {
        Some(v) => v,
        None => &e.before.route,
    }
}

/// The amounts an edit sets.
pub fn new_amounts(e: &Edit) -> (r: &Vec<i64>)
    ensures
        r@ == amounts_set(*e),
{
    match &e.patch.amounts {
        Some(v) => v,
        None => &e.before.amounts,
    }
}

fn check_stop(e: &Edit, route: &Vec<i64>, i: usize) -> (r: Result<(), EditError>)
    requires
        i < route@.len(),
    ensures
        outcome_is(r, stop_refusal(*e, route@, i as int)),
{
    let id: i64 = route[i];
    let already = holds(&e.before.route, id);
    let at: usize = match find(&e.accounts, id) {
        Some(k) => k,
        None => {
            let mut m = "no such account: ".to_string();
            let n = int_text(id as i128);
            m.append(n.as_str());
            return Err(fail("no_such_account", m));
        },
    };
    let a = &e.accounts[at];
    if a.system && !already {
        let mut m = a.name.clone();
        m.append(" is a system account -- only the core may post to it");
        return Err(fail("system_account", m));
    }
    if a.closed && !already {
        let mut m = a.name.clone();
        m.append(" is closed: reopen it before moving ");
        m.append(e.before.description.as_str());
        m.append(" onto it");
        return Err(fail("closed_account", m));
    }
    if !str_eq(a.currency.as_str(), e.shape.currency.as_str()) {
        let mut m = e.before.description.clone();
        m.append(" is in ");
        m.append(e.shape.currency.as_str());
        m.append(" and ");
        m.append(a.name.as_str());
        m.append(" holds ");
        m.append(a.currency.as_str());
        m.append(
            ": a recurring payment can't change currency, because its amounts and adjustments are stored in ",
        );
        m.append(e.shape.currency.as_str());
        m.append(" — end it and create a new one");
        return Err(fail("currency_change", m));
    }
    if i > 0 && i < route.len() - 1 && !str_eq(a.kind.as_str(), "asset") && !str_eq(
        a.kind.as_str(),
        "liability",
    ) {
        let mut m = "money can only pass through an asset or liability account: ".to_string();
        m.append(a.name.as_str());
        m.append(" is an ");
        m.append(a.kind.as_str());
        m.append(" account");
        return Err(fail("bad_chain", m));
    }
    Ok(())
}

fn check_money(e: &Edit) -> (r: Result<(), EditError>)
    ensures
        outcome_is(r, money_refusal(*e)),
{
    let route = new_route(e);
    let amounts = new_amounts(e);
    if same_ints(route, &e.before.route) && same_ints(amounts, &e.before.amounts) {
        return Ok(());
    }
    let n: usize = e.hops;
    let stops: usize = route.len();
    if n == usize::MAX || stops != n + 1 {
        let mut m = e.before.description.clone();
        m.append(" has ");
        let t = int_text(n as i128);
        m.append(t.as_str());
        m.append(" leg");
        m.append(
            if n == 1 {
                ""
            } else {
                "s"
            },
        );
        m.append(": stops can't be added or removed here — end it and create a new one");
        return Err(fail("bad_chain", m));
    }
    if amounts.len() != n {
        let mut m = "amounts needs one amount per leg: ".to_string();
        m.append(e.before.description.as_str());
        m.append(" has ");
        let t = int_text(n as i128);
        m.append(t.as_str());
        return Err(bad(m.as_str()));
    }
    let mut i: usize = 0;
    while i < amounts.len()
        invariant
            i <= amounts@.len(),
            amounts@ == amounts_set(*e),
            route@ == route_set(*e),
            route@.len() == n + 1,
            n == e.hops,
            amounts@.len() == n,
            money_changes(*e),
            forall|j: int| 0 <= j < i ==> !#[trigger] not_positive(amounts@)(j),
        decreases amounts@.len() - i,
    {
        if amounts[i] <= 0 {
            proof {
                lemma_first(amounts@.len() as int, not_positive(amounts@), i as int);
            }
            let mut m = "an amount is always positive, and ".to_string();
            let t = int_text(amounts[i] as i128);
            m.append(t.as_str());
            m.append(" is not one");
            return Err(bad(m.as_str()));
        }
        i = i + 1;
    }
    proof {
        lemma_first(amounts@.len() as int, not_positive(amounts@), i as int);
    }
    let mut k: usize = 0;
    while k < n
        invariant
            k <= n,
            amounts@ == amounts_set(*e),
            route@ == route_set(*e),
            route@.len() == n + 1,
            n == e.hops,
            amounts@.len() == n,
            money_changes(*e),
            first(amounts@.len() as int, not_positive(amounts@)) == amounts@.len(),
            forall|j: int| 0 <= j < k ==> !#[trigger] stays_put(route@)(j),
        decreases n - k,
    {
        if route[k] == route[k + 1] {
            proof {
                lemma_first(route@.len() - 1, stays_put(route@), k as int);
            }
            return Err(bad("a payment cannot move money from an account to itself"));
        }
        k = k + 1;
    }
    proof {
        lemma_first(route@.len() - 1, stays_put(route@), k as int);
    }
    let mut s: usize = 0;
    while s < route.len()
        invariant
            s <= route@.len(),
            amounts@ == amounts_set(*e),
            route@ == route_set(*e),
            route@.len() == n + 1,
            n == e.hops,
            amounts@.len() == n,
            money_changes(*e),
            first(amounts@.len() as int, not_positive(amounts@)) == amounts@.len(),
            first(route@.len() - 1, stays_put(route@)) == route@.len() - 1,
            forall|j: int| 0 <= j < s ==> !#[trigger] stop_refused(*e, route@)(j),
        decreases route@.len() - s,
    {
        match check_stop(e, route, s) {
            Ok(_) => {},
            Err(x) => {
                proof {
                    lemma_first(route@.len() as int, stop_refused(*e, route@), s as int);
                }
                return Err(x);
            },
        }
        s = s + 1;
    }
    proof {
        lemma_first(route@.len() as int, stop_refused(*e, route@), s as int);
    }
    Ok(())
}

/// Two years from a day, leap days and all, as far as days go.
pub open spec fn two_years_on(n: int) -> int {
    if n + 732 <= i32::MAX {
        n + 732
    } else {
        i32::MAX as int
    }
}

/// Two years from a day, leap days and all.
pub fn two_years(d: Date) -> (r: Date)
    ensures
        r.days == two_years_on(d.days as int),
{
    if d.days <= i32::MAX - 732 {
        Date { days: d.days + 732 }
    } else {
        Date { days: i32::MAX }
    }
}

/// What an expander answers: days, or why there are none.
pub type Answer = Result<Seq<Date>, Seq<char>>;

/// The content of an answer.
pub open spec fn answer_view(a: Result<Vec<Date>, String>) -> Answer {
    match a {
        Ok(v) => Ok(v@),
        Err(m) => Err(m@),
    }
}

/// Why a rule's text is refused: it must not count its payments, nor repeat more than daily.
pub open spec fn text_refusal(rrule: Seq<char>) -> Option<Refusal> {
    upper_refusal(upper(rrule))
}

/// Why a rule's text, in upper case, is refused.
pub open spec fn upper_refusal(up: Seq<char>) -> Option<Refusal> {
    if has_part(up, "COUNT="@) {
        Some(
            (
                "bad_params"@,
                "a rule can't say COUNT: set an end date instead (COUNT counts skipped payments too)"@,
            ),
        )
    } else if has_part(up, "FREQ=HOURLY"@) || has_part(up, "FREQ=MINUTELY"@) || has_part(
        up,
        "FREQ=SECONDLY"@,
    ) {
        Some(("bad_params"@, "a rule repeats at most daily"@))
    } else {
        None
    }
}

/// What is said of a rule that pays nothing.
pub open spec fn pays_nothing(start: int) -> Refusal {
    ("bad_rule"@, "that rule produces no payments from "@ + said(start))
}

/// Why a rule is refused: its text, or because it does not expand, or because it pays nothing from
/// its start. `open` is what it expands to without its end, `bounded` with it.
pub open spec fn rule_refusal(rrule: Seq<char>, start: int, open: Answer, bounded: Answer) -> Option<
    Refusal,
> {
    if text_refusal(rrule) is Some {
        text_refusal(rrule)
    } else if open is Err {
        Some(("bad_rule"@, open->Err_0))
    } else {
        match bounded {
            Err(m) => Some(("bad_rule"@, m)),
            Ok(days) => if days.len() == 0 {
                Some(pays_nothing(start))
            } else {
                None
            },
        }
    }
}

fn no_payments(d: Date) -> (r: EditError)
    ensures
        is_refusal(r, pays_nothing(d.days as int)),
{
    let mut m = "that rule produces no payments from ".to_string();
    let on = dmy(d);
    m.append(on.as_str());
    fail("bad_rule", m)
}

/// Check a rule's text, in upper case.
pub fn check_upper(up: &str) -> (r: Result<(), EditError>)
    ensures
        outcome_is(r, upper_refusal(up@)),
{
    if contains(up, "COUNT=") {
        return Err(
            bad(
                "a rule can't say COUNT: set an end date instead (COUNT counts skipped payments too)",
            ),
        );
    }
    if contains(up, "FREQ=HOURLY") || contains(up, "FREQ=MINUTELY") || contains(
        up,
        "FREQ=SECONDLY",
    ) {
        return Err(bad("a rule repeats at most daily"));
    }
    Ok(())
}

/// Check a rule, given what it expands to from its start over two years, without its end and with
/// it.
pub fn check_rule(
    rrule: &str,
    start: Date,
    open: &Result<Vec<Date>, String>,
    bounded: &Result<Vec<Date>, String>,
) -> (r: Result<(), EditError>)
    ensures
        outcome_is(
            r,
            rule_refusal(rrule@, start.days as int, answer_view(*open), answer_view(*bounded)),
        ),
{
    let up = to_upper(rrule);
    if let Err(e) = check_upper(up.as_str()) {
        return Err(e);
    }
    if let Err(m) = open {
        return Err(fail("bad_rule", m.clone()));
    }
    match bounded {
        Err(m) => Err(fail("bad_rule", m.clone())),
        Ok(days) => {
            if days.len() == 0 {
                Err(no_payments(start))
            } else {
                Ok(())
            }
        },
    }
}

/// Whether an answer is one that an expander gives to a question.
pub open spec fn answers<R: Recurrence>(recur: R, ask: Ask, a: Answer) -> bool {
    match a {
        Ok(days) => recur.yields(ask, days),
        Err(m) => recur.refuses(ask, m),
    }
}

/// Put a question to an expander.
pub fn put_ask<R: Recurrence>(
    recur: &R,
    rrule: &str,
    dtstart: Date,
    until: Option<Date>,
    lo: Date,
    hi: Date,
) -> (r: Result<Vec<Date>, String>)
    ensures
        answers(*recur, (Ask { rule: rrule@, dtstart, until, lo, hi }), answer_view(r)),
{
    match recur.expand(rrule, dtstart, until, lo, hi) {
        Ok(v) => Ok(v),
        Err(e) => Err(e.to_text()),
    }
}

/// The two questions by which a rule is checked.
pub open spec fn check_asks(rrule: Seq<char>, start: Date, until: Option<Date>, far: Date) -> (
    Ask,
    Ask,
) {
    (
        Ask { rule: rrule, dtstart: start, until: None, lo: start, hi: far },
        Ask { rule: rrule, dtstart: start, until, lo: start, hi: far },
    )
}

/// Whether an outcome is that of a rule, by some answers of an expander.
pub open spec fn rule_checked<R: Recurrence>(
    recur: R,
    rrule: Seq<char>,
    start: Date,
    until: Option<Date>,
    far: Date,
    r: Result<(), EditError>,
) -> bool {
    let asks = check_asks(rrule, start, until, far);
    exists|open: Answer, bounded: Answer| #[trigger]
        answers(recur, asks.0, open) && #[trigger] answers(recur, asks.1, bounded) && outcome_is(
            r,
            rule_refusal(rrule, start.days as int, open, bounded),
        )
}

/// A rule must say something the ledger can keep: no COUNT, no finer than daily, it must parse, and
/// it must produce at least one payment from its start. A stored rule that fails any of these breaks
/// every forecast of the whole book.
pub fn validate_rule<R: Recurrence>(
    recur: &R,
    rrule: &str,
    start: Date,
    until: Option<Date>,
) -> (r: Result<(), EditError>)
    ensures
        exists|far: Date|
            far.days == two_years_on(start.days as int) && #[trigger] rule_checked(
                *recur,
                rrule@,
                start,
                until,
                far,
                r,
            ),
{
    let far = two_years(start);
    let open = put_ask(recur, rrule, start, None, start, far);
    let bounded = put_ask(recur, rrule, start, until, start, far);
    let r = check_rule(rrule, start, &open, &bounded);
    let ghost asks = check_asks(rrule@, start, until, far);
    assert(answers(*recur, asks.0, answer_view(open)));
    assert(answers(*recur, asks.1, answer_view(bounded)));
    assert(rule_checked(*recur, rrule@, start, until, far, r));
    r
}

/// Where an edited part starts, and whether that splits the rule.
#[derive(Debug, Clone, Copy, PartialEq, Eq, Structural)]
pub struct Start {
    pub dtstart: Date,
    pub split: bool,
}

/// The first day of an answer.
pub open spec fn first_day(a: Answer, none: Refusal) -> Result<Date, Refusal> {
    match a {
        Err(m) => Err(("bad_rule"@, m)),
        Ok(days) => if days.len() == 0 {
            Err(none)
        } else {
            Ok(days[0])
        },
    }
}

/// Why a change from a date is refused: it reaches into the terms before the last change, or past
/// the end.
pub open spec fn from_refusal(e: Edit, from: Date) -> Option<Refusal> {
    if is_dated(e) && (e.earlier matches Some(Some(u)) && from.days <= u.days) {
        Some(
            (
                "overlaps_part"@,
                said(from.days as int) + " belongs to the terms before the change on "@ + said(
                    e.before.dtstart.days as int,
                ) + ": change it from "@ + said(e.before.dtstart.days as int)
                    + " or later, or undo that change"@,
            ),
        )
    } else if is_dated(e) && (e.before.until_on matches Some(u) && from.days > u.days) {
        Some(
            (
                "already_ended"@,
                e.before.description@ + " ends on "@ + said(e.before.until_on->0.days as int)
                    + ", before a change from "@ + said(from.days as int)
                    + " would apply: move its end first"@,
            ),
        )
    } else {
        None
    }
}

/// Where the newest part of a changed rule starts from when its schedule changes as a whole: the day
/// after the earlier part ends, so that no payment in between belongs to neither part.
pub open spec fn resume_day(e: Edit) -> int {
    match e.earlier {
        Some(Some(u)) => u.days + 1,
        _ => e.before.dtstart.days as int,
    }
}

/// What is said where a new schedule pays nothing from the day the earlier part ends.
pub open spec fn nothing_after(e: Edit) -> Refusal {
    let from = resume_day(e);
    match end_set(e) {
        Some(u) => if u.days < two_years_on(from) {
            (
                "bad_rule"@,
                "that rule pays nothing between "@ + said(from) + " and the end on "@ + said(
                    u.days as int,
                ),
            )
        } else {
            pays_nothing(from)
        },
        None => pays_nothing(from),
    }
}

/// Whether the part has a payment before a day, by what its rule expands to up to then.
pub open spec fn pays_before(e: Edit, from: Date, earlier_days: Answer) -> bool {
    from.days > e.before.dtstart.days && (match earlier_days {
        Ok(days) => days.len() > 0,
        Err(_) => true,
    })
}

/// Where an edited part starts, given what the old rule pays before the date and what the new one
/// pays from it.
///
/// From a date, a change splits the rule where something of it falls before that date, and is made
/// in place where nothing does. A new part keeps the rule's rhythm. The date only matters to a
/// change that depends on one.
pub open spec fn start_of(e: Edit, earlier_days: Answer, new_days: Answer) -> Result<Start, Refusal> {
    match e.patch.from_on {
        Some(from) => if from_refusal(e, from) is Some {
            Err(from_refusal(e, from)->0)
        } else if !is_dated(e) || (!pays_before(e, from, earlier_days) && !rule_changes(e)) {
            Ok(Start { dtstart: e.before.dtstart, split: false })
        } else {
            match first_day(new_days, pays_nothing(from.days as int)) {
                Ok(d) => Ok(Start { dtstart: d, split: pays_before(e, from, earlier_days) }),
                Err(x) => Err(x),
            }
        },
        None => if e.earlier is Some && rule_changes(e) {
            match first_day(new_days, nothing_after(e)) {
                Ok(d) => Ok(Start { dtstart: d, split: false }),
                Err(x) => Err(x),
            }
        } else {
            Ok(
                Start {
                    dtstart: match e.patch.dtstart {
                        Some(d) => d,
                        None => e.before.dtstart,
                    },
                    split: false,
                },
            )
        },
    }
}

/// Whether an edit sets another rule.
pub fn changes_rule(e: &Edit) -> (r: bool)
    ensures
        r == rule_changes(*e),
{
    match &e.patch.rrule {
        Some(r) => {
            let a = norm_rule(r.as_str());
            let b = norm_rule(e.before.rrule.as_str());
            !str_eq(a.as_str(), b.as_str())
        },
        None => false,
    }
}

/// Whether an edit moves other money.
pub fn changes_money(e: &Edit) -> (r: bool)
    ensures
        r == money_changes(*e),
{
    !(same_ints(new_route(e), &e.before.route) && same_ints(new_amounts(e), &e.before.amounts))
}

/// The end an edit sets.
pub fn new_end(e: &Edit) -> (r: Option<Date>)
    ensures
        r == end_set(*e),
{
    match e.patch.until_on {
        Some(u) => u,
        None => e.before.until_on,
    }
}

fn check_from(e: &Edit, from: Date) -> (r: Result<(), EditError>)
    ensures
        outcome_is(r, from_refusal(*e, from)),
{
    if !(changes_rule(e) || changes_money(e)) {
        return Ok(());
    }
    if let Some(Some(u)) = e.earlier {
        if from.days <= u.days {
            let mut m = dmy(from);
            let start = dmy(e.before.dtstart);
            m.append(" belongs to the terms before the change on ");
            m.append(start.as_str());
            m.append(": change it from ");
            m.append(start.as_str());
            m.append(" or later, or undo that change");
            return Err(fail("overlaps_part", m));
        }
    }
    if let Some(u) = e.before.until_on {
        if from.days > u.days {
            let mut m = e.before.description.clone();
            m.append(" ends on ");
            let end = dmy(u);
            m.append(end.as_str());
            m.append(", before a change from ");
            let on = dmy(from);
            m.append(on.as_str());
            m.append(" would apply: move its end first");
            return Err(fail("already_ended", m));
        }
    }
    Ok(())
}

fn resume(e: &Edit) -> (r: Date)
    requires
        days_fit(*e),
    ensures
        r.days == resume_day(*e),
{
    match e.earlier {
        Some(Some(u)) => Date { days: u.days + 1 },
        _ => e.before.dtstart,
    }
}

fn say_nothing_after(e: &Edit) -> (r: EditError)
    requires
        days_fit(*e),
    ensures
        is_refusal(r, nothing_after(*e)),
{
    let from = resume(e);
    if let Some(u) = new_end(e) {
        if (u.days as i64) < from.days as i64 + 732 {
            let mut m = "that rule pays nothing between ".to_string();
            let a = dmy(from);
            m.append(a.as_str());
            m.append(" and the end on ");
            let b = dmy(u);
            m.append(b.as_str());
            return fail("bad_rule", m);
        }
    }
    no_payments(from)
}

/// Whether an outcome is a start, or the refusal of one.
pub open spec fn start_is(r: Result<Start, EditError>, want: Result<Start, Refusal>) -> bool {
    match want {
        Ok(s) => r matches Ok(x) && x == s,
        Err(why) => r matches Err(e) && is_refusal(e, why),
    }
}

/// Where an edited part starts, given what the old rule pays before the date and what the new one
/// pays from it.
pub fn start_given(
    e: &Edit,
    earlier_days: &Result<Vec<Date>, String>,
    new_days: &Result<Vec<Date>, String>,
) -> (r: Result<Start, EditError>)
    requires
        days_fit(*e),
    ensures
        start_is(r, start_of(*e, answer_view(*earlier_days), answer_view(*new_days))),
{
    let rule_changed = changes_rule(e);
    match e.patch.from_on {
        Some(from) => {
            match check_from(e, from) {
                Ok(_) => {},
                Err(x) => {
                    return Err(x);
                },
            }
            let pays = from.days > e.before.dtstart.days && (match earlier_days {
                Ok(days) => days.len() > 0,
                Err(_) => true,
            });
            if !(rule_changed || changes_money(e)) || (!pays && !rule_changed) {
                return Ok(Start { dtstart: e.before.dtstart, split: false });
            }
            match new_days {
                Err(m) => Err(fail("bad_rule", m.clone())),
                Ok(days) => {
                    if days.len() == 0 {
                        Err(no_payments(from))
                    } else {
                        Ok(Start { dtstart: days[0], split: pays })
                    }
                },
            }
        },
        None => {
            if e.earlier.is_some() && rule_changed {
                match new_days {
                    Err(m) => Err(fail("bad_rule", m.clone())),
                    Ok(days) => {
                        if days.len() == 0 {
                            Err(say_nothing_after(e))
                        } else {
                            Ok(Start { dtstart: days[0], split: false })
                        }
                    },
                }
            } else {
                let dtstart = match e.patch.dtstart {
                    Some(d) => d,
                    None => e.before.dtstart,
                };
                Ok(Start { dtstart, split: false })
            }
        },
    }
}

/// Why an edit is refused before anything of it is dated.
pub open spec fn plain_refusal(e: Edit) -> Option<Refusal> {
    if field_refusal(e) is Some {
        field_refusal(e)
    } else if start_refusal(e) is Some {
        start_refusal(e)
    } else if template_refusal(e) is Some {
        template_refusal(e)
    } else {
        money_refusal(e)
    }
}

/// Why an end is refused: it lies before the start.
pub open spec fn end_refusal(e: Edit, start: Start) -> Option<Refusal> {
    match end_set(e) {
        Some(u) => if u.days < start.dtstart.days {
            Some(
                (
                    "bad_params"@,
                    "it would end on "@ + said(u.days as int) + ", before it starts on "@ + said(
                        start.dtstart.days as int,
                    ),
                ),
            )
        } else {
            None
        },
        None => None,
    }
}

/// Whether the rule of an edit has to be checked: where it changes, or starts on another day.
pub open spec fn to_check(e: Edit, start: Start) -> bool {
    rule_changes(e) || start.dtstart != e.before.dtstart || start.split
}

/// Why an edit is refused once its start is known.
pub open spec fn dated_refusal(e: Edit, start: Start, open: Answer, bounded: Answer) -> Option<
    Refusal,
> {
    let why = rule_refusal(rule_set(e), start.dtstart.days as int, open, bounded);
    if to_check(e, start) && why is Some {
        why
    } else {
        end_refusal(e, start)
    }
}

/// The fields an edit changes, by name.
pub open spec fn changes_of(e: Edit, start: Start) -> Seq<Seq<char>> {
    names_if(name_set(e) != e.before.description@, "description"@) + names_if(
        rule_changes(e),
        "rrule"@,
    ) + names_if(start.dtstart != e.before.dtstart, "dtstart"@) + names_if(
        end_set(e) != e.before.until_on,
        "until_on"@,
    ) + names_if(weekend_set(e) != e.before.weekend_rule@, "weekend_rule"@) + names_if(
        route_set(e) != e.before.route@,
        "route"@,
    ) + names_if(amounts_set(e) != e.before.amounts@, "amounts"@)
}

/// A name, where it applies.
pub open spec fn names_if(b: bool, n: Seq<char>) -> Seq<Seq<char>> {
    if b {
        seq![n]
    } else {
        Seq::empty()
    }
}

/// What an edit comes to.
#[derive(Debug, Clone)]
pub struct Plan {
    pub start: Start,
    pub after: Terms,
    /// The fields it changes; none where there is nothing to do.
    pub changed: Vec<String>,
    pub rule_changed: bool,
    pub route_changed: bool,
    pub amounts_changed: bool,
}

/// Whether a plan is what an edit comes to, from a start.
pub open spec fn is_plan(p: Plan, e: Edit, start: Start) -> bool {
    &&& p.start == start
    &&& p.after.description@ == name_set(e)
    &&& p.after.rrule@ == rule_set(e)
    &&& p.after.dtstart == start.dtstart
    &&& p.after.until_on == end_set(e)
    &&& p.after.weekend_rule@ == weekend_set(e)
    &&& p.after.route@ == route_set(e)
    &&& p.after.amounts@ == amounts_set(e)
    &&& views(p.changed@) == changes_of(e, start)
    &&& p.rule_changed == rule_changes(e)
    &&& p.route_changed == (route_set(e) != e.before.route@)
    &&& p.amounts_changed == (amounts_set(e) != e.before.amounts@)
}

fn note_change(out: &mut Vec<String>, b: bool, name: &str)
    ensures
        views(final(out)@) == views(old(out)@) + names_if(b, name@),
{
    let ghost before = views(out@);
    if b {
        let n = name.to_string();
        assert(views(out@.push(n)) =~= views(out@).push(n@));
        out.push(n);
        assert(views(out@) =~= before + names_if(b, name@));
    } else {
        assert(before + names_if(b, name@) =~= before);
    }
}

fn same_end(a: Option<Date>, b: Option<Date>) -> (r: bool)
    ensures
        r == (a == b),
{
    match (a, b) {
        (Some(x), Some(y)) => x.days == y.days,
        (None, None) => true,
        _ => false,
    }
}

fn copy_ints(v: &Vec<i64>) -> (r: Vec<i64>)
    ensures
        r@ == v@,
{
    let mut out: Vec<i64> = Vec::new();
    let mut i: usize = 0;
    while i < v.len()
        invariant
            i <= v@.len(),
            out@ == v@.take(i as int),
        decreases v@.len() - i,
    {
        out.push(v[i]);
        assert(v@.take(i + 1) =~= v@.take(i as int).push(v@[i as int]));
        i = i + 1;
    }
    assert(v@.take(v@.len() as int) =~= v@);
    out
}

fn new_rule(e: &Edit) -> (r: String)
    ensures
        r@ == rule_set(*e),
{
    if changes_rule(e) {
        match &e.patch.rrule {
            Some(r) => r.clone(),
            None => e.before.rrule.clone(),
        }
    } else {
        e.before.rrule.clone()
    }
}

fn make_plan(e: &Edit, start: Start) -> (r: Plan)
    ensures
        is_plan(r, *e, start),
{
    let description = match &e.patch.description {
        Some(d) => d.clone(),
        None => e.before.description.clone(),
    };
    let weekend_rule = match &e.patch.weekend_rule {
        Some(w) => w.clone(),
        None => e.before.weekend_rule.clone(),
    };
    let rule_changed = changes_rule(e);
    let route_changed = !same_ints(new_route(e), &e.before.route);
    let amounts_changed = !same_ints(new_amounts(e), &e.before.amounts);
    let until_on = new_end(e);
    let mut changed: Vec<String> = Vec::new();
    assert(views(changed@) =~= Seq::<Seq<char>>::empty());
    note_change(
        &mut changed,
        !str_eq(description.as_str(), e.before.description.as_str()),
        "description",
    );
    assert(views(changed@) =~= names_if(name_set(*e) != e.before.description@, "description"@));
    note_change(&mut changed, rule_changed, "rrule");
    note_change(&mut changed, start.dtstart.days != e.before.dtstart.days, "dtstart");
    note_change(&mut changed, !same_end(until_on, e.before.until_on), "until_on");
    note_change(
        &mut changed,
        !str_eq(weekend_rule.as_str(), e.before.weekend_rule.as_str()),
        "weekend_rule",
    );
    note_change(&mut changed, route_changed, "route");
    note_change(&mut changed, amounts_changed, "amounts");
    let after = Terms {
        description,
        rrule: new_rule(e),
        dtstart: start.dtstart,
        until_on,
        weekend_rule,
        route: copy_ints(new_route(e)),
        amounts: copy_ints(new_amounts(e)),
    };
    Plan { start, after, changed, rule_changed, route_changed, amounts_changed }
}

/// Whether an outcome is what an edit comes to, given what an expander answers.
pub open spec fn planned(
    r: Result<Plan, EditError>,
    e: Edit,
    earlier_days: Answer,
    new_days: Answer,
    open: Answer,
    bounded: Answer,
) -> bool {
    if plain_refusal(e) is Some {
        r matches Err(x) && is_refusal(x, plain_refusal(e)->0)
    } else {
        match start_of(e, earlier_days, new_days) {
            Err(why) => r matches Err(x) && is_refusal(x, why),
            Ok(start) => match dated_refusal(e, start, open, bounded) {
                Some(why) => r matches Err(x) && is_refusal(x, why),
                None => r matches Ok(p) && is_plan(p, e, start),
            },
        }
    }
}

fn check_plain(e: &Edit) -> (r: Result<(), EditError>)
    ensures
        outcome_is(r, plain_refusal(*e)),
{
    if let Err(x) = check_fields(e) {
        return Err(x);
    }
    if let Err(x) = check_start(e) {
        return Err(x);
    }
    if let Err(x) = check_template(e) {
        return Err(x);
    }
    check_money(e)
}

fn finish_plan(
    e: &Edit,
    start: Start,
    open: &Result<Vec<Date>, String>,
    bounded: &Result<Vec<Date>, String>,
) -> (r: Result<Plan, EditError>)
    ensures
        match dated_refusal(*e, start, answer_view(*open), answer_view(*bounded)) {
            Some(why) => r matches Err(x) && is_refusal(x, why),
            None => r matches Ok(p) && is_plan(p, *e, start),
        },
{
    if changes_rule(e) || start.dtstart.days != e.before.dtstart.days || start.split {
        let rule = new_rule(e);
        if let Err(x) = check_rule(rule.as_str(), start.dtstart, open, bounded) {
            return Err(x);
        }
    }
    if let Some(u) = new_end(e) {
        if u.days < start.dtstart.days {
            let mut m = "it would end on ".to_string();
            let a = dmy(u);
            m.append(a.as_str());
            m.append(", before it starts on ");
            let b = dmy(start.dtstart);
            m.append(b.as_str());
            return Err(bad(m.as_str()));
        }
    }
    Ok(make_plan(e, start))
}

/// What an edit comes to, given what the old rule pays before its date, what the new one pays from
/// it, and what the new one pays over two years without its end and with it.
pub fn plan_given(
    e: &Edit,
    earlier_days: &Result<Vec<Date>, String>,
    new_days: &Result<Vec<Date>, String>,
    open: &Result<Vec<Date>, String>,
    bounded: &Result<Vec<Date>, String>,
) -> (r: Result<Plan, EditError>)
    requires
        days_fit(*e),
    ensures
        planned(
            r,
            *e,
            answer_view(*earlier_days),
            answer_view(*new_days),
            answer_view(*open),
            answer_view(*bounded),
        ),
{
    if let Err(x) = check_plain(e) {
        return Err(x);
    }
    match start_given(e, earlier_days, new_days) {
        Err(x) => Err(x),
        Ok(start) => finish_plan(e, start, open, bounded),
    }
}

/// The day a number of days is.
pub open spec fn day_at(n: int) -> Date {
    Date { days: n as i32 }
}

/// The question what the old rule pays before the date of an edit.
pub open spec fn earlier_ask(e: Edit) -> Ask {
    let from = match e.patch.from_on {
        Some(f) => f.days as int,
        None => e.before.dtstart.days as int,
    };
    Ask {
        rule: e.before.rrule@,
        dtstart: e.before.dtstart,
        until: e.before.until_on,
        lo: e.before.dtstart,
        hi: day_at(from - 1),
    }
}

/// The question what the new rule pays from the date of an edit. An unchanged rule is anchored at
/// its own start, so that the first payment of a new part is the first slot it already had, not a
/// new cycle begun on that date.
pub open spec fn new_ask(e: Edit) -> Ask {
    let from = match e.patch.from_on {
        Some(f) => f,
        None => day_at(resume_day(e)),
    };
    Ask {
        rule: rule_set(e),
        dtstart: if e.patch.from_on is Some && !rule_changes(e) {
            e.before.dtstart
        } else {
            from
        },
        until: end_set(e),
        lo: from,
        hi: day_at(two_years_on(from.days as int)),
    }
}

/// Whether an outcome is what an edit comes to, by some answers of an expander.
pub open spec fn plans<R: Recurrence>(recur: R, e: Edit, r: Result<Plan, EditError>) -> bool {
    exists|earlier: Answer, new_days: Answer, start: Date, open: Answer, bounded: Answer|
        #![trigger answers(recur, earlier_ask(e), earlier), answers(recur, new_ask(e), new_days), check_answers(recur, e, start, open, bounded)]
        answers(recur, earlier_ask(e), earlier) && answers(recur, new_ask(e), new_days)
            && check_answers(recur, e, start, open, bounded) && (start_of(
            e,
            earlier,
            new_days,
        ) matches Ok(s) ==> s.dtstart == start) && planned(
            r,
            e,
            earlier,
            new_days,
            open,
            bounded,
        )
}

/// Whether answers are those by which the rule of an edit is checked from a start.
pub open spec fn check_answers<R: Recurrence>(
    recur: R,
    e: Edit,
    start: Date,
    open: Answer,
    bounded: Answer,
) -> bool {
    let asks = check_asks(
        rule_set(e),
        start,
        end_set(e),
        day_at(two_years_on(start.days as int)),
    );
    answers(recur, asks.0, open) && answers(recur, asks.1, bounded)
}

/// What an edit comes to: its terms before and after, where it starts, and whether it splits the
/// rule; or why it is refused.
pub fn plan<R: Recurrence>(recur: &R, e: &Edit) -> (r: Result<Plan, EditError>)
    requires
        days_fit(*e),
    ensures
        plans(*recur, *e, r),
{
    let rule = new_rule(e);
    let end = new_end(e);
    let from = match e.patch.from_on {
        Some(f) => f,
        None => e.before.dtstart,
    };
    let before = put_ask(
        recur,
        e.before.rrule.as_str(),
        e.before.dtstart,
        e.before.until_on,
        e.before.dtstart,
        Date { days: from.days - 1 },
    );
    let new_days = match e.patch.from_on {
        Some(f) => {
            let anchor = if changes_rule(e) {
                f
            } else {
                e.before.dtstart
            };
            put_ask(recur, rule.as_str(), anchor, end, f, two_years(f))
        },
        None => {
            let f = resume(e);
            put_ask(recur, rule.as_str(), f, end, f, two_years(f))
        },
    };
    let start = start_given(e, &before, &new_days);
    let at = match &start {
        Ok(s) => s.dtstart,
        Err(_) => e.before.dtstart,
    };
    let far = two_years(at);
    let open = put_ask(recur, rule.as_str(), at, None, at, far);
    let bounded = put_ask(recur, rule.as_str(), at, end, at, far);
    let r = plan_given(e, &before, &new_days, &open, &bounded);
    proof {
        assert(answers(*recur, earlier_ask(*e), answer_view(before)));
        assert(answers(*recur, new_ask(*e), answer_view(new_days)));
        assert(check_answers(*recur, *e, at, answer_view(open), answer_view(bounded)));
    }
    r
}

} // verus!
