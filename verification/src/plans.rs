//! Recurring payments as they are entered: which rows move together, what a chain of them must be,
//! what a change to one occurrence comes to on each hop, and what a rule will do before it is saved.

use crate::book::{account_of, find, known, Account};
use crate::date::{read_day, Date, MAX_DAYS};
use crate::digits::{int_digits, int_text};
use crate::lists::{first, lemma_first};
use crate::money::Minor;
use crate::recur::{adjusted, business_adjust, Ask, Recurrence};
use crate::revise::{
    answer_view, answers, is_refusal, not_positive, outcome_is, put_ask, stays_put, Answer, Refusal,
};
use crate::rules::Hop;
use crate::shape::MoneyLegs;
use crate::sorting::{rank, ranked, Ranked};
use crate::text::{str_eq, text_less, text_lt};
use crate::wording::{bad, fail, EditError};
use vstd::prelude::*;

verus! {

broadcast use vstd::string::group_string_axioms;

/// A row of a family: a plain recurring payment, or a hop of a chain.
#[derive(Debug, Clone, Copy, PartialEq, Eq, Structural)]
pub struct FamilyRow {
    pub id: i64,
    pub chain_seq: Option<i64>,
}

/// Rows stand by their place in the chain, those with none first, then by their ids.
impl Ranked for FamilyRow {
    open spec fn before(&self, other: &Self) -> bool {
        match (self.chain_seq, other.chain_seq) {
            (None, None) => self.id < other.id,
            (None, Some(_)) => true,
            (Some(_), None) => false,
            (Some(a), Some(b)) => a < b || (a == b && self.id < other.id),
        }
    }

    fn comes_before(&self, other: &Self) -> (r: bool) {
        match (self.chain_seq, other.chain_seq) {
            (None, None) => self.id < other.id,
            (None, Some(_)) => true,
            (Some(_), None) => false,
            (Some(a), Some(b)) => a < b || (a == b && self.id < other.id),
        }
    }
}

/// Whether the row at a place has an id.
pub open spec fn has_id(hops: Seq<Hop>, id: i64) -> spec_fn(int) -> bool {
    |i: int| hops[i].id == id
}

/// The chain a row is of, if any.
pub open spec fn chain_of(hops: Seq<Hop>, id: i64) -> Option<i64> {
    let k = first(hops.len() as int, has_id(hops, id));
    if k < hops.len() {
        hops[k].chain_id
    } else {
        None
    }
}

/// Whether a row moves with another.
pub open spec fn moves_with(hops: Seq<Hop>, id: i64, h: Hop) -> bool {
    h.id == id || (chain_of(hops, id) is Some && h.chain_id == chain_of(hops, id))
}

/// The first rows among those that move with another, as they come.
pub open spec fn family_of(hops: Seq<Hop>, id: i64, n: int) -> Seq<FamilyRow>
    decreases n,
{
    if n <= 0 {
        Seq::empty()
    } else {
        let rest = family_of(hops, id, n - 1);
        let h = hops[n - 1];
        if moves_with(hops, id, h) {
            rest.push(FamilyRow { id: h.id, chain_seq: h.chain_seq })
        } else {
            rest
        }
    }
}

fn find_chain(hops: &Vec<Hop>, id: i64) -> (r: Option<i64>)
    ensures
        r == chain_of(hops@, id),
{
    let mut i: usize = 0;
    while i < hops.len()
        invariant
            i <= hops@.len(),
            forall|j: int| 0 <= j < i ==> !#[trigger] has_id(hops@, id)(j),
        decreases hops@.len() - i,
    {
        if hops[i].id == id {
            proof {
                lemma_first(hops@.len() as int, has_id(hops@, id), i as int);
            }
            return hops[i].chain_id;
        }
        i = i + 1;
    }
    proof {
        lemma_first(hops@.len() as int, has_id(hops@, id), i as int);
    }
    None
}

/// Every row that must move with another: itself, and for a hop of a chain every other hop of that
/// chain, in hop order. None where there is no such row.
pub fn series_family(hops: &Vec<Hop>, id: i64) -> (r: Vec<FamilyRow>)
    ensures
        r@ == ranked(family_of(hops@, id, hops@.len() as int)),
{
    let chain = find_chain(hops, id);
    let mut out: Vec<FamilyRow> = Vec::new();
    let mut i: usize = 0;
    while i < hops.len()
        invariant
            i <= hops@.len(),
            chain == chain_of(hops@, id),
            out@ == family_of(hops@, id, i as int),
        decreases hops@.len() - i,
    {
        let h = &hops[i];
        let same = match (chain, h.chain_id) {
            (Some(a), Some(b)) => a == b,
            _ => false,
        };
        if h.id == id || same {
            out.push(FamilyRow { id: h.id, chain_seq: h.chain_seq });
        }
        i = i + 1;
    }
    rank(out)
}

/// Why a row cannot supersede another: superseding any leg of a chain suppresses the whole chain, so
/// it can only mean to cancel it, and only from its first leg.
pub open spec fn supersede_refusal(chain_seq: Option<i64>, postings: nat) -> Option<Refusal> {
    match chain_seq {
        Some(q) => if q > 0 {
            Some(("bad_params"@, "cancel a recurring chain by its first leg"@))
        } else if postings > 0 {
            Some(
                (
                    "bad_params"@,
                    "a recurring chain can only be cancelled in a scenario, not replaced leg by leg"@,
                ),
            )
        } else {
            None
        },
        None => None,
    }
}

/// Whether a row with some postings can supersede one at a place in a chain.
pub fn check_supersedes(chain_seq: Option<i64>, postings: usize) -> (r: Result<(), EditError>)
    ensures
        outcome_is(r, supersede_refusal(chain_seq, postings as nat)),
{
    if let Some(q) = chain_seq {
        if q > 0 {
            return Err(bad("cancel a recurring chain by its first leg"));
        }
        if postings > 0 {
            return Err(
                bad(
                    "a recurring chain can only be cancelled in a scenario, not replaced leg by leg",
                ),
            );
        }
    }
    Ok(())
}

/// What is said of an end before a start.
pub open spec fn ends_early(until: Seq<char>, start: Seq<char>) -> Refusal {
    ("bad_params"@, "it would end on "@ + until + ", before it starts on "@ + start)
}

fn say_ends_early(until: &str, start: &str) -> (r: EditError)
    ensures
        is_refusal(r, ends_early(until@, start@)),
{
    let mut m = "it would end on ".to_string();
    m.append(until);
    m.append(", before it starts on ");
    m.append(start);
    bad(m.as_str())
}

/// Why the dates of a chain are refused.
pub open spec fn dates_refusal(start: Seq<char>, until: Option<Seq<char>>) -> Option<Refusal> {
    match read_day(start, "%Y-%m-%d"@) {
        None => Some(("bad_params"@, "dtstart must be YYYY-MM-DD"@)),
        Some(s) => match until {
            None => None,
            Some(u) => match read_day(u, "%Y-%m-%d"@) {
                None => Some(("bad_params"@, "until_on must be YYYY-MM-DD"@)),
                Some(e) => if e < s {
                    Some(ends_early(u, start))
                } else {
                    None
                },
            },
        },
    }
}

/// The day a chain starts, or why its dates are refused.
pub fn chain_start(start: &str, until: Option<&str>) -> (r: Result<Date, EditError>)
    ensures
        ({
            let end = match until {
                Some(u) => Some(u@),
                None => None,
            };
            match dates_refusal(start@, end) {
                Some(why) => r matches Err(e) && is_refusal(e, why),
                None => r matches Ok(d) && read_day(start@, "%Y-%m-%d"@) == Some(d.days as int)
                    && d.in_range(),
            }
        }),
{
    let s = match Date::parse(start) {
        Some(d) => d,
        None => return Err(bad("dtstart must be YYYY-MM-DD")),
    };
    if let Some(u) = until {
        match Date::parse(u) {
            None => return Err(bad("until_on must be YYYY-MM-DD")),
            Some(e) => {
                if e.days < s.days {
                    return Err(say_ends_early(u, start));
                }
            },
        }
    }
    Ok(s)
}

/// Why an end is refused, for a payment that starts on a day.
pub open spec fn end_text_refusal(until: Option<Seq<char>>, start: Seq<char>) -> Option<Refusal> {
    match until {
        None => None,
        Some(u) => if read_day(u, "%Y-%m-%d"@) is None {
            Some(("bad_params"@, "until_on must be YYYY-MM-DD"@))
        } else if text_lt(u, start) {
            Some(ends_early(u, start))
        } else {
            None
        },
    }
}

/// Whether a payment can end on a day, given the day it starts. The end is counted: an occurrence that
/// falls on it still happens.
pub fn check_end(until: Option<&str>, start: &str) -> (r: Result<(), EditError>)
    ensures
        outcome_is(
            r,
            end_text_refusal(
                match until {
                    Some(u) => Some(u@),
                    None => None,
                },
                start@,
            ),
        ),
{
    if let Some(u) = until {
        if Date::parse(u).is_none() {
            return Err(bad("until_on must be YYYY-MM-DD"));
        }
        if text_less(u, start) {
            return Err(say_ends_early(u, start));
        }
    }
    Ok(())
}

/// Whether the account at a place of a route may not be posted to.
pub open spec fn is_barred(accounts: Seq<Account>, route: Seq<i64>) -> spec_fn(int) -> bool {
    |i: int| !known(accounts, route[i]) || account_of(accounts, route[i]).system
}

/// What is said of an account that may not be posted to.
pub open spec fn barred(accounts: Seq<Account>, id: i64) -> Refusal {
    if !known(accounts, id) {
        ("no_such_account"@, "no such account: "@ + int_digits(id as int))
    } else {
        (
            "system_account"@,
            account_of(accounts, id).name@ + " is a system account -- only the core may post to it"@,
        )
    }
}

/// Whether the account at a place of a route holds another currency than the first.
pub open spec fn holds_other(accounts: Seq<Account>, route: Seq<i64>) -> spec_fn(int) -> bool {
    |i: int|
        account_of(accounts, route[i]).currency@ != account_of(accounts, route[0]).currency@
}

/// Whether money cannot sit in the account at a place of a route, the place being a stop.
pub open spec fn cannot_stop(accounts: Seq<Account>, route: Seq<i64>) -> spec_fn(int) -> bool {
    |i: int|
        i > 0 && account_of(accounts, route[i]).kind@ != "asset"@ && account_of(
            accounts,
            route[i],
        ).kind@ != "liability"@
}

/// Why a chain is refused for its accounts: one may not be posted to, one holds another currency, or
/// money cannot sit in one on the way.
pub open spec fn route_refusal(accounts: Seq<Account>, route: Seq<i64>) -> Option<Refusal> {
    let n = route.len() as int;
    let b = first(n, is_barred(accounts, route));
    let o = first(n, holds_other(accounts, route));
    let s = first(n - 1, cannot_stop(accounts, route));
    if b < n {
        Some(barred(accounts, route[b]))
    } else if o < n {
        let (x, y) = (account_of(accounts, route[0]), account_of(accounts, route[o]));
        Some(
            (
                "bad_chain"@,
                "a chain stays in one currency: "@ + x.name@ + " holds "@ + x.currency@ + " but "@
                    + y.name@ + " holds "@ + y.currency@ + " -- record that leg as a conversion"@,
            ),
        )
    } else if s < n - 1 {
        let x = account_of(accounts, route[s]);
        Some(
            (
                "bad_chain"@,
                "money can only pass through an asset or liability account: "@ + x.name@
                    + " is an "@ + x.kind@ + " account"@,
            ),
        )
    } else {
        None
    }
}

/// Why a chain is refused for its amounts and stops.
pub open spec fn amounts_refusal(route: Seq<i64>, amounts: Seq<i64>) -> Option<Refusal> {
    let n = amounts.len() as int;
    let p = first(n, not_positive(amounts));
    let s = first(n, stays_put(route));
    if n < 2 {
        Some(("bad_chain"@, "a chain needs at least one stop between from and to"@))
    } else if p < n {
        Some(
            (
                "bad_chain"@,
                "every leg of a chain moves a positive amount, and "@ + int_digits(
                    amounts[p] as int,
                ) + " is not one"@,
            ),
        )
    } else if s < n {
        Some(("bad_chain"@, "a chain cannot move money from an account to itself"@))
    } else {
        None
    }
}

/// Why a chain is refused, given what its rule expands to: for its amounts, because the rule does not
/// expand, or for its accounts.
pub open spec fn series_chain_refusal(
    accounts: Seq<Account>,
    route: Seq<i64>,
    amounts: Seq<i64>,
    days: Answer,
) -> Option<Refusal> {
    if amounts_refusal(route, amounts) is Some {
        amounts_refusal(route, amounts)
    } else if days is Err {
        Some(("bad_rule"@, days->Err_0))
    } else {
        route_refusal(accounts, route)
    }
}

/// Whether legs are those of a hop of a chain: its primary leg is on the account money leaves, which
/// is what a statement line for that account is matched against.
pub open spec fn are_hop_legs(l: MoneyLegs, from: i64, to: i64, amount: int) -> bool {
    &&& l.primary_account == from
    &&& l.primary_minor == -amount
    &&& l.balancing_account == to
    &&& l.balancing_minor == amount
}

/// Whether these are the legs of a chain, hop by hop.
pub open spec fn are_chain_legs(v: Seq<MoneyLegs>, route: Seq<i64>, amounts: Seq<i64>) -> bool {
    v.len() == amounts.len() && forall|i: int|
        0 <= i < v.len() ==> are_hop_legs(
            #[trigger] v[i],
            route[i],
            route[i + 1],
            amounts[i] as int,
        )
}

fn check_amounts(route: &Vec<i64>, amounts: &Vec<Minor>) -> (r: Result<(), EditError>)
    requires
        route@.len() == amounts@.len() + 1,
    ensures
        outcome_is(r, amounts_refusal(route@, amounts@)),
{
    let n: usize = amounts.len();
    if n < 2 {
        return Err(
            fail("bad_chain", "a chain needs at least one stop between from and to".to_string()),
        );
    }
    let mut i: usize = 0;
    while i < n
        invariant
            i <= n,
            n == amounts@.len(),
            n >= 2,
            forall|j: int| 0 <= j < i ==> !#[trigger] not_positive(amounts@)(j),
        decreases n - i,
    {
        if amounts[i] <= 0 {
            proof {
                lemma_first(n as int, not_positive(amounts@), i as int);
            }
            let mut m = "every leg of a chain moves a positive amount, and ".to_string();
            let a = int_text(amounts[i] as i128);
            m.append(a.as_str());
            m.append(" is not one");
            return Err(fail("bad_chain", m));
        }
        i = i + 1;
    }
    proof {
        lemma_first(n as int, not_positive(amounts@), i as int);
    }
    let mut k: usize = 0;
    while k < n
        invariant
            k <= n,
            n == amounts@.len(),
            n >= 2,
            route@.len() == n + 1,
            first(n as int, not_positive(amounts@)) == n,
            forall|j: int| 0 <= j < k ==> !#[trigger] stays_put(route@)(j),
        decreases n - k,
    {
        if route[k] == route[k + 1] {
            proof {
                lemma_first(n as int, stays_put(route@), k as int);
            }
            return Err(
                fail("bad_chain", "a chain cannot move money from an account to itself".to_string()),
            );
        }
        k = k + 1;
    }
    proof {
        lemma_first(n as int, stays_put(route@), k as int);
    }
    Ok(())
}

fn find_barred(accounts: &Vec<Account>, route: &Vec<i64>) -> (r: usize)
    ensures
        r == first(route@.len() as int, is_barred(accounts@, route@)),
        r <= route@.len(),
{
    let mut i: usize = 0;
    while i < route.len()
        invariant
            i <= route@.len(),
            forall|j: int| 0 <= j < i ==> !#[trigger] is_barred(accounts@, route@)(j),
        decreases route@.len() - i,
    {
        let out = match find(accounts, route[i]) {
            Some(k) => accounts[k].system,
            None => true,
        };
        if out {
            proof {
                lemma_first(route@.len() as int, is_barred(accounts@, route@), i as int);
            }
            return i;
        }
        i = i + 1;
    }
    proof {
        lemma_first(route@.len() as int, is_barred(accounts@, route@), i as int);
    }
    i
}

fn say_barred(accounts: &Vec<Account>, id: i64) -> (r: EditError)
    ensures
        is_refusal(r, barred(accounts@, id)),
{
    match find(accounts, id) {
        None => {
            let mut m = "no such account: ".to_string();
            let n = int_text(id as i128);
            m.append(n.as_str());
            fail("no_such_account", m)
        },
        Some(i) => {
            let mut m = accounts[i].name.clone();
            m.append(" is a system account -- only the core may post to it");
            fail("system_account", m)
        },
    }
}

fn check_route(accounts: &Vec<Account>, route: &Vec<i64>) -> (r: Result<(), EditError>)
    requires
        route@.len() > 0,
    ensures
        outcome_is(r, route_refusal(accounts@, route@)),
{
    let n: usize = route.len();
    let b: usize = find_barred(accounts, route);
    if b < n {
        return Err(say_barred(accounts, route[b]));
    }
    proof {
        crate::lists::lemma_first_is(n as int, is_barred(accounts@, route@));
        assert forall|j: int| 0 <= j < n implies known(accounts@, #[trigger] route@[j]) by {
            assert(!is_barred(accounts@, route@)(j));
        }
    }
    assert(known(accounts@, route@[0]));
    let head: usize = match find(accounts, route[0]) {
        Some(k) => k,
        None => 0,
    };
    let mut i: usize = 0;
    while i < n
        invariant
            i <= n,
            n == route@.len(),
            n > 0,
            b == n,
            b == first(n as int, is_barred(accounts@, route@)),
            head < accounts@.len(),
            accounts@[head as int] == account_of(accounts@, route@[0]),
            forall|j: int| 0 <= j < n ==> known(accounts@, #[trigger] route@[j]),
            forall|j: int| 0 <= j < i ==> !#[trigger] holds_other(accounts@, route@)(j),
        decreases n - i,
    {
        assert(known(accounts@, route@[i as int]));
        let k: usize = match find(accounts, route[i]) {
            Some(k) => k,
            None => head,
        };
        if !str_eq(accounts[k].currency.as_str(), accounts[head].currency.as_str()) {
            proof {
                lemma_first(n as int, holds_other(accounts@, route@), i as int);
            }
            let mut m = "a chain stays in one currency: ".to_string();
            m.append(accounts[head].name.as_str());
            m.append(" holds ");
            m.append(accounts[head].currency.as_str());
            m.append(" but ");
            m.append(accounts[k].name.as_str());
            m.append(" holds ");
            m.append(accounts[k].currency.as_str());
            m.append(" -- record that leg as a conversion");
            return Err(fail("bad_chain", m));
        }
        i = i + 1;
    }
    proof {
        lemma_first(n as int, holds_other(accounts@, route@), i as int);
    }
    let mut s: usize = 0;
    while s < n - 1
        invariant
            s <= n - 1,
            n == route@.len(),
            n > 0,
            b == n,
            b == first(n as int, is_barred(accounts@, route@)),
            head < accounts@.len(),
            first(n as int, holds_other(accounts@, route@)) == n,
            forall|j: int| 0 <= j < n ==> known(accounts@, #[trigger] route@[j]),
            forall|j: int| 0 <= j < s ==> !#[trigger] cannot_stop(accounts@, route@)(j),
        decreases n - s,
    {
        assert(known(accounts@, route@[s as int]));
        let k: usize = match find(accounts, route[s]) {
            Some(k) => k,
            None => head,
        };
        if s > 0 && !str_eq(accounts[k].kind.as_str(), "asset") && !str_eq(
            accounts[k].kind.as_str(),
            "liability",
        ) {
            proof {
                lemma_first(n - 1, cannot_stop(accounts@, route@), s as int);
            }
            let mut m = "money can only pass through an asset or liability account: ".to_string();
            m.append(accounts[k].name.as_str());
            m.append(" is an ");
            m.append(accounts[k].kind.as_str());
            m.append(" account");
            return Err(fail("bad_chain", m));
        }
        s = s + 1;
    }
    proof {
        lemma_first(n - 1, cannot_stop(accounts@, route@), s as int);
    }
    Ok(())
}

/// The legs of a recurring chain, hop by hop, or why it is refused, given what its rule expands to.
pub fn series_chain_given(
    accounts: &Vec<Account>,
    route: &Vec<i64>,
    amounts: &Vec<Minor>,
    days: &Result<Vec<Date>, String>,
) -> (r: Result<Vec<MoneyLegs>, EditError>)
    requires
        route@.len() == amounts@.len() + 1,
    ensures
        match series_chain_refusal(accounts@, route@, amounts@, answer_view(*days)) {
            Some(why) => r matches Err(e) && is_refusal(e, why),
            None => r matches Ok(v) && are_chain_legs(v@, route@, amounts@),
        },
{
    match check_amounts(route, amounts) {
        Err(e) => return Err(e),
        Ok(_) => {},
    }
    if let Err(m) = days {
        return Err(fail("bad_rule", m.clone()));
    }
    match check_route(accounts, route) {
        Err(e) => return Err(e),
        Ok(_) => {},
    }
    let n: usize = amounts.len();
    proof {
        crate::lists::lemma_first_is(n as int, not_positive(amounts@));
    }
    let mut out: Vec<MoneyLegs> = Vec::new();
    let mut i: usize = 0;
    while i < n
        invariant
            i <= n,
            n == amounts@.len(),
            route@.len() == n + 1,
            forall|j: int| 0 <= j < n ==> !#[trigger] not_positive(amounts@)(j),
            out@.len() == i,
            forall|j: int|
                0 <= j < i ==> are_hop_legs(
                    #[trigger] out@[j],
                    route@[j],
                    route@[j + 1],
                    amounts@[j] as int,
                ),
        decreases n - i,
    {
        assert(!not_positive(amounts@)(i as int));
        out.push(
            MoneyLegs {
                primary_account: route[i],
                primary_minor: -amounts[i],
                balancing_account: route[i + 1],
                balancing_minor: amounts[i],
            },
        );
        i = i + 1;
    }
    Ok(out)
}

/// The days over which a rule is expanded to see that it does.
pub const CHECK_DAYS: i32 = 732;

/// The question whether a rule expands.
pub open spec fn expands_ask(rrule: Seq<char>, start: Date) -> Ask {
    Ask {
        rule: rrule,
        dtstart: start,
        until: None,
        lo: start,
        hi: Date { days: (start.days + CHECK_DAYS) as i32 },
    }
}

/// The legs of a recurring chain, hop by hop, or why it is refused. The rule has to expand, or every
/// hop would fail together in the next forecast.
pub fn series_chain<R: Recurrence>(
    recur: &R,
    accounts: &Vec<Account>,
    rrule: &str,
    start: Date,
    route: &Vec<i64>,
    amounts: &Vec<Minor>,
) -> (r: Result<Vec<MoneyLegs>, EditError>)
    requires
        route@.len() == amounts@.len() + 1,
        start.in_range(),
        start.days + CHECK_DAYS <= MAX_DAYS,
    ensures
        exists|days: Answer|
            #![trigger answers(*recur, expands_ask(rrule@, start), days)]
            answers(*recur, expands_ask(rrule@, start), days) && match series_chain_refusal(
                accounts@,
                route@,
                amounts@,
                days,
            ) {
                Some(why) => r matches Err(e) && is_refusal(e, why),
                None => r matches Ok(v) && are_chain_legs(v@, route@, amounts@),
            },
{
    let hi = Date { days: start.days + CHECK_DAYS };
    let days = put_ask(recur, rrule, start, None, start, hi);
    assert(answers(*recur, expands_ask(rrule@, start), answer_view(days)));
    series_chain_given(accounts, route, amounts, &days)
}

/// A chain carries the money on: each hop leaves the account the one before arrived at, and its two
/// legs come to nothing.
pub proof fn law_a_recurring_chain_is_connected_and_balances(
    v: Seq<MoneyLegs>,
    route: Seq<i64>,
    amounts: Seq<i64>,
    i: int,
)
    requires
        are_chain_legs(v, route, amounts),
        0 <= i < v.len(),
    ensures
        v[i].primary_minor + v[i].balancing_minor == 0,
        i > 0 ==> v[i].primary_account == v[i - 1].balancing_account,
{
    assert(are_hop_legs(v[i], route[i], route[i + 1], amounts[i] as int));
    if i > 0 {
        assert(are_hop_legs(v[i - 1], route[i - 1], route[i], amounts[i - 1] as int));
    }
}

/// The amount of a row's primary leg.
#[derive(Debug, Clone, Copy)]
pub struct Primary {
    pub series_id: i64,
    pub amount_minor: Minor,
}

/// Whether the leg at a place is of a row.
pub open spec fn is_leg_of(all: Seq<Primary>, id: i64) -> spec_fn(int) -> bool {
    |i: int| all[i].series_id == id
}

/// The amount of a row's primary leg, another where it has none.
pub open spec fn primary_or(all: Seq<Primary>, id: i64, other: i64) -> i64 {
    let k = first(all.len() as int, is_leg_of(all, id));
    if k < all.len() {
        all[k].amount_minor
    } else {
        other
    }
}

/// The size of an amount.
pub open spec fn magnitude(n: i64) -> int {
    if n < 0 {
        -n
    } else {
        n as int
    }
}

/// The size a hop's amount gets: the amount given is a size on the leg it was set on, and travels
/// through a chain as a difference from it, so that a fee stays a fee.
pub open spec fn hop_size(all: Seq<Primary>, set_on: i64, id: i64, amount: i64) -> int {
    let clicked = primary_or(all, set_on, amount);
    let mine = primary_or(all, id, clicked);
    magnitude(mine) + (magnitude(amount) - magnitude(clicked))
}

/// The amount a hop gets: that size, in the direction its template already has.
pub open spec fn hop_amount(all: Seq<Primary>, set_on: i64, id: i64, amount: i64) -> int {
    let clicked = primary_or(all, set_on, amount);
    if primary_or(all, id, clicked) < 0 {
        -hop_size(all, set_on, id, amount)
    } else {
        hop_size(all, set_on, id, amount)
    }
}

/// Whether the hop at a place would go below zero.
pub open spec fn goes_below(all: Seq<Primary>, family: Seq<i64>, set_on: i64, amount: i64) -> spec_fn(
    int,
) -> bool {
    |i: int| hop_size(all, set_on, family[i], amount) < 0
}

fn find_primary(all: &Vec<Primary>, id: i64, other: i64) -> (r: i64)
    ensures
        r == primary_or(all@, id, other),
{
    let mut i: usize = 0;
    while i < all.len()
        invariant
            i <= all@.len(),
            forall|j: int| 0 <= j < i ==> !#[trigger] is_leg_of(all@, id)(j),
        decreases all@.len() - i,
    {
        if all[i].series_id == id {
            proof {
                lemma_first(all@.len() as int, is_leg_of(all@, id), i as int);
            }
            return all[i].amount_minor;
        }
        i = i + 1;
    }
    proof {
        lemma_first(all@.len() as int, is_leg_of(all@, id), i as int);
    }
    other
}

fn size_of(n: i64) -> (r: i128)
    ensures
        r == magnitude(n),
        0 <= r <= 0x8000_0000_0000_0000,
{
    if n < 0 {
        -(n as i128)
    } else {
        n as i128
    }
}

/// What an amount set on one hop comes to on each hop of its family. An override is a property of the
/// occurrence, and for a chain the occurrence is all of its hops.
pub fn override_amounts(all: &Vec<Primary>, family: &Vec<i64>, set_on: i64, amount: Minor) -> (r:
    Result<Vec<Minor>, EditError>)
    requires
        forall|i: int|
            0 <= i < family@.len() ==> hop_size(all@, set_on, #[trigger] family@[i], amount)
                <= i64::MAX,
    ensures
        ({
            let n = family@.len() as int;
            let k = first(n, goes_below(all@, family@, set_on, amount));
            if k < n {
                r matches Err(e) && is_refusal(
                    e,
                    (
                        "bad_params"@,
                        "that would take leg "@ + int_digits(k + 1)
                            + " of the chain below zero"@,
                    ),
                )
            } else {
                r matches Ok(v) && v@.len() == n && forall|i: int|
                    0 <= i < n ==> #[trigger] v@[i] == hop_amount(
                        all@,
                        set_on,
                        family@[i],
                        amount,
                    )
            }
        }),
{
    let clicked: i64 = find_primary(all, set_on, amount);
    let n: usize = family.len();
    let mut out: Vec<Minor> = Vec::new();
    let mut i: usize = 0;
    while i < n
        invariant
            i <= n,
            n == family@.len(),
            clicked == primary_or(all@, set_on, amount),
            forall|i: int|
                0 <= i < family@.len() ==> hop_size(all@, set_on, #[trigger] family@[i], amount)
                    <= i64::MAX,
            forall|j: int|
                0 <= j < i ==> !#[trigger] goes_below(all@, family@, set_on, amount)(j),
            out@.len() == i,
            forall|j: int|
                0 <= j < i ==> #[trigger] out@[j] == hop_amount(
                    all@,
                    set_on,
                    family@[j],
                    amount,
                ),
        decreases n - i,
    {
        let mine: i64 = find_primary(all, family[i], clicked);
        let size: i128 = size_of(mine) + (size_of(amount) - size_of(clicked));
        assert(size == hop_size(all@, set_on, family@[i as int], amount));
        if size < 0 {
            proof {
                lemma_first(n as int, goes_below(all@, family@, set_on, amount), i as int);
            }
            let mut m = "that would take leg ".to_string();
            let k = int_text(i as i128 + 1);
            m.append(k.as_str());
            m.append(" of the chain below zero");
            return Err(bad(m.as_str()));
        }
        let whole: i64 = size as i64;
        out.push(
            if mine < 0 {
                -whole
            } else {
                whole
            },
        );
        i = i + 1;
    }
    proof {
        lemma_first(n as int, goes_below(all@, family@, set_on, amount), i as int);
    }
    Ok(out)
}

/// An amount set on a plain payment is the size given, in the direction the payment already has: a
/// rent edited from the landlord's side does not turn into income.
pub proof fn law_an_override_keeps_the_direction(all: Seq<Primary>, id: i64, amount: i64)
    ensures
        magnitude(amount) == hop_size(all, id, id, amount),
        primary_or(all, id, amount) < 0 ==> hop_amount(all, id, id, amount) <= 0,
        primary_or(all, id, amount) >= 0 ==> hop_amount(all, id, id, amount) >= 0,
{
}

/// A day a rule will pay, and the day its money will move.
#[derive(Debug, Clone, Copy, PartialEq, Eq, Structural)]
pub struct PreviewDay {
    pub occurrence_on: Date,
    pub value_on: Date,
}

/// The days a preview reaches over: enough for a yearly rule.
pub const PREVIEW_DAYS: i32 = 4392;

/// The question what a rule will pay.
pub open spec fn preview_ask(rrule: Seq<char>, start: Date, until: Option<Date>) -> Ask {
    Ask {
        rule: rrule,
        dtstart: start,
        until,
        lo: start,
        hi: Date { days: (start.days + PREVIEW_DAYS) as i32 },
    }
}

/// How many days a preview shows: at least one, at most fifty.
pub open spec fn shown(count: i64) -> int {
    if count < 1 {
        1
    } else if count > 50 {
        50
    } else {
        count as int
    }
}

/// The first days, each with the day its money moves.
pub open spec fn preview_of(days: Seq<Date>, weekend: Seq<char>, count: i64) -> Seq<PreviewDay> {
    let n = if days.len() < shown(count) {
        days.len() as int
    } else {
        shown(count)
    };
    days.take(n).map_values(
        |d: Date|
            PreviewDay { occurrence_on: d, value_on: adjusted(d, weekend, Seq::empty()) },
    )
}

/// The first days of a rule, each with the day its money moves.
pub fn preview_given(days: &Vec<Date>, weekend: &str, count: i64) -> (r: Vec<PreviewDay>)
    ensures
        r@ == preview_of(days@, weekend@, count),
{
    let limit: usize = if count < 1 {
        1
    } else if count > 50 {
        50
    } else {
        count as usize
    };
    let n: usize = if days.len() < limit {
        days.len()
    } else {
        limit
    };
    let ghost all = preview_of(days@, weekend@, count);
    let none: Vec<Date> = Vec::new();
    assert(none@ =~= Seq::<Date>::empty());
    let mut out: Vec<PreviewDay> = Vec::new();
    let mut i: usize = 0;
    while i < n
        invariant
            i <= n,
            n <= days@.len(),
            all == preview_of(days@, weekend@, count),
            all.len() == n,
            none@ == Seq::<Date>::empty(),
            out@ == all.take(i as int),
        decreases n - i,
    {
        let d = days[i];
        let p = PreviewDay {
            occurrence_on: d,
            value_on: business_adjust(d, weekend, &none),
        };
        assert(all[i as int] == p);
        assert(all.take(i + 1) =~= all.take(i as int).push(p));
        out.push(p);
        i = i + 1;
    }
    assert(all.take(n as int) =~= all);
    out
}

/// What a rule will do, without saving anything.
pub fn preview<R: Recurrence>(
    recur: &R,
    rrule: &str,
    start: Date,
    until: Option<Date>,
    weekend: &str,
    count: i64,
) -> (r: Result<Vec<PreviewDay>, EditError>)
    requires
        start.in_range(),
        start.days + PREVIEW_DAYS <= MAX_DAYS,
    ensures
        exists|days: Answer|
            #![trigger answers(*recur, preview_ask(rrule@, start, until), days)]
            answers(*recur, preview_ask(rrule@, start, until), days) && match days {
                Ok(v) => r matches Ok(p) && p@ == preview_of(v, weekend@, count),
                Err(m) => r matches Err(e) && is_refusal(e, ("bad_rule"@, m)),
            },
{
    let hi = Date { days: start.days + PREVIEW_DAYS };
    let days = put_ask(recur, rrule, start, until, start, hi);
    assert(answers(*recur, preview_ask(rrule@, start, until), answer_view(days)));
    match days {
        Ok(v) => Ok(preview_given(&v, weekend, count)),
        Err(m) => Err(fail("bad_rule", m)),
    }
}

} // verus!
