//! Where one rule stands: its direction, what is wrong with it, what is recorded and adjusted under
//! it, and what it pays next.

use crate::book::{account_of, find, known, Account};
use crate::commitments::{counted, monthly_share};
use crate::date::{iso, Date};
use crate::digits::{int_digits, int_text};
use crate::forecast::{Occurrence, Series};
use crate::impact::{is_later, point_ons, Point, PointOn};
use crate::lists::{first, lemma_first};
use crate::money::{round_half_away, Minor};
use crate::paths::{holds, put, with_id};
use crate::reschedule::{claim_days, collect_claim_days, days_where, Claim};
use crate::rules::{in_bounds, places, Hop, HopLeg};
use crate::shape::{find_role, role_place, Shape};
use crate::sorting::{rank, ranked, Ranked};
use crate::text::{str_eq, text_less, text_lt};
use vstd::prelude::*;

verus! {

broadcast use vstd::string::group_string_axioms;

/// Which way a rule's money goes.
#[derive(Debug, Clone, Copy, PartialEq, Eq, Structural)]
pub enum Direction {
    Transfer,
    Out,
    In,
    Other,
}

/// Whether an account of a kind holds money of the household.
pub open spec fn is_balance_kind(k: Seq<char>) -> bool {
    k == "asset"@ || k == "liability"@
}

/// Whether an account holds money of the household.
pub open spec fn holds_money(accounts: Seq<Account>, id: i64) -> bool {
    known(accounts, id) && is_balance_kind(account_of(accounts, id).kind@)
}

/// The direction of a rule, from the kinds at the two ends of its route.
pub open spec fn direction_of(shape: Shape, accounts: Seq<Account>) -> Direction {
    let n = shape.route@.len();
    let a = n > 0 && holds_money(accounts, shape.route@[0]);
    let b = n > 0 && holds_money(accounts, shape.route@[n - 1]);
    if !shape.two_leg {
        Direction::Other
    } else if a && b {
        Direction::Transfer
    } else if a {
        Direction::Out
    } else if b {
        Direction::In
    } else {
        Direction::Other
    }
}

fn money_at(accounts: &Vec<Account>, id: i64) -> (r: bool)
    ensures
        r == holds_money(accounts@, id),
{
    match find(accounts, id) {
        Some(i) => str_eq(accounts[i].kind.as_str(), "asset") || str_eq(
            accounts[i].kind.as_str(),
            "liability",
        ),
        None => false,
    }
}

/// The direction of a rule, from the kinds at the two ends of its route.
pub fn direction(shape: &Shape, accounts: &Vec<Account>) -> (r: Direction)
    ensures
        r == direction_of(*shape, accounts@),
{
    let n: usize = shape.route.len();
    let a = n > 0 && money_at(accounts, shape.route[0]);
    let b = n > 0 && money_at(accounts, shape.route[n - 1]);
    if !shape.two_leg {
        Direction::Other
    } else if a && b {
        Direction::Transfer
    } else if a {
        Direction::Out
    } else if b {
        Direction::In
    } else {
        Direction::Other
    }
}

/// Whether a rule runs.
#[derive(Debug, Clone, Copy, PartialEq, Eq, Structural)]
pub enum Group {
    Running,
    NotStarted,
    Ended,
}

/// Whether a rule runs on a day, by the end of its newest part and the start of its oldest.
pub open spec fn group_of(until_on: Option<Date>, start: Date, as_of: Date) -> Group {
    if until_on matches Some(u) && u.days < as_of.days {
        Group::Ended
    } else if start.days > as_of.days {
        Group::NotStarted
    } else {
        Group::Running
    }
}

/// Whether a rule runs on a day, by the end of its newest part and the start of its oldest.
pub fn group(until_on: Option<Date>, start: Date, as_of: Date) -> (r: Group)
    ensures
        r == group_of(until_on, start, as_of),
{
    let over = match until_on {
        Some(u) => u.days < as_of.days,
        None => false,
    };
    if over {
        Group::Ended
    } else if start.days > as_of.days {
        Group::NotStarted
    } else {
        Group::Running
    }
}

/// Something wrong with a rule.
#[derive(Debug, Clone)]
pub struct Warning {
    /// Whether every forecast fails until it is mended.
    pub error: bool,
    pub text: String,
}

/// The contents of warnings.
pub open spec fn warning_views(v: Seq<Warning>) -> Seq<(bool, Seq<char>)> {
    v.map_values(|w: Warning| (w.error, w.text@))
}

/// Whether two hops agree about what the hops of a chain share.
pub open spec fn agree(a: Hop, b: Hop) -> bool {
    &&& a.description@ == b.description@
    &&& a.rrule@ == b.rrule@
    &&& a.dtstart == b.dtstart
    &&& a.until_on == b.until_on
    &&& a.weekend_rule@ == b.weekend_rule@
    &&& a.scenario_id == b.scenario_id
}

/// Whether every hop of a part agrees with its first.
pub open spec fn all_agree(hops: Seq<Hop>, part: Seq<int>) -> bool {
    forall|i: int| 0 <= i < part.len() ==> agree(#[trigger] hops[part[i]], hops[part[0]])
}

/// What legs come to in a currency.
pub open spec fn legs_in(legs: Seq<HopLeg>, currency: Seq<char>) -> int
    decreases legs.len(),
{
    if legs.len() == 0 {
        0
    } else {
        legs_in(legs.drop_last(), currency) + (if legs.last().currency@ == currency {
            legs.last().amount_minor as int
        } else {
            0
        })
    }
}

/// Whether legs come to nothing in every currency.
pub open spec fn legs_balance(legs: Seq<HopLeg>) -> bool {
    forall|i: int| 0 <= i < legs.len() ==> legs_in(legs, (#[trigger] legs[i]).currency@) == 0
}

/// Whether the legs of every hop come to nothing.
pub open spec fn all_balance(hops: Seq<Hop>, part: Seq<int>) -> bool {
    forall|i: int| 0 <= i < part.len() ==> legs_balance((#[trigger] hops[part[i]]).legs@)
}

/// The accounts with legs, in order, each once.
pub open spec fn accounts_with(ids: Seq<i64>) -> Seq<i64>
    decreases ids.len(),
{
    if ids.len() == 0 {
        ids
    } else {
        with_id(accounts_with(ids.drop_last()), ids.last())
    }
}

/// What is said of an account that a rule should not post to.
pub open spec fn account_warnings(accounts: Seq<Account>, id: i64) -> Seq<(bool, Seq<char>)> {
    if known(accounts, id) {
        let a = account_of(accounts, id);
        let system = if a.system {
            seq![(false, a.name@ + " is a system account"@)]
        } else {
            Seq::empty()
        };
        let closed = if a.closed {
            seq![(false, a.name@ + " is closed"@)]
        } else {
            Seq::empty()
        };
        system + closed
    } else {
        Seq::empty()
    }
}

/// What is said of accounts that a rule should not post to.
pub open spec fn all_account_warnings(accounts: Seq<Account>, ids: Seq<i64>) -> Seq<
    (bool, Seq<char>),
>
    decreases ids.len(),
{
    if ids.len() == 0 {
        Seq::empty()
    } else {
        all_account_warnings(accounts, ids.drop_last()) + account_warnings(accounts, ids.last())
    }
}

/// What is said of dates that the rule never produces.
pub open spec fn stray_text(n: int) -> Seq<char> {
    int_digits(n) + " date"@ + (if n == 1 {
        " is"@
    } else {
        "s are"@
    }) + " recorded or adjusted that the rule never produces"@
}

/// One warning where something holds, none otherwise.
pub open spec fn warn_if(b: bool, error: bool, text: Seq<char>) -> Seq<(bool, Seq<char>)> {
    if b {
        seq![(error, text)]
    } else {
        Seq::empty()
    }
}

/// The warnings about a rule. `failure` says why it does not expand, where it does not; `legs` are
/// the accounts of its legs; `stray` is how many dates are recorded or adjusted that it never
/// produces.
pub open spec fn warnings_of(
    hops: Seq<Hop>,
    part: Seq<int>,
    accounts: Seq<Account>,
    legs: Seq<i64>,
    failure: Option<Seq<char>>,
    stray: int,
) -> Seq<(bool, Seq<char>)> {
    warn_if(
        failure is Some,
        true,
        "the rule doesn't expand ("@ + failure->0
            + "): every forecast fails until it is fixed"@,
    ) + warn_if(
        !all_agree(hops, part),
        false,
        "the legs of this chain disagree about its name, rule or dates"@,
    ) + warn_if(
        !all_balance(hops, part),
        false,
        "its legs don't add up to zero, so every payment it makes is unbalanced"@,
    ) + all_account_warnings(accounts, accounts_with(legs)) + warn_if(
        stray > 0,
        false,
        stray_text(stray),
    )
}

fn same_end(a: Option<Date>, b: Option<Date>) -> (r: bool)
    ensures
        r == (a == b),
{
    match (a, b) {
        (Some(x), Some(y)) => x.days == y.days,
        (None, None) => true,
        _ => false,
    }
}

fn hops_agree(a: &Hop, b: &Hop) -> (r: bool)
    ensures
        r == agree(*a, *b),
{
    str_eq(a.description.as_str(), b.description.as_str()) && str_eq(
        a.rrule.as_str(),
        b.rrule.as_str(),
    ) && a.dtstart.days == b.dtstart.days && same_end(a.until_on, b.until_on) && str_eq(
        a.weekend_rule.as_str(),
        b.weekend_rule.as_str(),
    ) && (match (a.scenario_id, b.scenario_id) {
        (Some(x), Some(y)) => x == y,
        (None, None) => true,
        _ => false,
    })
}

fn part_agrees(hops: &Vec<Hop>, part: &Vec<usize>) -> (r: bool)
    requires
        part@.len() > 0,
        in_bounds(places(part@), hops@.len() as int),
    ensures
        r == all_agree(hops@, places(part@)),
{
    let ghost own = places(part@);
    assert(own[0] == part@[0]);
    let mut i: usize = 0;
    while i < part.len()
        invariant
            i <= part@.len(),
            part@.len() > 0,
            own == places(part@),
            own[0] == part@[0],
            in_bounds(own, hops@.len() as int),
            forall|j: int| 0 <= j < i ==> agree(#[trigger] hops@[own[j]], hops@[own[0]]),
        decreases part@.len() - i,
    {
        assert(own[i as int] == part@[i as int]);
        if !hops_agree(&hops[part[i]], &hops[part[0]]) {
            assert(!agree(hops@[own[i as int]], hops@[own[0]]));
            return false;
        }
        i = i + 1;
    }
    true
}

fn sum_legs(legs: &Vec<HopLeg>, currency: &str) -> (r: i128)
    ensures
        r == legs_in(legs@, currency@),
{
    let mut sum: i128 = 0;
    let mut i: usize = 0;
    assert(legs@.take(0) =~= Seq::<HopLeg>::empty());
    while i < legs.len()
        invariant
            i <= legs@.len(),
            sum == legs_in(legs@.take(i as int), currency@),
            -0x8000_0000_0000_0000 * i <= sum <= 0x8000_0000_0000_0000 * i,
        decreases legs@.len() - i,
    {
        assert(legs@.take(i + 1).drop_last() =~= legs@.take(i as int));
        if str_eq(legs[i].currency.as_str(), currency) {
            sum = sum + legs[i].amount_minor as i128;
        }
        i = i + 1;
    }
    assert(legs@.take(legs@.len() as int) =~= legs@);
    sum
}

fn hop_balances(legs: &Vec<HopLeg>) -> (r: bool)
    ensures
        r == legs_balance(legs@),
{
    let mut i: usize = 0;
    while i < legs.len()
        invariant
            i <= legs@.len(),
            forall|j: int| 0 <= j < i ==> legs_in(legs@, (#[trigger] legs@[j]).currency@) == 0,
        decreases legs@.len() - i,
    {
        if sum_legs(legs, legs[i].currency.as_str()) != 0 {
            assert(legs_in(legs@, legs@[i as int].currency@) != 0);
            return false;
        }
        i = i + 1;
    }
    true
}

fn part_balances(hops: &Vec<Hop>, part: &Vec<usize>) -> (r: bool)
    requires
        in_bounds(places(part@), hops@.len() as int),
    ensures
        r == all_balance(hops@, places(part@)),
{
    let ghost own = places(part@);
    let mut i: usize = 0;
    while i < part.len()
        invariant
            i <= part@.len(),
            own == places(part@),
            in_bounds(own, hops@.len() as int),
            forall|j: int| 0 <= j < i ==> legs_balance((#[trigger] hops@[own[j]]).legs@),
        decreases part@.len() - i,
    {
        assert(own[i as int] == part@[i as int]);
        if !hop_balances(&hops[part[i]].legs) {
            assert(!legs_balance(hops@[own[i as int]].legs@));
            return false;
        }
        i = i + 1;
    }
    true
}

fn push_warning(out: &mut Vec<Warning>, error: bool, text: String)
    ensures
        warning_views(final(out)@) == warning_views(old(out)@).push((error, text@)),
{
    let w = Warning { error, text };
    assert(warning_views(out@.push(w)) =~= warning_views(out@).push((error, w.text@)));
    out.push(w);
}

fn distinct_accounts(ids: &Vec<i64>) -> (r: Vec<i64>)
    ensures
        r@ == accounts_with(ids@),
{
    let mut out: Vec<i64> = Vec::new();
    let mut i: usize = 0;
    assert(ids@.take(0) =~= Seq::<i64>::empty());
    while i < ids.len()
        invariant
            i <= ids@.len(),
            out@ == accounts_with(ids@.take(i as int)),
        decreases ids@.len() - i,
    {
        assert(ids@.take(i + 1).drop_last() =~= ids@.take(i as int));
        put(&mut out, ids[i]);
        i = i + 1;
    }
    assert(ids@.take(ids@.len() as int) =~= ids@);
    out
}

fn warn_of_account(out: &mut Vec<Warning>, accounts: &Vec<Account>, id: i64)
    ensures
        warning_views(final(out)@) == warning_views(old(out)@) + account_warnings(accounts@, id),
{
    let ghost before = warning_views(out@);
    if let Some(i) = find(accounts, id) {
        let a = &accounts[i];
        if a.system {
            let mut m = a.name.clone();
            m.append(" is a system account");
            push_warning(out, false, m);
        }
        if a.closed {
            let mut m = a.name.clone();
            m.append(" is closed");
            push_warning(out, false, m);
        }
    }
    assert(warning_views(out@) =~= before + account_warnings(accounts@, id));
}

/// The warnings about a rule, by its newest part.
pub fn warnings(
    hops: &Vec<Hop>,
    part: &Vec<usize>,
    accounts: &Vec<Account>,
    legs: &Vec<i64>,
    failure: &Option<String>,
    stray: usize,
) -> (r: Vec<Warning>)
    requires
        part@.len() > 0,
        in_bounds(places(part@), hops@.len() as int),
    ensures
        warning_views(r@) == warnings_of(
            hops@,
            places(part@),
            accounts@,
            legs@,
            crate::text::opt_view(*failure),
            stray as int,
        ),
{
    let ghost own = places(part@);
    let ghost w1 = warn_if(
        failure is Some,
        true,
        "the rule doesn't expand ("@ + crate::text::opt_view(*failure)->0
            + "): every forecast fails until it is fixed"@,
    );
    let ghost w2 = warn_if(
        !all_agree(hops@, own),
        false,
        "the legs of this chain disagree about its name, rule or dates"@,
    );
    let ghost w3 = warn_if(
        !all_balance(hops@, own),
        false,
        "its legs don't add up to zero, so every payment it makes is unbalanced"@,
    );
    let mut out: Vec<Warning> = Vec::new();
    assert(warning_views(out@) =~= Seq::<(bool, Seq<char>)>::empty());
    if let Some(e) = failure {
        let mut m = "the rule doesn't expand (".to_string();
        m.append(e.as_str());
        m.append("): every forecast fails until it is fixed");
        push_warning(&mut out, true, m);
    }
    assert(warning_views(out@) =~= w1);
    if !part_agrees(hops, part) {
        push_warning(
            &mut out,
            false,
            "the legs of this chain disagree about its name, rule or dates".to_string(),
        );
    }
    assert(warning_views(out@) =~= w1 + w2);
    if !part_balances(hops, part) {
        push_warning(
            &mut out,
            false,
            "its legs don't add up to zero, so every payment it makes is unbalanced".to_string(),
        );
    }
    assert(warning_views(out@) =~= w1 + w2 + w3);
    let ids = distinct_accounts(legs);
    let ghost base = w1 + w2 + w3;
    let mut i: usize = 0;
    assert(ids@.take(0) =~= Seq::<i64>::empty());
    assert(base + all_account_warnings(accounts@, ids@.take(0)) =~= base);
    while i < ids.len()
        invariant
            i <= ids@.len(),
            warning_views(out@) =~= base + all_account_warnings(accounts@, ids@.take(i as int)),
        decreases ids@.len() - i,
    {
        assert(ids@.take(i + 1).drop_last() =~= ids@.take(i as int));
        warn_of_account(&mut out, accounts, ids[i]);
        i = i + 1;
    }
    assert(ids@.take(ids@.len() as int) =~= ids@);
    if stray > 0 {
        let mut m = int_text(stray as i128);
        m.append(" date");
        m.append(
            if stray == 1 {
                " is"
            } else {
                "s are"
            },
        );
        m.append(" recorded or adjusted that the rule never produces");
        push_warning(&mut out, false, m);
    }
    assert(warning_views(out@) =~= base + all_account_warnings(accounts@, ids@) + warn_if(
        stray > 0,
        false,
        stray_text(stray as int),
    ));
    out
}

/// The payments recorded for some rows.
pub open spec fn claims_of(claims: Seq<Claim>, ids: Seq<i64>) -> Seq<Claim>
    decreases claims.len(),
{
    if claims.len() == 0 {
        claims
    } else if ids.contains(claims.last().series_id) {
        claims_of(claims.drop_last(), ids).push(claims.last())
    } else {
        claims_of(claims.drop_last(), ids)
    }
}

/// The payments recorded for some rows.
pub fn pick_claims(claims: &Vec<Claim>, ids: &Vec<i64>) -> (r: Vec<Claim>)
    ensures
        r@ == claims_of(claims@, ids@),
{
    let mut out: Vec<Claim> = Vec::new();
    let mut i: usize = 0;
    assert(claims@.take(0) =~= Seq::<Claim>::empty());
    while i < claims.len()
        invariant
            i <= claims@.len(),
            out@ == claims_of(claims@.take(i as int), ids@),
        decreases claims@.len() - i,
    {
        assert(claims@.take(i + 1).drop_last() =~= claims@.take(i as int));
        if holds(ids, claims[i].series_id) {
            out.push(claims[i]);
        }
        i = i + 1;
    }
    assert(claims@.take(claims@.len() as int) =~= claims@);
    out
}

/// The latest of recorded payments: by its slot, then by its id.
pub open spec fn latest_of(claims: Seq<Claim>) -> Option<Claim>
    decreases claims.len(),
{
    if claims.len() == 0 {
        None
    } else {
        match latest_of(claims.drop_last()) {
            Some(b) => Some(
                if is_later(claims.last(), b) {
                    claims.last()
                } else {
                    b
                },
            ),
            None => Some(claims.last()),
        }
    }
}

fn latest(claims: &Vec<Claim>) -> (r: Option<Claim>)
    ensures
        r == latest_of(claims@),
{
    let mut best: Option<Claim> = None;
    let mut i: usize = 0;
    assert(claims@.take(0) =~= Seq::<Claim>::empty());
    while i < claims.len()
        invariant
            i <= claims@.len(),
            best == latest_of(claims@.take(i as int)),
        decreases claims@.len() - i,
    {
        let c = claims[i];
        assert(claims@.take(i + 1).drop_last() =~= claims@.take(i as int));
        best = match best {
            Some(b) => {
                if c.occurrence_on.days > b.occurrence_on.days || (c.occurrence_on.days
                    == b.occurrence_on.days && c.txn_id >= b.txn_id) {
                    Some(c)
                } else {
                    Some(b)
                }
            },
            None => Some(c),
        };
        i = i + 1;
    }
    assert(claims@.take(claims@.len() as int) =~= claims@);
    best
}

/// What a payment moved on an account.
#[derive(Debug, Clone, Copy)]
pub struct Paid {
    pub txn_id: i64,
    pub account_id: i64,
    pub amount_minor: Minor,
}

/// Whether the row at a place is of a hop.
pub open spec fn is_hop(hops: Seq<Hop>, id: i64) -> spec_fn(int) -> bool {
    |i: int| hops[i].id == id
}

/// The account of a hop's primary leg.
pub open spec fn primary_account(hops: Seq<Hop>, id: i64) -> Option<i64> {
    let k = first(hops.len() as int, is_hop(hops, id));
    if k < hops.len() {
        let p = role_place(hops[k].legs@, "primary"@);
        if p < hops[k].legs@.len() {
            Some(hops[k].legs@[p].account_id)
        } else {
            None
        }
    } else {
        None
    }
}

/// Whether what was paid at a place is a payment's on an account.
pub open spec fn is_paid(paid: Seq<Paid>, txn: i64, account: i64) -> spec_fn(int) -> bool {
    |i: int| paid[i].txn_id == txn && paid[i].account_id == account
}

/// What a recorded payment moved on the primary account of its hop.
pub open spec fn paid_amount(hops: Seq<Hop>, paid: Seq<Paid>, c: Claim) -> Option<i64> {
    match primary_account(hops, c.series_id) {
        Some(a) => {
            let k = first(paid.len() as int, is_paid(paid, c.txn_id, a));
            if k < paid.len() {
                Some(paid[k].amount_minor)
            } else {
                None
            }
        },
        None => None,
    }
}

fn account_of_primary(hops: &Vec<Hop>, id: i64) -> (r: Option<i64>)
    ensures
        r == primary_account(hops@, id),
{
    let mut i: usize = 0;
    while i < hops.len()
        invariant
            i <= hops@.len(),
            forall|j: int| 0 <= j < i ==> !#[trigger] is_hop(hops@, id)(j),
        decreases hops@.len() - i,
    {
        if hops[i].id == id {
            proof {
                lemma_first(hops@.len() as int, is_hop(hops@, id), i as int);
            }
            return match find_role(&hops[i].legs, "primary") {
                Some(p) => Some(hops[i].legs[p].account_id),
                None => None,
            };
        }
        i = i + 1;
    }
    proof {
        lemma_first(hops@.len() as int, is_hop(hops@, id), i as int);
    }
    None
}

fn amount_paid(hops: &Vec<Hop>, paid: &Vec<Paid>, c: Claim) -> (r: Option<Minor>)
    ensures
        r == paid_amount(hops@, paid@, c),
{
    let account: i64 = match account_of_primary(hops, c.series_id) {
        Some(a) => a,
        None => return None,
    };
    let mut i: usize = 0;
    while i < paid.len()
        invariant
            i <= paid@.len(),
            primary_account(hops@, c.series_id) == Some(account),
            forall|j: int| 0 <= j < i ==> !#[trigger] is_paid(paid@, c.txn_id, account)(j),
        decreases paid@.len() - i,
    {
        if paid[i].txn_id == c.txn_id && paid[i].account_id == account {
            proof {
                lemma_first(paid@.len() as int, is_paid(paid@, c.txn_id, account), i as int);
            }
            return Some(paid[i].amount_minor);
        }
        i = i + 1;
    }
    proof {
        lemma_first(paid@.len() as int, is_paid(paid@, c.txn_id, account), i as int);
    }
    None
}

/// The payments that claim a day.
pub open spec fn txns_on(claims: Seq<Claim>, d: i64) -> Seq<i64>
    decreases claims.len(),
{
    if claims.len() == 0 {
        Seq::empty()
    } else if claims.last().occurrence_on.days == d {
        txns_on(claims.drop_last(), d).push(claims.last().txn_id)
    } else {
        txns_on(claims.drop_last(), d)
    }
}

/// A slot paid ahead of time.
#[derive(Debug, Clone)]
pub struct Ahead {
    pub occurrence_on: i64,
    pub occurred_on: Date,
    pub txn_ids: Vec<i64>,
}

/// Whether a day is after another.
pub open spec fn is_after(d: i64) -> spec_fn(i64) -> bool {
    |x: i64| x > d
}

/// Whether these are the slots paid ahead of a day.
pub open spec fn are_ahead(v: Seq<Ahead>, claims: Seq<Claim>, as_of: Date) -> bool {
    let days = days_where(claim_days(claims), is_after(as_of.days as i64));
    v.len() == days.len() && forall|i: int|
        0 <= i < v.len() ==> {
            let k = crate::reschedule::first_claim(claims, days[i]);
            &&& (#[trigger] v[i]).occurrence_on == days[i]
            &&& k < claims.len() ==> v[i].occurred_on == claims[k].occurred_on
            &&& v[i].txn_ids@ == txns_on(claims, days[i])
        }
}

/// What is recorded under a rule.
#[derive(Debug, Clone)]
pub struct Recorded {
    /// How many payments its first hops have.
    pub count: usize,
    pub last: Option<Claim>,
    pub last_amount: Option<Minor>,
    pub ahead: Vec<Ahead>,
}

/// Whether this is what is recorded under a rule. `ids` are its rows, `firsts` the first hops of its
/// parts.
pub open spec fn is_recorded(
    x: Recorded,
    hops: Seq<Hop>,
    claims: Seq<Claim>,
    paid: Seq<Paid>,
    ids: Seq<i64>,
    firsts: Seq<i64>,
    as_of: Date,
) -> bool {
    let own = claims_of(claims_of(claims, ids), firsts);
    &&& x.count == own.len()
    &&& x.last == latest_of(own)
    &&& x.last_amount == (match latest_of(own) {
        Some(c) => paid_amount(hops, paid, c),
        None => None,
    })
    &&& are_ahead(x.ahead@, claims_of(claims, ids), as_of)
}

fn collect_txns(claims: &Vec<Claim>, d: i64) -> (r: Vec<i64>)
    ensures
        r@ == txns_on(claims@, d),
{
    let mut out: Vec<i64> = Vec::new();
    let mut i: usize = 0;
    assert(claims@.take(0) =~= Seq::<Claim>::empty());
    while i < claims.len()
        invariant
            i <= claims@.len(),
            out@ == txns_on(claims@.take(i as int), d),
        decreases claims@.len() - i,
    {
        assert(claims@.take(i + 1).drop_last() =~= claims@.take(i as int));
        if claims[i].occurrence_on.days as i64 == d {
            out.push(claims[i].txn_id);
        }
        i = i + 1;
    }
    assert(claims@.take(claims@.len() as int) =~= claims@);
    out
}

fn paid_ahead(claims: &Vec<Claim>, as_of: Date) -> (r: Vec<Ahead>)
    ensures
        are_ahead(r@, claims@, as_of),
{
    let all = collect_claim_days(claims);
    let at: i64 = as_of.days as i64;
    let ghost p = is_after(at);
    let mut out: Vec<Ahead> = Vec::new();
    let mut i: usize = 0;
    assert(all@.take(0) =~= Seq::<i64>::empty());
    while i < all.len()
        invariant
            i <= all@.len(),
            at == as_of.days,
            p == is_after(at),
            out@.len() == days_where(all@.take(i as int), p).len(),
            forall|j: int|
                0 <= j < out@.len() ==> {
                    let d = days_where(all@.take(i as int), p)[j];
                    let k = crate::reschedule::first_claim(claims@, d);
                    &&& (#[trigger] out@[j]).occurrence_on == d
                    &&& k < claims@.len() ==> out@[j].occurred_on == claims@[k].occurred_on
                    &&& out@[j].txn_ids@ == txns_on(claims@, d)
                },
        decreases all@.len() - i,
    {
        assert(all@.take(i + 1).drop_last() =~= all@.take(i as int));
        let d: i64 = all[i];
        if d > at {
            let occurred_on = match crate::reschedule::find_claim(claims, d) {
                Some(k) => claims[k].occurred_on,
                None => as_of,
            };
            out.push(Ahead { occurrence_on: d, occurred_on, txn_ids: collect_txns(claims, d) });
        }
        i = i + 1;
    }
    assert(all@.take(all@.len() as int) =~= all@);
    out
}

/// What is recorded under a rule.
pub fn recorded(
    hops: &Vec<Hop>,
    claims: &Vec<Claim>,
    paid: &Vec<Paid>,
    ids: &Vec<i64>,
    firsts: &Vec<i64>,
    as_of: Date,
) -> (r: Recorded)
    ensures
        is_recorded(r, hops@, claims@, paid@, ids@, firsts@, as_of),
{
    let own = pick_claims(claims, ids);
    let of_first = pick_claims(&own, firsts);
    let last = latest(&of_first);
    let last_amount = match last {
        Some(c) => amount_paid(hops, paid, c),
        None => None,
    };
    Recorded { count: of_first.len(), last, last_amount, ahead: paid_ahead(&own, as_of) }
}

/// A payment to come, by its place among the points of a forecast.
#[derive(Debug, Clone)]
pub struct Coming {
    pub at: usize,
    pub value_on: String,
}

impl Ranked for Coming {
    open spec fn before(&self, other: &Self) -> bool {
        text_lt(self.value_on@, other.value_on@)
    }

    fn comes_before(&self, other: &Self) -> (r: bool) {
        text_less(self.value_on.as_str(), other.value_on.as_str())
    }
}

/// The first hop's points whose money should already have moved.
pub open spec fn owed(s: Seq<PointOn>, as_of: Seq<char>, n: int) -> Seq<int>
    decreases n,
{
    if n <= 0 {
        Seq::empty()
    } else if s[n - 1].seq == 0 && text_lt(s[n - 1].value_on, as_of) {
        owed(s, as_of, n - 1).push(n - 1)
    } else {
        owed(s, as_of, n - 1)
    }
}

/// The first hop's first six points that are not owed.
pub open spec fn coming(s: Seq<PointOn>, as_of: Seq<char>, n: int) -> Seq<int>
    decreases n,
{
    if n <= 0 {
        Seq::empty()
    } else {
        let rest = coming(s, as_of, n - 1);
        if s[n - 1].seq == 0 && !text_lt(s[n - 1].value_on, as_of) && rest.len() < 6 {
            rest.push(n - 1)
        } else {
            rest
        }
    }
}

/// Whether these are payments to come, at some places.
pub open spec fn are_coming(v: Seq<Coming>, s: Seq<PointOn>, at: Seq<int>) -> bool {
    v.len() == at.len() && forall|i: int|
        0 <= i < v.len() ==> (#[trigger] v[i]).at == at[i] && v[i].value_on@ == s[at[i]].value_on
}

/// What a rule pays next, and what it owes.
#[derive(Debug, Clone)]
pub struct Schedule {
    /// In order of the days money moves.
    pub next: Vec<Coming>,
    /// Places among the points.
    pub due: Vec<usize>,
}

/// Whether this is what a rule pays next, and what it owes.
pub open spec fn is_schedule(x: Schedule, s: Seq<PointOn>, as_of: Date) -> bool {
    let day = iso(as_of.days as int);
    &&& crate::impact::ints(x.due@) == owed(s, day, s.len() as int)
    &&& exists|rows: Seq<Coming>|
        #![trigger ranked(rows)]
        are_coming(rows, s, coming(s, day, s.len() as int)) && x.next@ == ranked(rows)
}

/// What a rule pays next, and what it owes: it is owed when the money should already have moved.
pub fn schedule(points: &Vec<Point>, as_of: Date) -> (r: Schedule)
    ensures
        is_schedule(r, point_ons(points@), as_of),
{
    let ghost s = point_ons(points@);
    let day = as_of.to_text();
    let mut next: Vec<Coming> = Vec::new();
    let mut due: Vec<usize> = Vec::new();
    let mut i: usize = 0;
    assert(crate::impact::ints(due@) =~= Seq::<int>::empty());
    while i < points.len()
        invariant
            i <= points@.len(),
            s == point_ons(points@),
            day@ == iso(as_of.days as int),
            crate::impact::ints(due@) == owed(s, day@, i as int),
            are_coming(next@, s, coming(s, day@, i as int)),
            next@.len() <= 6,
        decreases points@.len() - i,
    {
        let p = &points[i];
        assert(s[i as int] == p@);
        if p.seq == 0 {
            if text_less(p.value_on.as_str(), day.as_str()) {
                assert(crate::impact::ints(due@.push(i)) =~= crate::impact::ints(due@).push(
                    i as int,
                ));
                due.push(i);
            } else if next.len() < 6 {
                next.push(Coming { at: i, value_on: p.value_on.clone() });
            }
        }
        i = i + 1;
    }
    let ghost rows = next@;
    let next = rank(next);
    assert(next@ == ranked(rows));
    Schedule { next, due }
}

/// What occurrences come to.
pub open spec fn sum_of_all(occs: Seq<Occurrence>) -> int
    decreases occs.len(),
{
    if occs.len() == 0 {
        0
    } else {
        sum_of_all(occs.drop_last()) + occs.last().amount_minor
    }
}

/// What a rule comes to over the coming year: how many payments, what they come to, and the twelfth
/// part of it. The primary leg alone counts, and a chain counts once, by its first hop.
#[derive(Debug, Clone, Copy)]
pub struct Yearly {
    pub count: usize,
    pub total_minor: i128,
    pub monthly_minor: Minor,
}

/// Whether this is what a rule comes to over the coming year.
pub open spec fn is_yearly(y: Yearly, series: Seq<Series>, occs: Seq<Occurrence>) -> bool {
    let own = counted(series, occs);
    &&& y.count == own.len()
    &&& y.total_minor == sum_of_all(own)
    &&& y.monthly_minor == monthly_share(sum_of_all(own))
}

/// What a rule comes to over the coming year.
pub fn yearly(series: &Vec<Series>, occs: &Vec<Occurrence>) -> (r: Yearly)
    ensures
        is_yearly(r, series@, occs@),
{
    let own = crate::commitments::select_counted(series, occs);
    let ghost all = own@.map_values(|i: usize| occs@[i as int]);
    let mut sum: i128 = 0;
    let mut i: usize = 0;
    assert(all.take(0) =~= Seq::<Occurrence>::empty());
    while i < own.len()
        invariant
            i <= own@.len(),
            all == own@.map_values(|i: usize| occs@[i as int]),
            forall|j: int| 0 <= j < own@.len() ==> #[trigger] own@[j] < occs@.len(),
            sum == sum_of_all(all.take(i as int)),
            -0x8000_0000_0000_0000 * i <= sum <= 0x8000_0000_0000_0000 * i,
        decreases own@.len() - i,
    {
        assert(all.take(i + 1).drop_last() =~= all.take(i as int));
        assert(all.take(i + 1).last() == occs@[own@[i as int] as int]);
        sum = sum + occs[own[i]].amount_minor as i128;
        i = i + 1;
    }
    assert(all.take(all.len() as int) =~= all);
    let monthly_minor: Minor = match round_half_away(sum, 12) {
        Ok(m) => m,
        Err(_) => 0,
    };
    Yearly { count: own.len(), total_minor: sum, monthly_minor }
}

} // verus!
