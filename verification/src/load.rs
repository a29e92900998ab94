//! The forecast's snapshot, put together from the rows a book holds.
//!
//! A day that cannot be read counts as the first of January 1970. An interest rule with no rate in
//! force is left out rather than given none: a silent nothing would read as no interest.

use crate::book::Account;
use crate::date::{iso, read_day, Date};
use crate::entry::Movement;
use crate::forecast::{
    InterestRule, Override, PaymentRule, Series, SeriesPosting, Slot, SlotOverride, Snapshot,
};
use crate::money::Minor;
use crate::paths::{put, with_id};
use crate::text::{text_less, text_lt};
use std::collections::{BTreeMap, HashMap};
use vstd::prelude::*;

verus! {

broadcast use {
    vstd::std_specs::btree::group_btree_axioms,
    vstd::std_specs::hash::group_hash_axioms,
    vstd::string::group_string_axioms,
};

/// The number of the day that stands for one that cannot be read.
pub const EPOCH: i32 = 719_163;

/// The day a text is, the epoch where it is none.
pub open spec fn day_in(t: Seq<char>) -> Date {
    match read_day(t, "%Y-%m-%d"@) {
        Some(n) => Date { days: n as i32 },
        None => Date { days: EPOCH },
    }
}

/// The day a text is, if there is one.
pub open spec fn opt_day_in(t: Option<String>) -> Option<Date> {
    match t {
        Some(s) => Some(day_in(s@)),
        None => None,
    }
}

fn to_day(t: &str) -> (r: Date)
    ensures
        r == day_in(t@),
{
    match Date::parse(t) {
        Some(d) => d,
        None => Date { days: EPOCH },
    }
}

fn to_opt_day(t: &Option<String>) -> (r: Option<Date>)
    ensures
        r == opt_day_in(*t),
{
    match t {
        Some(s) => Some(to_day(s.as_str())),
        None => None,
    }
}

/// A recurring payment as it is stored.
#[derive(Debug, Clone)]
pub struct SeriesRow {
    pub id: i64,
    pub description: String,
    pub rrule: String,
    pub dtstart: String,
    pub until_on: Option<String>,
    pub weekend_rule: String,
    pub scenario_id: Option<i64>,
    pub supersedes_id: Option<i64>,
    pub chain_id: Option<i64>,
    pub chain_seq: Option<i64>,
}

/// A posting of a recurring payment as it is stored.
#[derive(Debug, Clone)]
pub struct PostingRow {
    pub series_id: i64,
    pub account_id: i64,
    pub currency: String,
    pub amount_minor: Minor,
    pub role: String,
}

/// An override as it is stored.
#[derive(Debug, Clone)]
pub struct OverrideRow {
    pub series_id: i64,
    pub occurrence_on: String,
    pub action: String,
    pub moved_to: Option<String>,
    pub amount_minor: Option<Minor>,
    pub description: Option<String>,
}

/// The slot a transaction fills, as it is stored.
#[derive(Debug, Clone)]
pub struct ClaimRow {
    pub series_id: Option<i64>,
    pub occurrence_on: Option<String>,
}

/// An interest rule as it is stored.
#[derive(Debug, Clone)]
pub struct InterestRow {
    pub id: i64,
    pub account_id: i64,
    pub counter_account_id: i64,
    pub shape: String,
    pub accrues_on: String,
    pub accrual_freq: String,
    pub capitalise_rrule: String,
    pub capitalise_dtstart: String,
    pub grace_period: bool,
    pub scenario_id: Option<i64>,
}

/// A stretch of time over which an interest rule has a rate.
#[derive(Debug, Clone)]
pub struct RatePeriod {
    pub rule_id: i64,
    pub effective_from: String,
    /// The day from which it no longer holds.
    pub effective_to: Option<String>,
    pub periodic_rate_e15: i64,
}

/// A payment rule as it is stored.
#[derive(Debug, Clone)]
pub struct PaymentRow {
    pub id: i64,
    pub account_id: i64,
    pub from_account_id: i64,
    pub amount_kind: String,
    pub fixed_minor: Option<Minor>,
    pub pct_e15: Option<i64>,
    pub floor_minor: Option<Minor>,
    pub cap_minor: Option<Minor>,
    pub level_payment_minor: Option<Minor>,
    pub rrule: String,
    pub dtstart: String,
    pub until_on: Option<String>,
    pub scenario_id: Option<i64>,
}

/// The rows of a book that a forecast rests on.
#[derive(Debug, Clone)]
pub struct BookRows {
    pub accounts: Vec<Account>,
    pub movements: Vec<Movement>,
    pub series: Vec<SeriesRow>,
    pub postings: Vec<PostingRow>,
    pub overrides: Vec<OverrideRow>,
    pub claims: Vec<ClaimRow>,
    pub interest: Vec<InterestRow>,
    pub rates: Vec<RatePeriod>,
    pub payments: Vec<PaymentRow>,
    pub holidays: Vec<String>,
}

/// Whether a movement is on a day or earlier.
pub open spec fn counts_by(m: Movement, day: Seq<char>) -> bool {
    !text_lt(day, m.on@)
}

/// What an account has come to by a day.
pub open spec fn come_to(rows: Seq<Movement>, id: i64, day: Seq<char>) -> int
    decreases rows.len(),
{
    if rows.len() == 0 {
        0
    } else {
        come_to(rows.drop_last(), id, day) + (if rows.last().account_id == id && counts_by(
            rows.last(),
            day,
        ) {
            rows.last().moved_minor as int
        } else {
            0
        })
    }
}

/// The accounts that have moved by a day, in order.
pub open spec fn moved_by(rows: Seq<Movement>, day: Seq<char>) -> Seq<i64>
    decreases rows.len(),
{
    if rows.len() == 0 {
        Seq::empty()
    } else if counts_by(rows.last(), day) {
        with_id(moved_by(rows.drop_last(), day), rows.last().account_id)
    } else {
        moved_by(rows.drop_last(), day)
    }
}

/// Whether what every account has come to by a day is an amount.
pub open spec fn sums_fit(rows: Seq<Movement>, day: Seq<char>) -> bool {
    forall|i: int|
        0 <= i < moved_by(rows, day).len() ==> i64::MIN <= come_to(
            rows,
            #[trigger] moved_by(rows, day)[i],
            day,
        ) <= i64::MAX
}

/// Whether opening balances are what the accounts that have moved by a day have come to.
pub open spec fn are_openings(m: Map<i64, i64>, rows: Seq<Movement>, day: Seq<char>) -> bool {
    &&& forall|id: i64| #[trigger] m.dom().contains(id) <==> moved_by(rows, day).contains(id)
    &&& forall|id: i64| #[trigger] m.dom().contains(id) ==> m[id] == come_to(rows, id, day)
}

fn sum_by(rows: &Vec<Movement>, id: i64, day: &str) -> (r: i128)
    ensures
        r == come_to(rows@, id, day@),
{
    let mut sum: i128 = 0;
    let mut i: usize = 0;
    assert(rows@.take(0) =~= Seq::<Movement>::empty());
    while i < rows.len()
        invariant
            i <= rows@.len(),
            sum == come_to(rows@.take(i as int), id, day@),
            -0x8000_0000_0000_0000 * i <= sum <= 0x8000_0000_0000_0000 * i,
        decreases rows@.len() - i,
    {
        assert(rows@.take(i + 1).drop_last() =~= rows@.take(i as int));
        if rows[i].account_id == id && !text_less(day, rows[i].on.as_str()) {
            sum = sum + rows[i].moved_minor as i128;
        }
        i = i + 1;
    }
    assert(rows@.take(rows@.len() as int) =~= rows@);
    sum
}

fn collect_moved(rows: &Vec<Movement>, day: &str) -> (r: Vec<i64>)
    ensures
        r@ == moved_by(rows@, day@),
{
    let mut out: Vec<i64> = Vec::new();
    let mut i: usize = 0;
    assert(rows@.take(0) =~= Seq::<Movement>::empty());
    while i < rows.len()
        invariant
            i <= rows@.len(),
            out@ == moved_by(rows@.take(i as int), day@),
        decreases rows@.len() - i,
    {
        assert(rows@.take(i + 1).drop_last() =~= rows@.take(i as int));
        if !text_less(day, rows[i].on.as_str()) {
            put(&mut out, rows[i].account_id);
        }
        i = i + 1;
    }
    assert(rows@.take(rows@.len() as int) =~= rows@);
    out
}

fn openings(rows: &Vec<Movement>, day: &str) -> (r: Option<BTreeMap<i64, Minor>>)
    ensures
        match r {
            Some(m) => sums_fit(rows@, day@) && are_openings(m@, rows@, day@),
            None => !sums_fit(rows@, day@),
        },
{
    let ids = collect_moved(rows, day);
    let mut m: BTreeMap<i64, Minor> = BTreeMap::new();
    let mut i: usize = 0;
    while i < ids.len()
        invariant
            i <= ids@.len(),
            ids@ == moved_by(rows@, day@),
            forall|j: int|
                0 <= j < i ==> i64::MIN <= come_to(rows@, #[trigger] ids@[j], day@) <= i64::MAX,
            forall|id: i64| #[trigger]
                m@.dom().contains(id) <==> exists|j: int| 0 <= j < i && ids@[j] == id,
            forall|id: i64| #[trigger] m@.dom().contains(id) ==> m@[id] == come_to(rows@, id, day@),
        decreases ids@.len() - i,
    {
        let id: i64 = ids[i];
        let sum: i128 = sum_by(rows, id, day);
        if sum < i64::MIN as i128 || sum > i64::MAX as i128 {
            assert(!(i64::MIN <= come_to(rows@, ids@[i as int], day@) <= i64::MAX));
            return None;
        }
        let ghost before = m@;
        m.insert(id, sum as i64);
        proof {
            assert forall|x: i64| #[trigger]
                m@.dom().contains(x) <==> exists|j: int| 0 <= j < i + 1 && ids@[j] == x by {
                if before.dom().contains(x) {
                    let j = choose|j: int| 0 <= j < i && ids@[j] == x;
                    assert(ids@[j] == x);
                }
                if x == id {
                    assert(ids@[i as int] == x);
                }
            }
        }
        i = i + 1;
    }
    proof {
        assert forall|id: i64| #[trigger] m@.dom().contains(id) <==> moved_by(
            rows@,
            day@,
        ).contains(id) by {}
    }
    Some(m)
}

/// The postings of a recurring payment, in order.
pub open spec fn postings_for(rows: Seq<PostingRow>, id: i64) -> Seq<SeriesPosting>
    decreases rows.len(),
{
    if rows.len() == 0 {
        Seq::empty()
    } else {
        let rest = postings_for(rows.drop_last(), id);
        let p = rows.last();
        if p.series_id == id {
            rest.push(
                SeriesPosting {
                    account_id: p.account_id,
                    currency: p.currency,
                    amount_minor: p.amount_minor,
                    role: p.role,
                },
            )
        } else {
            rest
        }
    }
}

fn collect_postings(rows: &Vec<PostingRow>, id: i64) -> (r: Vec<SeriesPosting>)
    ensures
        r@ == postings_for(rows@, id),
{
    let mut out: Vec<SeriesPosting> = Vec::new();
    let mut i: usize = 0;
    assert(rows@.take(0) =~= Seq::<PostingRow>::empty());
    while i < rows.len()
        invariant
            i <= rows@.len(),
            out@ == postings_for(rows@.take(i as int), id),
        decreases rows@.len() - i,
    {
        let p = &rows[i];
        assert(rows@.take(i + 1).drop_last() =~= rows@.take(i as int));
        if p.series_id == id {
            out.push(
                SeriesPosting {
                    account_id: p.account_id,
                    currency: p.currency.clone(),
                    amount_minor: p.amount_minor,
                    role: p.role.clone(),
                },
            );
        }
        i = i + 1;
    }
    assert(rows@.take(rows@.len() as int) =~= rows@);
    out
}

/// Whether a series is a stored one with its postings.
pub open spec fn is_series(s: Series, r: SeriesRow, postings: Seq<PostingRow>) -> bool {
    &&& s.id == r.id
    &&& s.description@ == r.description@
    &&& s.rrule@ == r.rrule@
    &&& s.dtstart == day_in(r.dtstart@)
    &&& s.until_on == opt_day_in(r.until_on)
    &&& s.weekend_rule@ == r.weekend_rule@
    &&& s.scenario_id == r.scenario_id
    &&& s.supersedes_id == r.supersedes_id
    &&& s.chain_id == r.chain_id
    &&& s.chain_seq == r.chain_seq
    &&& s.postings@ == postings_for(postings, r.id)
}

/// Whether series are the stored ones.
pub open spec fn are_series(v: Seq<Series>, rows: Seq<SeriesRow>, postings: Seq<PostingRow>) -> bool {
    v.len() == rows.len() && forall|i: int|
        0 <= i < v.len() ==> is_series(#[trigger] v[i], rows[i], postings)
}

fn load_series(rows: &Vec<SeriesRow>, postings: &Vec<PostingRow>) -> (r: Vec<Series>)
    ensures
        are_series(r@, rows@, postings@),
{
    let mut out: Vec<Series> = Vec::new();
    let mut i: usize = 0;
    while i < rows.len()
        invariant
            i <= rows@.len(),
            out@.len() == i,
            forall|j: int| 0 <= j < i ==> is_series(#[trigger] out@[j], rows@[j], postings@),
        decreases rows@.len() - i,
    {
        let s = &rows[i];
        out.push(
            Series {
                id: s.id,
                description: s.description.clone(),
                rrule: s.rrule.clone(),
                dtstart: to_day(s.dtstart.as_str()),
                until_on: to_opt_day(&s.until_on),
                weekend_rule: s.weekend_rule.clone(),
                scenario_id: s.scenario_id,
                supersedes_id: s.supersedes_id,
                chain_id: s.chain_id,
                chain_seq: s.chain_seq,
                postings: collect_postings(postings, s.id),
            },
        );
        i = i + 1;
    }
    out
}

/// Whether an override is a stored one.
pub open spec fn is_override(o: SlotOverride, r: OverrideRow) -> bool {
    &&& o.series_id == r.series_id
    &&& o.occurrence_on == day_in(r.occurrence_on@)
    &&& o.change.action@ == r.action@
    &&& o.change.moved_to == opt_day_in(r.moved_to)
    &&& o.change.amount_minor == r.amount_minor
    &&& crate::text::opt_view(o.change.description) == crate::text::opt_view(r.description)
}

fn load_overrides(rows: &Vec<OverrideRow>) -> (r: Vec<SlotOverride>)
    ensures
        r@.len() == rows@.len(),
        forall|i: int| 0 <= i < r@.len() ==> is_override(#[trigger] r@[i], rows@[i]),
{
    let mut out: Vec<SlotOverride> = Vec::new();
    let mut i: usize = 0;
    while i < rows.len()
        invariant
            i <= rows@.len(),
            out@.len() == i,
            forall|j: int| 0 <= j < i ==> is_override(#[trigger] out@[j], rows@[j]),
        decreases rows@.len() - i,
    {
        let o = &rows[i];
        let description = match &o.description {
            Some(d) => Some(d.clone()),
            None => None,
        };
        out.push(
            SlotOverride {
                series_id: o.series_id,
                occurrence_on: to_day(o.occurrence_on.as_str()),
                change: Override {
                    action: o.action.clone(),
                    moved_to: to_opt_day(&o.moved_to),
                    amount_minor: o.amount_minor,
                    description,
                },
            },
        );
        i = i + 1;
    }
    out
}

/// The slots that transactions fill: those that name both a payment and a day.
pub open spec fn slots_filled(rows: Seq<ClaimRow>) -> Seq<Slot>
    decreases rows.len(),
{
    if rows.len() == 0 {
        Seq::empty()
    } else {
        let rest = slots_filled(rows.drop_last());
        match (rows.last().series_id, rows.last().occurrence_on) {
            (Some(id), Some(on)) => rest.push(
                Slot { series_id: id, occurrence_on: day_in(on@) },
            ),
            _ => rest,
        }
    }
}

fn load_claims(rows: &Vec<ClaimRow>) -> (r: Vec<Slot>)
    ensures
        r@ == slots_filled(rows@),
{
    let mut out: Vec<Slot> = Vec::new();
    let mut i: usize = 0;
    assert(rows@.take(0) =~= Seq::<ClaimRow>::empty());
    while i < rows.len()
        invariant
            i <= rows@.len(),
            out@ == slots_filled(rows@.take(i as int)),
        decreases rows@.len() - i,
    {
        assert(rows@.take(i + 1).drop_last() =~= rows@.take(i as int));
        if let Some(id) = rows[i].series_id {
            if let Some(on) = &rows[i].occurrence_on {
                out.push(Slot { series_id: id, occurrence_on: to_day(on.as_str()) });
            }
        }
        i = i + 1;
    }
    assert(rows@.take(rows@.len() as int) =~= rows@);
    out
}

/// Whether a rate holds on a day.
pub open spec fn holds_on(p: RatePeriod, id: i64, day: Seq<char>) -> bool {
    p.rule_id == id && !text_lt(day, p.effective_from@) && (p.effective_to matches Some(t)
        ==> text_lt(day, t@))
}

/// The place of the rate in force on a day: of those that hold, the one that began last.
pub open spec fn rate_place(rates: Seq<RatePeriod>, id: i64, day: Seq<char>, n: int) -> Option<int>
    decreases n,
{
    if n <= 0 {
        None
    } else {
        let rest = rate_place(rates, id, day, n - 1);
        if holds_on(rates[n - 1], id, day) && (rest matches Some(k) ==> text_lt(
            rates[k].effective_from@,
            rates[n - 1].effective_from@,
        )) {
            Some(n - 1)
        } else {
            rest
        }
    }
}

/// The rate in force on a day.
pub open spec fn rate_on(rates: Seq<RatePeriod>, id: i64, day: Seq<char>) -> Option<i64> {
    match rate_place(rates, id, day, rates.len() as int) {
        Some(k) => Some(rates[k].periodic_rate_e15),
        None => None,
    }
}

/// The rate in force on a day: of those that hold, the one that began last.
pub fn rate_in_force(rates: &Vec<RatePeriod>, id: i64, day: &str) -> (r: Option<i64>)
    ensures
        r == rate_on(rates@, id, day@),
{
    let mut best: Option<usize> = None;
    let mut i: usize = 0;
    while i < rates.len()
        invariant
            i <= rates@.len(),
            match best {
                Some(k) => k < i && rate_place(rates@, id, day@, i as int) == Some(k as int),
                None => rate_place(rates@, id, day@, i as int) is None,
            },
        decreases rates@.len() - i,
    {
        let p = &rates[i];
        let open = match &p.effective_to {
            Some(t) => text_less(day, t.as_str()),
            None => true,
        };
        if p.rule_id == id && !text_less(day, p.effective_from.as_str()) && open {
            let newer = match best {
                Some(k) => text_less(rates[k].effective_from.as_str(), p.effective_from.as_str()),
                None => true,
            };
            if newer {
                best = Some(i);
            }
        }
        i = i + 1;
    }
    match best {
        Some(k) => Some(rates[k].periodic_rate_e15),
        None => None,
    }
}

/// Whether an interest rule is a stored one with its rate.
pub open spec fn is_interest(x: InterestRule, r: InterestRow, rate: i64) -> bool {
    &&& x.id == r.id
    &&& x.account_id == r.account_id
    &&& x.counter_account_id == r.counter_account_id
    &&& x.shape@ == r.shape@
    &&& x.accrues_on@ == r.accrues_on@
    &&& x.accrual_freq@ == r.accrual_freq@
    &&& x.capitalise_rrule@ == r.capitalise_rrule@
    &&& x.capitalise_dtstart == day_in(r.capitalise_dtstart@)
    &&& x.periodic_rate_e15 == rate
    &&& x.grace_period == r.grace_period
    &&& x.scenario_id == r.scenario_id
}

/// The places of the interest rules that have a rate in force on a day.
pub open spec fn rated(rows: Seq<InterestRow>, rates: Seq<RatePeriod>, day: Seq<char>, n: int) -> Seq<
    int,
>
    decreases n,
{
    if n <= 0 {
        Seq::empty()
    } else if rate_on(rates, rows[n - 1].id, day) is Some {
        rated(rows, rates, day, n - 1).push(n - 1)
    } else {
        rated(rows, rates, day, n - 1)
    }
}

/// Whether interest rules are the stored ones that have a rate in force on a day.
pub open spec fn are_interest(
    v: Seq<InterestRule>,
    rows: Seq<InterestRow>,
    rates: Seq<RatePeriod>,
    day: Seq<char>,
    n: int,
) -> bool {
    let at = rated(rows, rates, day, n);
    v.len() == at.len() && forall|i: int|
        0 <= i < v.len() ==> is_interest(
            #[trigger] v[i],
            rows[at[i]],
            rate_on(rates, rows[at[i]].id, day)->0,
        )
}

fn load_interest(rows: &Vec<InterestRow>, rates: &Vec<RatePeriod>, day: &str) -> (r: Vec<
    InterestRule,
>)
    ensures
        are_interest(r@, rows@, rates@, day@, rows@.len() as int),
{
    let mut out: Vec<InterestRule> = Vec::new();
    let mut i: usize = 0;
    while i < rows.len()
        invariant
            i <= rows@.len(),
            are_interest(out@, rows@, rates@, day@, i as int),
        decreases rows@.len() - i,
    {
        let r = &rows[i];
        if let Some(rate) = rate_in_force(rates, r.id, day) {
            out.push(
                InterestRule {
                    id: r.id,
                    account_id: r.account_id,
                    counter_account_id: r.counter_account_id,
                    shape: r.shape.clone(),
                    accrues_on: r.accrues_on.clone(),
                    accrual_freq: r.accrual_freq.clone(),
                    capitalise_rrule: r.capitalise_rrule.clone(),
                    capitalise_dtstart: to_day(r.capitalise_dtstart.as_str()),
                    periodic_rate_e15: rate,
                    grace_period: r.grace_period,
                    scenario_id: r.scenario_id,
                },
            );
        }
        i = i + 1;
    }
    out
}

/// Whether a payment rule is a stored one.
pub open spec fn is_payment(x: PaymentRule, r: PaymentRow) -> bool {
    &&& x.id == r.id
    &&& x.account_id == r.account_id
    &&& x.from_account_id == r.from_account_id
    &&& x.amount_kind@ == r.amount_kind@
    &&& x.fixed_minor == r.fixed_minor
    &&& x.pct_e15 == r.pct_e15
    &&& x.floor_minor == r.floor_minor
    &&& x.cap_minor == r.cap_minor
    &&& x.level_payment_minor == r.level_payment_minor
    &&& x.rrule@ == r.rrule@
    &&& x.dtstart == day_in(r.dtstart@)
    &&& x.until_on == opt_day_in(r.until_on)
    &&& x.scenario_id == r.scenario_id
}

fn load_payments(rows: &Vec<PaymentRow>) -> (r: Vec<PaymentRule>)
    ensures
        r@.len() == rows@.len(),
        forall|i: int| 0 <= i < r@.len() ==> is_payment(#[trigger] r@[i], rows@[i]),
{
    let mut out: Vec<PaymentRule> = Vec::new();
    let mut i: usize = 0;
    while i < rows.len()
        invariant
            i <= rows@.len(),
            out@.len() == i,
            forall|j: int| 0 <= j < i ==> is_payment(#[trigger] out@[j], rows@[j]),
        decreases rows@.len() - i,
    {
        let r = &rows[i];
        out.push(
            PaymentRule {
                id: r.id,
                account_id: r.account_id,
                from_account_id: r.from_account_id,
                amount_kind: r.amount_kind.clone(),
                fixed_minor: r.fixed_minor,
                pct_e15: r.pct_e15,
                floor_minor: r.floor_minor,
                cap_minor: r.cap_minor,
                level_payment_minor: r.level_payment_minor,
                rrule: r.rrule.clone(),
                dtstart: to_day(r.dtstart.as_str()),
                until_on: to_opt_day(&r.until_on),
                scenario_id: r.scenario_id,
            },
        );
        i = i + 1;
    }
    out
}

/// The days of holidays.
pub open spec fn days_in(v: Seq<String>) -> Seq<Date> {
    v.map_values(|s: String| day_in(s@))
}

fn load_days(rows: &Vec<String>) -> (r: Vec<Date>)
    ensures
        r@ == days_in(rows@),
{
    let mut out: Vec<Date> = Vec::new();
    let mut i: usize = 0;
    while i < rows.len()
        invariant
            i <= rows@.len(),
            out@ == days_in(rows@).take(i as int),
        decreases rows@.len() - i,
    {
        let d = to_day(rows[i].as_str());
        assert(days_in(rows@)[i as int] == d);
        assert(days_in(rows@).take(i + 1) =~= days_in(rows@).take(i as int).push(d));
        out.push(d);
        i = i + 1;
    }
    assert(days_in(rows@).take(rows@.len() as int) =~= days_in(rows@));
    out
}

/// What accounts are called, or the currencies they hold: of two rows for one account the later one
/// decides.
pub open spec fn names_by_id(rows: Seq<Account>, currency: bool) -> Map<i64, String>
    decreases rows.len(),
{
    if rows.len() == 0 {
        Map::empty()
    } else {
        names_by_id(rows.drop_last(), currency).insert(
            rows.last().id,
            if currency {
                rows.last().currency
            } else {
                rows.last().name
            },
        )
    }
}

fn load_names(rows: &Vec<Account>, currency: bool) -> (r: HashMap<i64, String>)
    ensures
        r@ == names_by_id(rows@, currency),
{
    let mut m: HashMap<i64, String> = HashMap::new();
    let mut i: usize = 0;
    assert(rows@.take(0) =~= Seq::<Account>::empty());
    while i < rows.len()
        invariant
            i <= rows@.len(),
            m@ == names_by_id(rows@.take(i as int), currency),
        decreases rows@.len() - i,
    {
        assert(rows@.take(i + 1).drop_last() =~= rows@.take(i as int));
        let t = if currency {
            rows[i].currency.clone()
        } else {
            rows[i].name.clone()
        };
        m.insert(rows[i].id, t);
        i = i + 1;
    }
    assert(rows@.take(rows@.len() as int) =~= rows@);
    m
}

/// Whether a snapshot is that of a book on a day.
pub open spec fn is_snapshot(s: Snapshot, b: BookRows, as_of: Date) -> bool {
    let day = iso(as_of.days as int);
    &&& are_openings(s.opening@, b.movements@, day)
    &&& s.account_name@ == names_by_id(b.accounts@, false)
    &&& s.account_currency@ == names_by_id(b.accounts@, true)
    &&& are_series(s.series@, b.series@, b.postings@)
    &&& s.overrides@.len() == b.overrides@.len()
    &&& forall|i: int|
        0 <= i < s.overrides@.len() ==> is_override(#[trigger] s.overrides@[i], b.overrides@[i])
    &&& s.claimed@ == slots_filled(b.claims@)
    &&& are_interest(s.interest_rules@, b.interest@, b.rates@, day, b.interest@.len() as int)
    &&& s.payment_rules@.len() == b.payments@.len()
    &&& forall|i: int|
        0 <= i < s.payment_rules@.len() ==> is_payment(
            #[trigger] s.payment_rules@[i],
            b.payments@[i],
        )
    &&& s.holidays@ == days_in(b.holidays@)
}

/// The snapshot of a book on a day: what accounts have come to by the end of it, and everything that
/// recurs. `None` where what an account has come to is no amount.
pub fn snapshot(b: &BookRows, as_of: Date) -> (r: Option<Snapshot>)
    ensures
        match r {
            Some(s) => sums_fit(b.movements@, iso(as_of.days as int)) && is_snapshot(s, *b, as_of),
            None => !sums_fit(b.movements@, iso(as_of.days as int)),
        },
{
    let day = as_of.to_text();
    let opening = match openings(&b.movements, day.as_str()) {
        Some(m) => m,
        None => return None,
    };
    Some(
        Snapshot {
            opening,
            account_currency: load_names(&b.accounts, true),
            account_name: load_names(&b.accounts, false),
            series: load_series(&b.series, &b.postings),
            overrides: load_overrides(&b.overrides),
            claimed: load_claims(&b.claims),
            holidays: load_days(&b.holidays),
            interest_rules: load_interest(&b.interest, &b.rates, day.as_str()),
            payment_rules: load_payments(&b.payments),
        },
    )
}

/// A movement after the day is not in an opening balance.
pub proof fn law_a_later_movement_is_not_in_the_opening(
    rows: Seq<Movement>,
    m: Movement,
    id: i64,
    day: Seq<char>,
)
    requires
        text_lt(day, m.on@),
    ensures
        come_to(rows.push(m), id, day) == come_to(rows, id, day),
{
    assert(rows.push(m).drop_last() =~= rows);
}

/// An interest rule with no rate in force is left out, never given a rate of nothing.
pub proof fn law_an_unrated_rule_is_left_out(
    rows: Seq<InterestRow>,
    rates: Seq<RatePeriod>,
    day: Seq<char>,
    n: int,
    k: int,
)
    requires
        0 <= n <= rows.len(),
        0 <= k < rated(rows, rates, day, n).len(),
    ensures
        rate_on(rates, rows[rated(rows, rates, day, n)[k]].id, day) is Some,
    decreases n,
{
    if n > 0 && k < rated(rows, rates, day, n - 1).len() {
        law_an_unrated_rule_is_left_out(rows, rates, day, n - 1, k);
    }
}

} // verus!
