//! The projection. A pure function over a snapshot -- no database handle, no I/O, no writes.
//!
//! `project` takes a `&Snapshot` of plain structs and can therefore not touch the book even by
//! accident. That is what makes a what-if scenario an argument rather than a second database, and
//! what stops a projection from ever being mistaken for history. Generated occurrences are never
//! written back: to make one real, enter it -- it then claims its slot and is projected no more.

use crate::date::{iso, Date};
use crate::money::Minor;
use crate::dayfold::{
    days_between, opening_state, walk_days, walked, Events, RuleDates, State,
};
use crate::recur::{adjusted, business_adjust, Ask, RecurError, Recurrence};
use crate::text::{str_eq, text_less, text_lt};
use std::collections::{BTreeMap, HashMap, HashSet};
use vstd::prelude::*;

verus! {

broadcast use {
    vstd::string::group_string_axioms,
    vstd::std_specs::hash::group_hash_axioms,
    vstd::std_specs::btree::group_btree_axioms,
};

/// One posting of a series' template.
#[derive(Debug, Clone)]
pub struct SeriesPosting {
    pub account_id: i64,
    pub currency: String,
    pub amount_minor: Minor,
    pub role: String,
}

/// A recurring payment.
#[derive(Debug, Clone)]
pub struct Series {
    pub id: i64,
    pub description: String,
    pub rrule: String,
    pub dtstart: Date,
    pub until_on: Option<Date>,
    pub weekend_rule: String,
    pub scenario_id: Option<i64>,
    /// A scenario series that suppresses a baseline one -- "what if I cancel Netflix".
    pub supersedes_id: Option<i64>,
    /// Set on every hop of a recurring chain: the id of the first hop's series, and the hop's
    /// position from 0. A chain is one commitment expressed as several series.
    pub chain_id: Option<i64>,
    pub chain_seq: Option<i64>,
    pub postings: Vec<SeriesPosting>,
}

/// A change to one occurrence of a series.
#[derive(Debug, Clone)]
pub struct Override {
    /// amend, skip or add.
    pub action: String,
    pub moved_to: Option<Date>,
    pub amount_minor: Option<Minor>,
    pub description: Option<String>,
}

/// How an account earns or is charged interest.
#[derive(Debug, Clone)]
pub struct InterestRule {
    pub id: i64,
    pub account_id: i64,
    pub counter_account_id: i64,
    pub shape: String,
    /// 'negative' = debt (cards, loans); 'positive' = savings.
    pub accrues_on: String,
    /// 'daily' compounds on the running balance; 'per_period' charges once at capitalisation.
    pub accrual_freq: String,
    pub capitalise_rrule: String,
    pub capitalise_dtstart: Date,
    pub periodic_rate_e15: i64,
    /// Cards with a grace period charge nothing while the balance is clear.
    pub grace_period: bool,
    pub scenario_id: Option<i64>,
}

/// How a debt is paid down.
#[derive(Debug, Clone)]
pub struct PaymentRule {
    pub id: i64,
    /// The account being paid down.
    pub account_id: i64,
    /// Where the money comes from.
    pub from_account_id: i64,
    pub amount_kind: String,
    pub fixed_minor: Option<Minor>,
    pub pct_e15: Option<i64>,
    pub floor_minor: Option<Minor>,
    pub cap_minor: Option<Minor>,
    pub level_payment_minor: Option<Minor>,
    pub rrule: String,
    pub dtstart: Date,
    pub until_on: Option<Date>,
    pub scenario_id: Option<i64>,
}

/// An override and the slot it is for.
#[derive(Debug, Clone)]
pub struct SlotOverride {
    pub series_id: i64,
    pub occurrence_on: Date,
    pub change: Override,
}

/// A slot that a real transaction fills.
#[derive(Debug, Clone, Copy)]
pub struct Slot {
    pub series_id: i64,
    pub occurrence_on: Date,
}

/// Everything the projection needs, loaded once and then detached from the database entirely.
#[derive(Debug, Default)]
pub struct Snapshot {
    pub opening: BTreeMap<i64, Minor>,
    pub account_currency: HashMap<i64, String>,
    pub account_name: HashMap<i64, String>,
    pub series: Vec<Series>,
    /// Of two overrides of one slot the later decides.
    pub overrides: Vec<SlotOverride>,
    /// Slots already filled by a real transaction.
    pub claimed: Vec<Slot>,
    pub holidays: Vec<Date>,
    pub interest_rules: Vec<InterestRule>,
    pub payment_rules: Vec<PaymentRule>,
}

/// One leg of a projected payment.
#[derive(Debug, Clone)]
pub struct Occurrence {
    pub series_id: i64,
    /// The slot, before any weekend adjustment. This is the identity a real transaction claims.
    pub occurrence_on: String,
    /// The date money actually moves -- after overrides and weekend adjustment.
    pub value_on: String,
    pub description: String,
    pub account_id: i64,
    pub account: String,
    pub currency: String,
    pub amount_minor: Minor,
    /// Which hop of a recurring chain this is, and how many there are; both absent for a plain
    /// series.
    pub chain_seq: Option<i64>,
    pub chain_len: Option<i64>,
}

/// A closing balance on a day the account moved.
#[derive(Debug, Clone)]
pub struct BalancePoint {
    pub account_id: i64,
    pub account: String,
    pub currency: String,
    pub on: String,
    pub balance_minor: Minor,
}

/// A projection from a day to a horizon.
#[derive(Debug, Clone)]
pub struct Projection {
    pub occurrences: Vec<Occurrence>,
    /// Closing balance per account per day it changed. Days with no movement are omitted: a reader
    /// carries the last value forward.
    pub balances: Vec<BalancePoint>,
    pub as_of: String,
    pub horizon: String,
}

/// The content of an occurrence.
pub struct OccView {
    pub series_id: int,
    pub occurrence_on: Seq<char>,
    pub value_on: Seq<char>,
    pub description: Seq<char>,
    pub account_id: i64,
    pub account: Seq<char>,
    pub currency: Seq<char>,
    pub amount: int,
    pub chain_seq: Option<i64>,
    pub chain_len: Option<int>,
}

impl View for Occurrence {
    type V = OccView;

    open spec fn view(&self) -> OccView {
        OccView {
            series_id: self.series_id as int,
            occurrence_on: self.occurrence_on@,
            value_on: self.value_on@,
            description: self.description@,
            account_id: self.account_id,
            account: self.account@,
            currency: self.currency@,
            amount: self.amount_minor as int,
            chain_seq: self.chain_seq,
            chain_len: match self.chain_len {
                Some(n) => Some(n as int),
                None => None,
            },
        }
    }
}

/// The contents of a list of occurrences.
pub open spec fn occ_views(v: Seq<Occurrence>) -> Seq<OccView> {
    v.map_values(|o: Occurrence| o@)
}

/// The content of a balance point.
pub struct PointView {
    pub account_id: i64,
    pub account: Seq<char>,
    pub currency: Seq<char>,
    pub on: Seq<char>,
    pub balance: int,
}

impl View for BalancePoint {
    type V = PointView;

    open spec fn view(&self) -> PointView {
        PointView {
            account_id: self.account_id,
            account: self.account@,
            currency: self.currency@,
            on: self.on@,
            balance: self.balance_minor as int,
        }
    }
}

/// The contents of a list of balance points.
pub open spec fn point_views(v: Seq<BalancePoint>) -> Seq<PointView> {
    v.map_values(|p: BalancePoint| p@)
}

/// The name of an account, or nothing where the snapshot has none.
pub open spec fn name_in(names: Map<i64, String>, id: i64) -> Seq<char> {
    if names.contains_key(id) {
        names[id]@
    } else {
        Seq::empty()
    }
}

fn name_of(names: &HashMap<i64, String>, id: i64) -> (r: String)
    ensures
        r@ == name_in(names@, id),
{
    match names.get(&id) {
        Some(s) => s.clone(),
        None => String::new(),
    }
}

/// Whether a series or a rule takes part: it is baseline, or its scenario is active.
pub open spec fn takes_part(scenario: Option<i64>, active: Set<i64>) -> bool {
    scenario matches Some(id) ==> active.contains(id)
}

fn does_take_part(scenario: Option<i64>, active: &HashSet<i64>) -> (r: bool)
    ensures
        r == takes_part(scenario, active@),
{
    match scenario {
        Some(id) => active.contains(&id),
        None => true,
    }
}

/// Whether an active scenario's series supersedes the series with this id.
pub open spec fn suppressed(series: Seq<Series>, active: Set<i64>, id: i64) -> bool {
    exists|i: int|
        0 <= i < series.len() && supersedes(#[trigger] series[i], active, id)
}

/// Whether a series is of an active scenario and supersedes the series with this id.
pub open spec fn supersedes(s: Series, active: Set<i64>, id: i64) -> bool {
    &&& s.scenario_id matches Some(sc) && active.contains(sc)
    &&& s.supersedes_id == Some(id)
}

/// Whether some hop of a chain is superseded: cancelling any hop cancels the chain.
pub open spec fn chain_suppressed(series: Seq<Series>, active: Set<i64>, chain: i64) -> bool {
    exists|i: int|
        0 <= i < series.len() && (#[trigger] series[i]).chain_id == Some(chain) && suppressed(
            series,
            active,
            series[i].id,
        )
}

/// Whether a series is projected.
pub open spec fn projected(series: Seq<Series>, active: Set<i64>, s: Series) -> bool {
    &&& takes_part(s.scenario_id, active)
    &&& !suppressed(series, active, s.id)
    &&& s.chain_id matches Some(c) ==> !chain_suppressed(series, active, c)
}

fn is_suppressed(series: &Vec<Series>, active: &HashSet<i64>, id: i64) -> (r: bool)
    ensures
        r == suppressed(series@, active@, id),
{
    let mut i: usize = 0;
    while i < series.len()
        invariant
            i <= series@.len(),
            forall|j: int| 0 <= j < i ==> !supersedes(#[trigger] series@[j], active@, id),
        decreases series@.len() - i,
    {
        let s = &series[i];
        if let Some(sc) = s.scenario_id {
            if active.contains(&sc) {
                if let Some(t) = s.supersedes_id {
                    if t == id {
                        assert(supersedes(series@[i as int], active@, id));
                        return true;
                    }
                }
            }
        }
        i = i + 1;
    }
    false
}

fn is_projected(series: &Vec<Series>, active: &HashSet<i64>, at: usize) -> (r: bool)
    requires
        at < series@.len(),
    ensures
        r == projected(series@, active@, series@[at as int]),
{
    if !does_take_part(series[at].scenario_id, active) || is_suppressed(
        series,
        active,
        series[at].id,
    ) {
        return false;
    }
    if let Some(c) = series[at].chain_id {
        let mut i: usize = 0;
        while i < series.len()
            invariant
                i <= series@.len(),
                at < series@.len(),
                series@[at as int].chain_id == Some(c),
                forall|j: int|
                    0 <= j < i ==> !((#[trigger] series@[j]).chain_id == Some(c) && suppressed(
                        series@,
                        active@,
                        series@[j].id,
                    )),
            decreases series@.len() - i,
        {
            if let Some(k) = series[i].chain_id {
                if k == c && is_suppressed(series, active, series[i].id) {
                    assert(chain_suppressed(series@, active@, c));
                    return false;
                }
            }
            i = i + 1;
        }
        assert(!chain_suppressed(series@, active@, c));
    }
    true
}

/// How many series of a list are hops of a chain.
pub open spec fn hops_of(series: Seq<Series>, chain: i64) -> int
    decreases series.len(),
{
    if series.len() == 0 {
        0
    } else {
        hops_of(series.drop_last(), chain) + (if series.last().chain_id == Some(chain) {
            1int
        } else {
            0
        })
    }
}

fn count_hops(series: &Vec<Series>, chain: i64) -> (r: i64)
    requires
        series@.len() <= i64::MAX,
    ensures
        r == hops_of(series@, chain),
{
    let mut n: i64 = 0;
    let mut i: usize = 0;
    while i < series.len()
        invariant
            i <= series@.len() <= i64::MAX,
            0 <= n <= i,
            n == hops_of(series@.take(i as int), chain),
        decreases series@.len() - i,
    {
        assert(series@.take(i + 1).drop_last() =~= series@.take(i as int));
        if let Some(k) = series[i].chain_id {
            if k == chain {
                n = n + 1;
            }
        }
        i = i + 1;
    }
    assert(series@.take(series@.len() as int) =~= series@);
    n
}

/// The override of a slot; of two the later.
pub open spec fn override_at(
    overrides: Seq<SlotOverride>,
    series_id: i64,
    slot: Date,
) -> Option<Override>
    decreases overrides.len(),
{
    if overrides.len() == 0 {
        None
    } else if overrides.last().series_id == series_id && overrides.last().occurrence_on == slot {
        Some(overrides.last().change)
    } else {
        override_at(overrides.drop_last(), series_id, slot)
    }
}

fn find_override(overrides: &Vec<SlotOverride>, series_id: i64, slot: Date) -> (r: Option<usize>)
    ensures
        match r {
            Some(i) => i < overrides@.len() && override_at(overrides@, series_id, slot) == Some(
                overrides@[i as int].change,
            ),
            None => override_at(overrides@, series_id, slot) is None,
        },
{
    let mut i: usize = overrides.len();
    assert(overrides@.take(i as int) =~= overrides@);
    while i > 0
        invariant
            i <= overrides@.len(),
            override_at(overrides@.take(i as int), series_id, slot) == override_at(
                overrides@,
                series_id,
                slot,
            ),
        decreases i,
    {
        assert(overrides@.take(i as int).drop_last() =~= overrides@.take(i - 1));
        assert(overrides@.take(i as int).last() == overrides@[i - 1]);
        i = i - 1;
        if overrides[i].series_id == series_id && overrides[i].occurrence_on == slot {
            return Some(i);
        }
    }
    None
}

/// Whether a real transaction fills a slot.
pub open spec fn is_claimed(claimed: Seq<Slot>, series_id: i64, slot: Date) -> bool {
    exists|i: int|
        0 <= i < claimed.len() && (#[trigger] claimed[i]).series_id == series_id
            && claimed[i].occurrence_on == slot
}

fn claims(claimed: &Vec<Slot>, series_id: i64, slot: Date) -> (r: bool)
    ensures
        r == is_claimed(claimed@, series_id, slot),
{
    let mut i: usize = 0;
    while i < claimed.len()
        invariant
            i <= claimed@.len(),
            forall|j: int|
                0 <= j < i ==> !((#[trigger] claimed@[j]).series_id == series_id
                    && claimed@[j].occurrence_on == slot),
        decreases claimed@.len() - i,
    {
        if claimed[i].series_id == series_id && claimed[i].occurrence_on == slot {
            return true;
        }
        i = i + 1;
    }
    false
}

/// Whether nothing is projected in a slot: it is skipped, or history already fills it.
pub open spec fn slot_empty(snap: Snapshot, s: Series, slot: Date) -> bool {
    ||| override_at(snap.overrides@, s.id, slot) matches Some(o) && o.action@ == "skip"@
    ||| is_claimed(snap.claimed@, s.id, slot)
}

/// The date money moves for a slot: where an override moves it, then off a weekend. The slot itself
/// is unchanged, so an override cannot orphan itself and a claim still matches.
pub open spec fn value_date(snap: Snapshot, s: Series, slot: Date) -> Date {
    let moved = match override_at(snap.overrides@, s.id, slot) {
        Some(o) => match o.moved_to {
            Some(d) => d,
            None => slot,
        },
        None => slot,
    };
    adjusted(moved, s.weekend_rule@, snap.holidays@)
}

/// What the legs of a slot are described as.
pub open spec fn slot_label(snap: Snapshot, s: Series, slot: Date) -> Seq<char> {
    match override_at(snap.overrides@, s.id, slot) {
        Some(o) => match o.description {
            Some(d) => d@,
            None => s.description@,
        },
        None => s.description@,
    }
}

/// What a leg of a slot moves. An amount override applies to the primary leg; the balancing leg
/// follows so the occurrence still sums to zero.
pub open spec fn leg_amount(snap: Snapshot, s: Series, slot: Date, p: SeriesPosting) -> int {
    match override_at(snap.overrides@, s.id, slot) {
        Some(o) => match o.amount_minor {
            Some(a) => if p.role@ == "primary"@ {
                a as int
            } else if p.role@ == "balancing"@ {
                -a
            } else {
                p.amount_minor as int
            },
            None => p.amount_minor as int,
        },
        None => p.amount_minor as int,
    }
}

/// The occurrence of a leg of a slot.
pub open spec fn leg_of(snap: Snapshot, s: Series, slot: Date, p: SeriesPosting) -> OccView {
    OccView {
        series_id: s.id as int,
        occurrence_on: iso(slot.days as int),
        value_on: iso(value_date(snap, s, slot).days as int),
        description: slot_label(snap, s, slot),
        account_id: p.account_id,
        account: name_in(snap.account_name@, p.account_id),
        currency: p.currency@,
        amount: leg_amount(snap, s, slot, p),
        chain_seq: s.chain_seq,
        chain_len: match s.chain_id {
            Some(c) => Some(hops_of(snap.series@, c)),
            None => None,
        },
    }
}

/// The occurrences of a slot: one for each posting of the template, or none where the slot is
/// skipped or filled.
pub open spec fn slot_legs(snap: Snapshot, s: Series, slot: Date) -> Seq<OccView> {
    if slot_empty(snap, s, slot) {
        Seq::empty()
    } else {
        s.postings@.map_values(|p: SeriesPosting| leg_of(snap, s, slot, p))
    }
}

/// The occurrences of a series: those of its slots, one after the other.
pub open spec fn series_legs(snap: Snapshot, s: Series, slots: Seq<Date>) -> Seq<OccView>
    decreases slots.len(),
{
    if slots.len() == 0 {
        Seq::empty()
    } else {
        series_legs(snap, s, slots.drop_last()) + slot_legs(snap, s, slots.last())
    }
}

/// The occurrences of the first `n` series, each with its slots; a series that is not projected has
/// none.
pub open spec fn legs_upto(
    snap: Snapshot,
    active: Set<i64>,
    slots: Seq<Seq<Date>>,
    n: int,
) -> Seq<OccView>
    decreases n,
{
    if n <= 0 {
        Seq::empty()
    } else {
        let before = legs_upto(snap, active, slots, n - 1);
        let s = snap.series@[n - 1];
        if projected(snap.series@, active, s) {
            before + series_legs(snap, s, slots[n - 1])
        } else {
            before
        }
    }
}

/// The dates of a list of lists.
pub open spec fn date_lists(v: Seq<Vec<Date>>) -> Seq<Seq<Date>> {
    v.map_values(|d: Vec<Date>| d@)
}

/// Whether an amount fits.
pub open spec fn fits(n: int) -> bool {
    i64::MIN <= n <= i64::MAX
}

/// Whether the amount of every occurrence fits.
pub open spec fn all_fit(occs: Seq<OccView>) -> bool {
    forall|i: int| 0 <= i < occs.len() ==> fits((#[trigger] occs[i]).amount)
}

/// A template leg's amount under an override, where it fits.
fn amount_of(change: Option<&Override>, p: &SeriesPosting) -> (r: Option<Minor>)
    ensures
        ({
            let v = match change {
                Some(o) => match o.amount_minor {
                    Some(a) => if p.role@ == "primary"@ {
                        a as int
                    } else if p.role@ == "balancing"@ {
                        -a
                    } else {
                        p.amount_minor as int
                    },
                    None => p.amount_minor as int,
                },
                None => p.amount_minor as int,
            };
            match r {
                Some(m) => m == v,
                None => !fits(v),
            }
        }),
{
    let given: Option<Minor> = match change {
        Some(o) => o.amount_minor,
        None => None,
    };
    match given {
        Some(a) => {
            if str_eq(p.role.as_str(), "primary") {
                Some(a)
            } else if str_eq(p.role.as_str(), "balancing") {
                if a == i64::MIN {
                    None
                } else {
                    Some(-a)
                }
            } else {
                Some(p.amount_minor)
            }
        },
        None => Some(p.amount_minor),
    }
}

/// Put the occurrences of a slot behind those there are; `false` where an amount does not fit.
fn emit_slot(
    snap: &Snapshot,
    at: usize,
    slot: Date,
    chain_len: Option<i64>,
    out: &mut Vec<Occurrence>,
) -> (r: bool)
    requires
        at < snap.series@.len(),
        match snap.series@[at as int].chain_id {
            Some(c) => chain_len matches Some(n) && n == hops_of(snap.series@, c),
            None => chain_len is None,
        },
    ensures
        ({
            let legs = slot_legs(*snap, snap.series@[at as int], slot);
            if r {
                occ_views(final(out)@) == occ_views(old(out)@) + legs && all_fit(legs)
            } else {
                !all_fit(legs)
            }
        }),
{
    let s = &snap.series[at];
    let found = find_override(&snap.overrides, s.id, slot);
    let change: Option<&Override> = match found {
        Some(i) => Some(&snap.overrides[i].change),
        None => None,
    };
    let skipped = match change {
        Some(o) => str_eq(o.action.as_str(), "skip"),
        None => false,
    };
    // A real transaction already fills this slot: history supersedes projection.
    if skipped || claims(&snap.claimed, s.id, slot) {
        assert(occ_views(out@) =~= occ_views(out@) + Seq::<OccView>::empty());
        return true;
    }
    let moved = match change {
        Some(o) => match o.moved_to {
            Some(d) => d,
            None => slot,
        },
        None => slot,
    };
    let value_on = business_adjust(moved, s.weekend_rule.as_str(), &snap.holidays);
    let label: String = match change {
        Some(o) => match &o.description {
            Some(d) => d.clone(),
            None => s.description.clone(),
        },
        None => s.description.clone(),
    };
    let ghost before = occ_views(out@);
    let ghost legs = slot_legs(*snap, *s, slot);
    let slot_text = slot.to_text();
    let value_text = value_on.to_text();
    let mut i: usize = 0;
    assert(occ_views(out@) =~= before + legs.take(0));
    while i < s.postings.len()
        invariant
            at < snap.series@.len(),
            *s == snap.series@[at as int],
            legs == slot_legs(*snap, *s, slot),
            !slot_empty(*snap, *s, slot),
            legs.len() == s.postings@.len(),
            match s.chain_id {
                Some(c) => chain_len matches Some(n) && n == hops_of(snap.series@, c),
                None => chain_len is None,
            },
            match override_at(snap.overrides@, s.id, slot) {
                Some(o) => change matches Some(c) && *c == o,
                None => change is None,
            },
            slot_text@ == iso(slot.days as int),
            value_text@ == iso(value_date(*snap, *s, slot).days as int),
            label@ == slot_label(*snap, *s, slot),
            i <= s.postings@.len(),
            occ_views(out@) == before + legs.take(i as int),
            forall|j: int| 0 <= j < i ==> fits((#[trigger] legs[j]).amount),
        decreases s.postings@.len() - i,
    {
        let p = &s.postings[i];
        assert(legs[i as int] == leg_of(*snap, *s, slot, *p));
        let amount_minor: Minor = match amount_of(change, p) {
            Some(a) => a,
            None => {
                assert(!fits(legs[i as int].amount));
                return false;
            },
        };
        let o = Occurrence {
            series_id: s.id,
            occurrence_on: slot_text.clone(),
            value_on: value_text.clone(),
            description: label.clone(),
            account_id: p.account_id,
            account: name_of(&snap.account_name, p.account_id),
            currency: p.currency.clone(),
            amount_minor,
            chain_seq: s.chain_seq,
            chain_len,
        };
        assert(o@ == legs[i as int]);
        assert(occ_views(out@.push(o)) =~= occ_views(out@).push(o@));
        assert(legs.take(i + 1) =~= legs.take(i as int).push(legs[i as int]));
        out.push(o);
        i = i + 1;
        assert(occ_views(out@) =~= before + legs.take(i as int));
    }
    assert(legs.take(legs.len() as int) =~= legs);
    true
}

proof fn lemma_fit_concat(a: Seq<OccView>, b: Seq<OccView>)
    ensures
        all_fit(a + b) <==> all_fit(a) && all_fit(b),
{
    let c = a + b;
    if all_fit(c) {
        assert forall|i: int| 0 <= i < a.len() implies fits((#[trigger] a[i]).amount) by {
            assert(c[i] == a[i]);
        }
        assert forall|i: int| 0 <= i < b.len() implies fits((#[trigger] b[i]).amount) by {
            assert(c[a.len() + i] == b[i]);
        }
    }
    if all_fit(a) && all_fit(b) {
        assert forall|i: int| 0 <= i < c.len() implies fits((#[trigger] c[i]).amount) by {
            if i < a.len() {
                assert(c[i] == a[i]);
            } else {
                assert(c[i] == b[i - a.len()]);
            }
        }
    }
}

proof fn lemma_series_unfit(snap: Snapshot, s: Series, slots: Seq<Date>, k: int)
    requires
        0 <= k <= slots.len(),
        !all_fit(series_legs(snap, s, slots.take(k))),
    ensures
        !all_fit(series_legs(snap, s, slots)),
    decreases slots.len() - k,
{
    if k < slots.len() {
        assert(slots.take(k + 1).drop_last() =~= slots.take(k));
        lemma_fit_concat(
            series_legs(snap, s, slots.take(k)),
            slot_legs(snap, s, slots.take(k + 1).last()),
        );
        lemma_series_unfit(snap, s, slots, k + 1);
    } else {
        assert(slots.take(k) =~= slots);
    }
}

proof fn lemma_legs_unfit(
    snap: Snapshot,
    active: Set<i64>,
    slots: Seq<Seq<Date>>,
    k: int,
    n: int,
)
    requires
        0 <= k <= n,
        !all_fit(legs_upto(snap, active, slots, k)),
    ensures
        !all_fit(legs_upto(snap, active, slots, n)),
    decreases n - k,
{
    if k < n {
        let s = snap.series@[k];
        if projected(snap.series@, active, s) {
            lemma_fit_concat(
                legs_upto(snap, active, slots, k),
                series_legs(snap, s, slots[k]),
            );
        }
        lemma_legs_unfit(snap, active, slots, k + 1, n);
    }
}

/// The occurrences of every projected series, or `None` where an amount does not fit.
fn emit(snap: &Snapshot, active: &HashSet<i64>, slots: &Vec<Vec<Date>>) -> (r: Option<
    Vec<Occurrence>,
>)
    requires
        snap.series@.len() <= i64::MAX,
        slots@.len() == snap.series@.len(),
    ensures
        ({
            let legs = legs_upto(
                *snap,
                active@,
                date_lists(slots@),
                snap.series@.len() as int,
            );
            match r {
                Some(v) => occ_views(v@) == legs && all_fit(legs),
                None => !all_fit(legs),
            }
        }),
{
    let ghost lists = date_lists(slots@);
    let n: usize = snap.series.len();
    let mut out: Vec<Occurrence> = Vec::new();
    let mut i: usize = 0;
    assert(occ_views(out@) =~= Seq::<OccView>::empty());
    while i < n
        invariant
            n == snap.series@.len(),
            n <= i64::MAX,
            slots@.len() == n,
            lists == date_lists(slots@),
            i <= n,
            occ_views(out@) == legs_upto(*snap, active@, lists, i as int),
            all_fit(occ_views(out@)),
        decreases n - i,
    {
        let ghost before = occ_views(out@);
        let ghost s = snap.series@[i as int];
        if is_projected(&snap.series, active, i) {
            let chain_len: Option<i64> = match snap.series[i].chain_id {
                Some(c) => Some(count_hops(&snap.series, c)),
                None => None,
            };
            let days = &slots[i];
            assert(lists[i as int] == days@);
            let mut k: usize = 0;
            assert(days@.take(0) =~= Seq::<Date>::empty());
            assert(before + Seq::<OccView>::empty() =~= before);
            while k < days.len()
                invariant
                    i < n,
                    n == snap.series@.len(),
                    slots@.len() == n,
                    lists == date_lists(slots@),
                    days@ == lists[i as int],
                    s == snap.series@[i as int],
                    projected(snap.series@, active@, s),
                    before == legs_upto(*snap, active@, lists, i as int),
                    match s.chain_id {
                        Some(c) => chain_len matches Some(m) && m == hops_of(snap.series@, c),
                        None => chain_len is None,
                    },
                    k <= days@.len(),
                    occ_views(out@) == before + series_legs(*snap, s, days@.take(k as int)),
                    all_fit(occ_views(out@)),
                decreases days@.len() - k,
            {
                let ghost now = occ_views(out@);
                let ghost here = slot_legs(*snap, s, days@[k as int]);
                proof {
                    assert(days@.take(k + 1).drop_last() =~= days@.take(k as int));
                    assert(days@.take(k + 1).last() == days@[k as int]);
                    lemma_fit_concat(now, here);
                    lemma_fit_concat(before, series_legs(*snap, s, days@.take(k as int)));
                    lemma_fit_concat(series_legs(*snap, s, days@.take(k as int)), here);
                }
                if !emit_slot(snap, i, days[k], chain_len, &mut out) {
                    proof {
                        lemma_series_unfit(*snap, s, days@, k + 1);
                        lemma_fit_concat(before, series_legs(*snap, s, days@));
                        lemma_legs_unfit(*snap, active@, lists, i + 1, n as int);
                    }
                    return None;
                }
                k = k + 1;
                assert(occ_views(out@) =~= before + series_legs(*snap, s, days@.take(k as int)));
            }
            assert(days@.take(days@.len() as int) =~= days@);
        }
        i = i + 1;
    }
    Some(out)
}

/// Whether one occurrence stands before another: by the date money moves, then by series, then by
/// account.
pub open spec fn stands_before(a: OccView, b: OccView) -> bool {
    ||| text_lt(a.value_on, b.value_on)
    ||| a.value_on == b.value_on && a.series_id < b.series_id
    ||| a.value_on == b.value_on && a.series_id == b.series_id && a.account_id < b.account_id
}

fn comes_before(a: &Occurrence, b: &Occurrence) -> (r: bool)
    ensures
        r == stands_before(a@, b@),
{
    if text_less(a.value_on.as_str(), b.value_on.as_str()) {
        return true;
    }
    if !str_eq(a.value_on.as_str(), b.value_on.as_str()) {
        return false;
    }
    a.series_id < b.series_id || (a.series_id == b.series_id && a.account_id < b.account_id)
}

/// An occurrence put in its place: behind every one that it does not stand before.
pub open spec fn placed(s: Seq<OccView>, o: OccView) -> Seq<OccView>
    decreases s.len(),
{
    if s.len() > 0 && stands_before(o, s.last()) {
        placed(s.drop_last(), o).push(s.last())
    } else {
        s.push(o)
    }
}

/// The occurrences in order; those that stand level keep the order they come in.
pub open spec fn ordered(s: Seq<OccView>) -> Seq<OccView>
    decreases s.len(),
{
    if s.len() == 0 {
        s
    } else {
        placed(ordered(s.drop_last()), s.last())
    }
}

proof fn lemma_placed_at(s: Seq<OccView>, o: OccView, i: int)
    requires
        0 <= i <= s.len(),
        forall|j: int| i <= j < s.len() ==> stands_before(o, #[trigger] s[j]),
        i > 0 ==> !stands_before(o, s[i - 1]),
    ensures
        placed(s, o) == s.insert(i, o),
    decreases s.len(),
{
    if i < s.len() {
        assert(stands_before(o, s[s.len() - 1]));
        let rest = s.drop_last();
        assert forall|j: int| i <= j < rest.len() implies stands_before(o, #[trigger] rest[j]) by {
            assert(stands_before(o, s[j]));
        }
        lemma_placed_at(rest, o, i);
        assert(rest.insert(i, o).push(s.last()) =~= s.insert(i, o));
    } else {
        assert(s.insert(i, o) =~= s.push(o));
    }
}

/// Put an occurrence in its place.
fn place(v: &mut Vec<Occurrence>, o: Occurrence)
    ensures
        occ_views(final(v)@) == placed(occ_views(old(v)@), o@),
{
    let ghost before = occ_views(v@);
    let mut i: usize = v.len();
    while i > 0 && comes_before(&o, &v[i - 1])
        invariant
            i <= v@.len(),
            before == occ_views(v@),
            forall|j: int| i <= j < v@.len() ==> stands_before(o@, #[trigger] before[j]),
        decreases i,
    {
        assert(before[i - 1] == v@[i - 1]@);
        i = i - 1;
    }
    proof {
        if i > 0 {
            assert(before[i - 1] == v@[i - 1]@);
        }
        lemma_placed_at(before, o@, i as int);
        assert(occ_views(v@.insert(i as int, o)) =~= before.insert(i as int, o@));
    }
    v.insert(i, o);
}

/// The occurrences in order.
fn in_sequence(v: Vec<Occurrence>) -> (r: Vec<Occurrence>)
    ensures
        occ_views(r@) == ordered(occ_views(v@)),
{
    let mut out: Vec<Occurrence> = Vec::new();
    let mut i: usize = 0;
    assert(occ_views(out@) =~= ordered(occ_views(v@).take(0)));
    while i < v.len()
        invariant
            i <= v@.len(),
            occ_views(out@) == ordered(occ_views(v@).take(i as int)),
        decreases v@.len() - i,
    {
        proof {
            assert(occ_views(v@).take(i + 1).drop_last() =~= occ_views(v@).take(i as int));
            assert(occ_views(v@).take(i + 1).last() == v@[i as int]@);
        }
        let o = copy_of(&v[i]);
        place(&mut out, o);
        i = i + 1;
    }
    assert(occ_views(v@).take(v@.len() as int) =~= occ_views(v@));
    out
}

/// A copy of an occurrence.
pub fn copy_of(o: &Occurrence) -> (r: Occurrence)
    ensures
        r@ == o@,
{
    Occurrence {
        series_id: o.series_id,
        occurrence_on: o.occurrence_on.clone(),
        value_on: o.value_on.clone(),
        description: o.description.clone(),
        account_id: o.account_id,
        account: o.account.clone(),
        currency: o.currency.clone(),
        amount_minor: o.amount_minor,
        chain_seq: o.chain_seq,
        chain_len: o.chain_len,
    }
}

/// The occurrences of the series, in order.
pub open spec fn series_occurrences(
    snap: Snapshot,
    active: Set<i64>,
    slots: Seq<Seq<Date>>,
) -> Seq<OccView> {
    ordered(legs_upto(snap, active, slots, snap.series@.len() as int))
}

/// Where the walk over a projection's days ends.
pub open spec fn final_state(
    snap: Snapshot,
    active: Set<i64>,
    slots: Seq<Seq<Date>>,
    ev: Events,
    as_of: Date,
    horizon: Date,
) -> State {
    walked(
        opening_state(snap),
        snap,
        active,
        series_occurrences(snap, active, slots),
        ev,
        as_of.days as int,
        days_between(as_of, horizon),
    )
}

/// Whether every amount of a projection fits.
pub open spec fn projection_fits(
    snap: Snapshot,
    active: Set<i64>,
    slots: Seq<Seq<Date>>,
    ev: Events,
    as_of: Date,
    horizon: Date,
) -> bool {
    &&& all_fit(legs_upto(snap, active, slots, snap.series@.len() as int))
    &&& final_state(snap, active, slots, ev, as_of, horizon).ok
}

/// Whether `p` is the projection of a snapshot, given the dates its series and rules land on.
pub open spec fn is_projection(
    p: Projection,
    snap: Snapshot,
    active: Set<i64>,
    slots: Seq<Seq<Date>>,
    ev: Events,
    as_of: Date,
    horizon: Date,
) -> bool {
    let end = final_state(snap, active, slots, ev, as_of, horizon);
    &&& occ_views(p.occurrences@) == ordered(
        series_occurrences(snap, active, slots) + end.extra,
    )
    &&& point_views(p.balances@) == end.balances
    &&& p.as_of@ == iso(as_of.days as int)
    &&& p.horizon@ == iso(horizon.days as int)
}

/// Project from `as_of` to `horizon`, both counted, given the dates the series land on and those the
/// rules' events do. `None` where an amount does not fit.
pub fn project_over(
    snap: &Snapshot,
    as_of: Date,
    horizon: Date,
    active: &HashSet<i64>,
    slots: &Vec<Vec<Date>>,
    capitalise: &Vec<RuleDates>,
    pay: &Vec<RuleDates>,
) -> (r: Option<Projection>)
    requires
        horizon.in_range(),
        snap.series@.len() <= i64::MAX,
        slots@.len() == snap.series@.len(),
    ensures
        ({
            let ev = Events { capitalise: capitalise@, pay: pay@ };
            let lists = date_lists(slots@);
            match r {
                Some(p) => projection_fits(*snap, active@, lists, ev, as_of, horizon)
                    && is_projection(p, *snap, active@, lists, ev, as_of, horizon),
                None => !projection_fits(*snap, active@, lists, ev, as_of, horizon),
            }
        }),
{
    let occs = match emit(snap, active, slots) {
        Some(v) => v,
        None => {
            return None;
        },
    };
    let mut occs = in_sequence(occs);
    let walk = match walk_days(snap, active, &occs, capitalise, pay, as_of, horizon) {
        Some(w) => w,
        None => {
            return None;
        },
    };
    let ghost first = occ_views(occs@);
    let ghost more = occ_views(walk.extra@);
    let mut i: usize = 0;
    assert(first + more.take(0) =~= first);
    while i < walk.extra.len()
        invariant
            i <= walk.extra@.len(),
            more == occ_views(walk.extra@),
            occ_views(occs@) == first + more.take(i as int),
        decreases walk.extra@.len() - i,
    {
        let o = copy_of(&walk.extra[i]);
        assert(occ_views(occs@.push(o)) =~= occ_views(occs@).push(o@));
        assert(more.take(i + 1) =~= more.take(i as int).push(o@));
        occs.push(o);
        i = i + 1;
        assert(occ_views(occs@) =~= first + more.take(i as int));
    }
    assert(more.take(more.len() as int) =~= more);
    Some(
        Projection {
            occurrences: in_sequence(occs),
            balances: walk.balances,
            as_of: as_of.to_text(),
            horizon: horizon.to_text(),
        },
    )
}

/// Why there is no projection.
#[derive(Debug)]
pub enum ProjectError {
    /// A rule does not expand.
    Recur(RecurError),
    /// An amount leaves the range of an amount on the way.
    OutOfRange,
}

impl ProjectError {
    /// The message, as a sequence of characters.
    pub open spec fn text(self) -> Seq<char> {
        match self {
            ProjectError::Recur(e) => e.text(),
            ProjectError::OutOfRange => "a projected amount is out of range"@,
        }
    }

    /// The message a person reads.
    pub fn to_text(&self) -> (r: String)
        ensures
            r@ == self.text(),
    {
        match self {
            ProjectError::Recur(e) => e.to_text(),
            ProjectError::OutOfRange => "a projected amount is out of range".to_string(),
        }
    }
}

/// What is asked of the expander for a series.
pub open spec fn series_ask(s: Series, as_of: Date, horizon: Date) -> Ask {
    Ask { rule: s.rrule@, dtstart: s.dtstart, until: s.until_on, lo: as_of, hi: horizon }
}

/// What is asked of the expander for an interest rule.
pub open spec fn interest_ask(r: InterestRule, as_of: Date, horizon: Date) -> Ask {
    Ask {
        rule: r.capitalise_rrule@,
        dtstart: r.capitalise_dtstart,
        until: None,
        lo: as_of,
        hi: horizon,
    }
}

/// What is asked of the expander for a payment rule.
pub open spec fn payment_ask(r: PaymentRule, as_of: Date, horizon: Date) -> Ask {
    Ask { rule: r.rrule@, dtstart: r.dtstart, until: r.until_on, lo: as_of, hi: horizon }
}

/// The interest rules that take part, in order.
pub open spec fn interest_in_force(rules: Seq<InterestRule>, active: Set<i64>) -> Seq<InterestRule>
    decreases rules.len(),
{
    if rules.len() == 0 {
        rules
    } else if takes_part(rules.last().scenario_id, active) {
        interest_in_force(rules.drop_last(), active).push(rules.last())
    } else {
        interest_in_force(rules.drop_last(), active)
    }
}

/// The payment rules that take part, in order.
pub open spec fn payments_in_force(rules: Seq<PaymentRule>, active: Set<i64>) -> Seq<PaymentRule>
    decreases rules.len(),
{
    if rules.len() == 0 {
        rules
    } else if takes_part(rules.last().scenario_id, active) {
        payments_in_force(rules.drop_last(), active).push(rules.last())
    } else {
        payments_in_force(rules.drop_last(), active)
    }
}

/// Whether the slots are what the expander gives for every projected series.
pub open spec fn slots_expanded<R: Recurrence>(
    recur: R,
    snap: Snapshot,
    active: Set<i64>,
    as_of: Date,
    horizon: Date,
    slots: Seq<Seq<Date>>,
) -> bool {
    &&& slots.len() == snap.series@.len()
    &&& forall|i: int|
        0 <= i < slots.len() && projected(snap.series@, active, #[trigger] snap.series@[i])
            ==> recur.yields(series_ask(snap.series@[i], as_of, horizon), slots[i])
}

/// Whether dates are what the expander gives for each interest rule.
pub open spec fn interest_expanded<R: Recurrence>(
    recur: R,
    rules: Seq<InterestRule>,
    as_of: Date,
    horizon: Date,
    dates: Seq<RuleDates>,
) -> bool {
    &&& dates.len() == rules.len()
    &&& forall|i: int|
        0 <= i < rules.len() ==> dates[i].id == (#[trigger] rules[i]).id && recur.yields(
            interest_ask(rules[i], as_of, horizon),
            dates[i].days@,
        )
}

/// Whether dates are what the expander gives for each payment rule.
pub open spec fn payments_expanded<R: Recurrence>(
    recur: R,
    rules: Seq<PaymentRule>,
    as_of: Date,
    horizon: Date,
    dates: Seq<RuleDates>,
) -> bool {
    &&& dates.len() == rules.len()
    &&& forall|i: int|
        0 <= i < rules.len() ==> dates[i].id == (#[trigger] rules[i]).id && recur.yields(
            payment_ask(rules[i], as_of, horizon),
            dates[i].days@,
        )
}

/// Whether everything a projection expands is what the expander gives.
pub open spec fn all_expanded<R: Recurrence>(
    recur: R,
    snap: Snapshot,
    active: Set<i64>,
    as_of: Date,
    horizon: Date,
    slots: Seq<Seq<Date>>,
    ev: Events,
) -> bool {
    &&& slots_expanded(recur, snap, active, as_of, horizon, slots)
    &&& interest_expanded(
        recur,
        interest_in_force(snap.interest_rules@, active),
        as_of,
        horizon,
        ev.capitalise,
    )
    &&& payments_expanded(
        recur,
        payments_in_force(snap.payment_rules@, active),
        as_of,
        horizon,
        ev.pay,
    )
}

/// Whether the expander may refuse something that a projection needs, with these words.
pub open spec fn some_refused<R: Recurrence>(
    recur: R,
    snap: Snapshot,
    active: Set<i64>,
    as_of: Date,
    horizon: Date,
    text: Seq<char>,
) -> bool {
    ||| exists|i: int|
        0 <= i < snap.series@.len() && projected(snap.series@, active, #[trigger] snap.series@[i])
            && recur.refuses(series_ask(snap.series@[i], as_of, horizon), text)
    ||| exists|i: int|
        0 <= i < snap.interest_rules@.len() && takes_part(
            (#[trigger] snap.interest_rules@[i]).scenario_id,
            active,
        ) && recur.refuses(interest_ask(snap.interest_rules@[i], as_of, horizon), text)
    ||| exists|i: int|
        0 <= i < snap.payment_rules@.len() && takes_part(
            (#[trigger] snap.payment_rules@[i]).scenario_id,
            active,
        ) && recur.refuses(payment_ask(snap.payment_rules@[i], as_of, horizon), text)
}

fn expand_series<R: Recurrence>(
    recur: &R,
    snap: &Snapshot,
    as_of: Date,
    horizon: Date,
    active: &HashSet<i64>,
) -> (r: Result<Vec<Vec<Date>>, RecurError>)
    ensures
        match r {
            Ok(v) => v@.len() == snap.series@.len() && slots_expanded(
                *recur,
                *snap,
                active@,
                as_of,
                horizon,
                date_lists(v@),
            ),
            Err(e) => some_refused(*recur, *snap, active@, as_of, horizon, e.text()),
        },
{
    let mut out: Vec<Vec<Date>> = Vec::new();
    let mut i: usize = 0;
    while i < snap.series.len()
        invariant
            i <= snap.series@.len(),
            out@.len() == i,
            forall|j: int|
                0 <= j < i && projected(snap.series@, active@, #[trigger] snap.series@[j])
                    ==> recur.yields(series_ask(snap.series@[j], as_of, horizon), out@[j]@),
        decreases snap.series@.len() - i,
    {
        let s = &snap.series[i];
        if is_projected(&snap.series, active, i) {
            match recur.expand(s.rrule.as_str(), s.dtstart, s.until_on, as_of, horizon) {
                Ok(days) => {
                    out.push(days);
                },
                Err(e) => {
                    assert(recur.refuses(
                        series_ask(snap.series@[i as int], as_of, horizon),
                        e.text(),
                    ));
                    return Err(e);
                },
            }
        } else {
            out.push(Vec::new());
        }
        i = i + 1;
    }
    Ok(out)
}

fn expand_interest<R: Recurrence>(
    recur: &R,
    snap: &Snapshot,
    as_of: Date,
    horizon: Date,
    active: &HashSet<i64>,
) -> (r: Result<Vec<RuleDates>, RecurError>)
    ensures
        match r {
            Ok(v) => interest_expanded(
                *recur,
                interest_in_force(snap.interest_rules@, active@),
                as_of,
                horizon,
                v@,
            ),
            Err(e) => some_refused(*recur, *snap, active@, as_of, horizon, e.text()),
        },
{
    let mut out: Vec<RuleDates> = Vec::new();
    let mut i: usize = 0;
    while i < snap.interest_rules.len()
        invariant
            i <= snap.interest_rules@.len(),
            interest_expanded(
                *recur,
                interest_in_force(snap.interest_rules@.take(i as int), active@),
                as_of,
                horizon,
                out@,
            ),
        decreases snap.interest_rules@.len() - i,
    {
        let r = &snap.interest_rules[i];
        assert(snap.interest_rules@.take(i + 1).drop_last() =~= snap.interest_rules@.take(
            i as int,
        ));
        if does_take_part(r.scenario_id, active) {
            match recur.expand(
                r.capitalise_rrule.as_str(),
                r.capitalise_dtstart,
                None,
                as_of,
                horizon,
            ) {
                Ok(days) => {
                    out.push(RuleDates { id: r.id, days });
                },
                Err(e) => {
                    assert(recur.refuses(
                        interest_ask(snap.interest_rules@[i as int], as_of, horizon),
                        e.text(),
                    ));
                    return Err(e);
                },
            }
        }
        i = i + 1;
    }
    assert(snap.interest_rules@.take(i as int) =~= snap.interest_rules@);
    Ok(out)
}

fn expand_payments<R: Recurrence>(
    recur: &R,
    snap: &Snapshot,
    as_of: Date,
    horizon: Date,
    active: &HashSet<i64>,
) -> (r: Result<Vec<RuleDates>, RecurError>)
    ensures
        match r {
            Ok(v) => payments_expanded(
                *recur,
                payments_in_force(snap.payment_rules@, active@),
                as_of,
                horizon,
                v@,
            ),
            Err(e) => some_refused(*recur, *snap, active@, as_of, horizon, e.text()),
        },
{
    let mut out: Vec<RuleDates> = Vec::new();
    let mut i: usize = 0;
    while i < snap.payment_rules.len()
        invariant
            i <= snap.payment_rules@.len(),
            payments_expanded(
                *recur,
                payments_in_force(snap.payment_rules@.take(i as int), active@),
                as_of,
                horizon,
                out@,
            ),
        decreases snap.payment_rules@.len() - i,
    {
        let r = &snap.payment_rules[i];
        assert(snap.payment_rules@.take(i + 1).drop_last() =~= snap.payment_rules@.take(i as int));
        if does_take_part(r.scenario_id, active) {
            match recur.expand(r.rrule.as_str(), r.dtstart, r.until_on, as_of, horizon) {
                Ok(days) => {
                    out.push(RuleDates { id: r.id, days });
                },
                Err(e) => {
                    assert(recur.refuses(
                        payment_ask(snap.payment_rules@[i as int], as_of, horizon),
                        e.text(),
                    ));
                    return Err(e);
                },
            }
        }
        i = i + 1;
    }
    assert(snap.payment_rules@.take(i as int) =~= snap.payment_rules@);
    Ok(out)
}

/// Whether a projection is that of a snapshot from a day to a horizon, with the dates that its rules
/// expand to.
pub open spec fn projects<R: Recurrence>(
    recur: R,
    snap: Snapshot,
    active: Set<i64>,
    as_of: Date,
    horizon: Date,
    p: Projection,
) -> bool {
    exists|slots: Seq<Seq<Date>>, ev: Events|
        #![trigger all_expanded(recur, snap, active, as_of, horizon, slots, ev)]
        all_expanded(recur, snap, active, as_of, horizon, slots, ev) && projection_fits(
            snap,
            active,
            slots,
            ev,
            as_of,
            horizon,
        ) && is_projection(p, snap, active, slots, ev, as_of, horizon)
}

/// Whether an amount leaves its range on the way from a day to a horizon.
pub open spec fn leaves_range<R: Recurrence>(
    recur: R,
    snap: Snapshot,
    active: Set<i64>,
    as_of: Date,
    horizon: Date,
) -> bool {
    exists|slots: Seq<Seq<Date>>, ev: Events|
        #![trigger all_expanded(recur, snap, active, as_of, horizon, slots, ev)]
        all_expanded(recur, snap, active, as_of, horizon, slots, ev) && !projection_fits(
            snap,
            active,
            slots,
            ev,
            as_of,
            horizon,
        )
}

/// Project from `as_of` to `horizon`, inclusive.
///
/// `active` is the set of scenario ids to overlay. A series without a scenario is baseline and
/// always projected; one with a scenario is projected only when that scenario is active, and may
/// then supersede a baseline one, which is skipped entirely rather than netted against.
pub fn project<R: Recurrence>(
    recur: &R,
    snap: &Snapshot,
    as_of: Date,
    horizon: Date,
    active: &HashSet<i64>,
) -> (r: Result<Projection, ProjectError>)
    requires
        horizon.in_range(),
        snap.series@.len() <= i64::MAX,
    ensures
        match r {
            Ok(p) => projects(*recur, *snap, active@, as_of, horizon, p),
            Err(ProjectError::OutOfRange) => leaves_range(*recur, *snap, active@, as_of, horizon),
            Err(ProjectError::Recur(e)) => some_refused(
                *recur,
                *snap,
                active@,
                as_of,
                horizon,
                e.text(),
            ),
        },
{
    let slots = match expand_series(recur, snap, as_of, horizon, active) {
        Ok(v) => v,
        Err(e) => {
            return Err(ProjectError::Recur(e));
        },
    };
    // Only the dates of interest events are expanded ahead -- the amounts are unknowable until the
    // walk reaches them.
    let capitalise = match expand_interest(recur, snap, as_of, horizon, active) {
        Ok(v) => v,
        Err(e) => {
            return Err(ProjectError::Recur(e));
        },
    };
    let pay = match expand_payments(recur, snap, as_of, horizon, active) {
        Ok(v) => v,
        Err(e) => {
            return Err(ProjectError::Recur(e));
        },
    };
    proof {
        let ev = Events { capitalise: capitalise@, pay: pay@ };
        assert(all_expanded(
            *recur,
            *snap,
            active@,
            as_of,
            horizon,
            date_lists(slots@),
            ev,
        ));
    }
    match project_over(snap, as_of, horizon, active, &slots, &capitalise, &pay) {
        Some(p) => Ok(p),
        None => Err(ProjectError::OutOfRange),
    }
}

} // verus!
