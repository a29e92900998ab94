//! What recurs, and what it really costs per month.
//!
//! The monthly figure is the reason this is not a table of template amounts. Twelve months are
//! genuinely expanded through the projection, so that end dates, skipped occurrences, amended
//! amounts and weekend adjustment are all already in the number -- and four-weekly does not get
//! mistaken for monthly, which is the error that makes a budget quietly 8% optimistic.

use crate::forecast::{Occurrence, Series, SeriesPosting};
use crate::lists::{first, lemma_first};
use crate::money::{round_half_away, rounded, Minor};
use crate::paths::{put, with_id};
use crate::sorting::{rank, ranked, Ranked};
use crate::tally::{add_to, in_order, keeps, sum_of, Sum};
use crate::text::str_eq;
use vstd::prelude::*;

verus! {

broadcast use vstd::string::group_string_axioms;

/// Whether the posting at a place is the primary one.
pub open spec fn is_primary(postings: Seq<SeriesPosting>) -> spec_fn(int) -> bool {
    |i: int| postings[i].role@ == "primary"@
}

/// The account a series is seen from: its primary leg's, unless it is a later hop of a chain. The
/// balancing leg is the same money seen from the other side, and the money of a chain leaves the
/// household once, on its first hop.
pub open spec fn seen_from(s: Series) -> Option<i64> {
    let i = first(s.postings@.len() as int, is_primary(s.postings@));
    if s.chain_seq matches Some(q) && q > 0 {
        None
    } else if i < s.postings@.len() {
        Some(s.postings@[i].account_id)
    } else {
        None
    }
}

/// The account the series with this id is seen from.
pub open spec fn primary_of(series: Seq<Series>, id: i64) -> Option<i64>
    decreases series.len(),
{
    if series.len() == 0 {
        None
    } else if series.last().id == id && seen_from(series.last()) is Some {
        seen_from(series.last())
    } else {
        primary_of(series.drop_last(), id)
    }
}

/// Whether an occurrence counts towards what its series costs.
pub open spec fn counts(series: Seq<Series>, o: Occurrence) -> bool {
    primary_of(series, o.series_id) == Some(o.account_id)
}

fn account_seen_from(s: &Series) -> (r: Option<i64>)
    ensures
        r == seen_from(*s),
{
    let later = match s.chain_seq {
        Some(q) => q > 0,
        None => false,
    };
    let mut i: usize = 0;
    while i < s.postings.len()
        invariant
            i <= s.postings@.len(),
            later == (s.chain_seq matches Some(q) && q > 0),
            forall|j: int| 0 <= j < i ==> !#[trigger] is_primary(s.postings@)(j),
        decreases s.postings@.len() - i,
    {
        if str_eq(s.postings[i].role.as_str(), "primary") {
            proof {
                lemma_first(s.postings@.len() as int, is_primary(s.postings@), i as int);
            }
            return if later {
                None
            } else {
                Some(s.postings[i].account_id)
            };
        }
        i = i + 1;
    }
    proof {
        lemma_first(s.postings@.len() as int, is_primary(s.postings@), i as int);
    }
    None
}

fn find_primary(series: &Vec<Series>, id: i64) -> (r: Option<i64>)
    ensures
        r == primary_of(series@, id),
{
    let mut n: usize = series.len();
    assert(series@.take(series@.len() as int) =~= series@);
    while n > 0
        invariant
            n <= series@.len(),
            primary_of(series@, id) == primary_of(series@.take(n as int), id),
        decreases n,
    {
        assert(series@.take(n as int).drop_last() =~= series@.take(n - 1));
        assert(series@.take(n as int).last() == series@[n - 1]);
        if series[n - 1].id == id {
            let a = account_seen_from(&series[n - 1]);
            if a.is_some() {
                return a;
            }
        }
        n = n - 1;
    }
    None
}

/// The occurrences that count towards what their series cost.
pub open spec fn counted(series: Seq<Series>, occs: Seq<Occurrence>) -> Seq<Occurrence>
    decreases occs.len(),
{
    if occs.len() == 0 {
        occs
    } else {
        let rest = counted(series, occs.drop_last());
        if counts(series, occs.last()) {
            rest.push(occs.last())
        } else {
            rest
        }
    }
}

/// What the occurrences of a series come to.
pub open spec fn sum_for(occs: Seq<Occurrence>, id: i64) -> int
    decreases occs.len(),
{
    if occs.len() == 0 {
        0
    } else {
        sum_for(occs.drop_last(), id) + (if occs.last().series_id == id {
            occs.last().amount_minor as int
        } else {
            0
        })
    }
}

/// How many occurrences a series has.
pub open spec fn count_for(occs: Seq<Occurrence>, id: i64) -> int
    decreases occs.len(),
{
    if occs.len() == 0 {
        0
    } else {
        count_for(occs.drop_last(), id) + (if occs.last().series_id == id {
            1int
        } else {
            0
        })
    }
}

/// The series that occur, in order of their ids.
pub open spec fn series_in(occs: Seq<Occurrence>) -> Seq<i64>
    decreases occs.len(),
{
    if occs.len() == 0 {
        Seq::empty()
    } else {
        with_id(series_in(occs.drop_last()), occs.last().series_id)
    }
}

/// Whether the occurrence at a place is of this series.
pub open spec fn is_of(occs: Seq<Occurrence>, id: i64) -> spec_fn(int) -> bool {
    |i: int| occs[i].series_id == id
}

/// The place of a series' first occurrence.
pub open spec fn first_of(occs: Seq<Occurrence>, id: i64) -> int {
    first(occs.len() as int, is_of(occs, id))
}

/// The place of the series with this id, or -1.
pub open spec fn series_place(series: Seq<Series>, id: i64) -> int
    decreases series.len(),
{
    if series.len() == 0 {
        -1
    } else if series.last().id == id {
        series.len() - 1
    } else {
        series_place(series.drop_last(), id)
    }
}

/// What a series costs.
#[derive(Debug, Clone)]
pub struct Commitment {
    pub series_id: i64,
    pub description: String,
    pub rrule: String,
    pub account: String,
    pub currency: String,
    pub next_on: String,
    pub occurrences: usize,
    pub annual_minor: Minor,
    pub monthly_minor: Minor,
}

impl Ranked for Commitment {
    /// The most costly first: what leaves is negative.
    open spec fn before(&self, other: &Commitment) -> bool {
        self.monthly_minor < other.monthly_minor
    }

    fn comes_before(&self, other: &Commitment) -> (r: bool) {
        self.monthly_minor < other.monthly_minor
    }
}

/// A year's sum as a month's share, nothing where that leaves the range of an amount.
pub open spec fn monthly_share(annual: int) -> int {
    let m = rounded(annual, 12);
    if i64::MIN <= m <= i64::MAX {
        m
    } else {
        0
    }
}

/// A sum as an amount, the greatest one where it leaves the range.
pub open spec fn as_amount(n: int) -> int {
    if i64::MIN <= n <= i64::MAX {
        n
    } else {
        i64::MAX as int
    }
}

/// Whether a row says what a series costs.
pub open spec fn is_commitment(
    c: Commitment,
    series: Seq<Series>,
    own: Seq<Occurrence>,
    id: i64,
) -> bool {
    let f = own[first_of(own, id)];
    let at = series_place(series, id);
    &&& c.series_id == id
    &&& c.account@ == f.account@
    &&& c.currency@ == f.currency@
    &&& c.next_on@ == f.value_on@
    &&& c.occurrences == count_for(own, id)
    &&& c.annual_minor == as_amount(sum_for(own, id))
    &&& c.monthly_minor == monthly_share(sum_for(own, id))
    &&& if at >= 0 {
        c.description@ == series[at].description@ && c.rrule@ == series[at].rrule@
    } else {
        c.description@ == Seq::<char>::empty() && c.rrule@ == Seq::<char>::empty()
    }
}

/// Whether rows say what the series that occur cost, in order of their ids.
pub open spec fn are_commitments(
    rows: Seq<Commitment>,
    series: Seq<Series>,
    own: Seq<Occurrence>,
) -> bool {
    let ids = series_in(own);
    rows.len() == ids.len() && forall|i: int|
        0 <= i < rows.len() ==> is_commitment(#[trigger] rows[i], series, own, ids[i])
}

/// The monthly shares in a currency.
pub open spec fn monthly_in(rows: Seq<Commitment>, currency: Seq<char>) -> int
    decreases rows.len(),
{
    if rows.len() == 0 {
        0
    } else {
        monthly_in(rows.drop_last(), currency) + (if rows.last().currency@ == currency {
            rows.last().monthly_minor as int
        } else {
            0
        })
    }
}

/// Whether a row is in a currency.
pub open spec fn costs_in(rows: Seq<Commitment>, currency: Seq<char>) -> bool {
    exists|i: int| 0 <= i < rows.len() && (#[trigger] rows[i]).currency@ == currency
}

/// What recurs: each series' cost, the most costly first, and the months' shares per currency.
#[derive(Debug, Clone)]
pub struct Commitments {
    pub series: Vec<Commitment>,
    pub monthly_by_currency: Vec<Sum>,
}

/// Whether these are the commitments that a year's occurrences show.
pub open spec fn shows(c: Commitments, series: Seq<Series>, occs: Seq<Occurrence>) -> bool {
    let own = counted(series, occs);
    &&& exists|rows: Seq<Commitment>| #[trigger]
        are_commitments(rows, series, own) && c.series@ == ranked(rows) && (forall|n: Seq<char>|
         #[trigger]
            sum_of(c.monthly_by_currency@, n) == monthly_in(rows, n)) && (forall|n: Seq<char>|
         #[trigger] keeps(c.monthly_by_currency@, n) == costs_in(rows, n))
    &&& in_order(c.monthly_by_currency@)
}

/// The places of the occurrences that count.
pub fn select_counted(series: &Vec<Series>, occs: &Vec<Occurrence>) -> (r: Vec<usize>)
    ensures
        counted(series@, occs@) == r@.map_values(|i: usize| occs@[i as int]),
        forall|j: int| 0 <= j < r@.len() ==> #[trigger] r@[j] < occs@.len(),
{
    let mut out: Vec<usize> = Vec::new();
    let mut i: usize = 0;
    assert(counted(series@, occs@.take(0)) =~= out@.map_values(|i: usize| occs@[i as int]));
    while i < occs.len()
        invariant
            i <= occs@.len(),
            counted(series@, occs@.take(i as int)) == out@.map_values(|i: usize| occs@[i as int]),
            forall|j: int| 0 <= j < out@.len() ==> #[trigger] out@[j] < occs@.len(),
        decreases occs@.len() - i,
    {
        assert(occs@.take(i + 1).drop_last() =~= occs@.take(i as int));
        assert(occs@.take(i + 1).last() == occs@[i as int]);
        let own = match find_primary(series, occs[i].series_id) {
            Some(a) => a == occs[i].account_id,
            None => false,
        };
        if own {
            assert(out@.push(i).map_values(|i: usize| occs@[i as int]) =~= out@.map_values(
                |i: usize| occs@[i as int],
            ).push(occs@[i as int]));
            out.push(i);
        }
        i = i + 1;
    }
    assert(occs@.take(occs@.len() as int) =~= occs@);
    out
}

fn find_series(series: &Vec<Series>, id: i64) -> (r: Option<usize>)
    ensures
        match r {
            Some(i) => i < series@.len() && series_place(series@, id) == i,
            None => series_place(series@, id) == -1,
        },
{
    let mut n: usize = series.len();
    assert(series@.take(series@.len() as int) =~= series@);
    while n > 0
        invariant
            n <= series@.len(),
            series_place(series@, id) == series_place(series@.take(n as int), id),
        decreases n,
    {
        assert(series@.take(n as int).drop_last() =~= series@.take(n - 1));
        assert(series@.take(n as int).last() == series@[n - 1]);
        if series[n - 1].id == id {
            return Some(n - 1);
        }
        n = n - 1;
    }
    None
}

proof fn lemma_sum_for_bound(occs: Seq<Occurrence>, id: i64)
    ensures
        -(occs.len() * 0x8000_0000_0000_0000) <= sum_for(occs, id) <= occs.len()
            * 0x8000_0000_0000_0000,
        0 <= count_for(occs, id) <= occs.len(),
    decreases occs.len(),
{
    if occs.len() > 0 {
        lemma_sum_for_bound(occs.drop_last(), id);
    }
}

proof fn lemma_series_in(occs: Seq<Occurrence>, id: i64)
    ensures
        series_in(occs).contains(id) <==> exists|i: int|
            0 <= i < occs.len() && (#[trigger] occs[i]).series_id == id,
    decreases occs.len(),
{
    if occs.len() > 0 {
        let rest = occs.drop_last();
        lemma_series_in(rest, id);
        crate::paths::lemma_with_id(series_in(rest), occs.last().series_id);
        if exists|i: int| 0 <= i < rest.len() && (#[trigger] rest[i]).series_id == id {
            let i = choose|i: int| 0 <= i < rest.len() && (#[trigger] rest[i]).series_id == id;
            assert(occs[i].series_id == id);
        }
        if occs.last().series_id == id {
            assert(occs[occs.len() - 1].series_id == id);
        }
        if exists|i: int| 0 <= i < occs.len() && (#[trigger] occs[i]).series_id == id {
            let i = choose|i: int| 0 <= i < occs.len() && (#[trigger] occs[i]).series_id == id;
            if i < occs.len() - 1 {
                assert(rest[i].series_id == id);
            }
        }
    }
}

fn cost_of(
    series: &Vec<Series>,
    occs: &Vec<Occurrence>,
    own: &Vec<usize>,
    id: i64,
) -> (r: Commitment)
    requires
        forall|j: int| 0 <= j < own@.len() ==> #[trigger] own@[j] < occs@.len(),
        series_in(own@.map_values(|i: usize| occs@[i as int])).contains(id),
    ensures
        is_commitment(r, series@, own@.map_values(|i: usize| occs@[i as int]), id),
{
    let ghost all = own@.map_values(|i: usize| occs@[i as int]);
    let mut annual: i128 = 0;
    let mut count: usize = 0;
    let mut at: Option<usize> = None;
    let mut i: usize = 0;
    while i < own.len()
        invariant
            i <= own@.len(),
            all == own@.map_values(|i: usize| occs@[i as int]),
            forall|j: int| 0 <= j < own@.len() ==> #[trigger] own@[j] < occs@.len(),
            annual == sum_for(all.take(i as int), id),
            count == count_for(all.take(i as int), id),
            match at {
                Some(k) => k < i && is_of(all, id)(k as int) && forall|j: int|
                    0 <= j < k ==> !#[trigger] is_of(all, id)(j),
                None => forall|j: int| 0 <= j < i ==> !#[trigger] is_of(all, id)(j),
            },
        decreases own@.len() - i,
    {
        proof {
            assert(all.take(i + 1).drop_last() =~= all.take(i as int));
            assert(all.take(i + 1).last() == occs@[own@[i as int] as int]);
            lemma_sum_for_bound(all.take(i + 1), id);
            lemma_sum_for_bound(all.take(i as int), id);
        }
        let o = &occs[own[i]];
        if o.series_id == id {
            annual = annual + o.amount_minor as i128;
            count = count + 1;
            if at.is_none() {
                at = Some(i);
            }
        }
        i = i + 1;
    }
    proof {
        assert(all.take(all.len() as int) =~= all);
        lemma_series_in(all, id);
        match at {
            Some(k) => {
                lemma_first(all.len() as int, is_of(all, id), k as int);
            },
            None => {
                let w = choose|w: int| 0 <= w < all.len() && (#[trigger] all[w]).series_id == id;
                assert(is_of(all, id)(w));
            },
        }
    }
    let k: usize = match at {
        Some(k) => k,
        None => 0,
    };
    let f = &occs[own[k]];
    let (description, rrule) = match find_series(series, id) {
        Some(s) => (series[s].description.clone(), series[s].rrule.clone()),
        None => (String::new(), String::new()),
    };
    let monthly_minor: i64 = match round_half_away(annual, 12) {
        Ok(v) => v,
        Err(_) => 0,
    };
    let annual_minor: i64 = if annual < i64::MIN as i128 || annual > i64::MAX as i128 {
        i64::MAX
    } else {
        annual as i64
    };
    Commitment {
        series_id: id,
        description,
        rrule,
        account: f.account.clone(),
        currency: f.currency.clone(),
        next_on: f.value_on.clone(),
        occurrences: count,
        annual_minor,
        monthly_minor,
    }
}

proof fn lemma_monthly_bound(rows: Seq<Commitment>, c: Seq<char>)
    ensures
        -(rows.len() * 0x8000_0000_0000_0000) <= monthly_in(rows, c) <= rows.len()
            * 0x8000_0000_0000_0000,
    decreases rows.len(),
{
    if rows.len() > 0 {
        lemma_monthly_bound(rows.drop_last(), c);
    }
}

proof fn lemma_costs_in_push(rows: Seq<Commitment>, r: Commitment, c: Seq<char>)
    ensures
        costs_in(rows.push(r), c) == (costs_in(rows, c) || r.currency@ == c),
{
    let more = rows.push(r);
    if costs_in(rows, c) {
        let i = choose|i: int| 0 <= i < rows.len() && (#[trigger] rows[i]).currency@ == c;
        assert(more[i].currency@ == c);
    }
    if r.currency@ == c {
        assert(more[rows.len() as int].currency@ == c);
    }
    if costs_in(more, c) && r.currency@ != c {
        let i = choose|i: int| 0 <= i < more.len() && (#[trigger] more[i]).currency@ == c;
        assert(rows[i].currency@ == c);
    }
}

/// What recurs and what it costs, from the occurrences of the coming year. The primary leg alone
/// counts, and a chain counts once, by its first hop.
pub fn commitments(series: &Vec<Series>, occs: &Vec<Occurrence>) -> (r: Commitments)
    ensures
        shows(r, series@, occs@),
{
    let own = select_counted(series, occs);
    let ghost all = own@.map_values(|i: usize| occs@[i as int]);
    let mut ids: Vec<i64> = Vec::new();
    let mut i: usize = 0;
    while i < own.len()
        invariant
            i <= own@.len(),
            all == own@.map_values(|i: usize| occs@[i as int]),
            forall|j: int| 0 <= j < own@.len() ==> #[trigger] own@[j] < occs@.len(),
            ids@ == series_in(all.take(i as int)),
        decreases own@.len() - i,
    {
        assert(all.take(i + 1).drop_last() =~= all.take(i as int));
        assert(all.take(i + 1).last() == occs@[own@[i as int] as int]);
        put(&mut ids, occs[own[i]].series_id);
        i = i + 1;
    }
    assert(all.take(all.len() as int) =~= all);
    let mut rows: Vec<Commitment> = Vec::new();
    let mut sums: Vec<Sum> = Vec::new();
    let mut n: usize = 0;
    while n < ids.len()
        invariant
            n <= ids@.len(),
            all == own@.map_values(|i: usize| occs@[i as int]),
            forall|j: int| 0 <= j < own@.len() ==> #[trigger] own@[j] < occs@.len(),
            ids@ == series_in(all),
            rows@.len() == n,
            forall|j: int| 0 <= j < n ==> is_commitment(#[trigger] rows@[j], series@, all, ids@[j]),
            in_order(sums@),
            forall|c: Seq<char>| #[trigger] sum_of(sums@, c) == monthly_in(rows@, c),
            forall|c: Seq<char>| #[trigger] keeps(sums@, c) == costs_in(rows@, c),
        decreases ids@.len() - n,
    {
        assert(series_in(all).contains(ids@[n as int]));
        let row = cost_of(series, occs, &own, ids[n]);
        let ghost before = rows@;
        proof {
            lemma_monthly_bound(before, row.currency@);
            assert(sum_of(sums@, row.currency@) == monthly_in(before, row.currency@));
            assert(before.push(row).drop_last() =~= before);
        }
        add_to(&mut sums, row.currency.as_str(), row.monthly_minor as i128);
        proof {
            assert forall|c: Seq<char>| #[trigger]
                keeps(sums@, c) == costs_in(before.push(row), c) by {
                lemma_costs_in_push(before, row, c);
            }
        }
        rows.push(row);
        n = n + 1;
    }
    assert(are_commitments(rows@, series@, all));
    let series = rank(rows);
    Commitments { series, monthly_by_currency: sums }
}

/// Only one leg of a commitment counts: an occurrence on any account but the one its series is seen
/// from adds nothing.
pub proof fn law_commitments_count_one_leg_only(
    series: Seq<Series>,
    occs: Seq<Occurrence>,
    o: Occurrence,
)
    requires
        primary_of(series, o.series_id) != Some(o.account_id),
    ensures
        counted(series, occs.push(o)) == counted(series, occs),
{
    assert(occs.push(o).drop_last() =~= occs);
}

/// A chain counts once, by its first hop: nothing on a later hop counts.
pub proof fn law_a_chain_counts_once(series: Seq<Series>, id: i64)
    requires
        forall|i: int|
            0 <= i < series.len() && (#[trigger] series[i]).id == id ==> (
            series[i].chain_seq matches Some(q) && q > 0),
    ensures
        primary_of(series, id) is None,
    decreases series.len(),
{
    if series.len() > 0 {
        let rest = series.drop_last();
        assert forall|i: int| 0 <= i < rest.len() && (#[trigger] rest[i]).id == id implies (
        rest[i].chain_seq matches Some(q) && q > 0) by {
            assert(rest[i] == series[i]);
        }
        assert(series.last() == series[series.len() - 1]);
        law_a_chain_counts_once(rest, id);
    }
}

} // verus!
