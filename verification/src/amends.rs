//! What becomes of single amended payments where a rule's price changes, and what an end cuts off.

use crate::date::Date;
use crate::lists::{first, lemma_first};
use crate::money::Minor;
use crate::paths::holds;
use crate::reschedule::{
    adjusted_days, claim_days, collect_adjusted_days, collect_claim_days, days_where, is_from,
    later_days, Adjustment, Claim,
};
use crate::text::str_eq;
use vstd::prelude::*;

verus! {

broadcast use vstd::string::group_string_axioms;

/// Whether the row at a place adjusts a hop on a day.
pub open spec fn adjusts_hop(rows: Seq<Adjustment>, id: i64, d: i64) -> spec_fn(int) -> bool {
    |i: int| rows[i].series_id == id && rows[i].occurrence_on.days == d
}

/// The adjustments of a day, one place per hop; past the end where a hop has none.
pub open spec fn wave(rows: Seq<Adjustment>, ids: Seq<i64>, d: i64) -> Seq<int> {
    Seq::new(ids.len(), |k: int| first(rows.len() as int, adjusts_hop(rows, ids[k], d)))
}

/// The size of an amount, none where there is none.
pub open spec fn size_at(rows: Seq<Adjustment>, i: int) -> Option<int> {
    if 0 <= i < rows.len() {
        match rows[i].amount_minor {
            Some(a) => Some(
                if a < 0 {
                    -a
                } else {
                    a as int
                },
            ),
            None => None,
        }
    } else {
        None
    }
}

/// The sizes of a day's amounts, one per hop.
pub open spec fn sizes(rows: Seq<Adjustment>, w: Seq<int>) -> Seq<Option<int>> {
    w.map_values(|i: int| size_at(rows, i))
}

/// Whether any hop of a day has an amount.
pub open spec fn any_size(s: Seq<Option<int>>) -> bool {
    exists|k: int| 0 <= k < s.len() && (#[trigger] s[k]) is Some
}

/// Whether every hop of a day carries exactly its old amount: what was stored where only the date
/// moved, not a price of its own.
pub open spec fn carries_template(s: Seq<Option<int>>, amounts: Seq<i64>) -> bool {
    forall|k: int| 0 <= k < s.len() ==> #[trigger] s[k] == Some(amounts[k] as int)
}

/// Whether an adjustment holds nothing but an amount.
pub open spec fn holds_amount_only(a: Adjustment) -> bool {
    a.action@ == "amend"@ && a.moved_to is None && a.description is None && a.note is None
}

/// Whether the adjustments of a day hold nothing but amounts.
pub open spec fn wave_holds_amounts_only(rows: Seq<Adjustment>, w: Seq<int>) -> bool {
    forall|k: int| 0 <= k < w.len() && w[k] < rows.len() ==> holds_amount_only(rows[#[trigger] w[k]])
}

/// Whether an adjustment holds nothing but an amount: following a new price then removes it, where
/// another only loses its amount.
pub fn only_amount(a: &Adjustment) -> (r: bool)
    ensures
        r == holds_amount_only(*a),
{
    str_eq(a.action.as_str(), "amend") && a.moved_to.is_none() && a.description.is_none()
        && a.note.is_none()
}

/// A day whose adjustments can follow a new price.
#[derive(Debug, Clone, Copy)]
pub struct Follow {
    pub on: i64,
    /// Whether following removes them all.
    pub removed: bool,
}

/// A day whose adjustments keep their own price.
#[derive(Debug, Clone)]
pub struct Keep {
    pub on: i64,
    /// One per hop.
    pub amounts: Vec<Option<i128>>,
}

/// Single amended payments where a rule's price changes.
#[derive(Debug, Clone)]
pub struct Amends {
    pub follow: Vec<Follow>,
    pub keep: Vec<Keep>,
}

/// Sizes as integers.
pub open spec fn size_views(v: Seq<Option<i128>>) -> Seq<Option<int>> {
    v.map_values(|a: Option<i128>| match a {
        Some(n) => Some(n as int),
        None => None,
    })
}

/// Days that can follow, each with whether following removes its adjustments.
pub open spec fn following(rows: Seq<Adjustment>, ids: Seq<i64>, amounts: Seq<i64>, days: Seq<i64>) -> Seq<
    (i64, bool),
>
    decreases days.len(),
{
    if days.len() == 0 {
        Seq::empty()
    } else {
        let rest = following(rows, ids, amounts, days.drop_last());
        let w = wave(rows, ids, days.last());
        let s = sizes(rows, w);
        if any_size(s) && carries_template(s, amounts) {
            rest.push((days.last(), wave_holds_amounts_only(rows, w)))
        } else {
            rest
        }
    }
}

/// Days that keep their own price, each with its amounts.
pub open spec fn keeping(rows: Seq<Adjustment>, ids: Seq<i64>, amounts: Seq<i64>, days: Seq<i64>) -> Seq<
    (i64, Seq<Option<int>>),
>
    decreases days.len(),
{
    if days.len() == 0 {
        Seq::empty()
    } else {
        let rest = keeping(rows, ids, amounts, days.drop_last());
        let s = sizes(rows, wave(rows, ids, days.last()));
        if any_size(s) && !carries_template(s, amounts) {
            rest.push((days.last(), s))
        } else {
            rest
        }
    }
}

/// The content of days that can follow.
pub open spec fn follow_views(v: Seq<Follow>) -> Seq<(i64, bool)> {
    v.map_values(|f: Follow| (f.on, f.removed))
}

/// The content of days that keep their own price.
pub open spec fn keep_views(v: Seq<Keep>) -> Seq<(i64, Seq<Option<int>>)> {
    v.map_values(|k: Keep| (k.on, size_views(k.amounts@)))
}

/// The place of the adjustment of a hop on a day.
pub fn find_row(rows: &Vec<Adjustment>, id: i64, d: i64) -> (r: usize)
    ensures
        r == first(rows@.len() as int, adjusts_hop(rows@, id, d)),
        r <= rows@.len(),
{
    let mut i: usize = 0;
    while i < rows.len()
        invariant
            i <= rows@.len(),
            forall|j: int| 0 <= j < i ==> !#[trigger] adjusts_hop(rows@, id, d)(j),
        decreases rows@.len() - i,
    {
        if rows[i].series_id == id && rows[i].occurrence_on.days as i64 == d {
            proof {
                lemma_first(rows@.len() as int, adjusts_hop(rows@, id, d), i as int);
            }
            return i;
        }
        i = i + 1;
    }
    proof {
        lemma_first(rows@.len() as int, adjusts_hop(rows@, id, d), i as int);
    }
    i
}

/// Which single amended payments can follow a new price and which keep their own, from a day on.
/// `rows` are the adjustments of the part's hops, `ids` its hops in order, `amounts` the price each
/// hop had.
pub fn amends(rows: &Vec<Adjustment>, ids: &Vec<i64>, amounts: &Vec<Minor>, lookback: Date) -> (r:
    Amends)
    requires
        ids@.len() == amounts@.len(),
    ensures
        ({
            let days = days_where(adjusted_days(rows@), is_from(lookback.days as i64));
            &&& follow_views(r.follow@) == following(rows@, ids@, amounts@, days)
            &&& keep_views(r.keep@) == keeping(rows@, ids@, amounts@, days)
        }),
{
    let days = later_days(rows, lookback);
    let mut follow: Vec<Follow> = Vec::new();
    let mut keep: Vec<Keep> = Vec::new();
    let mut i: usize = 0;
    assert(days@.take(0) =~= Seq::<i64>::empty());
    assert(follow_views(follow@) =~= Seq::<(i64, bool)>::empty());
    assert(keep_views(keep@) =~= Seq::<(i64, Seq<Option<int>>)>::empty());
    while i < days.len()
        invariant
            i <= days@.len(),
            ids@.len() == amounts@.len(),
            follow_views(follow@) == following(rows@, ids@, amounts@, days@.take(i as int)),
            keep_views(keep@) == keeping(rows@, ids@, amounts@, days@.take(i as int)),
        decreases days@.len() - i,
    {
        let on: i64 = days[i];
        assert(days@.take(i + 1).drop_last() =~= days@.take(i as int));
        assert(days@.take(i + 1).last() == on);
        let ghost w = wave(rows@, ids@, on);
        let ghost s = sizes(rows@, w);
        let mut own: Vec<Option<i128>> = Vec::new();
        let mut any = false;
        let mut same = true;
        let mut bare = true;
        let mut k: usize = 0;
        while k < ids.len()
            invariant
                k <= ids@.len(),
                ids@.len() == amounts@.len(),
                w == wave(rows@, ids@, on),
                s == sizes(rows@, w),
                size_views(own@) =~= s.take(k as int),
                any == exists|j: int| 0 <= j < k && (#[trigger] s[j]) is Some,
                same == forall|j: int| 0 <= j < k ==> #[trigger] s[j] == Some(amounts@[j] as int),
                bare == forall|j: int|
                    0 <= j < k && w[j] < rows@.len() ==> holds_amount_only(
                        rows@[#[trigger] w[j]],
                    ),
            decreases ids@.len() - k,
        {
            let at: usize = find_row(rows, ids[k], on);
            assert(w[k as int] == at);
            let mut size: Option<i128> = None;
            if at < rows.len() {
                if !only_amount(&rows[at]) {
                    bare = false;
                }
                if let Some(a) = rows[at].amount_minor {
                    let n: i128 = if a < 0 {
                        -(a as i128)
                    } else {
                        a as i128
                    };
                    size = Some(n);
                }
            }
            let ghost v: Option<int> = match size {
                Some(n) => Some(n as int),
                None => None,
            };
            assert(s[k as int] == v);
            match size {
                Some(n) => {
                    any = true;
                    if n != amounts[k] as i128 {
                        same = false;
                    }
                },
                None => {
                    same = false;
                },
            }
            assert(size_views(own@.push(size)) =~= size_views(own@).push(v));
            assert(s.take(k + 1) =~= s.take(k as int).push(s[k as int]));
            own.push(size);
            k = k + 1;
        }
        assert(s.take(s.len() as int) =~= s);
        if any {
            if same {
                let f = Follow { on, removed: bare };
                assert(follow_views(follow@.push(f)) =~= follow_views(follow@).push((on, bare)));
                follow.push(f);
            } else {
                let kept = Keep { on, amounts: own };
                assert(keep_views(keep@.push(kept)) =~= keep_views(keep@).push((on, s)));
                keep.push(kept);
            }
        }
        i = i + 1;
    }
    assert(days@.take(days@.len() as int) =~= days@);
    Amends { follow, keep }
}

/// Whether a day lies after a new end and was paid before, by the old one.
pub open spec fn is_cut_off(end: Option<Date>, old_end: Option<Date>) -> spec_fn(i64) -> bool {
    |d: i64|
        end matches Some(u) && end != old_end && d > u.days && (old_end matches Some(o) ==> d
            <= o.days)
}

/// Whether a day is so cut off, and was not dropped in any case.
pub open spec fn is_cut_adjustment(end: Option<Date>, old_end: Option<Date>, dropped: Seq<i64>) -> spec_fn(
    i64,
) -> bool {
    |d: i64| is_cut_off(end, old_end)(d) && !dropped.contains(d)
}

/// What an end cuts off: it stays stored, but the rule no longer pays it.
#[derive(Debug, Clone)]
pub struct Dormant {
    pub recorded: Vec<i64>,
    pub adjusted: Vec<i64>,
}

fn cut_off(end: Option<Date>, old_end: Option<Date>, d: i64) -> (r: bool)
    ensures
        r == is_cut_off(end, old_end)(d),
{
    match end {
        None => false,
        Some(u) => {
            let live = match old_end {
                Some(o) => d <= o.days as i64 && u.days != o.days,
                None => true,
            };
            d > u.days as i64 && live
        },
    }
}

/// What a new end cuts off.
pub fn dormant(
    claims: &Vec<Claim>,
    adjs: &Vec<Adjustment>,
    dropped: &Vec<i64>,
    end: Option<Date>,
    old_end: Option<Date>,
) -> (r: Dormant)
    ensures
        r.recorded@ == days_where(claim_days(claims@), is_cut_off(end, old_end)),
        r.adjusted@ == days_where(
            adjusted_days(adjs@),
            is_cut_adjustment(end, old_end, dropped@),
        ),
{
    let days = collect_claim_days(claims);
    let adj = collect_adjusted_days(adjs);
    let mut recorded: Vec<i64> = Vec::new();
    let mut adjusted: Vec<i64> = Vec::new();
    let mut i: usize = 0;
    assert(days@.take(0) =~= Seq::<i64>::empty());
    while i < days.len()
        invariant
            i <= days@.len(),
            recorded@ == days_where(days@.take(i as int), is_cut_off(end, old_end)),
        decreases days@.len() - i,
    {
        assert(days@.take(i + 1).drop_last() =~= days@.take(i as int));
        if cut_off(end, old_end, days[i]) {
            recorded.push(days[i]);
        }
        i = i + 1;
    }
    assert(days@.take(days@.len() as int) =~= days@);
    let mut k: usize = 0;
    assert(adj@.take(0) =~= Seq::<i64>::empty());
    while k < adj.len()
        invariant
            k <= adj@.len(),
            adjusted@ == days_where(
                adj@.take(k as int),
                is_cut_adjustment(end, old_end, dropped@),
            ),
        decreases adj@.len() - k,
    {
        assert(adj@.take(k + 1).drop_last() =~= adj@.take(k as int));
        if cut_off(end, old_end, adj[k]) && !holds(dropped, adj[k]) {
            adjusted.push(adj[k]);
        }
        k = k + 1;
    }
    assert(adj@.take(adj@.len() as int) =~= adj@);
    Dormant { recorded, adjusted }
}

} // verus!
