//! The adjustments under a rule, part by part, and the dates recorded or adjusted that it never
//! produces.

use crate::amends::{find_row, size_views, sizes, wave};
use crate::date::Date;
use crate::lists::{first, lemma_first};
use crate::paths::{holds, put, with_id};
use crate::recur::Recurrence;
use crate::reschedule::{
    adjusted_days, collect_adjusted_days, collect_key_days, contains_day, days_where, has_day,
    key_days, lemma_key_days, slots_ask, Adjustment, Claim,
};
use crate::revise::{answer_view, answers, put_ask, Answer};
use crate::rules::{are_parts, ids_of, in_bounds, part_rows, place_lists, places, Hop};
use crate::standing::{claims_of, pick_claims};
use vstd::prelude::*;

verus! {

broadcast use vstd::string::group_string_axioms;

/// The adjustments of some rows.
pub open spec fn adjustments_of(adjs: Seq<Adjustment>, ids: Seq<i64>) -> Seq<Adjustment>
    decreases adjs.len(),
{
    if adjs.len() == 0 {
        adjs
    } else if ids.contains(adjs.last().series_id) {
        adjustments_of(adjs.drop_last(), ids).push(adjs.last())
    } else {
        adjustments_of(adjs.drop_last(), ids)
    }
}

/// Adjustments that say the same.
pub fn copy_adjustment(a: &Adjustment) -> (r: Adjustment)
    ensures
        r == *a,
{
    let description = match &a.description {
        Some(d) => Some(d.clone()),
        None => None,
    };
    let note = match &a.note {
        Some(d) => Some(d.clone()),
        None => None,
    };
    Adjustment {
        series_id: a.series_id,
        occurrence_on: a.occurrence_on,
        action: a.action.clone(),
        moved_to: a.moved_to,
        amount_minor: a.amount_minor,
        description,
        note,
    }
}

/// The adjustments of some rows.
pub fn pick_adjustments(adjs: &Vec<Adjustment>, ids: &Vec<i64>) -> (r: Vec<Adjustment>)
    ensures
        r@ == adjustments_of(adjs@, ids@),
{
    let mut out: Vec<Adjustment> = Vec::new();
    let mut i: usize = 0;
    assert(adjs@.take(0) =~= Seq::<Adjustment>::empty());
    while i < adjs.len()
        invariant
            i <= adjs@.len(),
            out@ == adjustments_of(adjs@.take(i as int), ids@),
        decreases adjs@.len() - i,
    {
        assert(adjs@.take(i + 1).drop_last() =~= adjs@.take(i as int));
        if holds(ids, adjs[i].series_id) {
            out.push(copy_adjustment(&adjs[i]));
        }
        i = i + 1;
    }
    assert(adjs@.take(adjs@.len() as int) =~= adjs@);
    out
}

/// Whether an adjustment of a day can still change a forecast: it is late enough, and its part has
/// not ended before it.
pub open spec fn is_live(until_on: Option<Date>, lookback: i64) -> spec_fn(i64) -> bool {
    |d: i64| d >= lookback && (until_on matches Some(u) ==> d <= u.days)
}

/// The places of a row's adjustments on a day, among rows.
pub open spec fn places_on(adjs: Seq<Adjustment>, ids: Seq<i64>, d: i64, n: int) -> Seq<int>
    decreases n,
{
    if n <= 0 {
        Seq::empty()
    } else {
        let rest = places_on(adjs, ids, d, n - 1);
        if ids.contains(adjs[n - 1].series_id) && adjs[n - 1].occurrence_on.days == d {
            rest.push(n - 1)
        } else {
            rest
        }
    }
}

/// The first hops of parts, in order.
pub open spec fn firsts(hops: Seq<Hop>, parts: Seq<Seq<int>>) -> Seq<i64>
    decreases parts.len(),
{
    if parts.len() == 0 {
        Seq::empty()
    } else {
        with_id(firsts(hops, parts.drop_last()), hops[parts.last()[0]].id)
    }
}

/// The first hops of parts, in order.
pub fn first_ids(hops: &Vec<Hop>, parts: &Vec<Vec<usize>>) -> (r: Vec<i64>)
    requires
        are_parts(place_lists(parts@), hops@.len() as int),
    ensures
        r@ == firsts(hops@, place_lists(parts@)),
{
    let ghost all = place_lists(parts@);
    let mut out: Vec<i64> = Vec::new();
    let mut i: usize = 0;
    assert(all.take(0) =~= Seq::<Seq<int>>::empty());
    while i < parts.len()
        invariant
            i <= parts@.len(),
            all == place_lists(parts@),
            are_parts(all, hops@.len() as int),
            out@ == firsts(hops@, all.take(i as int)),
        decreases parts@.len() - i,
    {
        assert(all[i as int] == places(parts@[i as int]@));
        assert(all[i as int][0] == parts@[i as int]@[0]);
        assert(all.take(i + 1).drop_last() =~= all.take(i as int));
        assert(all.take(i + 1).last() == all[i as int]);
        put(&mut out, hops[parts[i][0]].id);
        i = i + 1;
    }
    assert(all.take(all.len() as int) =~= all);
    out
}

/// Whether the part at a place starts with a row.
pub open spec fn starts_with_row(hops: Seq<Hop>, parts: Seq<Seq<int>>, id: i64) -> spec_fn(
    int,
) -> bool {
    |k: int| hops[parts[k][0]].id == id
}

/// The place of the part that starts with a row.
pub open spec fn part_starting(hops: Seq<Hop>, parts: Seq<Seq<int>>, id: i64) -> int {
    first(parts.len() as int, starts_with_row(hops, parts, id))
}

fn find_part(hops: &Vec<Hop>, parts: &Vec<Vec<usize>>, id: i64) -> (r: usize)
    requires
        are_parts(place_lists(parts@), hops@.len() as int),
    ensures
        r == part_starting(hops@, place_lists(parts@), id),
        r <= parts@.len(),
{
    let ghost all = place_lists(parts@);
    let mut k: usize = 0;
    while k < parts.len()
        invariant
            k <= parts@.len(),
            all == place_lists(parts@),
            are_parts(all, hops@.len() as int),
            forall|j: int| 0 <= j < k ==> !#[trigger] starts_with_row(hops@, all, id)(j),
        decreases parts@.len() - k,
    {
        assert(all[k as int] == places(parts@[k as int]@));
        assert(all[k as int][0] == parts@[k as int]@[0]);
        if hops[parts[k][0]].id == id {
            proof {
                lemma_first(all.len() as int, starts_with_row(hops@, all, id), k as int);
            }
            return k;
        }
        k = k + 1;
    }
    proof {
        lemma_first(all.len() as int, starts_with_row(hops@, all, id), k as int);
    }
    k
}

/// An adjusted day of a part.
#[derive(Debug, Clone)]
pub struct Marked {
    /// The place of its part.
    pub part: usize,
    pub on: i64,
    /// The places of its adjustments.
    pub rows: Vec<usize>,
    /// The size of each hop's amount.
    pub amounts: Vec<Option<i128>>,
}

/// The days of a part whose adjustments can still change a forecast.
pub open spec fn live_days(hops: Seq<Hop>, part: Seq<int>, adjs: Seq<Adjustment>, lookback: i64) -> Seq<
    i64,
> {
    days_where(
        adjusted_days(adjustments_of(adjs, part_rows(hops, part))),
        is_live(hops[part[0]].until_on, lookback),
    )
}

/// Days, each with the place of its part.
pub open spec fn with_part(k: int, days: Seq<i64>) -> Seq<(int, i64)> {
    days.map_values(|d: i64| (k, d))
}

/// The adjusted days of parts that can still change a forecast, each with the place of its part, by
/// the parts' first rows.
pub open spec fn marked_days(
    hops: Seq<Hop>,
    parts: Seq<Seq<int>>,
    adjs: Seq<Adjustment>,
    lookback: i64,
    ids: Seq<i64>,
) -> Seq<(int, i64)>
    decreases ids.len(),
{
    if ids.len() == 0 {
        Seq::empty()
    } else {
        let k = part_starting(hops, parts, ids.last());
        marked_days(hops, parts, adjs, lookback, ids.drop_last()) + (if k < parts.len() {
            with_part(k, live_days(hops, parts[k], adjs, lookback))
        } else {
            Seq::empty()
        })
    }
}

/// Whether a row is what is marked on a part's day.
pub open spec fn is_marked(m: Marked, key: (int, i64), hops: Seq<Hop>, parts: Seq<Seq<int>>, adjs: Seq<
    Adjustment,
>) -> bool {
    let ids = part_rows(hops, parts[key.0]);
    &&& m.part == key.0
    &&& m.on == key.1
    &&& crate::impact::ints(m.rows@) == places_on(adjs, ids, key.1, adjs.len() as int)
    &&& size_views(m.amounts@) == sizes(adjs, wave(adjs, ids, key.1))
}

/// Whether rows are what is marked on parts' days.
pub open spec fn are_marked(
    v: Seq<Marked>,
    keys: Seq<(int, i64)>,
    hops: Seq<Hop>,
    parts: Seq<Seq<int>>,
    adjs: Seq<Adjustment>,
) -> bool {
    v.len() == keys.len() && forall|i: int|
        0 <= i < v.len() ==> is_marked(#[trigger] v[i], keys[i], hops, parts, adjs)
}

fn rows_on(adjs: &Vec<Adjustment>, ids: &Vec<i64>, d: i64) -> (r: Vec<usize>)
    ensures
        crate::impact::ints(r@) == places_on(adjs@, ids@, d, adjs@.len() as int),
{
    let mut out: Vec<usize> = Vec::new();
    let mut i: usize = 0;
    assert(crate::impact::ints(out@) =~= Seq::<int>::empty());
    while i < adjs.len()
        invariant
            i <= adjs@.len(),
            crate::impact::ints(out@) == places_on(adjs@, ids@, d, i as int),
        decreases adjs@.len() - i,
    {
        if holds(ids, adjs[i].series_id) && adjs[i].occurrence_on.days as i64 == d {
            assert(crate::impact::ints(out@.push(i)) =~= crate::impact::ints(out@).push(i as int));
            out.push(i);
        }
        i = i + 1;
    }
    out
}

fn sizes_on(adjs: &Vec<Adjustment>, ids: &Vec<i64>, d: i64) -> (r: Vec<Option<i128>>)
    ensures
        size_views(r@) == sizes(adjs@, wave(adjs@, ids@, d)),
{
    let ghost w = wave(adjs@, ids@, d);
    let ghost s = sizes(adjs@, w);
    let mut out: Vec<Option<i128>> = Vec::new();
    let mut k: usize = 0;
    assert(size_views(out@) =~= s.take(0));
    while k < ids.len()
        invariant
            k <= ids@.len(),
            w == wave(adjs@, ids@, d),
            s == sizes(adjs@, w),
            size_views(out@) =~= s.take(k as int),
        decreases ids@.len() - k,
    {
        let at: usize = find_row(adjs, ids[k], d);
        assert(w[k as int] == at);
        let mut size: Option<i128> = None;
        if at < adjs.len() {
            if let Some(a) = adjs[at].amount_minor {
                let n: i128 = if a < 0 {
                    -(a as i128)
                } else {
                    a as i128
                };
                size = Some(n);
            }
        }
        let ghost v: Option<int> = match size {
            Some(n) => Some(n as int),
            None => None,
        };
        assert(s[k as int] == v);
        assert(size_views(out@.push(size)) =~= size_views(out@).push(v));
        assert(s.take(k + 1) =~= s.take(k as int).push(s[k as int]));
        out.push(size);
        k = k + 1;
    }
    assert(s.take(s.len() as int) =~= s);
    out
}

fn days_of_part(hops: &Vec<Hop>, part: &Vec<usize>, adjs: &Vec<Adjustment>, lookback: i64) -> (r: Vec<
    i64,
>)
    requires
        part@.len() > 0,
        in_bounds(places(part@), hops@.len() as int),
    ensures
        r@ == live_days(hops@, places(part@), adjs@, lookback),
{
    let ids = ids_of(hops, part);
    let own = pick_adjustments(adjs, &ids);
    let days = collect_adjusted_days(&own);
    assert(places(part@)[0] == part@[0]);
    let until = hops[part[0]].until_on;
    let ghost p = is_live(until, lookback);
    let mut out: Vec<i64> = Vec::new();
    let mut i: usize = 0;
    assert(days@.take(0) =~= Seq::<i64>::empty());
    while i < days.len()
        invariant
            i <= days@.len(),
            p == is_live(until, lookback),
            out@ == days_where(days@.take(i as int), p),
        decreases days@.len() - i,
    {
        assert(days@.take(i + 1).drop_last() =~= days@.take(i as int));
        let open = match until {
            Some(u) => days[i] <= u.days as i64,
            None => true,
        };
        if days[i] >= lookback && open {
            out.push(days[i]);
        }
        i = i + 1;
    }
    assert(days@.take(days@.len() as int) =~= days@);
    out
}

/// The adjustments under a rule that can still change a forecast, by part and day.
pub fn marked(hops: &Vec<Hop>, parts: &Vec<Vec<usize>>, adjs: &Vec<Adjustment>, lookback: Date) -> (r:
    Vec<Marked>)
    requires
        are_parts(place_lists(parts@), hops@.len() as int),
    ensures
        are_marked(
            r@,
            marked_days(
                hops@,
                place_lists(parts@),
                adjs@,
                lookback.days as i64,
                firsts(hops@, place_lists(parts@)),
            ),
            hops@,
            place_lists(parts@),
            adjs@,
        ),
{
    let ghost all = place_lists(parts@);
    let ids = first_ids(hops, parts);
    let back: i64 = lookback.days as i64;
    let mut out: Vec<Marked> = Vec::new();
    let mut i: usize = 0;
    assert(ids@.take(0) =~= Seq::<i64>::empty());
    while i < ids.len()
        invariant
            i <= ids@.len(),
            all == place_lists(parts@),
            are_parts(all, hops@.len() as int),
            are_marked(
                out@,
                marked_days(hops@, all, adjs@, back, ids@.take(i as int)),
                hops@,
                all,
                adjs@,
            ),
        decreases ids@.len() - i,
    {
        assert(ids@.take(i + 1).drop_last() =~= ids@.take(i as int));
        let ghost so_far = marked_days(hops@, all, adjs@, back, ids@.take(i as int));
        let k: usize = find_part(hops, parts, ids[i]);
        if k < parts.len() {
            assert(all[k as int] == places(parts@[k as int]@));
            let days = days_of_part(hops, &parts[k], adjs, back);
            let own = ids_of(hops, &parts[k]);
            let ghost keys = with_part(k as int, days@);
            let mut n: usize = 0;
            assert(so_far + keys.take(0) =~= so_far);
            while n < days.len()
                invariant
                    n <= days@.len(),
                    k < parts@.len(),
                    all == place_lists(parts@),
                    own@ == part_rows(hops@, all[k as int]),
                    keys == with_part(k as int, days@),
                    are_marked(out@, so_far + keys.take(n as int), hops@, all, adjs@),
                decreases days@.len() - n,
            {
                let m = Marked {
                    part: k,
                    on: days[n],
                    rows: rows_on(adjs, &own, days[n]),
                    amounts: sizes_on(adjs, &own, days[n]),
                };
                assert(keys.take(n + 1) =~= keys.take(n as int).push(keys[n as int]));
                assert(keys[n as int] == (k as int, days@[n as int]));
                assert(is_marked(m, keys[n as int], hops@, all, adjs@));
                out.push(m);
                n = n + 1;
            }
            assert(keys.take(keys.len() as int) =~= keys);
        } else {
            assert(so_far + Seq::<(int, i64)>::empty() =~= so_far);
        }
        i = i + 1;
    }
    assert(ids@.take(ids@.len() as int) =~= ids@);
    out
}

/// A date recorded or adjusted that the rule never produces.
#[derive(Debug, Clone, Copy, PartialEq, Eq, Structural)]
pub struct Stray {
    pub series_id: i64,
    pub on: i64,
    /// Whether it is recorded, rather than adjusted.
    pub recorded: bool,
}

/// Whether a day is among strays of a kind.
pub open spec fn is_stray_on(s: Seq<Stray>, d: i64, recorded: bool) -> bool {
    exists|i: int| 0 <= i < s.len() && (#[trigger] s[i]).on == d && s[i].recorded == recorded
}

/// A stray added to strays, unless its day is among them or the rule produces it.
pub open spec fn with_stray(s: Seq<Stray>, x: Stray, have: Seq<Date>) -> Seq<Stray> {
    if has_day(have, x.on) || is_stray_on(s, x.on, x.recorded) {
        s
    } else {
        s.push(x)
    }
}

/// The recorded payments of a part on days that the rule never produces, the first of each day.
pub open spec fn stray_claims(claims: Seq<Claim>, have: Seq<Date>) -> Seq<Stray>
    decreases claims.len(),
{
    if claims.len() == 0 {
        Seq::empty()
    } else {
        let c = claims.last();
        with_stray(
            stray_claims(claims.drop_last(), have),
            Stray { series_id: c.series_id, on: c.occurrence_on.days as i64, recorded: true },
            have,
        )
    }
}

/// The same with the adjustments of the part behind.
pub open spec fn strays(claims: Seq<Claim>, adjs: Seq<Adjustment>, have: Seq<Date>) -> Seq<Stray>
    decreases adjs.len(),
{
    if adjs.len() == 0 {
        stray_claims(claims, have)
    } else {
        let a = adjs.last();
        with_stray(
            strays(claims, adjs.drop_last(), have),
            Stray { series_id: a.series_id, on: a.occurrence_on.days as i64, recorded: false },
            have,
        )
    }
}

/// The strays of a part, by what its rule produces; none where it does not expand.
pub open spec fn part_strays(
    hops: Seq<Hop>,
    part: Seq<int>,
    claims: Seq<Claim>,
    adjs: Seq<Adjustment>,
    a: Answer,
) -> Seq<Stray> {
    let ids = part_rows(hops, part);
    match a {
        Ok(have) => strays(claims_of(claims, ids), adjustments_of(adjs, ids), have),
        Err(_) => Seq::empty(),
    }
}

/// The strays of the first parts of a rule.
pub open spec fn strays_upto(
    hops: Seq<Hop>,
    parts: Seq<Seq<int>>,
    claims: Seq<Claim>,
    adjs: Seq<Adjustment>,
    ans: Seq<Answer>,
    n: int,
) -> Seq<Stray>
    decreases n,
{
    if n <= 0 {
        Seq::empty()
    } else {
        strays_upto(hops, parts, claims, adjs, ans, n - 1) + part_strays(
            hops,
            parts[n - 1],
            claims,
            adjs,
            ans[n - 1],
        )
    }
}

/// Whether an answer is what a part's rule produces between the days recorded and adjusted under it;
/// of a part with no such days nothing is asked, and nothing is stray.
pub open spec fn answers_part<R: Recurrence>(
    recur: R,
    hops: Seq<Hop>,
    part: Seq<int>,
    claims: Seq<Claim>,
    adjs: Seq<Adjustment>,
    a: Answer,
) -> bool {
    let ids = part_rows(hops, part);
    let days = key_days(claims_of(claims, ids), adjustments_of(adjs, ids));
    let h = hops[part[0]];
    days.len() > 0 ==> answers(recur, slots_ask(h.rrule@, h.dtstart, days[0], days.last()), a)
}

/// Whether answers are those for the parts of a rule.
pub open spec fn answers_parts<R: Recurrence>(
    recur: R,
    hops: Seq<Hop>,
    parts: Seq<Seq<int>>,
    claims: Seq<Claim>,
    adjs: Seq<Adjustment>,
    ans: Seq<Answer>,
) -> bool {
    ans.len() == parts.len() && forall|i: int|
        0 <= i < parts.len() ==> answers_part(recur, hops, #[trigger] parts[i], claims, adjs, ans[i])
}

/// Whether these are the strays of a rule, by what an expander answers.
pub open spec fn are_strays<R: Recurrence>(
    v: Seq<Stray>,
    recur: R,
    hops: Seq<Hop>,
    parts: Seq<Seq<int>>,
    claims: Seq<Claim>,
    adjs: Seq<Adjustment>,
) -> bool {
    exists|ans: Seq<Answer>|
        #![trigger answers_parts(recur, hops, parts, claims, adjs, ans)]
        answers_parts(recur, hops, parts, claims, adjs, ans) && v == strays_upto(
            hops,
            parts,
            claims,
            adjs,
            ans,
            parts.len() as int,
        )
}

fn push_stray(v: &mut Vec<Stray>, x: Stray, have: &Vec<Date>)
    ensures
        final(v)@ == with_stray(old(v)@, x, have@),
{
    if contains_day(have, x.on) {
        return;
    }
    let mut i: usize = 0;
    while i < v.len()
        invariant
            i <= v@.len(),
            v@ == old(v)@,
            !has_day(have@, x.on),
            forall|j: int|
                0 <= j < i ==> !((#[trigger] v@[j]).on == x.on && v@[j].recorded == x.recorded),
        decreases v@.len() - i,
    {
        if v[i].on == x.on && v[i].recorded == x.recorded {
            assert(is_stray_on(v@, x.on, x.recorded));
            return;
        }
        i = i + 1;
    }
    v.push(x);
}

fn collect_strays(claims: &Vec<Claim>, adjs: &Vec<Adjustment>, have: &Vec<Date>) -> (r: Vec<Stray>)
    ensures
        r@ == strays(claims@, adjs@, have@),
{
    let mut out: Vec<Stray> = Vec::new();
    let mut i: usize = 0;
    assert(claims@.take(0) =~= Seq::<Claim>::empty());
    while i < claims.len()
        invariant
            i <= claims@.len(),
            out@ == stray_claims(claims@.take(i as int), have@),
        decreases claims@.len() - i,
    {
        let c = claims[i];
        assert(claims@.take(i + 1).drop_last() =~= claims@.take(i as int));
        push_stray(
            &mut out,
            Stray { series_id: c.series_id, on: c.occurrence_on.days as i64, recorded: true },
            have,
        );
        i = i + 1;
    }
    assert(claims@.take(claims@.len() as int) =~= claims@);
    let mut k: usize = 0;
    assert(adjs@.take(0) =~= Seq::<Adjustment>::empty());
    while k < adjs.len()
        invariant
            k <= adjs@.len(),
            out@ == strays(claims@, adjs@.take(k as int), have@),
        decreases adjs@.len() - k,
    {
        assert(adjs@.take(k + 1).drop_last() =~= adjs@.take(k as int));
        push_stray(
            &mut out,
            Stray {
                series_id: adjs[k].series_id,
                on: adjs[k].occurrence_on.days as i64,
                recorded: false,
            },
            have,
        );
        k = k + 1;
    }
    assert(adjs@.take(adjs@.len() as int) =~= adjs@);
    out
}

proof fn lemma_no_keys(claims: Seq<Claim>, adjs: Seq<Adjustment>, have: Seq<Date>)
    requires
        key_days(claims, adjs).len() == 0,
    ensures
        strays(claims, adjs, have).len() == 0,
{
    if adjs.len() > 0 {
        crate::paths::lemma_with_id(
            key_days(claims, adjs.drop_last()),
            adjs.last().occurrence_on.days as i64,
        );
        assert(key_days(claims, adjs).contains(adjs.last().occurrence_on.days as i64));
    } else if claims.len() > 0 {
        crate::paths::lemma_with_id(
            crate::reschedule::claim_days(claims.drop_last()),
            claims.last().occurrence_on.days as i64,
        );
        assert(crate::reschedule::claim_days(claims).contains(
            claims.last().occurrence_on.days as i64,
        ));
    }
}

/// The dates recorded or adjusted under a rule that it never produces, part by part.
pub fn find_strays<R: Recurrence>(
    recur: &R,
    hops: &Vec<Hop>,
    parts: &Vec<Vec<usize>>,
    claims: &Vec<Claim>,
    adjs: &Vec<Adjustment>,
) -> (r: Vec<Stray>)
    requires
        are_parts(place_lists(parts@), hops@.len() as int),
    ensures
        are_strays(r@, *recur, hops@, place_lists(parts@), claims@, adjs@),
{
    let ghost all = place_lists(parts@);
    let ghost mut ans: Seq<Answer> = Seq::empty();
    let mut out: Vec<Stray> = Vec::new();
    let mut i: usize = 0;
    while i < parts.len()
        invariant
            i <= parts@.len(),
            all == place_lists(parts@),
            are_parts(all, hops@.len() as int),
            ans.len() == i,
            forall|j: int|
                0 <= j < i ==> answers_part(
                    *recur,
                    hops@,
                    #[trigger] all[j],
                    claims@,
                    adjs@,
                    ans[j],
                ),
            out@ == strays_upto(hops@, all, claims@, adjs@, ans, i as int),
        decreases parts@.len() - i,
    {
        assert(all[i as int] == places(parts@[i as int]@));
        assert(all[i as int][0] == parts@[i as int]@[0]);
        let ids = ids_of(hops, &parts[i]);
        let own_claims = pick_claims(claims, &ids);
        let own_adjs = pick_adjustments(adjs, &ids);
        let days = collect_key_days(&own_claims, &own_adjs);
        let n: usize = days.len();
        let ghost before = ans;
        let mut found: Vec<Stray> = Vec::new();
        if n > 0 {
            proof {
                lemma_key_days(own_claims@, own_adjs@);
                assert(i32::MIN <= days@[0] <= i32::MAX);
                assert(i32::MIN <= days@[n - 1] <= i32::MAX);
            }
            let h = &hops[parts[i][0]];
            let lo = Date { days: days[0] as i32 };
            let hi = Date { days: days[n - 1] as i32 };
            let a = put_ask(recur, h.rrule.as_str(), h.dtstart, None, lo, hi);
            proof {
                ans = ans.push(answer_view(a));
            }
            if let Ok(have) = &a {
                found = collect_strays(&own_claims, &own_adjs, have);
            }
        } else {
            proof {
                let none: Answer = Ok(Seq::empty());
                lemma_no_keys(own_claims@, own_adjs@, Seq::empty());
                ans = ans.push(none);
            }
        }
        assert(found@ =~= part_strays(hops@, all[i as int], claims@, adjs@, ans[i as int]));
        proof {
            lemma_strays_prefix(hops@, all, claims@, adjs@, before, ans, i as int);
            assert(answers_part(*recur, hops@, all[i as int], claims@, adjs@, ans[i as int]));
            assert forall|j: int| 0 <= j < i + 1 implies answers_part(
                *recur,
                hops@,
                #[trigger] all[j],
                claims@,
                adjs@,
                ans[j],
            ) by {
                if j < i {
                    assert(ans[j] == before[j]);
                }
            }
        }
        out.append(&mut found);
        i = i + 1;
    }
    assert(answers_parts(*recur, hops@, all, claims@, adjs@, ans));
    out
}

proof fn lemma_strays_prefix(
    hops: Seq<Hop>,
    parts: Seq<Seq<int>>,
    claims: Seq<Claim>,
    adjs: Seq<Adjustment>,
    a: Seq<Answer>,
    b: Seq<Answer>,
    n: int,
)
    requires
        n <= a.len(),
        n <= b.len(),
        forall|j: int| 0 <= j < n ==> a[j] == b[j],
    ensures
        strays_upto(hops, parts, claims, adjs, a, n) == strays_upto(
            hops,
            parts,
            claims,
            adjs,
            b,
            n,
        ),
    decreases n,
{
    if n > 0 {
        lemma_strays_prefix(hops, parts, claims, adjs, a, b, n - 1);
    }
}

/// Whether a day lies after a part's end.
pub open spec fn is_past(until_on: Option<Date>) -> spec_fn(i64) -> bool {
    |d: i64| until_on matches Some(u) && d > u.days
}

/// What stands with a part: how many payments are recorded for its first hop, and the adjusted days
/// left behind its end.
#[derive(Debug, Clone)]
pub struct PartMark {
    pub recorded: usize,
    pub left_behind: Vec<i64>,
}

/// Whether this is what stands with a part.
pub open spec fn is_part_mark(
    m: PartMark,
    hops: Seq<Hop>,
    part: Seq<int>,
    claims: Seq<Claim>,
    adjs: Seq<Adjustment>,
) -> bool {
    let h = hops[part[0]];
    &&& m.recorded == claims_of(claims, seq![h.id]).len()
    &&& m.left_behind@ == days_where(
        adjusted_days(adjustments_of(adjs, part_rows(hops, part))),
        is_past(h.until_on),
    )
}

/// What stands with a part.
pub fn part_mark(hops: &Vec<Hop>, part: &Vec<usize>, claims: &Vec<Claim>, adjs: &Vec<Adjustment>) -> (r:
    PartMark)
    requires
        part@.len() > 0,
        in_bounds(places(part@), hops@.len() as int),
    ensures
        is_part_mark(r, hops@, places(part@), claims@, adjs@),
{
    assert(places(part@)[0] == part@[0]);
    let h = &hops[part[0]];
    let mut one: Vec<i64> = Vec::new();
    one.push(h.id);
    assert(one@ =~= seq![h.id]);
    let own_claims = pick_claims(claims, &one);
    let ids = ids_of(hops, part);
    let own = pick_adjustments(adjs, &ids);
    let days = collect_adjusted_days(&own);
    let until = h.until_on;
    let ghost p = is_past(until);
    let mut left: Vec<i64> = Vec::new();
    let mut i: usize = 0;
    assert(days@.take(0) =~= Seq::<i64>::empty());
    while i < days.len()
        invariant
            i <= days@.len(),
            p == is_past(until),
            left@ == days_where(days@.take(i as int), p),
        decreases days@.len() - i,
    {
        assert(days@.take(i + 1).drop_last() =~= days@.take(i as int));
        let past = match until {
            Some(u) => days[i] > u.days as i64,
            None => false,
        };
        if past {
            left.push(days[i]);
        }
        i = i + 1;
    }
    assert(days@.take(days@.len() as int) =~= days@);
    PartMark { recorded: own_claims.len(), left_behind: left }
}

/// An adjusted day of a part is either still in the forecast's reach or not, and one left behind the
/// part's end never is.
pub proof fn law_what_is_left_behind_is_out_of_the_forecast(
    until_on: Option<Date>,
    lookback: i64,
    d: i64,
)
    requires
        is_past(until_on)(d),
    ensures
        !is_live(until_on, lookback)(d),
{
}

} // verus!
