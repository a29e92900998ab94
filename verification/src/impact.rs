//! What an edit changes in the forecast: what appears, disappears and changes, and what would fall
//! due at once.
//!
//! A payment is known by its hop's place in the chain and its slot, not by the row it is stored in,
//! so that the same payment before and after a change from a date is one whose amount changed rather
//! than one that vanished and one that appeared.

use crate::commitments::is_primary;
use crate::date::{iso, read_day, Date};
use crate::forecast::{Occurrence, ProjectError, Projection, Series, Snapshot};
use crate::lists::{first, lemma_first};
use crate::money::Minor;
use crate::recur::Recurrence;
use crate::reschedule::{Claim, Due};
use crate::sub::{is_sub, project_rule, projects_rule};
use crate::text::{
    lemma_text_irreflexive, lemma_text_total, lemma_text_transitive, str_eq, text_less, text_lt,
};
use vstd::prelude::*;

verus! {

broadcast use vstd::string::group_string_axioms;

/// One hop's money on one slot, as a forecast has it.
#[derive(Debug, Clone)]
pub struct Point {
    pub series_id: i64,
    pub seq: i64,
    pub occurrence_on: String,
    pub value_on: String,
    pub amount_minor: Minor,
}

/// The content of a point.
pub struct PointOn {
    pub series_id: i64,
    pub seq: i64,
    pub occurrence_on: Seq<char>,
    pub value_on: Seq<char>,
    pub amount: i64,
}

impl View for Point {
    type V = PointOn;

    open spec fn view(&self) -> PointOn {
        PointOn {
            series_id: self.series_id,
            seq: self.seq,
            occurrence_on: self.occurrence_on@,
            value_on: self.value_on@,
            amount: self.amount_minor,
        }
    }
}

/// The contents of points.
pub open spec fn point_ons(v: Seq<Point>) -> Seq<PointOn> {
    v.map_values(|p: Point| p@)
}

/// The account a hop is seen from and its place in the chain: by its primary leg, or its first where
/// none is marked so.
pub open spec fn seat_of(s: Series) -> Option<(i64, i64)> {
    let i = first(s.postings@.len() as int, is_primary(s.postings@));
    let at = if i < s.postings@.len() {
        i
    } else {
        0
    };
    if s.postings@.len() == 0 {
        None
    } else {
        Some(
            (
                s.postings@[at].account_id,
                match s.chain_seq {
                    Some(q) => q,
                    None => 0,
                },
            ),
        )
    }
}

/// The account and place of the hop with an id.
pub open spec fn seat(series: Seq<Series>, id: i64) -> Option<(i64, i64)>
    decreases series.len(),
{
    if series.len() == 0 {
        None
    } else if series.last().id == id && seat_of(series.last()) is Some {
        seat_of(series.last())
    } else {
        seat(series.drop_last(), id)
    }
}

/// The point that an occurrence is, `None` where it is on another leg.
pub open spec fn point_of(series: Seq<Series>, o: Occurrence) -> Option<PointOn> {
    match seat(series, o.series_id) {
        Some((account, seq)) => if o.account_id == account {
            Some(
                PointOn {
                    series_id: o.series_id,
                    seq,
                    occurrence_on: o.occurrence_on@,
                    value_on: o.value_on@,
                    amount: o.amount_minor,
                },
            )
        } else {
            None
        },
        None => None,
    }
}

/// Whether one point stands before another: by its hop, then by its slot.
pub open spec fn stands_before(a: PointOn, b: PointOn) -> bool {
    a.seq < b.seq || (a.seq == b.seq && text_lt(a.occurrence_on, b.occurrence_on))
}

/// Whether two points are of the same hop and slot.
pub open spec fn same_slot(a: PointOn, b: PointOn) -> bool {
    a.seq == b.seq && a.occurrence_on == b.occurrence_on
}

/// A point in its place; of two for the same slot the first stays.
pub open spec fn with_point(s: Seq<PointOn>, p: PointOn) -> Seq<PointOn>
    decreases s.len(),
{
    if s.len() == 0 || stands_before(s.last(), p) {
        s.push(p)
    } else if same_slot(s.last(), p) {
        s
    } else {
        with_point(s.drop_last(), p).push(s.last())
    }
}

/// The points of a forecast, in order, one per hop and slot.
pub open spec fn points_of(series: Seq<Series>, occs: Seq<Occurrence>) -> Seq<PointOn>
    decreases occs.len(),
{
    if occs.len() == 0 {
        Seq::empty()
    } else {
        let rest = points_of(series, occs.drop_last());
        match point_of(series, occs.last()) {
            Some(p) => with_point(rest, p),
            None => rest,
        }
    }
}

fn hop_seat(s: &Series) -> (r: Option<(i64, i64)>)
    ensures
        r == seat_of(*s),
{
    let n: usize = s.postings.len();
    if n == 0 {
        return None;
    }
    let seq: i64 = match s.chain_seq {
        Some(q) => q,
        None => 0,
    };
    let mut i: usize = 0;
    while i < n
        invariant
            i <= n,
            n == s.postings@.len(),
            n > 0,
            seq == (match s.chain_seq {
                Some(q) => q,
                None => 0,
            }),
            forall|j: int| 0 <= j < i ==> !#[trigger] is_primary(s.postings@)(j),
        decreases n - i,
    {
        if str_eq(s.postings[i].role.as_str(), "primary") {
            proof {
                lemma_first(n as int, is_primary(s.postings@), i as int);
            }
            return Some((s.postings[i].account_id, seq));
        }
        i = i + 1;
    }
    proof {
        lemma_first(n as int, is_primary(s.postings@), i as int);
    }
    Some((s.postings[0].account_id, seq))
}

fn find_seat(series: &Vec<Series>, id: i64) -> (r: Option<(i64, i64)>)
    ensures
        r == seat(series@, id),
{
    let mut n: usize = series.len();
    assert(series@.take(n as int) =~= series@);
    while n > 0
        invariant
            n <= series@.len(),
            seat(series@, id) == seat(series@.take(n as int), id),
        decreases n,
    {
        assert(series@.take(n as int).drop_last() =~= series@.take(n - 1));
        assert(series@.take(n as int).last() == series@[n - 1]);
        if series[n - 1].id == id {
            let s = hop_seat(&series[n - 1]);
            if s.is_some() {
                return s;
            }
        }
        n = n - 1;
    }
    None
}

proof fn lemma_with_point_at(s: Seq<PointOn>, p: PointOn, k: int)
    requires
        0 <= k <= s.len(),
        forall|j: int|
            k <= j < s.len() ==> !stands_before(#[trigger] s[j], p) && !same_slot(s[j], p),
        k > 0 ==> stands_before(s[k - 1], p) || same_slot(s[k - 1], p),
    ensures
        with_point(s, p) == (if k > 0 && !stands_before(s[k - 1], p) {
            s
        } else {
            s.insert(k, p)
        }),
    decreases s.len(),
{
    if k < s.len() {
        let rest = s.drop_last();
        assert(!stands_before(s[s.len() - 1], p));
        lemma_with_point_at(rest, p, k);
        if k > 0 && !stands_before(s[k - 1], p) {
            assert(rest.push(s.last()) =~= s);
        } else {
            assert(rest.insert(k, p).push(s.last()) =~= s.insert(k, p));
        }
    } else if k == 0 || stands_before(s[k - 1], p) {
        assert(s.insert(k, p) =~= s.push(p));
    }
}

fn comes_first(a: &Point, b: &Point) -> (r: bool)
    ensures
        r == stands_before(a@, b@),
{
    a.seq < b.seq || (a.seq == b.seq && text_less(
        a.occurrence_on.as_str(),
        b.occurrence_on.as_str(),
    ))
}

fn is_same(a: &Point, b: &Point) -> (r: bool)
    ensures
        r == same_slot(a@, b@),
{
    a.seq == b.seq && str_eq(a.occurrence_on.as_str(), b.occurrence_on.as_str())
}

fn put_point(v: &mut Vec<Point>, p: Point)
    ensures
        point_ons(final(v)@) == with_point(point_ons(old(v)@), p@),
{
    let ghost before = point_ons(v@);
    let mut k: usize = v.len();
    while k > 0 && !comes_first(&v[k - 1], &p) && !is_same(&v[k - 1], &p)
        invariant
            k <= v@.len(),
            v@ == old(v)@,
            before == point_ons(v@),
            forall|j: int|
                k <= j < v@.len() ==> !stands_before(#[trigger] before[j], p@) && !same_slot(
                    before[j],
                    p@,
                ),
        decreases k,
    {
        k = k - 1;
    }
    proof {
        lemma_with_point_at(before, p@, k as int);
    }
    if k > 0 && !comes_first(&v[k - 1], &p) {
        return;
    }
    let ghost own = p@;
    v.insert(k, p);
    assert(point_ons(v@) =~= before.insert(k as int, own));
}

/// The points of a forecast, in order, one per hop and slot.
pub fn points(series: &Vec<Series>, occs: &Vec<Occurrence>) -> (r: Vec<Point>)
    ensures
        point_ons(r@) == points_of(series@, occs@),
{
    let mut out: Vec<Point> = Vec::new();
    let mut i: usize = 0;
    assert(occs@.take(0) =~= Seq::<Occurrence>::empty());
    assert(point_ons(out@) =~= Seq::<PointOn>::empty());
    while i < occs.len()
        invariant
            i <= occs@.len(),
            point_ons(out@) == points_of(series@, occs@.take(i as int)),
        decreases occs@.len() - i,
    {
        let o = &occs[i];
        assert(occs@.take(i + 1).drop_last() =~= occs@.take(i as int));
        assert(occs@.take(i + 1).last() == *o);
        if let Some((account, seq)) = find_seat(series, o.series_id) {
            if o.account_id == account {
                put_point(
                    &mut out,
                    Point {
                        series_id: o.series_id,
                        seq,
                        occurrence_on: o.occurrence_on.clone(),
                        value_on: o.value_on.clone(),
                        amount_minor: o.amount_minor,
                    },
                );
            }
        }
        i = i + 1;
    }
    assert(occs@.take(occs@.len() as int) =~= occs@);
    out
}

/// Whether the point at a place is for the same slot as another.
pub open spec fn fills(s: Seq<PointOn>, p: PointOn) -> spec_fn(int) -> bool {
    |i: int| same_slot(s[i], p)
}

/// The place of the point for the same slot, past the end where there is none.
pub open spec fn slot_place(s: Seq<PointOn>, p: PointOn) -> int {
    first(s.len() as int, fills(s, p))
}

/// The places of the points that the other list has not.
pub open spec fn missing_from(s: Seq<PointOn>, other: Seq<PointOn>, n: int) -> Seq<int>
    decreases n,
{
    if n <= 0 {
        Seq::empty()
    } else {
        let rest = missing_from(s, other, n - 1);
        if slot_place(other, s[n - 1]) < other.len() {
            rest
        } else {
            rest.push(n - 1)
        }
    }
}

/// The places of the points whose day or amount differs from those they had, each with the place it
/// had.
pub open spec fn changed_from(s: Seq<PointOn>, other: Seq<PointOn>, n: int) -> Seq<(int, int)>
    decreases n,
{
    if n <= 0 {
        Seq::empty()
    } else {
        let rest = changed_from(s, other, n - 1);
        let k = slot_place(other, s[n - 1]);
        if k < other.len() && (s[n - 1].value_on != other[k].value_on || s[n - 1].amount
            != other[k].amount) {
            rest.push((k, n - 1))
        } else {
            rest
        }
    }
}

/// Whether a point is dated on a day or earlier.
pub open spec fn is_due(p: PointOn, as_of: Seq<char>) -> bool {
    !text_lt(as_of, p.occurrence_on) || !text_lt(as_of, p.value_on)
}

/// Whether one of the points at some places is on a slot.
pub open spec fn on_slot(s: Seq<PointOn>, at: Seq<int>, on: Seq<char>) -> bool {
    exists|i: int| 0 <= i < at.len() && s[#[trigger] at[i]].occurrence_on == on
}

/// Of the points at some places, those that are due, the first of each slot.
pub open spec fn due_among(s: Seq<PointOn>, at: Seq<int>, as_of: Seq<char>) -> Seq<int>
    decreases at.len(),
{
    if at.len() == 0 {
        at
    } else {
        let rest = due_among(s, at.drop_last(), as_of);
        let p = s[at.last()];
        if is_due(p, as_of) && !on_slot(s, rest, p.occurrence_on) {
            rest.push(at.last())
        } else {
            rest
        }
    }
}

/// What an edit changes in the forecast, by places in the points before and after.
#[derive(Debug, Clone)]
pub struct Impact {
    pub before: Vec<Point>,
    pub after: Vec<Point>,
    /// Places in `after`.
    pub appears: Vec<usize>,
    /// Places in `before`.
    pub disappears: Vec<usize>,
    /// Places in `before` and `after`.
    pub changes: Vec<(usize, usize)>,
    /// Places in `after`: what was not in the forecast and now is, dated on the day or earlier. Of a
    /// what-if none: it never moves money, so nothing of it can be owed.
    pub due: Vec<usize>,
}

/// Places as integers.
pub open spec fn ints(v: Seq<usize>) -> Seq<int> {
    v.map_values(|i: usize| i as int)
}

/// Pairs of places as integers.
pub open spec fn int_pairs(v: Seq<(usize, usize)>) -> Seq<(int, int)> {
    v.map_values(|p: (usize, usize)| (p.0 as int, p.1 as int))
}

/// Whether an impact is the difference between two lists of points.
pub open spec fn is_impact(x: Impact, bp: Seq<PointOn>, ap: Seq<PointOn>, baseline: bool, as_of: Date) -> bool {
    &&& point_ons(x.before@) == bp
    &&& point_ons(x.after@) == ap
    &&& ints(x.appears@) == missing_from(ap, bp, ap.len() as int)
    &&& ints(x.disappears@) == missing_from(bp, ap, bp.len() as int)
    &&& int_pairs(x.changes@) == changed_from(ap, bp, ap.len() as int)
    &&& ints(x.due@) == (if baseline {
        due_among(ap, missing_from(ap, bp, ap.len() as int), iso(as_of.days as int))
    } else {
        Seq::empty()
    })
}

fn find_slot(v: &Vec<Point>, p: &Point) -> (r: usize)
    ensures
        r == slot_place(point_ons(v@), p@),
        r <= v@.len(),
{
    let ghost all = point_ons(v@);
    let mut i: usize = 0;
    while i < v.len()
        invariant
            i <= v@.len(),
            all == point_ons(v@),
            forall|j: int| 0 <= j < i ==> !#[trigger] fills(all, p@)(j),
        decreases v@.len() - i,
    {
        if is_same(&v[i], p) {
            proof {
                lemma_first(all.len() as int, fills(all, p@), i as int);
            }
            return i;
        }
        i = i + 1;
    }
    proof {
        lemma_first(all.len() as int, fills(all, p@), i as int);
    }
    i
}

fn missing(v: &Vec<Point>, other: &Vec<Point>) -> (r: Vec<usize>)
    ensures
        ints(r@) == missing_from(point_ons(v@), point_ons(other@), v@.len() as int),
        forall|i: int| 0 <= i < r@.len() ==> #[trigger] r@[i] < v@.len(),
{
    let ghost s = point_ons(v@);
    let ghost o = point_ons(other@);
    let mut out: Vec<usize> = Vec::new();
    let mut i: usize = 0;
    assert(ints(out@) =~= Seq::<int>::empty());
    while i < v.len()
        invariant
            i <= v@.len(),
            s == point_ons(v@),
            o == point_ons(other@),
            ints(out@) == missing_from(s, o, i as int),
            forall|j: int| 0 <= j < out@.len() ==> #[trigger] out@[j] < v@.len(),
        decreases v@.len() - i,
    {
        let k: usize = find_slot(other, &v[i]);
        assert(s[i as int] == v@[i as int]@);
        if k == other.len() {
            assert(ints(out@.push(i)) =~= ints(out@).push(i as int));
            out.push(i);
        }
        i = i + 1;
    }
    out
}

/// What differs between two lists of points.
pub fn compare(before: Vec<Point>, after: Vec<Point>, baseline: bool, as_of: Date) -> (r: Impact)
    ensures
        is_impact(r, point_ons(before@), point_ons(after@), baseline, as_of),
        forall|i: int| 0 <= i < r.due@.len() ==> #[trigger] r.due@[i] < r.after@.len(),
{
    let ghost bp = point_ons(before@);
    let ghost ap = point_ons(after@);
    let appears = missing(&after, &before);
    let disappears = missing(&before, &after);
    let mut changes: Vec<(usize, usize)> = Vec::new();
    let mut i: usize = 0;
    assert(int_pairs(changes@) =~= Seq::<(int, int)>::empty());
    while i < after.len()
        invariant
            i <= after@.len(),
            bp == point_ons(before@),
            ap == point_ons(after@),
            int_pairs(changes@) == changed_from(ap, bp, i as int),
        decreases after@.len() - i,
    {
        let k: usize = find_slot(&before, &after[i]);
        assert(ap[i as int] == after@[i as int]@);
        if k < before.len() {
            assert(bp[k as int] == before@[k as int]@);
            if !str_eq(after[i].value_on.as_str(), before[k].value_on.as_str())
                || after[i].amount_minor != before[k].amount_minor {
                assert(int_pairs(changes@.push((k, i))) =~= int_pairs(changes@).push(
                    (k as int, i as int),
                ));
                changes.push((k, i));
            }
        }
        i = i + 1;
    }
    let mut due: Vec<usize> = Vec::new();
    let ghost at = ints(appears@);
    assert(ints(due@) =~= Seq::<int>::empty());
    if baseline {
        let day = as_of.to_text();
        let mut n: usize = 0;
        assert(at.take(0) =~= Seq::<int>::empty());
        while n < appears.len()
            invariant
                n <= appears@.len(),
                at == ints(appears@),
                ap == point_ons(after@),
                day@ == iso(as_of.days as int),
                forall|j: int| 0 <= j < appears@.len() ==> #[trigger] appears@[j] < after@.len(),
                forall|j: int| 0 <= j < due@.len() ==> #[trigger] due@[j] < after@.len(),
                ints(due@) == due_among(ap, at.take(n as int), day@),
            decreases appears@.len() - n,
        {
            let k: usize = appears[n];
            assert(at.take(n + 1).drop_last() =~= at.take(n as int));
            assert(at.take(n + 1).last() == k);
            assert(ap[k as int] == after@[k as int]@);
            let on = after[k].occurrence_on.as_str();
            let late = !text_less(day.as_str(), on) || !text_less(
                day.as_str(),
                after[k].value_on.as_str(),
            );
            let ghost have = ints(due@);
            let mut seen = false;
            let mut j: usize = 0;
            while j < due.len()
                invariant
                    j <= due@.len(),
                    have == ints(due@),
                    ap == point_ons(after@),
                    forall|i: int| 0 <= i < due@.len() ==> #[trigger] due@[i] < after@.len(),
                    seen == exists|i: int|
                        0 <= i < j && ap[#[trigger] have[i]].occurrence_on == on@,
                decreases due@.len() - j,
            {
                assert(have[j as int] == due@[j as int]);
                assert(ap[have[j as int]] == after@[due@[j as int] as int]@);
                if str_eq(after[due[j]].occurrence_on.as_str(), on) {
                    seen = true;
                }
                j = j + 1;
            }
            assert(seen == on_slot(ap, have, on@));
            if late && !seen {
                assert(ints(due@.push(k)) =~= ints(due@).push(k as int));
                due.push(k);
            }
            n = n + 1;
        }
        assert(at.take(at.len() as int) =~= at);
    }
    Impact { before, after, appears, disappears, changes, due }
}

/// What is said of the points of an impact that would fall due at once.
pub open spec fn are_dues(d: Seq<Due>, x: Impact) -> bool {
    d.len() == x.due@.len() && forall|i: int|
        0 <= i < d.len() ==> {
            let p = x.after@[x.due@[i] as int];
            &&& (#[trigger] d[i]).occurrence_on@ == p.occurrence_on@
            &&& d[i].value_on@ == p.value_on@
            &&& d[i].amount_minor == p.amount_minor
            &&& d[i].series_id == p.series_id
        }
}

/// What would fall due at once.
pub fn dues(x: &Impact) -> (r: Vec<Due>)
    requires
        forall|i: int| 0 <= i < x.due@.len() ==> #[trigger] x.due@[i] < x.after@.len(),
    ensures
        are_dues(r@, *x),
{
    let mut out: Vec<Due> = Vec::new();
    let mut i: usize = 0;
    while i < x.due.len()
        invariant
            i <= x.due@.len(),
            forall|i: int| 0 <= i < x.due@.len() ==> #[trigger] x.due@[i] < x.after@.len(),
            out@.len() == i,
            forall|j: int|
                0 <= j < i ==> {
                    let p = x.after@[x.due@[j] as int];
                    &&& (#[trigger] out@[j]).occurrence_on@ == p.occurrence_on@
                    &&& out@[j].value_on@ == p.value_on@
                    &&& out@[j].amount_minor == p.amount_minor
                    &&& out@[j].series_id == p.series_id
                },
        decreases x.due@.len() - i,
    {
        let p = &x.after[x.due[i]];
        out.push(
            Due {
                occurrence_on: p.occurrence_on.clone(),
                value_on: p.value_on.clone(),
                amount_minor: p.amount_minor,
                series_id: p.series_id,
            },
        );
        i = i + 1;
    }
    out
}

/// What a row of the seam is: a payment recorded before the cut, one of the earlier terms, or one
/// from the cut on.
#[derive(Debug, Clone, Copy, PartialEq, Eq, Structural)]
pub enum SeamState {
    Recorded,
    Earlier,
    FromCut,
}

/// A payment around the place where terms change.
#[derive(Debug, Clone)]
pub struct SeamRow {
    pub occurrence_on: String,
    pub value_on: String,
    /// The day `value_on` is, where it is one.
    pub day: Option<Date>,
    pub amount_minor: Option<Minor>,
    pub series_id: i64,
    pub state: SeamState,
    /// Days since the payment before: a doubled month shows up as a gap of a few days.
    pub gap_days: Option<i64>,
}

/// The content of a row of the seam, but for its gap.
pub struct SeamView {
    pub occurrence_on: Seq<char>,
    pub value_on: Seq<char>,
    pub day: Option<int>,
    pub amount: Option<i64>,
    pub series_id: i64,
    pub state: SeamState,
}

/// The content of a row of the seam, but for its gap.
pub open spec fn seam_view(r: SeamRow) -> SeamView {
    SeamView {
        occurrence_on: r.occurrence_on@,
        value_on: r.value_on@,
        day: match r.day {
            Some(d) => Some(d.days as int),
            None => None,
        },
        amount: r.amount_minor,
        series_id: r.series_id,
        state: r.state,
    }
}

/// The contents of rows of the seam, but for their gaps.
pub open spec fn seam_views(v: Seq<SeamRow>) -> Seq<SeamView> {
    v.map_values(|r: SeamRow| seam_view(r))
}

/// Whether one recorded payment is later than another: by its slot, then by its id.
pub open spec fn is_later(a: Claim, b: Claim) -> bool {
    a.occurrence_on.days > b.occurrence_on.days || (a.occurrence_on == b.occurrence_on && a.txn_id
        >= b.txn_id)
}

/// The last payment recorded before a day.
pub open spec fn last_before(claims: Seq<Claim>, cut: Date) -> Option<Claim>
    decreases claims.len(),
{
    if claims.len() == 0 {
        None
    } else {
        let rest = last_before(claims.drop_last(), cut);
        let c = claims.last();
        if c.occurrence_on.days >= cut.days {
            rest
        } else {
            match rest {
                Some(b) => Some(
                    if is_later(c, b) {
                        c
                    } else {
                        b
                    },
                ),
                None => Some(c),
            }
        }
    }
}

/// A recorded payment as a row of the seam.
pub open spec fn recorded_row(c: Claim) -> SeamView {
    SeamView {
        occurrence_on: iso(c.occurrence_on.days as int),
        value_on: iso(c.occurred_on.days as int),
        day: Some(c.occurred_on.days as int),
        amount: None,
        series_id: c.series_id,
        state: SeamState::Recorded,
    }
}

/// A point as a row of the seam.
pub open spec fn point_row(p: PointOn, state: SeamState) -> SeamView {
    SeamView {
        occurrence_on: p.occurrence_on,
        value_on: p.value_on,
        day: read_day(p.value_on, "%Y-%m-%d"@),
        amount: Some(p.amount),
        series_id: p.series_id,
        state,
    }
}

/// The first hop's points before a day.
pub open spec fn rows_before(s: Seq<PointOn>, cut: Seq<char>) -> Seq<SeamView>
    decreases s.len(),
{
    if s.len() == 0 {
        Seq::empty()
    } else {
        let rest = rows_before(s.drop_last(), cut);
        if s.last().seq == 0 && text_lt(s.last().occurrence_on, cut) {
            rest.push(point_row(s.last(), SeamState::Earlier))
        } else {
            rest
        }
    }
}

/// The first hop's first four points from a day on.
pub open spec fn rows_from(s: Seq<PointOn>, cut: Seq<char>) -> Seq<SeamView>
    decreases s.len(),
{
    if s.len() == 0 {
        Seq::empty()
    } else {
        let rest = rows_from(s.drop_last(), cut);
        if s.last().seq == 0 && !text_lt(s.last().occurrence_on, cut) && rest.len() < 4 {
            rest.push(point_row(s.last(), SeamState::FromCut))
        } else {
            rest
        }
    }
}

/// The rows of the seam: the last payment recorded before the cut, then the forecast's first hop
/// around it.
pub open spec fn seam_rows(claims: Seq<Claim>, s: Seq<PointOn>, cut: Date) -> Seq<SeamView> {
    let head = match last_before(claims, cut) {
        Some(c) => seq![recorded_row(c)],
        None => Seq::empty(),
    };
    head + rows_before(s, iso(cut.days as int)) + rows_from(s, iso(cut.days as int))
}

/// The last day that the rows before a place are on.
pub open spec fn day_so_far(rows: Seq<SeamView>, n: int) -> Option<int>
    decreases n,
{
    if n <= 0 {
        None
    } else if rows[n - 1].day is Some {
        rows[n - 1].day
    } else {
        day_so_far(rows, n - 1)
    }
}

/// The days between a row and the one before.
pub open spec fn gap(rows: Seq<SeamView>, n: int) -> Option<int> {
    match (day_so_far(rows, n), rows[n].day) {
        (Some(a), Some(b)) => Some(b - a),
        _ => None,
    }
}

/// Whether these are the rows of the seam, each with its gap.
pub open spec fn is_seam(v: Seq<SeamRow>, claims: Seq<Claim>, s: Seq<PointOn>, cut: Date) -> bool {
    let rows = seam_rows(claims, s, cut);
    seam_views(v) == rows && forall|i: int|
        0 <= i < v.len() ==> (match (#[trigger] v[i]).gap_days {
            Some(g) => gap(rows, i) == Some(g as int),
            None => gap(rows, i) is None,
        })
}

fn last_recorded(claims: &Vec<Claim>, cut: Date) -> (r: Option<Claim>)
    ensures
        r == last_before(claims@, cut),
{
    let mut best: Option<Claim> = None;
    let mut i: usize = 0;
    assert(claims@.take(0) =~= Seq::<Claim>::empty());
    while i < claims.len()
        invariant
            i <= claims@.len(),
            best == last_before(claims@.take(i as int), cut),
        decreases claims@.len() - i,
    {
        let c = claims[i];
        assert(claims@.take(i + 1).drop_last() =~= claims@.take(i as int));
        if c.occurrence_on.days < cut.days {
            best = match best {
                Some(b) => {
                    if c.occurrence_on.days > b.occurrence_on.days || (c.occurrence_on.days
                        == b.occurrence_on.days && c.txn_id >= b.txn_id) {
                        Some(c)
                    } else {
                        Some(b)
                    }
                },
                None => Some(c),
            };
        }
        i = i + 1;
    }
    assert(claims@.take(claims@.len() as int) =~= claims@);
    best
}

fn row_for(p: &Point, state: SeamState) -> (r: SeamRow)
    ensures
        seam_view(r) == point_row(p@, state),
{
    SeamRow {
        occurrence_on: p.occurrence_on.clone(),
        value_on: p.value_on.clone(),
        day: Date::parse(p.value_on.as_str()),
        amount_minor: Some(p.amount_minor),
        series_id: p.series_id,
        state,
        gap_days: None,
    }
}

fn add_row(out: &mut Vec<SeamRow>, row: SeamRow)
    ensures
        seam_views(final(out)@) == seam_views(old(out)@).push(seam_view(row)),
{
    assert(seam_views(out@.push(row)) =~= seam_views(out@).push(seam_view(row)));
    out.push(row);
}

fn set_gaps(v: &mut Vec<SeamRow>)
    ensures
        seam_views(final(v)@) == seam_views(old(v)@),
        forall|i: int|
            0 <= i < final(v)@.len() ==> (match (#[trigger] final(v)@[i]).gap_days {
                Some(g) => gap(seam_views(old(v)@), i) == Some(g as int),
                None => gap(seam_views(old(v)@), i) is None,
            }),
{
    let ghost rows = seam_views(v@);
    let n: usize = v.len();
    let mut so_far: Option<Date> = None;
    let mut i: usize = 0;
    while i < n
        invariant
            i <= n,
            n == v@.len(),
            rows == seam_views(old(v)@),
            seam_views(v@) == rows,
            match so_far {
                Some(d) => day_so_far(rows, i as int) == Some(d.days as int),
                None => day_so_far(rows, i as int) is None,
            },
            forall|j: int|
                0 <= j < i ==> (match (#[trigger] v@[j]).gap_days {
                    Some(g) => gap(rows, j) == Some(g as int),
                    None => gap(rows, j) is None,
                }),
        decreases n - i,
    {
        assert(rows[i as int] == seam_view(v@[i as int]));
        let day = v[i].day;
        let mut g: Option<i64> = None;
        if let Some(b) = day {
            if let Some(a) = so_far {
                g = Some(b.days as i64 - a.days as i64);
            }
            so_far = Some(b);
        }
        let old_row = &v[i];
        let row = SeamRow {
            occurrence_on: old_row.occurrence_on.clone(),
            value_on: old_row.value_on.clone(),
            day,
            amount_minor: old_row.amount_minor,
            series_id: old_row.series_id,
            state: old_row.state,
            gap_days: g,
        };
        assert(seam_view(row) == rows[i as int]);
        v.set(i, row);
        assert(seam_views(v@) =~= rows);
        i = i + 1;
    }
}

/// The seam around the day where terms change: the last payment recorded before it, then the
/// forecast's first hop around it, each with the days since the one before.
pub fn seam(claims: &Vec<Claim>, after: &Vec<Point>, cut: Date) -> (r: Vec<SeamRow>)
    ensures
        is_seam(r@, claims@, point_ons(after@), cut),
{
    let ghost s = point_ons(after@);
    let mut out: Vec<SeamRow> = Vec::new();
    assert(seam_views(out@) =~= Seq::<SeamView>::empty());
    if let Some(c) = last_recorded(claims, cut) {
        add_row(
            &mut out,
            SeamRow {
                occurrence_on: c.occurrence_on.to_text(),
                value_on: c.occurred_on.to_text(),
                day: Some(c.occurred_on),
                amount_minor: None,
                series_id: c.series_id,
                state: SeamState::Recorded,
                gap_days: None,
            },
        );
    }
    let ghost head = seam_views(out@);
    assert(head =~= (match last_before(claims@, cut) {
        Some(c) => seq![recorded_row(c)],
        None => Seq::empty(),
    }));
    let day = cut.to_text();
    let mut i: usize = 0;
    assert(s.take(0) =~= Seq::<PointOn>::empty());
    assert(head + rows_before(s.take(0), day@) =~= head);
    while i < after.len()
        invariant
            i <= after@.len(),
            s == point_ons(after@),
            seam_views(out@) =~= head + rows_before(s.take(i as int), day@),
        decreases after@.len() - i,
    {
        assert(s.take(i + 1).drop_last() =~= s.take(i as int));
        assert(s.take(i + 1).last() == after@[i as int]@);
        if after[i].seq == 0 && text_less(after[i].occurrence_on.as_str(), day.as_str()) {
            add_row(&mut out, row_for(&after[i], SeamState::Earlier));
        }
        i = i + 1;
    }
    assert(s.take(s.len() as int) =~= s);
    let ghost so_far = seam_views(out@);
    let mut k: usize = 0;
    let mut taken: usize = 0;
    assert(so_far + rows_from(s.take(0), day@) =~= so_far);
    while k < after.len()
        invariant
            k <= after@.len(),
            s == point_ons(after@),
            taken == rows_from(s.take(k as int), day@).len(),
            taken <= 4,
            seam_views(out@) =~= so_far + rows_from(s.take(k as int), day@),
        decreases after@.len() - k,
    {
        assert(s.take(k + 1).drop_last() =~= s.take(k as int));
        assert(s.take(k + 1).last() == after@[k as int]@);
        if after[k].seq == 0 && !text_less(after[k].occurrence_on.as_str(), day.as_str()) && taken
            < 4 {
            add_row(&mut out, row_for(&after[k], SeamState::FromCut));
            taken = taken + 1;
        }
        k = k + 1;
    }
    assert(s.take(s.len() as int) =~= s);
    assert(seam_views(out@) =~= seam_rows(claims@, s, cut));
    set_gaps(&mut out);
    out
}

/// The points of a projection, none where there is no projection.
pub open spec fn points_in(sub: Snapshot, r: Result<Projection, ProjectError>) -> Seq<PointOn> {
    match r {
        Ok(p) => points_of(sub.series@, p.occurrences@),
        Err(_) => Seq::empty(),
    }
}

fn take_points(sub: &Snapshot, r: &Result<Projection, ProjectError>) -> (v: Vec<Point>)
    ensures
        point_ons(v@) == points_in(*sub, *r),
{
    match r {
        Ok(p) => points(&sub.series, &p.occurrences),
        Err(_) => {
            let v: Vec<Point> = Vec::new();
            assert(point_ons(v@) =~= Seq::<PointOn>::empty());
            v
        },
    }
}

/// Everything an edit or an undo reports once its writes are in place.
#[derive(Debug)]
pub struct Outcome {
    pub impact: Impact,
    pub seam: Vec<SeamRow>,
    /// Why there is no forecast before or after, where there is none.
    pub before_error: Option<ProjectError>,
    pub after_error: Option<ProjectError>,
}

/// Whether an outcome is what became of a rule's forecast.
pub open spec fn is_outcome<R: Recurrence>(
    x: Outcome,
    recur: R,
    before: Snapshot,
    before_ids: Seq<i64>,
    after: Snapshot,
    after_ids: Seq<i64>,
    scenario: Option<i64>,
    as_of: Date,
    cut: Date,
    claims: Seq<Claim>,
) -> bool {
    exists|
        bs: Snapshot,
        br: Result<Projection, ProjectError>,
        as_: Snapshot,
        ar: Result<Projection, ProjectError>,
    |
        #![trigger projects_rule(recur, bs, scenario, as_of, br), projects_rule(recur, as_, scenario, as_of, ar)]
        is_sub(bs, before, before_ids) && projects_rule(recur, bs, scenario, as_of, br) && is_sub(
            as_,
            after,
            after_ids,
        ) && projects_rule(recur, as_, scenario, as_of, ar) && is_impact(
            x.impact,
            points_in(bs, br),
            points_in(as_, ar),
            scenario is None,
            as_of,
        ) && is_seam(x.seam@, claims, points_in(as_, ar), cut) && x.before_error == error_of(br)
            && x.after_error == error_of(ar)
}

/// Why there is no projection, where there is none.
pub open spec fn error_of(r: Result<Projection, ProjectError>) -> Option<ProjectError> {
    match r {
        Ok(_) => None,
        Err(e) => Some(e),
    }
}

/// What an edit or an undo does to a rule's forecast over the coming year: the rule projected on its
/// own from the book before and from the book after.
///
/// `before_ids` and `after_ids` are the rule's rows in each, `cut` the day where terms change.
pub fn outcome<R: Recurrence>(
    recur: &R,
    before: &Snapshot,
    before_ids: &Vec<i64>,
    after: &Snapshot,
    after_ids: &Vec<i64>,
    scenario: Option<i64>,
    as_of: Date,
    cut: Date,
    claims: &Vec<Claim>,
) -> (r: Outcome)
    requires
        as_of.in_range(),
        before.series@.len() <= i64::MAX,
        after.series@.len() <= i64::MAX,
    ensures
        is_outcome(
            r,
            *recur,
            *before,
            before_ids@,
            *after,
            after_ids@,
            scenario,
            as_of,
            cut,
            claims@,
        ),
        forall|i: int|
            0 <= i < r.impact.due@.len() ==> #[trigger] r.impact.due@[i] < r.impact.after@.len(),
{
    let (bs, br) = project_rule(recur, before, before_ids, scenario, as_of);
    let (as_, ar) = project_rule(recur, after, after_ids, scenario, as_of);
    let bp = take_points(&bs, &br);
    let ap = take_points(&as_, &ar);
    let rows = seam(claims, &ap, cut);
    let impact = compare(bp, ap, scenario.is_none(), as_of);
    let ghost b = br;
    let ghost a = ar;
    let before_error = match br {
        Ok(_) => None,
        Err(e) => Some(e),
    };
    let after_error = match ar {
        Ok(_) => None,
        Err(e) => Some(e),
    };
    let x = Outcome { impact, seam: rows, before_error, after_error };
    assert(projects_rule(*recur, bs, scenario, as_of, b));
    assert(projects_rule(*recur, as_, scenario, as_of, a));
    x
}

/// A what-if never moves money, so nothing of it can fall due.
pub proof fn law_nothing_of_a_what_if_falls_due(
    x: Impact,
    bp: Seq<PointOn>,
    ap: Seq<PointOn>,
    as_of: Date,
)
    requires
        is_impact(x, bp, ap, false, as_of),
    ensures
        x.due@.len() == 0,
{
    assert(ints(x.due@).len() == 0);
}

/// Whether points stand in order, one per hop and slot.
pub open spec fn in_slot_order(s: Seq<PointOn>) -> bool {
    forall|i: int, j: int|
        #![trigger s[i], s[j]]
        0 <= i < j < s.len() ==> stands_before(s[i], s[j])
}

proof fn lemma_before_transitive(a: PointOn, b: PointOn, c: PointOn)
    requires
        stands_before(a, b),
        stands_before(b, c),
    ensures
        stands_before(a, c),
{
    if a.seq == b.seq && b.seq == c.seq {
        lemma_text_transitive(a.occurrence_on, b.occurrence_on, c.occurrence_on);
    }
}

proof fn lemma_with_point(s: Seq<PointOn>, p: PointOn)
    requires
        in_slot_order(s),
    ensures
        in_slot_order(with_point(s, p)),
        forall|i: int|
            0 <= i < with_point(s, p).len() ==> #[trigger] with_point(s, p)[i] == p || s.contains(
                with_point(s, p)[i],
            ),
    decreases s.len(),
{
    let w = with_point(s, p);
    if s.len() == 0 || stands_before(s.last(), p) {
        assert forall|i: int, j: int|
            #![trigger w[i], w[j]]
            0 <= i < j < w.len() implies stands_before(w[i], w[j]) by {
            if j < s.len() {
                assert(stands_before(s[i], s[j]));
            } else if i < s.len() - 1 {
                assert(stands_before(s[i], s[s.len() - 1]));
                lemma_before_transitive(s[i], s.last(), p);
            }
        }
        assert forall|i: int| 0 <= i < w.len() implies #[trigger] w[i] == p || s.contains(w[i]) by {
            if i < s.len() {
                assert(s[i] == w[i]);
            }
        }
    } else if same_slot(s.last(), p) {
        assert forall|i: int| 0 <= i < w.len() implies #[trigger] w[i] == p || s.contains(w[i]) by {
            assert(s[i] == w[i]);
        }
    } else {
        let rest = s.drop_last();
        lemma_with_point(rest, p);
        lemma_text_total(s.last().occurrence_on, p.occurrence_on);
        let v = with_point(rest, p);
        assert forall|i: int, j: int|
            #![trigger w[i], w[j]]
            0 <= i < j < w.len() implies stands_before(w[i], w[j]) by {
            if j < v.len() {
                assert(stands_before(v[i], v[j]));
            } else if v[i] != p {
                assert(rest.contains(v[i]));
                let k = choose|k: int| 0 <= k < rest.len() && rest[k] == v[i];
                assert(stands_before(s[k], s[s.len() - 1]));
            }
        }
        assert forall|i: int| 0 <= i < w.len() implies #[trigger] w[i] == p || s.contains(w[i]) by {
            if i < v.len() {
                assert(v[i] == p || rest.contains(v[i]));
                if v[i] != p {
                    let k = choose|k: int| 0 <= k < rest.len() && rest[k] == v[i];
                    assert(s[k] == w[i]);
                }
            } else {
                assert(s[s.len() - 1] == w[i]);
            }
        }
    }
}

/// The points of a forecast stand in order, one per hop and slot.
pub proof fn law_points_stand_in_order(series: Seq<Series>, occs: Seq<Occurrence>)
    ensures
        in_slot_order(points_of(series, occs)),
    decreases occs.len(),
{
    if occs.len() > 0 {
        law_points_stand_in_order(series, occs.drop_last());
        if let Some(p) = point_of(series, occs.last()) {
            lemma_with_point(points_of(series, occs.drop_last()), p);
        }
    }
}

/// An edit that leaves the forecast as it was has no impact.
pub proof fn law_the_same_forecast_has_no_impact(
    x: Impact,
    series: Seq<Series>,
    occs: Seq<Occurrence>,
    baseline: bool,
    as_of: Date,
)
    requires
        is_impact(x, points_of(series, occs), points_of(series, occs), baseline, as_of),
    ensures
        x.appears@.len() == 0,
        x.disappears@.len() == 0,
        x.changes@.len() == 0,
        x.due@.len() == 0,
{
    let p = points_of(series, occs);
    law_points_stand_in_order(series, occs);
    lemma_same(p, p.len() as int);
    assert(ints(x.appears@).len() == 0);
    assert(ints(x.disappears@).len() == 0);
    assert(int_pairs(x.changes@).len() == 0);
    assert(ints(x.due@).len() == 0);
}

proof fn lemma_same(p: Seq<PointOn>, n: int)
    requires
        0 <= n <= p.len(),
        in_slot_order(p),
    ensures
        missing_from(p, p, n).len() == 0,
        changed_from(p, p, n).len() == 0,
    decreases n,
{
    if n > 0 {
        lemma_same(p, n - 1);
        let q = p[n - 1];
        assert forall|j: int| 0 <= j < n - 1 implies !#[trigger] fills(p, q)(j) by {
            assert(stands_before(p[j], p[n - 1]));
            lemma_text_irreflexive(q.occurrence_on);
        }
        assert(fills(p, q)(n - 1));
        lemma_first(p.len() as int, fills(p, q), n - 1);
    }
}

} // verus!
