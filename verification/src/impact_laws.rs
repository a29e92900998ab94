//! What a change does to the forecast of a rule, what the rule looks like across it, and what the
//! rules come to together.

use crate::date::Date;
use crate::impact::{
    changed_from, day_so_far, due_among, fills, gap, int_pairs, ints, is_impact, is_seam,
    last_before, missing_from, on_slot, point_of, point_row, rows_before, rows_from, seam_rows,
    seam_views, seat, seat_of, slot_place, Impact, PointOn, SeamRow, SeamState, SeamView,
};
use crate::date::iso;
use crate::forecast::{Occurrence, Series};
use crate::lists::{lemma_first, lemma_first_is, lemma_push_has};
use crate::reschedule::Claim;
use crate::review::{
    arrives, arrives_in, changed_rows, endless_rows, in_group, leaves, leaves_in, next_on,
    RuleReview,
};
use crate::sorting::{law_ranking_keeps_everything_and_orders_it, orders, ranked, Ranked};
use crate::standing::Group;
use crate::text::{lemma_text_irreflexive, lemma_text_total, lemma_text_transitive, text_lt};
use vstd::prelude::*;

verus! {

/// Whether a forecast has a payment of a hop in a slot.
pub open spec fn has_slot(s: Seq<PointOn>, p: PointOn) -> bool {
    exists|i: int|
        0 <= i < s.len() && (#[trigger] s[i]).seq == p.seq && s[i].occurrence_on == p.occurrence_on
}

proof fn lemma_has_slot(s: Seq<PointOn>, p: PointOn)
    ensures
        has_slot(s, p) <==> slot_place(s, p) < s.len(),
        slot_place(s, p) < s.len() ==> 0 <= slot_place(s, p) && s[slot_place(s, p)].seq == p.seq
            && s[slot_place(s, p)].occurrence_on == p.occurrence_on,
        forall|j: int|
            0 <= j < slot_place(s, p) ==> (#[trigger] s[j]).seq != p.seq || s[j].occurrence_on
                != p.occurrence_on,
{
    let f = fills(s, p);
    lemma_first_is(s.len() as int, f);
    let at = slot_place(s, p);
    if at < s.len() {
        assert(f(at));
        assert(s[at].seq == p.seq);
    }
    if has_slot(s, p) {
        let i = choose|i: int|
            0 <= i < s.len() && (#[trigger] s[i]).seq == p.seq && s[i].occurrence_on
                == p.occurrence_on;
        assert(f(i));
    }
    assert forall|j: int| 0 <= j < at implies (#[trigger] s[j]).seq != p.seq || s[j].occurrence_on
        != p.occurrence_on by {
        assert(!f(j));
    }
}

proof fn lemma_missing(s: Seq<PointOn>, other: Seq<PointOn>, n: int, k: int)
    requires
        0 <= n <= s.len(),
    ensures
        missing_from(s, other, n).contains(k) <==> 0 <= k < n && !has_slot(other, s[k]),
    decreases n,
{
    if n > 0 {
        lemma_missing(s, other, n - 1, k);
        lemma_has_slot(other, s[n - 1]);
        lemma_push_has(missing_from(s, other, n - 1), n - 1, k);
    }
}

proof fn lemma_ints(v: Seq<usize>, k: int)
    requires
        0 <= k <= usize::MAX,
    ensures
        ints(v).contains(k) <==> v.contains(k as usize),
{
    if v.contains(k as usize) {
        let i = choose|i: int| 0 <= i < v.len() && v[i] == k as usize;
        assert(ints(v)[i] == k);
    }
    if ints(v).contains(k) {
        let i = choose|i: int| 0 <= i < ints(v).len() && ints(v)[i] == k;
        assert(v[i] == k as usize);
    }
}

/// What appears is what the forecast after has in a slot that the one before has nothing in, and what
/// disappears the other way round.
pub proof fn law_what_appears_was_not_there(
    x: Impact,
    bp: Seq<PointOn>,
    ap: Seq<PointOn>,
    baseline: bool,
    as_of: Date,
    k: usize,
)
    requires
        is_impact(x, bp, ap, baseline, as_of),
    ensures
        x.appears@.contains(k) <==> k < ap.len() && !has_slot(bp, ap[k as int]),
        x.disappears@.contains(k) <==> k < bp.len() && !has_slot(ap, bp[k as int]),
{
    lemma_missing(ap, bp, ap.len() as int, k as int);
    lemma_missing(bp, ap, bp.len() as int, k as int);
    lemma_ints(x.appears@, k as int);
    lemma_ints(x.disappears@, k as int);
}

proof fn lemma_changed(s: Seq<PointOn>, other: Seq<PointOn>, n: int, i: int, k: int)
    requires
        0 <= n <= s.len(),
    ensures
        changed_from(s, other, n).contains((i, k)) <==> 0 <= k < n && i == slot_place(other, s[k]) && i
            < other.len() && (s[k].value_on != other[i].value_on || s[k].amount != other[i].amount),
    decreases n,
{
    if n > 0 {
        lemma_changed(s, other, n - 1, i, k);
        lemma_push_has(
            changed_from(s, other, n - 1),
            (slot_place(other, s[n - 1]), n - 1),
            (i, k),
        );
    }
}

/// What changes is what both forecasts have in one slot, with another day for the money or another
/// amount.
pub proof fn law_what_changes_moves_or_costs_otherwise(
    x: Impact,
    bp: Seq<PointOn>,
    ap: Seq<PointOn>,
    baseline: bool,
    as_of: Date,
    i: usize,
    k: usize,
)
    requires
        is_impact(x, bp, ap, baseline, as_of),
        i < bp.len(),
        k < ap.len(),
        bp[i as int].seq == ap[k as int].seq,
        bp[i as int].occurrence_on == ap[k as int].occurrence_on,
        forall|j: int|
            0 <= j < i ==> (#[trigger] bp[j]).seq != bp[i as int].seq || bp[j].occurrence_on
                != bp[i as int].occurrence_on,
    ensures
        x.changes@.contains((i, k)) <==> bp[i as int].value_on != ap[k as int].value_on || bp[i as int].amount
            != ap[k as int].amount,
{
    let p = ap[k as int];
    let f = fills(bp, p);
    assert forall|j: int| 0 <= j < i implies !#[trigger] f(j) by {
        assert(bp[j].seq != bp[i as int].seq || bp[j].occurrence_on != bp[i as int].occurrence_on);
    }
    assert(f(i as int));
    lemma_first(bp.len() as int, f, i as int);
    lemma_changed(ap, bp, ap.len() as int, i as int, k as int);
    let pairs = int_pairs(x.changes@);
    if x.changes@.contains((i, k)) {
        let j = choose|j: int| 0 <= j < x.changes@.len() && x.changes@[j] == (i, k);
        assert(pairs[j] == (i as int, k as int));
    }
    if pairs.contains((i as int, k as int)) {
        let j = choose|j: int| 0 <= j < pairs.len() && pairs[j] == (i as int, k as int);
        assert(x.changes@[j] == (i, k));
    }
}

/// Every change is of a slot that both forecasts have.
pub proof fn law_a_change_is_within_one_slot(
    x: Impact,
    bp: Seq<PointOn>,
    ap: Seq<PointOn>,
    baseline: bool,
    as_of: Date,
    n: int,
)
    requires
        is_impact(x, bp, ap, baseline, as_of),
        0 <= n < x.changes@.len(),
    ensures
        ({
            let (i, k) = x.changes@[n];
            &&& i < bp.len() && k < ap.len()
            &&& bp[i as int].seq == ap[k as int].seq
            &&& bp[i as int].occurrence_on == ap[k as int].occurrence_on
            &&& bp[i as int].value_on != ap[k as int].value_on || bp[i as int].amount
                != ap[k as int].amount
        }),
{
    let (i, k) = x.changes@[n];
    let pairs = int_pairs(x.changes@);
    assert(pairs[n] == (i as int, k as int));
    assert(pairs.contains((i as int, k as int)));
    lemma_changed(ap, bp, ap.len() as int, i as int, k as int);
    lemma_has_slot(bp, ap[k as int]);
}

/// Whether a payment's slot, or the day its money moves, is the day or earlier.
pub open spec fn is_by(p: PointOn, day: Seq<char>) -> bool {
    !text_lt(day, p.occurrence_on) || !text_lt(day, p.value_on)
}

proof fn lemma_due(s: Seq<PointOn>, at: Seq<int>, day: Seq<char>, k: int)
    ensures
        due_among(s, at, day).contains(k) ==> at.contains(k) && is_by(s[k], day),
        at.contains(k) && is_by(s[k], day) ==> on_slot(s, due_among(s, at, day), s[k].occurrence_on),
    decreases at.len(),
{
    if at.len() > 0 {
        let rest = at.drop_last();
        let now = due_among(s, at, day);
        let before = due_among(s, rest, day);
        lemma_due(s, rest, day, k);
        lemma_push_has(rest, at.last(), k);
        assert(rest.push(at.last()) =~= at);
        lemma_push_has(before, at.last(), k);
        if on_slot(s, before, s[k].occurrence_on) {
            let i = choose|i: int|
                0 <= i < before.len() && s[#[trigger] before[i]].occurrence_on == s[k].occurrence_on;
            assert(now[i] == before[i]);
        }
        if at.last() == k && is_by(s[k], day) && !on_slot(s, before, s[k].occurrence_on) {
            assert(now[before.len() as int] == k);
        }
    }
}

/// What falls due is what appears in the forecast of the book itself dated on the day or earlier, one
/// for each slot of it.
pub proof fn law_what_falls_due_appears_and_is_past(
    x: Impact,
    bp: Seq<PointOn>,
    ap: Seq<PointOn>,
    as_of: Date,
    k: usize,
)
    requires
        is_impact(x, bp, ap, true, as_of),
    ensures
        x.due@.contains(k) ==> x.appears@.contains(k) && k < ap.len() && is_by(
            ap[k as int],
            iso(as_of.days as int),
        ),
        x.appears@.contains(k) && is_by(ap[k as int], iso(as_of.days as int)) ==> exists|j: int|
            0 <= j < x.due@.len() && ap[#[trigger] x.due@[j] as int].occurrence_on
                == ap[k as int].occurrence_on,
{
    let day = iso(as_of.days as int);
    let at = missing_from(ap, bp, ap.len() as int);
    lemma_due(ap, at, day, k as int);
    lemma_missing(ap, bp, ap.len() as int, k as int);
    lemma_ints(x.appears@, k as int);
    lemma_ints(x.due@, k as int);
    if x.appears@.contains(k) && is_by(ap[k as int], day) {
        let d = due_among(ap, at, day);
        let i = choose|i: int|
            0 <= i < d.len() && ap[#[trigger] d[i]].occurrence_on == ap[k as int].occurrence_on;
        assert(ints(x.due@)[i] == x.due@[i] as int);
        assert(ap[x.due@[i] as int].occurrence_on == ap[k as int].occurrence_on);
    }
}

/// A rule's payments are seen from its primary posting, or its first where it has none, and from the
/// hop's place in its chain.
pub proof fn law_a_payment_is_seen_from_its_primary_posting(s: Series, p: int)
    requires
        s.postings@.len() > 0,
        0 <= p <= s.postings@.len(),
        forall|i: int| 0 <= i < p ==> (#[trigger] s.postings@[i]).role@ != "primary"@,
        p < s.postings@.len() ==> s.postings@[p].role@ == "primary"@,
    ensures
        seat_of(s) is Some,
        p < s.postings@.len() ==> (seat_of(s)->0).0 == s.postings@[p].account_id,
        p == s.postings@.len() ==> (seat_of(s)->0).0 == s.postings@[0].account_id,
        s.chain_seq matches Some(q) ==> (seat_of(s)->0).1 == q,
        s.chain_seq is None ==> (seat_of(s)->0).1 == 0,
{
    let f = crate::commitments::is_primary(s.postings@);
    assert forall|j: int| 0 <= j < p implies !#[trigger] f(j) by {
        assert(s.postings@[j].role@ != "primary"@);
    }
    lemma_first(s.postings@.len() as int, f, p);
}

/// An occurrence is a payment of its rule exactly where it is on the account the rule is seen from; it
/// keeps its slot, its day and its amount.
pub proof fn law_an_occurrence_is_a_payment_on_the_account_it_is_seen_from(
    series: Seq<Series>,
    o: Occurrence,
)
    ensures
        point_of(series, o) is Some <==> seat(series, o.series_id) is Some && (seat(
            series,
            o.series_id,
        )->0).0 == o.account_id,
        point_of(series, o) matches Some(p) ==> p.series_id == o.series_id && p.seq == (seat(
            series,
            o.series_id,
        )->0).1 && p.occurrence_on == o.occurrence_on@ && p.value_on == o.value_on@ && p.amount
            == o.amount_minor,
{
}

/// The payment before a cut is recorded for a slot before it, and none recorded before it is of a
/// later slot.
pub proof fn law_the_payment_before_a_cut_is_the_last_before_it(claims: Seq<Claim>, cut: Date)
    ensures
        last_before(claims, cut) is None <==> forall|i: int|
            0 <= i < claims.len() ==> (#[trigger] claims[i]).occurrence_on.days >= cut.days,
        last_before(claims, cut) matches Some(b) ==> claims.contains(b) && b.occurrence_on.days
            < cut.days,
        forall|i: int|
            0 <= i < claims.len() && (#[trigger] claims[i]).occurrence_on.days < cut.days
                ==> last_before(claims, cut) is Some && (claims[i].occurrence_on.days < (last_before(
                claims,
                cut,
            )->0).occurrence_on.days || (claims[i].occurrence_on.days == (last_before(
                claims,
                cut,
            )->0).occurrence_on.days && claims[i].txn_id <= (last_before(claims, cut)->0).txn_id)),
    decreases claims.len(),
{
    if claims.len() > 0 {
        let rest = claims.drop_last();
        let c = claims.last();
        law_the_payment_before_a_cut_is_the_last_before_it(rest, cut);
        assert(claims[claims.len() - 1] == c);
        if last_before(rest, cut) is Some {
            lemma_push_has(rest, c, last_before(rest, cut)->0);
        }
        lemma_push_has(rest, c, c);
        assert(rest.push(c) =~= claims);
        assert forall|i: int|
            0 <= i < claims.len() && (#[trigger] claims[i]).occurrence_on.days < cut.days implies
        last_before(claims, cut) is Some && (claims[i].occurrence_on.days < (last_before(
            claims,
            cut,
        )->0).occurrence_on.days || (claims[i].occurrence_on.days == (last_before(
            claims,
            cut,
        )->0).occurrence_on.days && claims[i].txn_id <= (last_before(claims, cut)->0).txn_id)) by {
            if i < rest.len() {
                assert(rest[i] == claims[i]);
            }
        }
        if last_before(claims, cut) is None {
            assert forall|i: int| 0 <= i < claims.len() implies (
            #[trigger] claims[i]).occurrence_on.days >= cut.days by {
                if i < rest.len() {
                    assert(rest[i] == claims[i]);
                }
            }
        }
        if forall|i: int|
            0 <= i < claims.len() ==> (#[trigger] claims[i]).occurrence_on.days >= cut.days {
            assert(claims[claims.len() - 1].occurrence_on.days >= cut.days);
            assert forall|i: int| 0 <= i < rest.len() implies (#[trigger] rest[i]).occurrence_on.days
                >= cut.days by {
                assert(claims[i] == rest[i]);
            }
        }
    }
}

proof fn lemma_rows_before(s: Seq<PointOn>, cut: Seq<char>, p: PointOn)
    ensures
        rows_before(s, cut).len() <= s.len(),
        s.contains(p) && p.seq == 0 && text_lt(p.occurrence_on, cut) ==> rows_before(s, cut).contains(
            point_row(p, SeamState::Earlier),
        ),
        forall|i: int|
            0 <= i < rows_before(s, cut).len() ==> text_lt(
                (#[trigger] rows_before(s, cut)[i]).occurrence_on,
                cut,
            ) && rows_before(s, cut)[i].state is Earlier,
    decreases s.len(),
{
    if s.len() > 0 {
        let rest = s.drop_last();
        lemma_rows_before(rest, cut, p);
        lemma_push_has(rest, s.last(), p);
        assert(rest.push(s.last()) =~= s);
        lemma_push_has(
            rows_before(rest, cut),
            point_row(s.last(), SeamState::Earlier),
            point_row(p, SeamState::Earlier),
        );
    }
}

proof fn lemma_rows_from(s: Seq<PointOn>, cut: Seq<char>, p: PointOn)
    ensures
        rows_from(s, cut).len() <= 4,
        s.contains(p) && p.seq == 0 && !text_lt(p.occurrence_on, cut) && rows_from(s, cut).len() < 4
            ==> rows_from(s, cut).contains(point_row(p, SeamState::FromCut)),
        forall|i: int|
            0 <= i < rows_from(s, cut).len() ==> !text_lt(
                (#[trigger] rows_from(s, cut)[i]).occurrence_on,
                cut,
            ) && rows_from(s, cut)[i].state is FromCut,
    decreases s.len(),
{
    if s.len() > 0 {
        let rest = s.drop_last();
        lemma_rows_from(rest, cut, p);
        lemma_push_has(rest, s.last(), p);
        assert(rest.push(s.last()) =~= s);
        lemma_push_has(
            rows_from(rest, cut),
            point_row(s.last(), SeamState::FromCut),
            point_row(p, SeamState::FromCut),
        );
    }
}

/// Across a cut a rule shows the last payment recorded before it, then everything projected before
/// it, then up to four payments from it on; each row says how it stands to the cut.
pub proof fn law_a_seam_shows_what_is_on_either_side(
    v: Seq<SeamRow>,
    claims: Seq<Claim>,
    s: Seq<PointOn>,
    cut: Date,
    i: int,
    p: PointOn,
)
    requires
        is_seam(v, claims, s, cut),
        0 <= i < v.len(),
    ensures
        v[i].state is Recorded ==> i == 0 && last_before(claims, cut) is Some,
        last_before(claims, cut) matches Some(c) ==> v[0].state is Recorded && v[0].series_id
            == c.series_id && v[0].occurrence_on@ == iso(c.occurrence_on.days as int) && v[0].value_on@
            == iso(c.occurred_on.days as int) && v[0].amount_minor is None,
        v[i].state is Earlier ==> text_lt(v[i].occurrence_on@, iso(cut.days as int)),
        v[i].state is FromCut ==> !text_lt(v[i].occurrence_on@, iso(cut.days as int)),
        s.contains(p) && p.seq == 0 && text_lt(p.occurrence_on, iso(cut.days as int)) ==> exists|k: int|
            0 <= k < v.len() && (#[trigger] v[k]).state is Earlier && v[k].occurrence_on@
                == p.occurrence_on && v[k].value_on@ == p.value_on && v[k].amount_minor == Some(p.amount)
                && v[k].series_id == p.series_id,
{
    let day = iso(cut.days as int);
    let rows = seam_rows(claims, s, cut);
    let b = rows_before(s, day);
    let f = rows_from(s, day);
    lemma_rows_before(s, day, p);
    lemma_rows_from(s, day, p);
    assert(seam_views(v)[i] == crate::impact::seam_view(v[i]));
    assert(seam_views(v).len() == v.len());
    let h = rows.len() - b.len() - f.len();
    if i >= h && i < h + b.len() {
        assert(rows[i] == b[i - h]);
    }
    if i >= h + b.len() {
        assert(rows[i] == f[i - h - b.len()]);
    }
    if last_before(claims, cut) is Some {
        assert(seam_views(v)[0] == crate::impact::seam_view(v[0]));
        assert(rows[0] == crate::impact::recorded_row(last_before(claims, cut)->0));
    }
    if s.contains(p) && p.seq == 0 && text_lt(p.occurrence_on, day) {
        let x = point_row(p, SeamState::Earlier);
        let k = choose|k: int| 0 <= k < b.len() && b[k] == x;
        assert(rows[h + k] == x);
        assert(seam_views(v)[h + k] == crate::impact::seam_view(v[h + k]));
        assert(v[h + k].state is Earlier);
    }
}

/// The gap of a payment is the days since the last one before it that has a day.
pub proof fn law_a_gap_is_the_days_since_the_payment_before(rows: Seq<SeamView>, n: int, k: int)
    requires
        0 <= k < n < rows.len(),
        rows[k].day is Some,
        forall|j: int| k < j < n ==> (#[trigger] rows[j]).day is None,
    ensures
        rows[n].day is Some ==> gap(rows, n) == Some(rows[n].day->0 - rows[k].day->0),
        rows[n].day is None ==> gap(rows, n) is None,
{
    lemma_day_so_far(rows, n, k);
}

proof fn lemma_day_so_far(rows: Seq<SeamView>, n: int, k: int)
    requires
        0 <= k < n <= rows.len(),
        rows[k].day is Some,
        forall|j: int| k < j < n ==> (#[trigger] rows[j]).day is None,
    ensures
        day_so_far(rows, n) == rows[k].day,
    decreases n,
{
    if k < n - 1 {
        assert(rows[n - 1].day is None);
        lemma_day_so_far(rows, n - 1, k);
    }
}

/// A rule that moves money out leaves its month's share whatever its sign, one that brings it in
/// arrives with it, and one that does neither goes by its sign.
pub proof fn law_a_rule_costs_or_brings_by_its_direction(r: RuleReview)
    ensures
        ({
            let m = r.yearly.monthly_minor as int;
            &&& leaves(r) <= 0 <= arrives(r)
            &&& r.direction is Out ==> arrives(r) == 0 && (leaves(r) == m || leaves(r) == -m)
            &&& r.direction is In ==> leaves(r) == 0 && (arrives(r) == m || arrives(r) == -m)
            &&& r.direction is Other ==> leaves(r) + arrives(r) == m && (leaves(r) == 0 || arrives(r)
                == 0)
        }),
{
}

/// A rule that has not ended adds what it costs and brings to its own currency and to no other; one
/// that has, or that has no currency, adds nothing.
pub proof fn law_a_rule_adds_to_its_own_currency(
    v: Seq<RuleReview>,
    r: RuleReview,
    currency: Seq<char>,
)
    ensures
        !(r.group is Ended) && r.shape.currency@.len() > 0 && r.shape.currency@ == currency ==> leaves_in(
            v.push(r),
            currency,
        ) == leaves_in(v, currency) + leaves(r) && arrives_in(v.push(r), currency) == arrives_in(
            v,
            currency,
        ) + arrives(r),
        r.group is Ended || r.shape.currency@.len() == 0 || r.shape.currency@ != currency ==> leaves_in(
            v.push(r),
            currency,
        ) == leaves_in(v, currency) && arrives_in(v.push(r), currency) == arrives_in(v, currency),
        leaves_in(Seq::empty(), currency) == 0,
        arrives_in(Seq::empty(), currency) == 0,
{
    assert(v.push(r).drop_last() =~= v);
}

/// A rule counts in its own group, among the changed where it has more than one part, and among the
/// endless where it has not ended and has no end.
pub proof fn law_a_rule_counts_as_what_it_is(v: Seq<RuleReview>, r: RuleReview, g: Group)
    ensures
        in_group(v.push(r), g) == in_group(v, g) + (if r.group == g {
            1int
        } else {
            0
        }),
        changed_rows(v.push(r)) == changed_rows(v) + (if r.parts > 1 {
            1int
        } else {
            0
        }),
        endless_rows(v.push(r)) == endless_rows(v) + (if r.until_on is None && !(r.group is Ended) {
            1int
        } else {
            0
        }),
{
    assert(v.push(r).drop_last() =~= v);
}

proof fn lemma_text_swap(a: Seq<char>, b: Seq<char>, c: Seq<char>)
    requires
        text_lt(a, b),
        !text_lt(c, b),
    ensures
        text_lt(a, c),
{
    lemma_text_total(c, b);
    if c != b {
        lemma_text_transitive(a, b, c);
    }
}

proof fn lemma_no_return(a: Seq<char>, b: Seq<char>)
    ensures
        !(text_lt(a, b) && text_lt(b, a)),
        !text_lt(a, a),
{
    lemma_text_irreflexive(a);
    if text_lt(a, b) && text_lt(b, a) {
        lemma_text_transitive(a, b, a);
    }
}

proof fn lemma_reviews_order()
    ensures
        orders::<RuleReview>(),
{
    assert forall|a: RuleReview, b: RuleReview| #[trigger] a.before(&b) implies !b.before(&a) by {
        lemma_no_return(a.sort_name@, b.sort_name@);
        lemma_no_return(b.sort_name@, a.sort_name@);
        if next_on(a) is Some && next_on(b) is Some {
            lemma_no_return(next_on(a)->0, next_on(b)->0);
            lemma_no_return(next_on(b)->0, next_on(a)->0);
        }
    }
    assert forall|a: RuleReview, b: RuleReview, c: RuleReview| #[trigger]
        a.before(&b) && !(#[trigger] c.before(&b)) implies a.before(&c) by {
        if text_lt(a.sort_name@, b.sort_name@) && !text_lt(c.sort_name@, b.sort_name@) {
            lemma_text_swap(a.sort_name@, b.sort_name@, c.sort_name@);
        }
        if next_on(b) is Some && next_on(c) is Some && next_on(a) is Some {
            let (x, y, z) = (next_on(a)->0, next_on(b)->0, next_on(c)->0);
            lemma_text_total(z, y);
            if text_lt(x, y) {
                lemma_text_swap(x, y, z);
            }
        }
    }
}

/// Rules with a payment to come stand first, by its day and then by name; the others follow by name.
pub proof fn law_rules_stand_by_their_next_payment(rows: Seq<RuleReview>, i: int, j: int)
    requires
        0 <= i < j < rows.len(),
    ensures
        ({
            let a = ranked(rows)[i];
            let b = ranked(rows)[j];
            &&& next_on(b) is Some ==> next_on(a) is Some && !text_lt(next_on(b)->0, next_on(a)->0)
            &&& next_on(a) == next_on(b) ==> !text_lt(b.sort_name@, a.sort_name@)
        }),
{
    lemma_reviews_order();
    law_ranking_keeps_everything_and_orders_it(rows);
    assert(!ranked(rows)[j].before(&ranked(rows)[i]));
}

} // verus!
