//! An edit of a recurring payment from the request to what is written: which part it is of, the terms
//! it comes to, and what it does to the payments recorded and the adjustments made under it.

use crate::amends::{
    amends, dormant, follow_views, following, is_cut_adjustment, is_cut_off, keep_views, keeping,
    Amends, Dormant,
};
use crate::book::Account;
use crate::date::Date;
use crate::marks::{adjustments_of, copy_adjustment, pick_adjustments};
use crate::paths::holds;
use crate::recur::Recurrence;
use crate::reschedule::{
    adjusted_days, affects, claim_days, days_where, effects, effects_fit, is_from, no_effects,
    Adjustment, Claim, Effects,
};
use crate::revise::{
    days_fit, is_refusal, plain_refusal, plan, plans, template_refusal, Edit, Patch, Plan,
};
use crate::rules::{are_parts, ids_of, part_rows, place_lists, places, rule_of, Hop};
use crate::select::{edit_of, is_edit, select, selection_refusal, WhatIf};
use crate::shape::lemma_shape_len;
use crate::standing::{claims_of, pick_claims};
use crate::wording::EditError;
use vstd::prelude::*;

verus! {

broadcast use vstd::string::group_string_axioms;

/// The adjustments on some days, or on the others.
pub open spec fn on_days(rows: Seq<Adjustment>, days: Seq<i64>, among: bool) -> Seq<Adjustment>
    decreases rows.len(),
{
    if rows.len() == 0 {
        rows
    } else if days.contains(rows.last().occurrence_on.days as i64) == among {
        on_days(rows.drop_last(), days, among).push(rows.last())
    } else {
        on_days(rows.drop_last(), days, among)
    }
}

fn pick_days(rows: &Vec<Adjustment>, days: &Vec<i64>, among: bool) -> (r: Vec<Adjustment>)
    ensures
        r@ == on_days(rows@, days@, among),
{
    let mut out: Vec<Adjustment> = Vec::new();
    let mut i: usize = 0;
    assert(rows@.take(0) =~= Seq::<Adjustment>::empty());
    while i < rows.len()
        invariant
            i <= rows@.len(),
            out@ == on_days(rows@.take(i as int), days@, among),
        decreases rows@.len() - i,
    {
        assert(rows@.take(i + 1).drop_last() =~= rows@.take(i as int));
        if holds(days, rows[i].occurrence_on.days as i64) == among {
            out.push(copy_adjustment(&rows[i]));
        }
        i = i + 1;
    }
    assert(rows@.take(rows@.len() as int) =~= rows@);
    out
}

/// The adjustments that the part keeps which an edit writes its price to: of a split those carried to
/// the new part, of an edit in place those not dropped.
pub open spec fn kept_rows(rows: Seq<Adjustment>, split: bool, x: Effects) -> Seq<Adjustment> {
    if split {
        on_days(rows, x.carried@, true)
    } else {
        on_days(rows, x.dropped@, false)
    }
}

/// What an edit comes to.
pub struct Revision {
    /// The parts of the rule, oldest first; the edit is of the last.
    pub parts: Vec<Vec<usize>>,
    pub edit: Edit,
    pub plan: Plan,
    pub effects: Effects,
    pub amends: Amends,
    pub dormant: Dormant,
    /// What is recorded and adjusted under the part.
    pub claims: Vec<Claim>,
    pub adjustments: Vec<Adjustment>,
}

/// What an edit is made from.
pub struct Request {
    pub id: i64,
    pub patch: Patch,
    /// The earliest day that a forecast still looks at.
    pub lookback: Date,
}

/// What an edit reads from the book.
pub struct RuleBook {
    pub hops: Vec<Hop>,
    pub what_ifs: Vec<WhatIf>,
    pub accounts: Vec<Account>,
    pub claims: Vec<Claim>,
    pub adjustments: Vec<Adjustment>,
}

/// Whether every day that rows and a patch speak of lies in the supported range.
pub open spec fn request_fits(hops: Seq<Hop>, p: Patch) -> bool {
    &&& forall|i: int|
        0 <= i < hops.len() ==> (#[trigger] hops[i]).dtstart.in_range() && (hops[i].until_on
            matches Some(u) ==> u.in_range())
    &&& p.dtstart matches Some(d) ==> d.in_range()
    &&& p.until_on matches Some(Some(u)) ==> u.in_range()
    &&& p.from_on matches Some(f) ==> f.in_range()
}

/// Whether a revision does nothing to payments or adjustments.
pub open spec fn is_quiet(v: Revision) -> bool {
    &&& no_effects(v.effects)
    &&& v.amends.follow@.len() == 0
    &&& v.amends.keep@.len() == 0
    &&& v.dormant.recorded@.len() == 0
    &&& v.dormant.adjusted@.len() == 0
}

/// Whether the amended payments of a revision are those of its part: considered only where the price
/// changes.
pub open spec fn shows_amends(v: Revision, ids: Seq<i64>, lookback: Date) -> bool {
    let rows = kept_rows(v.adjustments@, v.plan.start.split, v.effects);
    let days = days_where(adjusted_days(rows), is_from(lookback.days as i64));
    if v.plan.amounts_changed {
        &&& follow_views(v.amends.follow@) == following(rows, ids, v.edit.before.amounts@, days)
        &&& keep_views(v.amends.keep@) == keeping(rows, ids, v.edit.before.amounts@, days)
    } else {
        v.amends.follow@.len() == 0 && v.amends.keep@.len() == 0
    }
}

/// Whether what a revision's end cuts off is what it shows.
pub open spec fn shows_dormant(v: Revision) -> bool {
    let end = v.plan.after.until_on;
    let was = v.edit.before.until_on;
    &&& v.dormant.recorded@ == days_where(claim_days(v.claims@), is_cut_off(end, was))
    &&& v.dormant.adjusted@ == days_where(
        adjusted_days(v.adjustments@),
        is_cut_adjustment(end, was, v.effects.dropped@),
    )
}

/// Whether a revision is what an edit comes to.
pub open spec fn is_revision<R: Recurrence>(v: Revision, recur: R, b: RuleBook, q: Request) -> bool {
    let parts = place_lists(v.parts@);
    let ids = part_rows(b.hops@, parts.last());
    &&& selection_refusal(b.hops@, b.what_ifs@, q.id, q.patch.from_on is Some) is None
    &&& rule_of(b.hops@, q.id) == Some(parts)
    &&& is_edit(v.edit, b.hops@, parts, q.patch, b.accounts@)
    &&& plans(recur, v.edit, Ok(v.plan))
    &&& v.claims@ == claims_of(b.claims@, ids)
    &&& v.adjustments@ == adjustments_of(b.adjustments@, ids)
    &&& if v.plan.changed@.len() == 0 {
        is_quiet(v)
    } else {
        &&& affects(
            recur,
            v.edit.before,
            v.plan,
            q.patch.from_on,
            v.claims@,
            v.adjustments@,
            q.lookback,
            Ok(v.effects),
        )
        &&& shows_amends(v, ids, q.lookback)
        &&& shows_dormant(v)
    }
}

/// Whether an error is why an edit is refused before anything is written: the row cannot be edited,
/// the terms are refused, or the new rule does not expand over the days that payments and adjustments
/// are on.
pub open spec fn is_revise_error<R: Recurrence>(e: EditError, recur: R, b: RuleBook, q: Request) -> bool {
    match selection_refusal(b.hops@, b.what_ifs@, q.id, q.patch.from_on is Some) {
        Some(why) => is_refusal(e, why),
        None => exists|edit: Edit|
            #![trigger refuses_edit(e, recur, edit, b, q)]
            is_edit(edit, b.hops@, rule_of(b.hops@, q.id)->0, q.patch, b.accounts@)
                && refuses_edit(e, recur, edit, b, q),
    }
}

/// Whether an edit that a row allows is refused so.
pub open spec fn refuses_edit<R: Recurrence>(
    e: EditError,
    recur: R,
    edit: Edit,
    b: RuleBook,
    q: Request,
) -> bool {
    let ids = part_rows(b.hops@, (rule_of(b.hops@, q.id)->0).last());
    ||| plans(recur, edit, Err(e))
    ||| exists|p: Plan|
        #![trigger plans(recur, edit, Ok(p))]
        plans(recur, edit, Ok(p)) && affects(
            recur,
            edit.before,
            p,
            q.patch.from_on,
            claims_of(b.claims@, ids),
            adjustments_of(b.adjustments@, ids),
            q.lookback,
            Err(e),
        )
}

fn copy_accounts(v: &Vec<Account>) -> (r: Vec<Account>)
    ensures
        r@ == v@,
{
    let mut out: Vec<Account> = Vec::new();
    let mut i: usize = 0;
    while i < v.len()
        invariant
            i <= v@.len(),
            out@ == v@.take(i as int),
        decreases v@.len() - i,
    {
        let a = &v[i];
        let c = Account {
            id: a.id,
            name: a.name.clone(),
            kind: a.kind.clone(),
            currency: a.currency.clone(),
            system: a.system,
            closed: a.closed,
        };
        assert(c == v@[i as int]);
        assert(v@.take(i + 1) =~= v@.take(i as int).push(c));
        out.push(c);
        i = i + 1;
    }
    assert(v@.take(v@.len() as int) =~= v@);
    out
}

proof fn lemma_edit_fits(e: Edit, hops: Seq<Hop>, parts: Seq<Seq<int>>, p: Patch, accounts: Seq<Account>)
    requires
        is_edit(e, hops, parts, p, accounts),
        request_fits(hops, p),
        parts.len() > 0,
        are_parts(parts, hops.len() as int),
    ensures
        days_fit(e),
{
    assert(parts.last() == parts[parts.len() - 1]);
    assert(hops[parts.last()[0]].dtstart.in_range());
    if parts.len() >= 2 {
        assert(hops[parts[parts.len() - 2][0]].dtstart.in_range());
    }
}

/// A price can only be changed on the ordinary shape.
proof fn lemma_price<R: Recurrence>(recur: R, e: Edit, p: Plan)
    requires
        plans(recur, e, Ok(p)),
        p.amounts_changed,
    ensures
        e.shape.two_leg,
{
    assert(plain_refusal(e) is None);
    assert(template_refusal(e) is None);
    assert(e.patch.amounts is Some);
}

/// What an edit of a recurring payment comes to, or why it is refused. Where nothing would change,
/// nothing is done to payments or adjustments.
pub fn revise<R: Recurrence>(recur: &R, b: &RuleBook, q: Request) -> (r: Result<
    Revision,
    EditError,
>)
    requires
        request_fits(b.hops@, q.patch),
    ensures
        match r {
            Ok(v) => is_revision(v, *recur, *b, q) && effects_fit(v.effects),
            Err(e) => is_revise_error(e, *recur, *b, q),
        },
{
    let parts = match select(&b.hops, &b.what_ifs, q.id, q.patch.from_on.is_some()) {
        Ok(p) => p,
        Err(e) => return Err(e),
    };
    let n: usize = parts.len();
    let ghost all = place_lists(parts@);
    assert(all[n - 1] == places(parts@[n - 1]@));
    assert(all.last() == places(parts@[n - 1]@));
    let ids = ids_of(&b.hops, &parts[n - 1]);
    let own_claims = pick_claims(&b.claims, &ids);
    let own_adjs = pick_adjustments(&b.adjustments, &ids);
    let lookback = q.lookback;
    let from_on = q.patch.from_on;
    let accounts = copy_accounts(&b.accounts);
    let edit = edit_of(&b.hops, &parts, q.patch, accounts);
    proof {
        lemma_edit_fits(edit, b.hops@, all, q.patch, b.accounts@);
    }
    let p = match plan(recur, &edit) {
        Ok(p) => p,
        Err(e) => {
            assert(refuses_edit(e, *recur, edit, *b, q));
            return Err(e);
        },
    };
    if p.changed.len() == 0 {
        let v = Revision {
            parts,
            edit,
            plan: p,
            effects: crate::reschedule::nothing(),
            amends: Amends { follow: Vec::new(), keep: Vec::new() },
            dormant: Dormant { recorded: Vec::new(), adjusted: Vec::new() },
            claims: own_claims,
            adjustments: own_adjs,
        };
        return Ok(v);
    }
    let x = match effects(recur, &edit.before, &p, from_on, &own_claims, &own_adjs, lookback) {
        Ok(x) => x,
        Err(e) => {
            assert(plans(*recur, edit, Ok(p)));
            assert(refuses_edit(e, *recur, edit, *b, q));
            return Err(e);
        },
    };
    let found = if p.amounts_changed {
        let rows = if p.start.split {
            pick_days(&own_adjs, &x.carried, true)
        } else {
            pick_days(&own_adjs, &x.dropped, false)
        };
        proof {
            lemma_price(*recur, edit, p);
            lemma_shape_len(edit.shape, b.hops@, all.last());
        }
        amends(&rows, &ids, &edit.before.amounts, lookback)
    } else {
        Amends { follow: Vec::new(), keep: Vec::new() }
    };
    let cut = dormant(
        &own_claims,
        &own_adjs,
        &x.dropped,
        p.after.until_on,
        edit.before.until_on,
    );
    Ok(
        Revision {
            parts,
            edit,
            plan: p,
            effects: x,
            amends: found,
            dormant: cut,
            claims: own_claims,
            adjustments: own_adjs,
        },
    )
}

} // verus!
