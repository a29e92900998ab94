//! Which part of a rule an edit is of, and the edit itself.

use crate::book::Account;
use crate::digits::{int_digits, int_text};
use crate::lists::{first, lemma_first};
use crate::revise::{is_refusal, Edit, Patch, Refusal, Terms};
use crate::rules::{
    are_parts, contains_row, find_rule, has_row, in_bounds, is_cancel, newest_first, only_cancels,
    place_lists, places, rule_of, Hop,
};
use crate::shape::{is_shape, shape_of};
use crate::wording::{dmy, fail, said, EditError};
use vstd::prelude::*;

verus! {

broadcast use vstd::string::group_string_axioms;

/// A what-if.
#[derive(Debug, Clone)]
pub struct WhatIf {
    pub id: i64,
    pub name: String,
}

/// Whether the row at a place has an id.
pub open spec fn is_row(hops: Seq<Hop>, id: i64) -> spec_fn(int) -> bool {
    |i: int| hops[i].id == id
}

/// The name of a row, nothing where there is no such row.
pub open spec fn row_name(hops: Seq<Hop>, id: Option<i64>) -> Seq<char> {
    match id {
        Some(id) => {
            let k = first(hops.len() as int, is_row(hops, id));
            if k < hops.len() {
                hops[k].description@
            } else {
                Seq::empty()
            }
        },
        None => Seq::empty(),
    }
}

/// Whether the what-if at a place has an id.
pub open spec fn is_what_if(all: Seq<WhatIf>, id: i64) -> spec_fn(int) -> bool {
    |i: int| all[i].id == id
}

/// The name of a what-if, nothing where there is no such one.
pub open spec fn what_if_name(all: Seq<WhatIf>, id: Option<i64>) -> Seq<char> {
    match id {
        Some(id) => {
            let k = first(all.len() as int, is_what_if(all, id));
            if k < all.len() {
                all[k].name@
            } else {
                Seq::empty()
            }
        },
        None => Seq::empty(),
    }
}

fn name_of_row(hops: &Vec<Hop>, named: Option<i64>) -> (r: String)
    ensures
        r@ == row_name(hops@, named),
{
    let id: i64 = match named {
        Some(id) => id,
        None => return String::new(),
    };
    let mut i: usize = 0;
    while i < hops.len()
        invariant
            i <= hops@.len(),
            named == Some(id),
            forall|j: int| 0 <= j < i ==> !#[trigger] is_row(hops@, id)(j),
        decreases hops@.len() - i,
    {
        if hops[i].id == id {
            proof {
                lemma_first(hops@.len() as int, is_row(hops@, id), i as int);
            }
            return hops[i].description.clone();
        }
        i = i + 1;
    }
    proof {
        lemma_first(hops@.len() as int, is_row(hops@, id), i as int);
    }
    String::new()
}

/// The name of a what-if, nothing where there is no such one.
pub fn name_of_what_if(all: &Vec<WhatIf>, named: Option<i64>) -> (r: String)
    ensures
        r@ == what_if_name(all@, named),
{
    let id: i64 = match named {
        Some(id) => id,
        None => return String::new(),
    };
    let mut i: usize = 0;
    while i < all.len()
        invariant
            i <= all@.len(),
            named == Some(id),
            forall|j: int| 0 <= j < i ==> !#[trigger] is_what_if(all@, id)(j),
        decreases all@.len() - i,
    {
        if all[i].id == id {
            proof {
                lemma_first(all@.len() as int, is_what_if(all@, id), i as int);
            }
            return all[i].name.clone();
        }
        i = i + 1;
    }
    proof {
        lemma_first(all@.len() as int, is_what_if(all@, id), i as int);
    }
    String::new()
}

/// What is said of a row that is not there.
pub open spec fn no_such_rule(id: i64) -> Refusal {
    ("not_found"@, "no such recurring payment: "@ + int_digits(id as int))
}

/// What is said of a row that is not there.
pub fn say_no_such_rule(id: i64) -> (r: EditError)
    ensures
        is_refusal(r, no_such_rule(id)),
{
    let mut m = "no such recurring payment: ".to_string();
    let n = int_text(id as i128);
    m.append(n.as_str());
    fail("not_found", m)
}

/// Why a row cannot be edited: there is none, it is of an older part, it only cancels another inside
/// a what-if, or it is of a what-if and the edit is from a date.
pub open spec fn selection_refusal(hops: Seq<Hop>, what_ifs: Seq<WhatIf>, id: i64, from: bool) -> Option<
    Refusal,
> {
    match rule_of(hops, id) {
        None => Some(no_such_rule(id)),
        Some(parts) => {
            let h = newest_first(hops, parts);
            if !has_row(hops, parts.last(), id) {
                Some(
                    (
                        "not_latest"@,
                        h.description@ + " changed on "@ + said(h.dtstart.days as int)
                            + ": edit its newest part, or undo that change first"@,
                    ),
                )
            } else if only_cancels(hops, parts.last()) {
                Some(
                    (
                        "not_editable"@,
                        "this row only cancels "@ + row_name(hops, h.supersedes_id)
                            + " inside the what-if “"@ + what_if_name(what_ifs, h.scenario_id)
                            + "”; it has nothing to edit"@,
                    ),
                )
            } else if from && h.scenario_id is Some {
                Some(
                    (
                        "not_editable"@,
                        "a what-if has no recorded history to keep, so it is changed as a whole"@,
                    ),
                )
            } else {
                None
            }
        },
    }
}

/// The parts of the rule that an edit is of, oldest first, or why it cannot be edited. `from` says
/// whether the edit is from a date.
pub fn select(hops: &Vec<Hop>, what_ifs: &Vec<WhatIf>, id: i64, from: bool) -> (r: Result<
    Vec<Vec<usize>>,
    EditError,
>)
    ensures
        match selection_refusal(hops@, what_ifs@, id, from) {
            Some(why) => r matches Err(e) && is_refusal(e, why),
            None => r matches Ok(v) && rule_of(hops@, id) == Some(place_lists(v@)) && v@.len() > 0
                && are_parts(place_lists(v@), hops@.len() as int),
        },
{
    let parts = match find_rule(hops, id) {
        Some(p) => p,
        None => return Err(say_no_such_rule(id)),
    };
    let n: usize = parts.len();
    let ghost all = place_lists(parts@);
    assert(all[n - 1] == places(parts@[n - 1]@));
    assert(all.last() == places(parts@[n - 1]@));
    assert(all[n - 1][0] == parts@[n - 1]@[0]);
    let l = &parts[n - 1];
    let h = &hops[l[0]];
    if !contains_row(hops, l, id) {
        let mut m = h.description.clone();
        m.append(" changed on ");
        let on = dmy(h.dtstart);
        m.append(on.as_str());
        m.append(": edit its newest part, or undo that change first");
        return Err(fail("not_latest", m));
    }
    if is_cancel(hops, l) {
        let target = name_of_row(hops, h.supersedes_id);
        let what_if = name_of_what_if(what_ifs, h.scenario_id);
        let mut m = "this row only cancels ".to_string();
        m.append(target.as_str());
        m.append(" inside the what-if “");
        m.append(what_if.as_str());
        m.append("”; it has nothing to edit");
        return Err(fail("not_editable", m));
    }
    if from && h.scenario_id.is_some() {
        return Err(
            fail(
                "not_editable",
                "a what-if has no recorded history to keep, so it is changed as a whole".to_string(),
            ),
        );
    }
    Ok(parts)
}

/// The accounts of a part's legs, hop by hop.
pub open spec fn leg_accounts(hops: Seq<Hop>, part: Seq<int>) -> Seq<i64>
    decreases part.len(),
{
    if part.len() == 0 {
        Seq::empty()
    } else {
        leg_accounts(hops, part.drop_last()) + hops[part.last()].legs@.map_values(
            |l: crate::rules::HopLeg| l.account_id,
        )
    }
}

/// The accounts of a part's legs, hop by hop.
pub fn collect_leg_accounts(hops: &Vec<Hop>, part: &Vec<usize>) -> (r: Vec<i64>)
    requires
        in_bounds(places(part@), hops@.len() as int),
    ensures
        r@ == leg_accounts(hops@, places(part@)),
{
    let ghost all = places(part@);
    let mut out: Vec<i64> = Vec::new();
    let mut i: usize = 0;
    assert(all.take(0) =~= Seq::<int>::empty());
    while i < part.len()
        invariant
            i <= part@.len(),
            all == places(part@),
            in_bounds(all, hops@.len() as int),
            out@ == leg_accounts(hops@, all.take(i as int)),
        decreases part@.len() - i,
    {
        assert(all[i as int] == part@[i as int]);
        assert(all.take(i + 1).drop_last() =~= all.take(i as int));
        let h = &hops[part[i]];
        let ghost so_far = out@;
        let ghost own = h.legs@.map_values(|l: crate::rules::HopLeg| l.account_id);
        let mut k: usize = 0;
        assert(own.take(0) =~= Seq::<i64>::empty());
        while k < h.legs.len()
            invariant
                k <= h.legs@.len(),
                own == h.legs@.map_values(|l: crate::rules::HopLeg| l.account_id),
                out@ == so_far + own.take(k as int),
            decreases h.legs@.len() - k,
        {
            assert(own.take(k + 1) =~= own.take(k as int).push(own[k as int]));
            out.push(h.legs[k].account_id);
            k = k + 1;
        }
        assert(own.take(own.len() as int) =~= own);
        i = i + 1;
    }
    assert(all.take(all.len() as int) =~= all);
    out
}

/// Whether terms are those of a part of some shape.
pub open spec fn are_terms(t: Terms, h: Hop, route: Seq<i64>, amounts: Seq<i64>) -> bool {
    &&& t.description@ == h.description@
    &&& t.rrule@ == h.rrule@
    &&& t.dtstart == h.dtstart
    &&& t.until_on == h.until_on
    &&& t.weekend_rule@ == h.weekend_rule@
    &&& t.route@ == route
    &&& t.amounts@ == amounts
}

/// Whether an edit is that of the newest part of a rule.
pub open spec fn is_edit(
    e: Edit,
    hops: Seq<Hop>,
    parts: Seq<Seq<int>>,
    patch: Patch,
    accounts: Seq<Account>,
) -> bool {
    &&& is_shape(e.shape, hops, parts.last())
    &&& are_terms(e.before, newest_first(hops, parts), e.shape.route@, e.shape.magnitudes@)
    &&& e.hops == parts.last().len()
    &&& e.leg_accounts@ == leg_accounts(hops, parts.last())
    &&& e.earlier == (if parts.len() >= 2 {
        Some(hops[parts[parts.len() - 2][0]].until_on)
    } else {
        None
    })
    &&& e.patch == patch
    &&& e.accounts@ == accounts
}

fn copy_ids(v: &Vec<i64>) -> (r: Vec<i64>)
    ensures
        r@ == v@,
{
    let mut out: Vec<i64> = Vec::new();
    let mut i: usize = 0;
    while i < v.len()
        invariant
            i <= v@.len(),
            out@ == v@.take(i as int),
        decreases v@.len() - i,
    {
        assert(v@.take(i + 1) =~= v@.take(i as int).push(v@[i as int]));
        out.push(v[i]);
        i = i + 1;
    }
    assert(v@.take(v@.len() as int) =~= v@);
    out
}

/// The edit that a patch makes of the newest part of a rule.
pub fn edit_of(hops: &Vec<Hop>, parts: &Vec<Vec<usize>>, patch: Patch, accounts: Vec<Account>) -> (r:
    Edit)
    requires
        parts@.len() > 0,
        are_parts(place_lists(parts@), hops@.len() as int),
    ensures
        is_edit(r, hops@, place_lists(parts@), patch, accounts@),
{
    let n: usize = parts.len();
    let ghost all = place_lists(parts@);
    assert(all[n - 1] == places(parts@[n - 1]@));
    assert(all[n - 1][0] == parts@[n - 1]@[0]);
    let l = &parts[n - 1];
    let h = &hops[l[0]];
    let shape = shape_of(hops, l);
    let earlier = if n >= 2 {
        assert(all[n - 2] == places(parts@[n - 2]@));
        assert(all[n - 2][0] == parts@[n - 2]@[0]);
        Some(hops[parts[n - 2][0]].until_on)
    } else {
        None
    };
    let before = Terms {
        description: h.description.clone(),
        rrule: h.rrule.clone(),
        dtstart: h.dtstart,
        until_on: h.until_on,
        weekend_rule: h.weekend_rule.clone(),
        route: copy_ids(&shape.route),
        amounts: copy_ids(&shape.magnitudes),
    };
    Edit {
        before,
        hops: l.len(),
        leg_accounts: collect_leg_accounts(hops, l),
        earlier,
        patch,
        accounts,
        shape,
    }
}

} // verus!
