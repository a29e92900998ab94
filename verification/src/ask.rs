//! Reading a request to edit a recurring payment, or to undo a change of one. Malformed input is
//! refused before anything is looked up, even where nothing would be written.

use crate::date::{read_day, Date};
use crate::revise::{
    all_whole, is_refusal, left_out, opt_bool, opt_date, opt_ints, Param, Patch, Refusal,
};
use crate::text::{str_eq, trim, trimmed};
use crate::wording::{bad, EditError};
use vstd::prelude::*;

verus! {

broadcast use vstd::string::group_string_axioms;

/// The values of a request to edit a recurring payment, as they were handed over.
#[derive(Debug, Clone)]
pub struct RawEdit {
    pub id: Param,
    pub as_of: Param,
    pub mode: Param,
    pub from_on: Param,
    pub description: Param,
    pub rrule: Param,
    pub weekend_rule: Param,
    pub dtstart: Param,
    pub until_on: Param,
    pub route: Param,
    pub amounts: Param,
    pub amends: Param,
    pub drop_overrides: Param,
    pub acknowledge_due: Param,
    pub dry_run: Param,
}

/// A request to edit a recurring payment.
#[derive(Debug)]
pub struct AskedEdit {
    pub id: i64,
    pub as_of: Date,
    /// What is to change; it has a day to apply from only where the change is from a date.
    pub patch: Patch,
    /// Whether single amended payments that carry the old price follow the new one.
    pub follow: bool,
    pub drop_overrides: bool,
    pub acknowledge_due: bool,
    pub dry_run: bool,
}

/// The values of a request to undo a change.
#[derive(Debug, Clone)]
pub struct RawUndo {
    pub id: Param,
    pub as_of: Param,
    pub acknowledge_due: Param,
    pub dry_run: Param,
}

/// A request to undo a change.
#[derive(Debug, Clone, Copy)]
pub struct AskedUndo {
    pub id: i64,
    pub as_of: Date,
    pub acknowledge_due: bool,
    pub dry_run: bool,
}

/// The day a value names.
pub open spec fn day_in(p: Param) -> Option<int> {
    match p {
        Param::Text(t) => read_day(t@, "%Y-%m-%d"@),
        _ => None,
    }
}

/// Whether a value is given and names no day.
pub open spec fn bad_day(p: Param) -> bool {
    !left_out(p) && day_in(p) is None
}

/// Whether a value is given and is not text.
pub open spec fn bad_text(p: Param) -> bool {
    !left_out(p) && !(p is Text)
}

/// Whether a value is given and is not a list of whole numbers.
pub open spec fn bad_ints(p: Param) -> bool {
    !left_out(p) && !(p matches Param::List(v) && all_whole(v@))
}

/// Whether a value is given and is neither true nor false.
pub open spec fn bad_flag(p: Param) -> bool {
    !left_out(p) && !(p is Bool)
}

/// What a value says, something else where it is not text.
pub open spec fn said_or(p: Param, other: Seq<char>) -> Seq<char> {
    match p {
        Param::Text(t) => t@,
        _ => other,
    }
}

/// The refusal of a request for what it says.
pub open spec fn malformed(message: Seq<char>) -> Option<Refusal> {
    Some(("bad_params"@, message))
}

/// Why the flags of a request are refused.
pub open spec fn flags_refusal(acknowledge_due: Param, dry_run: Param) -> Option<Refusal> {
    if bad_flag(acknowledge_due) {
        malformed("acknowledge_due"@ + " must be true or false"@)
    } else if bad_flag(dry_run) {
        malformed("dry_run"@ + " must be true or false"@)
    } else {
        None
    }
}

/// Why a request to edit is refused for what it asks to change.
pub open spec fn patch_refusal(q: RawEdit) -> Option<Refusal> {
    if bad_text(q.description) {
        malformed("description must be text"@)
    } else if bad_text(q.rrule) {
        malformed("rrule must be text"@)
    } else if bad_text(q.weekend_rule) {
        malformed("weekend_rule must be text"@)
    } else if bad_day(q.dtstart) {
        malformed("dtstart"@ + " must be YYYY-MM-DD"@)
    } else if bad_day(q.until_on) {
        malformed("until_on"@ + " must be YYYY-MM-DD"@)
    } else if bad_ints(q.route) {
        malformed("route"@ + " must be a list of whole numbers"@)
    } else if bad_ints(q.amounts) {
        malformed("amounts"@ + " must be a list of whole numbers"@)
    } else {
        None
    }
}

/// Why a request to edit is refused as it stands.
pub open spec fn edit_refusal(q: RawEdit) -> Option<Refusal> {
    let mode = said_or(q.mode, "whole"@);
    let amends = said_or(q.amends, "keep"@);
    if !(q.id is Int) {
        malformed("id must be a whole number"@)
    } else if day_in(q.as_of) is None {
        malformed("as_of"@ + " must be YYYY-MM-DD"@)
    } else if mode != "whole"@ && mode != "from"@ {
        malformed("mode must be whole or from"@)
    } else if bad_day(q.from_on) {
        malformed("from_on"@ + " must be YYYY-MM-DD"@)
    } else if mode == "from"@ && left_out(q.from_on) {
        malformed("a change from a date needs from_on"@)
    } else if patch_refusal(q) is Some {
        patch_refusal(q)
    } else if amends != "keep"@ && amends != "follow"@ {
        malformed("amends must be keep or follow"@)
    } else if bad_flag(q.drop_overrides) {
        malformed("drop_overrides"@ + " must be true or false"@)
    } else {
        flags_refusal(q.acknowledge_due, q.dry_run)
    }
}

/// Why a request to undo is refused as it stands.
pub open spec fn undo_ask_refusal(q: RawUndo) -> Option<Refusal> {
    if !(q.id is Int) {
        malformed("id must be a whole number"@)
    } else if day_in(q.as_of) is None {
        malformed("as_of"@ + " must be YYYY-MM-DD"@)
    } else {
        flags_refusal(q.acknowledge_due, q.dry_run)
    }
}

/// Whether a day is the one a value names, if it is given.
pub open spec fn is_day_asked(d: Option<Date>, p: Param) -> bool {
    match d {
        Some(x) => !left_out(p) && day_in(p) == Some(x.days as int) && x.in_range(),
        None => left_out(p),
    }
}

/// Whether a list is the one a value holds, if it is given.
pub open spec fn is_list_asked(v: Option<Vec<i64>>, p: Param) -> bool {
    match v {
        Some(x) => p matches Param::List(items) && x@.len() == items@.len() && forall|i: int|
            0 <= i < x@.len() ==> Some(#[trigger] x@[i]) == items@[i],
        None => left_out(p),
    }
}

/// Whether a text is the one a value holds, with the blanks around it gone or not.
pub open spec fn is_text_asked(t: Option<String>, p: Param, trims: bool) -> bool {
    match t {
        Some(x) => p matches Param::Text(s) && x@ == (if trims {
            trimmed(s@)
        } else {
            s@
        }),
        None => left_out(p),
    }
}

/// Whether a patch is what a request asks to change. An end that is left out is kept, one given as
/// nothing is cleared.
pub open spec fn is_patch_asked(p: Patch, q: RawEdit) -> bool {
    &&& is_text_asked(p.description, q.description, true)
    &&& is_text_asked(p.rrule, q.rrule, true)
    &&& is_text_asked(p.weekend_rule, q.weekend_rule, false)
    &&& is_day_asked(p.dtstart, q.dtstart)
    &&& match p.until_on {
        None => q.until_on is Absent,
        Some(end) => !(q.until_on is Absent) && is_day_asked(end, q.until_on),
    }
    &&& is_list_asked(p.route, q.route)
    &&& is_list_asked(p.amounts, q.amounts)
    &&& if said_or(q.mode, "whole"@) == "from"@ {
        p.from_on is Some && is_day_asked(p.from_on, q.from_on)
    } else {
        p.from_on is None
    }
}

/// Whether a flag is set.
pub open spec fn is_set(p: Param) -> bool {
    p == Param::Bool(true)
}

/// Whether a request to edit is what was handed over.
pub open spec fn is_edit_asked(a: AskedEdit, q: RawEdit) -> bool {
    &&& q.id == Param::Int(a.id)
    &&& day_in(q.as_of) == Some(a.as_of.days as int) && a.as_of.in_range()
    &&& is_patch_asked(a.patch, q)
    &&& a.follow == (said_or(q.amends, "keep"@) == "follow"@)
    &&& a.drop_overrides == is_set(q.drop_overrides)
    &&& a.acknowledge_due == is_set(q.acknowledge_due)
    &&& a.dry_run == is_set(q.dry_run)
}

/// Whether a request to undo is what was handed over.
pub open spec fn is_undo_asked(a: AskedUndo, q: RawUndo) -> bool {
    &&& q.id == Param::Int(a.id)
    &&& day_in(q.as_of) == Some(a.as_of.days as int) && a.as_of.in_range()
    &&& a.acknowledge_due == is_set(q.acknowledge_due)
    &&& a.dry_run == is_set(q.dry_run)
}

fn opt_text(p: &Param, refusal: &str, trims: bool) -> (r: Result<Option<String>, EditError>)
    ensures
        match r {
            Ok(t) => !bad_text(*p) && is_text_asked(t, *p, trims),
            Err(e) => bad_text(*p) && is_refusal(e, ("bad_params"@, refusal@)),
        },
{
    match p {
        Param::Absent => Ok(None),
        Param::Null => Ok(None),
        Param::Text(t) => if trims {
            Ok(Some(trim(t.as_str())))
        } else {
            Ok(Some(t.clone()))
        },
        _ => Err(bad(refusal)),
    }
}

/// Whether a value says one of two words rather than the other.
fn either(p: &Param, usual: &str, other: &str, refusal: &str) -> (r: Result<bool, EditError>)
    requires
        usual@ != other@,
    ensures
        match r {
            Ok(b) => (said_or(*p, usual@) == usual@ || said_or(*p, usual@) == other@) && b == (
            said_or(*p, usual@) == other@),
            Err(e) => said_or(*p, usual@) != usual@ && said_or(*p, usual@) != other@
                && is_refusal(e, ("bad_params"@, refusal@)),
        },
{
    match p {
        Param::Text(t) => {
            if str_eq(t.as_str(), usual) {
                Ok(false)
            } else if str_eq(t.as_str(), other) {
                Ok(true)
            } else {
                Err(bad(refusal))
            }
        },
        _ => Ok(false),
    }
}

fn need_id(p: &Param) -> (r: Result<i64, EditError>)
    ensures
        match r {
            Ok(n) => *p == Param::Int(n),
            Err(e) => !(*p is Int) && is_refusal(
                e,
                ("bad_params"@, "id must be a whole number"@),
            ),
        },
{
    match p {
        Param::Int(n) => Ok(*n),
        _ => Err(bad("id must be a whole number")),
    }
}

fn need_day(p: &Param) -> (r: Result<Date, EditError>)
    ensures
        match r {
            Ok(d) => day_in(*p) == Some(d.days as int) && d.in_range(),
            Err(e) => day_in(*p) is None && is_refusal(
                e,
                ("bad_params"@, "as_of"@ + " must be YYYY-MM-DD"@),
            ),
        },
{
    match opt_date(p, "as_of") {
        Ok(Some(d)) => Ok(d),
        Ok(None) => {
            proof {
                reveal_strlit("as_of");
                reveal_strlit(" must be YYYY-MM-DD");
                reveal_strlit("as_of must be YYYY-MM-DD");
            }
            assert("as_of"@ + " must be YYYY-MM-DD"@ =~= "as_of must be YYYY-MM-DD"@);
            Err(bad("as_of must be YYYY-MM-DD"))
        },
        Err(e) => Err(e),
    }
}

fn read_patch(q: &RawEdit, from_on: Option<Date>) -> (r: Result<Patch, EditError>)
    requires
        if said_or(q.mode, "whole"@) == "from"@ {
            from_on is Some && is_day_asked(from_on, q.from_on)
        } else {
            from_on is None
        },
    ensures
        match r {
            Ok(p) => patch_refusal(*q) is None && is_patch_asked(p, *q),
            Err(e) => patch_refusal(*q) matches Some(why) && is_refusal(e, why),
        },
{
    let description = opt_text(&q.description, "description must be text", true)?;
    let rrule = opt_text(&q.rrule, "rrule must be text", true)?;
    let weekend_rule = opt_text(&q.weekend_rule, "weekend_rule must be text", false)?;
    let dtstart = opt_date(&q.dtstart, "dtstart")?;
    let end = opt_date(&q.until_on, "until_on")?;
    let until_on = match q.until_on {
        Param::Absent => None,
        _ => Some(end),
    };
    let route = opt_ints(&q.route, "route")?;
    let amounts = opt_ints(&q.amounts, "amounts")?;
    Ok(Patch { description, rrule, weekend_rule, dtstart, until_on, route, amounts, from_on })
}

/// Read a request to edit a recurring payment.
pub fn read_edit(q: &RawEdit) -> (r: Result<AskedEdit, EditError>)
    ensures
        match edit_refusal(*q) {
            Some(why) => r matches Err(e) && is_refusal(e, why),
            None => r matches Ok(a) && is_edit_asked(a, *q),
        },
{
    proof {
        reveal_strlit("whole");
        reveal_strlit("from");
        reveal_strlit("keep");
        reveal_strlit("follow");
        assert("whole"@.len() != "from"@.len());
        assert("keep"@.len() != "follow"@.len());
    }
    let id: i64 = need_id(&q.id)?;
    let as_of = need_day(&q.as_of)?;
    let from = either(&q.mode, "whole", "from", "mode must be whole or from")?;
    let day = opt_date(&q.from_on, "from_on")?;
    if from && day.is_none() {
        return Err(bad("a change from a date needs from_on"));
    }
    let from_on = if from {
        day
    } else {
        None
    };
    let patch = read_patch(q, from_on)?;
    let follow = either(&q.amends, "keep", "follow", "amends must be keep or follow")?;
    let drop_overrides = opt_bool(&q.drop_overrides, "drop_overrides")?;
    let acknowledge_due = opt_bool(&q.acknowledge_due, "acknowledge_due")?;
    let dry_run = opt_bool(&q.dry_run, "dry_run")?;
    Ok(AskedEdit { id, as_of, patch, follow, drop_overrides, acknowledge_due, dry_run })
}

/// Read a request to undo a change.
pub fn read_undo(q: &RawUndo) -> (r: Result<AskedUndo, EditError>)
    ensures
        match undo_ask_refusal(*q) {
            Some(why) => r matches Err(e) && is_refusal(e, why),
            None => r matches Ok(a) && is_undo_asked(a, *q),
        },
{
    let id: i64 = need_id(&q.id)?;
    let as_of = need_day(&q.as_of)?;
    let acknowledge_due = opt_bool(&q.acknowledge_due, "acknowledge_due")?;
    let dry_run = opt_bool(&q.dry_run, "dry_run")?;
    Ok(AskedUndo { id, as_of, acknowledge_due, dry_run })
}

/// A request that does not ask for a dry run in so many words is never taken for one, and one that
/// asks for it unclearly is refused rather than carried out.
pub proof fn law_a_dry_run_is_never_guessed(a: AskedEdit, q: RawEdit)
    requires
        edit_refusal(q) is None,
        is_edit_asked(a, q),
    ensures
        a.dry_run <==> q.dry_run == Param::Bool(true),
        !a.dry_run ==> q.dry_run == Param::Bool(false) || left_out(q.dry_run),
{
}

/// How a request to change a rule is settled once its writes are made.
#[derive(Debug, Clone, Copy, PartialEq, Eq, Structural)]
pub enum Settled {
    /// Nothing stays: it was only asked about.
    RollBack,
    /// Nothing stays, and the refusal is the answer.
    Refuse,
    /// What was written stays.
    Commit,
}

/// How a request is settled. A dry run keeps nothing and is told of a refusal as data; what is
/// refused keeps nothing and is answered with the refusal.
pub fn settle(dry_run: bool, refused: bool) -> (r: Settled)
    ensures
        r is RollBack <==> dry_run,
        r is Refuse <==> !dry_run && refused,
        r is Commit <==> !dry_run && !refused,
{
    if dry_run {
        Settled::RollBack
    } else if refused {
        Settled::Refuse
    } else {
        Settled::Commit
    }
}

} // verus!
