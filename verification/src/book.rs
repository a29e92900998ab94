//! The rows of a book that the rules are decided on.

use crate::money::Minor;
use crate::text::str_eq;
use vstd::prelude::*;

verus! {

broadcast use vstd::string::group_string_axioms;

/// An account, as the book holds it.
#[derive(Debug, Clone)]
pub struct Account {
    pub id: i64,
    pub name: String,
    pub kind: String,
    pub currency: String,
    /// Written by the core alone: the accounts that conversions go through.
    pub system: bool,
    pub closed: bool,
}

/// One posting of a payment: an account, the currency it holds, and the amount.
#[derive(Debug, Clone)]
pub struct Leg {
    pub account_id: i64,
    pub currency: String,
    pub amount_minor: Minor,
}

/// A leg's content.
pub struct LegView {
    pub account_id: i64,
    pub currency: Seq<char>,
    pub amount_minor: int,
}

impl View for Leg {
    type V = LegView;

    open spec fn view(&self) -> LegView {
        LegView {
            account_id: self.account_id,
            currency: self.currency@,
            amount_minor: self.amount_minor as int,
        }
    }
}

/// The contents of a list of legs.
pub open spec fn leg_views(legs: Seq<Leg>) -> Seq<LegView> {
    legs.map_values(|l: Leg| l@)
}

/// What the legs in one currency come to.
pub open spec fn net_in(legs: Seq<LegView>, currency: Seq<char>) -> int
    decreases legs.len(),
{
    if legs.len() == 0 {
        0
    } else {
        net_in(legs.drop_last(), currency) + (if legs.last().currency == currency {
            legs.last().amount_minor
        } else {
            0
        })
    }
}

/// Whether the legs come to nothing in every currency.
pub open spec fn balanced(legs: Seq<LegView>) -> bool {
    forall|c: Seq<char>| #[trigger] net_in(legs, c) == 0
}

/// The place of the first account with this id, or the number of accounts where there is none.
pub open spec fn place_of(accounts: Seq<Account>, id: i64) -> int
    decreases accounts.len(),
{
    if accounts.len() == 0 {
        0
    } else if accounts[0].id == id {
        0
    } else {
        1 + place_of(accounts.drop_first(), id)
    }
}

/// Whether an account with this id is in the book.
pub open spec fn known(accounts: Seq<Account>, id: i64) -> bool {
    place_of(accounts, id) < accounts.len()
}

/// The account with this id.
pub open spec fn account_of(accounts: Seq<Account>, id: i64) -> Account {
    accounts[place_of(accounts, id)]
}

pub proof fn lemma_place_of(accounts: Seq<Account>, id: i64, i: int)
    requires
        0 <= i <= accounts.len(),
        forall|j: int| 0 <= j < i ==> (#[trigger] accounts[j]).id != id,
        i < accounts.len() ==> accounts[i].id == id,
    ensures
        place_of(accounts, id) == i,
    decreases i,
{
    if i > 0 {
        assert(accounts[0].id != id);
        assert forall|j: int| 0 <= j < i - 1 implies (#[trigger] accounts.drop_first()[j]).id
            != id by {
            assert(accounts[j + 1].id != id);
        }
        lemma_place_of(accounts.drop_first(), id, i - 1);
    }
}

/// The account with this id is one of the accounts, and has the id.
pub proof fn lemma_known(accounts: Seq<Account>, id: i64)
    ensures
        0 <= place_of(accounts, id) <= accounts.len(),
        known(accounts, id) ==> account_of(accounts, id).id == id,
        known(accounts, id) <==> exists|i: int|
            0 <= i < accounts.len() && (#[trigger] accounts[i]).id == id,
    decreases accounts.len(),
{
    if accounts.len() > 0 {
        let rest = accounts.drop_first();
        lemma_known(rest, id);
        if accounts[0].id != id {
            if known(rest, id) {
                let i = choose|i: int| 0 <= i < rest.len() && (#[trigger] rest[i]).id == id;
                assert(accounts[i + 1].id == id);
            }
            if exists|i: int| 0 <= i < accounts.len() && (#[trigger] accounts[i]).id == id {
                let i = choose|i: int| 0 <= i < accounts.len() && (#[trigger] accounts[i]).id == id;
                assert(rest[i - 1].id == id);
            }
        }
    }
}

/// The account with this id, by its place.
pub fn find(accounts: &Vec<Account>, id: i64) -> (r: Option<usize>)
    ensures
        match r {
            Some(i) => known(accounts@, id) && i == place_of(accounts@, id) && i < accounts@.len(),
            None => !known(accounts@, id),
        },
{
    let mut i: usize = 0;
    while i < accounts.len()
        invariant
            i <= accounts@.len(),
            forall|j: int| 0 <= j < i ==> (#[trigger] accounts@[j]).id != id,
        decreases accounts@.len() - i,
    {
        if accounts[i].id == id {
            proof {
                lemma_place_of(accounts@, id, i as int);
            }
            return Some(i);
        }
        i = i + 1;
    }
    proof {
        lemma_place_of(accounts@, id, i as int);
    }
    None
}

/// A copy of a leg.
pub fn copy_leg(l: &Leg) -> (r: Leg)
    ensures
        r@ == l@,
{
    Leg {
        account_id: l.account_id,
        currency: l.currency.clone(),
        amount_minor: l.amount_minor,
    }
}

/// Whether two lists hold the same legs in the same order.
pub fn same_legs(a: &Vec<Leg>, b: &Vec<Leg>) -> (r: bool)
    ensures
        r == (leg_views(a@) == leg_views(b@)),
{
    if a.len() != b.len() {
        assert(leg_views(a@).len() != leg_views(b@).len());
        return false;
    }
    let mut i: usize = 0;
    while i < a.len()
        invariant
            a@.len() == b@.len(),
            i <= a@.len(),
            forall|j: int| 0 <= j < i ==> (#[trigger] a@[j])@ == b@[j]@,
        decreases a@.len() - i,
    {
        if a[i].account_id != b[i].account_id || a[i].amount_minor != b[i].amount_minor || !str_eq(
            a[i].currency.as_str(),
            b[i].currency.as_str(),
        ) {
            assert(leg_views(a@)[i as int] != leg_views(b@)[i as int]);
            return false;
        }
        i = i + 1;
    }
    assert(leg_views(a@) =~= leg_views(b@));
    true
}

} // verus!
