//! The ordinary shape of a recurring payment: every hop exactly one primary and one balancing leg of
//! equal and opposite amounts in one currency, and a chain's hops joined end to end.
//!
//! Only this shape can have its amounts and accounts edited, because only this shape is what a form
//! can show; anything else is edited in its name, schedule and end alone.

use crate::lists::{first, lemma_first, lemma_first_is};
use crate::money::Minor;
use crate::rules::{in_bounds, places, Hop, HopLeg};
use crate::text::str_eq;
use vstd::prelude::*;

verus! {

broadcast use vstd::string::group_string_axioms;

/// Whether the leg at a place has a role.
pub open spec fn has_role(legs: Seq<HopLeg>, role: Seq<char>) -> spec_fn(int) -> bool {
    |i: int| legs[i].role@ == role
}

/// The place of the first leg with a role, or the number of legs.
pub open spec fn role_place(legs: Seq<HopLeg>, role: Seq<char>) -> int {
    first(legs.len() as int, has_role(legs, role))
}

/// The place of the first leg with a role.
pub fn find_role(legs: &Vec<HopLeg>, role: &str) -> (r: Option<usize>)
    ensures
        match r {
            Some(i) => i < legs@.len() && role_place(legs@, role@) == i,
            None => role_place(legs@, role@) == legs@.len(),
        },
{
    let mut i: usize = 0;
    while i < legs.len()
        invariant
            i <= legs@.len(),
            forall|j: int| 0 <= j < i ==> !#[trigger] has_role(legs@, role@)(j),
        decreases legs@.len() - i,
    {
        if str_eq(legs[i].role.as_str(), role) {
            proof {
                lemma_first(legs@.len() as int, has_role(legs@, role@), i as int);
            }
            return Some(i);
        }
        i = i + 1;
    }
    proof {
        lemma_first(legs@.len() as int, has_role(legs@, role@), i as int);
    }
    None
}

/// What a hop of the ordinary shape moves.
#[derive(Debug, Clone, Copy, PartialEq, Eq, Structural)]
pub struct Move {
    pub from: i64,
    pub to: i64,
    pub magnitude: Minor,
    /// Whether money leaves the primary account.
    pub negative: bool,
}

/// What a hop moves, if it is of the ordinary shape in a currency.
pub open spec fn hop_move(legs: Seq<HopLeg>, currency: Seq<char>) -> Option<Move> {
    let p = role_place(legs, "primary"@);
    let b = role_place(legs, "balancing"@);
    if legs.len() == 2 && p < 2 && b < 2 && legs[p].amount_minor != 0 && legs[p].amount_minor
        + legs[b].amount_minor == 0 && legs[p].currency@ == legs[b].currency@ && legs[p].currency@
        == currency {
        let neg = legs[p].amount_minor < 0;
        Some(
            Move {
                from: if neg {
                    legs[p].account_id
                } else {
                    legs[b].account_id
                },
                to: if neg {
                    legs[b].account_id
                } else {
                    legs[p].account_id
                },
                magnitude: if neg {
                    legs[b].amount_minor
                } else {
                    legs[p].amount_minor
                },
                negative: neg,
            },
        )
    } else {
        None
    }
}

fn move_of(legs: &Vec<HopLeg>, currency: &str) -> (r: Option<Move>)
    ensures
        r == hop_move(legs@, currency@),
{
    proof {
        lemma_first_is(legs@.len() as int, has_role(legs@, "primary"@));
        lemma_first_is(legs@.len() as int, has_role(legs@, "balancing"@));
    }
    match (find_role(legs, "primary"), find_role(legs, "balancing")) {
        (Some(p), Some(b)) => {
            if legs.len() == 2 && legs[p].amount_minor != 0 && legs[p].amount_minor as i128
                + legs[b].amount_minor as i128 == 0 && str_eq(
                legs[p].currency.as_str(),
                legs[b].currency.as_str(),
            ) && str_eq(legs[p].currency.as_str(), currency) {
                if legs[p].amount_minor < 0 {
                    Some(
                        Move {
                            from: legs[p].account_id,
                            to: legs[b].account_id,
                            magnitude: legs[b].amount_minor,
                            negative: true,
                        },
                    )
                } else {
                    Some(
                        Move {
                            from: legs[b].account_id,
                            to: legs[p].account_id,
                            magnitude: legs[p].amount_minor,
                            negative: false,
                        },
                    )
                }
            } else {
                None
            }
        },
        _ => None,
    }
}

/// Whether the hop at a place of a part has legs.
pub open spec fn has_legs(hops: Seq<Hop>, part: Seq<int>) -> spec_fn(int) -> bool {
    |k: int| hops[part[k]].legs@.len() > 0
}

/// The currency of a part: that of its first leg.
pub open spec fn part_currency(hops: Seq<Hop>, part: Seq<int>) -> Seq<char> {
    let k = first(part.len() as int, has_legs(hops, part));
    if k < part.len() {
        hops[part[k]].legs@[0].currency@
    } else {
        Seq::empty()
    }
}

/// What the hops of a part move, if all of them are of the ordinary shape and joined end to end.
pub open spec fn moves_upto(hops: Seq<Hop>, part: Seq<int>, currency: Seq<char>, n: int) -> Option<
    Seq<Move>,
>
    decreases n,
{
    if n <= 0 {
        Some(Seq::empty())
    } else {
        match (
            moves_upto(hops, part, currency, n - 1),
            hop_move(hops[part[n - 1]].legs@, currency),
        ) {
            (Some(rest), Some(m)) => if n == 1 || rest.last().to == m.from {
                Some(rest.push(m))
            } else {
                None
            },
            _ => None,
        }
    }
}

/// The accounts that moves pass through, from where the money starts to where it ends.
pub open spec fn route_of(moves: Seq<Move>) -> Seq<i64> {
    if moves.len() == 0 {
        Seq::empty()
    } else {
        seq![moves[0].from] + moves.map_values(|m: Move| m.to)
    }
}

/// The amounts of moves.
pub open spec fn amounts_of(moves: Seq<Move>) -> Seq<i64> {
    moves.map_values(|m: Move| m.magnitude)
}

/// The shape of a part.
#[derive(Debug, Clone)]
pub struct Shape {
    /// Whether it is the ordinary one.
    pub two_leg: bool,
    /// From where the money starts, through each stop, to where it ends.
    pub route: Vec<i64>,
    /// One positive amount per hop.
    pub magnitudes: Vec<Minor>,
    /// Per hop: whether money leaves the primary account.
    pub negative: Vec<bool>,
    pub currency: String,
}

/// Whether a shape is that of a part.
pub open spec fn is_shape(s: Shape, hops: Seq<Hop>, part: Seq<int>) -> bool {
    let currency = part_currency(hops, part);
    let moves = moves_upto(hops, part, currency, part.len() as int);
    &&& s.currency@ == currency
    &&& s.two_leg == (part.len() > 0 && moves is Some)
    &&& s.route@ == (match moves {
        Some(m) => route_of(m),
        None => Seq::empty(),
    })
    &&& s.magnitudes@ == (match moves {
        Some(m) => amounts_of(m),
        None => Seq::empty(),
    })
    &&& s.negative@ == (match moves {
        Some(m) => m.map_values(|x: Move| x.negative),
        None => Seq::empty(),
    })
}

fn currency_of(hops: &Vec<Hop>, part: &Vec<usize>) -> (r: String)
    requires
        in_bounds(places(part@), hops@.len() as int),
    ensures
        r@ == part_currency(hops@, places(part@)),
{
    let ghost own = places(part@);
    let mut k: usize = 0;
    while k < part.len()
        invariant
            k <= part@.len(),
            own == places(part@),
            in_bounds(own, hops@.len() as int),
            forall|j: int| 0 <= j < k ==> !#[trigger] has_legs(hops@, own)(j),
        decreases part@.len() - k,
    {
        assert(own[k as int] == part@[k as int]);
        if hops[part[k]].legs.len() > 0 {
            proof {
                lemma_first(own.len() as int, has_legs(hops@, own), k as int);
            }
            return hops[part[k]].legs[0].currency.clone();
        }
        k = k + 1;
    }
    proof {
        lemma_first(own.len() as int, has_legs(hops@, own), k as int);
    }
    String::new()
}

fn no_shape(currency: String) -> (r: Shape)
    ensures
        !r.two_leg && r.route@ == Seq::<i64>::empty() && r.magnitudes@ == Seq::<i64>::empty()
            && r.negative@ == Seq::<bool>::empty() && r.currency@ == currency@,
{
    Shape {
        two_leg: false,
        route: Vec::new(),
        magnitudes: Vec::new(),
        negative: Vec::new(),
        currency,
    }
}

proof fn lemma_moves_none(hops: Seq<Hop>, part: Seq<int>, currency: Seq<char>, k: int, n: int)
    requires
        0 <= k <= n,
        moves_upto(hops, part, currency, k) is None,
    ensures
        moves_upto(hops, part, currency, n) is None,
    decreases n - k,
{
    if k < n {
        lemma_moves_none(hops, part, currency, k, n - 1);
    }
}

proof fn lemma_moves_len(hops: Seq<Hop>, part: Seq<int>, currency: Seq<char>, n: int)
    requires
        n >= 0,
        moves_upto(hops, part, currency, n) is Some,
    ensures
        moves_upto(hops, part, currency, n)->0.len() == n,
    decreases n,
{
    if n > 0 {
        lemma_moves_len(hops, part, currency, n - 1);
    }
}

/// A part of the ordinary shape has one amount per hop.
pub proof fn lemma_shape_len(s: Shape, hops: Seq<Hop>, part: Seq<int>)
    requires
        is_shape(s, hops, part),
        s.two_leg,
    ensures
        s.magnitudes@.len() == part.len(),
{
    lemma_moves_len(hops, part, part_currency(hops, part), part.len() as int);
}

/// The shape of a part.
pub fn shape_of(hops: &Vec<Hop>, part: &Vec<usize>) -> (r: Shape)
    requires
        in_bounds(places(part@), hops@.len() as int),
    ensures
        is_shape(r, hops@, places(part@)),
{
    let ghost own = places(part@);
    let currency = currency_of(hops, part);
    if part.len() == 0 {
        let ghost none = Seq::<Move>::empty();
        assert(amounts_of(none) =~= Seq::<i64>::empty());
        assert(none.map_values(|x: Move| x.negative) =~= Seq::<bool>::empty());
        return no_shape(currency);
    }
    let mut moves: Vec<Move> = Vec::new();
    let mut k: usize = 0;
    while k < part.len()
        invariant
            k <= part@.len(),
            own == places(part@),
            in_bounds(own, hops@.len() as int),
            currency@ == part_currency(hops@, own),
            moves@.len() == k,
            moves_upto(hops@, own, currency@, k as int) == Some(moves@),
        decreases part@.len() - k,
    {
        assert(own[k as int] == part@[k as int]);
        match move_of(&hops[part[k]].legs, currency.as_str()) {
            Some(m) => {
                if k == 0 || moves[k - 1].to == m.from {
                    moves.push(m);
                } else {
                    proof {
                        lemma_moves_none(hops@, own, currency@, k + 1, own.len() as int);
                    }
                    return no_shape(currency);
                }
            },
            None => {
                proof {
                    lemma_moves_none(hops@, own, currency@, k + 1, own.len() as int);
                }
                return no_shape(currency);
            },
        }
        k = k + 1;
    }
    let mut route: Vec<i64> = Vec::new();
    let mut magnitudes: Vec<i64> = Vec::new();
    let mut negative: Vec<bool> = Vec::new();
    route.push(moves[0].from);
    let ghost all = moves@;
    let mut i: usize = 0;
    while i < moves.len()
        invariant
            i <= moves@.len(),
            all == moves@,
            all.len() > 0,
            route@ =~= seq![all[0].from] + all.take(i as int).map_values(|m: Move| m.to),
            magnitudes@ =~= all.take(i as int).map_values(|m: Move| m.magnitude),
            negative@ =~= all.take(i as int).map_values(|x: Move| x.negative),
        decreases moves@.len() - i,
    {
        route.push(moves[i].to);
        magnitudes.push(moves[i].magnitude);
        negative.push(moves[i].negative);
        i = i + 1;
    }
    assert(all.take(all.len() as int) =~= all);
    Shape { two_leg: true, route, magnitudes, negative, currency }
}

/// The two legs of a hop.
#[derive(Debug, Clone, Copy, PartialEq, Eq, Structural)]
pub struct MoneyLegs {
    pub primary_account: i64,
    pub primary_minor: Minor,
    pub balancing_account: i64,
    pub balancing_minor: Minor,
}

/// The legs of a hop that moves an amount from one account to the next, its direction kept: the
/// primary leg stays on the side money leaves when it did before, so that moving a rent to another
/// account never turns it into income.
pub open spec fn legs_for(negative: bool, from: i64, to: i64, amount: int) -> (i64, int, i64, int) {
    if negative {
        (from, -amount, to, amount)
    } else {
        (to, amount, from, -amount)
    }
}

/// Whether legs are those of a hop.
pub open spec fn are_legs_for(l: MoneyLegs, negative: bool, from: i64, to: i64, amount: int) -> bool {
    (
        l.primary_account,
        l.primary_minor as int,
        l.balancing_account,
        l.balancing_minor as int,
    ) == legs_for(negative, from, to, amount)
}

/// A part's legs from a route and one amount per hop, keeping each hop's direction.
pub fn write_money(shape: &Shape, route: &Vec<i64>, amounts: &Vec<Minor>) -> (r: Vec<MoneyLegs>)
    requires
        route@.len() == amounts@.len() + 1,
        shape.negative@.len() == amounts@.len(),
        forall|k: int| 0 <= k < amounts@.len() ==> #[trigger] amounts@[k] > 0,
    ensures
        r@.len() == amounts@.len(),
        forall|k: int|
            0 <= k < r@.len() ==> are_legs_for(
                #[trigger] r@[k],
                shape.negative@[k],
                route@[k],
                route@[k + 1],
                amounts@[k] as int,
            ),
{
    let mut out: Vec<MoneyLegs> = Vec::new();
    let mut k: usize = 0;
    while k < amounts.len()
        invariant
            k <= amounts@.len(),
            route@.len() == amounts@.len() + 1,
            shape.negative@.len() == amounts@.len(),
            forall|j: int| 0 <= j < amounts@.len() ==> #[trigger] amounts@[j] > 0,
            out@.len() == k,
            forall|j: int|
                0 <= j < k ==> are_legs_for(
                    #[trigger] out@[j],
                    shape.negative@[j],
                    route@[j],
                    route@[j + 1],
                    amounts@[j] as int,
                ),
        decreases amounts@.len() - k,
    {
        let m: i64 = amounts[k];
        assert(amounts@[k as int] > 0);
        let l = if shape.negative[k] {
            MoneyLegs {
                primary_account: route[k],
                primary_minor: -m,
                balancing_account: route[k + 1],
                balancing_minor: m,
            }
        } else {
            MoneyLegs {
                primary_account: route[k + 1],
                primary_minor: m,
                balancing_account: route[k],
                balancing_minor: -m,
            }
        };
        out.push(l);
        k = k + 1;
    }
    out
}

/// The legs written for a hop come to nothing, and money leaves the primary account exactly where it
/// did before.
pub proof fn law_a_hops_direction_is_kept(negative: bool, from: i64, to: i64, amount: int)
    requires
        amount > 0,
    ensures
        legs_for(negative, from, to, amount).1 + legs_for(negative, from, to, amount).3 == 0,
        legs_for(negative, from, to, amount).1 < 0 <==> negative,
{
}

/// A hop written for a route is of the ordinary shape, and moves what it was written to move.
pub proof fn law_written_money_reads_back(
    legs: Seq<HopLeg>,
    l: MoneyLegs,
    negative: bool,
    from: i64,
    to: i64,
    amount: i64,
    currency: Seq<char>,
)
    requires
        amount > 0,
        are_legs_for(l, negative, from, to, amount as int),
        legs.len() == 2,
        legs[0].role@ == "primary"@,
        legs[1].role@ == "balancing"@,
        legs[0].account_id == l.primary_account,
        legs[0].amount_minor == l.primary_minor,
        legs[1].account_id == l.balancing_account,
        legs[1].amount_minor == l.balancing_minor,
        legs[0].currency@ == currency,
        legs[1].currency@ == currency,
    ensures
        hop_move(legs, currency) == Some(Move { from, to, magnitude: amount, negative }),
{
    reveal_strlit("primary");
    reveal_strlit("balancing");
    assert("primary"@.len() != "balancing"@.len());
    assert(has_role(legs, "primary"@)(0));
    lemma_first(2, has_role(legs, "primary"@), 0);
    assert(!has_role(legs, "balancing"@)(0));
    assert(has_role(legs, "balancing"@)(1));
    lemma_first(2, has_role(legs, "balancing"@), 1);
}

} // verus!
