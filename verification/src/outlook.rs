//! The forward view, reduced to the three things anyone actually asks a forecast: how low does it
//! get, when, and does it go under.

use crate::book::Account;
use crate::forecast::{point_views, BalancePoint, PointView};
use crate::lists::{first, lemma_first, lemma_first_is};
use crate::money::Minor;
use crate::text::{opt_view, put_text, str_eq, views, with_text};
use vstd::prelude::*;

verus! {

broadcast use vstd::string::group_string_axioms;

/// The kind of the account with a name, of those that are not the core's own.
pub open spec fn kind_named(accounts: Seq<Account>, name: Seq<char>) -> Option<Seq<char>>
    decreases accounts.len(),
{
    if accounts.len() == 0 {
        None
    } else if !accounts.last().system && accounts.last().name@ == name {
        Some(accounts.last().kind@)
    } else {
        kind_named(accounts.drop_last(), name)
    }
}

/// Whether an account is one whose balance is worth following.
pub open spec fn followed(accounts: Seq<Account>, name: Seq<char>) -> bool {
    kind_named(accounts, name) == Some("asset"@) || kind_named(accounts, name) == Some(
        "liability"@,
    )
}

fn is_followed(accounts: &Vec<Account>, name: &str) -> (r: bool)
    ensures
        r == followed(accounts@, name@),
{
    let mut n: usize = accounts.len();
    assert(accounts@.take(accounts@.len() as int) =~= accounts@);
    while n > 0
        invariant
            n <= accounts@.len(),
            kind_named(accounts@, name@) == kind_named(accounts@.take(n as int), name@),
        decreases n,
    {
        assert(accounts@.take(n as int).drop_last() =~= accounts@.take(n - 1));
        assert(accounts@.take(n as int).last() == accounts@[n - 1]);
        let a = &accounts[n - 1];
        if !a.system && str_eq(a.name.as_str(), name) {
            return str_eq(a.kind.as_str(), "asset") || str_eq(a.kind.as_str(), "liability");
        }
        n = n - 1;
    }
    false
}

/// The names of the accounts followed that balances are given for, in order.
pub open spec fn names_in(accounts: Seq<Account>, points: Seq<PointView>) -> Seq<Seq<char>>
    decreases points.len(),
{
    if points.len() == 0 {
        Seq::empty()
    } else {
        let rest = names_in(accounts, points.drop_last());
        if followed(accounts, points.last().account) {
            with_text(rest, points.last().account)
        } else {
            rest
        }
    }
}

/// The balances of an account, in order.
pub open spec fn points_of(points: Seq<PointView>, name: Seq<char>) -> Seq<PointView>
    decreases points.len(),
{
    if points.len() == 0 {
        points
    } else {
        let rest = points_of(points.drop_last(), name);
        if points.last().account == name {
            rest.push(points.last())
        } else {
            rest
        }
    }
}

/// The place of the lowest balance, the first of those that are.
pub open spec fn lowest(points: Seq<PointView>) -> int
    decreases points.len(),
{
    if points.len() <= 1 {
        0
    } else {
        let low = lowest(points.drop_last());
        if points.last().balance < points[low].balance {
            points.len() - 1
        } else {
            low
        }
    }
}

/// Whether the balance at a place is under nothing.
pub open spec fn is_under(points: Seq<PointView>) -> spec_fn(int) -> bool {
    |i: int| points[i].balance < 0
}

/// What becomes of an account.
#[derive(Debug, Clone)]
pub struct Track {
    pub account: String,
    pub currency: String,
    pub lowest_minor: Minor,
    pub lowest_on: String,
    pub closing_minor: Minor,
    pub closing_on: String,
    pub first_negative_on: Option<String>,
}

/// What becomes of an account, in content.
pub struct TrackView {
    pub account: Seq<char>,
    pub currency: Seq<char>,
    pub lowest: int,
    pub lowest_on: Seq<char>,
    pub closing: int,
    pub closing_on: Seq<char>,
    pub first_negative_on: Option<Seq<char>>,
}

impl View for Track {
    type V = TrackView;

    open spec fn view(&self) -> TrackView {
        TrackView {
            account: self.account@,
            currency: self.currency@,
            lowest: self.lowest_minor as int,
            lowest_on: self.lowest_on@,
            closing: self.closing_minor as int,
            closing_on: self.closing_on@,
            first_negative_on: opt_view(self.first_negative_on),
        }
    }
}

/// The contents of tracks.
pub open spec fn track_views(v: Seq<Track>) -> Seq<TrackView> {
    v.map_values(|t: Track| t@)
}

/// What the balances of an account say of it.
pub open spec fn track_of(name: Seq<char>, own: Seq<PointView>) -> TrackView {
    let low = own[lowest(own)];
    let under = first(own.len() as int, is_under(own));
    TrackView {
        account: name,
        currency: own[0].currency,
        lowest: low.balance,
        lowest_on: low.on,
        closing: own.last().balance,
        closing_on: own.last().on,
        first_negative_on: if under < own.len() {
            Some(own[under].on)
        } else {
            None
        },
    }
}

/// What becomes of the accounts followed.
pub open spec fn tracks(accounts: Seq<Account>, points: Seq<PointView>) -> Seq<TrackView> {
    names_in(accounts, points).map_values(|n: Seq<char>| track_of(n, points_of(points, n)))
}

/// The forward view.
#[derive(Debug, Clone)]
pub struct Outlook {
    pub accounts: Vec<Track>,
    pub goes_negative: bool,
}

/// Whether any account followed goes under.
pub open spec fn some_go_under(t: Seq<TrackView>) -> bool {
    exists|i: int| 0 <= i < t.len() && (#[trigger] t[i]).first_negative_on is Some
}

proof fn lemma_points_of(points: Seq<PointView>, name: Seq<char>)
    ensures
        points_of(points, name).len() > 0 <==> exists|i: int|
            0 <= i < points.len() && (#[trigger] points[i]).account == name,
    decreases points.len(),
{
    if points.len() > 0 {
        let rest = points.drop_last();
        lemma_points_of(rest, name);
        if exists|i: int| 0 <= i < rest.len() && (#[trigger] rest[i]).account == name {
            let i = choose|i: int| 0 <= i < rest.len() && (#[trigger] rest[i]).account == name;
            assert(points[i].account == name);
        }
        if points.last().account == name {
            assert(points[points.len() - 1].account == name);
        }
        if exists|i: int| 0 <= i < points.len() && (#[trigger] points[i]).account == name {
            let i = choose|i: int| 0 <= i < points.len() && (#[trigger] points[i]).account == name;
            if i < points.len() - 1 {
                assert(rest[i].account == name);
            }
        }
    }
}

proof fn lemma_names_in(accounts: Seq<Account>, points: Seq<PointView>, name: Seq<char>)
    ensures
        names_in(accounts, points).contains(name) <==> followed(accounts, name) && points_of(
            points,
            name,
        ).len() > 0,
    decreases points.len(),
{
    if points.len() > 0 {
        let rest = points.drop_last();
        lemma_names_in(accounts, rest, name);
        crate::text::lemma_with_text(names_in(accounts, rest), points.last().account, name);
    }
}

fn follow(points: &Vec<BalancePoint>, name: &str) -> (r: Track)
    requires
        points_of(point_views(points@), name@).len() > 0,
    ensures
        r@ == track_of(name@, points_of(point_views(points@), name@)),
{
    let ghost all = point_views(points@);
    let ghost own = points_of(all, name@);
    let mut head: Option<usize> = None;
    let mut low: usize = 0;
    let mut last: usize = 0;
    let mut under: Option<usize> = None;
    let mut i: usize = 0;
    assert(all.take(0) =~= Seq::<PointView>::empty());
    while i < points.len()
        invariant
            i <= points@.len(),
            all == point_views(points@),
            ({
                let part = points_of(all.take(i as int), name@);
                match head {
                    None => part.len() == 0 && under is None,
                    Some(h) => h < i && low < i && last < i && part.len() > 0 && all[h as int]
                        == part[0] && all[low as int] == part[lowest(part)] && 0 <= lowest(part)
                        < part.len() && all[last as int] == part.last() && match under {
                        Some(u) => u < i && {
                            let k = first(part.len() as int, is_under(part));
                            k < part.len() && all[u as int] == part[k]
                        },
                        None => first(part.len() as int, is_under(part)) == part.len(),
                    },
                }
            }),
        decreases points@.len() - i,
    {
        let ghost part = points_of(all.take(i as int), name@);
        let ghost more = points_of(all.take(i + 1), name@);
        proof {
            assert(all.take(i + 1).drop_last() =~= all.take(i as int));
            assert(all.take(i + 1).last() == points@[i as int]@);
        }
        let p = &points[i];
        if str_eq(p.account.as_str(), name) {
            proof {
                assert(more == part.push(p@));
                assert(more.drop_last() =~= part);
                lemma_first_is(part.len() as int, is_under(part));
                let k = first(part.len() as int, is_under(part));
                assert forall|j: int| 0 <= j < k implies !#[trigger] is_under(more)(j) by {
                    assert(!is_under(part)(j));
                }
                if k < part.len() {
                    assert(is_under(part)(k));
                    lemma_first(more.len() as int, is_under(more), k);
                } else if p@.balance < 0 {
                    lemma_first(more.len() as int, is_under(more), k);
                } else {
                    assert(!is_under(more)(k));
                    lemma_first(more.len() as int, is_under(more), k + 1);
                }
            }
            if head.is_none() {
                head = Some(i);
                low = i;
            } else if p.balance_minor < points[low].balance_minor {
                low = i;
            }
            last = i;
            if p.balance_minor < 0 && under.is_none() {
                under = Some(i);
            }
        }
        i = i + 1;
    }
    assert(all.take(all.len() as int) =~= all);
    let h: usize = match head {
        Some(h) => h,
        None => 0,
    };
    let first_negative_on = match under {
        Some(u) => Some(points[u].on.clone()),
        None => None,
    };
    Track {
        account: name.to_string(),
        currency: points[h].currency.clone(),
        lowest_minor: points[low].balance_minor,
        lowest_on: points[low].on.clone(),
        closing_minor: points[last].balance_minor,
        closing_on: points[last].on.clone(),
        first_negative_on,
    }
}

/// What becomes of the accounts that hold money, from the balances of a projection. An account with
/// no projected movement is absent: nothing is scheduled for it.
pub fn outlook(accounts: &Vec<Account>, points: &Vec<BalancePoint>) -> (r: Outlook)
    ensures
        track_views(r.accounts@) == tracks(accounts@, point_views(points@)),
        r.goes_negative == some_go_under(track_views(r.accounts@)),
{
    let ghost all = point_views(points@);
    let mut names: Vec<String> = Vec::new();
    let mut i: usize = 0;
    assert(all.take(0) =~= Seq::<PointView>::empty());
    assert(views(names@) =~= Seq::<Seq<char>>::empty());
    while i < points.len()
        invariant
            i <= points@.len(),
            all == point_views(points@),
            views(names@) == names_in(accounts@, all.take(i as int)),
        decreases points@.len() - i,
    {
        assert(all.take(i + 1).drop_last() =~= all.take(i as int));
        assert(all.take(i + 1).last() == points@[i as int]@);
        if is_followed(accounts, points[i].account.as_str()) {
            put_text(&mut names, points[i].account.as_str());
        }
        i = i + 1;
    }
    assert(all.take(all.len() as int) =~= all);
    let ghost want = tracks(accounts@, all);
    let mut rows: Vec<Track> = Vec::new();
    let mut goes_negative = false;
    let mut n: usize = 0;
    while n < names.len()
        invariant
            n <= names@.len(),
            all == point_views(points@),
            views(names@) == names_in(accounts@, all),
            want == tracks(accounts@, all),
            track_views(rows@) =~= want.take(n as int),
            goes_negative == some_go_under(track_views(rows@)),
        decreases names@.len() - n,
    {
        proof {
            assert(views(names@)[n as int] == names@[n as int]@);
            assert(names_in(accounts@, all).contains(names@[n as int]@));
            lemma_names_in(accounts@, all, names@[n as int]@);
        }
        let t = follow(points, names[n].as_str());
        let ghost before = track_views(rows@);
        assert(track_views(rows@.push(t)) =~= before.push(t@));
        if t.first_negative_on.is_some() {
            assert(before.push(t@)[n as int].first_negative_on is Some);
            goes_negative = true;
        }
        proof {
            let now = before.push(t@);
            if some_go_under(before) {
                let w = choose|w: int|
                    0 <= w < before.len() && (#[trigger] before[w]).first_negative_on is Some;
                assert(now[w].first_negative_on is Some);
            }
            if some_go_under(now) && t@.first_negative_on is None {
                let w = choose|w: int|
                    0 <= w < now.len() && (#[trigger] now[w]).first_negative_on is Some;
                assert(before[w].first_negative_on is Some);
            }
        }
        rows.push(t);
        n = n + 1;
    }
    assert(want.take(want.len() as int) =~= want);
    Outlook { accounts: rows, goes_negative }
}

/// The lowest balance is one the account reaches, nothing it reaches is lower, and it was not as low
/// before.
pub proof fn law_the_low_point_is_the_first_of_the_lowest(own: Seq<PointView>)
    requires
        own.len() > 0,
    ensures
        0 <= lowest(own) < own.len(),
        forall|i: int| 0 <= i < own.len() ==> own[lowest(own)].balance <= (#[trigger] own[i]).balance,
        forall|i: int|
            0 <= i < lowest(own) ==> own[lowest(own)].balance < (#[trigger] own[i]).balance,
    decreases own.len(),
{
    if own.len() > 1 {
        let rest = own.drop_last();
        law_the_low_point_is_the_first_of_the_lowest(rest);
        let low = lowest(rest);
        assert(own[low] == rest[low]);
        assert forall|i: int| 0 <= i < own.len() implies own[lowest(own)].balance <= (
        #[trigger] own[i]).balance by {
            if i < rest.len() {
                assert(own[i] == rest[i]);
            }
        }
        assert forall|i: int| 0 <= i < lowest(own) implies own[lowest(own)].balance < (
        #[trigger] own[i]).balance by {
            assert(own[i] == rest[i]);
        }
    }
}

/// An account's first day under nothing is the first there is, and there is one exactly where its
/// lowest balance is under nothing.
pub proof fn law_the_first_day_under_is_named_where_there_is_one(name: Seq<char>, own: Seq<PointView>)
    requires
        own.len() > 0,
    ensures
        track_of(name, own).first_negative_on is Some <==> track_of(name, own).lowest < 0,
{
    law_the_low_point_is_the_first_of_the_lowest(own);
    lemma_first_is(own.len() as int, is_under(own));
    let k = first(own.len() as int, is_under(own));
    if k < own.len() {
        assert(is_under(own)(k));
    } else {
        assert(!is_under(own)(lowest(own)));
    }
}

} // verus!
