//! What is accepted into the book as it was given, and what is not.

use crate::book::{account_of, balanced, known, leg_views, net_in, Account, Leg, LegView};
use crate::entry::{
    bad_date, carried, chain_refusal, changes_fields, checked, conversion_probe, edit_refusal,
    escaped, first_refused, history_points, is_hop, legs_of, may_post, moves_nothing, no_stop,
    opening_of, opt_opt_view, other_currency, probes, restated, route, stays, ChainStep, Changes,
    EntryError, Movement, NewChain, NewConversion, NewPosting, Restated, TxnPatch,
};
use crate::lists::lemma_first_is;
use crate::roles::{first_fit, fits, is_reserved, reservation, resolved, UNCLASSIFIED_NAME};
use crate::text::{text_lt, trimmed};
use vstd::prelude::*;

verus! {

/// A leg counts towards its own currency and towards no other.
pub proof fn law_a_leg_counts_in_its_own_currency(legs: Seq<LegView>, l: LegView, currency: Seq<char>)
    ensures
        l.currency == currency ==> net_in(legs.push(l), currency) == net_in(legs, currency)
            + l.amount_minor,
        l.currency != currency ==> net_in(legs.push(l), currency) == net_in(legs, currency),
        net_in(Seq::empty(), currency) == 0,
{
    assert(legs.push(l).drop_last() =~= legs);
}

proof fn lemma_first_refused(accounts: Seq<Account>, postings: Seq<NewPosting>)
    ensures
        0 <= first_refused(accounts, postings) <= postings.len(),
        first_refused(accounts, postings) == postings.len() <==> forall|i: int|
            0 <= i < postings.len() ==> may_post(accounts, (#[trigger] postings[i]).account_id),
        first_refused(accounts, postings) < postings.len() ==> !may_post(
            accounts,
            postings[first_refused(accounts, postings)].account_id,
        ),
    decreases postings.len(),
{
    if postings.len() > 0 {
        let rest = postings.drop_first();
        lemma_first_refused(accounts, rest);
        if may_post(accounts, postings[0].account_id) {
            if first_refused(accounts, rest) == rest.len() {
                assert forall|i: int| 0 <= i < postings.len() implies may_post(
                    accounts,
                    (#[trigger] postings[i]).account_id,
                ) by {
                    if i > 0 {
                        assert(rest[i - 1] == postings[i]);
                    }
                }
            }
            if forall|i: int|
                0 <= i < postings.len() ==> may_post(accounts, (#[trigger] postings[i]).account_id) {
                assert forall|i: int| 0 <= i < rest.len() implies may_post(
                    accounts,
                    (#[trigger] rest[i]).account_id,
                ) by {
                    assert(postings[i + 1] == rest[i]);
                }
            }
        }
    }
}

/// Whether every posting is to an account that is there and is not the core's own.
pub open spec fn all_may_be_posted(accounts: Seq<Account>, postings: Seq<NewPosting>) -> bool {
    forall|i: int|
        0 <= i < postings.len() ==> known(accounts, (#[trigger] postings[i]).account_id) && !account_of(
            accounts,
            postings[i].account_id,
        ).system
}

/// A transaction is recorded exactly where it has two or more postings, all to accounts that are
/// there and are not the core's own, and comes to nothing in every currency; and it is recorded as it
/// was given, each leg in the currency of its account.
pub proof fn law_a_transaction_is_recorded_as_it_was_given(
    r: Result<Vec<Leg>, EntryError>,
    accounts: Seq<Account>,
    postings: Seq<NewPosting>,
    i: int,
)
    requires
        checked(r, accounts, postings),
    ensures
        r is Ok <==> postings.len() >= 2 && all_may_be_posted(accounts, postings) && forall|c: Seq<char>|
            #[trigger] net_in(legs_of(accounts, postings), c) == 0,
        r matches Ok(legs) ==> legs@.len() == postings.len(),
        r is Ok && 0 <= i < postings.len() ==> {
            let l = (r->Ok_0)@[i];
            &&& l.account_id == postings[i].account_id
            &&& l.amount_minor == postings[i].amount_minor
            &&& l.currency@ == account_of(accounts, postings[i].account_id).currency@
        },
{
    lemma_first_refused(accounts, postings);
    let legs = legs_of(accounts, postings);
    if r is Ok {
        assert(leg_views((r->Ok_0)@).len() == legs.len());
        if 0 <= i < postings.len() {
            assert(leg_views((r->Ok_0)@)[i] == legs[i]);
            assert(leg_views((r->Ok_0)@)[i] == (r->Ok_0)@[i]@);
        }
    }
    if all_may_be_posted(accounts, postings) {
        assert forall|k: int| 0 <= k < postings.len() implies may_post(
            accounts,
            (#[trigger] postings[k]).account_id,
        ) by {}
    }
}

/// What a leg comes to is what it was given, in the currency of its account.
pub proof fn law_a_leg_is_in_the_currency_of_its_account(
    accounts: Seq<Account>,
    postings: Seq<NewPosting>,
    i: int,
)
    requires
        0 <= i < postings.len(),
    ensures
        legs_of(accounts, postings)[i].account_id == postings[i].account_id,
        legs_of(accounts, postings)[i].amount_minor == postings[i].amount_minor,
        legs_of(accounts, postings)[i].currency == account_of(
            accounts,
            postings[i].account_id,
        ).currency@,
        legs_of(accounts, postings).len() == postings.len(),
{
}

/// The account that a hop of a chain starts from: the chain's own first, else where the hop before
/// ended.
pub open spec fn starts_at(chain: NewChain, i: int) -> i64 {
    if i == 0 {
        chain.from_account
    } else {
        chain.hops@[i - 1].to_account
    }
}

/// Whether an account can take part in a chain that starts from another.
pub open spec fn can_join(accounts: Seq<Account>, id: i64, first: i64) -> bool {
    known(accounts, id) && !account_of(accounts, id).system && account_of(accounts, id).currency@
        == account_of(accounts, first).currency@
}

/// A chain is accepted exactly where it has two or more hops; each moves a positive amount to another
/// account on a day that there is, no earlier than the hop before; every account is there, is not the
/// core's own and holds the currency of the first; and money only passes through assets and
/// liabilities.
pub proof fn law_a_chain_is_accepted_where_every_hop_is(
    accounts: Seq<Account>,
    chain: NewChain,
    canonical: Seq<Option<String>>,
)
    requires
        canonical.len() == chain.hops@.len(),
    ensures
        chain_refusal(accounts, chain, canonical) is None <==> {
            &&& chain.hops@.len() >= 2
            &&& can_join(accounts, chain.from_account, chain.from_account)
            &&& forall|i: int|
                0 <= i < chain.hops@.len() ==> {
                    let h = #[trigger] chain.hops@[i];
                    &&& h.amount_minor > 0
                    &&& h.to_account != starts_at(chain, i)
                    &&& canonical[i] is Some && canonical[i]->0@ == h.occurred_on@
                    &&& i > 0 ==> !text_lt(h.occurred_on@, chain.hops@[i - 1].occurred_on@)
                    &&& can_join(accounts, h.to_account, chain.from_account)
                    &&& i < chain.hops@.len() - 1 ==> account_of(accounts, h.to_account).kind@
                        == "asset"@ || account_of(accounts, h.to_account).kind@ == "liability"@
                }
        },
{
    let hops = chain.hops@;
    let n = hops.len() as int;
    let r = route(chain);
    assert(r.len() == n + 1);
    assert(r[0] == chain.from_account);
    assert forall|i: int| 0 <= i < n implies r[i + 1] == (#[trigger] hops[i]).to_account && r[i]
        == starts_at(chain, i) by {
        assert(r[i + 1] == hops[i].to_account);
        if i > 0 {
            assert(r[i] == hops[i - 1].to_account);
        }
    }
    lemma_first_is(n, moves_nothing(chain));
    lemma_first_is(n, stays(chain));
    lemma_first_is(n, bad_date(chain, canonical));
    lemma_first_is(n + 1, other_currency(accounts, chain));
    lemma_first_is(n, no_stop(accounts, chain));
    let p = probes(r);
    lemma_first_refused(accounts, p);
    let nothing = crate::lists::first(n, moves_nothing(chain));
    let still = crate::lists::first(n, stays(chain));
    let dated = crate::lists::first(n, bad_date(chain, canonical));
    let refused = first_refused(accounts, p);
    let other = crate::lists::first(n + 1, other_currency(accounts, chain));
    let stop = crate::lists::first(n, no_stop(accounts, chain));
    if chain_refusal(accounts, chain, canonical) is None {
        assert(p[0].account_id == r[0]);
        assert forall|i: int| 0 <= i < n implies {
            let h = #[trigger] hops[i];
            &&& h.amount_minor > 0
            &&& h.to_account != starts_at(chain, i)
            &&& canonical[i] is Some && canonical[i]->0@ == h.occurred_on@
            &&& i > 0 ==> !text_lt(h.occurred_on@, hops[i - 1].occurred_on@)
            &&& can_join(accounts, h.to_account, chain.from_account)
            &&& i < n - 1 ==> account_of(accounts, h.to_account).kind@ == "asset"@ || account_of(
                accounts,
                h.to_account,
            ).kind@ == "liability"@
        } by {
            assert(!moves_nothing(chain)(i));
            assert(!stays(chain)(i));
            assert(!bad_date(chain, canonical)(i));
            assert(!other_currency(accounts, chain)(i + 1));
            assert(p[i + 1].account_id == r[i + 1]);
            if i < n - 1 {
                assert(!no_stop(accounts, chain)(i + 1));
            }
        }
    } else if n >= 2 {
        if nothing < n {
            assert(moves_nothing(chain)(nothing));
            assert(hops[nothing].amount_minor <= 0);
        } else if still < n {
            assert(stays(chain)(still));
            assert(hops[still].to_account == starts_at(chain, still));
        } else if dated < n {
            assert(bad_date(chain, canonical)(dated));
            assert(hops[dated] == hops[dated]);
            let h = hops[dated];
            if crate::entry::no_day(chain, canonical, dated) {
                assert(!(canonical[dated] is Some && canonical[dated]->0@ == h.occurred_on@));
            }
        } else if refused < n + 1 {
            assert(p[refused].account_id == r[refused]);
            if refused > 0 {
                assert(hops[refused - 1].to_account == r[refused]);
            }
        } else if other < n + 1 {
            assert(other_currency(accounts, chain)(other));
            if other > 0 {
                assert(hops[other - 1].to_account == r[other]);
            }
        } else {
            assert(no_stop(accounts, chain)(stop));
            assert(hops[stop - 1].to_account == r[stop]);
        }
    }
}

/// A hop takes its amount out of the account it starts from and brings it to the one it ends at, on
/// its own day and under the chain's name.
pub proof fn law_a_hop_moves_its_amount(
    step: ChainStep,
    accounts: Seq<Account>,
    chain: NewChain,
    i: int,
)
    requires
        is_hop(step, accounts, chain, i),
        0 <= i < chain.hops@.len(),
    ensures
        step.occurred_on@ == chain.hops@[i].occurred_on@,
        step.description@ == chain.description@,
        step.legs@.len() == 2,
        step.legs@[0].account_id == starts_at(chain, i),
        step.legs@[0].amount_minor == -chain.hops@[i].amount_minor,
        step.legs@[1].account_id == chain.hops@[i].to_account,
        step.legs@[1].amount_minor == chain.hops@[i].amount_minor,
        step.legs@[0].currency@ == account_of(accounts, starts_at(chain, i)).currency@,
        step.legs@[1].currency@ == step.legs@[0].currency@,
{
    let v = leg_views(step.legs@);
    assert(v.len() == 2);
    assert(v[0] == step.legs@[0]@);
    assert(v[1] == step.legs@[1]@);
    if i > 0 {
        assert(route(chain)[i] == chain.hops@[i - 1].to_account);
    }
}

/// New postings replace the old where they would be recorded, and a conversion where both amounts are
/// positive, both accounts can be posted to and their currencies differ.
pub proof fn law_an_edit_restates_what_would_be_recorded(
    accounts: Seq<Account>,
    trading: Option<(i64, i64)>,
    patch: TxnPatch,
)
    ensures
        patch.postings is None && patch.conversion is None <==> restated(accounts, trading, patch)
            is Left,
        patch.postings matches Some(p) ==> (restated(accounts, trading, patch) is Legs <==> p@.len() >= 2
            && all_may_be_posted(accounts, p@) && balanced(legs_of(accounts, p@))),
        patch.postings matches Some(p) ==> (restated(accounts, trading, patch) matches Restated::Legs(l)
            ==> l == legs_of(accounts, p@)),
        patch.postings is None ==> (patch.conversion matches Some(c) ==> (restated(
            accounts,
            trading,
            patch,
        ) is Legs || restated(accounts, trading, patch) is Needs <==> {
            &&& c.from_minor > 0
            &&& c.to_minor > 0
            &&& known(accounts, c.from_account) && !account_of(accounts, c.from_account).system
            &&& known(accounts, c.to_account) && !account_of(accounts, c.to_account).system
            &&& account_of(accounts, c.from_account).currency@ != account_of(
                accounts,
                c.to_account,
            ).currency@
        })),
        patch.postings is None ==> (patch.conversion matches Some(c) ==> (restated(
            accounts,
            trading,
            patch,
        ) matches Restated::Legs(l) ==> trading is Some && is_conversion(accounts, trading->0, c, l))),
{
    if patch.postings is Some {
        lemma_first_refused(accounts, patch.postings->0@);
        let p = patch.postings->0@;
        if all_may_be_posted(accounts, p) {
            assert forall|k: int| 0 <= k < p.len() implies may_post(
                accounts,
                (#[trigger] p[k]).account_id,
            ) by {}
        }
    } else if patch.conversion is Some {
        let c = patch.conversion->0;
        let p = conversion_probe(c);
        lemma_first_refused(accounts, p);
        assert(p[0].account_id == c.from_account);
        assert(p[1].account_id == c.to_account);
    }
}

/// Whether legs are those of a conversion: what leaves one account goes into the trading account of
/// its currency, and what arrives at the other comes out of the trading account of that one's.
pub open spec fn is_conversion(
    accounts: Seq<Account>,
    trading: (i64, i64),
    c: NewConversion,
    l: Seq<LegView>,
) -> bool {
    let a = account_of(accounts, c.from_account).currency@;
    let b = account_of(accounts, c.to_account).currency@;
    &&& l.len() == 4
    &&& l[0].account_id == c.from_account && l[0].currency == a && l[0].amount_minor == -c.from_minor
    &&& l[1].account_id == trading.0 && l[1].currency == a && l[1].amount_minor == c.from_minor
    &&& l[2].account_id == c.to_account && l[2].currency == b && l[2].amount_minor == c.to_minor
    &&& l[3].account_id == trading.1 && l[3].currency == b && l[3].amount_minor == -c.to_minor
}

/// An edit of a transaction is looked at exactly where its legs are given in one way at most, the
/// transaction is there, its new day is one and its new name is more than white space.
pub proof fn law_an_edit_is_refused_where_it_makes_no_sense(
    id: i64,
    recorded: bool,
    canonical: Option<Seq<char>>,
    patch: TxnPatch,
)
    ensures
        edit_refusal(id, recorded, canonical, patch) is None <==> {
            &&& !(patch.postings is Some && patch.conversion is Some)
            &&& recorded
            &&& patch.occurred_on is None || canonical == Some(patch.occurred_on->0@)
            &&& patch.description is None || trimmed(patch.description->0@).len() > 0
        },
{
}

/// An edit writes the fields that it gives and no others: the day as given, the name without white
/// space around it, and a payee or a note that is blank is taken away.
pub proof fn law_an_edit_writes_what_it_gives(ch: Changes, patch: TxnPatch)
    requires
        changes_fields(ch, patch),
    ensures
        ch.occurred_on is Some <==> patch.occurred_on is Some,
        patch.occurred_on matches Some(d) ==> (ch.occurred_on->0)@ == d@,
        ch.description is Some <==> patch.description is Some,
        patch.description matches Some(d) ==> (ch.description->0)@ == trimmed(d@),
        ch.payee is Some <==> patch.payee is Some,
        ch.note is Some <==> patch.note is Some,
        patch.payee matches Some(None) ==> ch.payee->0 is None,
        patch.note matches Some(None) ==> ch.note->0 is None,
        patch.payee matches Some(Some(p)) ==> (trimmed(p@).len() == 0 ==> ch.payee->0 is None),
        patch.note matches Some(Some(p)) ==> (trimmed(p@).len() == 0 ==> ch.note->0 is None),
        patch.payee matches Some(Some(p)) ==> (trimmed(p@).len() > 0 ==> ch.payee->0 is Some && (
        ch.payee->0->0)@ == trimmed(p@)),
        patch.note matches Some(Some(p)) ==> (trimmed(p@).len() > 0 ==> ch.note->0 is Some && (
        ch.note->0->0)@ == trimmed(p@)),
{
    assert(opt_opt_view(ch.payee) == crate::entry::settled(patch.payee));
    assert(opt_opt_view(ch.note) == crate::entry::settled(patch.note));
}

/// The balance of an account moves by its own movements alone; each from the window's first day on is
/// a point of its history, with the balance after it, and those before make its opening balance.
pub proof fn law_a_history_shows_the_balance_after_each_movement(
    rows: Seq<Movement>,
    m: Movement,
    from: Option<Seq<char>>,
    id: i64,
)
    ensures
        carried(rows.push(m), id) == carried(rows, id) + (if m.account_id == id {
            m.moved_minor as int
        } else {
            0
        }),
        carried(Seq::empty(), id) == 0,
        m.account_id == id && (from is None || !text_lt(m.on@, from->0)) ==> history_points(
            rows.push(m),
            from,
            id,
        ) == history_points(rows, from, id).push((m.on@, carried(rows, id) + m.moved_minor))
            && opening_of(rows.push(m), from, id) == opening_of(rows, from, id),
        m.account_id == id && from is Some && text_lt(m.on@, from->0) ==> history_points(
            rows.push(m),
            from,
            id,
        ) == history_points(rows, from, id) && opening_of(rows.push(m), from, id) == carried(rows, id)
            + m.moved_minor,
        m.account_id != id ==> history_points(rows.push(m), from, id) == history_points(rows, from, id)
            && opening_of(rows.push(m), from, id) == opening_of(rows, from, id),
{
    assert(rows.push(m).drop_last() =~= rows);
}

/// In a pattern every character that would stand for others is marked to stand for itself, and no
/// other is touched.
pub proof fn law_a_pattern_stands_for_itself(s: Seq<char>, c: char)
    ensures
        c == '\\' || c == '%' || c == '_' ==> escaped(s.push(c)) == escaped(s) + seq!['\\', c],
        c != '\\' && c != '%' && c != '_' ==> escaped(s.push(c)) == escaped(s).push(c),
        escaped(Seq::empty()) == Seq::<char>::empty(),
{
    assert(s.push(c).drop_last() =~= s);
    assert(escaped(s).push('\\').push(c) =~= escaped(s) + seq!['\\', c]);
}

proof fn lemma_first_fit(
    accounts: Seq<Account>,
    kind: Seq<char>,
    currency: Option<Seq<char>>,
    name: Option<Seq<char>>,
)
    ensures
        ({
            let at = first_fit(accounts, kind, currency, name);
            &&& 0 <= at <= accounts.len()
            &&& at < accounts.len() ==> fits(accounts[at], kind, currency, name)
            &&& forall|i: int|
                0 <= i < at ==> !fits(#[trigger] accounts[i], kind, currency, name)
        }),
    decreases accounts.len(),
{
    if accounts.len() > 0 && !fits(accounts[0], kind, currency, name) {
        let rest = accounts.drop_first();
        lemma_first_fit(rest, kind, currency, name);
        let at = first_fit(accounts, kind, currency, name);
        assert forall|i: int| 0 <= i < at implies !fits(
            #[trigger] accounts[i],
            kind,
            currency,
            name,
        ) by {
            if i > 0 {
                assert(rest[i - 1] == accounts[i]);
            }
        }
    }
}

/// An account of the core's own is the one on record where that is still of its kind and currency,
/// else the first of them that has its name, else there is none.
pub proof fn law_a_role_is_the_account_on_record_or_of_its_name(
    accounts: Seq<Account>,
    pinned: Option<i64>,
    kind: Seq<char>,
    currency: Option<Seq<char>>,
    name: Seq<char>,
)
    ensures
        ({
            let on_record = pinned is Some && known(accounts, pinned->0) && account_of(
                accounts,
                pinned->0,
            ).kind@ == kind && (currency matches Some(c) ==> account_of(accounts, pinned->0).currency@
                == c);
            let r = resolved(accounts, pinned, kind, currency, name);
            &&& on_record ==> r == Some(account_of(accounts, pinned->0))
            &&& r matches Some(a) ==> a.kind@ == kind && (currency matches Some(c) ==> a.currency@ == c)
            &&& !on_record ==> (r matches Some(a) ==> a.name@ == name)
            &&& !on_record && r is None ==> forall|i: int|
                0 <= i < accounts.len() ==> (#[trigger] accounts[i]).kind@ != kind || accounts[i].name@
                    != name || (currency is Some && accounts[i].currency@ != currency->0)
        }),
{
    lemma_first_fit(accounts, kind, currency, Some(name));
    let at = first_fit(accounts, kind, currency, Some(name));
    if at == accounts.len() {
        assert forall|i: int| 0 <= i < accounts.len() implies (#[trigger] accounts[i]).kind@ != kind
            || accounts[i].name@ != name || (currency is Some && accounts[i].currency@ != currency->0) by {
            assert(!fits(accounts[i], kind, currency, Some(name)));
        }
    }
}

/// A name is reserved exactly where it starts like that of a conversion account or of an opening
/// balance, or is the one for what is not classified.
pub proof fn law_a_name_is_reserved_where_the_core_uses_it(name: Seq<char>)
    ensures
        reservation(name) is Some <==> "Conversion:"@.is_prefix_of(name) || "Opening balances ("@.is_prefix_of(
            name,
        ) || name == UNCLASSIFIED_NAME@,
        is_reserved(name) <==> reservation(name) is Some,
{
}

} // verus!
