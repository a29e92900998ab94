//! What holds of every projection.

use crate::date::{iso, Date};
use crate::dayfold::{
    accrued_more, amount_at, by_id, closing, day_done, generated, interest_day, interest_upto,
    lands, moved, payment_day, payment_or_none, payments_upto, put_id, sizing, transferred, walked,
    Events, Generated, RuleDates, State,
};
use crate::forecast::{
    chain_suppressed, is_claimed, leg_of, legs_upto, ordered, override_at, placed, projected,
    slot_empty, slot_legs, stands_before, suppressed, takes_part, InterestRule, OccView,
    PaymentRule, Series, SeriesPosting, Snapshot,
};
use crate::interest::{owed_at_most, PaymentContext};
use crate::text::{lemma_text_irreflexive, lemma_text_total, lemma_text_transitive, text_lt};
use vstd::prelude::*;

verus! {

/// A slot that is skipped, or that a real transaction fills, projects nothing.
pub proof fn law_skipped_and_filled_slots_project_nothing(snap: Snapshot, s: Series, slot: Date)
    requires
        is_claimed(snap.claimed@, s.id, slot) || (override_at(snap.overrides@, s.id, slot) matches
            Some(o) && o.action@ == "skip"@),
    ensures
        slot_legs(snap, s, slot).len() == 0,
{
}

/// Whatever an override or the weekend rule does to the date money moves, the slot -- the identity
/// a real transaction claims -- is the date the rule lands on.
pub proof fn law_the_slot_is_never_moved(snap: Snapshot, s: Series, slot: Date, i: int)
    requires
        0 <= i < slot_legs(snap, s, slot).len(),
    ensures
        slot_legs(snap, s, slot)[i].occurrence_on == iso(slot.days as int),
        slot_legs(snap, s, slot)[i].series_id == s.id,
{
}

/// A series of a scenario that is not active is not projected, and neither is one that an active
/// scenario supersedes, nor any hop of a chain of which one hop is superseded.
pub proof fn law_what_is_left_out(series: Seq<Series>, active: Set<i64>, s: Series)
    ensures
        s.scenario_id matches Some(id) && !active.contains(id) ==> !projected(series, active, s),
        suppressed(series, active, s.id) ==> !projected(series, active, s),
        s.chain_id matches Some(c) && chain_suppressed(series, active, c) ==> !projected(
            series,
            active,
            s,
        ),
        s.scenario_id is None && !suppressed(series, active, s.id) && s.chain_id is None
            ==> projected(series, active, s),
{
}

/// A series that is left out changes nothing of what is projected.
pub proof fn law_left_out_series_have_no_occurrences(
    snap: Snapshot,
    active: Set<i64>,
    slots: Seq<Seq<Date>>,
    n: int,
)
    requires
        0 < n <= snap.series@.len(),
        !projected(snap.series@, active, snap.series@[n - 1]),
    ensures
        legs_upto(snap, active, slots, n) == legs_upto(snap, active, slots, n - 1),
{
}

/// What the legs of a slot come to.
pub open spec fn total_of(legs: Seq<OccView>) -> int
    decreases legs.len(),
{
    if legs.len() == 0 {
        0
    } else {
        total_of(legs.drop_last()) + legs.last().amount
    }
}

/// What a template's postings come to.
pub open spec fn template_total(postings: Seq<SeriesPosting>) -> int
    decreases postings.len(),
{
    if postings.len() == 0 {
        0
    } else {
        template_total(postings.drop_last()) + postings.last().amount_minor
    }
}

/// What the postings come to that are neither primary nor balancing.
pub open spec fn side_total(postings: Seq<SeriesPosting>) -> int
    decreases postings.len(),
{
    if postings.len() == 0 {
        0
    } else {
        side_total(postings.drop_last()) + (if postings.last().role@ == "primary"@
            || postings.last().role@ == "balancing"@ {
            0
        } else {
            postings.last().amount_minor as int
        })
    }
}

/// How many more postings are primary than balancing.
pub open spec fn lean(postings: Seq<SeriesPosting>) -> int
    decreases postings.len(),
{
    if postings.len() == 0 {
        0
    } else {
        lean(postings.drop_last()) + (if postings.last().role@ == "primary"@ {
            1int
        } else if postings.last().role@ == "balancing"@ {
            -1
        } else {
            0
        })
    }
}

proof fn lemma_slot_total(snap: Snapshot, s: Series, slot: Date, k: int)
    requires
        !slot_empty(snap, s, slot),
        0 <= k <= s.postings@.len(),
    ensures
        ({
            let given = override_at(snap.overrides@, s.id, slot) matches Some(o) && o.amount_minor
                is Some;
            let legs = slot_legs(snap, s, slot).take(k);
            let postings = s.postings@.take(k);
            if given {
                let a = override_at(snap.overrides@, s.id, slot)->0.amount_minor->0;
                total_of(legs) == a * lean(postings) + side_total(postings)
            } else {
                total_of(legs) == template_total(postings)
            }
        }),
    decreases k,
{
    let legs = slot_legs(snap, s, slot);
    if k > 0 {
        lemma_slot_total(snap, s, slot, k - 1);
        assert(legs.take(k).drop_last() =~= legs.take(k - 1));
        assert(legs.take(k).last() == leg_of(snap, s, slot, s.postings@[k - 1]));
        assert(s.postings@.take(k).drop_last() =~= s.postings@.take(k - 1));
        assert(s.postings@.take(k).last() == s.postings@[k - 1]);
        if override_at(snap.overrides@, s.id, slot) matches Some(o) && o.amount_minor is Some {
            let a = override_at(snap.overrides@, s.id, slot)->0.amount_minor->0 as int;
            let l = lean(s.postings@.take(k - 1));
            assert(a * (l + 1) == a * l + a) by (nonlinear_arith);
            assert(a * (l - 1) == a * l - a) by (nonlinear_arith);
        }
    } else {
        assert(legs.take(0) =~= Seq::<OccView>::empty());
        assert(s.postings@.take(0) =~= Seq::<SeriesPosting>::empty());
        if override_at(snap.overrides@, s.id, slot) matches Some(o) && o.amount_minor is Some {
            let a = override_at(snap.overrides@, s.id, slot)->0.amount_minor->0 as int;
            vstd::arithmetic::mul::lemma_mul_basics(a);
        }
    }
}

/// An occurrence sums to zero: the template does, and an amount override moves the balancing legs
/// against the primary ones.
pub proof fn law_occurrences_sum_to_zero(snap: Snapshot, s: Series, slot: Date)
    requires
        template_total(s.postings@) == 0,
        lean(s.postings@) == 0,
        side_total(s.postings@) == 0,
    ensures
        total_of(slot_legs(snap, s, slot)) == 0,
{
    let legs = slot_legs(snap, s, slot);
    if !slot_empty(snap, s, slot) {
        lemma_slot_total(snap, s, slot, s.postings@.len() as int);
        assert(legs.take(legs.len() as int) =~= legs);
        assert(s.postings@.take(s.postings@.len() as int) =~= s.postings@);
        if override_at(snap.overrides@, s.id, slot) matches Some(o) && o.amount_minor is Some {
            let a = override_at(snap.overrides@, s.id, slot)->0.amount_minor->0 as int;
            vstd::arithmetic::mul::lemma_mul_basics(a);
        }
    }
}

/// Whether occurrences stand in order.
pub open spec fn in_sequence(s: Seq<OccView>) -> bool {
    forall|i: int, j: int|
        0 <= i < j < s.len() ==> !stands_before(#[trigger] s[j], #[trigger] s[i])
}

proof fn lemma_placed(s: Seq<OccView>, o: OccView)
    requires
        in_sequence(s),
    ensures
        in_sequence(placed(s, o)),
        placed(s, o).to_multiset() == s.to_multiset().insert(o),
        placed(s, o).len() == s.len() + 1,
        forall|b: OccView|
            (forall|i: int| 0 <= i < s.len() ==> !stands_before(b, #[trigger] s[i]))
                && !stands_before(b, o) ==> (forall|i: int|
                0 <= i < placed(s, o).len() ==> !stands_before(b, #[trigger] placed(s, o)[i])),
    decreases s.len(),
{
    broadcast use vstd::seq_lib::group_to_multiset_ensures;

    if s.len() > 0 && stands_before(o, s.last()) {
        let rest = s.drop_last();
        assert(in_sequence(rest)) by {
            assert forall|i: int, j: int| 0 <= i < j < rest.len() implies !stands_before(
                #[trigger] rest[j],
                #[trigger] rest[i],
            ) by {
                assert(rest[j] == s[j] && rest[i] == s[i]);
            }
        }
        lemma_placed(rest, o);
        let p = placed(rest, o);
        let l = s.last();
        assert(s =~= rest.push(l));
        assert(placed(s, o) == p.push(l));
        assert forall|i: int| 0 <= i < rest.len() implies !stands_before(
            l,
            #[trigger] rest[i],
        ) by {
            assert(rest[i] == s[i]);
            assert(s[s.len() - 1] == l);
        }
        assert(!stands_before(l, o)) by {
            lemma_not_both(o, l);
        }
        assert forall|i: int| 0 <= i < p.len() implies !stands_before(l, #[trigger] p[i]) by {}
        let q = p.push(l);
        assert forall|i: int, j: int| 0 <= i < j < q.len() implies !stands_before(
            #[trigger] q[j],
            #[trigger] q[i],
        ) by {
            if j < p.len() {
                assert(q[j] == p[j] && q[i] == p[i]);
            } else {
                assert(q[j] == l && q[i] == p[i]);
            }
        }
        assert(q.to_multiset() =~= s.to_multiset().insert(o));
        assert forall|b: OccView|
            (forall|i: int| 0 <= i < s.len() ==> !stands_before(b, #[trigger] s[i]))
                && !stands_before(b, o) implies (forall|i: int|
            0 <= i < q.len() ==> !stands_before(b, #[trigger] q[i])) by {
            assert forall|i: int| 0 <= i < rest.len() implies !stands_before(
                b,
                #[trigger] rest[i],
            ) by {
                assert(rest[i] == s[i]);
            }
            assert forall|i: int| 0 <= i < q.len() implies !stands_before(b, #[trigger] q[i]) by {
                if i < p.len() {
                    assert(q[i] == p[i]);
                } else {
                    assert(q[i] == s[s.len() - 1]);
                }
            }
        }
    } else {
        let q = s.push(o);
        assert forall|i: int, j: int| 0 <= i < j < q.len() implies !stands_before(
            #[trigger] q[j],
            #[trigger] q[i],
        ) by {
            if j < s.len() {
                assert(q[j] == s[j] && q[i] == s[i]);
            } else {
                assert(q[j] == o && q[i] == s[i]);
                let l = s[s.len() - 1];
                if i < s.len() - 1 {
                    assert(!stands_before(l, s[i]));
                    if stands_before(o, s[i]) {
                        lemma_level(o, s[i], l);
                    }
                }
            }
        }
        assert forall|b: OccView|
            (forall|i: int| 0 <= i < s.len() ==> !stands_before(b, #[trigger] s[i]))
                && !stands_before(b, o) implies (forall|i: int|
            0 <= i < q.len() ==> !stands_before(b, #[trigger] q[i])) by {
            assert forall|i: int| 0 <= i < q.len() implies !stands_before(b, #[trigger] q[i]) by {
                if i < s.len() {
                    assert(q[i] == s[i]);
                }
            }
        }
    }
}

/// Of two occurrences not both stand before the other.
proof fn lemma_not_both(a: OccView, b: OccView)
    requires
        stands_before(a, b),
    ensures
        !stands_before(b, a),
{
    lemma_text_irreflexive(a.value_on);
    if text_lt(a.value_on, b.value_on) && text_lt(b.value_on, a.value_on) {
        lemma_text_transitive(a.value_on, b.value_on, a.value_on);
    }
}

/// What stands before something, and that not after a third, stands before the third.
proof fn lemma_level(a: OccView, b: OccView, c: OccView)
    requires
        stands_before(a, b),
        !stands_before(c, b),
    ensures
        stands_before(a, c),
{
    lemma_text_total(b.value_on, c.value_on);
    if text_lt(a.value_on, b.value_on) && text_lt(b.value_on, c.value_on) {
        lemma_text_transitive(a.value_on, b.value_on, c.value_on);
    }
}

/// The occurrences of a projection stand in order of the date money moves, then series, then
/// account, and are those that were emitted, each as often.
pub proof fn law_occurrences_are_sorted(s: Seq<OccView>)
    ensures
        in_sequence(ordered(s)),
        ordered(s).to_multiset() == s.to_multiset(),
    decreases s.len(),
{
    broadcast use vstd::seq_lib::group_to_multiset_ensures;

    if s.len() > 0 {
        law_occurrences_are_sorted(s.drop_last());
        lemma_placed(ordered(s.drop_last()), s.last());
        assert(s =~= s.drop_last().push(s.last()));
        assert(s.to_multiset() =~= s.drop_last().to_multiset().insert(s.last()));
    }
}

/// What occurrences move on an account.
pub open spec fn on_account(occs: Seq<OccView>, account: i64) -> int
    decreases occs.len(),
{
    if occs.len() == 0 {
        0
    } else {
        on_account(occs.drop_last(), account) + (if occs.last().account_id == account {
            occs.last().amount
        } else {
            0
        })
    }
}

/// What occurrences move on an account on a day.
pub open spec fn on_day(occs: Seq<OccView>, account: i64, key: Seq<char>) -> int
    decreases occs.len(),
{
    if occs.len() == 0 {
        0
    } else {
        on_day(occs.drop_last(), account, key) + (if occs.last().account_id == account
            && occs.last().value_on == key {
            occs.last().amount
        } else {
            0
        })
    }
}

/// What occurrences move on an account over `n` days.
pub open spec fn over_days(occs: Seq<OccView>, account: i64, from: int, n: nat) -> int
    decreases n,
{
    if n == 0 {
        0
    } else {
        over_days(occs, account, from, (n - 1) as nat) + on_day(
            occs,
            account,
            iso((from + n - 1) as i32 as int),
        )
    }
}

/// An account's balance without what was generated on it.
pub open spec fn base_balance(st: State, account: i64) -> int {
    amount_at(st.running, account) - on_account(st.extra, account)
}

/// What moves on a day is in the balances after it.
pub proof fn lemma_moved_balance(st: State, occs: Seq<OccView>, key: Seq<char>, account: i64)
    requires
        moved(st, occs, key).ok,
    ensures
        base_balance(moved(st, occs, key), account) == base_balance(st, account) + on_day(
            occs,
            account,
            key,
        ),
        st.ok,
    decreases occs.len(),
{
    if occs.len() > 0 {
        lemma_moved_balance(st, occs.drop_last(), key, account);
    }
}

proof fn lemma_generated_balance(
    st: State,
    g: Generated,
    names: Map<i64, String>,
    to: i64,
    amount: int,
    account: i64,
)
    requires
        generated(st, g, names, to, amount).ok,
    ensures
        base_balance(generated(st, g, names, to, amount), account) == base_balance(st, account),
        st.ok,
{
    let after = generated(st, g, names, to, amount);
    assert(after.extra.drop_last() =~= st.extra);
    assert(after.extra.last().amount == amount && after.extra.last().account_id == to);
}

proof fn lemma_transferred_balance(
    st: State,
    g: Generated,
    names: Map<i64, String>,
    to: i64,
    from: i64,
    amount: int,
    account: i64,
)
    requires
        transferred(st, g, names, to, from, amount).ok,
    ensures
        base_balance(transferred(st, g, names, to, from, amount), account) == base_balance(
            st,
            account,
        ),
        st.ok,
{
    lemma_generated_balance(
        generated(st, g, names, to, amount),
        g,
        names,
        from,
        -amount,
        account,
    );
    lemma_generated_balance(st, g, names, to, amount, account);
}

proof fn lemma_interest_day_balance(
    st: State,
    r: InterestRule,
    snap: Snapshot,
    due: bool,
    key: Seq<char>,
    account: i64,
)
    requires
        interest_day(st, r, snap, due, key).ok,
    ensures
        base_balance(interest_day(st, r, snap, due, key), account) == base_balance(st, account),
        st.ok,
{
    let balance = amount_at(st.running, r.account_id);
    let s1 = if r.accrual_freq@ == "daily"@ && crate::dayfold::charges(r, balance) {
        accrued_more(
            st,
            r.id,
            crate::dayfold::interest_or_none(balance, r.periodic_rate_e15 as int),
        )
    } else {
        st
    };
    assert(base_balance(s1, account) == base_balance(st, account));
    if due {
        let s2 = if r.accrual_freq@ == "per_period"@ && crate::dayfold::charges(r, balance) {
            accrued_more(
                s1,
                r.id,
                crate::dayfold::interest_or_none(balance, r.periodic_rate_e15 as int),
            )
        } else {
            s1
        };
        let amount = amount_at(s2.accrued, r.id);
        let s3 = State { accrued: s2.accrued.remove(r.id), ..s2 };
        assert(base_balance(s3, account) == base_balance(st, account));
        let g = Generated {
            rule_id: r.id,
            description: "Interest ("@ + r.shape@ + ")"@,
            currency: crate::forecast::name_in(snap.account_currency@, r.account_id),
            key,
        };
        if amount != 0 {
            lemma_transferred_balance(
                s3,
                g,
                snap.account_name@,
                r.account_id,
                r.counter_account_id,
                amount,
                account,
            );
        }
    }
}

proof fn lemma_payment_day_balance(
    st: State,
    r: PaymentRule,
    snap: Snapshot,
    due: bool,
    key: Seq<char>,
    account: i64,
)
    requires
        payment_day(st, r, snap, due, key).ok,
    ensures
        base_balance(payment_day(st, r, snap, due, key), account) == base_balance(st, account),
        st.ok,
{
    if due {
        let amount = payment_or_none(r, sizing(st, r.account_id));
        let s1 = State {
            ok: st.ok && crate::dayfold::sizing_fits(st, r.account_id),
            ..st
        };
        let g = Generated {
            rule_id: r.id,
            description: "Payment"@,
            currency: crate::forecast::name_in(snap.account_currency@, r.account_id),
            key,
        };
        if amount != 0 {
            lemma_transferred_balance(
                s1,
                g,
                snap.account_name@,
                r.account_id,
                r.from_account_id,
                amount,
                account,
            );
        }
    }
}

proof fn lemma_rules_balance(
    st: State,
    snap: Snapshot,
    active: Set<i64>,
    dates: Seq<RuleDates>,
    day: Date,
    n: int,
    account: i64,
)
    requires
        n >= 0,
    ensures
        interest_upto(st, snap, active, dates, day, n).ok ==> base_balance(
            interest_upto(st, snap, active, dates, day, n),
            account,
        ) == base_balance(st, account) && st.ok,
        payments_upto(st, snap, active, dates, day, n).ok ==> base_balance(
            payments_upto(st, snap, active, dates, day, n),
            account,
        ) == base_balance(st, account) && st.ok,
    decreases n,
{
    if n > 0 {
        lemma_rules_balance(st, snap, active, dates, day, n - 1, account);
        let r = snap.interest_rules@[n - 1];
        let key = iso(day.days as int);
        if takes_part(r.scenario_id, active) && interest_upto(st, snap, active, dates, day, n).ok {
            lemma_interest_day_balance(
                interest_upto(st, snap, active, dates, day, n - 1),
                r,
                snap,
                lands(dates, r.id, day),
                key,
                account,
            );
        }
        let p = snap.payment_rules@[n - 1];
        if takes_part(p.scenario_id, active) && payments_upto(st, snap, active, dates, day, n).ok {
            lemma_payment_day_balance(
                payments_upto(st, snap, active, dates, day, n - 1),
                p,
                snap,
                lands(dates, p.id, day),
                key,
                account,
            );
        }
    }
}

/// A balance at the end of a walk is the balance at its beginning, and what the occurrences of its
/// days and the legs generated on the way moved on the account: nothing else moves money.
pub proof fn law_balances_add_up(
    st: State,
    snap: Snapshot,
    active: Set<i64>,
    occs: Seq<OccView>,
    ev: Events,
    from: int,
    n: nat,
    account: i64,
)
    requires
        walked(st, snap, active, occs, ev, from, n).ok,
    ensures
        ({
            let end = walked(st, snap, active, occs, ev, from, n);
            amount_at(end.running, account) == amount_at(st.running, account) + over_days(
                occs,
                account,
                from,
                n,
            ) + on_account(end.extra, account) - on_account(st.extra, account)
        }),
        st.ok,
    decreases n,
{
    if n > 0 {
        let before = walked(st, snap, active, occs, ev, from, (n - 1) as nat);
        let day = Date { days: (from + n - 1) as i32 };
        let key = iso(day.days as int);
        let s0 = State { touched: Seq::empty(), ..before };
        let s1 = moved(s0, occs, key);
        let ni = snap.interest_rules@.len() as int;
        let np = snap.payment_rules@.len() as int;
        let s2 = interest_upto(s1, snap, active, ev.capitalise, day, ni);
        lemma_rules_balance(s1, snap, active, ev.capitalise, day, ni, account);
        lemma_rules_balance(s2, snap, active, ev.pay, day, np, account);
        lemma_moved_balance(s0, occs, key, account);
        law_balances_add_up(st, snap, active, occs, ev, from, (n - 1) as nat, account);
    }
}

/// What a rule generates is two legs of one amount, one each way.
pub proof fn law_generated_legs_sum_to_zero(
    st: State,
    g: Generated,
    names: Map<i64, String>,
    to: i64,
    from: i64,
    amount: int,
)
    ensures
        ({
            let after = transferred(st, g, names, to, from, amount);
            after.extra.len() == st.extra.len() + 2 && after.extra[st.extra.len() as int].amount
                + after.extra[st.extra.len() as int + 1].amount == 0
        }),
{
}

/// A rule that bites on one side of zero charges nothing on the other, nor on nothing.
pub proof fn law_interest_bites_on_its_own_side(r: InterestRule, balance: int)
    ensures
        r.accrues_on@ == "negative"@ && balance >= 0 ==> !crate::dayfold::charges(r, balance),
        r.accrues_on@ != "negative"@ && balance <= 0 ==> !crate::dayfold::charges(r, balance),
{
}

/// A payment is never more than what is owed on the statement or the balance, nor negative.
pub proof fn law_a_payment_is_within_what_is_owed(r: PaymentRule, ctx: PaymentContext)
    ensures
        0 <= payment_or_none(r, ctx) <= owed_at_most(ctx),
{
}

/// Whether no id of a list is above a bound.
pub open spec fn at_most(s: Seq<i64>, b: i64) -> bool {
    forall|i: int| 0 <= i < s.len() ==> #[trigger] s[i] <= b
}

proof fn lemma_put_id(s: Seq<i64>, id: i64)
    requires
        forall|i: int, j: int| 0 <= i < j < s.len() ==> #[trigger] s[i] <= #[trigger] s[j],
    ensures
        forall|i: int, j: int|
            0 <= i < j < put_id(s, id).len() ==> #[trigger] put_id(s, id)[i]
                <= #[trigger] put_id(s, id)[j],
        put_id(s, id).to_multiset() == s.to_multiset().insert(id),
        put_id(s, id).len() == s.len() + 1,
        forall|b: i64| #[trigger] at_most(s, b) && id <= b ==> at_most(put_id(s, id), b),
    decreases s.len(),
{
    broadcast use vstd::seq_lib::group_to_multiset_ensures;

    if s.len() > 0 && id < s.last() {
        let rest = s.drop_last();
        assert forall|i: int, j: int| 0 <= i < j < rest.len() implies #[trigger] rest[i]
            <= #[trigger] rest[j] by {
            assert(rest[i] == s[i] && rest[j] == s[j]);
        }
        lemma_put_id(rest, id);
        let p = put_id(rest, id);
        let l = s.last();
        assert forall|i: int| 0 <= i < rest.len() implies #[trigger] rest[i] <= l by {
            assert(rest[i] == s[i]);
            assert(s[s.len() - 1] == l);
        }
        assert(at_most(rest, l));
        assert(s =~= rest.push(l));
        let q = p.push(l);
        assert forall|i: int, j: int| 0 <= i < j < q.len() implies #[trigger] q[i]
            <= #[trigger] q[j] by {
            if j < p.len() {
                assert(q[j] == p[j] && q[i] == p[i]);
            } else {
                assert(q[i] == p[i]);
            }
        }
        assert(q.to_multiset() =~= s.to_multiset().insert(id));
        assert forall|b: i64| #[trigger] at_most(s, b) && id <= b implies at_most(q, b) by {
            assert forall|i: int| 0 <= i < rest.len() implies #[trigger] rest[i] <= b by {
                assert(rest[i] == s[i]);
            }
            assert(at_most(rest, b));
            assert(s[s.len() - 1] <= b);
            assert forall|i: int| 0 <= i < q.len() implies #[trigger] q[i] <= b by {
                if i < p.len() {
                    assert(q[i] == p[i]);
                }
            }
        }
    } else {
        let q = s.push(id);
        assert forall|i: int, j: int| 0 <= i < j < q.len() implies #[trigger] q[i]
            <= #[trigger] q[j] by {
            if j < s.len() {
                assert(q[j] == s[j] && q[i] == s[i]);
            } else {
                assert(q[i] == s[i]);
                if i < s.len() - 1 {
                    assert(s[i] <= s[s.len() - 1]);
                }
            }
        }
        assert forall|b: i64| #[trigger] at_most(s, b) && id <= b implies at_most(q, b) by {
            assert forall|i: int| 0 <= i < q.len() implies #[trigger] q[i] <= b by {
                if i < s.len() {
                    assert(q[i] == s[i]);
                }
            }
        }
    }
}

proof fn lemma_by_id(s: Seq<i64>)
    ensures
        forall|i: int, j: int|
            0 <= i < j < by_id(s).len() ==> #[trigger] by_id(s)[i] <= #[trigger] by_id(s)[j],
        by_id(s).to_multiset() == s.to_multiset(),
        by_id(s).len() == s.len(),
    decreases s.len(),
{
    broadcast use vstd::seq_lib::group_to_multiset_ensures;

    if s.len() > 0 {
        lemma_by_id(s.drop_last());
        lemma_put_id(by_id(s.drop_last()), s.last());
        assert(s =~= s.drop_last().push(s.last()));
        assert(s.to_multiset() =~= s.drop_last().to_multiset().insert(s.last()));
    }
}

/// A day has a balance point for each account that moved on it and for no other, in order of the
/// accounts, each with the balance it closes at.
pub proof fn law_balances_are_given_where_an_account_moved(
    st: State,
    snap: Snapshot,
    key: Seq<char>,
    account: i64,
)
    ensures
        ({
            let points = closing(st, snap, key);
            &&& st.touched.contains(account) <==> exists|i: int|
                0 <= i < points.len() && (#[trigger] points[i]).account_id == account
            &&& forall|i: int|
                0 <= i < points.len() ==> (#[trigger] points[i]).on == key && points[i].balance
                    == amount_at(st.running, points[i].account_id)
            &&& forall|i: int, j: int|
                0 <= i < j < points.len() ==> (#[trigger] points[i]).account_id <= (
                #[trigger] points[j]).account_id
        }),
{
    broadcast use vstd::seq_lib::group_to_multiset_ensures;

    lemma_by_id(st.touched);
    let ids = by_id(st.touched);
    let points = closing(st, snap, key);
    assert(ids.to_multiset().contains(account) <==> ids.contains(account));
    assert(st.touched.to_multiset().contains(account) <==> st.touched.contains(account));
    if ids.contains(account) {
        let i = choose|i: int| 0 <= i < ids.len() && ids[i] == account;
        assert(points[i].account_id == account);
    }
    if exists|i: int| 0 <= i < points.len() && (#[trigger] points[i]).account_id == account {
        let i = choose|i: int| 0 <= i < points.len() && (#[trigger] points[i]).account_id == account;
        assert(ids[i] == account);
    }
    assert forall|i: int, j: int| 0 <= i < j < points.len() implies (
    #[trigger] points[i]).account_id <= (#[trigger] points[j]).account_id by {
        assert(ids[i] <= ids[j]);
    }
}

/// On a day on which no occurrence moves money, and with no rules, nothing moves and no balance is
/// given.
pub proof fn law_a_quiet_day_gives_no_balance(
    st: State,
    snap: Snapshot,
    active: Set<i64>,
    occs: Seq<OccView>,
    ev: Events,
    day: Date,
)
    requires
        snap.interest_rules@.len() == 0,
        snap.payment_rules@.len() == 0,
        forall|i: int|
            0 <= i < occs.len() ==> (#[trigger] occs[i]).value_on != iso(day.days as int),
    ensures
        day_done(st, snap, active, occs, ev, day).balances == st.balances,
        day_done(st, snap, active, occs, ev, day).running == st.running,
{
    let key = iso(day.days as int);
    let s0 = State { touched: Seq::empty(), ..st };
    lemma_nothing_moves(s0, occs, key);
    let s3 = moved(s0, occs, key);
    assert(by_id(s3.touched) =~= Seq::<i64>::empty());
    assert(s3.balances + closing(s3, snap, key) =~= st.balances);
}

proof fn lemma_nothing_moves(st: State, occs: Seq<OccView>, key: Seq<char>)
    requires
        forall|i: int| 0 <= i < occs.len() ==> (#[trigger] occs[i]).value_on != key,
    ensures
        moved(st, occs, key) == st,
    decreases occs.len(),
{
    if occs.len() > 0 {
        assert(occs[occs.len() - 1].value_on != key);
        let rest = occs.drop_last();
        assert forall|i: int| 0 <= i < rest.len() implies (#[trigger] rest[i]).value_on != key by {
            assert(occs[i].value_on != key);
        }
        lemma_nothing_moves(st, rest, key);
    }
}

} // verus!
