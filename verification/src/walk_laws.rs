//! What a day of the walk does to balances: how interest is charged and posted, what a statement
//! is, and what a payment pays.

use crate::date::{iso, Date};
use crate::dayfold::{
    day_done, days_between, interest_day, interest_upto, lands, moved, payment_day, payment_or_none,
    payments_upto, sizing, Events, RuleDates, State,
};
use crate::forecast::{
    final_state, projection_fits, series_occurrences, InterestRule, OccView, PaymentRule, Snapshot,
};
use crate::forecast_laws::{law_balances_add_up, lemma_moved_balance, on_account, on_day, over_days};
use crate::interest::{interest_on, payable, PaymentContext, RATE_SCALE};
use crate::money::{law_rounding_is_nearest, Minor};
use vstd::prelude::*;

verus! {

/// What a state holds on an account.
pub open spec fn held(st: State, account: i64) -> int {
    if st.running.contains_key(account) {
        st.running[account] as int
    } else {
        0
    }
}

/// The interest a state has accrued for a rule and not posted.
pub open spec fn pending(st: State, rule: i64) -> int {
    if st.accrued.contains_key(rule) {
        st.accrued[rule] as int
    } else {
        0
    }
}

/// Whether an amount is a share of a base in units of 1e-15, to the nearest whole unit.
pub open spec fn is_share(amount: int, base: int, rate: int) -> bool {
    -1_000_000_000_000_000 <= 2 * (base * rate - 1_000_000_000_000_000 * amount)
        <= 1_000_000_000_000_000
}

/// The words for how much a payment pays are different words.
proof fn lemma_kinds()
    ensures
        "fixed"@ != "pct_of_balance"@,
        "fixed"@ != "pct_of_statement"@,
        "fixed"@ != "interest_fees_plus_pct"@,
        "fixed"@ != "full_statement"@,
        "fixed"@ != "amortising_level"@,
        "pct_of_balance"@ != "pct_of_statement"@,
        "pct_of_balance"@ != "interest_fees_plus_pct"@,
        "pct_of_balance"@ != "full_statement"@,
        "pct_of_balance"@ != "amortising_level"@,
        "pct_of_statement"@ != "interest_fees_plus_pct"@,
        "pct_of_statement"@ != "full_statement"@,
        "pct_of_statement"@ != "amortising_level"@,
        "interest_fees_plus_pct"@ != "full_statement"@,
        "interest_fees_plus_pct"@ != "amortising_level"@,
        "full_statement"@ != "amortising_level"@,
{
    reveal_strlit("fixed");
    reveal_strlit("pct_of_balance");
    reveal_strlit("pct_of_statement");
    reveal_strlit("interest_fees_plus_pct");
    reveal_strlit("full_statement");
    reveal_strlit("amortising_level");
    assert("fixed"@.len() == 5);
    assert("pct_of_balance"@.len() == 14);
    assert("pct_of_statement"@.len() == 16);
    assert("interest_fees_plus_pct"@.len() == 22);
    assert("full_statement"@.len() == 14);
    assert("amortising_level"@.len() == 16);
    assert("pct_of_balance"@[0] == 'p');
    assert("full_statement"@[0] == 'f');
    assert("pct_of_statement"@[0] == 'p');
    assert("amortising_level"@[0] == 'a');
}

/// Interest is the rate's share of the balance, to the nearest minor unit.
pub proof fn law_interest_is_the_rates_share_of_the_balance(balance: int, rate: int)
    ensures
        is_share(interest_on(balance, rate), balance, rate),
{
    law_rounding_is_nearest(balance * rate, RATE_SCALE as int);
}

proof fn lemma_share_bound(amount: int, base: int, rate: int)
    requires
        is_share(amount, base, rate),
        -1_000_000_000_000_000 <= rate <= 1_000_000_000_000_000,
    ensures
        base >= 0 ==> -base <= amount <= base,
        base <= 0 ==> base <= amount <= -base,
        base >= 0 && rate >= 0 ==> amount >= 0,
{
    let s = 1_000_000_000_000_000int;
    assert(base >= 0 ==> -(s * base) <= base * rate <= s * base) by (nonlinear_arith)
        requires
            -s <= rate <= s,
    ;
    assert(base <= 0 ==> s * base <= base * rate <= -(s * base)) by (nonlinear_arith)
        requires
            -s <= rate <= s,
    ;
    assert(base >= 0 && rate >= 0 ==> base * rate >= 0) by (nonlinear_arith);
}

/// What a statement says is owed is what the account owed when it was frozen, whatever has moved on
/// the account since: two states that froze the same balance size a payment by the same statement.
pub proof fn law_a_statement_does_not_move_with_the_account(a: State, b: State, account: i64)
    requires
        a.statement.contains_key(account),
        b.statement.contains_key(account),
        a.statement[account] == b.statement[account],
    ensures
        sizing(a, account).statement_minor == sizing(b, account).statement_minor,
        i64::MIN < a.statement[account] <= 0 ==> sizing(a, account).statement_minor
            == -a.statement[account],
        a.statement[account] >= 0 ==> sizing(a, account).statement_minor == 0,
{
}

/// What a payment is sized by today is what the account owes today, and nothing where it is in
/// credit; before a first statement that is the statement too.
pub proof fn law_a_payment_is_sized_by_what_is_owed(st: State, account: i64)
    ensures
        i64::MIN < held(st, account) <= 0 ==> sizing(st, account).balance_minor == -held(st, account),
        held(st, account) >= 0 ==> sizing(st, account).balance_minor == 0,
        !st.statement.contains_key(account) ==> sizing(st, account).statement_minor == sizing(
            st,
            account,
        ).balance_minor,
        sizing(st, account).interest_minor == 0,
        sizing(st, account).fees_minor == 0,
{
}

/// A payment that is paid moves what it pays off the account it comes from and onto the account it
/// pays down, and changes no other balance; one that is not due changes nothing.
pub proof fn law_a_payment_moves_what_it_pays(st: State, r: PaymentRule, snap: Snapshot, key: Seq<char>)
    requires
        payment_day(st, r, snap, true, key).ok,
        r.account_id != r.from_account_id,
    ensures
        ({
            let after = payment_day(st, r, snap, true, key);
            let paid = payment_or_none(r, sizing(st, r.account_id));
            &&& held(after, r.account_id) == held(st, r.account_id) + paid
            &&& held(after, r.from_account_id) == held(st, r.from_account_id) - paid
            &&& forall|a: i64|
                a != r.account_id && a != r.from_account_id ==> #[trigger] held(after, a) == held(
                    st,
                    a,
                )
            &&& after.statement == st.statement
            &&& after.accrued == st.accrued
            &&& paid == 0 ==> after.extra == st.extra
            &&& paid != 0 ==> after.extra.len() == st.extra.len() + 2
            &&& paid != 0 ==> {
                let x = after.extra[st.extra.len() as int];
                let y = after.extra[st.extra.len() as int + 1];
                &&& x.account_id == r.account_id && x.amount == paid
                &&& y.account_id == r.from_account_id && y.amount == -paid
                &&& x.series_id == -r.id && y.series_id == -r.id
                &&& x.value_on == key && y.value_on == key
                &&& x.occurrence_on == key && y.occurrence_on == key
                &&& x.description == "Payment"@ && y.description == "Payment"@
            }
        }),
        payment_day(st, r, snap, false, key) == st,
{
}

/// A payment of the full statement is exactly what was owed when the statement was frozen, whatever
/// was spent since.
pub proof fn law_a_full_statement_payment_pays_what_was_frozen(
    st: State,
    r: PaymentRule,
    snap: Snapshot,
    key: Seq<char>,
)
    requires
        payment_day(st, r, snap, true, key).ok,
        r.account_id != r.from_account_id,
        r.amount_kind@ == "full_statement"@,
        r.floor_minor is None,
        r.cap_minor is None,
        st.statement.contains_key(r.account_id),
        i64::MIN < st.statement[r.account_id] <= 0,
    ensures
        held(payment_day(st, r, snap, true, key), r.account_id) == held(st, r.account_id)
            - st.statement[r.account_id],
        held(payment_day(st, r, snap, true, key), r.from_account_id) == held(st, r.from_account_id)
            + st.statement[r.account_id],
{
    lemma_kinds();
    law_a_payment_moves_what_it_pays(st, r, snap, key);
}

/// What each kind of payment asks for, where that is no more than is owed: a fixed amount that
/// amount, the full statement the statement, a level payment its level, and a percentage its share of
/// today's balance or of the statement.
pub proof fn law_each_kind_of_payment_pays_its_own(r: PaymentRule, ctx: PaymentContext)
    requires
        r.floor_minor is None,
        r.cap_minor is None,
        ctx.balance_minor >= 0,
        ctx.statement_minor >= 0,
    ensures
        r.amount_kind@ == "fixed"@ && (r.fixed_minor matches Some(v) && 0 <= v && (v
            <= ctx.balance_minor || v <= ctx.statement_minor)) ==> payment_or_none(r, ctx)
            == r.fixed_minor->0,
        r.amount_kind@ == "full_statement"@ ==> payment_or_none(r, ctx) == ctx.statement_minor,
        r.amount_kind@ == "amortising_level"@ && (r.level_payment_minor matches Some(v) && 0 <= v && (
        v <= ctx.balance_minor || v <= ctx.statement_minor)) ==> payment_or_none(r, ctx)
            == r.level_payment_minor->0,
        r.amount_kind@ == "pct_of_balance"@ && (r.pct_e15 matches Some(p) && 0 <= p
            <= 1_000_000_000_000_000) ==> is_share(
            payment_or_none(r, ctx),
            ctx.balance_minor as int,
            r.pct_e15->0 as int,
        ),
        r.amount_kind@ == "pct_of_statement"@ && (r.pct_e15 matches Some(p) && 0 <= p
            <= 1_000_000_000_000_000) ==> is_share(
            payment_or_none(r, ctx),
            ctx.statement_minor as int,
            r.pct_e15->0 as int,
        ),
{
    lemma_kinds();
    if r.pct_e15 matches Some(p) && 0 <= p <= 1_000_000_000_000_000 {
        let p = r.pct_e15->0 as int;
        law_interest_is_the_rates_share_of_the_balance(ctx.balance_minor as int, p);
        law_interest_is_the_rates_share_of_the_balance(ctx.statement_minor as int, p);
        lemma_share_bound(
            interest_on(ctx.balance_minor as int, p),
            ctx.balance_minor as int,
            p,
        );
        lemma_share_bound(
            interest_on(ctx.statement_minor as int, p),
            ctx.statement_minor as int,
            p,
        );
    }
}

/// A minimum payment is the interest, the fees and its share of the statement, where that is no more
/// than is owed.
pub proof fn law_a_minimum_payment_is_interest_fees_and_a_share(r: PaymentRule, ctx: PaymentContext)
    requires
        r.floor_minor is None,
        r.cap_minor is None,
        r.amount_kind@ == "interest_fees_plus_pct"@,
        r.pct_e15 matches Some(p) && 0 <= p <= 1_000_000_000_000_000,
        ctx.statement_minor >= 0,
        0 < payment_or_none(r, ctx),
        payment_or_none(r, ctx) < ctx.balance_minor || payment_or_none(r, ctx) < ctx.statement_minor,
    ensures
        is_share(
            payment_or_none(r, ctx) - ctx.interest_minor - ctx.fees_minor,
            ctx.statement_minor as int,
            r.pct_e15->0 as int,
        ),
{
    lemma_kinds();
    let p = r.pct_e15->0 as int;
    law_interest_is_the_rates_share_of_the_balance(ctx.statement_minor as int, p);
    lemma_share_bound(interest_on(ctx.statement_minor as int, p), ctx.statement_minor as int, p);
}

/// A payment rule that says nothing of how much pays nothing: a kind that is none, or one without
/// the amount or percentage it needs.
pub proof fn law_a_payment_without_an_amount_pays_nothing(r: PaymentRule, ctx: PaymentContext)
    requires
        ({
            let k = r.amount_kind@;
            ||| k == "fixed"@ && r.fixed_minor is None
            ||| k == "amortising_level"@ && r.level_payment_minor is None
            ||| (k == "pct_of_balance"@ || k == "pct_of_statement"@ || k
                == "interest_fees_plus_pct"@) && r.pct_e15 is None
            ||| k != "fixed"@ && k != "pct_of_balance"@ && k != "pct_of_statement"@ && k
                != "interest_fees_plus_pct"@ && k != "full_statement"@ && k != "amortising_level"@
        }),
    ensures
        payment_or_none(r, ctx) == 0,
{
    lemma_kinds();
}

/// A floor raises what a rule asks for, and a cap then lowers it: with either, a payment is what it
/// would be had the rule asked for the raised or lowered amount. What is asked for is paid where it
/// is between nothing and what is owed, and otherwise the nearer of the two.
pub proof fn law_a_floor_raises_and_a_cap_lowers(
    raw: int,
    floor: Minor,
    cap: Minor,
    other: Option<Minor>,
    ctx: PaymentContext,
)
    requires
        ctx.balance_minor >= 0,
        ctx.statement_minor >= 0,
    ensures
        raw <= floor ==> payable(raw, Some(floor), other, ctx) == payable(
            floor as int,
            None,
            other,
            ctx,
        ),
        raw >= floor ==> payable(raw, Some(floor), other, ctx) == payable(raw, None, other, ctx),
        raw >= cap ==> payable(raw, None, Some(cap), ctx) == payable(cap as int, None, None, ctx),
        raw <= cap ==> payable(raw, None, Some(cap), ctx) == payable(raw, None, None, ctx),
        raw <= 0 ==> payable(raw, None, None, ctx) == 0,
        0 <= raw <= ctx.balance_minor || 0 <= raw <= ctx.statement_minor ==> payable(
            raw,
            None,
            None,
            ctx,
        ) == raw,
        raw >= ctx.balance_minor >= ctx.statement_minor ==> payable(raw, None, None, ctx)
            == ctx.balance_minor,
        raw >= ctx.statement_minor >= ctx.balance_minor ==> payable(raw, None, None, ctx)
            == ctx.statement_minor,
{
}

/// Whether a balance is on the side of zero that an interest rule is written for.
pub open spec fn bites(r: InterestRule, balance: int) -> bool {
    if r.accrues_on@ == "negative"@ {
        balance < 0
    } else {
        balance > 0
    }
}

proof fn lemma_frequencies()
    ensures
        "daily"@ != "per_period"@,
{
    reveal_strlit("daily");
    reveal_strlit("per_period");
    assert("daily"@.len() == 5);
    assert("per_period"@.len() == 10);
}

/// On a day that is not one of its own a rule posts nothing: a daily one accrues its share of the
/// balance where the balance is on its side, and any other accrues nothing.
pub proof fn law_a_daily_rule_accrues_its_share_and_posts_nothing(
    st: State,
    r: InterestRule,
    snap: Snapshot,
    key: Seq<char>,
)
    requires
        interest_day(st, r, snap, false, key).ok,
        -1_000_000_000_000_000 <= r.periodic_rate_e15 <= 1_000_000_000_000_000,
        held(st, r.account_id) > i64::MIN,
    ensures
        ({
            let after = interest_day(st, r, snap, false, key);
            let b = held(st, r.account_id);
            &&& after.running == st.running
            &&& after.statement == st.statement
            &&& after.extra == st.extra
            &&& r.accrual_freq@ == "daily"@ && bites(r, b) ==> is_share(
                pending(after, r.id) - pending(st, r.id),
                b,
                r.periodic_rate_e15 as int,
            )
            &&& r.accrual_freq@ != "daily"@ || !bites(r, b) ==> after.accrued == st.accrued
            &&& forall|k: i64| k != r.id ==> #[trigger] pending(after, k) == pending(st, k)
        }),
{
    let b = held(st, r.account_id);
    law_interest_is_the_rates_share_of_the_balance(b, r.periodic_rate_e15 as int);
    lemma_share_bound(interest_on(b, r.periodic_rate_e15 as int), b, r.periodic_rate_e15 as int);
}

/// On a day of its own a rule posts all it has accrued, today's share in it, from its counter account
/// to its account, keeps nothing back, and freezes the statement at the balance that leaves.
pub proof fn law_capitalising_posts_what_accrued_and_freezes_the_statement(
    st: State,
    r: InterestRule,
    snap: Snapshot,
    key: Seq<char>,
)
    requires
        interest_day(st, r, snap, true, key).ok,
        -1_000_000_000_000_000 <= r.periodic_rate_e15 <= 1_000_000_000_000_000,
        held(st, r.account_id) > i64::MIN,
        r.account_id != r.counter_account_id,
    ensures
        ({
            let after = interest_day(st, r, snap, true, key);
            let b = held(st, r.account_id);
            let posted = held(after, r.account_id) - b;
            let charges = r.accrual_freq@ == "daily"@ || r.accrual_freq@ == "per_period"@;
            &&& charges && bites(r, b) ==> is_share(
                posted - pending(st, r.id),
                b,
                r.periodic_rate_e15 as int,
            )
            &&& !charges || !bites(r, b) ==> posted == pending(st, r.id)
            &&& held(after, r.counter_account_id) == held(st, r.counter_account_id) - posted
            &&& forall|a: i64|
                a != r.account_id && a != r.counter_account_id ==> #[trigger] held(after, a) == held(
                    st,
                    a,
                )
            &&& pending(after, r.id) == 0
            &&& forall|k: i64| k != r.id ==> #[trigger] pending(after, k) == pending(st, k)
            &&& after.statement.contains_key(r.account_id)
            &&& after.statement[r.account_id] == held(after, r.account_id)
            &&& forall|a: i64|
                a != r.account_id ==> #[trigger] after.statement.contains_key(a)
                    == st.statement.contains_key(a) && after.statement[a] == st.statement[a]
            &&& posted == 0 ==> after.extra == st.extra
            &&& posted != 0 ==> after.extra.len() == st.extra.len() + 2
            &&& posted != 0 ==> {
                let x = after.extra[st.extra.len() as int];
                let y = after.extra[st.extra.len() as int + 1];
                &&& x.account_id == r.account_id && x.amount == posted
                &&& y.account_id == r.counter_account_id && y.amount == -posted
                &&& x.series_id == -r.id && y.series_id == -r.id
                &&& x.value_on == key && y.value_on == key
                &&& x.description == "Interest ("@ + r.shape@ + ")"@
                &&& y.description == x.description
            }
        }),
{
    lemma_frequencies();
    let b = held(st, r.account_id);
    law_interest_is_the_rates_share_of_the_balance(b, r.periodic_rate_e15 as int);
    lemma_share_bound(interest_on(b, r.periodic_rate_e15 as int), b, r.periodic_rate_e15 as int);
}

/// A rule of the book itself is at work on every day, and a rule of a what-if only while that is
/// asked for: an idle one leaves the day as the rules before it did.
pub proof fn law_a_rule_is_at_work_unless_its_what_if_is_not_asked_for(
    st: State,
    snap: Snapshot,
    active: Set<i64>,
    dates: Seq<RuleDates>,
    day: Date,
    n: int,
)
    ensures
        0 <= n < snap.interest_rules@.len() ==> ({
            let r = snap.interest_rules@[n];
            let before = interest_upto(st, snap, active, dates, day, n);
            let after = interest_upto(st, snap, active, dates, day, n + 1);
            &&& (r.scenario_id matches Some(s) && !active.contains(s)) ==> after == before
            &&& r.scenario_id is None || active.contains(r.scenario_id->0) ==> after == interest_day(
                before,
                r,
                snap,
                lands(dates, r.id, day),
                iso(day.days as int),
            )
        }),
        0 <= n < snap.payment_rules@.len() ==> ({
            let r = snap.payment_rules@[n];
            let before = payments_upto(st, snap, active, dates, day, n);
            let after = payments_upto(st, snap, active, dates, day, n + 1);
            &&& (r.scenario_id matches Some(s) && !active.contains(s)) ==> after == before
            &&& r.scenario_id is None || active.contains(r.scenario_id->0) ==> after == payment_day(
                before,
                r,
                snap,
                lands(dates, r.id, day),
                iso(day.days as int),
            )
        }),
{
}

/// A rule falls on exactly the days it was expanded to, where no two rules share an id.
pub proof fn law_a_rule_falls_on_its_own_days(dates: Seq<RuleDates>, k: int, day: Date)
    requires
        0 <= k < dates.len(),
        forall|i: int, j: int| 0 <= i < j < dates.len() ==> (#[trigger] dates[i]).id != (
        #[trigger] dates[j]).id,
    ensures
        lands(dates, dates[k].id, day) == dates[k].days@.contains(day),
    decreases dates.len(),
{
    if k < dates.len() - 1 {
        let rest = dates.drop_last();
        assert(dates[k].id != dates[dates.len() - 1].id);
        assert forall|i: int, j: int| 0 <= i < j < rest.len() implies (#[trigger] rest[i]).id != (
        #[trigger] rest[j]).id by {
            assert(dates[i].id != dates[j].id);
        }
        law_a_rule_falls_on_its_own_days(rest, k, day);
    }
}

/// Interest is charged on the balance that today's movements leave.
pub proof fn law_interest_is_charged_after_todays_movements(
    st: State,
    snap: Snapshot,
    active: Set<i64>,
    occs: Seq<OccView>,
    ev: Events,
    day: Date,
)
    requires
        snap.interest_rules@.len() == 1,
        snap.payment_rules@.len() == 0,
        snap.interest_rules@[0].scenario_id is None,
        snap.interest_rules@[0].accrual_freq@ == "daily"@,
        -1_000_000_000_000_000 <= snap.interest_rules@[0].periodic_rate_e15 <= 1_000_000_000_000_000,
        !lands(ev.capitalise, snap.interest_rules@[0].id, day),
        day_done(st, snap, active, occs, ev, day).ok,
    ensures
        ({
            let r = snap.interest_rules@[0];
            let after = day_done(st, snap, active, occs, ev, day);
            let b = held(st, r.account_id) + on_day(occs, r.account_id, iso(day.days as int));
            &&& held(after, r.account_id) == b
            &&& bites(r, b) && b > i64::MIN ==> is_share(
                pending(after, r.id) - pending(st, r.id),
                b,
                r.periodic_rate_e15 as int,
            )
            &&& !bites(r, b) ==> after.accrued == st.accrued
        }),
{
    let r = snap.interest_rules@[0];
    let key = iso(day.days as int);
    let s0 = State { touched: Seq::empty(), ..st };
    let s1 = moved(s0, occs, key);
    let s2 = interest_day(s1, r, snap, false, key);
    assert(interest_upto(s1, snap, active, ev.capitalise, day, 0) == s1);
    assert(interest_upto(s1, snap, active, ev.capitalise, day, 1) == s2);
    assert(payments_upto(s2, snap, active, ev.pay, day, 0) == s2);
    assert(s1.ok);
    lemma_moved_balance(s0, occs, key, r.account_id);
    lemma_moved_keeps(s0, occs, key);
    if held(s1, r.account_id) > i64::MIN {
        law_a_daily_rule_accrues_its_share_and_posts_nothing(s1, r, snap, key);
    }
}

proof fn lemma_moved_keeps(st: State, occs: Seq<OccView>, key: Seq<char>)
    ensures
        moved(st, occs, key).accrued == st.accrued,
        moved(st, occs, key).statement == st.statement,
        moved(st, occs, key).extra == st.extra,
    decreases occs.len(),
{
    if occs.len() > 0 {
        lemma_moved_keeps(st, occs.drop_last(), key);
    }
}

/// A day's movements freeze no statement and pay no interest: they move money and nothing else.
pub proof fn law_movements_touch_neither_statements_nor_interest(
    st: State,
    occs: Seq<OccView>,
    key: Seq<char>,
    account: i64,
)
    requires
        moved(st, occs, key).ok,
    ensures
        moved(st, occs, key).statement == st.statement,
        moved(st, occs, key).accrued == st.accrued,
        moved(st, occs, key).extra == st.extra,
        held(moved(st, occs, key), account) == held(st, account) + on_day(occs, account, key),
{
    lemma_moved_keeps(st, occs, key);
    lemma_moved_balance(st, occs, key, account);
}

/// A payment of the full statement on the day the statement is frozen pays today's interest too, and
/// clears the account.
pub proof fn law_a_statement_paid_in_full_at_once_clears_the_account(
    st: State,
    snap: Snapshot,
    active: Set<i64>,
    occs: Seq<OccView>,
    ev: Events,
    day: Date,
)
    requires
        snap.interest_rules@.len() == 1,
        snap.payment_rules@.len() == 1,
        snap.interest_rules@[0].scenario_id is None,
        snap.payment_rules@[0].scenario_id is None,
        snap.interest_rules@[0].account_id == snap.payment_rules@[0].account_id,
        snap.interest_rules@[0].account_id != snap.interest_rules@[0].counter_account_id,
        snap.payment_rules@[0].account_id != snap.payment_rules@[0].from_account_id,
        snap.payment_rules@[0].amount_kind@ == "full_statement"@,
        snap.payment_rules@[0].floor_minor is None,
        snap.payment_rules@[0].cap_minor is None,
        lands(ev.capitalise, snap.interest_rules@[0].id, day),
        lands(ev.pay, snap.payment_rules@[0].id, day),
        day_done(st, snap, active, occs, ev, day).ok,
        i64::MIN < day_done(st, snap, active, occs, ev, day).statement[snap.payment_rules@[0].account_id]
            <= 0,
    ensures
        held(day_done(st, snap, active, occs, ev, day), snap.payment_rules@[0].account_id) == 0,
{
    let r = snap.interest_rules@[0];
    let q = snap.payment_rules@[0];
    let key = iso(day.days as int);
    let s0 = State { touched: Seq::empty(), ..st };
    let s1 = moved(s0, occs, key);
    let s2 = interest_day(s1, r, snap, true, key);
    let s3 = payment_day(s2, q, snap, true, key);
    assert(interest_upto(s1, snap, active, ev.capitalise, day, 0) == s1);
    assert(interest_upto(s1, snap, active, ev.capitalise, day, 1) == s2);
    assert(payments_upto(s2, snap, active, ev.pay, day, 0) == s2);
    assert(payments_upto(s2, snap, active, ev.pay, day, 1) == s3);
    assert(s2.statement.contains_key(r.account_id));
    law_a_payment_moves_what_it_pays(s2, q, snap, key);
    law_a_full_statement_payment_pays_what_was_frozen(s2, q, snap, key);
}

/// A projection takes every day from the one it is of to its horizon, both counted: what an account
/// ends with is what it began with and everything that moved on it over those days.
pub proof fn law_a_projection_counts_every_day_to_its_horizon(
    snap: Snapshot,
    active: Set<i64>,
    slots: Seq<Seq<Date>>,
    ev: Events,
    as_of: Date,
    horizon: Date,
    account: i64,
)
    requires
        projection_fits(snap, active, slots, ev, as_of, horizon),
        as_of.days <= horizon.days,
    ensures
        ({
            let end = final_state(snap, active, slots, ev, as_of, horizon);
            let opening = if snap.opening@.contains_key(account) {
                snap.opening@[account] as int
            } else {
                0
            };
            held(end, account) == opening + over_days(
                series_occurrences(snap, active, slots),
                account,
                as_of.days as int,
                (horizon.days - as_of.days + 1) as nat,
            ) + on_account(end.extra, account)
        }),
{
    let st = crate::dayfold::opening_state(snap);
    law_balances_add_up(
        st,
        snap,
        active,
        series_occurrences(snap, active, slots),
        ev,
        as_of.days as int,
        days_between(as_of, horizon),
        account,
    );
    assert(on_account(st.extra, account) == 0);
}

} // verus!
