//! The day fold: the forward walk that turns occurrences and rules into balances.
//!
//! Interest cannot be expanded in advance like a series: its amount depends on the balance on the
//! day, and that balance is what is being computed. So the walk is genuinely sequential -- each
//! day's interest changes every later day's balance.
//!
//! Order within a day: movements first, then accrual on the closing balance, then capitalisation,
//! then any payment. Accruing on the closing balance is the conventional treatment and it means a
//! payment landing today reduces today's interest.

use crate::date::{iso, Date, MAX_DAYS};
use crate::forecast::{
    fits, name_in, occ_views, point_views, takes_part, BalancePoint, InterestRule, OccView,
    Occurrence, PaymentRule, PointView, Snapshot,
};
use crate::interest::{
    accrue, asked, interest_on, payable, payment_amount, pct_base, takes_pct, PaymentContext,
};
use crate::money::Minor;
use crate::text::str_eq;
use std::collections::{BTreeMap, HashMap, HashSet};
use vstd::prelude::*;

verus! {

broadcast use {
    vstd::string::group_string_axioms,
    vstd::std_specs::hash::group_hash_axioms,
    vstd::std_specs::btree::group_btree_axioms,
    vstd::laws_cmp::group_laws_cmp,
};

/// Where a walk stands.
pub struct State {
    /// The balance of each account that has one.
    pub running: Map<i64, Minor>,
    /// Interest accrued but not yet posted, per rule.
    pub accrued: Map<i64, Minor>,
    /// The balance of an account frozen at its last capitalisation.
    pub statement: Map<i64, Minor>,
    /// The legs generated on the way.
    pub extra: Seq<OccView>,
    /// The closing balances of the days behind.
    pub balances: Seq<PointView>,
    /// The accounts that moved today, in the order they first did.
    pub touched: Seq<i64>,
    /// Whether every amount so far fits.
    pub ok: bool,
}

/// The amount kept under a key, or nothing.
pub open spec fn amount_at(m: Map<i64, Minor>, k: i64) -> int {
    if m.contains_key(k) {
        m[k] as int
    } else {
        0
    }
}

/// An amount moved on an account.
pub open spec fn posted(st: State, account: i64, amount: int) -> State {
    let b = amount_at(st.running, account) + amount;
    State {
        running: st.running.insert(account, b as i64),
        touched: if st.touched.contains(account) {
            st.touched
        } else {
            st.touched.push(account)
        },
        ok: st.ok && fits(b),
        ..st
    }
}

/// The movements of a day: those of the occurrences that move money on it.
pub open spec fn moved(st: State, occs: Seq<OccView>, key: Seq<char>) -> State
    decreases occs.len(),
{
    if occs.len() == 0 {
        st
    } else {
        let before = moved(st, occs.drop_last(), key);
        if occs.last().value_on == key {
            posted(before, occs.last().account_id, occs.last().amount)
        } else {
            before
        }
    }
}

/// What a rule generates is told from what a series projects by its id: the rule's, negated.
pub struct Generated {
    pub rule_id: i64,
    pub description: Seq<char>,
    pub currency: Seq<char>,
    pub key: Seq<char>,
}

/// A generated leg.
pub open spec fn generated_leg(
    g: Generated,
    names: Map<i64, String>,
    account: i64,
    amount: int,
) -> OccView {
    OccView {
        series_id: -g.rule_id,
        occurrence_on: g.key,
        value_on: g.key,
        description: g.description,
        account_id: account,
        account: name_in(names, account),
        currency: g.currency,
        amount,
        chain_seq: None,
        chain_len: None,
    }
}

/// A generated leg posted.
pub open spec fn generated(
    st: State,
    g: Generated,
    names: Map<i64, String>,
    account: i64,
    amount: int,
) -> State {
    let after = posted(st, account, amount);
    State {
        extra: after.extra.push(generated_leg(g, names, account, amount)),
        ok: after.ok && fits(amount) && fits(-g.rule_id),
        ..after
    }
}

/// An amount moved from one account to another by a rule, as two legs.
pub open spec fn transferred(
    st: State,
    g: Generated,
    names: Map<i64, String>,
    to: i64,
    from: i64,
    amount: int,
) -> State {
    generated(generated(st, g, names, to, amount), g, names, from, -amount)
}

/// Whether a rule bites on a balance: a card charges on debt, a savings account pays on credit.
pub open spec fn engaged(r: InterestRule, balance: int) -> bool {
    if r.accrues_on@ == "negative"@ {
        balance < 0
    } else {
        balance > 0
    }
}

/// Whether a rule charges on a balance: it bites, and no grace period holds it off.
pub open spec fn charges(r: InterestRule, balance: int) -> bool {
    engaged(r, balance) && !(r.grace_period && !engaged(r, balance))
}

/// One period's interest on a balance; interest that does not fit is none.
pub open spec fn interest_or_none(balance: int, rate: int) -> int {
    let v = interest_on(balance, rate);
    if fits(v) {
        v
    } else {
        0
    }
}

/// More interest accrued under a rule.
pub open spec fn accrued_more(st: State, rule_id: i64, amount: int) -> State {
    let a = amount_at(st.accrued, rule_id) + amount;
    State { accrued: st.accrued.insert(rule_id, a as i64), ok: st.ok && fits(a), ..st }
}

/// Interest capitalised: what has accrued under the rule is posted, and the account's balance is
/// frozen as its statement.
pub open spec fn capitalised(
    st: State,
    r: InterestRule,
    snap: Snapshot,
    balance: int,
    key: Seq<char>,
) -> State {
    let s1 = if r.accrual_freq@ == "per_period"@ && charges(r, balance) {
        accrued_more(st, r.id, interest_or_none(balance, r.periodic_rate_e15 as int))
    } else {
        st
    };
    let amount = amount_at(s1.accrued, r.id);
    let s2 = State { accrued: s1.accrued.remove(r.id), ..s1 };
    let g = Generated {
        rule_id: r.id,
        description: "Interest ("@ + r.shape@ + ")"@,
        currency: name_in(snap.account_currency@, r.account_id),
        key,
    };
    let s3 = if amount != 0 {
        transferred(
            s2,
            g,
            snap.account_name@,
            r.account_id,
            r.counter_account_id,
            amount,
        )
    } else {
        s2
    };
    State {
        statement: s3.statement.insert(
            r.account_id,
            amount_at(s3.running, r.account_id) as i64,
        ),
        ..s3
    }
}

/// A day of an interest rule: accrual on the closing balance, then capitalisation where it is due.
pub open spec fn interest_day(
    st: State,
    r: InterestRule,
    snap: Snapshot,
    due: bool,
    key: Seq<char>,
) -> State {
    let balance = amount_at(st.running, r.account_id);
    let s1 = if r.accrual_freq@ == "daily"@ && charges(r, balance) {
        accrued_more(st, r.id, interest_or_none(balance, r.periodic_rate_e15 as int))
    } else {
        st
    };
    if due {
        capitalised(s1, r, snap, balance, key)
    } else {
        s1
    }
}

/// What a payment rule asks for; a rule that cannot be worked out asks for nothing.
pub open spec fn payment_or_none(r: PaymentRule, ctx: PaymentContext) -> int {
    match asked(r.amount_kind@, ctx, r.fixed_minor, r.pct_e15, r.level_payment_minor) {
        Err(_) => 0,
        Ok(raw) => {
            let share = interest_on(
                pct_base(r.amount_kind@, ctx),
                r.pct_e15.unwrap_or(0) as int,
            );
            if takes_pct(r.amount_kind@) && !fits(share) {
                0
            } else {
                payable(raw, r.floor_minor, r.cap_minor, ctx)
            }
        },
    }
}

/// What is owed on a balance: debt is held negative, payments are sized in positive magnitudes.
pub open spec fn owed_on(balance: int) -> int {
    if balance < 0 {
        -balance
    } else {
        0
    }
}

/// What a payment is sized from.
pub open spec fn sizing(st: State, account: i64) -> PaymentContext {
    let owed = owed_on(amount_at(st.running, account));
    PaymentContext {
        balance_minor: owed as i64,
        statement_minor: if st.statement.contains_key(account) {
            owed_on(st.statement[account] as int) as i64
        } else {
            owed as i64
        },
        interest_minor: 0,
        fees_minor: 0,
    }
}

/// Whether what a payment is sized from fits.
pub open spec fn sizing_fits(st: State, account: i64) -> bool {
    &&& fits(owed_on(amount_at(st.running, account)))
    &&& st.statement.contains_key(account) ==> fits(owed_on(st.statement[account] as int))
}

/// A day of a payment rule.
pub open spec fn payment_day(
    st: State,
    r: PaymentRule,
    snap: Snapshot,
    due: bool,
    key: Seq<char>,
) -> State {
    let amount = payment_or_none(r, sizing(st, r.account_id));
    let s1 = State { ok: st.ok && sizing_fits(st, r.account_id), ..st };
    let g = Generated {
        rule_id: r.id,
        description: "Payment"@,
        currency: name_in(snap.account_currency@, r.account_id),
        key,
    };
    if !due {
        st
    } else if amount == 0 {
        s1
    } else {
        transferred(
            s1,
            g,
            snap.account_name@,
            r.account_id,
            r.from_account_id,
            amount,
        )
    }
}

/// The dates a rule's events land on, under the rule's id.
pub struct RuleDates {
    pub id: i64,
    pub days: Vec<Date>,
}

/// Whether an event of a rule lands on a day; of two lists under one id the later decides.
pub open spec fn lands(dates: Seq<RuleDates>, id: i64, day: Date) -> bool
    decreases dates.len(),
{
    if dates.len() == 0 {
        false
    } else if dates.last().id == id {
        dates.last().days@.contains(day)
    } else {
        lands(dates.drop_last(), id, day)
    }
}

/// A day of the first `n` interest rules, those that take part.
pub open spec fn interest_upto(
    st: State,
    snap: Snapshot,
    active: Set<i64>,
    capitalise: Seq<RuleDates>,
    day: Date,
    n: int,
) -> State
    decreases n,
{
    if n <= 0 {
        st
    } else {
        let before = interest_upto(st, snap, active, capitalise, day, n - 1);
        let r = snap.interest_rules@[n - 1];
        if takes_part(r.scenario_id, active) {
            interest_day(before, r, snap, lands(capitalise, r.id, day), iso(day.days as int))
        } else {
            before
        }
    }
}

/// A day of the first `n` payment rules, those that take part.
pub open spec fn payments_upto(
    st: State,
    snap: Snapshot,
    active: Set<i64>,
    pay: Seq<RuleDates>,
    day: Date,
    n: int,
) -> State
    decreases n,
{
    if n <= 0 {
        st
    } else {
        let before = payments_upto(st, snap, active, pay, day, n - 1);
        let r = snap.payment_rules@[n - 1];
        if takes_part(r.scenario_id, active) {
            payment_day(before, r, snap, lands(pay, r.id, day), iso(day.days as int))
        } else {
            before
        }
    }
}

/// An account put in its place among accounts in order.
pub open spec fn put_id(s: Seq<i64>, id: i64) -> Seq<i64>
    decreases s.len(),
{
    if s.len() > 0 && id < s.last() {
        put_id(s.drop_last(), id).push(s.last())
    } else {
        s.push(id)
    }
}

/// Accounts in order of their ids.
pub open spec fn by_id(s: Seq<i64>) -> Seq<i64>
    decreases s.len(),
{
    if s.len() == 0 {
        s
    } else {
        put_id(by_id(s.drop_last()), s.last())
    }
}

/// The closing balances of a day.
pub open spec fn closing(st: State, snap: Snapshot, key: Seq<char>) -> Seq<PointView> {
    by_id(st.touched).map_values(
        |id: i64|
            PointView {
                account_id: id,
                account: name_in(snap.account_name@, id),
                currency: name_in(snap.account_currency@, id),
                on: key,
                balance: amount_at(st.running, id),
            },
    )
}

/// The dates that rules' events land on.
pub struct Events {
    pub capitalise: Seq<RuleDates>,
    pub pay: Seq<RuleDates>,
}

/// One day of the walk.
pub open spec fn day_done(
    st: State,
    snap: Snapshot,
    active: Set<i64>,
    occs: Seq<OccView>,
    ev: Events,
    day: Date,
) -> State {
    let key = iso(day.days as int);
    let s0 = State { touched: Seq::empty(), ..st };
    let s1 = moved(s0, occs, key);
    let s2 = interest_upto(
        s1,
        snap,
        active,
        ev.capitalise,
        day,
        snap.interest_rules@.len() as int,
    );
    let s3 = payments_upto(s2, snap, active, ev.pay, day, snap.payment_rules@.len() as int);
    State { balances: s3.balances + closing(s3, snap, key), ..s3 }
}

/// The walk over `n` days from `from` on.
pub open spec fn walked(
    st: State,
    snap: Snapshot,
    active: Set<i64>,
    occs: Seq<OccView>,
    ev: Events,
    from: int,
    n: nat,
) -> State
    decreases n,
{
    if n == 0 {
        st
    } else {
        day_done(
            walked(st, snap, active, occs, ev, from, (n - 1) as nat),
            snap,
            active,
            occs,
            ev,
            Date { days: (from + n - 1) as i32 },
        )
    }
}

/// Where a walk begins.
pub open spec fn opening_state(snap: Snapshot) -> State {
    State {
        running: snap.opening@,
        accrued: Map::empty(),
        statement: Map::empty(),
        extra: Seq::empty(),
        balances: Seq::empty(),
        touched: Seq::empty(),
        ok: true,
    }
}

/// Where a walk stands, as it is carried along.
struct Run {
    running: BTreeMap<i64, Minor>,
    accrued: BTreeMap<i64, Minor>,
    statement: BTreeMap<i64, Minor>,
    extra: Vec<Occurrence>,
    balances: Vec<BalancePoint>,
    touched: Vec<i64>,
}

impl View for Run {
    type V = State;

    closed spec fn view(&self) -> State {
        State {
            running: self.running@,
            accrued: self.accrued@,
            statement: self.statement@,
            extra: occ_views(self.extra@),
            balances: point_views(self.balances@),
            touched: self.touched@,
            ok: true,
        }
    }
}

fn look_up(m: &BTreeMap<i64, Minor>, k: i64) -> (r: Minor)
    ensures
        r == amount_at(m@, k),
{
    match m.get(&k) {
        Some(v) => *v,
        None => 0,
    }
}

fn has_id(v: &Vec<i64>, id: i64) -> (r: bool)
    ensures
        r == v@.contains(id),
{
    let mut i: usize = 0;
    while i < v.len()
        invariant
            i <= v@.len(),
            forall|j: int| 0 <= j < i ==> v@[j] != id,
        decreases v@.len() - i,
    {
        if v[i] == id {
            assert(v@[i as int] == id);
            return true;
        }
        i = i + 1;
    }
    false
}

fn post(run: &mut Run, account: i64, amount: Minor) -> (r: bool)
    ensures
        r ==> final(run)@ == posted(old(run)@, account, amount as int),
        r == posted(old(run)@, account, amount as int).ok,
{
    let now: Minor = look_up(&run.running, account);
    match now.checked_add(amount) {
        Some(b) => {
            run.running.insert(account, b);
            if !has_id(&run.touched, account) {
                run.touched.push(account);
            }
            true
        },
        None => false,
    }
}

fn copy_text(s: &str) -> (r: String)
    ensures
        r@ == s@,
{
    s.to_string()
}

fn label_of(names: &HashMap<i64, String>, id: i64) -> (r: String)
    ensures
        r@ == name_in(names@, id),
{
    match names.get(&id) {
        Some(s) => s.clone(),
        None => String::new(),
    }
}

fn generate(
    run: &mut Run,
    rule_id: i64,
    description: &str,
    currency: &str,
    key: &str,
    names: &HashMap<i64, String>,
    account: i64,
    amount: Minor,
) -> (r: bool)
    ensures
        ({
            let g = Generated {
                rule_id,
                description: description@,
                currency: currency@,
                key: key@,
            };
            let after = generated(old(run)@, g, names@, account, amount as int);
            (r ==> final(run)@ == after) && r == after.ok
        }),
{
    if rule_id == i64::MIN {
        return false;
    }
    if !post(run, account, amount) {
        return false;
    }
    let ghost before = run.extra@;
    let o = Occurrence {
        series_id: -rule_id,
        occurrence_on: copy_text(key),
        value_on: copy_text(key),
        description: copy_text(description),
        account_id: account,
        account: label_of(names, account),
        currency: copy_text(currency),
        amount_minor: amount,
        chain_seq: None,
        chain_len: None,
    };
    run.extra.push(o);
    proof {
        let g = Generated { rule_id, description: description@, currency: currency@, key: key@ };
        assert(o@ == generated_leg(g, names@, account, amount as int));
        assert(occ_views(run.extra@) =~= occ_views(before).push(o@));
    }
    true
}

fn transfer(
    run: &mut Run,
    rule_id: i64,
    description: &str,
    currency: &str,
    key: &str,
    names: &HashMap<i64, String>,
    to: i64,
    from: i64,
    amount: Minor,
) -> (r: bool)
    ensures
        ({
            let g = Generated {
                rule_id,
                description: description@,
                currency: currency@,
                key: key@,
            };
            let after = transferred(old(run)@, g, names@, to, from, amount as int);
            (r ==> final(run)@ == after) && r == after.ok
        }),
{
    if !generate(run, rule_id, description, currency, key, names, to, amount) {
        return false;
    }
    if amount == i64::MIN {
        return false;
    }
    generate(run, rule_id, description, currency, key, names, from, -amount)
}

fn accrue_more(run: &mut Run, rule_id: i64, amount: Minor) -> (r: bool)
    ensures
        r ==> final(run)@ == accrued_more(old(run)@, rule_id, amount as int),
        r == accrued_more(old(run)@, rule_id, amount as int).ok,
{
    let now: Minor = look_up(&run.accrued, rule_id);
    match now.checked_add(amount) {
        Some(a) => {
            run.accrued.insert(rule_id, a);
            true
        },
        None => false,
    }
}

fn does_charge(r: &InterestRule, balance: Minor) -> (b: bool)
    ensures
        b == charges(*r, balance as int),
{
    let bites = if str_eq(r.accrues_on.as_str(), "negative") {
        balance < 0
    } else {
        balance > 0
    };
    // Grace: a card that owes nothing charges nothing.
    let graced = r.grace_period && !bites;
    bites && !graced
}

fn interest_amount(balance: Minor, rate: i64) -> (r: Minor)
    ensures
        r == interest_or_none(balance as int, rate as int),
{
    match accrue(balance, rate) {
        Ok(v) => v,
        Err(_) => 0,
    }
}

fn capitalise(run: &mut Run, r: &InterestRule, snap: &Snapshot, balance: Minor, key: &str) -> (ok:
    bool)
    ensures
        ({
            let after = capitalised(old(run)@, *r, *snap, balance as int, key@);
            (ok ==> final(run)@ == after) && ok == after.ok
        }),
{
    // per_period charges once, on the balance standing at capitalisation.
    if str_eq(r.accrual_freq.as_str(), "per_period") && does_charge(r, balance) {
        let more: Minor = interest_amount(balance, r.periodic_rate_e15);
        if !accrue_more(run, r.id, more) {
            return false;
        }
    }
    let amount: Minor = look_up(&run.accrued, r.id);
    run.accrued.remove(&r.id);
    if amount != 0 {
        // Interest posts in the account's own currency; this engine never converts.
        let currency = label_of(&snap.account_currency, r.account_id);
        let mut label = "Interest (".to_string();
        label.append(r.shape.as_str());
        label.append(")");
        if !transfer(
            run,
            r.id,
            label.as_str(),
            currency.as_str(),
            key,
            &snap.account_name,
            r.account_id,
            r.counter_account_id,
            amount,
        ) {
            return false;
        }
    }
    let b: Minor = look_up(&run.running, r.account_id);
    run.statement.insert(r.account_id, b);
    true
}

fn interest_step(run: &mut Run, r: &InterestRule, snap: &Snapshot, due: bool, key: &str) -> (ok:
    bool)
    ensures
        ({
            let after = interest_day(old(run)@, *r, *snap, due, key@);
            (ok ==> final(run)@ == after) && ok == after.ok
        }),
{
    let balance: Minor = look_up(&run.running, r.account_id);
    if str_eq(r.accrual_freq.as_str(), "daily") && does_charge(r, balance) {
        let more: Minor = interest_amount(balance, r.periodic_rate_e15);
        if !accrue_more(run, r.id, more) {
            return false;
        }
    }
    if due {
        capitalise(run, r, snap, balance, key)
    } else {
        true
    }
}

/// What is owed on a balance, where it fits.
fn owed_of(balance: Minor) -> (r: Option<Minor>)
    ensures
        match r {
            Some(v) => v == owed_on(balance as int),
            None => !fits(owed_on(balance as int)),
        },
{
    if balance >= 0 {
        Some(0)
    } else if balance == i64::MIN {
        None
    } else {
        Some(-balance)
    }
}

fn payment_size(r: &PaymentRule, ctx: PaymentContext) -> (v: Minor)
    ensures
        v == payment_or_none(*r, ctx),
{
    match payment_amount(
        r.amount_kind.as_str(),
        ctx,
        r.fixed_minor,
        r.pct_e15,
        r.floor_minor,
        r.cap_minor,
        r.level_payment_minor,
    ) {
        Ok(v) => v,
        Err(_) => 0,
    }
}

fn payment_step(run: &mut Run, r: &PaymentRule, snap: &Snapshot, due: bool, key: &str) -> (ok: bool)
    ensures
        ({
            let after = payment_day(old(run)@, *r, *snap, due, key@);
            (ok ==> final(run)@ == after) && ok == after.ok
        }),
{
    if !due {
        return true;
    }
    let balance: Minor = look_up(&run.running, r.account_id);
    let owed: Minor = match owed_of(balance) {
        Some(v) => v,
        None => {
            return false;
        },
    };
    let statement: Minor = match run.statement.get(&r.account_id) {
        Some(s) => match owed_of(*s) {
            Some(v) => v,
            None => {
                return false;
            },
        },
        None => owed,
    };
    let ctx = PaymentContext {
        balance_minor: owed,
        statement_minor: statement,
        interest_minor: 0,
        fees_minor: 0,
    };
    assert(ctx == sizing(old(run)@, r.account_id));
    let amount: Minor = payment_size(r, ctx);
    if amount == 0 {
        return true;
    }
    let currency = label_of(&snap.account_currency, r.account_id);
    transfer(
        run,
        r.id,
        "Payment",
        currency.as_str(),
        key,
        &snap.account_name,
        r.account_id,
        r.from_account_id,
        amount,
    )
}

proof fn lemma_moved_unfit(st: State, occs: Seq<OccView>, key: Seq<char>, k: int)
    requires
        0 <= k <= occs.len(),
        !moved(st, occs.take(k), key).ok,
    ensures
        !moved(st, occs, key).ok,
    decreases occs.len() - k,
{
    if k < occs.len() {
        assert(occs.take(k + 1).drop_last() =~= occs.take(k));
        lemma_moved_unfit(st, occs, key, k + 1);
    } else {
        assert(occs.take(k) =~= occs);
    }
}

fn move_all(run: &mut Run, occs: &Vec<Occurrence>, key: &str) -> (ok: bool)
    ensures
        ({
            let after = moved(old(run)@, occ_views(occs@), key@);
            (ok ==> final(run)@ == after) && ok == after.ok
        }),
{
    let ghost all = occ_views(occs@);
    let ghost st = run@;
    let mut i: usize = 0;
    assert(all.take(0) =~= Seq::<OccView>::empty());
    while i < occs.len()
        invariant
            i <= occs@.len(),
            all == occ_views(occs@),
            st == old(run)@,
            run@ == moved(st, all.take(i as int), key@),
        decreases occs@.len() - i,
    {
        proof {
            assert(all.take(i + 1).drop_last() =~= all.take(i as int));
            assert(all.take(i + 1).last() == occs@[i as int]@);
        }
        if str_eq(occs[i].value_on.as_str(), key) {
            if !post(run, occs[i].account_id, occs[i].amount_minor) {
                proof {
                    lemma_moved_unfit(st, all, key@, i + 1);
                }
                return false;
            }
        }
        i = i + 1;
    }
    assert(all.take(all.len() as int) =~= all);
    true
}

fn does_land(dates: &Vec<RuleDates>, id: i64, day: Date) -> (r: bool)
    ensures
        r == lands(dates@, id, day),
{
    let mut i: usize = dates.len();
    assert(dates@.take(i as int) =~= dates@);
    while i > 0
        invariant
            i <= dates@.len(),
            lands(dates@.take(i as int), id, day) == lands(dates@, id, day),
        decreases i,
    {
        assert(dates@.take(i as int).drop_last() =~= dates@.take(i - 1));
        assert(dates@.take(i as int).last() == dates@[i - 1]);
        i = i - 1;
        if dates[i].id == id {
            let days = &dates[i].days;
            let mut k: usize = 0;
            while k < days.len()
                invariant
                    k <= days@.len(),
                    lands(dates@, id, day) == days@.contains(day),
                    forall|j: int| 0 <= j < k ==> days@[j] != day,
                decreases days@.len() - k,
            {
                if days[k] == day {
                    assert(days@[k as int] == day);
                    return true;
                }
                k = k + 1;
            }
            return false;
        }
    }
    false
}

proof fn lemma_interest_unfit(
    st: State,
    snap: Snapshot,
    active: Set<i64>,
    capitalise: Seq<RuleDates>,
    day: Date,
    k: int,
    n: int,
)
    requires
        0 <= k <= n,
        !interest_upto(st, snap, active, capitalise, day, k).ok,
    ensures
        !interest_upto(st, snap, active, capitalise, day, n).ok,
    decreases n - k,
{
    if k < n {
        lemma_interest_unfit(st, snap, active, capitalise, day, k + 1, n);
    }
}

proof fn lemma_payments_unfit(
    st: State,
    snap: Snapshot,
    active: Set<i64>,
    pay: Seq<RuleDates>,
    day: Date,
    k: int,
    n: int,
)
    requires
        0 <= k <= n,
        !payments_upto(st, snap, active, pay, day, k).ok,
    ensures
        !payments_upto(st, snap, active, pay, day, n).ok,
    decreases n - k,
{
    if k < n {
        lemma_payments_unfit(st, snap, active, pay, day, k + 1, n);
    }
}

fn interest_all(
    run: &mut Run,
    snap: &Snapshot,
    active: &HashSet<i64>,
    capitalise: &Vec<RuleDates>,
    day: Date,
    key: &str,
) -> (ok: bool)
    requires
        key@ == iso(day.days as int),
    ensures
        ({
            let after = interest_upto(
                old(run)@,
                *snap,
                active@,
                capitalise@,
                day,
                snap.interest_rules@.len() as int,
            );
            (ok ==> final(run)@ == after) && ok == after.ok
        }),
{
    let ghost st = run@;
    let n: usize = snap.interest_rules.len();
    let mut i: usize = 0;
    while i < n
        invariant
            n == snap.interest_rules@.len(),
            key@ == iso(day.days as int),
            i <= n,
            st == old(run)@,
            run@ == interest_upto(st, *snap, active@, capitalise@, day, i as int),
        decreases n - i,
    {
        let r = &snap.interest_rules[i];
        let part = match r.scenario_id {
            Some(id) => active.contains(&id),
            None => true,
        };
        if part {
            let due = does_land(capitalise, r.id, day);
            if !interest_step(run, r, snap, due, key) {
                proof {
                    lemma_interest_unfit(
                        st,
                        *snap,
                        active@,
                        capitalise@,
                        day,
                        i + 1,
                        n as int,
                    );
                }
                return false;
            }
        }
        i = i + 1;
    }
    true
}

fn payments_all(
    run: &mut Run,
    snap: &Snapshot,
    active: &HashSet<i64>,
    pay: &Vec<RuleDates>,
    day: Date,
    key: &str,
) -> (ok: bool)
    requires
        key@ == iso(day.days as int),
    ensures
        ({
            let after = payments_upto(
                old(run)@,
                *snap,
                active@,
                pay@,
                day,
                snap.payment_rules@.len() as int,
            );
            (ok ==> final(run)@ == after) && ok == after.ok
        }),
{
    let ghost st = run@;
    let n: usize = snap.payment_rules.len();
    let mut i: usize = 0;
    while i < n
        invariant
            n == snap.payment_rules@.len(),
            key@ == iso(day.days as int),
            i <= n,
            st == old(run)@,
            run@ == payments_upto(st, *snap, active@, pay@, day, i as int),
        decreases n - i,
    {
        let r = &snap.payment_rules[i];
        let part = match r.scenario_id {
            Some(id) => active.contains(&id),
            None => true,
        };
        if part {
            let due = does_land(pay, r.id, day);
            if !payment_step(run, r, snap, due, key) {
                proof {
                    lemma_payments_unfit(st, *snap, active@, pay@, day, i + 1, n as int);
                }
                return false;
            }
        }
        i = i + 1;
    }
    true
}

proof fn lemma_put_id(s: Seq<i64>, id: i64, i: int)
    requires
        0 <= i <= s.len(),
        forall|j: int| i <= j < s.len() ==> id < #[trigger] s[j],
        i > 0 ==> !(id < s[i - 1]),
    ensures
        put_id(s, id) == s.insert(i, id),
    decreases s.len(),
{
    if i < s.len() {
        assert(id < s[s.len() - 1]);
        let rest = s.drop_last();
        assert forall|j: int| i <= j < rest.len() implies id < #[trigger] rest[j] by {
            assert(id < s[j]);
        }
        lemma_put_id(rest, id, i);
        assert(rest.insert(i, id).push(s.last()) =~= s.insert(i, id));
    } else {
        assert(s.insert(i, id) =~= s.push(id));
    }
}

fn order_ids(v: &Vec<i64>) -> (r: Vec<i64>)
    ensures
        r@ == by_id(v@),
{
    let mut out: Vec<i64> = Vec::new();
    let mut i: usize = 0;
    assert(by_id(v@.take(0)) =~= Seq::<i64>::empty());
    while i < v.len()
        invariant
            i <= v@.len(),
            out@ == by_id(v@.take(i as int)),
        decreases v@.len() - i,
    {
        assert(v@.take(i + 1).drop_last() =~= v@.take(i as int));
        let id: i64 = v[i];
        let mut k: usize = out.len();
        while k > 0 && id < out[k - 1]
            invariant
                k <= out@.len(),
                forall|j: int| k <= j < out@.len() ==> id < #[trigger] out@[j],
            decreases k,
        {
            k = k - 1;
        }
        proof {
            lemma_put_id(out@, id, k as int);
        }
        out.insert(k, id);
        i = i + 1;
    }
    assert(v@.take(v@.len() as int) =~= v@);
    out
}

/// Close the day: a balance point for each account that moved, in order of their ids.
fn close_day(run: &mut Run, snap: &Snapshot, key: &str)
    ensures
        final(run)@ == (State {
            balances: old(run)@.balances + closing(old(run)@, *snap, key@),
            ..old(run)@
        }),
{
    let ghost st = run@;
    let ids = order_ids(&run.touched);
    let ghost points = closing(st, *snap, key@);
    let mut i: usize = 0;
    assert(st.balances + points.take(0) =~= st.balances);
    while i < ids.len()
        invariant
            i <= ids@.len(),
            ids@ == by_id(st.touched),
            points == closing(st, *snap, key@),
            run@ == (State { balances: st.balances + points.take(i as int), ..st }),
        decreases ids@.len() - i,
    {
        let id: i64 = ids[i];
        let p = BalancePoint {
            account_id: id,
            account: label_of(&snap.account_name, id),
            currency: label_of(&snap.account_currency, id),
            on: copy_text(key),
            balance_minor: look_up(&run.running, id),
        };
        let ghost before = run.balances@;
        run.balances.push(p);
        proof {
            assert(point_views(run.balances@) =~= point_views(before).push(p@));
            assert(points[i as int] == p@);
            assert(points.take(i + 1) =~= points.take(i as int).push(p@));
            assert(run@.balances =~= st.balances + points.take(i + 1));
        }
        i = i + 1;
    }
    assert(points.take(points.len() as int) =~= points);
}

fn day_step(
    run: &mut Run,
    snap: &Snapshot,
    active: &HashSet<i64>,
    occs: &Vec<Occurrence>,
    capitalise: &Vec<RuleDates>,
    pay: &Vec<RuleDates>,
    day: Date,
) -> (ok: bool)
    ensures
        ({
            let after = day_done(
                old(run)@,
                *snap,
                active@,
                occ_views(occs@),
                Events { capitalise: capitalise@, pay: pay@ },
                day,
            );
            (ok ==> final(run)@ == after) && ok == after.ok
        }),
{
    let key = day.to_text();
    run.touched = Vec::new();
    assert(run@ == (State { touched: Seq::empty(), ..old(run)@ }));
    if !move_all(run, occs, key.as_str()) {
        proof {
            let s1 = moved(
                State { touched: Seq::empty(), ..old(run)@ },
                occ_views(occs@),
                key@,
            );
            lemma_interest_unfit(
                s1,
                *snap,
                active@,
                capitalise@,
                day,
                0,
                snap.interest_rules@.len() as int,
            );
            let s2 = interest_upto(
                s1,
                *snap,
                active@,
                capitalise@,
                day,
                snap.interest_rules@.len() as int,
            );
            lemma_payments_unfit(
                s2,
                *snap,
                active@,
                pay@,
                day,
                0,
                snap.payment_rules@.len() as int,
            );
        }
        return false;
    }
    let ghost s1 = run@;
    if !interest_all(run, snap, active, capitalise, day, key.as_str()) {
        proof {
            let s2 = interest_upto(
                s1,
                *snap,
                active@,
                capitalise@,
                day,
                snap.interest_rules@.len() as int,
            );
            lemma_payments_unfit(
                s2,
                *snap,
                active@,
                pay@,
                day,
                0,
                snap.payment_rules@.len() as int,
            );
        }
        return false;
    }
    if !payments_all(run, snap, active, pay, day, key.as_str()) {
        return false;
    }
    close_day(run, snap, key.as_str());
    true
}

proof fn lemma_day_unfit(
    st: State,
    snap: Snapshot,
    active: Set<i64>,
    occs: Seq<OccView>,
    ev: Events,
    day: Date,
)
    requires
        !st.ok,
    ensures
        !day_done(st, snap, active, occs, ev, day).ok,
{
    let s0 = State { touched: Seq::empty(), ..st };
    assert(occs.take(0) =~= Seq::<OccView>::empty());
    lemma_moved_unfit(s0, occs, iso(day.days as int), 0);
    let s1 = moved(s0, occs, iso(day.days as int));
    let n = snap.interest_rules@.len() as int;
    lemma_interest_unfit(s1, snap, active, ev.capitalise, day, 0, n);
    let s2 = interest_upto(s1, snap, active, ev.capitalise, day, n);
    lemma_payments_unfit(s2, snap, active, ev.pay, day, 0, snap.payment_rules@.len() as int);
}

proof fn lemma_walk_unfit(
    st: State,
    snap: Snapshot,
    active: Set<i64>,
    occs: Seq<OccView>,
    ev: Events,
    from: int,
    k: nat,
    n: nat,
)
    requires
        k <= n,
        !walked(st, snap, active, occs, ev, from, k).ok,
    ensures
        !walked(st, snap, active, occs, ev, from, n).ok,
    decreases n - k,
{
    if k < n {
        lemma_day_unfit(
            walked(st, snap, active, occs, ev, from, k),
            snap,
            active,
            occs,
            ev,
            Date { days: (from + k) as i32 },
        );
        lemma_walk_unfit(st, snap, active, occs, ev, from, (k + 1) as nat, n);
    }
}

/// How many days a walk from one day to another takes, both counted.
pub open spec fn days_between(from: Date, to: Date) -> nat {
    if to.days < from.days {
        0
    } else {
        (to.days - from.days + 1) as nat
    }
}

/// What a walk leaves: the legs it generated and the closing balances.
pub struct Walk {
    pub extra: Vec<Occurrence>,
    pub balances: Vec<BalancePoint>,
}

/// Walk the days from `as_of` to `horizon`, both counted, or `None` where an amount does not fit.
pub fn walk_days(
    snap: &Snapshot,
    active: &HashSet<i64>,
    occs: &Vec<Occurrence>,
    capitalise: &Vec<RuleDates>,
    pay: &Vec<RuleDates>,
    as_of: Date,
    horizon: Date,
) -> (r: Option<Walk>)
    requires
        horizon.days <= MAX_DAYS,
    ensures
        ({
            let end = walked(
                opening_state(*snap),
                *snap,
                active@,
                occ_views(occs@),
                Events { capitalise: capitalise@, pay: pay@ },
                as_of.days as int,
                days_between(as_of, horizon),
            );
            match r {
                Some(w) => end.ok && occ_views(w.extra@) == end.extra && point_views(w.balances@)
                    == end.balances,
                None => !end.ok,
            }
        }),
{
    let ghost ev = Events { capitalise: capitalise@, pay: pay@ };
    let ghost st = opening_state(*snap);
    let mut run = Run {
        running: snap.opening.clone(),
        accrued: BTreeMap::new(),
        statement: BTreeMap::new(),
        extra: Vec::new(),
        balances: Vec::new(),
        touched: Vec::new(),
    };
    proof {
        assert(occ_views(run.extra@) =~= Seq::<OccView>::empty());
        assert(point_views(run.balances@) =~= Seq::<PointView>::empty());
    }
    let mut day: i32 = as_of.days;
    while day <= horizon.days
        invariant
            horizon.days <= MAX_DAYS,
            as_of.days <= day,
            day <= horizon.days + 1 || day == as_of.days,
            ev == (Events { capitalise: capitalise@, pay: pay@ }),
            st == opening_state(*snap),
            run@ == walked(
                st,
                *snap,
                active@,
                occ_views(occs@),
                ev,
                as_of.days as int,
                (day - as_of.days) as nat,
            ),
        decreases horizon.days - day + 1,
    {
        if !day_step(&mut run, snap, active, occs, capitalise, pay, Date { days: day }) {
            proof {
                lemma_walk_unfit(
                    st,
                    *snap,
                    active@,
                    occ_views(occs@),
                    ev,
                    as_of.days as int,
                    (day - as_of.days + 1) as nat,
                    days_between(as_of, horizon),
                );
            }
            return None;
        }
        day = day + 1;
    }
    Some(Walk { extra: run.extra, balances: run.balances })
}

} // verus!
