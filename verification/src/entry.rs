//! The only maker of transactions and postings.
//!
//! Everything that records money goes through here -- manual entry, CSV import and the conversion
//! builder. Centralising it is what makes the balance invariant a property of the system rather
//! than a habit: there is one place to be wrong, and it is proved.
//!
//! Two rules are enforced that a database cannot express: postings sum to zero within each
//! currency, and `system` accounts (the FX trading accounts) are core-written only.

use crate::book::{
    account_of, balanced, find, known, leg_views, net_in, same_legs, Account, Leg, LegView,
};
use crate::date::{iso, read_day, Date};
use crate::digits::{int_digits, int_text};
use crate::fx::{build_conversion, conversion_views, FxError};
use crate::money::Minor;
use crate::tally::{add_to, in_order, lemma_sum_at, nonzero, sum_of, Sum};
use crate::text::{
    ascii_lower, chars_of, has_part, lower_ascii, opt_view, part_at, str_eq, text_less, text_lt, trim,
    trimmed, views,
};
use vstd::prelude::*;

verus! {

broadcast use vstd::string::group_string_axioms;

/// A posting as a caller gives it: the currency is a property of the account.
#[derive(Debug, Clone)]
pub struct NewPosting {
    pub account_id: i64,
    pub amount_minor: Minor,
}

/// A payment as a caller gives it.
#[derive(Debug, Clone)]
pub struct NewTxn {
    pub occurred_on: String,
    pub description: String,
    pub payee: Option<String>,
    pub note: Option<String>,
    pub postings: Vec<NewPosting>,
}

/// One leg of a payment chain: where the money goes next, on what day, and how much of it.
#[derive(Debug, Clone)]
pub struct NewHop {
    pub to_account: i64,
    pub occurred_on: String,
    pub amount_minor: Minor,
}

/// Money moving through several accounts, entered in one go. It leaves `from_account`; each hop
/// says where it goes next. Every hop becomes an ordinary two-posting payment with its own date
/// and amount, and all of them carry the one `description`.
#[derive(Debug, Clone)]
pub struct NewChain {
    pub description: String,
    pub from_account: i64,
    pub hops: Vec<NewHop>,
}

/// A conversion's two real legs, for `update`: what left `from_account` and what arrived at
/// `to_account`, both positive. The legs that make each currency balance are built by the core.
#[derive(Debug, Clone)]
pub struct NewConversion {
    pub from_account: i64,
    pub from_minor: Minor,
    pub to_account: i64,
    pub to_minor: Minor,
}

/// What `update` may change about a payment. An absent field is left as it is.
///
/// `payee` and `note` are optional twice over: absent leaves them alone, `Some(None)` clears them.
/// `postings` replaces every leg with the ones given, checked like a new payment's; `conversion`
/// does the same for a cross-currency payment. One or the other, never both.
#[derive(Debug, Clone)]
pub struct TxnPatch {
    pub occurred_on: Option<String>,
    pub description: Option<String>,
    pub payee: Option<Option<String>>,
    pub note: Option<Option<String>>,
    pub postings: Option<Vec<NewPosting>>,
    pub conversion: Option<NewConversion>,
}

impl Default for TxnPatch {
    /// A patch that changes nothing.
    fn default() -> (r: TxnPatch)
        ensures
            r.occurred_on is None && r.description is None && r.payee is None && r.note is None
                && r.postings is None && r.conversion is None,
    {
        TxnPatch {
            occurred_on: None,
            description: None,
            payee: None,
            note: None,
            postings: None,
            conversion: None,
        }
    }
}

/// Why a payment was refused.
#[derive(Debug)]
pub enum EntryError {
    /// The postings do not sum to zero. Carries the per-currency residual so the message can say
    /// what is missing rather than just that something is.
    Unbalanced(Vec<Sum>),
    TooFewPostings,
    NoSuchAccount(i64),
    /// A caller tried to post to a trading account: a hand-written entry there silently breaks the
    /// conversion residual.
    SystemAccount(String),
    NotFound(i64),
    /// A payment chain that cannot be recorded as asked. Nothing of the chain is written.
    Chain(String),
    /// An edit that cannot be applied as asked. Nothing is written.
    Invalid(String),
}

/// How a list of residuals reads: each currency with its sum.
pub open spec fn residual_parts(rows: Seq<Sum>) -> Seq<Seq<char>> {
    rows.map_values(|s: Sum| s.name@ + " "@ + int_digits(s.total as int))
}

impl EntryError {
    /// The message, as a sequence of characters.
    pub open spec fn text(self) -> Seq<char> {
        match self {
            EntryError::Unbalanced(rows) => "postings do not sum to zero: residual "@
                + crate::text::joined(residual_parts(rows@), ", "@),
            EntryError::TooFewPostings => "a transaction needs at least two postings"@,
            EntryError::NoSuchAccount(id) => "no such account: "@ + int_digits(id as int),
            EntryError::SystemAccount(n) => n@
                + " is a system account -- only the core may post to it"@,
            EntryError::NotFound(id) => "no such transaction: "@ + int_digits(id as int),
            EntryError::Chain(m) => m@,
            EntryError::Invalid(m) => m@,
        }
    }

    /// The message a person reads.
    pub fn to_text(&self) -> (r: String)
        ensures
            r@ == self.text(),
    {
        match self {
            EntryError::Unbalanced(rows) => {
                let mut parts: Vec<String> = Vec::new();
                let mut i: usize = 0;
                assert(views(parts@) =~= residual_parts(rows@.take(0)));
                while i < rows.len()
                    invariant
                        i <= rows@.len(),
                        views(parts@) == residual_parts(rows@.take(i as int)),
                    decreases rows@.len() - i,
                {
                    let ghost before = parts@;
                    let mut p = rows[i].name.clone();
                    let n = int_text(rows[i].total);
                    p.append(" ");
                    p.append(n.as_str());
                    assert(views(before.push(p)) =~= views(before).push(p@));
                    assert(residual_parts(rows@.take(i + 1)) =~= residual_parts(
                        rows@.take(i as int),
                    ).push(p@));
                    parts.push(p);
                    i = i + 1;
                }
                assert(rows@.take(rows@.len() as int) =~= rows@);
                let mut out = "postings do not sum to zero: residual ".to_string();
                let list = crate::text::join(&parts, ", ");
                out.append(list.as_str());
                out
            },
            EntryError::TooFewPostings => "a transaction needs at least two postings".to_string(),
            EntryError::NoSuchAccount(id) => {
                let mut out = "no such account: ".to_string();
                let n = int_text(*id as i128);
                out.append(n.as_str());
                out
            },
            EntryError::SystemAccount(n) => {
                let mut out = n.clone();
                out.append(" is a system account -- only the core may post to it");
                out
            },
            EntryError::NotFound(id) => {
                let mut out = "no such transaction: ".to_string();
                let n = int_text(*id as i128);
                out.append(n.as_str());
                out
            },
            EntryError::Chain(m) => m.clone(),
            EntryError::Invalid(m) => m.clone(),
        }
    }
}

/// The place of the first posting whose account is unknown or a system account, or the number of
/// postings where every account may be posted to.
pub open spec fn first_refused(accounts: Seq<Account>, postings: Seq<NewPosting>) -> int
    decreases postings.len(),
{
    if postings.len() == 0 {
        0
    } else if !may_post(accounts, postings[0].account_id) {
        0
    } else {
        1 + first_refused(accounts, postings.drop_first())
    }
}

/// Whether an operator may post to an account: it is in the book and not the core's own.
pub open spec fn may_post(accounts: Seq<Account>, id: i64) -> bool {
    known(accounts, id) && !account_of(accounts, id).system
}

proof fn lemma_first_refused(accounts: Seq<Account>, postings: Seq<NewPosting>, i: int)
    requires
        0 <= i <= postings.len(),
        forall|j: int| 0 <= j < i ==> may_post(accounts, (#[trigger] postings[j]).account_id),
        i < postings.len() ==> !may_post(accounts, postings[i].account_id),
    ensures
        first_refused(accounts, postings) == i,
    decreases i,
{
    if i > 0 {
        assert(may_post(accounts, postings[0].account_id));
        let rest = postings.drop_first();
        assert forall|j: int| 0 <= j < i - 1 implies may_post(
            accounts,
            (#[trigger] rest[j]).account_id,
        ) by {
            assert(may_post(accounts, postings[j + 1].account_id));
        }
        lemma_first_refused(accounts, rest, i - 1);
    }
}

/// The postings as legs, each in the currency its account holds.
pub open spec fn legs_of(accounts: Seq<Account>, postings: Seq<NewPosting>) -> Seq<LegView> {
    postings.map_values(
        |p: NewPosting|
            LegView {
                account_id: p.account_id,
                currency: account_of(accounts, p.account_id).currency@,
                amount_minor: p.amount_minor as int,
            },
    )
}

/// Whether the refusal of an account says what is wrong with it.
pub open spec fn refuses_account(e: EntryError, accounts: Seq<Account>, id: i64) -> bool {
    if !known(accounts, id) {
        e == EntryError::NoSuchAccount(id)
    } else {
        e matches EntryError::SystemAccount(n) && n@ == account_of(accounts, id).name@
    }
}

/// Look up each posting's account, rejecting unknown and system accounts, and give each posting the
/// currency its account holds. The caller never supplies a currency, so there is no way for the two
/// to disagree.
pub fn resolve_currencies(accounts: &Vec<Account>, postings: &Vec<NewPosting>) -> (r: Result<
    Vec<Leg>,
    EntryError,
>)
    ensures
        ({
            let i = first_refused(accounts@, postings@);
            match r {
                Ok(legs) => i == postings@.len() && leg_views(legs@) == legs_of(
                    accounts@,
                    postings@,
                ),
                Err(e) => i < postings@.len() && refuses_account(
                    e,
                    accounts@,
                    postings@[i].account_id,
                ),
            }
        }),
{
    let mut out: Vec<Leg> = Vec::new();
    let mut i: usize = 0;
    assert(leg_views(out@) =~= legs_of(accounts@, postings@.take(0)));
    while i < postings.len()
        invariant
            i <= postings@.len(),
            leg_views(out@) == legs_of(accounts@, postings@.take(i as int)),
            forall|j: int|
                0 <= j < i ==> may_post(accounts@, (#[trigger] postings@[j]).account_id),
        decreases postings@.len() - i,
    {
        let id: i64 = postings[i].account_id;
        match find(accounts, id) {
            None => {
                proof {
                    lemma_first_refused(accounts@, postings@, i as int);
                }
                return Err(EntryError::NoSuchAccount(id));
            },
            Some(k) => {
                if accounts[k].system {
                    proof {
                        lemma_first_refused(accounts@, postings@, i as int);
                    }
                    return Err(EntryError::SystemAccount(accounts[k].name.clone()));
                }
                let leg = Leg {
                    account_id: id,
                    currency: accounts[k].currency.clone(),
                    amount_minor: postings[i].amount_minor,
                };
                let ghost before = out@;
                out.push(leg);
                assert(leg_views(out@) =~= leg_views(before).push(leg@));
                assert(legs_of(accounts@, postings@.take(i + 1)) =~= legs_of(
                    accounts@,
                    postings@.take(i as int),
                ).push(leg@));
            },
        }
        i = i + 1;
    }
    proof {
        lemma_first_refused(accounts@, postings@, i as int);
    }
    assert(postings@.take(postings@.len() as int) =~= postings@);
    Ok(out)
}

/// Whether rows are the residual of legs: every currency that does not come to nothing, in order,
/// with what it comes to.
pub open spec fn is_residual(rows: Seq<Sum>, legs: Seq<LegView>) -> bool {
    &&& in_order(rows)
    &&& forall|c: Seq<char>| #[trigger] sum_of(rows, c) == net_in(legs, c)
    &&& forall|i: int| 0 <= i < rows.len() ==> (#[trigger] rows[i]).total != 0
}

proof fn lemma_net_bound(legs: Seq<LegView>, c: Seq<char>)
    requires
        forall|i: int|
            0 <= i < legs.len() ==> i64::MIN <= (#[trigger] legs[i]).amount_minor <= i64::MAX,
    ensures
        -0x8000_0000_0000_0000 * legs.len() <= net_in(legs, c) <= 0x8000_0000_0000_0000
            * legs.len(),
    decreases legs.len(),
{
    if legs.len() > 0 {
        assert(i64::MIN <= legs[legs.len() - 1].amount_minor <= i64::MAX);
        let rest = legs.drop_last();
        assert forall|i: int| 0 <= i < rest.len() implies i64::MIN <= (
        #[trigger] rest[i]).amount_minor <= i64::MAX by {
            assert(i64::MIN <= legs[i].amount_minor <= i64::MAX);
        }
        lemma_net_bound(rest, c);
    }
}

/// Sum per currency and return the residual, empty when balanced.
pub fn residual(legs: &Vec<Leg>) -> (r: Vec<Sum>)
    ensures
        is_residual(r@, leg_views(legs@)),
        r@.len() == 0 <==> balanced(leg_views(legs@)),
{
    let mut sums: Vec<Sum> = Vec::new();
    let mut i: usize = 0;
    while i < legs.len()
        invariant
            i <= legs.len(),
            in_order(sums@),
            forall|c: Seq<char>| #[trigger]
                sum_of(sums@, c) == net_in(leg_views(legs@).take(i as int), c),
        decreases legs.len() - i,
    {
        let ghost all = leg_views(legs@);
        let ghost before = sums@;
        let cur = legs[i].currency.as_str();
        let amount: i128 = legs[i].amount_minor as i128;
        proof {
            assert(all.take(i + 1).drop_last() =~= all.take(i as int));
            assert(all.take(i + 1).last() == legs@[i as int]@);
            assert forall|j: int| 0 <= j < all.take(i as int).len() implies i64::MIN <= (
            #[trigger] all.take(i as int)[j]).amount_minor <= i64::MAX by {
                assert(all[j] == legs@[j]@);
            }
            lemma_net_bound(all.take(i as int), cur@);
            assert(sum_of(before, cur@) == net_in(all.take(i as int), cur@));
        }
        add_to(&mut sums, cur, amount);
        i = i + 1;
        proof {
            assert forall|c: Seq<char>| #[trigger]
                sum_of(sums@, c) == net_in(all.take(i as int), c) by {
                assert(sum_of(before, c) == net_in(all.take(i - 1), c));
            }
        }
    }
    assert(leg_views(legs@).take(legs@.len() as int) =~= leg_views(legs@));
    let out = nonzero(&sums);
    proof {
        let all = leg_views(legs@);
        assert forall|c: Seq<char>| #[trigger] sum_of(out@, c) == net_in(all, c) by {
            assert(sum_of(sums@, c) == net_in(all, c));
        }
        if out@.len() == 0 {
            assert forall|c: Seq<char>| #[trigger] net_in(all, c) == 0 by {
                assert(sum_of(out@, c) == 0);
            }
        } else {
            lemma_sum_at(out@, 0);
            assert(net_in(all, out@[0].name@) != 0);
        }
    }
    out
}

/// Check a payment and give the legs it is recorded with.
///
/// At least two postings, to accounts an operator may post to, that sum to zero within each
/// currency; otherwise nothing is recorded.
pub fn create(accounts: &Vec<Account>, new: &NewTxn) -> (r: Result<Vec<Leg>, EntryError>)
    ensures
        checked(r, accounts@, new.postings@),
{
    check_postings(accounts, &new.postings)
}

/// Whether `r` is what checking postings comes to.
pub open spec fn checked(
    r: Result<Vec<Leg>, EntryError>,
    accounts: Seq<Account>,
    postings: Seq<NewPosting>,
) -> bool {
    let i = first_refused(accounts, postings);
    let legs = legs_of(accounts, postings);
    if postings.len() < 2 {
        r matches Err(e) && e == EntryError::TooFewPostings
    } else if i < postings.len() {
        r matches Err(e) && refuses_account(e, accounts, postings[i].account_id)
    } else if !balanced(legs) {
        r matches Err(EntryError::Unbalanced(rows)) && is_residual(rows@, legs)
    } else {
        r matches Ok(out) && leg_views(out@) == legs
    }
}

fn check_postings(accounts: &Vec<Account>, postings: &Vec<NewPosting>) -> (r: Result<
    Vec<Leg>,
    EntryError,
>)
    ensures
        checked(r, accounts@, postings@),
{
    if postings.len() < 2 {
        return Err(EntryError::TooFewPostings);
    }
    let legs = match resolve_currencies(accounts, postings) {
        Ok(l) => l,
        Err(e) => {
            return Err(e);
        },
    };
    let rest = residual(&legs);
    if rest.len() > 0 {
        return Err(EntryError::Unbalanced(rest));
    }
    Ok(legs)
}

/// A recorded payment balances in every currency, has two legs at least, and touches no system
/// account.
pub proof fn law_recorded_payments_balance(
    r: Result<Vec<Leg>, EntryError>,
    accounts: Seq<Account>,
    postings: Seq<NewPosting>,
)
    requires
        checked(r, accounts, postings),
        r is Ok,
    ensures
        balanced(leg_views(r->Ok_0@)),
        r->Ok_0@.len() >= 2,
        forall|i: int|
            0 <= i < r->Ok_0@.len() ==> may_post(accounts, (#[trigger] r->Ok_0@[i]).account_id),
{
    let out = r->Ok_0;
    assert(leg_views(out@).len() == out@.len());
    assert forall|i: int| 0 <= i < out@.len() implies may_post(
        accounts,
        (#[trigger] out@[i]).account_id,
    ) by {
        assert(leg_views(out@)[i] == out@[i]@);
        lemma_unrefused(accounts, postings, i);
    }
}

proof fn lemma_refused_bounds(accounts: Seq<Account>, postings: Seq<NewPosting>)
    ensures
        0 <= first_refused(accounts, postings) <= postings.len(),
    decreases postings.len(),
{
    if postings.len() > 0 {
        lemma_refused_bounds(accounts, postings.drop_first());
    }
}

proof fn lemma_unrefused(accounts: Seq<Account>, postings: Seq<NewPosting>, i: int)
    requires
        first_refused(accounts, postings) >= postings.len(),
        0 <= i < postings.len(),
    ensures
        may_post(accounts, postings[i].account_id),
    decreases postings.len(),
{
    if i > 0 {
        lemma_unrefused(accounts, postings.drop_first(), i - 1);
    }
}

/// One payment of a chain, ready to be recorded. Each after the first is linked to the one before.
#[derive(Debug, Clone)]
pub struct ChainStep {
    pub occurred_on: String,
    pub description: String,
    pub legs: Vec<Leg>,
}

/// The accounts a chain goes through, in order.
pub open spec fn route(chain: NewChain) -> Seq<i64> {
    seq![chain.from_account] + chain.hops@.map_values(|h: NewHop| h.to_account)
}

/// The route as postings of nothing, to look the accounts up with.
pub open spec fn probes(route: Seq<i64>) -> Seq<NewPosting> {
    route.map_values(|id: i64| NewPosting { account_id: id, amount_minor: 0 })
}

/// Whether the hop at a place moves no positive amount.
pub open spec fn moves_nothing(chain: NewChain) -> spec_fn(int) -> bool {
    |i: int| chain.hops@[i].amount_minor <= 0
}

/// Whether the route stays where it is at a place.
pub open spec fn stays(chain: NewChain) -> spec_fn(int) -> bool {
    |i: int| route(chain)[i] == route(chain)[i + 1]
}

/// Whether the hop at a place is on no such day: `canonical` is how the calendar writes its date.
pub open spec fn no_day(chain: NewChain, canonical: Seq<Option<String>>, i: int) -> bool {
    opt_view(canonical[i]) != Some(chain.hops@[i].occurred_on@)
}

/// Whether the hop at a place is dated before the hop before it.
pub open spec fn runs_back(chain: NewChain, i: int) -> bool {
    i > 0 && text_lt(chain.hops@[i].occurred_on@, chain.hops@[i - 1].occurred_on@)
}

/// Whether the date of the hop at a place is refused.
pub open spec fn bad_date(chain: NewChain, canonical: Seq<Option<String>>) -> spec_fn(int) -> bool {
    |i: int| no_day(chain, canonical, i) || runs_back(chain, i)
}

/// Whether the account at a place of the route holds another currency than the first.
pub open spec fn other_currency(accounts: Seq<Account>, chain: NewChain) -> spec_fn(int) -> bool {
    |i: int|
        account_of(accounts, route(chain)[i]).currency@ != account_of(
            accounts,
            route(chain)[0],
        ).currency@
}

/// Whether money cannot sit in the account at a place of the route, the place being a stop.
pub open spec fn no_stop(accounts: Seq<Account>, chain: NewChain) -> spec_fn(int) -> bool {
    |i: int|
        i > 0 && {
            let kind = account_of(accounts, route(chain)[i]).kind@;
            kind != "asset"@ && kind != "liability"@
        }
}

/// What a chain is refused with.
pub enum ChainRefusal {
    /// A message in the operator's terms.
    Says(Seq<char>),
    /// An account of the route that may not be posted to.
    Account(i64),
}

/// Why a chain is refused, if it is: the first of these that holds. Each hop's date has to be a real
/// day, said the one way the calendar writes it, and the hops have to run forward in time. One
/// currency end to end: a hop between currencies is a conversion. Only balance-sheet accounts in the
/// middle: money passes through places it can sit.
pub open spec fn chain_refusal(
    accounts: Seq<Account>,
    chain: NewChain,
    canonical: Seq<Option<String>>,
) -> Option<ChainRefusal> {
    let hops = chain.hops@;
    let r = route(chain);
    let n = hops.len() as int;
    let nothing = crate::lists::first(n, moves_nothing(chain));
    let still = crate::lists::first(n, stays(chain));
    let dated = crate::lists::first(n, bad_date(chain, canonical));
    let refused = first_refused(accounts, probes(r));
    let other = crate::lists::first(n + 1, other_currency(accounts, chain));
    let stop = crate::lists::first(n, no_stop(accounts, chain));
    if n < 2 {
        Some(ChainRefusal::Says("a chain needs at least one stop between from and to"@))
    } else if nothing < n {
        Some(
            ChainRefusal::Says(
                "every payment in a chain moves a positive amount, and "@ + int_digits(
                    hops[nothing].amount_minor as int,
                ) + " is not one"@,
            ),
        )
    } else if still < n {
        Some(ChainRefusal::Says("a chain cannot move money from an account to itself"@))
    } else if dated < n {
        if no_day(chain, canonical, dated) {
            Some(
                ChainRefusal::Says(
                    "hop "@ + int_digits(dated + 1) + " is on no such day: "@
                        + hops[dated].occurred_on@,
                ),
            )
        } else {
            Some(
                ChainRefusal::Says(
                    "hop "@ + int_digits(dated + 1) + " is dated "@ + hops[dated].occurred_on@
                        + " but the hop before it is dated "@ + hops[dated - 1].occurred_on@
                        + ": a chain runs forward in time"@,
                ),
            )
        }
    } else if refused < n + 1 {
        Some(ChainRefusal::Account(r[refused]))
    } else if other < n + 1 {
        let (a, b) = (account_of(accounts, r[0]), account_of(accounts, r[other]));
        Some(
            ChainRefusal::Says(
                "a chain stays in one currency: "@ + a.name@ + " holds "@ + a.currency@ + " but "@
                    + b.name@ + " holds "@ + b.currency@ + " -- record that leg as a conversion"@,
            ),
        )
    } else if stop < n {
        let a = account_of(accounts, r[stop]);
        Some(
            ChainRefusal::Says(
                "money can only pass through an asset or liability account: "@ + a.name@
                    + " is an "@ + a.kind@ + " account"@,
            ),
        )
    } else {
        None
    }
}

/// Whether a step is the payment the hop at a place becomes: out of where the money is, into where
/// the hop says, in the currency of the chain.
pub open spec fn is_hop(step: ChainStep, accounts: Seq<Account>, chain: NewChain, i: int) -> bool {
    let h = chain.hops@[i];
    let r = route(chain);
    &&& step.occurred_on@ == h.occurred_on@
    &&& step.description@ == chain.description@
    &&& leg_views(step.legs@) == hop_legs(
        account_of(accounts, r[i]).currency@,
        r[i],
        h.to_account,
        h.amount_minor as int,
    )
}

/// The two legs of a payment in one currency.
pub open spec fn hop_legs(currency: Seq<char>, from: i64, to: i64, amount: int) -> Seq<LegView> {
    seq![
        LegView { account_id: from, currency, amount_minor: -amount },
        LegView { account_id: to, currency, amount_minor: amount },
    ]
}

/// Every payment of a chain balances.
pub proof fn law_hops_balance(currency: Seq<char>, from: i64, to: i64, amount: int)
    ensures
        balanced(hop_legs(currency, from, to, amount)),
{
    let legs = hop_legs(currency, from, to, amount);
    let l1 = legs.drop_last();
    let l0 = l1.drop_last();
    assert forall|c: Seq<char>| #[trigger] net_in(legs, c) == 0 by {
        assert(net_in(l0, c) == 0);
        assert(net_in(l1, c) == (if currency == c {
            -amount
        } else {
            0
        }));
    }
}

/// A chain that is accepted carries the money on: each payment leaves the account the one before
/// arrived at.
pub proof fn law_a_chain_is_connected(
    steps: Seq<ChainStep>,
    accounts: Seq<Account>,
    chain: NewChain,
    i: int,
)
    requires
        steps.len() == chain.hops@.len(),
        forall|j: int| 0 <= j < steps.len() ==> is_hop(#[trigger] steps[j], accounts, chain, j),
        0 < i < steps.len(),
    ensures
        leg_views(steps[i].legs@)[0].account_id == leg_views(steps[i - 1].legs@)[1].account_id,
{
    assert(is_hop(steps[i], accounts, chain, i));
    assert(is_hop(steps[i - 1], accounts, chain, i - 1));
}

fn find_idle(chain: &NewChain) -> (r: usize)
    ensures
        r == crate::lists::first(chain.hops@.len() as int, moves_nothing(*chain)),
        r <= chain.hops@.len(),
{
    let n: usize = chain.hops.len();
    let mut i: usize = 0;
    while i < n && chain.hops[i].amount_minor > 0
        invariant
            n == chain.hops@.len(),
            i <= n,
            forall|j: int| 0 <= j < i ==> !#[trigger] moves_nothing(*chain)(j),
        decreases n - i,
    {
        i = i + 1;
    }
    proof {
        crate::lists::lemma_first(n as int, moves_nothing(*chain), i as int);
    }
    i
}

fn path_of(chain: &NewChain) -> (r: Vec<NewPosting>)
    ensures
        r@ == probes(route(*chain)),
        r@.len() == chain.hops@.len() + 1,
        forall|i: int| 0 <= i < r@.len() ==> (#[trigger] r@[i]).account_id == route(*chain)[i],
{
    let n: usize = chain.hops.len();
    let mut path: Vec<NewPosting> = Vec::new();
    path.push(NewPosting { account_id: chain.from_account, amount_minor: 0 });
    assert(path@ =~= probes(route(*chain)).take(1));
    let mut i: usize = 0;
    while i < n
        invariant
            n == chain.hops@.len(),
            i <= n,
            path@ == probes(route(*chain)).take(i + 1),
        decreases n - i,
    {
        path.push(NewPosting { account_id: chain.hops[i].to_account, amount_minor: 0 });
        i = i + 1;
        assert(path@ =~= probes(route(*chain)).take(i + 1));
    }
    assert(path@ =~= probes(route(*chain)));
    path
}

fn find_still(chain: &NewChain, path: &Vec<NewPosting>) -> (r: usize)
    requires
        path@ == probes(route(*chain)),
    ensures
        r == crate::lists::first(chain.hops@.len() as int, stays(*chain)),
        r <= chain.hops@.len(),
{
    let n: usize = chain.hops.len();
    assert(path@.len() == n + 1);
    let mut i: usize = 0;
    while i < n && path[i].account_id != path[i + 1].account_id
        invariant
            n == chain.hops@.len(),
            path@ == probes(route(*chain)),
            path@.len() == n + 1,
            i <= n,
            forall|j: int| 0 <= j < i ==> !#[trigger] stays(*chain)(j),
        decreases n - i,
    {
        i = i + 1;
    }
    proof {
        crate::lists::lemma_first(n as int, stays(*chain), i as int);
    }
    i
}

/// Whether the calendar writes a date the way it is written.
fn is_canonical(canonical: &Option<String>, date: &str) -> (r: bool)
    ensures
        r == (opt_view(*canonical) == Some(date@)),
{
    match canonical {
        Some(c) => str_eq(c.as_str(), date),
        None => false,
    }
}

fn find_bad_date(chain: &NewChain, canonical: &Vec<Option<String>>) -> (r: usize)
    requires
        canonical@.len() == chain.hops@.len(),
    ensures
        r == crate::lists::first(chain.hops@.len() as int, bad_date(*chain, canonical@)),
        r <= chain.hops@.len(),
{
    let n: usize = chain.hops.len();
    let mut i: usize = 0;
    while i < n
        invariant
            n == chain.hops@.len(),
            canonical@.len() == n,
            i <= n,
            forall|j: int| 0 <= j < i ==> !#[trigger] bad_date(*chain, canonical@)(j),
        decreases n - i,
    {
        if !is_canonical(&canonical[i], chain.hops[i].occurred_on.as_str()) || (i > 0 && text_less(
            chain.hops[i].occurred_on.as_str(),
            chain.hops[i - 1].occurred_on.as_str(),
        )) {
            proof {
                crate::lists::lemma_first(n as int, bad_date(*chain, canonical@), i as int);
            }
            return i;
        }
        i = i + 1;
    }
    proof {
        crate::lists::lemma_first(n as int, bad_date(*chain, canonical@), i as int);
    }
    i
}

/// The account of a chain's route at a place.
fn stop_at<'a>(accounts: &'a Vec<Account>, id: i64) -> (r: &'a Account)
    requires
        known(accounts@, id),
    ensures
        *r == account_of(accounts@, id),
{
    match find(accounts, id) {
        Some(i) => &accounts[i],
        None => &accounts[0],
    }
}

fn find_other_currency(accounts: &Vec<Account>, chain: &NewChain, path: &Vec<NewPosting>) -> (r:
    usize)
    requires
        path@ == probes(route(*chain)),
        forall|i: int| 0 <= i < path@.len() ==> known(accounts@, (#[trigger] path@[i]).account_id),
    ensures
        r == crate::lists::first((chain.hops@.len() + 1) as int, other_currency(accounts@, *chain)),
        r <= chain.hops@.len() + 1,
{
    assert(path@.len() == chain.hops@.len() + 1);
    let n: usize = path.len();
    let mut i: usize = 0;
    while i < n && str_eq(
        stop_at(accounts, path[i].account_id).currency.as_str(),
        stop_at(accounts, path[0].account_id).currency.as_str(),
    )
        invariant
            n == path@.len(),
            n == chain.hops@.len() + 1,
            path@ == probes(route(*chain)),
            forall|i: int|
                0 <= i < path@.len() ==> known(accounts@, (#[trigger] path@[i]).account_id),
            i <= n,
            forall|j: int| 0 <= j < i ==> !#[trigger] other_currency(accounts@, *chain)(j),
        decreases n - i,
    {
        assert(path@[i as int].account_id == route(*chain)[i as int]);
        i = i + 1;
    }
    proof {
        if i < n {
            assert(path@[i as int].account_id == route(*chain)[i as int]);
        }
        crate::lists::lemma_first(n as int, other_currency(accounts@, *chain), i as int);
    }
    i
}

fn find_no_stop(accounts: &Vec<Account>, chain: &NewChain, path: &Vec<NewPosting>) -> (r: usize)
    requires
        path@ == probes(route(*chain)),
        forall|i: int| 0 <= i < path@.len() ==> known(accounts@, (#[trigger] path@[i]).account_id),
    ensures
        r == crate::lists::first(chain.hops@.len() as int, no_stop(accounts@, *chain)),
        r <= chain.hops@.len(),
{
    assert(path@.len() == chain.hops@.len() + 1);
    let n: usize = chain.hops.len();
    let mut i: usize = 0;
    while i < n
        invariant
            n == chain.hops@.len(),
            path@.len() == n + 1,
            path@ == probes(route(*chain)),
            forall|i: int|
                0 <= i < path@.len() ==> known(accounts@, (#[trigger] path@[i]).account_id),
            i <= n,
            forall|j: int| 0 <= j < i ==> !#[trigger] no_stop(accounts@, *chain)(j),
        decreases n - i,
    {
        assert(path@[i as int].account_id == route(*chain)[i as int]);
        if i > 0 {
            let kind = stop_at(accounts, path[i].account_id).kind.as_str();
            if !str_eq(kind, "asset") && !str_eq(kind, "liability") {
                proof {
                    crate::lists::lemma_first(n as int, no_stop(accounts@, *chain), i as int);
                }
                return i;
            }
        }
        i = i + 1;
    }
    proof {
        crate::lists::lemma_first(n as int, no_stop(accounts@, *chain), i as int);
    }
    i
}

/// How the calendar writes the day that a text is, if it is one.
pub fn canonical_day(t: &str) -> (r: Option<String>)
    ensures
        match read_day(t@, "%Y-%m-%d"@) {
            Some(n) => r matches Some(s) && s@ == iso(n),
            None => r is None,
        },
{
    match Date::parse(t) {
        Some(d) => Some(d.to_text()),
        None => None,
    }
}

/// Record a payment chain: one payment per hop, each linked to the one before, all of them or none.
///
/// Each hop is an ordinary two-posting transaction, so every reader sees plain payments and nothing
/// new has to learn about chains. `canonical` holds, for each hop, how the calendar writes its date,
/// if the date is one. Either end of the chain may be any account.
pub fn create_chain(
    accounts: &Vec<Account>,
    chain: &NewChain,
    canonical: &Vec<Option<String>>,
) -> (r: Result<Vec<ChainStep>, EntryError>)
    requires
        canonical@.len() == chain.hops@.len(),
    ensures
        match chain_refusal(accounts@, *chain, canonical@) {
            Some(ChainRefusal::Says(m)) => r matches Err(EntryError::Chain(s)) && s@ == m,
            Some(ChainRefusal::Account(id)) => r matches Err(e) && refuses_account(e, accounts@, id),
            None => r matches Ok(steps) && steps@.len() == chain.hops@.len() && forall|i: int|
                0 <= i < steps@.len() ==> is_hop(#[trigger] steps@[i], accounts@, *chain, i),
        },
{
    let n: usize = chain.hops.len();
    if n < 2 {
        return Err(
            EntryError::Chain("a chain needs at least one stop between from and to".to_string()),
        );
    }
    let idle: usize = find_idle(chain);
    if idle < n {
        let mut m = "every payment in a chain moves a positive amount, and ".to_string();
        let a = int_text(chain.hops[idle].amount_minor as i128);
        m.append(a.as_str());
        m.append(" is not one");
        return Err(EntryError::Chain(m));
    }
    let path = path_of(chain);
    if find_still(chain, &path) < n {
        return Err(
            EntryError::Chain("a chain cannot move money from an account to itself".to_string()),
        );
    }
    let dated: usize = find_bad_date(chain, canonical);
    if dated < n {
        let on = chain.hops[dated].occurred_on.as_str();
        let mut m = "hop ".to_string();
        let k = int_text(dated as i128 + 1);
        m.append(k.as_str());
        if !is_canonical(&canonical[dated], on) {
            m.append(" is on no such day: ");
            m.append(on);
            return Err(EntryError::Chain(m));
        }
        proof {
            crate::lists::lemma_first_is(n as int, bad_date(*chain, canonical@));
            assert(bad_date(*chain, canonical@)(dated as int));
        }
        m.append(" is dated ");
        m.append(on);
        m.append(" but the hop before it is dated ");
        m.append(chain.hops[dated - 1].occurred_on.as_str());
        m.append(": a chain runs forward in time");
        return Err(EntryError::Chain(m));
    }
    // Resolving every account up front also rejects unknown and system accounts before anything is
    // written, with the same errors a single payment would give.
    let legs = match resolve_currencies(accounts, &path) {
        Ok(l) => l,
        Err(e) => {
            proof {
                lemma_refused_bounds(accounts@, path@);
                assert(path@[first_refused(accounts@, path@)].account_id == route(
                    *chain,
                )[first_refused(accounts@, path@)]);
            }
            return Err(e);
        },
    };
    proof {
        assert forall|i: int| 0 <= i < path@.len() implies known(
            accounts@,
            (#[trigger] path@[i]).account_id,
        ) by {
            lemma_unrefused(accounts@, path@, i);
        }
    }
    let other: usize = find_other_currency(accounts, chain, &path);
    if other < n + 1 {
        let a = stop_at(accounts, path[0].account_id);
        let b = stop_at(accounts, path[other].account_id);
        let mut m = "a chain stays in one currency: ".to_string();
        m.append(a.name.as_str());
        m.append(" holds ");
        m.append(a.currency.as_str());
        m.append(" but ");
        m.append(b.name.as_str());
        m.append(" holds ");
        m.append(b.currency.as_str());
        m.append(" -- record that leg as a conversion");
        return Err(EntryError::Chain(m));
    }
    let stop: usize = find_no_stop(accounts, chain, &path);
    if stop < n {
        let a = stop_at(accounts, path[stop].account_id);
        let mut m = "money can only pass through an asset or liability account: ".to_string();
        m.append(a.name.as_str());
        m.append(" is an ");
        m.append(a.kind.as_str());
        m.append(" account");
        return Err(EntryError::Chain(m));
    }
    proof {
        crate::lists::lemma_first_is(n as int, moves_nothing(*chain));
        crate::lists::lemma_first_is(n + 1, other_currency(accounts@, *chain));
        assert(chain_refusal(accounts@, *chain, canonical@) is None);
        assert(leg_views(legs@).len() == legs@.len());
    }
    let mut steps: Vec<ChainStep> = Vec::new();
    let mut i: usize = 0;
    while i < n
        invariant
            n == chain.hops@.len(),
            path@ == probes(route(*chain)),
            path@.len() == n + 1,
            leg_views(legs@) == legs_of(accounts@, path@),
            legs@.len() == n + 1,
            forall|j: int| 0 <= j < n ==> !#[trigger] moves_nothing(*chain)(j),
            forall|j: int| 0 <= j < n + 1 ==> !#[trigger] other_currency(accounts@, *chain)(j),
            i <= n,
            steps@.len() == i,
            forall|j: int| 0 <= j < i ==> is_hop(#[trigger] steps@[j], accounts@, *chain, j),
        decreases n - i,
    {
        let amount = chain.hops[i].amount_minor;
        proof {
            assert(!moves_nothing(*chain)(i as int));
            assert(path@[i as int].account_id == route(*chain)[i as int]);
            assert(path@[i + 1].account_id == route(*chain)[i + 1]);
            assert(leg_views(legs@)[i as int] == legs@[i as int]@);
            assert(!other_currency(accounts@, *chain)(i as int));
        }
        let out_leg = Leg {
            account_id: path[i].account_id,
            currency: legs[i].currency.clone(),
            amount_minor: -amount,
        };
        let in_leg = Leg {
            account_id: path[i + 1].account_id,
            currency: legs[i].currency.clone(),
            amount_minor: amount,
        };
        let mut pair: Vec<Leg> = Vec::new();
        pair.push(out_leg);
        pair.push(in_leg);
        let step = ChainStep {
            occurred_on: chain.hops[i].occurred_on.clone(),
            description: chain.description.clone(),
            legs: pair,
        };
        proof {
            assert(leg_views(pair@) =~= hop_legs(
                account_of(accounts@, route(*chain)[i as int]).currency@,
                route(*chain)[i as int],
                chain.hops@[i as int].to_account,
                amount as int,
            ));
            assert(is_hop(step, accounts@, *chain, i as int));
        }
        steps.push(step);
        i = i + 1;
    }
    Ok(steps)
}

/// What an accepted edit changes. What is absent stays as it is.
#[derive(Debug, Clone)]
pub struct Changes {
    pub occurred_on: Option<String>,
    pub description: Option<String>,
    pub payee: Option<Option<String>>,
    pub note: Option<Option<String>>,
    /// The legs that replace the recorded ones, where they differ from them.
    pub legs: Option<Vec<Leg>>,
}

/// What comes of an edit.
#[derive(Debug, Clone)]
pub enum Edit {
    /// The trading accounts of these two currencies are needed first.
    OpenTrading { from: String, to: String },
    /// The changes to write, all of them or none.
    Apply(Changes),
}

/// A blank payee or note is the same as none.
pub open spec fn blank_is_none(v: Option<Seq<char>>) -> Option<Seq<char>> {
    match v {
        Some(s) => if trimmed(s).len() == 0 {
            None
        } else {
            Some(trimmed(s))
        },
        None => None,
    }
}

/// A blank payee or note is the same as none: nothing rather than a text that reads as having one.
pub fn blank_to_none(v: &Option<String>) -> (r: Option<String>)
    ensures
        opt_view(r) == blank_is_none(opt_view(*v)),
{
    match v {
        Some(s) => {
            let t = trim(s.as_str());
            if t.as_str().unicode_len() == 0 {
                None
            } else {
                Some(t)
            }
        },
        None => None,
    }
}

/// The text of a field that may be left, cleared or set.
pub open spec fn opt_opt_view(o: Option<Option<String>>) -> Option<Option<Seq<char>>> {
    match o {
        Some(v) => Some(opt_view(v)),
        None => None,
    }
}

/// What a field of a patch comes to: left alone, or set with a blank counting as none.
pub open spec fn settled(o: Option<Option<String>>) -> Option<Option<Seq<char>>> {
    match o {
        Some(v) => Some(blank_is_none(opt_view(v))),
        None => None,
    }
}

fn settle(o: &Option<Option<String>>) -> (r: Option<Option<String>>)
    ensures
        opt_opt_view(r) == settled(*o),
{
    match o {
        Some(v) => Some(blank_to_none(v)),
        None => None,
    }
}

/// The two real legs of a conversion as postings, to look the accounts up with.
pub open spec fn conversion_probe(c: NewConversion) -> Seq<NewPosting> {
    seq![
        NewPosting { account_id: c.from_account, amount_minor: (-c.from_minor) as i64 },
        NewPosting { account_id: c.to_account, amount_minor: c.to_minor },
    ]
}

/// What restating a payment's legs comes to.
pub enum Restated {
    /// The patch does not restate them.
    Left,
    /// They are these.
    Legs(Seq<LegView>),
    /// The trading accounts of these currencies are needed first.
    Needs(Seq<char>, Seq<char>),
    /// Refused, in these words.
    Says(Seq<char>),
    /// Refused: an account may not be posted to.
    Account(i64),
    /// Refused: fewer than two postings.
    TooFew,
    /// Refused: these legs do not balance.
    Unbalanced(Seq<LegView>),
}

/// What restating the legs comes to, from whichever form the patch gives them in. The legs of a new
/// payment and of an edited one go through the same checks.
pub open spec fn restated(
    accounts: Seq<Account>,
    trading: Option<(i64, i64)>,
    patch: TxnPatch,
) -> Restated {
    match (patch.postings, patch.conversion) {
        (Some(postings), _) => {
            let legs = legs_of(accounts, postings@);
            let i = first_refused(accounts, postings@);
            if postings@.len() < 2 {
                Restated::TooFew
            } else if i < postings@.len() {
                Restated::Account(postings@[i].account_id)
            } else if !balanced(legs) {
                Restated::Unbalanced(legs)
            } else {
                Restated::Legs(legs)
            }
        },
        (None, Some(c)) => {
            let probe = conversion_probe(c);
            let i = first_refused(accounts, probe);
            let a = account_of(accounts, c.from_account).currency@;
            let b = account_of(accounts, c.to_account).currency@;
            if c.from_minor <= 0 || c.to_minor <= 0 {
                Restated::Says(
                    "a conversion's amounts are what left and what arrived, both positive"@,
                )
            } else if i < 2 {
                Restated::Account(probe[i].account_id)
            } else if a == b {
                Restated::Says(a + " to itself is not a conversion"@)
            } else {
                match trading {
                    None => Restated::Needs(a, b),
                    Some(t) => Restated::Legs(
                        conversion_views(
                            c.from_account,
                            a,
                            c.from_minor as int,
                            t.0,
                            c.to_account,
                            b,
                            c.to_minor as int,
                            t.1,
                        ),
                    ),
                }
            }
        },
        (None, None) => Restated::Left,
    }
}

/// The legs a patch gives, resolved.
enum Given {
    Left,
    Legs(Vec<Leg>),
    Needs(String, String),
}

/// Whether a refusal of restated legs says why.
pub open spec fn refuses_legs(e: EntryError, accounts: Seq<Account>, what: Restated) -> bool {
    match what {
        Restated::Says(m) => e matches EntryError::Invalid(s) && s@ == m,
        Restated::Account(id) => refuses_account(e, accounts, id),
        Restated::TooFew => e == EntryError::TooFewPostings,
        Restated::Unbalanced(legs) => e matches EntryError::Unbalanced(rows) && is_residual(
            rows@,
            legs,
        ),
        _ => false,
    }
}

fn restate(accounts: &Vec<Account>, trading: Option<(i64, i64)>, patch: &TxnPatch) -> (r: Result<
    Given,
    EntryError,
>)
    ensures
        match r {
            Ok(Given::Left) => restated(accounts@, trading, *patch) is Left,
            Ok(Given::Legs(l)) => restated(accounts@, trading, *patch) == Restated::Legs(
                leg_views(l@),
            ),
            Ok(Given::Needs(a, b)) => restated(accounts@, trading, *patch) == Restated::Needs(
                a@,
                b@,
            ),
            Err(e) => refuses_legs(e, accounts@, restated(accounts@, trading, *patch)),
        },
{
    if let Some(postings) = &patch.postings {
        return match check_postings(accounts, postings) {
            Ok(legs) => Ok(Given::Legs(legs)),
            Err(e) => Err(e),
        };
    }
    if let Some(c) = &patch.conversion {
        if c.from_minor <= 0 || c.to_minor <= 0 {
            return Err(
                EntryError::Invalid(
                    "a conversion's amounts are what left and what arrived, both positive".to_string(),
                ),
            );
        }
        // Through the same lookup as a new payment's legs, so an unknown or system account is
        // refused with the same words before the trading accounts are consulted.
        let mut probe: Vec<NewPosting> = Vec::new();
        probe.push(NewPosting { account_id: c.from_account, amount_minor: -c.from_minor });
        probe.push(NewPosting { account_id: c.to_account, amount_minor: c.to_minor });
        assert(probe@ =~= conversion_probe(*c));
        let legs = match resolve_currencies(accounts, &probe) {
            Ok(l) => l,
            Err(e) => {
                return Err(e);
            },
        };
        proof {
            assert(leg_views(legs@).len() == legs@.len());
            assert(leg_views(legs@)[0] == legs@[0]@);
            assert(leg_views(legs@)[1] == legs@[1]@);
        }
        let a = legs[0].currency.clone();
        let b = legs[1].currency.clone();
        if str_eq(a.as_str(), b.as_str()) {
            let e = FxError::SameCurrency(a);
            return Err(EntryError::Invalid(e.to_text()));
        }
        return match trading {
            None => Ok(Given::Needs(a, b)),
            Some(t) => match build_conversion(
                c.from_account,
                a.as_str(),
                c.from_minor,
                t.0,
                c.to_account,
                b.as_str(),
                c.to_minor,
                t.1,
            ) {
                Ok(l) => Ok(Given::Legs(l)),
                Err(e) => Err(EntryError::Invalid(e.to_text())),
            },
        };
    }
    Ok(Given::Left)
}

/// Why an edit is refused before its legs are looked at, if it is.
pub open spec fn edit_refusal(
    id: i64,
    recorded: bool,
    canonical: Option<Seq<char>>,
    patch: TxnPatch,
) -> Option<Result<Seq<char>, i64>> {
    if patch.postings is Some && patch.conversion is Some {
        Some(Ok("give the legs as postings or as a conversion, not both"@))
    } else if !recorded {
        Some(Err(id))
    } else if patch.occurred_on matches Some(on) && canonical != Some(on@) {
        Some(Ok("no such day: "@ + patch.occurred_on->0@))
    } else if patch.description matches Some(d) && trimmed(d@).len() == 0 {
        Some(Ok("description must not be empty"@))
    } else {
        None
    }
}

/// Whether changes are what a patch asks for, the legs aside.
pub open spec fn changes_fields(ch: Changes, patch: TxnPatch) -> bool {
    &&& opt_view(ch.occurred_on) == opt_view(patch.occurred_on)
    &&& match patch.description {
        Some(d) => ch.description matches Some(s) && s@ == trimmed(d@),
        None => ch.description is None,
    }
    &&& opt_opt_view(ch.payee) == settled(patch.payee)
    &&& opt_opt_view(ch.note) == settled(patch.note)
}

/// Change a payment in place: any of its date, description, payee, note and legs, all of it or
/// none.
///
/// In place, because the id is what everything else holds on to -- the links that thread it into a
/// chain, the journey it is a member of, the import key, the slot a matched occurrence claims. The
/// postings are replaced only when the legs actually differ. Legs given here go through the checks
/// a new payment's do, so an edited payment is never one that could not have been recorded.
///
/// `recorded` says whether the payment exists, `canonical` how the calendar writes the date the
/// patch gives, `current` the recorded legs, and `trading` the trading accounts of the two
/// currencies of a conversion, where they are known.
pub fn update(
    accounts: &Vec<Account>,
    id: i64,
    recorded: bool,
    canonical: &Option<String>,
    current: &Vec<Leg>,
    trading: Option<(i64, i64)>,
    patch: &TxnPatch,
) -> (r: Result<Edit, EntryError>)
    ensures
        match edit_refusal(id, recorded, opt_view(*canonical), *patch) {
            Some(Ok(m)) => r matches Err(EntryError::Invalid(s)) && s@ == m,
            Some(Err(n)) => r matches Err(e) && e == EntryError::NotFound(n),
            None => match restated(accounts@, trading, *patch) {
                Restated::Left => r matches Ok(Edit::Apply(ch)) && changes_fields(ch, *patch)
                    && ch.legs is None,
                Restated::Legs(legs) => r matches Ok(Edit::Apply(ch)) && changes_fields(ch, *patch)
                    && (if legs == leg_views(current@) {
                    ch.legs is None
                } else {
                    ch.legs matches Some(l) && leg_views(l@) == legs
                }),
                Restated::Needs(a, b) => r matches Ok(Edit::OpenTrading { from, to }) && from@ == a
                    && to@ == b,
                refused => r matches Err(e) && refuses_legs(e, accounts@, refused),
            },
        },
{
    if patch.postings.is_some() && patch.conversion.is_some() {
        return Err(
            EntryError::Invalid(
                "give the legs as postings or as a conversion, not both".to_string(),
            ),
        );
    }
    // Existence first: an empty patch on a missing payment is still "no such transaction".
    if !recorded {
        return Err(EntryError::NotFound(id));
    }
    let mut occurred_on: Option<String> = None;
    if let Some(on) = &patch.occurred_on {
        if !is_canonical(canonical, on.as_str()) {
            let mut m = "no such day: ".to_string();
            m.append(on.as_str());
            return Err(EntryError::Invalid(m));
        }
        occurred_on = Some(on.clone());
    }
    let mut description: Option<String> = None;
    if let Some(d) = &patch.description {
        // A payment with no readable label cannot be picked out of a list at all.
        let t = trim(d.as_str());
        if t.as_str().unicode_len() == 0 {
            return Err(EntryError::Invalid("description must not be empty".to_string()));
        }
        description = Some(t);
    }
    let legs = match restate(accounts, trading, patch) {
        Err(e) => {
            return Err(e);
        },
        Ok(Given::Needs(from, to)) => {
            return Ok(Edit::OpenTrading { from, to });
        },
        Ok(Given::Left) => None,
        Ok(Given::Legs(l)) => if same_legs(current, &l) {
            None
        } else {
            Some(l)
        },
    };
    Ok(
        Edit::Apply(
            Changes {
                occurred_on,
                description,
                payee: settle(&patch.payee),
                note: settle(&patch.note),
                legs,
            },
        ),
    )
}

/// An edit never leaves a payment that could not have been recorded: the legs it writes balance.
pub proof fn law_edited_legs_balance(
    accounts: Seq<Account>,
    trading: Option<(i64, i64)>,
    patch: TxnPatch,
)
    ensures
        restated(accounts, trading, patch) matches Restated::Legs(legs) ==> balanced(legs),
{
    if let (None, Some(c)) = (patch.postings, patch.conversion) {
        if let Some(t) = trading {
            crate::fx::law_conversions_balance(
                c.from_account,
                account_of(accounts, c.from_account).currency@,
                c.from_minor as int,
                t.0,
                c.to_account,
                account_of(accounts, c.to_account).currency@,
                c.to_minor as int,
                t.1,
            );
        }
    }
}

/// A day's movement on an account, as the book sums it.
#[derive(Debug, Clone)]
pub struct Movement {
    pub account_id: i64,
    pub on: String,
    pub moved_minor: Minor,
}

/// A closing balance on a day.
#[derive(Debug, Clone)]
pub struct HistoryPoint {
    pub on: String,
    pub balance_minor: i128,
}

/// What an account's movements come to up to a place in the list.
pub open spec fn carried(rows: Seq<Movement>, id: i64) -> int
    decreases rows.len(),
{
    if rows.len() == 0 {
        0
    } else {
        carried(rows.drop_last(), id) + (if rows.last().account_id == id {
            rows.last().moved_minor as int
        } else {
            0
        })
    }
}

/// Whether a movement lies before the window.
pub open spec fn before_window(m: Movement, from: Option<Seq<char>>) -> bool {
    from matches Some(f) && text_lt(m.on@, f)
}

/// The points of an account's history: one for each day of the window on which it moved, with the
/// balance it closed at.
pub open spec fn history_points(
    rows: Seq<Movement>,
    from: Option<Seq<char>>,
    id: i64,
) -> Seq<(Seq<char>, int)>
    decreases rows.len(),
{
    if rows.len() == 0 {
        Seq::empty()
    } else {
        let before = history_points(rows.drop_last(), from, id);
        if rows.last().account_id == id && !before_window(rows.last(), from) {
            before.push((rows.last().on@, carried(rows, id)))
        } else {
            before
        }
    }
}

/// The balance an account carries into the window: what it closed at on the last day before it.
pub open spec fn opening_of(rows: Seq<Movement>, from: Option<Seq<char>>, id: i64) -> int
    decreases rows.len(),
{
    if rows.len() == 0 {
        0
    } else if rows.last().account_id == id && before_window(rows.last(), from) {
        carried(rows, id)
    } else {
        opening_of(rows.drop_last(), from, id)
    }
}

/// The content of history points.
pub open spec fn point_views(points: Seq<HistoryPoint>) -> Seq<(Seq<char>, int)> {
    points.map_values(|p: HistoryPoint| (p.on@, p.balance_minor as int))
}

/// Daily closing balances of one account across a window, for drawing history.
///
/// `rows` are the account's and others' movements up to the end of the window, in order of date
/// within each account. One point per day the account moved from `from` on, plus the balance
/// carried in from before, so a line starts at its true level rather than at zero.
pub fn history(rows: &Vec<Movement>, from: Option<&str>, id: i64) -> (r: (i128, Vec<HistoryPoint>))
    ensures
        r.0 == opening_of(rows@, crate::roles::str_view(from), id),
        point_views(r.1@) == history_points(rows@, crate::roles::str_view(from), id),
{
    let mut opening: i128 = 0;
    let mut running: i128 = 0;
    let mut points: Vec<HistoryPoint> = Vec::new();
    let mut i: usize = 0;
    assert(point_views(points@) =~= Seq::<(Seq<char>, int)>::empty());
    while i < rows.len()
        invariant
            i <= rows.len(),
            running == carried(rows@.take(i as int), id),
            -0x8000_0000_0000_0000 * i <= running <= 0x8000_0000_0000_0000 * i,
            opening == opening_of(rows@.take(i as int), crate::roles::str_view(from), id),
            point_views(points@) == history_points(
                rows@.take(i as int),
                crate::roles::str_view(from),
                id,
            ),
        decreases rows.len() - i,
    {
        assert(rows@.take(i + 1).drop_last() =~= rows@.take(i as int));
        let row = &rows[i];
        if row.account_id == id {
            running = running + row.moved_minor as i128;
            let early = match from {
                Some(f) => text_less(row.on.as_str(), f),
                None => false,
            };
            if early {
                opening = running;
            } else {
                let p = HistoryPoint { on: row.on.clone(), balance_minor: running };
                assert(point_views(points@.push(p)) =~= point_views(points@).push(
                    (p.on@, p.balance_minor as int),
                ));
                points.push(p);
            }
        }
        i = i + 1;
    }
    assert(rows@.take(rows@.len() as int) =~= rows@);
    (opening, points)
}

/// A text with its ASCII letters in lower case.
pub open spec fn folded(s: Seq<char>) -> Seq<char> {
    s.map_values(|c: char| ascii_lower(c))
}

/// The pattern a search matches with: the text anywhere in a label, ASCII letters in lower case. A
/// blank search matches everything.
///
/// ASCII letters alone, because that is how the labels it is held against are folded: another fold on
/// this side would keep a label in capitals from ever matching itself.
pub fn search_pattern(search: &str) -> (r: String)
    ensures
        r@ == "%"@ + folded(trimmed(search@)) + "%"@,
{
    let t = trim(search);
    let v = chars_of(t.as_str());
    let mut out = "%".to_string();
    let mut i: usize = 0;
    assert(out@ =~= "%"@ + folded(v@.take(0)));
    while i < v.len()
        invariant
            i <= v@.len(),
            out@ == "%"@ + folded(v@.take(i as int)),
        decreases v@.len() - i,
    {
        let c = lower_ascii(v[i]);
        assert("%"@ + folded(v@.take(i + 1)) =~= ("%"@ + folded(v@.take(i as int))).push(c));
        out.push(c);
        i = i + 1;
    }
    assert(v@.take(v@.len() as int) =~= v@);
    out.append("%");
    out
}

/// A search ignores case: a label that holds the text, but for the case of ASCII letters, holds it
/// once both are folded. So every label is found by any part of itself.
pub proof fn law_a_search_ignores_case(label: Seq<char>, other: Seq<char>, text: Seq<char>)
    requires
        has_part(other, text),
        folded(other) == folded(label),
    ensures
        has_part(folded(label), folded(text)),
{
    let i = choose|i: int| part_at(other, text, i);
    assert(folded(other).len() == other.len());
    assert(folded(text).len() == text.len());
    assert(folded(other).subrange(i, i + text.len()) =~= folded(text)) by {
        assert forall|j: int| 0 <= j < text.len() implies folded(other).subrange(i, i + text.len())[j]
            == folded(text)[j] by {
            assert(other.subrange(i, i + text.len())[j] == text[j]);
        }
    }
    assert(part_at(folded(label), folded(text), i));
}

/// A text with the wild cards of a pattern taken literally.
pub open spec fn escaped(s: Seq<char>) -> Seq<char>
    decreases s.len(),
{
    if s.len() == 0 {
        Seq::empty()
    } else if s.last() == '\\' || s.last() == '%' || s.last() == '_' {
        escaped(s.drop_last()).push('\\').push(s.last())
    } else {
        escaped(s.drop_last()).push(s.last())
    }
}

/// The pattern that offers a description used before: the text anywhere in it, its own wild cards
/// taken literally, or `None` where nothing was typed.
pub fn description_pattern(typed: Option<&str>) -> (r: Option<String>)
    ensures
        match typed {
            Some(t) => if trimmed(t@).len() == 0 {
                r is None
            } else {
                r matches Some(p) && p@ == "%"@ + escaped(trimmed(t@)) + "%"@
            },
            None => r is None,
        },
{
    match typed {
        None => None,
        Some(t) => {
            let t = trim(t);
            let v = crate::text::chars_of(t.as_str());
            if v.len() == 0 {
                return None;
            }
            let mut body = String::new();
            let mut i: usize = 0;
            assert(v@.take(0) =~= Seq::<char>::empty());
            while i < v.len()
                invariant
                    i <= v@.len(),
                    body@ == escaped(v@.take(i as int)),
                decreases v@.len() - i,
            {
                assert(v@.take(i + 1).drop_last() =~= v@.take(i as int));
                let c = v[i];
                if c == '\\' || c == '%' || c == '_' {
                    body.push('\\');
                }
                body.push(c);
                i = i + 1;
            }
            assert(v@.take(v@.len() as int) =~= v@);
            let mut out = "%".to_string();
            out.append(body.as_str());
            out.append("%");
            Some(out)
        },
    }
}

} // verus!
