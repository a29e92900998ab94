//! Durable identity for the three accounts the core owns rather than the operator.
//!
//! Most accounts exist because someone typed them, and the core only ever reaches those by id. Three
//! do not: the per-currency FX trading accounts, the per-currency counterweight every opening
//! balance is posted against, and the bucket the importer files rows it cannot categorise into. The
//! core creates those on demand and has to find them again later.
//!
//! None of the three is found by its name, since a name can be edited. The trading account is the
//! one of kind `conversion` in its currency, a kind no operator can create. The other two are
//! pinned: the book keeps their ids. A pin is validated on read -- the row still exists, and is
//! still the right kind and currency -- and a stale one falls back to the account's first name, and
//! then to creating it, rather than resolving to whatever now holds that id.

use crate::book::{account_of, find, known, Account};
use crate::text::{starts_with, str_eq};
use vstd::prelude::*;

verus! {

broadcast use vstd::string::group_string_axioms;

/// The key under which the book keeps the bucket's id.
pub const UNCLASSIFIED_KEY: &'static str = "unclassified_account";

/// What the bucket is created as.
pub const UNCLASSIFIED_NAME: &'static str = "Expenses:Unclassified";

/// The key under which the book keeps the id of a currency's counterweight.
pub fn opening_equity_key(cur: &str) -> (r: String)
    ensures
        r@ == "opening_equity."@ + cur@,
{
    let mut out = "opening_equity.".to_string();
    out.append(cur);
    out
}

/// What a counterweight is created as. It is a label from that moment on -- the operator may rename
/// it, and `opening_equity` will still find it.
pub fn opening_equity_name(cur: &str) -> (r: String)
    ensures
        r@ == opening_name(cur@),
{
    let mut out = "Opening balances (".to_string();
    out.append(cur);
    out.append(")");
    out
}

/// What a counterweight is created as.
pub open spec fn opening_name(cur: Seq<char>) -> Seq<char> {
    "Opening balances ("@ + cur + ")"@
}

/// What a trading account is created as.
pub fn conversion_name(code: &str) -> (r: String)
    ensures
        r@ == "Conversion:"@ + code@,
{
    let mut out = "Conversion:".to_string();
    out.append(code);
    out
}

/// What the core keeps a name for, if it does.
pub open spec fn reservation(name: Seq<char>) -> Option<Seq<char>> {
    if "Conversion:"@.is_prefix_of(name) {
        Some(
            "the per-currency account the core posts the two halves of a currency conversion through"@,
        )
    } else if "Opening balances ("@.is_prefix_of(name) {
        Some("the per-currency counterweight the core posts opening balances against"@)
    } else if name == UNCLASSIFIED_NAME@ {
        Some("the account the importer files rows it cannot categorise into"@)
    } else {
        None
    }
}

/// Is this a name the core creates for itself, and if so what for?
///
/// Matched on the shape rather than against a list of live accounts: `Conversion:JPY` is the core's
/// name whether or not the book has ever held a yen, and refusing it only once it exists would let
/// a squat win simply by being first.
pub fn reserved_for(name: &str) -> (r: Option<&'static str>)
    ensures
        match r {
            Some(what) => reservation(name@) == Some(what@),
            None => reservation(name@) is None,
        },
        r is Some == is_reserved(name@),
{
    if starts_with(name, "Conversion:") {
        Some("the per-currency account the core posts the two halves of a currency conversion through")
    } else if starts_with(name, "Opening balances (") {
        Some("the per-currency counterweight the core posts opening balances against")
    } else if str_eq(name, UNCLASSIFIED_NAME) {
        Some("the account the importer files rows it cannot categorise into")
    } else {
        None
    }
}

/// Whether a name is one the core creates accounts under.
pub open spec fn is_reserved(name: Seq<char>) -> bool {
    ||| "Conversion:"@.is_prefix_of(name)
    ||| "Opening balances ("@.is_prefix_of(name)
    ||| name == UNCLASSIFIED_NAME@
}

/// Every name the core creates an account under is reserved.
pub proof fn law_own_names_are_reserved(cur: Seq<char>)
    ensures
        is_reserved("Conversion:"@ + cur),
        is_reserved(opening_name(cur)),
        is_reserved(UNCLASSIFIED_NAME@),
{
    let a = "Conversion:"@;
    assert((a + cur).subrange(0, a.len() as int) =~= a);
    let b = "Opening balances ("@;
    assert(opening_name(cur).subrange(0, b.len() as int) =~= b);
}

/// Whether an account is of a kind, in a currency where one is asked for, and under a name where
/// one is asked for.
pub open spec fn fits(
    a: Account,
    kind: Seq<char>,
    currency: Option<Seq<char>>,
    name: Option<Seq<char>>,
) -> bool {
    &&& a.kind@ == kind
    &&& currency matches Some(c) ==> a.currency@ == c
    &&& name matches Some(n) ==> a.name@ == n
}

/// The place of the first account that fits, or the number of accounts where none does.
pub open spec fn first_fit(
    accounts: Seq<Account>,
    kind: Seq<char>,
    currency: Option<Seq<char>>,
    name: Option<Seq<char>>,
) -> int
    decreases accounts.len(),
{
    if accounts.len() == 0 {
        0
    } else if fits(accounts[0], kind, currency, name) {
        0
    } else {
        1 + first_fit(accounts.drop_first(), kind, currency, name)
    }
}

proof fn lemma_first_fit(
    accounts: Seq<Account>,
    kind: Seq<char>,
    currency: Option<Seq<char>>,
    name: Option<Seq<char>>,
    i: int,
)
    requires
        0 <= i <= accounts.len(),
        forall|j: int| 0 <= j < i ==> !fits(#[trigger] accounts[j], kind, currency, name),
        i < accounts.len() ==> fits(accounts[i], kind, currency, name),
    ensures
        first_fit(accounts, kind, currency, name) == i,
    decreases i,
{
    if i > 0 {
        assert(!fits(accounts[0], kind, currency, name));
        let rest = accounts.drop_first();
        assert forall|j: int| 0 <= j < i - 1 implies !fits(
            #[trigger] rest[j],
            kind,
            currency,
            name,
        ) by {
            assert(!fits(accounts[j + 1], kind, currency, name));
        }
        lemma_first_fit(rest, kind, currency, name, i - 1);
    }
}

fn account_fits(a: &Account, kind: &str, currency: Option<&str>, name: Option<&str>) -> (r: bool)
    ensures
        r == fits(*a, kind@, str_view(currency), str_view(name)),
{
    if !str_eq(a.kind.as_str(), kind) {
        return false;
    }
    if let Some(c) = currency {
        if !str_eq(a.currency.as_str(), c) {
            return false;
        }
    }
    if let Some(n) = name {
        if !str_eq(a.name.as_str(), n) {
            return false;
        }
    }
    true
}

/// The text of an optional text.
pub open spec fn str_view(o: Option<&str>) -> Option<Seq<char>> {
    match o {
        Some(s) => Some(s@),
        None => None,
    }
}

fn find_fit(
    accounts: &Vec<Account>,
    kind: &str,
    currency: Option<&str>,
    name: Option<&str>,
) -> (r: Option<usize>)
    ensures
        match r {
            Some(i) => i == first_fit(accounts@, kind@, str_view(currency), str_view(name)) && i
                < accounts@.len(),
            None => first_fit(accounts@, kind@, str_view(currency), str_view(name))
                == accounts@.len(),
        },
{
    let mut i: usize = 0;
    while i < accounts.len()
        invariant
            i <= accounts@.len(),
            forall|j: int|
                0 <= j < i ==> !fits(
                    #[trigger] accounts@[j],
                    kind@,
                    str_view(currency),
                    str_view(name),
                ),
        decreases accounts@.len() - i,
    {
        if account_fits(&accounts[i], kind, currency, name) {
            proof {
                lemma_first_fit(accounts@, kind@, str_view(currency), str_view(name), i as int);
            }
            return Some(i);
        }
        i = i + 1;
    }
    proof {
        lemma_first_fit(accounts@, kind@, str_view(currency), str_view(name), i as int);
    }
    None
}

/// The account a role resolves to: the pinned one where the pin is still good, else the first one
/// of the right kind under the name it was created with.
pub open spec fn resolved(
    accounts: Seq<Account>,
    pinned: Option<i64>,
    kind: Seq<char>,
    currency: Option<Seq<char>>,
    name: Seq<char>,
) -> Option<Account> {
    let by_name = first_fit(accounts, kind, currency, Some(name));
    if pinned matches Some(id) && known(accounts, id) && fits(
        account_of(accounts, id),
        kind,
        currency,
        None,
    ) {
        Some(account_of(accounts, pinned->0))
    } else if by_name < accounts.len() {
        Some(accounts[by_name])
    } else {
        None
    }
}

fn resolve(
    accounts: &Vec<Account>,
    pinned: Option<i64>,
    kind: &str,
    currency: Option<&str>,
    name: &str,
) -> (r: Option<usize>)
    ensures
        match r {
            Some(i) => i < accounts@.len() && resolved(
                accounts@,
                pinned,
                kind@,
                str_view(currency),
                name@,
            ) == Some(accounts@[i as int]),
            None => resolved(accounts@, pinned, kind@, str_view(currency), name@) is None,
        },
{
    if let Some(id) = pinned {
        // Validated, not trusted: an id that no longer names an account of the right kind is a pin
        // left over from something deleted, and reusing it would post into whatever inherited it.
        if let Some(i) = find(accounts, id) {
            if account_fits(&accounts[i], kind, currency, None) {
                return Some(i);
            }
        }
    }
    find_fit(accounts, kind, currency, Some(name))
}

/// What is to be done to have an account that plays a role.
#[derive(Debug, Clone)]
pub enum Role {
    /// It exists; keep its id.
    Existing(i64),
    /// Create it, and keep the new id.
    Create { name: String, kind: String, currency: String, system: bool },
}

/// The account that counterweights opening balances in a currency, if the book has one.
pub open spec fn equity_account(
    accounts: Seq<Account>,
    pinned: Option<i64>,
    cur: Seq<char>,
) -> Option<Account> {
    resolved(accounts, pinned, "equity"@, Some(cur), opening_name(cur))
}

/// The equity account every opening balance in `cur` is counterweighted against, or how it is
/// created on first use. One per currency, because a transaction balances per currency.
pub fn opening_equity(accounts: &Vec<Account>, pinned: Option<i64>, cur: &str) -> (r: Role)
    ensures
        match equity_account(accounts@, pinned, cur@) {
            Some(a) => r == Role::Existing(a.id),
            None => r matches Role::Create { name, kind, currency, system } && name@ == opening_name(
                cur@,
            ) && kind@ == "equity"@ && currency@ == cur@ && !system,
        },
{
    let name = opening_equity_name(cur);
    match resolve(accounts, pinned, "equity", Some(cur), name.as_str()) {
        Some(i) => Role::Existing(accounts[i].id),
        None => Role::Create {
            name,
            kind: "equity".to_string(),
            currency: cur.to_string(),
            system: false,
        },
    }
}

/// The account uncategorised rows are filed into, if the book has one.
pub open spec fn bucket(accounts: Seq<Account>, pinned: Option<i64>) -> Option<Account> {
    resolved(accounts, pinned, "expense"@, None, UNCLASSIFIED_NAME@)
}

/// Resolve the unclassified bucket without creating one, and return its current name with it.
///
/// Readers need both halves: it is measured by id, but has to be called by whatever it is now
/// called. `None` means the book has no such account, which is the ordinary state of a book that
/// has never imported anything.
pub fn unclassified_existing(accounts: &Vec<Account>, pinned: Option<i64>) -> (r: Option<
    (i64, String),
>)
    ensures
        match bucket(accounts@, pinned) {
            Some(a) => r matches Some(p) && p.0 == a.id && p.1@ == a.name@,
            None => r is None,
        },
{
    match resolve(accounts, pinned, "expense", None, UNCLASSIFIED_NAME) {
        Some(i) => Some((accounts[i].id, accounts[i].name.clone())),
        None => None,
    }
}

/// The same account, or how it is created if the book has none yet. For writers -- the importer,
/// which has to put an uncategorised row somewhere.
pub fn unclassified(accounts: &Vec<Account>, pinned: Option<i64>, display_currency: &str) -> (r:
    Role)
    ensures
        match bucket(accounts@, pinned) {
            Some(a) => r == Role::Existing(a.id),
            None => r matches Role::Create { name, kind, currency, system } && name@
                == UNCLASSIFIED_NAME@ && kind@ == "expense"@ && currency@ == display_currency@
                && !system,
        },
{
    match unclassified_existing(accounts, pinned) {
        Some(p) => Role::Existing(p.0),
        None => Role::Create {
            name: UNCLASSIFIED_NAME.to_string(),
            kind: "expense".to_string(),
            currency: display_currency.to_string(),
            system: false,
        },
    }
}

/// Whether an account is the trading account of a currency.
pub open spec fn trades(a: Account, code: Seq<char>) -> bool {
    fits(a, "conversion"@, Some(code), None)
}

/// The per-currency trading account -- the one with the least id -- or how it is created on first
/// use. `system` keeps every other writer out, so only a conversion can move money through.
pub fn conversion(accounts: &Vec<Account>, code: &str) -> (r: Role)
    ensures
        match r {
            Role::Existing(id) => (exists|i: int|
                0 <= i < accounts@.len() && trades(#[trigger] accounts@[i], code@) && accounts@[i].id
                    == id) && forall|i: int|
                0 <= i < accounts@.len() && trades(#[trigger] accounts@[i], code@) ==> id
                    <= accounts@[i].id,
            Role::Create { name, kind, currency, system } => (forall|i: int|
                0 <= i < accounts@.len() ==> !trades(#[trigger] accounts@[i], code@)) && name@
                == "Conversion:"@ + code@ && kind@ == "conversion"@ && currency@ == code@ && system,
        },
{
    let mut best: Option<i64> = None;
    let mut i: usize = 0;
    while i < accounts.len()
        invariant
            i <= accounts@.len(),
            match best {
                Some(id) => (exists|j: int|
                    0 <= j < i && trades(#[trigger] accounts@[j], code@) && accounts@[j].id == id)
                    && forall|j: int|
                    0 <= j < i && trades(#[trigger] accounts@[j], code@) ==> id <= accounts@[j].id,
                None => forall|j: int| 0 <= j < i ==> !trades(#[trigger] accounts@[j], code@),
            },
        decreases accounts@.len() - i,
    {
        if account_fits(&accounts[i], "conversion", Some(code), None) {
            assert(trades(accounts@[i as int], code@));
            match best {
                Some(id) => {
                    if accounts[i].id < id {
                        best = Some(accounts[i].id);
                    }
                },
                None => {
                    best = Some(accounts[i].id);
                },
            }
        }
        i = i + 1;
    }
    match best {
        Some(id) => Role::Existing(id),
        None => Role::Create {
            name: conversion_name(code),
            kind: "conversion".to_string(),
            currency: code.to_string(),
            system: true,
        },
    }
}

/// A pin that still names an account of the right kind decides, whatever that account is called
/// now: renaming the counterweight never makes the book grow a second one.
pub proof fn law_a_good_pin_survives_a_rename(
    before: Seq<Account>,
    after: Seq<Account>,
    id: i64,
    cur: Seq<char>,
)
    requires
        before.len() == after.len(),
        forall|i: int|
            0 <= i < before.len() ==> (#[trigger] before[i]).id == after[i].id && before[i].kind@
                == after[i].kind@ && before[i].currency@ == after[i].currency@,
        known(before, id),
        fits(account_of(before, id), "equity"@, Some(cur), None),
    ensures
        equity_account(after, Some(id), cur) matches Some(a) && a.id == id,
{
    crate::book::lemma_known(before, id);
    lemma_same_place(before, after, id);
    crate::book::lemma_known(after, id);
    let i = crate::book::place_of(before, id);
    assert(before[i].id == after[i].id);
}

proof fn lemma_same_place(before: Seq<Account>, after: Seq<Account>, id: i64)
    requires
        before.len() == after.len(),
        forall|i: int| 0 <= i < before.len() ==> (#[trigger] before[i]).id == after[i].id,
    ensures
        crate::book::place_of(before, id) == crate::book::place_of(after, id),
    decreases before.len(),
{
    if before.len() > 0 {
        assert(before[0].id == after[0].id);
        assert forall|i: int| 0 <= i < before.drop_first().len() implies (
        #[trigger] before.drop_first()[i]).id == after.drop_first()[i].id by {
            assert(before[i + 1].id == after[i + 1].id);
        }
        lemma_same_place(before.drop_first(), after.drop_first(), id);
    }
}

} // verus!
