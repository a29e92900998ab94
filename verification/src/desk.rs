//! What may be done to currencies and accounts, and why not.
//!
//! An account with history is closed, never deleted: its postings are half of every transaction it
//! took part in. A name that the book keeps for an account of its own cannot be given to another. An
//! opening balance is a pair of postings against the equity account that is its counterweight.

use crate::book::{account_of, find, known, Account};
use crate::digits::{int_digits, int_text};
use crate::entry::{NewPosting, NewTxn};
use crate::ledger::BookEntry;
use crate::lists::{first, lemma_first};
use crate::money::{Minor, MAX_MINOR_DIGITS};
use crate::revise::{is_refusal, outcome_is, Refusal};
use crate::roles::{reservation, reserved_for};
use crate::text::{
    chars_of, join, joined, str_eq, text_less, text_lt, to_upper, trim, trimmed, upper, views,
};
use crate::wording::{bad, fail, EditError};
use vstd::prelude::*;

verus! {

broadcast use vstd::string::group_string_axioms;

/// Whether a character is a letter of the Latin alphabet.
pub open spec fn is_letter(c: char) -> bool {
    ('a' <= c && c <= 'z') || ('A' <= c && c <= 'Z')
}

/// Whether a text is three letters.
pub open spec fn is_code(s: Seq<char>) -> bool {
    s.len() == 3 && forall|i: int| 0 <= i < s.len() ==> is_letter(#[trigger] s[i])
}

fn three_letters(s: &str) -> (r: bool)
    ensures
        r == is_code(s@),
{
    let v = chars_of(s);
    if v.len() != 3 {
        return false;
    }
    let mut i: usize = 0;
    while i < v.len()
        invariant
            i <= v@.len(),
            v@ == s@,
            v@.len() == 3,
            forall|j: int| 0 <= j < i ==> is_letter(#[trigger] v@[j]),
        decreases v@.len() - i,
    {
        let c = v[i];
        if !(('a' <= c && c <= 'z') || ('A' <= c && c <= 'Z')) {
            assert(!is_letter(s@[i as int]));
            return false;
        }
        i = i + 1;
    }
    true
}

/// Why a currency is refused.
pub open spec fn currency_refusal(code: Seq<char>, digits: Option<i64>) -> Option<Refusal> {
    if !is_code(upper(trimmed(code))) {
        Some(("bad_params"@, "code must be three letters, e.g. CHF"@))
    } else {
        match digits {
            None => Some(("bad_params"@, "minor_digits"@)),
            Some(d) => if 0 <= d <= MAX_MINOR_DIGITS {
                None
            } else {
                Some(
                    (
                        "bad_params"@,
                        "minor_digits must be 0..="@ + int_digits(MAX_MINOR_DIGITS as int)
                            + " -- an 18dp currency overflows i64 at 9.22 units"@,
                    ),
                )
            },
        }
    }
}

/// A currency as it is entered: its code in capitals, with the digits its amounts are kept to. The
/// digits are never inferred: a wrong number is a silent error of a hundredfold.
pub fn new_currency(code: &str, digits: Option<i64>) -> (r: Result<(String, u32), EditError>)
    ensures
        match currency_refusal(code@, digits) {
            Some(why) => r matches Err(e) && is_refusal(e, why),
            None => r matches Ok(c) && c.0@ == upper(trimmed(code@)) && digits == Some(c.1 as i64),
        },
{
    let t = trim(code);
    let code = to_upper(t.as_str());
    if !three_letters(code.as_str()) {
        return Err(bad("code must be three letters, e.g. CHF"));
    }
    match digits {
        None => Err(bad("minor_digits")),
        Some(d) => {
            if 0 <= d && d <= MAX_MINOR_DIGITS as i64 {
                Ok((code, d as u32))
            } else {
                let mut m = "minor_digits must be 0..=".to_string();
                let n = int_text(MAX_MINOR_DIGITS as i128);
                m.append(n.as_str());
                m.append(" -- an 18dp currency overflows i64 at 9.22 units");
                Err(bad(m.as_str()))
            }
        },
    }
}

/// Why a currency cannot go: records use it, it is the one the book is shown in, or there is none.
pub open spec fn currency_removal_refusal(
    code: Seq<char>,
    uses: i64,
    display: Seq<char>,
    known: bool,
) -> Option<Refusal> {
    if uses > 0 {
        Some(
            (
                "in_use"@,
                code + " is used by "@ + int_digits(uses as int)
                    + " record(s) and cannot be removed"@,
            ),
        )
    } else if display == code {
        Some(("in_use"@, code + " is the book's display currency"@))
    } else if !known {
        Some(("not_found"@, "no such currency: "@ + code))
    } else {
        None
    }
}

/// Whether a currency can go. One in use cannot: every amount is meaningless without its scale.
pub fn check_currency_removal(code: &str, uses: i64, display: &str, known: bool) -> (r: Result<
    (),
    EditError,
>)
    ensures
        outcome_is(r, currency_removal_refusal(code@, uses, display@, known)),
{
    if uses > 0 {
        let mut m = code.to_string();
        m.append(" is used by ");
        let n = int_text(uses as i128);
        m.append(n.as_str());
        m.append(" record(s) and cannot be removed");
        return Err(fail("in_use", m));
    }
    if str_eq(display, code) {
        let mut m = code.to_string();
        m.append(" is the book's display currency");
        return Err(fail("in_use", m));
    }
    if !known {
        let mut m = "no such currency: ".to_string();
        m.append(code);
        return Err(fail("not_found", m));
    }
    Ok(())
}

/// What is said of a name that the book keeps for an account of its own.
pub open spec fn kept_name(name: Seq<char>, role: Seq<char>) -> Refusal {
    ("reserved_name"@, name + " is "@ + role + ", and the book keeps that name for it"@)
}

fn say_kept_name(name: &str, role: &str) -> (r: EditError)
    ensures
        is_refusal(r, kept_name(name@, role@)),
{
    let mut m = name.to_string();
    m.append(" is ");
    m.append(role);
    m.append(", and the book keeps that name for it");
    fail("reserved_name", m)
}

/// Whether an account can be created under a name.
pub fn check_account_name(name: &str) -> (r: Result<(), EditError>)
    ensures
        outcome_is(
            r,
            match reservation(trimmed(name@)) {
                Some(role) => Some(kept_name(trimmed(name@), role)),
                None => None,
            },
        ),
{
    let t = trim(name);
    match reserved_for(t.as_str()) {
        Some(role) => Err(say_kept_name(t.as_str(), role)),
        None => Ok(()),
    }
}

/// The opening balance an account is created with: none where it is nothing, and none for an equity
/// account, which is itself the counterweight.
pub fn opening_amount(kind: &str, amount: Option<Minor>) -> (r: Option<Minor>)
    ensures
        r == (match amount {
            Some(a) => if a != 0 && kind@ != "equity"@ {
                Some(a)
            } else {
                None
            },
            None => None,
        }),
{
    match amount {
        Some(a) => {
            if a != 0 && !str_eq(kind, "equity") {
                Some(a)
            } else {
                None
            }
        },
        None => None,
    }
}

/// Whether a payment is an opening balance: the amount on the account, and the same against its
/// counterweight.
pub open spec fn is_opening(t: NewTxn, name: Seq<char>, on: Seq<char>, id: i64, equity: i64, amount: i64) -> bool {
    &&& t.occurred_on@ == on
    &&& t.description@ == "Opening balance: "@ + name
    &&& t.payee is None
    &&& t.note is None
    &&& t.postings@.len() == 2
    &&& t.postings@[0].account_id == id
    &&& t.postings@[0].amount_minor == amount
    &&& t.postings@[1].account_id == equity
    &&& t.postings@[1].amount_minor == -amount
}

/// The payment that gives an account its opening balance. A balance cannot appear from nowhere, so it
/// is written against the equity account.
pub fn opening_txn(name: &str, on: &str, id: i64, equity: i64, amount: Minor) -> (r: NewTxn)
    requires
        amount > i64::MIN,
    ensures
        is_opening(r, name@, on@, id, equity, amount),
{
    let mut description = "Opening balance: ".to_string();
    description.append(name);
    let mut postings: Vec<NewPosting> = Vec::new();
    postings.push(NewPosting { account_id: id, amount_minor: amount });
    postings.push(NewPosting { account_id: equity, amount_minor: -amount });
    NewTxn { occurred_on: on.to_string(), description, payee: None, note: None, postings }
}

/// The two legs of an opening balance come to nothing.
pub proof fn law_an_opening_balance_comes_to_nothing(
    t: NewTxn,
    name: Seq<char>,
    on: Seq<char>,
    id: i64,
    equity: i64,
    amount: i64,
)
    requires
        is_opening(t, name, on, id, equity, amount),
    ensures
        t.postings@[0].amount_minor + t.postings@[1].amount_minor == 0,
{
}

/// Whether the account at a place has a name that another one wants.
pub open spec fn has_name(accounts: Seq<Account>, name: Seq<char>, id: i64) -> spec_fn(int) -> bool {
    |i: int| accounts[i].name@ == name && accounts[i].id != id
}

/// What is said of an account that is not there.
pub open spec fn no_such_account(id: i64) -> Refusal {
    ("not_found"@, "no such account: "@ + int_digits(id as int))
}

fn say_no_such_account(id: i64) -> (r: EditError)
    ensures
        is_refusal(r, no_such_account(id)),
{
    let mut m = "no such account: ".to_string();
    let n = int_text(id as i128);
    m.append(n.as_str());
    fail("not_found", m)
}

/// Why an account is not renamed: the name is blank, there is no such account, it is the book's own,
/// the book keeps the name for another, or another account has it. Saving a name unchanged is no
/// error.
pub open spec fn rename_refusal(accounts: Seq<Account>, id: i64, name: Seq<char>) -> Option<Refusal> {
    let name = trimmed(name);
    let a = account_of(accounts, id);
    let other = first(accounts.len() as int, has_name(accounts, name, id));
    if name.len() == 0 {
        Some(("bad_params"@, "name must not be empty"@))
    } else if !known(accounts, id) {
        Some(no_such_account(id))
    } else if a.system {
        Some(("system_account"@, a.name@ + " is a system account and cannot be renamed"@))
    } else if name != a.name@ && reservation(name) is Some {
        Some(kept_name(name, reservation(name)->0))
    } else if other < accounts.len() {
        Some(
            (
                "already_exists"@,
                "another account (id "@ + int_digits(accounts[other].id as int)
                    + ") is already called "@ + name,
            ),
        )
    } else {
        None
    }
}

fn find_name(accounts: &Vec<Account>, name: &str, id: i64) -> (r: usize)
    ensures
        r == first(accounts@.len() as int, has_name(accounts@, name@, id)),
        r <= accounts@.len(),
{
    let mut i: usize = 0;
    while i < accounts.len()
        invariant
            i <= accounts@.len(),
            forall|j: int| 0 <= j < i ==> !#[trigger] has_name(accounts@, name@, id)(j),
        decreases accounts@.len() - i,
    {
        if str_eq(accounts[i].name.as_str(), name) && accounts[i].id != id {
            proof {
                lemma_first(accounts@.len() as int, has_name(accounts@, name@, id), i as int);
            }
            return i;
        }
        i = i + 1;
    }
    proof {
        lemma_first(accounts@.len() as int, has_name(accounts@, name@, id), i as int);
    }
    i
}

/// The name an account is given, or why it is not. A rename changes a label and nothing else.
pub fn rename_account(accounts: &Vec<Account>, id: i64, name: &str) -> (r: Result<String, EditError>)
    ensures
        match rename_refusal(accounts@, id, name@) {
            Some(why) => r matches Err(e) && is_refusal(e, why),
            None => r matches Ok(n) && n@ == trimmed(name@),
        },
{
    let name = trim(name);
    if name.as_str().unicode_len() == 0 {
        return Err(bad("name must not be empty"));
    }
    let a = match find(accounts, id) {
        Some(i) => &accounts[i],
        None => return Err(say_no_such_account(id)),
    };
    if a.system {
        let mut m = a.name.clone();
        m.append(" is a system account and cannot be renamed");
        return Err(fail("system_account", m));
    }
    if !str_eq(name.as_str(), a.name.as_str()) {
        if let Some(role) = reserved_for(name.as_str()) {
            return Err(say_kept_name(name.as_str(), role));
        }
    }
    let other: usize = find_name(accounts, name.as_str(), id);
    if other < accounts.len() {
        let mut m = "another account (id ".to_string();
        let n = int_text(accounts[other].id as i128);
        m.append(n.as_str());
        m.append(") is already called ");
        m.append(name.as_str());
        return Err(fail("already_exists", m));
    }
    Ok(name)
}

/// What refers to an account, by what it is.
#[derive(Debug, Clone, Copy)]
pub struct Uses {
    pub transactions: i64,
    pub recurring: i64,
    pub rules: i64,
    pub imports: i64,
    pub children: i64,
}

/// How many of something, in words.
pub open spec fn how_many(n: i64, what: Seq<char>) -> Seq<Seq<char>> {
    if n > 0 {
        seq![
            int_digits(n as int) + " "@ + what + (if n == 1 {
                ""@
            } else {
                "s"@
            }),
        ]
    } else {
        Seq::empty()
    }
}

/// What stands in the way of deleting an account.
pub open spec fn in_the_way(u: Uses) -> Seq<Seq<char>> {
    how_many(u.transactions, "transaction"@) + how_many(u.recurring, "recurring payment"@)
        + how_many(u.rules, "interest or payment rule"@) + how_many(u.imports, "import record"@)
        + how_many(u.children, "child account"@)
}

fn note_use(out: &mut Vec<String>, n: i64, what: &str)
    ensures
        views(final(out)@) == views(old(out)@) + how_many(n, what@),
{
    let ghost before = views(out@);
    if n > 0 {
        let mut m = int_text(n as i128);
        m.append(" ");
        m.append(what);
        m.append(
            if n == 1 {
                ""
            } else {
                "s"
            },
        );
        assert(views(out@.push(m)) =~= views(out@).push(m@));
        out.push(m);
    }
    assert(views(out@) =~= before + how_many(n, what@));
}

/// Why an account cannot be deleted.
pub open spec fn removal_refusal(accounts: Seq<Account>, id: i64, u: Uses) -> Option<Refusal> {
    let a = account_of(accounts, id);
    if !known(accounts, id) {
        Some(no_such_account(id))
    } else if a.system {
        Some(("system_account"@, a.name@ + " is a system account and cannot be removed"@))
    } else if in_the_way(u).len() > 0 {
        Some(
            (
                "in_use"@,
                a.name@ + " has "@ + joined(in_the_way(u), " and "@)
                    + " — close it instead, which hides it and keeps the history"@,
            ),
        )
    } else {
        None
    }
}

/// Whether an account can be deleted: only one that nothing refers to.
pub fn check_account_removal(accounts: &Vec<Account>, id: i64, u: &Uses) -> (r: Result<(), EditError>)
    ensures
        outcome_is(r, removal_refusal(accounts@, id, *u)),
{
    let a = match find(accounts, id) {
        Some(i) => &accounts[i],
        None => return Err(say_no_such_account(id)),
    };
    if a.system {
        let mut m = a.name.clone();
        m.append(" is a system account and cannot be removed");
        return Err(fail("system_account", m));
    }
    let mut blocking: Vec<String> = Vec::new();
    assert(views(blocking@) =~= Seq::<Seq<char>>::empty());
    note_use(&mut blocking, u.transactions, "transaction");
    note_use(&mut blocking, u.recurring, "recurring payment");
    note_use(&mut blocking, u.rules, "interest or payment rule");
    note_use(&mut blocking, u.imports, "import record");
    note_use(&mut blocking, u.children, "child account");
    assert(views(blocking@) =~= in_the_way(*u));
    assert(views(blocking@).len() == blocking@.len());
    if blocking.len() > 0 {
        let list = join(&blocking, " and ");
        let mut m = a.name.clone();
        m.append(" has ");
        m.append(list.as_str());
        m.append(" — close it instead, which hides it and keeps the history");
        return Err(fail("in_use", m));
    }
    Ok(())
}

/// An account with history is never deleted.
pub proof fn law_an_account_with_history_is_never_deleted(accounts: Seq<Account>, id: i64, u: Uses)
    requires
        u.transactions > 0 || u.recurring > 0 || u.rules > 0 || u.imports > 0 || u.children > 0,
    ensures
        removal_refusal(accounts, id, u) is Some,
{
    assert(in_the_way(u).len() == how_many(u.transactions, "transaction"@).len() + how_many(
        u.recurring,
        "recurring payment"@,
    ).len() + how_many(u.rules, "interest or payment rule"@).len() + how_many(
        u.imports,
        "import record"@,
    ).len() + how_many(u.children, "child account"@).len());
}

/// Whether a transaction is posted against equity.
pub open spec fn against_equity(entries: Seq<BookEntry>, txn: i64) -> bool {
    exists|i: int|
        0 <= i < entries.len() && (#[trigger] entries[i]).txn_id == txn && entries[i].kind@
            == "equity"@
}

/// Whether an entry comes before another: by its day, then by its transaction.
pub open spec fn is_earlier(a: BookEntry, b: BookEntry) -> bool {
    text_lt(a.occurred_on@, b.occurred_on@) || (a.occurred_on@ == b.occurred_on@ && a.txn_id
        < b.txn_id)
}

/// The place of an account's opening balance among entries: the earliest of its postings in a
/// transaction against equity. Posted against equity is what makes it one; its description is a label
/// that someone may edit.
pub open spec fn opening_place(entries: Seq<BookEntry>, id: i64, n: int) -> Option<int>
    decreases n,
{
    if n <= 0 {
        None
    } else {
        let rest = opening_place(entries, id, n - 1);
        let e = entries[n - 1];
        if e.account_id == id && against_equity(entries, e.txn_id) && (rest matches Some(k)
            ==> is_earlier(e, entries[k])) {
            Some(n - 1)
        } else {
            rest
        }
    }
}

fn has_equity(entries: &Vec<BookEntry>, txn: i64) -> (r: bool)
    ensures
        r == against_equity(entries@, txn),
{
    let mut i: usize = 0;
    while i < entries.len()
        invariant
            i <= entries@.len(),
            forall|j: int|
                0 <= j < i ==> !((#[trigger] entries@[j]).txn_id == txn && entries@[j].kind@
                    == "equity"@),
        decreases entries@.len() - i,
    {
        if entries[i].txn_id == txn && str_eq(entries[i].kind.as_str(), "equity") {
            assert(entries@[i as int].txn_id == txn);
            return true;
        }
        i = i + 1;
    }
    false
}

/// The place of an account's opening balance among entries.
pub fn find_opening(entries: &Vec<BookEntry>, id: i64) -> (r: Option<usize>)
    ensures
        match r {
            Some(k) => opening_place(entries@, id, entries@.len() as int) == Some(k as int) && k
                < entries@.len(),
            None => opening_place(entries@, id, entries@.len() as int) is None,
        },
{
    let mut best: Option<usize> = None;
    let mut i: usize = 0;
    while i < entries.len()
        invariant
            i <= entries@.len(),
            match best {
                Some(k) => opening_place(entries@, id, i as int) == Some(k as int) && k < i,
                None => opening_place(entries@, id, i as int) is None,
            },
        decreases entries@.len() - i,
    {
        let e = &entries[i];
        if e.account_id == id && has_equity(entries, e.txn_id) {
            let first_so_far = match best {
                Some(k) => {
                    let b = &entries[k];
                    text_less(e.occurred_on.as_str(), b.occurred_on.as_str()) || (str_eq(
                        e.occurred_on.as_str(),
                        b.occurred_on.as_str(),
                    ) && e.txn_id < b.txn_id)
                },
                None => true,
            };
            if first_so_far {
                best = Some(i);
            }
        }
        i = i + 1;
    }
    best
}

/// What setting an opening balance comes to.
#[derive(Debug, Clone, Copy, PartialEq, Eq, Structural)]
pub enum OpeningEdit {
    /// There is none and none is wanted.
    Nothing,
    /// The transaction goes, rather than lingering as a pair of zero postings.
    Remove(i64),
    /// The transaction is kept, with its links, and its two legs get the new amount.
    Update(i64),
    Create,
}

/// Why an account has no opening balance.
pub open spec fn opening_refusal(accounts: Seq<Account>, id: i64) -> Option<Refusal> {
    let a = account_of(accounts, id);
    if !known(accounts, id) {
        Some(no_such_account(id))
    } else if a.kind@ == "equity"@ || a.system {
        Some(
            (
                "bad_params"@,
                a.name@
                    + " is the counterweight for opening balances, not an account that has one"@,
            ),
        )
    } else {
        None
    }
}

/// What setting an account's opening balance comes to, given the transaction that holds the one it
/// has.
pub fn set_opening(accounts: &Vec<Account>, id: i64, amount: Minor, existing: Option<i64>) -> (r:
    Result<OpeningEdit, EditError>)
    ensures
        match opening_refusal(accounts@, id) {
            Some(why) => r matches Err(e) && is_refusal(e, why),
            None => r == Ok::<OpeningEdit, EditError>(
                match existing {
                    Some(t) => if amount == 0 {
                        OpeningEdit::Remove(t)
                    } else {
                        OpeningEdit::Update(t)
                    },
                    None => if amount == 0 {
                        OpeningEdit::Nothing
                    } else {
                        OpeningEdit::Create
                    },
                },
            ),
        },
{
    let a = match find(accounts, id) {
        Some(i) => &accounts[i],
        None => return Err(say_no_such_account(id)),
    };
    if str_eq(a.kind.as_str(), "equity") || a.system {
        let mut m = a.name.clone();
        m.append(" is the counterweight for opening balances, not an account that has one");
        return Err(bad(m.as_str()));
    }
    Ok(
        match existing {
            Some(t) => if amount == 0 {
                OpeningEdit::Remove(t)
            } else {
                OpeningEdit::Update(t)
            },
            None => if amount == 0 {
                OpeningEdit::Nothing
            } else {
                OpeningEdit::Create
            },
        },
    )
}

/// Why an opening balance is not updated: its transaction is not the pair of postings that one is.
pub open spec fn shape_refusal(txn: i64, near: usize, far: usize) -> Option<Refusal> {
    if near != 1 || far != 1 {
        Some(
            (
                "shape"@,
                "opening transaction "@ + int_digits(txn as int)
                    + " is not the two-posting pair set_opening writes ("@ + int_digits(near as int)
                    + " account leg(s), "@ + int_digits(far as int)
                    + " counterweight leg(s)) -- refusing to leave it half-updated"@,
            ),
        )
    } else {
        None
    }
}

/// Whether an opening balance was updated as the pair of postings it is, given how many legs were on
/// the account and how many were not.
pub fn check_opening_shape(txn: i64, near: usize, far: usize) -> (r: Result<(), EditError>)
    ensures
        outcome_is(r, shape_refusal(txn, near, far)),
{
    if near != 1 || far != 1 {
        let mut m = "opening transaction ".to_string();
        let t = int_text(txn as i128);
        m.append(t.as_str());
        m.append(" is not the two-posting pair set_opening writes (");
        let a = int_text(near as i128);
        m.append(a.as_str());
        m.append(" account leg(s), ");
        let b = int_text(far as i128);
        m.append(b.as_str());
        m.append(" counterweight leg(s)) -- refusing to leave it half-updated");
        return Err(fail("shape", m));
    }
    Ok(())
}

/// A description as it is kept, or why it is refused: a row with no readable label cannot be picked
/// out of a list at all.
pub fn check_description(text: &str) -> (r: Result<String, EditError>)
    ensures
        if trimmed(text@).len() == 0 {
            r matches Err(e) && is_refusal(
                e,
                ("bad_params"@, "description must not be empty"@),
            )
        } else {
            r matches Ok(d) && d@ == trimmed(text@)
        },
{
    let d = trim(text);
    if d.as_str().unicode_len() == 0 {
        return Err(bad("description must not be empty"));
    }
    Ok(d)
}

} // verus!
