//! What an import does to a statement: how its columns are read, which rule catches a row, and what
//! the accepted rows become.

use crate::book::{account_of, Account};
use crate::importer::{
    catches, column, committed_in, count_duplicates, count_errors, count_new, created_by, decider,
    delimiter_byte, far_refusal, field_amount, first_day, hits, imported_all, is_header, is_key,
    last_day, law_the_first_rule_asked_wins, normal_of, plain_chars, print_of, profile_day,
    record_amount, staged_all, staged_record, word_scan, words, ImportError, ImportKey, ImportRule,
    ImportedView, Profile, RowView, StagedView,
};
use crate::date::{iso, read_day};
use crate::lists::{lemma_first, lemma_first_is, lemma_push_has};
use crate::money::{reading, Reading};
use crate::text::{
    alphanumeric, ascii_lower, has_part, is_white, lemma_text_irreflexive, lemma_text_transitive,
    lemma_trimmed_id, part_at, text_lt, trimmed, upper,
};
use vstd::prelude::*;

verus! {

/// Whether `shown` is the field of the row that a rule on `field` looks at: its own, and no other.
pub open spec fn is_shown(field: Seq<char>, row: RowView, shown: Seq<char>) -> bool {
    &&& field == "payee"@ ==> (row.payee matches Some(t) ==> shown == t)
    &&& field == "payee"@ ==> (row.payee is None ==> shown.len() == 0)
    &&& field == "bank_category"@ ==> (row.bank_category matches Some(t) ==> shown == t)
    &&& field == "bank_category"@ ==> (row.bank_category is None ==> shown.len() == 0)
    &&& field == "txn_type"@ ==> (row.txn_type matches Some(t) ==> shown == t)
    &&& field == "txn_type"@ ==> (row.txn_type is None ==> shown.len() == 0)
    &&& field != "payee"@ && field != "bank_category"@ && field != "txn_type"@ ==> shown
        == row.description
}

proof fn lemma_rule_fields()
    ensures
        "payee"@ != "bank_category"@,
        "payee"@ != "txn_type"@,
        "bank_category"@ != "txn_type"@,
        "description"@ != "payee"@,
        "description"@ != "bank_category"@,
        "description"@ != "txn_type"@,
        "equals"@ != "starts_with"@,
        "contains"@ != "equals"@,
        "contains"@ != "starts_with"@,
{
    reveal_strlit("payee");
    reveal_strlit("bank_category");
    reveal_strlit("txn_type");
    reveal_strlit("description");
    reveal_strlit("equals");
    reveal_strlit("starts_with");
    reveal_strlit("contains");
    assert("payee"@.len() == 5);
    assert("bank_category"@.len() == 13);
    assert("txn_type"@.len() == 8);
    assert("description"@.len() == 11);
    assert("equals"@.len() == 6);
    assert("starts_with"@.len() == 11);
    assert("contains"@.len() == 8);
}

/// A rule looks at its own field of the row and at no other. Where it is enabled and its sign agrees,
/// it catches the row exactly where that field, in upper case, is the pattern, starts with it or
/// holds it, as its operator says.
pub proof fn law_a_rule_looks_at_its_own_field(rule: ImportRule, row: RowView, shown: Seq<char>)
    requires
        is_shown(rule.field@, row, shown),
    ensures
        rule.enabled && rule.sign == 0 && rule.op@ == "equals"@ ==> (catches(rule, row) <==> upper(
            shown,
        ) == upper(rule.pattern@)),
        rule.enabled && rule.sign == 0 && rule.op@ == "starts_with"@ ==> (catches(rule, row) <==> {
            &&& upper(rule.pattern@).len() <= upper(shown).len()
            &&& forall|i: int|
                0 <= i < upper(rule.pattern@).len() ==> #[trigger] upper(shown)[i] == upper(
                    rule.pattern@,
                )[i]
        }),
        rule.enabled && rule.sign == 0 && rule.op@ != "equals"@ && rule.op@ != "starts_with"@ ==> (
        catches(rule, row) <==> exists|a: Seq<char>, b: Seq<char>|
            upper(shown) == #[trigger] (a + upper(rule.pattern@) + b)),
{
    lemma_rule_fields();
    let hay = upper(shown);
    let needle = upper(rule.pattern@);
    if shown.len() == 0 {
        assert(shown =~= Seq::empty());
    }
    if needle.is_prefix_of(hay) {
        assert forall|i: int| 0 <= i < needle.len() implies #[trigger] hay[i] == needle[i] by {
            assert(hay.subrange(0, needle.len() as int)[i] == needle[i]);
        }
    } else if needle.len() <= hay.len() && (forall|i: int|
        0 <= i < needle.len() ==> #[trigger] hay[i] == needle[i]) {
        assert(needle =~= hay.subrange(0, needle.len() as int));
    }
    if has_part(hay, needle) {
        let i = choose|i: int| part_at(hay, needle, i);
        assert(hay =~= hay.take(i) + needle + hay.skip(i + needle.len()));
    }
    if exists|a: Seq<char>, b: Seq<char>| hay == #[trigger] (a + needle + b) {
        let (a, b) = choose|a: Seq<char>, b: Seq<char>| hay == #[trigger] (a + needle + b);
        assert(hay.subrange(a.len() as int, (a.len() + needle.len()) as int) =~= needle);
        assert(part_at(hay, needle, a.len() as int));
    }
}

/// A rule on one field catches two rows alike where they agree in that field and in their amount,
/// whatever else they hold.
pub proof fn law_a_rule_does_not_look_at_other_fields(rule: ImportRule, a: RowView, b: RowView)
    requires
        a.amount == b.amount,
        rule.field@ == "payee"@ ==> a.payee == b.payee,
        rule.field@ == "bank_category"@ ==> a.bank_category == b.bank_category,
        rule.field@ == "txn_type"@ ==> a.txn_type == b.txn_type,
        rule.field@ != "payee"@ && rule.field@ != "bank_category"@ && rule.field@ != "txn_type"@
            ==> a.description == b.description,
    ensures
        catches(rule, a) <==> catches(rule, b),
{
}

/// A rule for money in catches no row that takes out or has no amount, one for money out none that
/// brings in, and a rule that is off none at all; a sign is all that it adds.
pub proof fn law_a_rule_of_a_sign_catches_that_sign(rule: ImportRule, row: RowView, plain: ImportRule)
    requires
        plain == (ImportRule { enabled: true, sign: 0, ..rule }),
    ensures
        catches(rule, row) ==> rule.enabled,
        rule.sign > 0 && catches(rule, row) ==> row.amount is Some && row.amount->0 > 0,
        rule.sign < 0 && catches(rule, row) ==> row.amount is Some && row.amount->0 < 0,
        rule.enabled && rule.sign > 0 && row.amount is Some && row.amount->0 > 0 ==> catches(rule, row)
            == catches(plain, row),
        rule.enabled && rule.sign < 0 && row.amount is Some && row.amount->0 < 0 ==> catches(rule, row)
            == catches(plain, row),
        rule.enabled && rule.sign == 0 ==> catches(rule, row) == catches(plain, row),
{
}

/// Whether a rule is the one that decides a row: it catches it, and of the others that do none has a
/// higher priority, nor the same and a lower id.
pub open spec fn decides(rules: Seq<ImportRule>, w: int, row: RowView) -> bool {
    &&& 0 <= w < rules.len()
    &&& catches(rules[w], row)
    &&& forall|i: int|
        0 <= i < rules.len() && catches(#[trigger] rules[i], row) ==> rules[i].priority
            < rules[w].priority || (rules[i].priority == rules[w].priority && rules[w].id
            <= rules[i].id)
}

proof fn lemma_decides(rules: Seq<ImportRule>, row: RowView)
    ensures
        decider(rules, row) matches Some(w) ==> decides(rules, w, row),
        decider(rules, row) is None ==> forall|i: int|
            0 <= i < rules.len() ==> !catches(#[trigger] rules[i], row),
{
    law_the_first_rule_asked_wins(rules, row);
}

/// Every hit is of a row that is still new or pending, and gives it what the rule that decides it
/// sets.
pub proof fn law_a_hit_is_what_the_deciding_rule_sets(
    rules: Seq<ImportRule>,
    rows: Seq<RowView>,
    k: int,
) -> (r: (int, int))
    requires
        0 <= k < hits(rules, rows).len(),
    ensures
        0 <= r.0 < rows.len(),
        rows[r.0].state == "new"@ || rows[r.0].state == "pending"@,
        decides(rules, r.1, rows[r.0]),
        hits(rules, rows)[k].row_id == rows[r.0].id,
        hits(rules, rows)[k].rule_id == rules[r.1].id,
        hits(rules, rows)[k].far_account_id == rules[r.1].set_far_account_id,
    decreases rows.len(),
{
    let rest = rows.drop_last();
    lemma_decides(rules, rows.last());
    if k < hits(rules, rest).len() {
        let r = law_a_hit_is_what_the_deciding_rule_sets(rules, rest, k);
        assert(rest[r.0] == rows[r.0]);
        r
    } else {
        (rows.len() - 1, decider(rules, rows.last())->0)
    }
}

/// Every row that is still new or pending and that some rule catches is hit.
pub proof fn law_every_row_a_rule_catches_is_hit(
    rules: Seq<ImportRule>,
    rows: Seq<RowView>,
    i: int,
    j: int,
) -> (k: int)
    requires
        0 <= i < rows.len(),
        rows[i].state == "new"@ || rows[i].state == "pending"@,
        0 <= j < rules.len(),
        catches(rules[j], rows[i]),
    ensures
        0 <= k < hits(rules, rows).len(),
        hits(rules, rows)[k].row_id == rows[i].id,
    decreases rows.len(),
{
    let rest = rows.drop_last();
    if i == rows.len() - 1 {
        lemma_decides(rules, rows.last());
        hits(rules, rest).len() as int
    } else {
        assert(rest[i] == rows[i]);
        law_every_row_a_rule_catches_is_hit(rules, rest, i, j)
    }
}

/// Every transaction of a committed batch is one of its accepted rows that is new or matched: it
/// moves the row's amount on the row's account, and the opposite on its far account or, where it has
/// none, the one for what is not classified.
pub proof fn law_a_committed_row_moves_its_amount(
    rows: Seq<RowView>,
    unclassified: i64,
    accounts: Seq<Account>,
    k: int,
) -> (i: int)
    requires
        0 <= k < imported_all(rows, unclassified, accounts).len(),
    ensures
        0 <= i < rows.len(),
        rows[i].accepted,
        rows[i].state == "new"@ || rows[i].state == "matched"@,
        is_import(imported_all(rows, unclassified, accounts)[k], rows[i], unclassified),
    decreases rows.len(),
{
    let rest = rows.drop_last();
    if k < imported_all(rest, unclassified, accounts).len() {
        let i = law_a_committed_row_moves_its_amount(rest, unclassified, accounts, k);
        assert(rest[i] == rows[i]);
        i
    } else {
        rows.len() - 1
    }
}

/// Whether a transaction is what a row says.
pub open spec fn is_import(t: ImportedView, row: RowView, unclassified: i64) -> bool {
    &&& t.row_id == row.id
    &&& row.occurred_on == Some(t.occurred_on)
    &&& t.description == row.description
    &&& t.payee == row.payee
    &&& row.account_id == Some(t.account_id)
    &&& t.fingerprint == row.fingerprint
    &&& t.legs.len() == 2
    &&& t.legs[0].account_id == t.account_id
    &&& t.legs[0].currency == row.currency
    &&& row.amount is Some && t.legs[0].amount_minor == row.amount->0
    &&& t.legs[1].amount_minor == -row.amount->0
    &&& row.far_account_id matches Some(far) ==> t.legs[1].account_id == far
    &&& row.far_account_id is None ==> t.legs[1].account_id == unclassified
}

/// Every accepted row that is new or matched and has an account, a day and an amount is committed.
pub proof fn law_every_accepted_row_is_committed(
    rows: Seq<RowView>,
    unclassified: i64,
    accounts: Seq<Account>,
    i: int,
) -> (k: int)
    requires
        0 <= i < rows.len(),
        rows[i].accepted,
        rows[i].state == "new"@ || rows[i].state == "matched"@,
        rows[i].account_id is Some,
        rows[i].occurred_on is Some,
        rows[i].amount is Some,
    ensures
        0 <= k < imported_all(rows, unclassified, accounts).len(),
        imported_all(rows, unclassified, accounts)[k].row_id == rows[i].id,
    decreases rows.len(),
{
    let rest = rows.drop_last();
    if i == rows.len() - 1 {
        imported_all(rest, unclassified, accounts).len() as int
    } else {
        assert(rest[i] == rows[i]);
        law_every_accepted_row_is_committed(rest, unclassified, accounts, i)
    }
}

/// A row's far account stops it exactly where it is not there or holds another currency.
pub proof fn law_a_row_is_stopped_by_its_far_account(
    row: RowView,
    unclassified: i64,
    accounts: Seq<Account>,
    far: i64,
)
    requires
        row.far_account_id matches Some(id) ==> far == id,
        row.far_account_id is None ==> far == unclassified,
    ensures
        far_refusal(row, unclassified, accounts) is None <==> crate::book::known(accounts, far)
            && account_of(accounts, far).currency@ == row.currency,
        !crate::book::known(accounts, far) ==> far_refusal(row, unclassified, accounts) == Some(
            ImportError::NoAccount(far),
        ),
{
}

/// Taking a batch back takes the transactions that its rows became, and the rows that were committed.
pub proof fn law_a_revert_names_what_was_committed(rows: Seq<RowView>, id: i64)
    ensures
        created_by(rows).contains(id) <==> exists|i: int|
            0 <= i < rows.len() && (#[trigger] rows[i]).txn_id == Some(id),
        committed_in(rows).contains(id) <==> exists|i: int|
            0 <= i < rows.len() && (#[trigger] rows[i]).state == "committed"@ && rows[i].id == id,
    decreases rows.len(),
{
    if rows.len() > 0 {
        let rest = rows.drop_last();
        law_a_revert_names_what_was_committed(rest, id);
        if rows.last().txn_id is Some {
            lemma_push_has(created_by(rest), rows.last().txn_id->0, id);
        }
        lemma_push_has(committed_in(rest), rows.last().id, id);
        assert(rows[rows.len() - 1] == rows.last());
        assert forall|i: int| 0 <= i < rest.len() implies rest[i] == #[trigger] rows[i] by {}
        if exists|i: int| 0 <= i < rest.len() && (#[trigger] rest[i]).txn_id == Some(id) {
            let i = choose|i: int| 0 <= i < rest.len() && (#[trigger] rest[i]).txn_id == Some(id);
            assert(rows[i].txn_id == Some(id));
        }
        if exists|i: int|
            0 <= i < rest.len() && (#[trigger] rest[i]).state == "committed"@ && rest[i].id == id {
            let i = choose|i: int|
                0 <= i < rest.len() && (#[trigger] rest[i]).state == "committed"@ && rest[i].id == id;
            assert(rows[i].state == "committed"@ && rows[i].id == id);
        }
    }
}

/// Whether two characters are the same ASCII letter in either case, or the same character.
pub open spec fn same_letter(x: char, y: char) -> bool {
    let a = x as u32;
    let b = y as u32;
    a == b || (65 <= a <= 90 && b == a + 32) || (65 <= b <= 90 && a == b + 32)
}

proof fn lemma_same_letter(x: char, y: char)
    ensures
        ascii_lower(x) == ascii_lower(y) <==> same_letter(x, y),
{
}

/// Whether a header is called by a name: the same letters, whatever their case and the white space
/// around them.
pub open spec fn is_called(header: Seq<char>, name: Seq<char>) -> bool {
    let a = trimmed(header);
    let b = trimmed(name);
    a.len() == b.len() && forall|i: int| 0 <= i < a.len() ==> same_letter(#[trigger] a[i], b[i])
}

proof fn lemma_is_called(headers: Seq<Seq<char>>, name: Seq<char>, i: int)
    ensures
        is_header(headers, name)(i) <==> is_called(headers[i], name),
{
    let a = trimmed(headers[i]);
    let b = trimmed(name);
    assert forall|j: int| 0 <= j < a.len() && a.len() == b.len() implies (ascii_lower(
        #[trigger] a[j],
    ) == ascii_lower(b[j]) <==> same_letter(a[j], b[j])) by {
        lemma_same_letter(a[j], b[j]);
    }
}

/// A column is read under the first header called by its name; a record too short for it, or a
/// statement without it, has none.
pub proof fn law_a_column_is_read_under_its_header(
    record: Seq<Seq<char>>,
    headers: Seq<Seq<char>>,
    name: Seq<char>,
    i: int,
)
    requires
        0 <= i <= headers.len(),
        forall|j: int| 0 <= j < i ==> !is_called(#[trigger] headers[j], name),
        i < headers.len() ==> is_called(headers[i], name),
    ensures
        i < headers.len() && i < record.len() ==> column(record, headers, name) == Some(record[i]),
        i == headers.len() || i >= record.len() ==> column(record, headers, name) is None,
{
    assert forall|j: int| 0 <= j < i implies !#[trigger] is_header(headers, name)(j) by {
        lemma_is_called(headers, name, j);
        assert(!is_called(headers[j], name));
    }
    lemma_is_called(headers, name, i);
    lemma_first(headers.len() as int, is_header(headers, name), i);
}

/// What a field holds as an amount of money.
pub open spec fn holds(field: Option<Seq<char>>, digits: int, v: int) -> bool {
    field matches Some(t) && trimmed(t).len() > 0 && reading(t, digits) == Reading::Minor(v)
}

/// A profile with one amount column reads its amount, sign and all, and nothing else.
pub proof fn law_a_single_amount_column_is_read_as_it_is(
    record: Seq<Seq<char>>,
    headers: Seq<Seq<char>>,
    p: Profile,
    v: int,
)
    requires
        p.mapping.amount is Some,
    ensures
        record_amount(record, headers, p) == Some(v) <==> holds(
            column(record, headers, p.mapping.amount->0@),
            p.minor_digits as int,
            v,
        ),
{
}

/// Without one, money in comes in and money out goes out, whatever sign it is written with; money in
/// is asked first, and neither where it is nothing.
pub proof fn law_money_out_goes_out(
    record: Seq<Seq<char>>,
    headers: Seq<Seq<char>>,
    p: Profile,
    inn: Option<Seq<char>>,
    out: Option<Seq<char>>,
    v: int,
)
    requires
        p.mapping.amount is None,
        p.mapping.money_in matches Some(n) ==> inn == column(record, headers, n@),
        p.mapping.money_in is None ==> inn is None,
        p.mapping.money_out matches Some(n) ==> out == column(record, headers, n@),
        p.mapping.money_out is None ==> out is None,
        v != 0,
    ensures
        holds(inn, p.minor_digits as int, v) ==> record_amount(record, headers, p) == Some(v),
        (forall|w: int| w != 0 ==> !holds(inn, p.minor_digits as int, w)) && holds(
            out,
            p.minor_digits as int,
            v,
        ) ==> record_amount(record, headers, p) == Some(
            if v > 0 {
                -v
            } else {
                v
            },
        ),
        (forall|w: int| w != 0 ==> !holds(inn, p.minor_digits as int, w)) && (forall|w: int|
            w != 0 ==> !holds(out, p.minor_digits as int, w)) ==> record_amount(record, headers, p)
            is None,
{
    let md = p.minor_digits as int;
    if field_amount(inn, md) is Some {
        assert(holds(inn, md, field_amount(inn, md)->0));
    }
    if field_amount(out, md) is Some {
        assert(holds(out, md, field_amount(out, md)->0));
    }
}

/// A day is read in the profile's own format first, else as year, month and day, else as day, month
/// and year.
pub proof fn law_a_day_is_read_in_the_profiles_format_first(text: Seq<char>, format: Seq<char>, n: int)
    ensures
        read_day(trimmed(text), format) == Some(n) ==> profile_day(text, format) == Some(n),
        read_day(trimmed(text), format) is None && read_day(trimmed(text), "%Y-%m-%d"@) == Some(n)
            ==> profile_day(text, format) == Some(n),
        read_day(trimmed(text), format) is None && read_day(trimmed(text), "%Y-%m-%d"@) is None
            && read_day(trimmed(text), "%d/%m/%Y"@) == Some(n) ==> profile_day(text, format) == Some(
            n,
        ),
        profile_day(text, format) is None <==> read_day(trimmed(text), format) is None && read_day(
            trimmed(text),
            "%Y-%m-%d"@,
        ) is None && read_day(trimmed(text), "%d/%m/%Y"@) is None,
{
}

/// Each field of a staged row is the record's under the header that the profile maps to it; the
/// currency is the profile's where the record gives none; the account is the profile's.
pub proof fn law_a_staged_row_holds_the_mapped_columns(
    record: Seq<Seq<char>>,
    headers: Seq<Seq<char>>,
    p: Profile,
    keys: Seq<ImportKey>,
    line_no: int,
)
    ensures
        ({
            let row = staged_record(record, headers, p, keys, line_no);
            let m = p.mapping;
            &&& row.line_no == line_no
            &&& row.account_id == p.account_id
            &&& row.payee == under(record, headers, m.payee)
            &&& row.bank_category == under(record, headers, m.bank_category)
            &&& row.txn_type == under(record, headers, m.txn_type)
            &&& row.external_id == under(record, headers, m.external_id)
            &&& under(record, headers, m.currency) is Some ==> row.currency == under(
                record,
                headers,
                m.currency,
            )
            &&& under(record, headers, m.currency) is None ==> row.currency == Some(
                p.default_currency@,
            )
            &&& under(record, headers, m.description) matches Some(d) ==> row.description == trimmed(d)
            &&& under(record, headers, m.description) is None ==> row.description.len() == 0
            &&& row.amount == record_amount(record, headers, p)
            &&& row.occurred_on is Some <==> (column(record, headers, m.date@) is Some && profile_day(
                column(record, headers, m.date@)->0,
                p.date_format@,
            ) is Some)
            &&& row.occurred_on is Some ==> row.occurred_on == Some(
                iso(profile_day(column(record, headers, m.date@)->0, p.date_format@)->0),
            )
        }),
{
    reveal_strlit("");
    assert(""@.len() == 0);
}

/// The record's text under the header that a field is mapped to.
pub open spec fn under(record: Seq<Seq<char>>, headers: Seq<Seq<char>>, name: Option<String>) -> Option<
    Seq<char>,
> {
    if name is Some {
        column(record, headers, name->0@)
    } else {
        None
    }
}

/// A staged row is a duplicate exactly where its account has had its fingerprint, and then says of
/// which transaction; it is an error exactly where it lacks a day or an amount, and says which; and
/// it is new, and accepted, otherwise.
pub proof fn law_a_staged_row_is_new_known_or_in_error(
    record: Seq<Seq<char>>,
    headers: Seq<Seq<char>>,
    p: Profile,
    keys: Seq<ImportKey>,
    line_no: int,
)
    ensures
        ({
            let row = staged_record(record, headers, p, keys, line_no);
            let whole = row.occurred_on is Some && row.amount is Some;
            &&& row.fingerprint is Some <==> whole
            &&& whole ==> row.fingerprint == Some(
                print_of(row.occurred_on->0, row.amount->0, row.description),
            )
            &&& row.state == "error"@ <==> !whole
            &&& row.occurred_on is None ==> row.error == Some("unparseable date"@)
            &&& row.occurred_on is Some && row.amount is None ==> row.error == Some(
                "unparseable amount"@,
            )
            &&& whole ==> row.error is None
            &&& row.state == "duplicate"@ <==> row.dup_of_txn_id is Some
            &&& row.state == "new"@ <==> row.accepted
            &&& row.dup_of_txn_id is Some <==> whole && p.account_id is Some && exists|i: int|
                0 <= i < keys.len() && (#[trigger] keys[i]).fingerprint@ == row.fingerprint->0
            &&& row.dup_of_txn_id matches Some(t) ==> exists|i: int|
                0 <= i < keys.len() && (#[trigger] keys[i]).fingerprint@ == row.fingerprint->0
                    && keys[i].txn_id == t
        }),
{
    reveal_strlit("new");
    reveal_strlit("duplicate");
    reveal_strlit("error");
    assert("new"@.len() == 3);
    assert("duplicate"@.len() == 9);
    assert("error"@.len() == 5);
    let row = staged_record(record, headers, p, keys, line_no);
    if row.fingerprint is Some {
        let f = row.fingerprint->0;
        let q = is_key(keys, f);
        lemma_first_is(keys.len() as int, q);
        let at = crate::lists::first(keys.len() as int, q);
        if exists|i: int| 0 <= i < keys.len() && (#[trigger] keys[i]).fingerprint@ == f {
            let i = choose|i: int| 0 <= i < keys.len() && (#[trigger] keys[i]).fingerprint@ == f;
            assert(q(i));
        }
        if at < keys.len() {
            assert(q(at));
            assert(keys[at].fingerprint@ == f);
        }
    }
}

/// The rows of a batch are new, known or in error, each one of the three, and are numbered from one.
pub proof fn law_every_row_of_a_batch_is_counted_once(
    records: Seq<Result<Seq<Seq<char>>, Seq<char>>>,
    headers: Seq<Seq<char>>,
    p: Profile,
    keys: Seq<ImportKey>,
)
    ensures
        ({
            let rows = staged_all(records, headers, p, keys);
            &&& rows.len() == records.len()
            &&& count_new(rows) + count_duplicates(rows) + count_errors(rows) == rows.len()
            &&& forall|i: int| 0 <= i < rows.len() ==> (#[trigger] rows[i]).line_no == i + 1
        }),
    decreases records.len(),
{
    let rows = staged_all(records, headers, p, keys);
    if records.len() > 0 {
        law_every_row_of_a_batch_is_counted_once(records.drop_last(), headers, p, keys);
        assert(rows.drop_last() =~= staged_all(records.drop_last(), headers, p, keys));
        assert forall|i: int| 0 <= i < rows.len() implies (#[trigger] rows[i]).line_no == i + 1 by {}
    }
}

/// Whatever stands in a batch besides, a row adds one to the count of what it is.
pub proof fn law_a_row_counts_as_what_it_is(rows: Seq<StagedView>, row: StagedView)
    ensures
        count_new(rows.push(row)) == count_new(rows) + (if row.accepted {
            1int
        } else {
            0
        }),
        count_duplicates(rows.push(row)) == count_duplicates(rows) + (if row.dup_of_txn_id is Some {
            1int
        } else {
            0
        }),
        count_errors(rows.push(row)) == count_errors(rows) + (if row.error is Some {
            1int
        } else {
            0
        }),
{
    assert(rows.push(row).drop_last() =~= rows);
}

/// The first and the last day of a batch are days of its rows, and no row's day is before the one or
/// after the other.
pub proof fn law_a_batch_runs_from_its_first_day_to_its_last(rows: Seq<StagedView>)
    ensures
        first_day(rows) is None <==> forall|i: int|
            0 <= i < rows.len() ==> (#[trigger] rows[i]).occurred_on is None,
        last_day(rows) is None <==> first_day(rows) is None,
        first_day(rows) is Some ==> exists|i: int|
            0 <= i < rows.len() && (#[trigger] rows[i]).occurred_on == first_day(rows),
        last_day(rows) is Some ==> exists|i: int|
            0 <= i < rows.len() && (#[trigger] rows[i]).occurred_on == last_day(rows),
        forall|i: int|
            0 <= i < rows.len() && (#[trigger] rows[i]).occurred_on is Some ==> first_day(rows) is Some
                && !text_lt(rows[i].occurred_on->0, first_day(rows)->0) && !text_lt(
                last_day(rows)->0,
                rows[i].occurred_on->0,
            ),
    decreases rows.len(),
{
    if rows.len() > 0 {
        let rest = rows.drop_last();
        let now = rows.last();
        law_a_batch_runs_from_its_first_day_to_its_last(rest);
        assert(rows[rows.len() - 1] == now);
        if first_day(rest) is Some {
            let i = choose|i: int|
                0 <= i < rest.len() && (#[trigger] rest[i]).occurred_on == first_day(rest);
            assert(rows[i] == rest[i]);
            let j = choose|j: int|
                0 <= j < rest.len() && (#[trigger] rest[j]).occurred_on == last_day(rest);
            assert(rows[j] == rest[j]);
        }
        assert forall|i: int|
            0 <= i < rows.len() && (#[trigger] rows[i]).occurred_on is Some implies first_day(rows)
            is Some && !text_lt(rows[i].occurred_on->0, first_day(rows)->0) && !text_lt(
            last_day(rows)->0,
            rows[i].occurred_on->0,
        ) by {
            let d = rows[i].occurred_on->0;
            lemma_text_irreflexive(d);
            if i < rest.len() {
                assert(rest[i] == rows[i]);
                if now.occurred_on is Some {
                    let e = now.occurred_on->0;
                    if text_lt(e, first_day(rest)->0) && text_lt(d, e) {
                        lemma_text_transitive(d, e, first_day(rest)->0);
                    }
                    if text_lt(last_day(rest)->0, e) && text_lt(e, d) {
                        lemma_text_transitive(last_day(rest)->0, e, d);
                    }
                }
            }
        }
        if first_day(rows) is None {
            assert forall|i: int| 0 <= i < rows.len() implies (#[trigger] rows[i]).occurred_on
                is None by {
                if i < rest.len() {
                    assert(rest[i] == rows[i]);
                }
            }
        }
        if forall|i: int| 0 <= i < rows.len() ==> (#[trigger] rows[i]).occurred_on is None {
            assert forall|i: int| 0 <= i < rest.len() implies (#[trigger] rest[i]).occurred_on
                is None by {
                assert(rows[i] == rest[i]);
            }
            assert(rows[rows.len() - 1].occurred_on is None);
        }
    }
}

/// A statement without a delimiter of its own is separated by commas.
pub proof fn law_commas_separate_where_nothing_else_does()
    ensures
        delimiter_byte(Seq::empty()) == ',' as u8,
{
    vstd::utf8::encode_utf8_decode_utf8(Seq::empty());
    assert(vstd::utf8::encode_utf8(Seq::<char>::empty()).len() == 0);
}

/// A text without white space is one word.
pub proof fn law_a_text_without_white_space_is_one_word(s: Seq<char>)
    requires
        s.len() > 0,
        forall|i: int| 0 <= i < s.len() ==> !is_white(#[trigger] s[i]),
    ensures
        words(s) == seq![s],
{
    lemma_open_word(s);
}

proof fn lemma_open_word(s: Seq<char>)
    requires
        forall|i: int| 0 <= i < s.len() ==> !is_white(#[trigger] s[i]),
    ensures
        word_scan(s) == (Seq::<Seq<char>>::empty(), s),
    decreases s.len(),
{
    if s.len() > 0 {
        let rest = s.drop_last();
        assert(!is_white(s[s.len() - 1]));
        assert forall|i: int| 0 <= i < rest.len() implies !is_white(#[trigger] rest[i]) by {
            assert(rest[i] == s[i]);
        }
        lemma_open_word(rest);
        assert(rest.push(s.last()) =~= s);
    } else {
        assert(s =~= Seq::empty());
    }
}

/// White space parts the words on its two sides, and is part of none.
pub proof fn law_white_space_parts_words(a: Seq<char>, c: char, b: Seq<char>)
    requires
        is_white(c),
    ensures
        words(a.push(c) + b) == words(a) + words(b),
{
    lemma_parted(a, c, b);
    let (da, oa) = word_scan(a.push(c));
    let (db, ob) = word_scan(b);
    if ob.len() > 0 {
        assert((words(a) + db).push(ob) =~= words(a) + db.push(ob));
    }
}

proof fn lemma_parted(a: Seq<char>, c: char, b: Seq<char>)
    requires
        is_white(c),
    ensures
        word_scan(a.push(c) + b) == (words(a) + word_scan(b).0, word_scan(b).1),
    decreases b.len(),
{
    let t = a.push(c) + b;
    if b.len() == 0 {
        assert(t =~= a.push(c));
        assert(a.push(c).drop_last() =~= a);
        assert(words(a) + Seq::<Seq<char>>::empty() =~= words(a));
    } else {
        lemma_parted(a, c, b.drop_last());
        assert(t.drop_last() =~= a.push(c) + b.drop_last());
        let (db, ob) = word_scan(b.drop_last());
        assert((words(a) + db).push(ob) =~= words(a) + db.push(ob));
    }
}

/// What is normal already stays: letters, digits and spaces, with no white space at its ends and no
/// longer than forty-eight characters.
pub proof fn law_a_normal_text_stays(up: Seq<char>)
    requires
        up.len() <= 48,
        up.len() > 0 ==> !is_white(up[0]) && !is_white(up.last()),
        forall|i: int| 0 <= i < up.len() ==> alphanumeric(#[trigger] up[i]) || up[i] == ' ',
    ensures
        normal_of(up) == up,
{
    lemma_plain_stays(up);
    lemma_trimmed_id(up);
}

proof fn lemma_plain_stays(up: Seq<char>)
    requires
        forall|i: int| 0 <= i < up.len() ==> alphanumeric(#[trigger] up[i]) || up[i] == ' ',
    ensures
        plain_chars(up) == up,
    decreases up.len(),
{
    if up.len() > 0 {
        let rest = up.drop_last();
        assert(alphanumeric(up[up.len() - 1]) || up[up.len() - 1] == ' ');
        assert forall|i: int| 0 <= i < rest.len() implies alphanumeric(#[trigger] rest[i]) || rest[i]
            == ' ' by {
            assert(rest[i] == up[i]);
        }
        lemma_plain_stays(rest);
        assert(rest.push(up.last()) =~= up);
    }
}

/// Punctuation makes no difference to what is normal, and a normal text is never longer than
/// forty-eight characters.
pub proof fn law_punctuation_makes_no_difference(a: Seq<char>, c: char, b: Seq<char>)
    requires
        !alphanumeric(c),
        c != ' ',
    ensures
        normal_of(a.push(c) + b) == normal_of(a + b),
        normal_of(a + b).len() <= 48,
{
    lemma_plain_join(a.push(c), b);
    lemma_plain_join(a, b);
    assert(a.push(c).drop_last() =~= a);
}

proof fn lemma_plain_join(a: Seq<char>, b: Seq<char>)
    ensures
        plain_chars(a + b) == plain_chars(a) + plain_chars(b),
    decreases b.len(),
{
    if b.len() == 0 {
        assert(a + b =~= a);
        assert(plain_chars(a) + plain_chars(b) =~= plain_chars(a));
    } else {
        lemma_plain_join(a, b.drop_last());
        assert((a + b).drop_last() =~= a + b.drop_last());
        assert((plain_chars(a) + plain_chars(b.drop_last())).push(b.last()) =~= plain_chars(a)
            + plain_chars(b.drop_last()).push(b.last()));
    }
}

} // verus!
