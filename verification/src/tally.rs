//! Sums kept by name, in the order of the names.

use crate::text::{
    lemma_text_irreflexive, lemma_text_total, lemma_text_transitive, str_eq, text_less, text_lt,
};
use vstd::prelude::*;

verus! {

broadcast use vstd::string::group_string_axioms;

/// One sum and what it is the sum of.
#[derive(Debug, Clone, PartialEq, Eq)]
pub struct Sum {
    pub name: String,
    pub total: i128,
}

/// Whether sums stand in the order of their names, no name twice.
pub open spec fn in_order(rows: Seq<Sum>) -> bool {
    forall|i: int, j: int|
        0 <= i < j < rows.len() ==> text_lt(#[trigger] rows[i].name@, #[trigger] rows[j].name@)
}

/// The sum kept under a name; a name that is not kept stands for nothing.
pub open spec fn sum_of(rows: Seq<Sum>, name: Seq<char>) -> int
    decreases rows.len(),
{
    if rows.len() == 0 {
        0
    } else if rows.last().name@ == name {
        rows.last().total as int
    } else {
        sum_of(rows.drop_last(), name)
    }
}

/// Whether a sum is kept under a name.
pub open spec fn keeps(rows: Seq<Sum>, name: Seq<char>) -> bool {
    exists|i: int| 0 <= i < rows.len() && #[trigger] rows[i].name@ == name
}

/// In ordered sums the row at `i` is the one its name stands for.
pub proof fn lemma_sum_at(rows: Seq<Sum>, i: int)
    requires
        in_order(rows),
        0 <= i < rows.len(),
    ensures
        sum_of(rows, rows[i].name@) == rows[i].total,
    decreases rows.len(),
{
    if i < rows.len() - 1 {
        lemma_text_irreflexive(rows[i].name@);
        assert(text_lt(rows[i].name@, rows[rows.len() - 1].name@));
        assert(in_order(rows.drop_last()));
        lemma_sum_at(rows.drop_last(), i);
    }
}

/// A name that is not kept stands for nothing.
pub proof fn lemma_sum_absent(rows: Seq<Sum>, name: Seq<char>)
    requires
        !keeps(rows, name),
    ensures
        sum_of(rows, name) == 0,
    decreases rows.len(),
{
    if rows.len() > 0 {
        assert(rows[rows.len() - 1].name@ != name);
        assert(!keeps(rows.drop_last(), name)) by {
            if keeps(rows.drop_last(), name) {
                let i = choose|i: int|
                    0 <= i < rows.drop_last().len() && #[trigger] rows.drop_last()[i].name@ == name;
                assert(rows[i].name@ == name);
            }
        }
        lemma_sum_absent(rows.drop_last(), name);
    }
}

/// Sums of the same rows but one: every other name keeps its sum.
proof fn lemma_sum_update(rows: Seq<Sum>, at: int, row: Sum, name: Seq<char>)
    requires
        in_order(rows),
        0 <= at < rows.len(),
        row.name@ == rows[at].name@,
    ensures
        in_order(rows.update(at, row)),
        sum_of(rows.update(at, row), name) == (if name == row.name@ {
            row.total as int
        } else {
            sum_of(rows, name)
        }),
        keeps(rows.update(at, row), name) == keeps(rows, name),
    decreases rows.len(),
{
    let new = rows.update(at, row);
    assert(in_order(new)) by {
        assert forall|i: int, j: int| 0 <= i < j < new.len() implies text_lt(
            #[trigger] new[i].name@,
            #[trigger] new[j].name@,
        ) by {
            assert(new[i].name@ == rows[i].name@ && new[j].name@ == rows[j].name@);
        }
    }
    assert(keeps(new, name) == keeps(rows, name)) by {
        assert forall|i: int| 0 <= i < rows.len() implies new[i].name@
            == #[trigger] rows[i].name@ by {}
        if keeps(new, name) {
            let i = choose|i: int| 0 <= i < new.len() && #[trigger] new[i].name@ == name;
            assert(rows[i].name@ == name);
        }
        if keeps(rows, name) {
            let i = choose|i: int| 0 <= i < rows.len() && #[trigger] rows[i].name@ == name;
            assert(new[i].name@ == name);
        }
    }
    if keeps(rows, name) {
        let i = choose|i: int| 0 <= i < rows.len() && #[trigger] rows[i].name@ == name;
        lemma_sum_at(rows, i);
        lemma_sum_at(new, i);
        assert(new[i].name@ == name);
        if i != at {
            lemma_text_irreflexive(name);
            if i < at {
                assert(text_lt(rows[i].name@, rows[at].name@));
            } else {
                assert(text_lt(rows[at].name@, rows[i].name@));
            }
        }
    } else {
        lemma_sum_absent(rows, name);
        lemma_sum_absent(new, name);
        assert(rows[at].name@ != name);
    }
}

/// Sums with a new row at its place: every other name keeps its sum.
proof fn lemma_sum_insert(rows: Seq<Sum>, at: int, row: Sum, name: Seq<char>)
    requires
        in_order(rows),
        0 <= at <= rows.len(),
        forall|i: int| 0 <= i < at ==> text_lt(#[trigger] rows[i].name@, row.name@),
        forall|i: int| at <= i < rows.len() ==> text_lt(row.name@, #[trigger] rows[i].name@),
    ensures
        in_order(rows.insert(at, row)),
        sum_of(rows.insert(at, row), name) == (if name == row.name@ {
            row.total as int
        } else {
            sum_of(rows, name)
        }),
        keeps(rows.insert(at, row), name) == (keeps(rows, name) || name == row.name@),
        sum_of(rows, row.name@) == 0,
{
    let new = rows.insert(at, row);
    assert forall|i: int| 0 <= i < rows.len() implies #[trigger] rows[i].name@ != row.name@ by {
        lemma_text_irreflexive(row.name@);
    }
    lemma_sum_absent(rows, row.name@);
    assert(in_order(new)) by {
        assert forall|i: int, j: int| 0 <= i < j < new.len() implies text_lt(
            #[trigger] new[i].name@,
            #[trigger] new[j].name@,
        ) by {
            let a = if i < at {
                i
            } else {
                i - 1
            };
            let b = if j < at {
                j
            } else {
                j - 1
            };
            if i == at {
                assert(new[j] == rows[b]);
                assert(text_lt(row.name@, rows[b].name@));
            } else if j == at {
                assert(new[i] == rows[a]);
                assert(text_lt(rows[a].name@, row.name@));
            } else {
                assert(new[i] == rows[a] && new[j] == rows[b]);
                assert(text_lt(rows[a].name@, rows[b].name@));
            }
        }
    }
    if keeps(rows, name) {
        let i = choose|i: int| 0 <= i < rows.len() && #[trigger] rows[i].name@ == name;
        let k = if i < at {
            i
        } else {
            i + 1
        };
        assert(new[k] == rows[i]);
        assert(new[k].name@ == name);
        lemma_sum_at(rows, i);
        lemma_sum_at(new, k);
    } else {
        lemma_sum_absent(rows, name);
        if name == row.name@ {
            assert(new[at].name@ == name);
            lemma_sum_at(new, at);
        } else {
            if keeps(new, name) {
                let k = choose|k: int| 0 <= k < new.len() && #[trigger] new[k].name@ == name;
                if k < at {
                    assert(rows[k].name@ == name);
                } else if k > at {
                    assert(rows[k - 1].name@ == name);
                }
            }
            lemma_sum_absent(new, name);
        }
    }
}

/// Add an amount to the sum kept under a name.
pub fn add_to(rows: &mut Vec<Sum>, name: &str, amount: i128)
    requires
        in_order(old(rows)@),
        i128::MIN <= sum_of(old(rows)@, name@) + amount <= i128::MAX,
    ensures
        in_order(final(rows)@),
        forall|n: Seq<char>| #[trigger]
            sum_of(final(rows)@, n) == sum_of(old(rows)@, n) + (if n == name@ {
                amount as int
            } else {
                0
            }),
        forall|n: Seq<char>| #[trigger]
            keeps(final(rows)@, n) == (keeps(old(rows)@, n) || n == name@),
{
    let ghost before = rows@;
    let mut at: usize = 0;
    while at < rows.len() && text_less(rows[at].name.as_str(), name)
        invariant
            rows@ == before,
            at <= rows@.len(),
            forall|i: int| 0 <= i < at ==> text_lt(#[trigger] rows@[i].name@, name@),
        decreases rows@.len() - at,
    {
        at = at + 1;
    }
    if at < rows.len() && str_eq(rows[at].name.as_str(), name) {
        proof {
            lemma_sum_at(before, at as int);
        }
        let row = Sum { name: name.to_string(), total: rows[at].total + amount };
        proof {
            assert forall|n: Seq<char>| #[trigger]
                sum_of(before.update(at as int, row), n) == sum_of(before, n) + (if n == name@ {
                    amount as int
                } else {
                    0
                }) by {
                lemma_sum_update(before, at as int, row, n);
            }
            assert forall|n: Seq<char>| #[trigger]
                keeps(before.update(at as int, row), n) == (keeps(before, n) || n == name@) by {
                lemma_sum_update(before, at as int, row, n);
                assert(before[at as int].name@ == name@);
            }
            lemma_sum_update(before, at as int, row, name@);
        }
        rows.set(at, row);
    } else {
        let row = Sum { name: name.to_string(), total: amount };
        proof {
            assert forall|i: int| at <= i < before.len() implies text_lt(
                row.name@,
                #[trigger] before[i].name@,
            ) by {
                lemma_text_total(before[at as int].name@, name@);
                if i > at {
                    assert(text_lt(before[at as int].name@, before[i].name@));
                    lemma_text_transitive(name@, before[at as int].name@, before[i].name@);
                }
            }
            lemma_sum_insert(before, at as int, row, name@);
            assert(0 + amount == row.total);
            assert forall|n: Seq<char>| #[trigger]
                sum_of(before.insert(at as int, row), n) == sum_of(before, n) + (if n == name@ {
                    amount as int
                } else {
                    0
                }) by {
                lemma_sum_insert(before, at as int, row, n);
            }
            assert forall|n: Seq<char>| #[trigger]
                keeps(before.insert(at as int, row), n) == (keeps(before, n) || n == name@) by {
                lemma_sum_insert(before, at as int, row, n);
            }
        }
        rows.insert(at, row);
    }
}

/// The sums that are not nothing, in the same order.
pub fn nonzero(rows: &Vec<Sum>) -> (r: Vec<Sum>)
    requires
        in_order(rows@),
    ensures
        in_order(r@),
        forall|n: Seq<char>| #[trigger] sum_of(r@, n) == sum_of(rows@, n),
        forall|i: int| 0 <= i < r@.len() ==> (#[trigger] r@[i]).total != 0,
{
    let mut out: Vec<Sum> = Vec::new();
    let mut i: usize = 0;
    while i < rows.len()
        invariant
            in_order(rows@),
            i <= rows@.len(),
            in_order(out@),
            forall|j: int| 0 <= j < out@.len() ==> (#[trigger] out@[j]).total != 0,
            forall|j: int|
                0 <= j < out@.len() && i < rows@.len() ==> text_lt(
                    (#[trigger] out@[j]).name@,
                    rows@[i as int].name@,
                ),
            forall|n: Seq<char>| #[trigger] sum_of(out@, n) == sum_of(rows@.take(i as int), n),
        decreases rows@.len() - i,
    {
        let ghost before = out@;
        let ghost rest = rows@.take(i as int);
        proof {
            assert(rows@.take(i + 1).drop_last() =~= rest);
            assert(rows@.take(i + 1).last() == rows@[i as int]);
            if i + 1 < rows@.len() {
                assert(text_lt(rows@[i as int].name@, rows@[i + 1].name@));
                assert forall|j: int| 0 <= j < before.len() implies text_lt(
                    (#[trigger] before[j]).name@,
                    rows@[i + 1].name@,
                ) by {
                    lemma_text_transitive(
                        before[j].name@,
                        rows@[i as int].name@,
                        rows@[i + 1].name@,
                    );
                }
            }
            // The row's own name is not among the rows before it.
            assert(!keeps(rest, rows@[i as int].name@)) by {
                if keeps(rest, rows@[i as int].name@) {
                    let k = choose|k: int|
                        0 <= k < rest.len() && #[trigger] rest[k].name@ == rows@[i as int].name@;
                    assert(text_lt(rows@[k].name@, rows@[i as int].name@));
                    lemma_text_irreflexive(rows@[i as int].name@);
                }
            }
            lemma_sum_absent(rest, rows@[i as int].name@);
        }
        if rows[i].total != 0 {
            let row = Sum { name: rows[i].name.clone(), total: rows[i].total };
            proof {
                assert forall|n: Seq<char>| #[trigger]
                    sum_of(before.push(row), n) == sum_of(rows@.take(i + 1), n) by {
                    assert(before.push(row).drop_last() =~= before);
                    assert(sum_of(before, n) == sum_of(rest, n));
                }
            }
            out.push(row);
        } else {
            proof {
                assert forall|n: Seq<char>| #[trigger]
                    sum_of(out@, n) == sum_of(rows@.take(i + 1), n) by {
                    assert(sum_of(before, n) == sum_of(rest, n));
                }
            }
        }
        i = i + 1;
    }
    assert(rows@.take(rows@.len() as int) =~= rows@);
    out
}

} // verus!
