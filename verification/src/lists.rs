//! Looking things up in lists.

use vstd::prelude::*;

verus! {

/// The least number from `k` on for which `p` holds, or `n` where none below `n` does.
pub open spec fn first_from(k: int, n: int, p: spec_fn(int) -> bool) -> int
    decreases n - k,
{
    if k >= n {
        n
    } else if p(k) {
        k
    } else {
        first_from(k + 1, n, p)
    }
}

/// The least place below `n` for which `p` holds, or `n` where there is none.
pub open spec fn first(n: int, p: spec_fn(int) -> bool) -> int {
    first_from(0, n, p)
}

proof fn lemma_first_from(k: int, n: int, p: spec_fn(int) -> bool, i: int)
    requires
        0 <= k <= i <= n,
        forall|j: int| k <= j < i ==> !#[trigger] p(j),
        i < n ==> p(i),
    ensures
        first_from(k, n, p) == i,
    decreases n - k,
{
    if k < i {
        assert(!p(k));
        lemma_first_from(k + 1, n, p, i);
    }
}

/// The place before which `p` does not hold, and at which it does, is the first.
pub proof fn lemma_first(n: int, p: spec_fn(int) -> bool, i: int)
    requires
        0 <= i <= n,
        forall|j: int| 0 <= j < i ==> !#[trigger] p(j),
        i < n ==> p(i),
    ensures
        first(n, p) == i,
{
    lemma_first_from(0, n, p, i);
}

proof fn lemma_first_from_is(k: int, n: int, p: spec_fn(int) -> bool)
    requires
        0 <= k <= n,
    ensures
        k <= first_from(k, n, p) <= n,
        first_from(k, n, p) < n ==> p(first_from(k, n, p)),
        forall|j: int| k <= j < first_from(k, n, p) ==> !#[trigger] p(j),
    decreases n - k,
{
    if k < n && !p(k) {
        lemma_first_from_is(k + 1, n, p);
    }
}

/// What the first place is: before it `p` does not hold, at it `p` does.
pub proof fn lemma_first_is(n: int, p: spec_fn(int) -> bool)
    requires
        0 <= n,
    ensures
        0 <= first(n, p) <= n,
        first(n, p) < n ==> p(first(n, p)),
        forall|j: int| 0 <= j < first(n, p) ==> !#[trigger] p(j),
{
    lemma_first_from_is(0, n, p);
}

/// What is in a list with one more at its end.
pub proof fn lemma_push_has<T>(s: Seq<T>, l: T, x: T)
    ensures
        s.push(l).contains(x) <==> s.contains(x) || x == l,
{
    if s.contains(x) {
        let i = choose|i: int| 0 <= i < s.len() && s[i] == x;
        assert(s.push(l)[i] == x);
    }
    if x == l {
        assert(s.push(l)[s.len() as int] == x);
    }
    if s.push(l).contains(x) {
        let i = choose|i: int| 0 <= i < s.push(l).len() && s.push(l)[i] == x;
        if i < s.len() {
            assert(s[i] == x);
        }
    }
}

/// What is in two lists one after the other.
pub proof fn lemma_join_has<T>(a: Seq<T>, b: Seq<T>, x: T)
    ensures
        (a + b).contains(x) <==> a.contains(x) || b.contains(x),
{
    if a.contains(x) {
        let i = choose|i: int| 0 <= i < a.len() && a[i] == x;
        assert((a + b)[i] == x);
    }
    if b.contains(x) {
        let i = choose|i: int| 0 <= i < b.len() && b[i] == x;
        assert((a + b)[a.len() + i] == x);
    }
    if (a + b).contains(x) {
        let i = choose|i: int| 0 <= i < (a + b).len() && (a + b)[i] == x;
        if i < a.len() {
            assert(a[i] == x);
        } else {
            assert(b[i - a.len()] == x);
        }
    }
}

} // verus!
