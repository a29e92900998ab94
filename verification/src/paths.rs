//! Following links between things that have ids, in either direction.

use vstd::prelude::*;

verus! {

/// Whether a link joins `a` and `b`, whichever way it points.
pub open spec fn joins(links: Seq<(i64, i64)>, a: i64, b: i64) -> bool {
    exists|i: int| 0 <= i < links.len() && joins_at(#[trigger] links[i], a, b)
}

/// Whether one link joins `a` and `b`, whichever way it points.
pub open spec fn joins_at(l: (i64, i64), a: i64, b: i64) -> bool {
    l == (a, b) || l == (b, a)
}

/// Whether a link joins the places `i` and `i + 1` of a way.
pub open spec fn step_at(links: Seq<(i64, i64)>, way: Seq<i64>, i: int) -> bool {
    joins(links, way[i], way[i + 1])
}

/// Whether a way goes from `a` to `b` along `n` links.
pub open spec fn is_way(links: Seq<(i64, i64)>, way: Seq<i64>, a: i64, b: i64, n: nat) -> bool {
    &&& way.len() == n + 1
    &&& way[0] == a
    &&& way[n as int] == b
    &&& forall|i: int| 0 <= i < n ==> #[trigger] step_at(links, way, i)
}

/// Whether `b` can be reached from `a` along exactly `n` links.
pub open spec fn reach(links: Seq<(i64, i64)>, a: i64, b: i64, n: nat) -> bool {
    exists|way: Seq<i64>| is_way(links, way, a, b, n)
}

/// Whatever is joined is joined both ways.
pub proof fn lemma_joins_symmetric(links: Seq<(i64, i64)>, a: i64, b: i64)
    requires
        joins(links, a, b),
    ensures
        joins(links, b, a),
{
    let i = choose|i: int| 0 <= i < links.len() && joins_at(#[trigger] links[i], a, b);
    assert(joins_at(links[i], b, a));
}

/// Everything reaches itself.
pub proof fn lemma_reach_self(links: Seq<(i64, i64)>, a: i64)
    ensures
        reach(links, a, a, 0),
{
    assert(is_way(links, seq![a], a, a, 0));
}

/// A way goes on along one more link.
pub proof fn lemma_reach_on(links: Seq<(i64, i64)>, a: i64, b: i64, c: i64, n: nat)
    requires
        reach(links, a, b, n),
        joins(links, b, c),
    ensures
        reach(links, a, c, n + 1),
{
    let way = choose|way: Seq<i64>| is_way(links, way, a, b, n);
    let more = way.push(c);
    assert forall|i: int| 0 <= i < n + 1 implies #[trigger] step_at(links, more, i) by {
        if i < n {
            assert(step_at(links, way, i));
        }
    }
    assert(is_way(links, more, a, c, n + 1));
}

/// A way of some links has a last link.
pub proof fn lemma_reach_last(links: Seq<(i64, i64)>, a: i64, b: i64, n: nat) -> (c: i64)
    requires
        reach(links, a, b, n),
        n > 0,
    ensures
        reach(links, a, c, (n - 1) as nat),
        joins(links, c, b),
{
    let way = choose|way: Seq<i64>| is_way(links, way, a, b, n);
    let less = way.drop_last();
    assert(step_at(links, way, n - 1));
    assert forall|i: int| 0 <= i < n - 1 implies #[trigger] step_at(links, less, i) by {
        assert(step_at(links, way, i));
    }
    assert(is_way(links, less, a, way[n - 1], (n - 1) as nat));
    way[n - 1]
}

/// A way of `n` links goes on to one of `n + m`.
pub proof fn lemma_reach_transitive(
    links: Seq<(i64, i64)>,
    a: i64,
    b: i64,
    c: i64,
    n: nat,
    m: nat,
)
    requires
        reach(links, a, b, n),
        reach(links, b, c, m),
    ensures
        reach(links, a, c, n + m),
    decreases m,
{
    if m > 0 {
        let d = lemma_reach_last(links, b, c, m);
        lemma_reach_transitive(links, a, b, d, n, (m - 1) as nat);
        lemma_reach_on(links, a, d, c, (n + m - 1) as nat);
    } else {
        let way = choose|way: Seq<i64>| is_way(links, way, b, c, m);
        assert(way[0] == b);
    }
}

/// A way can be walked back.
pub proof fn lemma_reach_symmetric(links: Seq<(i64, i64)>, a: i64, b: i64, n: nat)
    requires
        reach(links, a, b, n),
    ensures
        reach(links, b, a, n),
{
    let way = choose|way: Seq<i64>| is_way(links, way, a, b, n);
    let back = way.reverse();
    assert forall|i: int| 0 <= i < n implies #[trigger] step_at(links, back, i) by {
        assert(step_at(links, way, n - 1 - i));
        lemma_joins_symmetric(links, way[n - 1 - i], way[n - i]);
    }
    assert(is_way(links, back, b, a, n));
}

/// An id in its place among ids in order, each once.
pub open spec fn with_id(s: Seq<i64>, id: i64) -> Seq<i64>
    decreases s.len(),
{
    if s.len() == 0 || s.last() < id {
        s.push(id)
    } else if s.last() == id {
        s
    } else {
        with_id(s.drop_last(), id).push(s.last())
    }
}

/// An id is among ids with it put in, and so is whatever was.
pub proof fn lemma_with_id(s: Seq<i64>, id: i64)
    ensures
        forall|x: i64| #[trigger] with_id(s, id).contains(x) <==> s.contains(x) || x == id,
    decreases s.len(),
{
    let w = with_id(s, id);
    if s.len() == 0 || s.last() < id {
        assert forall|x: i64| #[trigger] w.contains(x) <==> s.contains(x) || x == id by {
            lemma_push_contains(s, id, x);
        }
    } else if s.last() == id {
        assert(s[s.len() - 1] == id);
    } else {
        let rest = s.drop_last();
        lemma_with_id(rest, id);
        assert(rest.push(s.last()) =~= s);
        assert forall|x: i64| #[trigger] w.contains(x) <==> s.contains(x) || x == id by {
            lemma_push_contains(with_id(rest, id), s.last(), x);
            lemma_push_contains(rest, s.last(), x);
        }
    }
}

/// What is in a list with one more at its end.
pub proof fn lemma_push_contains<A>(s: Seq<A>, y: A, x: A)
    ensures
        s.push(y).contains(x) == (s.contains(x) || x == y),
{
    if s.contains(x) {
        let i = choose|i: int| 0 <= i < s.len() && s[i] == x;
        assert(s.push(y)[i] == x);
    }
    if x == y {
        assert(s.push(y)[s.len() as int] == x);
    }
    if s.push(y).contains(x) && x != y {
        let i = choose|i: int| 0 <= i < s.push(y).len() && s.push(y)[i] == x;
        assert(s[i] == x);
    }
}

proof fn lemma_with_id_at(s: Seq<i64>, id: i64, k: int)
    requires
        0 <= k <= s.len(),
        forall|j: int| k <= j < s.len() ==> id < #[trigger] s[j],
        k > 0 ==> s[k - 1] <= id,
    ensures
        with_id(s, id) == (if k > 0 && s[k - 1] == id {
            s
        } else {
            s.insert(k, id)
        }),
    decreases s.len(),
{
    if k < s.len() {
        let rest = s.drop_last();
        assert(id < s[s.len() - 1]);
        lemma_with_id_at(rest, id, k);
        if k > 0 && s[k - 1] == id {
            assert(rest.push(s.last()) =~= s);
        } else {
            assert(rest.insert(k, id).push(s.last()) =~= s.insert(k, id));
        }
    } else {
        if k == 0 || s[k - 1] < id {
            assert(s.insert(k, id) =~= s.push(id));
        }
    }
}

/// Put an id in its place among ids in order, each once.
pub fn put(ids: &mut Vec<i64>, id: i64)
    ensures
        final(ids)@ == with_id(old(ids)@, id),
{
    let mut k: usize = ids.len();
    while k > 0 && id < ids[k - 1]
        invariant
            k <= ids@.len(),
            ids@ == old(ids)@,
            forall|j: int| k <= j < ids@.len() ==> id < #[trigger] ids@[j],
        decreases k,
    {
        k = k - 1;
    }
    proof {
        lemma_with_id_at(ids@, id, k as int);
    }
    if k > 0 && ids[k - 1] == id {
        return;
    }
    ids.insert(k, id);
}

/// Whether an id is among ids.
pub fn holds(ids: &Vec<i64>, id: i64) -> (r: bool)
    ensures
        r == ids@.contains(id),
{
    let mut i: usize = 0;
    while i < ids.len()
        invariant
            i <= ids@.len(),
            forall|j: int| 0 <= j < i ==> ids@[j] != id,
        decreases ids@.len() - i,
    {
        if ids[i] == id {
            assert(ids@[i as int] == id);
            return true;
        }
        i = i + 1;
    }
    false
}

} // verus!
