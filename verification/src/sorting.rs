//! Putting things in order, keeping those of the same rank as they came.

use vstd::prelude::*;

verus! {

/// Things of which some stand before others.
pub trait Ranked: Sized {
    spec fn before(&self, other: &Self) -> bool;

    fn comes_before(&self, other: &Self) -> (r: bool)
        ensures
            r == self.before(other),
    ;
}

/// A thing put in its place: after those it does not stand before.
pub open spec fn placed<T: Ranked>(s: Seq<T>, x: T) -> Seq<T>
    decreases s.len(),
{
    if s.len() > 0 && x.before(&s.last()) {
        placed(s.drop_last(), x).push(s.last())
    } else {
        s.push(x)
    }
}

/// Things in order, those of the same rank as they came.
pub open spec fn ranked<T: Ranked>(s: Seq<T>) -> Seq<T>
    decreases s.len(),
{
    if s.len() == 0 {
        s
    } else {
        placed(ranked(s.drop_last()), s.last())
    }
}

proof fn lemma_placed_at<T: Ranked>(s: Seq<T>, x: T, k: int)
    requires
        0 <= k <= s.len(),
        forall|j: int| k <= j < s.len() ==> x.before(&#[trigger] s[j]),
        k > 0 ==> !x.before(&s[k - 1]),
    ensures
        placed(s, x) == s.insert(k, x),
    decreases s.len(),
{
    if k < s.len() {
        let rest = s.drop_last();
        assert(x.before(&s[s.len() - 1]));
        lemma_placed_at(rest, x, k);
        assert(rest.insert(k, x).push(s.last()) =~= s.insert(k, x));
    } else {
        assert(s.insert(k, x) =~= s.push(x));
    }
}

/// Put a thing in its place.
pub fn place<T: Ranked>(v: &mut Vec<T>, x: T)
    ensures
        final(v)@ == placed(old(v)@, x),
{
    let mut k: usize = v.len();
    while k > 0 && x.comes_before(&v[k - 1])
        invariant
            k <= v@.len(),
            v@ == old(v)@,
            forall|j: int| k <= j < v@.len() ==> x.before(&#[trigger] v@[j]),
        decreases k,
    {
        k = k - 1;
    }
    proof {
        lemma_placed_at(v@, x, k as int);
    }
    v.insert(k, x);
}

/// Put things in order.
pub fn rank<T: Ranked>(v: Vec<T>) -> (r: Vec<T>)
    ensures
        r@ == ranked(v@),
{
    let ghost all = v@;
    let mut v = v;
    let mut out: Vec<T> = Vec::new();
    let ghost mut n: int = 0;
    assert(all.skip(0) =~= all);
    while v.len() > 0
        invariant
            0 <= n <= all.len(),
            v@ == all.skip(n),
            out@ == ranked(all.take(n)),
        decreases v@.len(),
    {
        let x = v.remove(0);
        proof {
            assert(all.take(n + 1).drop_last() =~= all.take(n));
            assert(all.skip(n).remove(0) =~= all.skip(n + 1));
            n = n + 1;
        }
        place(&mut out, x);
    }
    assert(all.take(n) =~= all);
    out
}

/// Whether the order of things is one: nothing stands before what stands before it, and what stands
/// before a thing stands before everything not before that thing.
pub open spec fn orders<T: Ranked>() -> bool {
    &&& forall|a: T, b: T| #[trigger] a.before(&b) ==> !b.before(&a)
    &&& forall|a: T, b: T, c: T| #[trigger] a.before(&b) && !(#[trigger] c.before(&b)) ==> a.before(&c)
}

/// Whether things stand in order.
pub open spec fn in_rank<T: Ranked>(s: Seq<T>) -> bool {
    forall|i: int, j: int|
        #![trigger s[i], s[j]]
        0 <= i < j < s.len() ==> !s[j].before(&s[i])
}

proof fn lemma_placed<T: Ranked>(s: Seq<T>, x: T)
    requires
        orders::<T>(),
        in_rank(s),
    ensures
        in_rank(placed(s, x)),
        placed(s, x).to_multiset() == s.to_multiset().insert(x),
        placed(s, x).len() == s.len() + 1,
        forall|i: int| 0 <= i < placed(s, x).len() ==> #[trigger] placed(s, x)[i] == x || s.contains(
            placed(s, x)[i],
        ),
    decreases s.len(),
{
    broadcast use vstd::seq_lib::group_to_multiset_ensures;

    let p = placed(s, x);
    if s.len() > 0 && x.before(&s.last()) {
        let rest = s.drop_last();
        let l = s.last();
        assert(in_rank(rest)) by {
            assert forall|i: int, j: int|
                #![trigger rest[i], rest[j]]
                0 <= i < j < rest.len() implies !rest[j].before(&rest[i]) by {
                assert(!s[j].before(&s[i]));
            }
        }
        lemma_placed(rest, x);
        let q = placed(rest, x);
        assert(rest.push(l) =~= s);
        assert forall|i: int, j: int| #![trigger p[i], p[j]] 0 <= i < j < p.len() implies !p[j].before(
            &p[i],
        ) by {
            if j < q.len() {
                assert(!q[j].before(&q[i]));
            } else {
                if q[i] != x {
                    assert(rest.contains(q[i]));
                    let k = choose|k: int| 0 <= k < rest.len() && rest[k] == q[i];
                    assert(!s[s.len() - 1].before(&s[k]));
                }
            }
        }
        assert forall|i: int| 0 <= i < p.len() implies #[trigger] p[i] == x || s.contains(p[i]) by {
            if i < q.len() {
                assert(q[i] == x || rest.contains(q[i]));
                if q[i] != x {
                    let k = choose|k: int| 0 <= k < rest.len() && rest[k] == q[i];
                    assert(s[k] == q[i]);
                }
            } else {
                assert(s[s.len() - 1] == l);
            }
        }
        assert(s.to_multiset() =~= rest.to_multiset().insert(l));
        assert(p.to_multiset() =~= q.to_multiset().insert(l));
    } else {
        assert forall|i: int, j: int| #![trigger p[i], p[j]] 0 <= i < j < p.len() implies !p[j].before(
            &p[i],
        ) by {
            if j < s.len() {
                assert(!s[j].before(&s[i]));
            } else if x.before(&s[i]) {
                if i < s.len() - 1 {
                    assert(!s[s.len() - 1].before(&s[i]));
                }
                assert(x.before(&s.last()));
            }
        }
        assert forall|i: int| 0 <= i < p.len() implies #[trigger] p[i] == x || s.contains(p[i]) by {
            if i < s.len() {
                assert(s[i] == p[i]);
            }
        }
    }
}

/// Putting things in order keeps each of them, as often as it came, and puts them in order.
pub proof fn law_ranking_keeps_everything_and_orders_it<T: Ranked>(s: Seq<T>)
    requires
        orders::<T>(),
    ensures
        in_rank(ranked(s)),
        ranked(s).to_multiset() == s.to_multiset(),
        ranked(s).len() == s.len(),
    decreases s.len(),
{
    broadcast use vstd::seq_lib::group_to_multiset_ensures;

    if s.len() > 0 {
        law_ranking_keeps_everything_and_orders_it(s.drop_last());
        lemma_placed(ranked(s.drop_last()), s.last());
        assert(s.drop_last().push(s.last()) =~= s);
    }
}

} // verus!
