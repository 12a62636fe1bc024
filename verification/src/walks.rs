//! Walks along a relation between numbered vertices.

use vstd::prelude::*;

verus! {

/// `p` is a non-empty list of vertices in which each one is related to the next.
pub open spec fn is_walk(r: spec_fn(int, int) -> bool, p: Seq<int>) -> bool {
    &&& p.len() > 0
    &&& forall|i: int| 0 <= i < p.len() - 1 ==> r(#[trigger] p[i], p[i + 1])
}

/// Some walk along `r` leads from `u` to `w`.
pub open spec fn connects(r: spec_fn(int, int) -> bool, u: int, w: int) -> bool {
    exists|p: Seq<int>| #[trigger] is_walk(r, p) && p.first() == u && p.last() == w
}

/// The relation `r` read backwards.
pub open spec fn flip(r: spec_fn(int, int) -> bool) -> spec_fn(int, int) -> bool {
    |a: int, b: int| r(b, a)
}

/// The relation `r` read in both directions.
pub open spec fn both_ways(r: spec_fn(int, int) -> bool) -> spec_fn(int, int) -> bool {
    |a: int, b: int| r(a, b) || r(b, a)
}

/// The relation `r` kept only where it arrives inside `inside`.
pub open spec fn into(r: spec_fn(int, int) -> bool, inside: spec_fn(int) -> bool) -> spec_fn(
    int,
    int,
) -> bool {
    |a: int, b: int| r(a, b) && inside(b)
}

/// Every vertex is connected with itself.
pub proof fn lemma_connects_self(r: spec_fn(int, int) -> bool, u: int)
    ensures
        connects(r, u, u),
{
    let p = seq![u];
    assert(is_walk(r, p));
}

/// A connection goes on along one more step.
pub proof fn lemma_connects_push(r: spec_fn(int, int) -> bool, u: int, m: int, w: int)
    requires
        connects(r, u, m),
        r(m, w),
    ensures
        connects(r, u, w),
{
    let p = choose|p: Seq<int>| #[trigger] is_walk(r, p) && p.first() == u && p.last() == m;
    let q = p.push(w);
    assert forall|i: int| 0 <= i < q.len() - 1 implies r(#[trigger] q[i], q[i + 1]) by {
        if i < p.len() - 1 {
            assert(r(p[i], p[i + 1]));
        }
    }
    assert(is_walk(r, q));
}

/// One step is a connection.
pub proof fn lemma_connects_step(r: spec_fn(int, int) -> bool, u: int, w: int)
    requires
        r(u, w),
    ensures
        connects(r, u, w),
{
    lemma_connects_self(r, u);
    lemma_connects_push(r, u, u, w);
}

/// A walk that starts where `u` leads to can be appended.
pub proof fn lemma_walk_append(r: spec_fn(int, int) -> bool, u: int, q: Seq<int>)
    requires
        is_walk(r, q),
        connects(r, u, q.first()),
    ensures
        connects(r, u, q.last()),
    decreases q.len(),
{
    if q.len() > 1 {
        let front = q.drop_last();
        assert forall|i: int| 0 <= i < front.len() - 1 implies r(
            #[trigger] front[i],
            front[i + 1],
        ) by {
            assert(r(q[i], q[i + 1]));
        }
        lemma_walk_append(r, u, front);
        assert(r(q[q.len() - 2], q[q.len() - 2 + 1]));
        lemma_connects_push(r, u, front.last(), q.last());
    }
}

/// Two connections that meet make one.
pub proof fn lemma_connects_trans(r: spec_fn(int, int) -> bool, u: int, m: int, w: int)
    requires
        connects(r, u, m),
        connects(r, m, w),
    ensures
        connects(r, u, w),
{
    let q = choose|q: Seq<int>| #[trigger] is_walk(r, q) && q.first() == m && q.last() == w;
    lemma_walk_append(r, u, q);
}

/// A walk that starts inside a set closed under `r` never leaves it.
pub proof fn lemma_walk_stays(r: spec_fn(int, int) -> bool, inside: spec_fn(int) -> bool, p: Seq<int>)
    requires
        is_walk(r, p),
        inside(p.first()),
        forall|a: int, b: int| inside(a) && #[trigger] r(a, b) ==> inside(b),
    ensures
        forall|i: int| 0 <= i < p.len() ==> inside(#[trigger] p[i]),
    decreases p.len(),
{
    if p.len() > 1 {
        let front = p.drop_last();
        assert forall|i: int| 0 <= i < front.len() - 1 implies r(
            #[trigger] front[i],
            front[i + 1],
        ) by {
            assert(r(p[i], p[i + 1]));
        }
        lemma_walk_stays(r, inside, front);
        assert(inside(front[front.len() - 1]));
        assert(r(p[p.len() - 2], p[p.len() - 2 + 1]));
        assert forall|i: int| 0 <= i < p.len() implies inside(#[trigger] p[i]) by {
            if i < p.len() - 1 {
                assert(inside(front[i]));
            }
        }
    }
}

/// What a vertex inside a set closed under `r` leads to lies inside the set.
pub proof fn lemma_closed_holds(r: spec_fn(int, int) -> bool, inside: spec_fn(int) -> bool, u: int, w: int)
    requires
        connects(r, u, w),
        inside(u),
        forall|a: int, b: int| inside(a) && #[trigger] r(a, b) ==> inside(b),
    ensures
        inside(w),
{
    let p = choose|p: Seq<int>| #[trigger] is_walk(r, p) && p.first() == u && p.last() == w;
    lemma_walk_stays(r, inside, p);
    assert(inside(p[p.len() - 1]));
}

/// A larger relation connects whatever a smaller one connects.
pub proof fn lemma_connects_mono(
    r1: spec_fn(int, int) -> bool,
    r2: spec_fn(int, int) -> bool,
    u: int,
    w: int,
)
    requires
        connects(r1, u, w),
        forall|a: int, b: int| #[trigger] r1(a, b) ==> r2(a, b),
    ensures
        connects(r2, u, w),
{
    let p = choose|p: Seq<int>| #[trigger] is_walk(r1, p) && p.first() == u && p.last() == w;
    assert forall|i: int| 0 <= i < p.len() - 1 implies r2(#[trigger] p[i], p[i + 1]) by {
        assert(r1(p[i], p[i + 1]));
    }
    assert(is_walk(r2, p));
}

proof fn lemma_walk_flip(r: spec_fn(int, int) -> bool, p: Seq<int>)
    requires
        is_walk(r, p),
    ensures
        connects(flip(r), p.last(), p.first()),
    decreases p.len(),
{
    if p.len() == 1 {
        lemma_connects_self(flip(r), p.first());
    } else {
        let front = p.drop_last();
        assert forall|i: int| 0 <= i < front.len() - 1 implies r(
            #[trigger] front[i],
            front[i + 1],
        ) by {
            assert(r(p[i], p[i + 1]));
        }
        lemma_walk_flip(r, front);
        assert(r(p[p.len() - 2], p[p.len() - 2 + 1]));
        assert(flip(r)(p.last(), front.last()));
        lemma_connects_step(flip(r), p.last(), front.last());
        lemma_connects_trans(flip(r), p.last(), front.last(), p.first());
    }
}

/// Walking backwards along the flipped relation.
pub proof fn lemma_connects_flip(r: spec_fn(int, int) -> bool, u: int, w: int)
    requires
        connects(r, u, w),
    ensures
        connects(flip(r), w, u),
{
    let p = choose|p: Seq<int>| #[trigger] is_walk(r, p) && p.first() == u && p.last() == w;
    lemma_walk_flip(r, p);
}

/// Being connected in both directions is symmetric.
pub proof fn lemma_both_ways_symmetric(r: spec_fn(int, int) -> bool, u: int, w: int)
    requires
        connects(both_ways(r), u, w),
    ensures
        connects(both_ways(r), w, u),
{
    lemma_connects_flip(both_ways(r), u, w);
    assert forall|a: int, b: int| #[trigger] flip(both_ways(r))(a, b) implies both_ways(r)(a, b) by {}
    lemma_connects_mono(flip(both_ways(r)), both_ways(r), w, u);
}

} // verus!
