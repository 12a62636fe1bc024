//! Facts about rows of entries written one after the other.

use vstd::prelude::*;

verus! {

/// The number of entries that stand before row `k` when the rows are
/// written one after the other.
pub open spec fn offset<A>(g: Seq<Seq<A>>, k: int) -> int {
    g.take(k).flatten().len() as int
}

/// Nothing stands before the first list, and everything before the end.
pub proof fn lemma_offset_zero<A>(g: Seq<Seq<A>>)
    ensures
        offset(g, 0) == 0,
        offset(g, g.len() as int) == g.flatten().len(),
{
    assert(g.take(0) =~= Seq::<Seq<A>>::empty());
    assert(g.take(g.len() as int) =~= g);
}

/// The entries before list `k + 1` are those before list `k` and those of
/// list `k`.
pub proof fn lemma_offset_next<A>(g: Seq<Seq<A>>, k: int)
    requires
        0 <= k < g.len(),
    ensures
        g.take(k + 1).flatten() == g.take(k).flatten() + g[k],
        offset(g, k + 1) == offset(g, k) + g[k].len(),
{
    assert(g.take(k + 1) =~= g.take(k).push(g[k]));
    g.take(k).lemma_flatten_push(g[k]);
}

/// A later list has no fewer entries before it.
pub proof fn lemma_offset_mono<A>(g: Seq<Seq<A>>, a: int, b: int)
    requires
        0 <= a <= b <= g.len(),
    ensures
        offset(g, a) <= offset(g, b),
    decreases b - a,
{
    if a < b {
        lemma_offset_next(g, b - 1);
        lemma_offset_mono(g, a, b - 1);
    }
}

/// The first `k` rows, written one after the other, are a prefix of all
/// rows written one after the other.
pub proof fn lemma_flat_prefix<A>(g: Seq<Seq<A>>, k: int)
    requires
        0 <= k <= g.len(),
    ensures
        offset(g, k) <= g.flatten().len(),
        g.flatten().take(offset(g, k)) == g.take(k).flatten(),
    decreases g.len() - k,
{
    if k == g.len() {
        assert(g.take(k) =~= g);
        assert(g.flatten().take(offset(g, k)) =~= g.flatten());
    } else {
        lemma_offset_next(g, k);
        lemma_flat_prefix(g, k + 1);
        let longer = g.flatten().take(offset(g, k + 1));
        assert(longer.take(offset(g, k)) =~= g.take(k).flatten());
        assert(g.flatten().take(offset(g, k)) =~= longer.take(offset(g, k)));
    }
}

/// Entry `i` of row `k` stands at place `offset(g, k) + i`.
pub proof fn lemma_flat_at<A>(g: Seq<Seq<A>>, k: int, i: int)
    requires
        0 <= k < g.len(),
        0 <= i < g[k].len(),
    ensures
        0 <= offset(g, k) + i < g.flatten().len(),
        g.flatten()[offset(g, k) + i] == g[k][i],
{
    lemma_offset_next(g, k);
    lemma_flat_prefix(g, k + 1);
    let longer = g.flatten().take(offset(g, k + 1));
    assert(longer[offset(g, k) + i] == g[k][i]);
}

proof fn lemma_flat_origin_from<A>(g: Seq<Seq<A>>, j: int, k: int) -> (r: (int, int))
    requires
        0 <= k <= g.len(),
        offset(g, k) <= j < g.flatten().len(),
    ensures
        0 <= r.0 < g.len(),
        0 <= r.1 < g[r.0].len(),
        offset(g, r.0) + r.1 == j,
    decreases g.len() - k,
{
    if k == g.len() {
        lemma_offset_zero(g);
        (0, 0)
    } else {
        lemma_offset_next(g, k);
        if j < offset(g, k + 1) {
            (k, j - offset(g, k))
        } else {
            lemma_flat_origin_from(g, j, k + 1)
        }
    }
}

/// Every place of the flattened rows belongs to one entry of one row.
pub proof fn lemma_flat_origin<A>(g: Seq<Seq<A>>, j: int) -> (r: (int, int))
    requires
        0 <= j < g.flatten().len(),
    ensures
        0 <= r.0 < g.len(),
        0 <= r.1 < g[r.0].len(),
        offset(g, r.0) + r.1 == j,
        g.flatten()[j] == g[r.0][r.1],
{
    lemma_offset_zero(g);
    let r = lemma_flat_origin_from(g, j, 0);
    lemma_flat_at(g, r.0, r.1);
    r
}

/// Two different entries of the rows stand at different places.
pub proof fn lemma_flat_places_differ<A>(g: Seq<Seq<A>>, k1: int, i1: int, k2: int, i2: int)
    requires
        0 <= k1 < g.len(),
        0 <= i1 < g[k1].len(),
        0 <= k2 < g.len(),
        0 <= i2 < g[k2].len(),
        k1 != k2 || i1 != i2,
    ensures
        offset(g, k1) + i1 != offset(g, k2) + i2,
{
    lemma_offset_next(g, k1);
    lemma_offset_next(g, k2);
    if k1 < k2 {
        lemma_offset_mono(g, k1 + 1, k2);
    } else if k2 < k1 {
        lemma_offset_mono(g, k2 + 1, k1);
    }
}

/// Groups that are all empty hold no entry.
pub proof fn lemma_flat_of_empty_rows<A>(g: Seq<Seq<A>>)
    requires
        forall|k: int| 0 <= k < g.len() ==> (#[trigger] g[k]).len() == 0,
    ensures
        g.flatten().len() == 0,
    decreases g.len(),
{
    if g.len() > 0 {
        lemma_flat_of_empty_rows(g.drop_first());
    }
}

/// Appending one entry to one row adds one entry to the flattened rows.
pub proof fn lemma_push_grows_flat<A>(before: Seq<Seq<A>>, after: Seq<Seq<A>>, k: int, x: A)
    requires
        0 <= k < before.len(),
        after == before.update(k, before[k].push(x)),
    ensures
        after.flatten().len() == before.flatten().len() + 1,
    decreases before.len(),
{
    before.lemma_flatten_and_flatten_alt_are_equivalent();
    after.lemma_flatten_and_flatten_alt_are_equivalent();
    if k == before.len() - 1 {
        assert(after.drop_last() =~= before.drop_last());
    } else {
        assert(after.drop_last() =~= before.drop_last().update(k, before[k].push(x)));
        assert(after.last() == before.last());
        lemma_push_grows_flat(before.drop_last(), after.drop_last(), k, x);
        before.drop_last().lemma_flatten_and_flatten_alt_are_equivalent();
        after.drop_last().lemma_flatten_and_flatten_alt_are_equivalent();
    }
}


/// Rows that are each no longer than the row at the same place of other
/// rows hold no more entries in all.
pub proof fn lemma_flat_len_le<A>(a: Seq<Seq<A>>, b: Seq<Seq<A>>)
    requires
        a.len() == b.len(),
        forall|k: int| 0 <= k < a.len() ==> (#[trigger] a[k]).len() <= b[k].len(),
    ensures
        a.flatten().len() <= b.flatten().len(),
    decreases a.len(),
{
    if a.len() > 0 {
        assert(a[0].len() <= b[0].len());
        assert forall|k: int| 0 <= k < a.drop_first().len() implies (#[trigger] a.drop_first()[k]).len()
            <= b.drop_first()[k].len() by {
            assert(a[k + 1].len() <= b[k + 1].len());
        }
        lemma_flat_len_le(a.drop_first(), b.drop_first());
    }
}

} // verus!
