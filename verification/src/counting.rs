//! Counting arguments about duplicate-free sequences of small numbers.

use vstd::prelude::*;

verus! {

/// A map that sends the numbers below `a` to pairwise different numbers below `b`
/// can only exist when `a <= b`.
pub proof fn lemma_injection_bound(f: spec_fn(int) -> int, a: int, b: int)
    requires
        0 <= a,
        0 <= b,
        forall|i: int| 0 <= i < a ==> 0 <= #[trigger] f(i) < b,
        forall|i: int, j: int| 0 <= i < j < a ==> #[trigger] f(i) != #[trigger] f(j),
    ensures
        a <= b,
    decreases b,
{
    if a == 0 {
    } else if b == 0 {
        assert(0 <= f(0) < b);
    } else {
        if exists|i: int| 0 <= i < a && #[trigger] f(i) == b - 1 {
            let i0 = choose|i: int| 0 <= i < a && #[trigger] f(i) == b - 1;
            let g = |i: int|
                if i < i0 {
                    f(i)
                } else {
                    f(i + 1)
                };
            assert forall|i: int| 0 <= i < a - 1 implies 0 <= #[trigger] g(i) < b - 1 by {
                if i < i0 {
                    assert(f(i) != f(i0));
                } else {
                    assert(f(i0) != f(i + 1));
                }
            }
            assert forall|i: int, j: int| 0 <= i < j < a - 1 implies #[trigger] g(i)
                != #[trigger] g(j) by {
                let x = if i < i0 {
                    i
                } else {
                    i + 1
                };
                let y = if j < i0 {
                    j
                } else {
                    j + 1
                };
                assert(f(x) != f(y));
            }
            lemma_injection_bound(g, a - 1, b - 1);
        } else {
            assert forall|i: int| 0 <= i < a - 1 implies 0 <= #[trigger] f(i) < b - 1 by {}
            lemma_injection_bound(f, a - 1, b - 1);
        }
    }
}

/// A duplicate-free sequence of numbers below `n` has at most `n` entries.
pub proof fn lemma_distinct_below(s: Seq<usize>, n: int)
    requires
        0 <= n,
        s.no_duplicates(),
        forall|j: int| 0 <= j < s.len() ==> #[trigger] s[j] < n,
    ensures
        s.len() <= n,
{
    let f = |i: int| s[i] as int;
    assert forall|i: int, j: int| 0 <= i < j < s.len() implies #[trigger] f(i) != #[trigger] f(
        j,
    ) by {
        assert(s[i] != s[j]);
    }
    lemma_injection_bound(f, s.len() as int, n);
}

/// A duplicate-free sequence whose entries all lie below its own length holds
/// every number below its length.
pub proof fn lemma_distinct_fills(s: Seq<usize>, v: usize)
    requires
        s.no_duplicates(),
        forall|j: int| 0 <= j < s.len() ==> #[trigger] s[j] < s.len(),
        v < s.len(),
    ensures
        s.contains(v),
{
    if !s.contains(v) {
        let g = |i: int|
            if s[i] > v {
                s[i] - 1
            } else {
                s[i] as int
            };
        assert forall|i: int| 0 <= i < s.len() implies 0 <= #[trigger] g(i) < s.len() - 1 by {
            assert(s[i] < s.len());
            assert(s.contains(s[i]));
        }
        assert forall|i: int, j: int| 0 <= i < j < s.len() implies #[trigger] g(i)
            != #[trigger] g(j) by {
            assert(s[i] != s[j]);
            assert(s.contains(s[i]));
            assert(s.contains(s[j]));
        }
        lemma_injection_bound(g, s.len() as int, s.len() - 1);
    }
}

/// A duplicate-free sequence that holds every number below `n`, and nothing
/// else, has exactly `n` entries.
pub proof fn lemma_distinct_cover_len(s: Seq<usize>, n: int)
    requires
        0 <= n <= usize::MAX,
        s.no_duplicates(),
        forall|j: int| 0 <= j < s.len() ==> #[trigger] s[j] < n,
        forall|v: usize| 0 <= v < n ==> s.contains(v),
    ensures
        s.len() == n,
{
    lemma_distinct_below(s, n);
    let f = |v: int| s.index_of(v as usize);
    assert forall|v: int| 0 <= v < n implies 0 <= #[trigger] f(v) < s.len() by {
        assert(s.contains(v as usize));
    }
    assert forall|v: int, w: int| 0 <= v < w < n implies #[trigger] f(v) != #[trigger] f(w) by {
        assert(s.contains(v as usize));
        assert(s.contains(w as usize));
        assert(s[f(v)] == v as usize);
        assert(s[f(w)] == w as usize);
    }
    lemma_injection_bound(f, n, s.len() as int);
}

} // verus!
