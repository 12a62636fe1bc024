//! Small vector builders.

use std::collections::VecDeque;
use std::ops::Range;
use vstd::prelude::*;

verus! {

/// A vector of `n` copies of `value`.
pub fn filled<T: Copy>(value: T, n: usize) -> (v: Vec<T>)
    ensures
        v@.len() == n,
        forall|i: int| 0 <= i < n ==> v@[i] == value,
{
    let mut v: Vec<T> = Vec::new();
    let mut i: usize = 0;
    while i < n
        invariant
            i <= n,
            v@.len() == i,
            forall|j: int| 0 <= j < i ==> v@[j] == value,
        decreases n - i,
    {
        v.push(value);
        i += 1;
    }
    v
}

/// A vector of `n` empty lists.
pub fn empty_lists<T>(n: usize) -> (v: Vec<Vec<T>>)
    ensures
        v@.len() == n,
        forall|i: int| 0 <= i < n ==> (#[trigger] v@[i])@.len() == 0,
{
    let mut v: Vec<Vec<T>> = Vec::new();
    let mut i: usize = 0;
    while i < n
        invariant
            i <= n,
            v@.len() == i,
            forall|j: int| 0 <= j < i ==> (#[trigger] v@[j])@.len() == 0,
        decreases n - i,
    {
        v.push(Vec::new());
        i += 1;
    }
    v
}

/// A copy of `v` with its entries in the opposite order.
pub fn reversed_copy<T: Copy>(v: &Vec<T>) -> (r: Vec<T>)
    ensures
        r@ == v@.reverse(),
{
    let mut r: Vec<T> = Vec::new();
    let mut i: usize = v.len();
    while i > 0
        invariant
            i <= v@.len(),
            r@.len() == v@.len() - i,
            forall|j: int| 0 <= j < r@.len() ==> r@[j] == v@[v@.len() - 1 - j],
        decreases i,
    {
        i -= 1;
        r.push(v[i]);
    }
    assert(r@ =~= v@.reverse());
    r
}

/// The list with its entries from place `from` up to, but without, place
/// `to` in the opposite order.
pub open spec fn range_turned<T>(s: Seq<T>, from: int, to: int) -> Seq<T> {
    Seq::new(
        s.len(),
        |i: int|
            if from <= i < to {
                s[from + to - 1 - i]
            } else {
                s[i]
            },
    )
}

/// Exchanges the entries at the places `i` and `j` of the queue, by
/// `VecDeque::swap`. The contract states what the documentation of that
/// method says: the two entries change places and nothing else changes.
/// The method panics where a place is out of bounds, so both are required
/// to be within the queue.
#[verifier::external_body]
fn deque_swap<T>(q: &mut VecDeque<T>, i: usize, j: usize)
    requires
        i < old(q)@.len(),
        j < old(q)@.len(),
    ensures
        final(q)@ == old(q)@.update(i as int, old(q)@[j as int]).update(j as int, old(q)@[i as int]),
{
    q.swap(i, j)
}

/// Turns the entries of the range round: the first changes places with the
/// last, the second with the last but one, and so on.
pub fn swap_range<T>(q: &mut VecDeque<T>, range: Range<usize>)
    requires
        range.end >= 1,
        range.start < range.end ==> range.end <= old(q)@.len(),
    ensures
        final(q)@ == range_turned(old(q)@, range.start as int, range.end as int),
{
    let from: usize = range.start;
    let to: usize = range.end;
    let mut i: usize = from;
    let mut j: usize = to - 1;
    proof {
        assert(q@ =~= Seq::new(
            q@.len(),
            |x: int|
                if from <= x < i || j < x < to {
                    old(q)@[from + to - 1 - x]
                } else {
                    old(q)@[x]
                },
        ));
    }
    while i < j
        invariant
            from <= i,
            j < to,
            i + j == from + to - 1,
            i <= to || i == from,
            from <= j + 1 || j + 1 == to,
            from < to ==> to <= q@.len(),
            q@.len() == old(q)@.len(),
            q@ == Seq::new(
                q@.len(),
                |x: int|
                    if from <= x < i || j < x < to {
                        old(q)@[from + to - 1 - x]
                    } else {
                        old(q)@[x]
                    },
            ),
        decreases to - i,
    {
        deque_swap(q, i, j);
        proof {
            assert(q@ =~= Seq::new(
                q@.len(),
                |x: int|
                    if from <= x < i + 1 || j - 1 < x < to {
                        old(q)@[from + to - 1 - x]
                    } else {
                        old(q)@[x]
                    },
            ));
        }
        i += 1;
        j -= 1;
    }
    proof {
        let turned = range_turned(old(q)@, from as int, to as int);
        assert forall|x: int| 0 <= x < q@.len() implies q@[x] == turned[x] by {
            if from <= x < to && !(x < i) && !(j < x) {
                assert(x == i && x == j);
            }
        }
        assert(q@ =~= turned);
    }
}

/// The first place of the smallest entry where `skip` is left out; the
/// length of the list where no place is left.
pub open spec fn first_min(s: Seq<u64>, skip: int) -> int
    decreases s.len(),
{
    if s.len() == 0 {
        0
    } else {
        let last = s.len() - 1;
        let before = first_min(s.drop_last(), skip);
        if last == skip {
            if before < last {
                before
            } else {
                s.len() as int
            }
        } else if before < last && s[before] <= s[last] {
            before
        } else {
            last
        }
    }
}

/// The place found holds the smallest entry beside `skip`, and no earlier
/// place beside `skip` holds an entry as small.
pub proof fn lemma_first_min(s: Seq<u64>, skip: int)
    ensures
        0 <= first_min(s, skip) <= s.len(),
        first_min(s, skip) != skip || skip == s.len(),
        first_min(s, skip) < s.len() ==> forall|i: int|
            0 <= i < s.len() && i != skip ==> s[first_min(s, skip)] <= #[trigger] s[i],
        first_min(s, skip) < s.len() ==> forall|i: int|
            0 <= i < first_min(s, skip) && i != skip ==> s[first_min(s, skip)] < #[trigger] s[i],
        first_min(s, skip) == s.len() <==> s.len() == 0 || (s.len() == 1 && skip == 0),
    decreases s.len(),
{
    if s.len() > 0 {
        let front = s.drop_last();
        lemma_first_min(front, skip);
        let before = first_min(front, skip);
        let last = s.len() - 1;
        if before < last {
            assert(front[before] == s[before]);
        }
        assert forall|i: int| 0 <= i < last implies front[i] == s[i] by {}
    }
}

/// The places of the smallest entry and of the smallest among the others,
/// each the first of its kind; `None` where there is no such place.
pub fn indexes_of_two_smallest(array: &[u64]) -> (found: (Option<usize>, Option<usize>))
    ensures
        found.0 is Some <==> array@.len() >= 1,
        found.1 is Some <==> array@.len() >= 2,
        found.0 matches Some(a) ==> a == first_min(array@, -1),
        (found.0, found.1) matches (Some(a), Some(b)) ==> b == first_min(array@, a as int),
{
    let size: usize = array.len();
    let mut smallest: Option<usize> = None;
    let mut second_smallest: Option<usize> = None;
    let mut i: usize = 0;
    while i < size
        invariant
            i <= size,
            size == array@.len(),
            smallest is Some <==> i >= 1,
            second_smallest is Some <==> i >= 2,
            smallest matches Some(a) ==> a == first_min(array@.take(i as int), -1) && a < i,
            (smallest, second_smallest) matches (Some(a), Some(b)) ==> b == first_min(
                array@.take(i as int),
                a as int,
            ) && b < i,
        decreases size - i,
    {
        let ghost now = array@.take(i + 1);
        proof {
            assert(now.drop_last() =~= array@.take(i as int));
            lemma_first_min(array@.take(i as int), -1);
            if smallest is Some {
                lemma_first_min(array@.take(i as int), smallest->Some_0 as int);
            }
        }
        let v = array[i];
        let beats_first = match smallest {
            Some(a) => v < array[a],
            None => true,
        };
        if beats_first {
            proof {
                if smallest is Some {
                    let a = smallest->Some_0 as int;
                    lemma_first_min_moves(now, a);
                }
            }
            second_smallest = smallest;
            smallest = Some(i);
        } else {
            let beats_second = match second_smallest {
                Some(b) => v < array[b],
                None => true,
            };
            if beats_second {
                second_smallest = Some(i);
            }
        }
        i += 1;
    }
    proof {
        assert(array@.take(size as int) =~= array@);
    }
    (smallest, second_smallest)
}

/// Where the last entry is smaller than all before it, the smallest of
/// those before it is the smallest beside the last.
proof fn lemma_first_min_moves(s: Seq<u64>, a: int)
    requires
        s.len() >= 2,
        a == first_min(s.drop_last(), -1),
        a < s.len() - 1,
        s[s.len() - 1] < s[a],
    ensures
        first_min(s, s.len() - 1) == a,
        first_min(s, -1) == s.len() - 1,
{
    let front = s.drop_last();
    let last = s.len() - 1;
    lemma_first_min(front, -1);
    lemma_first_min_skip_outside(front, last);
}

/// Leaving out a place beyond the list leaves nothing out.
proof fn lemma_first_min_skip_outside(s: Seq<u64>, skip: int)
    requires
        skip < 0 || skip >= s.len(),
    ensures
        first_min(s, skip) == first_min(s, -1),
    decreases s.len(),
{
    if s.len() > 0 {
        lemma_first_min_skip_outside(s.drop_last(), skip);
    }
}

} // verus!
