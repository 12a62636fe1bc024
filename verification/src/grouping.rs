//! Grouping the entries of a list by a key.

use crate::transform::first_seen;
use crate::transform::lemma_first_seen_facts;
use vstd::prelude::*;

verus! {

/// The entries of `items` whose key is `k`, in order.
pub open spec fn members<T>(items: Seq<T>, keys: Seq<(usize, usize)>, k: (usize, usize)) -> Seq<T>
    decreases items.len(),
{
    if items.len() == 0 {
        Seq::empty()
    } else {
        let before = members(items.drop_last(), keys.drop_last(), k);
        if keys.last() == k {
            before.push(items.last())
        } else {
            before
        }
    }
}

/// The groups are those of `items` under `keys`: one group for each key,
/// in the order in which the keys are first met, with the entries of that
/// key in order.
pub open spec fn is_grouping<T>(groups: Seq<((usize, usize), Vec<T>)>, items: Seq<T>, keys: Seq<(usize, usize)>) -> bool {
    &&& keys.len() == items.len()
    &&& groups.len() == first_seen(keys).len()
    &&& forall|j: int|
        0 <= j < groups.len() ==> (#[trigger] groups[j]).0 == first_seen(keys)[j] && groups[j].1@ == members(
            items,
            keys,
            groups[j].0,
        )
}

/// The function computes the keys: entry `i` of `keys` is a key that it
/// gives for entry `i` of `items`.
pub open spec fn keyed_by<T, F: Fn(&T) -> (usize, usize)>(key: F, items: Seq<T>, keys: Seq<(usize, usize)>) -> bool {
    &&& keys.len() == items.len()
    &&& forall|i: int| 0 <= i < items.len() ==> call_ensures(key, (&#[trigger] items[i],), keys[i])
}

/// No entry has a key that is not met.
pub proof fn lemma_members_of_new_key<T>(items: Seq<T>, keys: Seq<(usize, usize)>, k: (usize, usize))
    requires
        keys.len() == items.len(),
        !keys.contains(k),
    ensures
        members(items, keys, k).len() == 0,
    decreases items.len(),
{
    if items.len() > 0 {
        assert(keys[keys.len() - 1] != k);
        assert forall|i: int| 0 <= i < keys.drop_last().len() implies keys.drop_last()[i] != k by {
            assert(keys[i] != k);
        }
        lemma_members_of_new_key(items.drop_last(), keys.drop_last(), k);
    }
}

/// Groups the entries of `vec` by the key that `key` gives each; the
/// groups come in the order in which their keys are first met.
pub fn group_by<T: Copy, F: Fn(&T) -> (usize, usize)>(vec: &Vec<T>, key: F) -> (groups: Vec<((usize, usize), Vec<T>)>)
    requires
        forall|i: int| 0 <= i < vec@.len() ==> call_requires(key, (&#[trigger] vec@[i],)),
    ensures
        exists|keys: Seq<(usize, usize)>| keyed_by(key, vec@, keys) && #[trigger] is_grouping(groups@, vec@, keys),
{
    let size: usize = vec.len();
    let mut groups: Vec<((usize, usize), Vec<T>)> = Vec::new();
    let ghost mut keys: Seq<(usize, usize)> = Seq::empty();
    let mut i: usize = 0;
    proof {
        assert(vec@.take(0) =~= Seq::<T>::empty());
    }
    while i < size
        invariant
            i <= size,
            size == vec@.len(),
            keys.len() == i,
            forall|x: int| 0 <= x < vec@.len() ==> call_requires(key, (&#[trigger] vec@[x],)),
            forall|x: int| 0 <= x < i ==> call_ensures(key, (&#[trigger] vec@[x],), keys[x]),
            is_grouping(groups@, vec@.take(i as int), keys),
        decreases size - i,
    {
        let item = vec[i];
        let k = key(&vec[i]);
        let ghost before = groups@;
        let ghost items = vec@.take(i as int);
        let ghost longer = vec@.take(i + 1);
        let ghost more = keys.push(k);
        proof {
            assert(longer.drop_last() =~= items);
            assert(more.drop_last() =~= keys);
            lemma_first_seen_facts(keys);
        }
        let count: usize = groups.len();
        let mut j: usize = 0;
        while j < count && (groups[j].0.0 != k.0 || groups[j].0.1 != k.1)
            invariant
                j <= count,
                count == groups@.len(),
                groups@ == before,
                forall|q: int| 0 <= q < j ==> (#[trigger] before[q]).0 != k,
            decreases count - j,
        {
            j += 1;
        }
        if j < count {
            let mut entry = groups.remove(j);
            entry.1.push(item);
            groups.insert(j, entry);
            proof {
                assert(first_seen(keys)[j as int] == k);
                assert(first_seen(keys).contains(k));
                assert(first_seen(more) == first_seen(keys));
                assert forall|q: int| 0 <= q < groups@.len() implies (#[trigger] groups@[q]).0 == first_seen(
                    more,
                )[q] && groups@[q].1@ == members(longer, more, groups@[q].0) by {
                    if q == j {
                        assert(before[q].1@ == members(items, keys, k));
                    } else {
                        assert(groups@[q] == before[q]);
                        assert(first_seen(keys)[q] != first_seen(keys)[j as int]);
                    }
                }
            }
        } else {
            let mut fresh: Vec<T> = Vec::new();
            fresh.push(item);
            groups.push((k, fresh));
            proof {
                assert(!first_seen(keys).contains(k)) by {
                    if first_seen(keys).contains(k) {
                        let q = first_seen(keys).index_of(k);
                        assert(before[q].0 == k);
                    }
                }
                assert(!keys.contains(k));
                lemma_members_of_new_key(items, keys, k);
                assert(first_seen(more) == first_seen(keys).push(k));
                assert forall|q: int| 0 <= q < groups@.len() implies (#[trigger] groups@[q]).0 == first_seen(
                    more,
                )[q] && groups@[q].1@ == members(longer, more, groups@[q].0) by {
                    if q < before.len() {
                        assert(groups@[q] == before[q]);
                        assert(first_seen(keys).contains(first_seen(keys)[q]));
                    } else {
                        assert(groups@[q].1@ =~= members(items, keys, k).push(item));
                    }
                }
            }
        }
        proof {
            keys = more;
        }
        i += 1;
    }
    proof {
        assert(vec@.take(size as int) =~= vec@);
        assert(keyed_by(key, vec@, keys));
    }
    groups
}

} // verus!
