//! Partitions of `{0, .., n-1}` into ordered, labelled groups.

use crate::counting::lemma_distinct_fills;
use crate::counting::lemma_injection_bound;
use crate::flat::lemma_flat_at;
use crate::flat::lemma_flat_of_empty_rows;
use crate::flat::lemma_flat_origin;
use crate::flat::lemma_flat_places_differ;
use crate::flat::lemma_flat_prefix;
use crate::flat::lemma_offset_next;
use crate::flat::lemma_offset_zero;
use crate::flat::lemma_push_grows_flat;
use crate::flat::offset;
use crate::vectors::empty_lists;
use crate::vectors::filled;
use vstd::prelude::*;

verus! {

/// The groups of a list, each as a plain sequence.
pub open spec fn rows(list: Seq<Vec<usize>>) -> Seq<Seq<usize>> {
    Seq::new(list.len(), |k: int| list[k]@)
}

/// The groups hold each of the numbers `0 .. total` exactly once, where
/// `total` is the number of entries in all groups together.
pub open spec fn is_partition(g: Seq<Seq<usize>>) -> bool {
    let flat = g.flatten();
    &&& flat.no_duplicates()
    &&& forall|j: int| 0 <= j < flat.len() ==> #[trigger] flat[j] < flat.len()
}

/// One more than the largest entry of `map`, or zero for an empty one.
pub open spec fn group_count(map: Seq<usize>) -> int
    decreases map.len(),
{
    if map.len() == 0 {
        0
    } else {
        let rest = group_count(map.drop_last());
        if map.last() + 1 > rest {
            map.last() + 1
        } else {
            rest
        }
    }
}

/// Some element is mapped to group `k`.
pub open spec fn group_used(map: Seq<usize>, k: int) -> bool {
    exists|i: int| 0 <= i < map.len() && #[trigger] map[i] == k
}

/// Every group label from zero up to the largest one in `map` is used.
pub open spec fn labels_are_dense(map: Seq<usize>) -> bool {
    forall|k: int| 0 <= k < group_count(map) ==> #[trigger] group_used(map, k)
}

/// Every label is below the number of groups, and the last group is in
/// use.
pub proof fn lemma_group_count_bounds(map: Seq<usize>)
    ensures
        0 <= group_count(map),
        forall|i: int| 0 <= i < map.len() ==> #[trigger] map[i] < group_count(map),
        map.len() > 0 ==> group_used(map, group_count(map) - 1),
        map.len() == 0 ==> group_count(map) == 0,
    decreases map.len(),
{
    if map.len() > 0 {
        let front = map.drop_last();
        lemma_group_count_bounds(front);
        assert forall|i: int| 0 <= i < map.len() implies #[trigger] map[i] < group_count(map) by {
            if i < map.len() - 1 {
                assert(front[i] == map[i]);
            }
        }
        if map.last() + 1 > group_count(front) {
            assert(map[map.len() - 1] == group_count(map) - 1);
        } else {
            let i = choose|i: int| 0 <= i < front.len() && #[trigger] front[i] == group_count(front) - 1;
            assert(map[i] == front[i]);
        }
    }
}

/// With dense labels there are at most as many groups as elements.
pub proof fn lemma_dense_labels_fit(map: Seq<usize>)
    requires
        labels_are_dense(map),
    ensures
        group_count(map) <= map.len(),
{
    lemma_group_count_bounds(map);
    let f = |k: int| choose|i: int| 0 <= i < map.len() && #[trigger] map[i] == k;
    assert forall|k: int| 0 <= k < group_count(map) implies 0 <= #[trigger] f(k) < map.len() by {
        assert(group_used(map, k));
    }
    assert forall|k: int, l: int| 0 <= k < l < group_count(map) implies #[trigger] f(k)
        != #[trigger] f(l) by {
        assert(group_used(map, k));
        assert(group_used(map, l));
        assert(map[f(k)] == k);
        assert(map[f(l)] == l);
    }
    lemma_injection_bound(f, group_count(map), map.len() as int);
}

/// A partition of `{0, .., elements-1}` into ordered groups, held both as the
/// list of groups and as the map from each element to its group.
#[derive(Debug, Clone)]
pub struct Decomposition {
    pub elements: usize,
    pub component_list: Vec<Vec<usize>>,
    pub component_map: Vec<usize>,
}

impl Decomposition {
    /// The groups as plain sequences.
    pub open spec fn groups(&self) -> Seq<Seq<usize>> {
        rows(self.component_list@)
    }

    /// The size of a group fits a machine word.
    pub proof fn lemma_group_fits(&self, k: int)
        requires
            0 <= k < self.groups().len(),
        ensures
            self.groups()[k].len() <= usize::MAX,
    {
        assert(self.component_list@[k]@.len() == self.component_list@[k].len());
    }

    /// The group that element `v` belongs to.
    pub open spec fn group_of(&self, v: int) -> int {
        self.component_map@[v] as int
    }

    /// The list and the map describe one and the same partition of
    /// `{0, .., elements-1}`.
    pub open spec fn wf(&self) -> bool {
        let g = self.groups();
        &&& self.component_map@.len() == self.elements
        &&& g.flatten().len() == self.elements
        &&& forall|k: int, i: int|
            0 <= k < g.len() && 0 <= i < g[k].len() ==> #[trigger] g[k][i] < self.elements
                && self.component_map@[g[k][i] as int] == k
        &&& forall|v: int|
            0 <= v < self.elements ==> 0 <= #[trigger] self.component_map@[v] < g.len()
                && g[self.component_map@[v] as int].contains(v as usize)
        &&& forall|k: int| 0 <= k < g.len() ==> (#[trigger] g[k]).no_duplicates()
    }

    /// Builds the partition from its groups.
    pub fn from_component_list(component_list: Vec<Vec<usize>>) -> (d: Self)
        requires
            is_partition(rows(component_list@)),
            rows(component_list@).flatten().len() <= usize::MAX,
        ensures
            d.wf(),
            d.component_list == component_list,
            d.elements == rows(component_list@).flatten().len(),
    {
        let ghost g = rows(component_list@);
        let ghost flat = g.flatten();
        let groups: usize = component_list.len();
        let mut elements: usize = 0;
        let mut k: usize = 0;
        proof {
            lemma_offset_zero(g);
        }
        while k < groups
            invariant
                k <= groups,
                groups == g.len(),
                g == rows(component_list@),
                flat == g.flatten(),
                flat.len() <= usize::MAX,
                elements == offset(g, k as int),
            decreases groups - k,
        {
            proof {
                lemma_offset_next(g, k as int);
                lemma_flat_prefix(g, k + 1);
            }
            elements = elements + component_list[k].len();
            k += 1;
        }
        proof {
            lemma_offset_zero(g);
        }
        let mut component_map = filled(0, elements);
        let mut k: usize = 0;
        while k < groups
            invariant
                k <= groups,
                groups == g.len(),
                g == rows(component_list@),
                flat == g.flatten(),
                is_partition(g),
                elements == flat.len(),
                component_map@.len() == elements,
                forall|k1: int, i1: int|
                    0 <= k1 < k && 0 <= i1 < g[k1].len() ==> #[trigger] g[k1][i1] < elements
                        && component_map@[g[k1][i1] as int] == k1,
            decreases groups - k,
        {
            let size: usize = component_list[k].len();
            let mut i: usize = 0;
            while i < size
                invariant
                    k < groups,
                    i <= size,
                    size == g[k as int].len(),
                    groups == g.len(),
                    g == rows(component_list@),
                    flat == g.flatten(),
                    is_partition(g),
                    elements == flat.len(),
                    component_map@.len() == elements,
                    forall|k1: int, i1: int|
                        0 <= k1 < g.len() && 0 <= i1 < g[k1].len() && (k1 < k || (k1 == k && i1 < i))
                            ==> #[trigger] g[k1][i1] < elements && component_map@[g[k1][i1] as int]
                            == k1,
                decreases size - i,
            {
                let v: usize = component_list[k][i];
                proof {
                    assert(v == g[k as int][i as int]);
                    lemma_flat_at(g, k as int, i as int);
                    assert(v < elements);
                    assert forall|k1: int, i1: int|
                        0 <= k1 < g.len() && 0 <= i1 < g[k1].len() && (k1 < k || (k1 == k && i1
                            < i)) implies #[trigger] g[k1][i1] != v by {
                        lemma_flat_at(g, k1, i1);
                        lemma_flat_places_differ(g, k1, i1, k as int, i as int);
                    }
                }
                component_map[v] = k;
                i += 1;
            }
            k += 1;
        }
        let d = Decomposition { elements, component_list, component_map };
        proof {
            assert(d.groups() == g);
            assert forall|k1: int, i1: int| 0 <= k1 < g.len() && 0 <= i1 < g[k1].len() implies #[trigger] g[k1][i1]
                < d.elements && d.component_map@[g[k1][i1] as int] == k1 by {
                lemma_flat_at(g, k1, i1);
            }
            assert forall|v: int| 0 <= v < d.elements implies 0 <= #[trigger] d.component_map@[v]
                < g.len() && g[d.component_map@[v] as int].contains(v as usize) by {
                lemma_distinct_fills(flat, v as usize);
                let j = flat.index_of(v as usize);
                let r = lemma_flat_origin(g, j);
                assert(g[r.0][r.1] == v as usize);
            }
            assert forall|k1: int| 0 <= k1 < g.len() implies (#[trigger] g[k1]).no_duplicates() by {
                assert forall|a: int, b: int| 0 <= a < g[k1].len() && 0 <= b < g[k1].len() && a
                    != b implies g[k1][a] != g[k1][b] by {
                    lemma_flat_at(g, k1, a);
                    lemma_flat_at(g, k1, b);
                }
            }
        }
        d
    }

    /// Builds the partition from the map that sends each element to its group.
    /// Each group lists its elements in ascending order.
    pub fn from_component_map(component_map: Vec<usize>) -> (d: Self)
        requires
            labels_are_dense(component_map@),
        ensures
            d.wf(),
            d.component_map == component_map,
            d.elements == component_map@.len(),
            d.groups().len() == group_count(component_map@),
            forall|k: int, a: int, b: int|
                0 <= k < d.groups().len() && 0 <= a < b < d.groups()[k].len() ==> d.groups()[k][a]
                    < d.groups()[k][b],
    {
        let ghost map = component_map@;
        let elements: usize = component_map.len();
        let mut top: usize = 0;
        let mut i: usize = 0;
        proof {
            lemma_dense_labels_fit(map);
            assert(map.take(0) =~= Seq::<usize>::empty());
        }
        while i < elements
            invariant
                i <= elements,
                elements == map.len(),
                map == component_map@,
                top == group_count(map.take(i as int)),
                group_count(map) <= map.len(),
            decreases elements - i,
        {
            proof {
                assert(map.take(i + 1).drop_last() =~= map.take(i as int));
                lemma_group_count_bounds(map);
            }
            if component_map[i] >= top {
                top = component_map[i] + 1;
            }
            i += 1;
        }
        proof {
            assert(map.take(elements as int) =~= map);
            lemma_group_count_bounds(map);
        }
        let mut component_list = empty_lists(top);
        let mut i: usize = 0;
        proof {
            lemma_flat_of_empty_rows(rows(component_list@));
        }
        while i < elements
            invariant
                i <= elements,
                elements == map.len(),
                map == component_map@,
                top == group_count(map),
                component_list@.len() == top,
                forall|j: int| 0 <= j < map.len() ==> #[trigger] map[j] < top,
                forall|k: int, a: int|
                    0 <= k < top && 0 <= a < component_list@[k]@.len() ==> (#[trigger] component_list@[k]@[a])
                        < i && map[component_list@[k]@[a] as int] == k,
                forall|k: int, a: int, b: int|
                    0 <= k < top && 0 <= a < b < component_list@[k]@.len() ==> component_list@[k]@[a]
                        < component_list@[k]@[b],
                forall|j: int|
                    0 <= j < i ==> component_list@[#[trigger] map[j] as int]@.contains(j as usize),
                rows(component_list@).flatten().len() == i,
            decreases elements - i,
        {
            let label: usize = component_map[i];
            let ghost before = component_list@;
            component_list[label].push(i);
            proof {
                assert forall|j: int| 0 <= j < i + 1 implies component_list@[#[trigger] map[j] as int]@.contains(
                    j as usize,
                ) by {
                    if j < i {
                        let a = before[map[j] as int]@.index_of(j as usize);
                        assert(before[map[j] as int]@.contains(j as usize));
                        assert(component_list@[map[j] as int]@[a] == j as usize);
                    } else {
                        assert(component_list@[label as int]@[before[label as int]@.len() as int]
                            == i);
                    }
                }
                assert(rows(component_list@) =~= rows(before).update(
                    label as int,
                    rows(before)[label as int].push(i),
                ));
                lemma_push_grows_flat(rows(before), rows(component_list@), label as int, i);
            }
            i += 1;
        }
        let d = Decomposition { elements, component_list, component_map };
        proof {
            let g = d.groups();
            assert forall|v: int| 0 <= v < d.elements implies 0 <= #[trigger] d.component_map@[v]
                < g.len() && g[d.component_map@[v] as int].contains(v as usize) by {
                assert(d.component_list@[map[v] as int]@.contains(v as usize));
            }
            assert forall|k: int| 0 <= k < g.len() implies (#[trigger] g[k]).no_duplicates() by {
                assert forall|a: int, b: int| 0 <= a < g[k].len() && 0 <= b < g[k].len() && a
                    != b implies g[k][a] != g[k][b] by {
                    if a < b {
                        assert(d.component_list@[k]@[a] < d.component_list@[k]@[b]);
                    } else {
                        assert(d.component_list@[k]@[b] < d.component_list@[k]@[a]);
                    }
                }
            }
        }
        d
    }

    /// The group of element `vertex_index`.
    pub fn component_of(&self, vertex_index: usize) -> (c: usize)
        requires
            vertex_index < self.component_map@.len(),
        ensures
            c == self.group_of(vertex_index as int),
    {
        self.component_map[vertex_index]
    }
}

} // verus!
