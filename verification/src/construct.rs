//! Graphs built from matrices and from edge lists.

use crate::flat::lemma_offset_next;
use crate::flat::lemma_offset_zero;
use crate::flat::offset;
use crate::graph::lemma_marked_next;
use crate::graph::marked;
use crate::graph::WeightedEdge;
use crate::graph::WeightedGraph;
use crate::undirected::lemma_new_edge;
use crate::undirected::with_new_edge;
use vstd::prelude::*;
use vstd::std_specs::cmp::PartialEqSpec;

verus! {

/// The vertices to which the records of a list lead.
pub open spec fn targets<T>(list: Seq<WeightedEdge<T>>) -> Seq<int> {
    Seq::new(list.len(), |k: int| list[k].to as int)
}

/// The first `n` entries of row `i` of a matrix.
pub open spec fn row_of(matrix: Seq<Vec<bool>>, i: int, n: int) -> Seq<bool> {
    matrix[i]@.take(n)
}

/// Changing a list at or after place `i` leaves the number of records
/// before list `i` as it is.
pub proof fn lemma_offset_stable<A>(before: Seq<Seq<A>>, after: Seq<Seq<A>>, i: int)
    requires
        0 <= i <= before.len(),
        before.len() == after.len(),
        forall|u: int| 0 <= u < i ==> before[u] == after[u],
    ensures
        offset(before, i) == offset(after, i),
{
    assert(before.take(i) =~= after.take(i));
}

impl WeightedGraph<()> {
    /// The directed graph of a square matrix of flags: a record leads from
    /// `i` to `j` where the matrix holds `true` in row `i`, column `j`. The
    /// edges are numbered in the order of the rows, and in each row in the
    /// order of the columns.
    pub fn from_adjacency_matrix(matrix: &Vec<Vec<bool>>) -> (g: Self)
        requires
            forall|i: int| 0 <= i < matrix@.len() ==> (#[trigger] matrix@[i])@.len() >= matrix@.len(),
            matrix@.len() * matrix@.len() <= usize::MAX,
        ensures
            g.order() == matrix@.len(),
            forall|i: int|
                0 <= i < matrix@.len() ==> #[trigger] targets(g.adj()[i]) == marked(
                    row_of(matrix@, i, matrix@.len() as int),
                ),
            g.numbered_by_scan(),
            g.total_edges == offset(g.adj(), g.order()),
            g.wf(),
    {
        let n: usize = matrix.len();
        let mut graph = Self::new(n);
        let mut i: usize = 0;
        proof {
            lemma_offset_zero(graph.adj());
        }
        while i < n
            invariant
                i <= n,
                n == matrix@.len(),
                n * n <= usize::MAX,
                forall|u: int| 0 <= u < matrix@.len() ==> (#[trigger] matrix@[u])@.len() >= matrix@.len(),
                graph.order() == n,
                graph.wf(),
                forall|u: int|
                    0 <= u < i ==> #[trigger] targets(graph.adj()[u]) == marked(row_of(matrix@, u, n as int)),
                forall|u: int| i <= u < n ==> (#[trigger] graph.adj()[u]).len() == 0,
                forall|u: int, k: int|
                    0 <= u < n && 0 <= k < graph.adj()[u].len() ==> (#[trigger] graph.adj()[u][k]).edge_index
                        == offset(graph.adj(), u) + k,
                graph.total_edges == offset(graph.adj(), i as int),
                graph.total_edges <= i * n,
            decreases n - i,
        {
            let mut j: usize = 0;
            proof {
                assert(row_of(matrix@, i as int, n as int).take(0) =~= Seq::<bool>::empty());
                assert(marked(Seq::<bool>::empty()) =~= Seq::<int>::empty()) by {
                    Seq::<int>::empty().lemma_filter_len(|j: int| 0 <= j < 0 && Seq::<bool>::empty()[j]);
                    assert(Seq::new(0, |j: int| j) =~= Seq::<int>::empty());
                }
                assert(targets(graph.adj()[i as int]) =~= Seq::<int>::empty());
            }
            while j < n
                invariant
                    i < n,
                    j <= n,
                    n == matrix@.len(),
                    n * n <= usize::MAX,
                    forall|u: int| 0 <= u < matrix@.len() ==> (#[trigger] matrix@[u])@.len() >= matrix@.len(),
                    graph.order() == n,
                    graph.wf(),
                    forall|u: int|
                        0 <= u < i ==> #[trigger] targets(graph.adj()[u]) == marked(
                            row_of(matrix@, u, n as int),
                        ),
                    targets(graph.adj()[i as int]) == marked(row_of(matrix@, i as int, n as int).take(j as int)),
                    forall|u: int| i < u < n ==> (#[trigger] graph.adj()[u]).len() == 0,
                    forall|u: int, k: int|
                        0 <= u < n && 0 <= k < graph.adj()[u].len() ==> (#[trigger] graph.adj()[u][k]).edge_index
                            == offset(graph.adj(), u) + k,
                    graph.total_edges == offset(graph.adj(), i as int) + graph.adj()[i as int].len(),
                    graph.adj()[i as int].len() <= j,
                    offset(graph.adj(), i as int) <= i * n,
                decreases n - j,
            {
                let ghost row = row_of(matrix@, i as int, n as int);
                proof {
                    lemma_marked_next(row, j as int);
                    assert(row[j as int] == matrix@[i as int]@[j as int]);
                    assert(i * n + j < n * n) by (nonlinear_arith)
                        requires
                            i < n,
                            j < n,
                    ;
                }
                if matrix[i][j] {
                    let ghost before = graph.adj();
                    graph.add_directed_edge(i, j);
                    proof {
                        let after = graph.adj();
                        assert(targets(after[i as int]) =~= targets(before[i as int]).push(j as int));
                        assert forall|u: int| 0 <= u < i implies #[trigger] targets(after[u]) == marked(
                            row_of(matrix@, u, n as int),
                        ) by {
                            assert(after[u] == before[u]);
                        }
                        assert forall|u: int, k: int| 0 <= u < n && 0 <= k < after[u].len() implies (
                        #[trigger] after[u][k]).edge_index == offset(after, u) + k by {
                            if u <= i {
                                lemma_offset_stable(before, after, u);
                                if u == i && k == before[u].len() {
                                } else {
                                    assert(after[u][k] == before[u][k]);
                                }
                            }
                        }
                        lemma_offset_stable(before, after, i as int);
                    }
                }
                j += 1;
            }
            proof {
                assert(row_of(matrix@, i as int, n as int).take(n as int) =~= row_of(matrix@, i as int, n as int));
                lemma_offset_next(graph.adj(), i as int);
                assert((i + 1) * n == i * n + n) by (nonlinear_arith);
            }
            i += 1;
        }
        graph
    }

    /// The graph of `n` vertices with one edge for each entry of `pairs`,
    /// which names its end points counting from one; a directed edge from
    /// the first to the second, or an undirected edge between them.
    pub fn from_stdin(n: usize, pairs: &Vec<(usize, usize)>, directed: bool) -> (g: Self)
        requires
            forall|i: int|
                0 <= i < pairs@.len() ==> 1 <= (#[trigger] pairs@[i]).0 <= n && 1 <= pairs@[i].1 <= n,
        ensures
            g.adj() == edge_list_adj(n as int, unit_weights(pairs@), directed),
            g.order() == n,
            g.total_edges == pairs@.len(),
            g.wf(),
            g.is_compact(),
            !directed ==> g.is_undirected(),
    {
        let count: usize = pairs.len();
        let mut graph = Self::new(n);
        let ghost list = unit_weights(pairs@);
        let mut i: usize = 0;
        proof {
            assert(list.take(0) =~= Seq::<(usize, usize, ())>::empty());
            assert(graph.is_undirected());
            let start = edge_list_adj(n as int, list.take(0), directed);
            assert forall|v: int| 0 <= v < n implies #[trigger] graph.adj()[v] =~= start[v] by {}
            assert(graph.adj() =~= start);
        }
        while i < count
            invariant
                i <= count,
                count == pairs@.len(),
                list == unit_weights(pairs@),
                forall|j: int|
                    0 <= j < pairs@.len() ==> 1 <= (#[trigger] pairs@[j]).0 <= n && 1 <= pairs@[j].1 <= n,
                edge_list_built(&graph, n, list.take(i as int), directed),
            decreases count - i,
        {
            let (from, to) = pairs[i];
            proof {
                assert(list.take(i + 1) =~= list.take(i as int).push(list[i as int]));
                assert(list[i as int] == (from, to, ()));
            }
            let ghost before = graph;
            if directed {
                graph.add_directed_edge(from - 1, to - 1);
            } else {
                graph.add_undirected_edge(from - 1, to - 1);
            }
            proof {
                lemma_edge_list_step(&before, &graph, n, list.take(i as int), (from, to, ()), directed);
            }
            i += 1;
        }
        proof {
            assert(list.take(count as int) =~= list);
        }
        graph
    }
}

/// The pairs with the unit weight attached.
pub open spec fn unit_weights(pairs: Seq<(usize, usize)>) -> Seq<(usize, usize, ())> {
    Seq::new(pairs.len(), |i: int| (pairs[i].0, pairs[i].1, ()))
}

/// The lists after the edges of `list`, whose end points count from one,
/// are added one by one to `n` empty lists.
pub open spec fn edge_list_adj<T>(n: int, list: Seq<(usize, usize, T)>, directed: bool) -> Seq<
    Seq<WeightedEdge<T>>,
>
    decreases list.len(),
{
    if list.len() == 0 {
        Seq::new(n as nat, |v: int| Seq::<WeightedEdge<T>>::empty())
    } else {
        let before = edge_list_adj(n, list.drop_last(), directed);
        let e = (list.len() - 1) as usize;
        let from = list.last().0 - 1;
        let to = list.last().1 - 1;
        let first = before.update(
            from,
            before[from].push(WeightedEdge { to: to as usize, edge_index: e, weight: list.last().2 }),
        );
        if directed {
            first
        } else {
            first.update(
                to,
                first[to].push(WeightedEdge { to: from as usize, edge_index: e, weight: list.last().2 }),
            )
        }
    }
}

/// What holds of the graph after the edges of `list` were added.
pub open spec fn edge_list_built<T>(g: &WeightedGraph<T>, n: usize, list: Seq<(usize, usize, T)>, directed: bool) -> bool {
    &&& g.order() == n
    &&& g.adj() == edge_list_adj(n as int, list, directed)
    &&& g.total_edges == list.len()
    &&& g.wf()
    &&& g.is_compact()
    &&& !directed ==> g.is_undirected()
}

/// Adding the edge of one more entry to the graph of a list of entries gives
/// the graph of the longer list.
pub proof fn lemma_edge_list_step<T>(
    before: &WeightedGraph<T>,
    after: &WeightedGraph<T>,
    n: usize,
    list: Seq<(usize, usize, T)>,
    entry: (usize, usize, T),
    directed: bool,
)
    requires
        edge_list_built(before, n, list, directed),
        1 <= entry.0 <= n,
        1 <= entry.1 <= n,
        after.total_edges == before.total_edges + 1,
        after.order() == before.order(),
        after.adj() == with_new_edge(before.adj(), entry.0 - 1, entry.1 - 1, before.total_edges, entry.2, directed),
    ensures
        edge_list_built(after, n, list.push(entry), directed),
{
    let longer = list.push(entry);
    assert(longer.drop_last() =~= list);
    assert(longer.last() == entry);
    lemma_new_edge(before, after, entry.0 - 1, entry.1 - 1, entry.2, directed);
}

/// Which of the first `n` entries of row `i` of a matrix of weights differ
/// from `zero`.
pub open spec fn weight_flags<T: PartialEq>(matrix: Seq<Vec<T>>, zero: T, i: int, n: int) -> Seq<bool> {
    Seq::new(n as nat, |j: int| !matrix[i]@[j].eq_spec(&zero))
}

/// `g` is the directed graph of a square matrix of weights: a record leads
/// from `i` to `j`, with the weight found there, where row `i`, column `j`
/// differs from `zero`; the edges are numbered in the order of the rows, and
/// in each row in the order of the columns.
pub open spec fn is_weight_matrix_graph<T: PartialEq>(g: &WeightedGraph<T>, matrix: Seq<Vec<T>>, zero: T) -> bool {
    let n = matrix.len() as int;
    &&& g.order() == n
    &&& forall|i: int| 0 <= i < n ==> #[trigger] targets(g.adj()[i]) == marked(weight_flags(matrix, zero, i, n))
    &&& forall|i: int, k: int|
        0 <= i < n && 0 <= k < g.adj()[i].len() ==> (#[trigger] g.adj()[i][k]).weight
            == matrix[i]@[g.adj()[i][k].to as int]
    &&& g.numbered_by_scan()
    &&& g.total_edges == offset(g.adj(), n)
    &&& g.wf()
}

impl<T: Copy + PartialEq> WeightedGraph<T> {
    /// The directed graph of a square matrix of weights, in which `zero`
    /// stands for "no edge".
    pub fn from_weight_matrix_against(matrix: &Vec<Vec<T>>, zero: T) -> (g: Self)
        requires
            forall|i: int| 0 <= i < matrix@.len() ==> (#[trigger] matrix@[i])@.len() >= matrix@.len(),
            matrix@.len() * matrix@.len() <= usize::MAX,
        ensures
            g.order() == matrix@.len(),
            T::obeys_eq_spec() ==> is_weight_matrix_graph(&g, matrix@, zero),
    {
        let n: usize = matrix.len();
        let mut graph = Self::new(n);
        let mut i: usize = 0;
        proof {
            lemma_offset_zero(graph.adj());
        }
        while i < n
            invariant
                i <= n,
                n == matrix@.len(),
                n * n <= usize::MAX,
                forall|u: int| 0 <= u < matrix@.len() ==> (#[trigger] matrix@[u])@.len() >= matrix@.len(),
                graph.order() == n,
                graph.wf(),
                T::obeys_eq_spec() ==> forall|u: int|
                    0 <= u < i ==> #[trigger] targets(graph.adj()[u]) == marked(
                        weight_flags(matrix@, zero, u, n as int),
                    ),
                forall|u: int| i <= u < n ==> (#[trigger] graph.adj()[u]).len() == 0,
                forall|u: int, k: int|
                    0 <= u < n && 0 <= k < graph.adj()[u].len() ==> (#[trigger] graph.adj()[u][k]).edge_index
                        == offset(graph.adj(), u) + k && graph.adj()[u][k].weight
                        == matrix@[u]@[graph.adj()[u][k].to as int],
                graph.total_edges == offset(graph.adj(), i as int),
                graph.total_edges <= i * n,
            decreases n - i,
        {
            let mut j: usize = 0;
            let ghost row = weight_flags(matrix@, zero, i as int, n as int);
            proof {
                assert(row.take(0) =~= Seq::<bool>::empty());
                assert(marked(Seq::<bool>::empty()) =~= Seq::<int>::empty()) by {
                    Seq::<int>::empty().lemma_filter_len(|j: int| 0 <= j < 0 && Seq::<bool>::empty()[j]);
                    assert(Seq::new(0, |j: int| j) =~= Seq::<int>::empty());
                }
                assert(targets(graph.adj()[i as int]) =~= Seq::<int>::empty());
            }
            while j < n
                invariant
                    i < n,
                    j <= n,
                    n == matrix@.len(),
                    n * n <= usize::MAX,
                    forall|u: int| 0 <= u < matrix@.len() ==> (#[trigger] matrix@[u])@.len() >= matrix@.len(),
                    row == weight_flags(matrix@, zero, i as int, n as int),
                    graph.order() == n,
                    graph.wf(),
                    T::obeys_eq_spec() ==> forall|u: int|
                        0 <= u < i ==> #[trigger] targets(graph.adj()[u]) == marked(
                            weight_flags(matrix@, zero, u, n as int),
                        ),
                    T::obeys_eq_spec() ==> targets(graph.adj()[i as int]) == marked(row.take(j as int)),
                    forall|u: int| i < u < n ==> (#[trigger] graph.adj()[u]).len() == 0,
                    forall|u: int, k: int|
                        0 <= u < n && 0 <= k < graph.adj()[u].len() ==> (#[trigger] graph.adj()[u][k]).edge_index
                            == offset(graph.adj(), u) + k && graph.adj()[u][k].weight
                            == matrix@[u]@[graph.adj()[u][k].to as int],
                    graph.total_edges == offset(graph.adj(), i as int) + graph.adj()[i as int].len(),
                    graph.adj()[i as int].len() <= j,
                    offset(graph.adj(), i as int) <= i * n,
                decreases n - j,
            {
                proof {
                    lemma_marked_next(row, j as int);
                    assert(i * n + j < n * n) by (nonlinear_arith)
                        requires
                            i < n,
                            j < n,
                    ;
                }
                let weight = matrix[i][j];
                if weight != zero {
                    let ghost before = graph.adj();
                    graph.add_weighted_directed_edge(i, j, weight);
                    proof {
                        let after = graph.adj();
                        assert(targets(after[i as int]) =~= targets(before[i as int]).push(j as int));
                        if T::obeys_eq_spec() {
                            assert forall|u: int| 0 <= u < i implies #[trigger] targets(after[u]) == marked(
                                weight_flags(matrix@, zero, u, n as int),
                            ) by {
                                assert(after[u] == before[u]);
                            }
                        }
                        assert forall|u: int, k: int| 0 <= u < n && 0 <= k < after[u].len() implies (
                        #[trigger] after[u][k]).edge_index == offset(after, u) + k && after[u][k].weight
                            == matrix@[u]@[after[u][k].to as int] by {
                            if u <= i {
                                lemma_offset_stable(before, after, u);
                                if u == i && k == before[u].len() {
                                } else {
                                    assert(after[u][k] == before[u][k]);
                                }
                            }
                        }
                        lemma_offset_stable(before, after, i as int);
                    }
                }
                j += 1;
            }
            proof {
                assert(row.take(n as int) =~= row);
                lemma_offset_next(graph.adj(), i as int);
                assert((i + 1) * n == i * n + n) by (nonlinear_arith);
            }
            i += 1;
        }
        graph
    }
}

impl<T: Copy + Default + PartialEq> WeightedGraph<T> {
    /// The directed graph of a square matrix of weights, in which the
    /// default value of the weights stands for "no edge".
    pub fn from_weight_matrix(matrix: &Vec<Vec<T>>) -> (g: Self)
        requires
            forall|i: int| 0 <= i < matrix@.len() ==> (#[trigger] matrix@[i])@.len() >= matrix@.len(),
            matrix@.len() * matrix@.len() <= usize::MAX,
        ensures
            g.order() == matrix@.len(),
            T::obeys_eq_spec() ==> exists|zero: T|
                call_ensures(T::default, (), zero) && #[trigger] is_weight_matrix_graph(&g, matrix@, zero),
    {
        let zero = T::default();
        Self::from_weight_matrix_against(matrix, zero)
    }
}

impl<T: Copy> WeightedGraph<T> {
    /// The graph of `n` vertices with one weighted edge for each entry of
    /// `edges`, which names its end points counting from one; a directed
    /// edge from the first to the second, or an undirected edge between
    /// them.
    pub fn weighted_from_stdin(n: usize, edges: &Vec<(usize, usize, T)>, directed: bool) -> (g: Self)
        requires
            forall|i: int|
                0 <= i < edges@.len() ==> 1 <= (#[trigger] edges@[i]).0 <= n && 1 <= edges@[i].1 <= n,
        ensures
            edge_list_built(&g, n, edges@, directed),
    {
        let count: usize = edges.len();
        let mut graph = Self::new(n);
        let ghost list = edges@;
        let mut i: usize = 0;
        proof {
            assert(list.take(0) =~= Seq::<(usize, usize, T)>::empty());
            assert(graph.is_undirected());
            let start = edge_list_adj(n as int, list.take(0), directed);
            assert forall|v: int| 0 <= v < n implies #[trigger] graph.adj()[v] =~= start[v] by {}
            assert(graph.adj() =~= start);
        }
        while i < count
            invariant
                i <= count,
                count == edges@.len(),
                list == edges@,
                forall|j: int|
                    0 <= j < edges@.len() ==> 1 <= (#[trigger] edges@[j]).0 <= n && 1 <= edges@[j].1 <= n,
                edge_list_built(&graph, n, list.take(i as int), directed),
            decreases count - i,
        {
            let (from, to, weight) = edges[i];
            proof {
                assert(list.take(i + 1) =~= list.take(i as int).push(list[i as int]));
            }
            let ghost before = graph;
            if directed {
                graph.add_weighted_directed_edge(from - 1, to - 1, weight);
            } else {
                graph.add_weighted_undirected_edge(from - 1, to - 1, weight);
            }
            proof {
                lemma_edge_list_step(&before, &graph, n, list.take(i as int), (from, to, weight), directed);
            }
            i += 1;
        }
        proof {
            assert(list.take(count as int) =~= list);
        }
        graph
    }
}

} // verus!
