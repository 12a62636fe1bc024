//! Trees and their Prüfer codes: from the code to the tree and back.

use crate::vectors::filled;
use crate::walks::connects;
use crate::walks::is_walk;
use crate::walks::lemma_closed_holds;
use crate::walks::lemma_connects_push;
use crate::walks::lemma_connects_self;
use vstd::prelude::*;

verus! {

/// Vertex `x` is a leaf that is still there: it has one edge to come and
/// was not taken yet.
pub open spec fn is_free_leaf(degree: Seq<usize>, gone: Seq<bool>, x: int) -> bool {
    0 <= x < degree.len() && x < gone.len() && degree[x] == 1 && !gone[x]
}

/// The least leaf from `from` on that is still there; the number of the
/// entries where there is none.
pub open spec fn first_leaf(degree: Seq<usize>, gone: Seq<bool>, from: int) -> int
    decreases degree.len() - from,
{
    if from < 0 || from >= degree.len() {
        degree.len() as int
    } else if is_free_leaf(degree, gone, from) {
        from
    } else {
        first_leaf(degree, gone, from + 1)
    }
}

/// How often `x` stands in `code` from place `i` on.
pub open spec fn later_count(code: Seq<usize>, i: int, x: int) -> int
    decreases code.len() - i,
{
    if i < 0 || i >= code.len() {
        0
    } else {
        later_count(code, i + 1, x) + if code[i] == x {
            1int
        } else {
            0int
        }
    }
}

/// The degrees in the tree of the code: one more than the number of times
/// that the vertex stands in the code. Entry zero stands for no vertex.
pub open spec fn code_degrees(n: int, code: Seq<usize>) -> Seq<usize> {
    Seq::new((n + 1) as nat, |x: int| (1 + later_count(code, 0, x)) as usize)
}

/// The edges that decoding gives from place `i` of the code on: for each
/// entry of the code an edge from it to the least leaf that is still
/// there, which is taken away, and in the end the edge between the two
/// vertices that are left, the larger one first.
pub open spec fn decode_from(degree: Seq<usize>, gone: Seq<bool>, code: Seq<usize>, i: int) -> Seq<(usize, usize)>
    decreases code.len() - i,
{
    let v = first_leaf(degree, gone, 1);
    if i < 0 || i >= code.len() {
        let u = first_leaf(degree, gone.update(v, true), 1);
        seq![(u as usize, v as usize)]
    } else {
        let u = code[i];
        seq![(u, v as usize)] + decode_from(
            degree.update(u as int, (degree[u as int] - 1) as usize),
            gone.update(v, true),
            code,
            i + 1,
        )
    }
}

/// The edges of the tree on the vertices `1 .. n` whose Prüfer code is
/// `code`.
pub open spec fn decoded(n: int, code: Seq<usize>) -> Seq<(usize, usize)> {
    decode_from(code_degrees(n, code), Seq::new((n + 1) as nat, |x: int| false), code, 0)
}

/// The first leaf is a leaf that is still there, no leaf before it is,
/// and there is none exactly when the scan runs to the end.
pub proof fn lemma_first_leaf(degree: Seq<usize>, gone: Seq<bool>, from: int)
    requires
        0 <= from <= degree.len(),
        gone.len() == degree.len(),
    ensures
        from <= first_leaf(degree, gone, from) <= degree.len(),
        first_leaf(degree, gone, from) < degree.len() ==> is_free_leaf(
            degree,
            gone,
            first_leaf(degree, gone, from),
        ),
        forall|x: int| from <= x < first_leaf(degree, gone, from) ==> !is_free_leaf(degree, gone, x),
    decreases degree.len() - from,
{
    if from < degree.len() && !is_free_leaf(degree, gone, from) {
        lemma_first_leaf(degree, gone, from + 1);
    }
}

/// The least leaf that is still there, from vertex one on, or the number
/// of entries where there is none.
pub fn least_leaf(degree: &Vec<usize>, gone: &Vec<bool>) -> (leaf: usize)
    requires
        gone@.len() == degree@.len(),
        degree@.len() >= 1,
    ensures
        leaf == first_leaf(degree@, gone@, 1),
{
    let size: usize = degree.len();
    let mut x: usize = 1;
    while x < size && !(degree[x] == 1 && !gone[x])
        invariant
            1 <= x <= size,
            size == degree@.len(),
            gone@.len() == size,
            first_leaf(degree@, gone@, 1) == first_leaf(degree@, gone@, x as int),
        decreases size - x,
    {
        x += 1;
    }
    x
}

/// The edges that are still to come at the vertices below `k` that are
/// still there, beyond one for each.
pub open spec fn slack(degree: Seq<usize>, gone: Seq<bool>, k: int) -> int
    decreases k,
{
    if k <= 1 {
        0
    } else {
        slack(degree, gone, k - 1) + if gone[k - 1] {
            0int
        } else {
            degree[k - 1] - 1
        }
    }
}

/// The number of vertices below `k` that are still there.
pub open spec fn alive(gone: Seq<bool>, k: int) -> int
    decreases k,
{
    if k <= 1 {
        0
    } else {
        alive(gone, k - 1) + if gone[k - 1] {
            0int
        } else {
            1int
        }
    }
}

/// One edge fewer to come at a vertex that is still there is one less in
/// all.
pub proof fn lemma_slack_lowered(degree: Seq<usize>, gone: Seq<bool>, k: int, u: int)
    requires
        1 <= u < degree.len(),
        k <= degree.len(),
        !gone[u],
        degree[u] >= 1,
    ensures
        slack(degree.update(u, (degree[u] - 1) as usize), gone, k) == slack(degree, gone, k) - if u < k {
            1int
        } else {
            0int
        },
    decreases k,
{
    if k > 1 {
        lemma_slack_lowered(degree, gone, k - 1, u);
    }
}

/// Taking a leaf away leaves the edges to come as they are, and one
/// vertex fewer.
pub proof fn lemma_leaf_taken(degree: Seq<usize>, gone: Seq<bool>, k: int, v: int)
    requires
        1 <= v < gone.len(),
        k <= gone.len(),
        gone.len() == degree.len(),
        !gone[v],
        degree[v] == 1,
    ensures
        slack(degree, gone.update(v, true), k) == slack(degree, gone, k),
        alive(gone.update(v, true), k) == alive(gone, k) - if v < k {
            1int
        } else {
            0int
        },
    decreases k,
{
    if k > 1 {
        lemma_leaf_taken(degree, gone, k - 1, v);
    }
}

/// Where no leaf is left, every vertex that is still there has an edge to
/// come beyond its one.
pub proof fn lemma_no_leaf_means_slack(degree: Seq<usize>, gone: Seq<bool>, k: int)
    requires
        k <= degree.len(),
        gone.len() == degree.len(),
        forall|x: int| 1 <= x < k ==> #[trigger] degree[x] >= 1,
        forall|x: int| 1 <= x < k ==> !is_free_leaf(degree, gone, x),
    ensures
        slack(degree, gone, k) >= alive(gone, k),
    decreases k,
{
    if k > 1 {
        lemma_no_leaf_means_slack(degree, gone, k - 1);
        assert(degree[k - 1] >= 1);
        assert(!is_free_leaf(degree, gone, k - 1));
    }
}

/// The number of entries of `code` from place `i` on that are vertices
/// below `k`.
pub open spec fn later_total(code: Seq<usize>, i: int, k: int) -> int
    decreases k,
{
    if k <= 1 {
        0
    } else {
        later_total(code, i, k - 1) + later_count(code, i, k - 1)
    }
}

/// One entry more counts once among the vertices, where it is one of them.
pub proof fn lemma_later_total_step(code: Seq<usize>, i: int, k: int)
    requires
        0 <= i < code.len(),
    ensures
        later_total(code, i, k) == later_total(code, i + 1, k) + if 1 <= code[i] < k {
            1int
        } else {
            0int
        },
    decreases k,
{
    if k > 1 {
        lemma_later_total_step(code, i, k - 1);
    }
}

/// Every entry of a code of vertices is counted once.
pub proof fn lemma_later_total(code: Seq<usize>, i: int, n: int)
    requires
        0 <= i <= code.len(),
        forall|j: int| 0 <= j < code.len() ==> 1 <= #[trigger] code[j] <= n,
    ensures
        later_total(code, i, n + 1) == code.len() - i,
    decreases code.len() - i,
{
    if i < code.len() {
        lemma_later_total(code, i + 1, n);
        lemma_later_total_step(code, i, n + 1);
    } else {
        lemma_later_total_none(code, i, n + 1);
    }
}

/// Behind the code nothing is counted.
pub proof fn lemma_later_total_none(code: Seq<usize>, i: int, k: int)
    requires
        i >= code.len(),
    ensures
        later_total(code, i, k) == 0,
    decreases k,
{
    if k > 1 {
        lemma_later_total_none(code, i, k - 1);
    }
}

/// Before decoding, the edges to come beyond one for each vertex are as
/// many as the code is long, and every vertex is there.
pub proof fn lemma_start_counts(n: int, code: Seq<usize>, k: int)
    requires
        1 <= k <= n + 1,
        code.len() < usize::MAX,
    ensures
        slack(code_degrees(n, code), Seq::new((n + 1) as nat, |x: int| false), k) == later_total(code, 0, k),
        alive(Seq::new((n + 1) as nat, |x: int| false), k) == k - 1,
    decreases k,
{
    if k > 1 {
        lemma_start_counts(n, code, k - 1);
        lemma_later_count_bounds(code, 0, k - 1);
    }
}

/// A vertex stands in the code no more often than the code is long.
pub proof fn lemma_later_count_bounds(code: Seq<usize>, i: int, x: int)
    requires
        0 <= i,
    ensures
        0 <= later_count(code, i, x) <= code.len(),
        i <= code.len() ==> later_count(code, i, x) <= code.len() - i,
    decreases code.len() - i,
{
    if i < code.len() {
        lemma_later_count_bounds(code, i + 1, x);
    }
}

/// The tree on the vertices `1 .. n` whose Prüfer code is `prufer`, as the
/// list of its edges in the order in which they are decoded.
pub fn tree_of_prufer_code(n: usize, prufer: &Vec<usize>) -> (tree: Vec<(usize, usize)>)
    requires
        n >= 2,
        n < usize::MAX,
        prufer@.len() == n - 2,
        forall|j: int| 0 <= j < prufer@.len() ==> 1 <= #[trigger] prufer@[j] <= n,
    ensures
        tree@ == decoded(n as int, prufer@),
        tree@.len() == n - 1,
        forall|j: int| 0 <= j < tree@.len() ==> 1 <= (#[trigger] tree@[j]).0 <= n && 1 <= tree@[j].1 <= n,
{
    let ghost code = prufer@;
    let size: usize = prufer.len();
    let mut degree: Vec<usize> = filled(1usize, n + 1);
    let mut i: usize = 0;
    while i < size
        invariant
            i <= size,
            size == code.len(),
            code == prufer@,
            degree@.len() == n + 1,
            forall|j: int| 0 <= j < code.len() ==> 1 <= #[trigger] code[j] <= n,
            forall|x: int|
                0 <= x <= n ==> #[trigger] degree@[x] == 1 + later_count(code, 0, x) - later_count(code, i as int, x),
            forall|x: int| 0 <= x <= n ==> #[trigger] degree@[x] <= 1 + i,
            size + 2 == n,
            n < usize::MAX,
        decreases size - i,
    {
        let u: usize = prufer[i];
        proof {
            lemma_later_count_bounds(code, 0, u as int);
            lemma_later_count_bounds(code, i as int, u as int);
            lemma_later_count_bounds(code, i + 1, u as int);
        }
        assert(degree@[u as int] <= 1 + i);
        degree[u] += 1;
        i += 1;
    }
    proof {
        assert forall|x: int| 0 <= x <= n implies later_count(code, size as int, x) == 0 by {}
        assert forall|x: int| 0 <= x <= n implies #[trigger] degree@[x] == code_degrees(n as int, code)[x] by {
            lemma_later_count_bounds(code, 0, x);
        }
        assert(degree@ =~= code_degrees(n as int, code));
        lemma_start_counts(n as int, code, n + 1);
        lemma_later_total(code, 0, n as int);
    }
    let mut gone: Vec<bool> = filled(false, n + 1);
    proof {
        assert(gone@ =~= Seq::new((n + 1) as nat, |x: int| false));
    }
    let mut tree: Vec<(usize, usize)> = Vec::new();
    let mut i: usize = 0;
    while i < size
        invariant
            i <= size,
            size == code.len(),
            size == n - 2,
            code == prufer@,
            degree@.len() == n + 1,
            gone@.len() == n + 1,
            forall|j: int| 0 <= j < code.len() ==> 1 <= #[trigger] code[j] <= n,
            forall|x: int| 1 <= x <= n ==> #[trigger] degree@[x] == 1 + later_count(code, i as int, x),
            forall|x: int| 1 <= x <= n && #[trigger] gone@[x] ==> degree@[x] == 1,
            slack(degree@, gone@, n + 1) == size - i,
            alive(gone@, n + 1) == n - i,
            tree@.len() == i,
            forall|j: int| 0 <= j < tree@.len() ==> 1 <= (#[trigger] tree@[j]).0 <= n && 1 <= tree@[j].1 <= n,
            tree@ + decode_from(degree@, gone@, code, i as int) == decoded(n as int, code),
        decreases size - i,
    {
        let u: usize = prufer[i];
        let v: usize = least_leaf(&degree, &gone);
        let ghost d0 = degree@;
        let ghost g0 = gone@;
        proof {
            lemma_first_leaf(d0, g0, 1);
            if v >= n + 1 {
                assert forall|x: int| 1 <= x < n + 1 implies #[trigger] d0[x] >= 1 by {
                    lemma_later_count_bounds(code, i as int, x);
                }
                lemma_no_leaf_means_slack(d0, g0, n + 1);
            }
            assert(is_free_leaf(d0, g0, v as int));
            lemma_later_count_bounds(code, i + 1, u as int);
            assert(d0[u as int] >= 2);
            assert(u != v);
            assert(!g0[u as int]);
            lemma_leaf_taken(d0, g0, n + 1, v as int);
            lemma_slack_lowered(d0, g0.update(v as int, true), n + 1, u as int);
        }
        tree.push((u, v));
        gone[v] = true;
        degree[u] -= 1;
        proof {
            assert forall|x: int| 1 <= x <= n implies #[trigger] degree@[x] == 1 + later_count(code, i + 1, x) by {
                assert(d0[x] == 1 + later_count(code, i as int, x));
            }
            assert(degree@ =~= d0.update(u as int, (d0[u as int] - 1) as usize));
            assert(gone@ =~= g0.update(v as int, true));
            assert(tree@ + decode_from(degree@, gone@, code, i + 1) =~= tree@.drop_last() + decode_from(
                d0,
                g0,
                code,
                i as int,
            ));
            assert(tree@.drop_last() + decode_from(d0, g0, code, i as int) == decoded(n as int, code));
        }
        i += 1;
    }
    let v: usize = least_leaf(&degree, &gone);
    let ghost d0 = degree@;
    let ghost g0 = gone@;
    proof {
        lemma_first_leaf(d0, g0, 1);
        assert forall|x: int| 1 <= x < n + 1 implies #[trigger] d0[x] >= 1 by {
            lemma_later_count_bounds(code, size as int, x);
        }
        if v >= n + 1 {
            lemma_no_leaf_means_slack(d0, g0, n + 1);
        }
        lemma_leaf_taken(d0, g0, n + 1, v as int);
    }
    gone[v] = true;
    let u: usize = least_leaf(&degree, &gone);
    proof {
        assert(gone@ =~= g0.update(v as int, true));
        lemma_first_leaf(d0, gone@, 1);
        if u >= n + 1 {
            lemma_no_leaf_means_slack(d0, gone@, n + 1);
        }
    }
    tree.push((u, v));
    proof {
        assert(tree@ =~= tree@.drop_last() + decode_from(d0, g0, code, size as int));
    }
    tree
}

/// How many ends of the edges before place `k` that are still there stand
/// at vertex `x`; an edge from a vertex to itself counts twice.
pub open spec fn ends_at(edges: Seq<(usize, usize)>, removed: Seq<bool>, x: int, k: int) -> int
    decreases k,
{
    if k <= 0 {
        0
    } else {
        ends_at(edges, removed, x, k - 1) + if removed[k - 1] {
            0int
        } else {
            (if edges[k - 1].0 == x {
                1int
            } else {
                0int
            }) + (if edges[k - 1].1 == x {
                1int
            } else {
                0int
            })
        }
    }
}

/// The number of edges before place `k` that are still there.
pub open spec fn live_edges(removed: Seq<bool>, k: int) -> int
    decreases k,
{
    if k <= 0 {
        0
    } else {
        live_edges(removed, k - 1) + if removed[k - 1] {
            0int
        } else {
            1int
        }
    }
}

/// The sum of the degrees of the vertices below `k`.
pub open spec fn degree_sum(degree: Seq<usize>, k: int) -> int
    decreases k,
{
    if k <= 1 {
        0
    } else {
        degree_sum(degree, k - 1) + degree[k - 1]
    }
}

/// Edge `j` is still there and joins `a` and `b`.
pub open spec fn joins(edges: Seq<(usize, usize)>, removed: Seq<bool>, j: int, a: int, b: int) -> bool {
    &&& 0 <= j < edges.len()
    &&& !removed[j]
    &&& (edges[j].0 == a && edges[j].1 == b) || (edges[j].0 == b && edges[j].1 == a)
}

/// The relation "an edge that is still there joins the two vertices".
pub open spec fn live_rel(edges: Seq<(usize, usize)>, removed: Seq<bool>) -> spec_fn(int, int) -> bool {
    |a: int, b: int| exists|j: int| #[trigger] joins(edges, removed, j, a, b)
}

/// No edge is taken away.
pub open spec fn none_removed(m: int) -> Seq<bool> {
    Seq::new(m as nat, |j: int| false)
}

/// The edges make a tree on the vertices `1 .. n`: there are `n - 1` of
/// them, and walks along them connect every vertex with every other.
pub open spec fn is_tree_list(n: int, edges: Seq<(usize, usize)>) -> bool {
    &&& edges.len() == n - 1
    &&& forall|j: int| 0 <= j < edges.len() ==> 1 <= (#[trigger] edges[j]).0 <= n && 1 <= edges[j].1 <= n
    &&& forall|x: int, y: int|
        1 <= x <= n && 1 <= y <= n ==> #[trigger] connects(live_rel(edges, none_removed(n - 1)), x, y)
}

/// The ends are counted from zero up, and no more than two for each edge.
pub proof fn lemma_ends_at_bounds(edges: Seq<(usize, usize)>, removed: Seq<bool>, x: int, k: int)
    requires
        0 <= k,
    ensures
        0 <= ends_at(edges, removed, x, k) <= 2 * k,
    decreases k,
{
    if k > 0 {
        lemma_ends_at_bounds(edges, removed, x, k - 1);
    }
}

/// An edge that is still there counts at its ends.
pub proof fn lemma_ends_at_has(edges: Seq<(usize, usize)>, removed: Seq<bool>, x: int, k: int, j: int)
    requires
        0 <= j < k,
        !removed[j],
        edges[j].0 == x || edges[j].1 == x,
    ensures
        ends_at(edges, removed, x, k) >= 1,
        edges[j].0 == x && edges[j].1 == x ==> ends_at(edges, removed, x, k) >= 2,
    decreases k,
{
    lemma_ends_at_bounds(edges, removed, x, k - 1);
    if j < k - 1 {
        lemma_ends_at_has(edges, removed, x, k - 1, j);
    }
}

/// Two edges that are still there count twice at a common end.
pub proof fn lemma_ends_at_two(edges: Seq<(usize, usize)>, removed: Seq<bool>, x: int, k: int, i: int, j: int)
    requires
        0 <= i < j < k,
        !removed[i],
        !removed[j],
        edges[i].0 == x || edges[i].1 == x,
        edges[j].0 == x || edges[j].1 == x,
    ensures
        ends_at(edges, removed, x, k) >= 2,
    decreases k,
{
    if j < k - 1 {
        lemma_ends_at_two(edges, removed, x, k - 1, i, j);
    } else {
        lemma_ends_at_has(edges, removed, x, k - 1, i);
    }
}

/// Where an end is counted, some edge that is still there has it.
pub proof fn lemma_ends_at_witness(edges: Seq<(usize, usize)>, removed: Seq<bool>, x: int, k: int) -> (j: int)
    requires
        ends_at(edges, removed, x, k) >= 1,
    ensures
        0 <= j < k,
        !removed[j],
        edges[j].0 == x || edges[j].1 == x,
    decreases k,
{
    if k <= 0 {
        0
    } else if !removed[k - 1] && (edges[k - 1].0 == x || edges[k - 1].1 == x) {
        k - 1
    } else {
        lemma_ends_at_witness(edges, removed, x, k - 1)
    }
}

/// Taking an edge away takes its ends off the counts, and one off the
/// number of edges.
pub proof fn lemma_edge_removed(edges: Seq<(usize, usize)>, removed: Seq<bool>, x: int, k: int, j: int)
    requires
        0 <= j < removed.len(),
        k <= removed.len(),
        !removed[j],
    ensures
        ends_at(edges, removed.update(j, true), x, k) == ends_at(edges, removed, x, k) - if j < k {
            (if edges[j].0 == x {
                1int
            } else {
                0int
            }) + (if edges[j].1 == x {
                1int
            } else {
                0int
            })
        } else {
            0int
        },
        live_edges(removed.update(j, true), k) == live_edges(removed, k) - if j < k {
            1int
        } else {
            0int
        },
    decreases k,
{
    if k > 0 {
        lemma_edge_removed(edges, removed, x, k - 1, j);
    }
}

/// One less at one vertex is one less in the sum.
pub proof fn lemma_degree_lowered(degree: Seq<usize>, k: int, u: int)
    requires
        1 <= u < degree.len(),
        k <= degree.len(),
        degree[u] >= 1,
    ensures
        degree_sum(degree.update(u, (degree[u] - 1) as usize), k) == degree_sum(degree, k) - if u < k {
            1int
        } else {
            0int
        },
    decreases k,
{
    if k > 1 {
        lemma_degree_lowered(degree, k - 1, u);
    }
}

/// One more at one vertex is one more in the sum.
pub proof fn lemma_degree_raised(degree: Seq<usize>, k: int, u: int)
    requires
        1 <= u < degree.len(),
        k <= degree.len(),
        degree[u] < usize::MAX,
    ensures
        degree_sum(degree.update(u, (degree[u] + 1) as usize), k) == degree_sum(degree, k) + if u < k {
            1int
        } else {
            0int
        },
    decreases k,
{
    if k > 1 {
        lemma_degree_raised(degree, k - 1, u);
    }
}

/// Taking a vertex away leaves one vertex fewer.
pub proof fn lemma_vertex_taken(gone: Seq<bool>, k: int, v: int)
    requires
        1 <= v < gone.len(),
        k <= gone.len(),
        !gone[v],
    ensures
        alive(gone.update(v, true), k) == alive(gone, k) - if v < k {
            1int
        } else {
            0int
        },
    decreases k,
{
    if k > 1 {
        lemma_vertex_taken(gone, k - 1, v);
    }
}

/// Where two vertices or more are still there, every one of them has
/// another beside it.
pub proof fn lemma_alive_other(gone: Seq<bool>, k: int, x: int) -> (y: int)
    requires
        k <= gone.len(),
        alive(gone, k) >= 2,
    ensures
        1 <= y < k,
        !gone[y],
        y != x,
    decreases k,
{
    lemma_alive_bounds(gone, k - 1);
    if !gone[k - 1] && k - 1 != x {
        k - 1
    } else if !gone[k - 1] {
        lemma_alive_one(gone, k - 1)
    } else {
        lemma_alive_other(gone, k - 1, x)
    }
}

/// The number of vertices that are still there is not negative.
pub proof fn lemma_alive_bounds(gone: Seq<bool>, k: int)
    ensures
        0 <= alive(gone, k),
        k >= 1 ==> alive(gone, k) <= k - 1,
    decreases k,
{
    if k > 1 {
        lemma_alive_bounds(gone, k - 1);
    }
}

/// Where a vertex is still there, there is one.
pub proof fn lemma_alive_one(gone: Seq<bool>, k: int) -> (y: int)
    requires
        k <= gone.len(),
        alive(gone, k) >= 1,
    ensures
        1 <= y < k,
        !gone[y],
    decreases k,
{
    if !gone[k - 1] {
        k - 1
    } else {
        lemma_alive_one(gone, k - 1)
    }
}

/// Where the vertices that are gone have no edge and the others two or
/// more, the degrees sum up to twice the number of vertices that are
/// still there, or more.
pub proof fn lemma_no_leaf_means_many_ends(degree: Seq<usize>, gone: Seq<bool>, k: int)
    requires
        k <= degree.len(),
        gone.len() == degree.len(),
        forall|x: int| 1 <= x < k && !gone[x] ==> #[trigger] degree[x] >= 2,
    ensures
        degree_sum(degree, k) >= 2 * alive(gone, k),
    decreases k,
{
    if k > 1 {
        lemma_no_leaf_means_many_ends(degree, gone, k - 1);
        if !gone[k - 1] {
            assert(degree[k - 1] >= 2);
        }
    }
}

/// A walk from a vertex to another one begins with a step.
pub proof fn lemma_first_step(r: spec_fn(int, int) -> bool, x: int, y: int) -> (b: int)
    requires
        connects(r, x, y),
        x != y,
    ensures
        r(x, b),
{
    let p = choose|p: Seq<int>| #[trigger] is_walk(r, p) && p.first() == x && p.last() == y;
    assert(p.len() >= 2);
    let first = 0int;
    assert(r(p[first], p[first + 1]));
    p[1]
}

/// After a leaf and its edge are taken away, walks along the edges that
/// are left still connect the vertices that they connected before.
pub proof fn lemma_leaf_off_keeps_connected(
    edges: Seq<(usize, usize)>,
    removed: Seq<bool>,
    j: int,
    u: int,
    v: int,
    x: int,
    y: int,
)
    requires
        removed.len() == edges.len(),
        joins(edges, removed, j, u, v),
        u != v,
        ends_at(edges, removed, u, edges.len() as int) == 1,
        connects(live_rel(edges, removed), x, y),
        x != u,
        y != u,
    ensures
        connects(live_rel(edges, removed.update(j, true)), x, y),
{
    let before = live_rel(edges, removed);
    let after = live_rel(edges, removed.update(j, true));
    let reached = |z: int| connects(after, x, z);
    let inside = |z: int| (z != u && reached(z)) || (z == u && reached(v));
    lemma_connects_self(after, x);
    assert forall|a: int, b: int| inside(a) && #[trigger] before(a, b) implies inside(b) by {
        let i = choose|i: int| #[trigger] joins(edges, removed, i, a, b);
        if i == j {
        } else {
            if a == u || b == u {
                if i < j {
                    lemma_ends_at_two(edges, removed, u, edges.len() as int, i, j);
                } else {
                    lemma_ends_at_two(edges, removed, u, edges.len() as int, j, i);
                }
            }
            assert(joins(edges, removed.update(j, true), i, a, b));
            assert(after(a, b));
            lemma_connects_push(after, x, a, b);
        }
    }
    lemma_closed_holds(before, inside, x, y);
}

/// The least place from `from` on of an edge that is still there and has
/// an end at `x`; the number of edges where there is none.
pub open spec fn first_edge_at(edges: Seq<(usize, usize)>, removed: Seq<bool>, x: int, from: int) -> int
    decreases edges.len() - from,
{
    if from < 0 || from >= edges.len() {
        edges.len() as int
    } else if !removed[from] && (edges[from].0 == x || edges[from].1 == x) {
        from
    } else {
        first_edge_at(edges, removed, x, from + 1)
    }
}

/// The end of the edge that is not `u`.
pub open spec fn other_end(edge: (usize, usize), u: int) -> usize {
    if edge.0 == u {
        edge.1
    } else {
        edge.0
    }
}

/// The degrees of the vertices in the graph of the edges. Entry zero
/// stands for no vertex.
pub open spec fn tree_degrees(n: int, edges: Seq<(usize, usize)>) -> Seq<usize> {
    Seq::new((n + 1) as nat, |x: int| ends_at(edges, none_removed(edges.len() as int), x, edges.len() as int) as usize)
}

/// What the next step of the encoding takes away: the least leaf, its
/// edge, and the vertex at the other end of that edge.
pub open spec fn next_taken(edges: Seq<(usize, usize)>, removed: Seq<bool>, gone: Seq<bool>, degree: Seq<usize>) -> (
    int,
    int,
    usize,
) {
    let u = first_leaf(degree, gone, 1);
    let j = first_edge_at(edges, removed, u, 0);
    (u, j, other_end(edges[j], u))
}

/// The code that `steps` more steps of the encoding give: each step takes
/// the least leaf away with its edge and writes down the vertex at the
/// other end of that edge.
pub open spec fn encode_from(
    edges: Seq<(usize, usize)>,
    removed: Seq<bool>,
    gone: Seq<bool>,
    degree: Seq<usize>,
    steps: nat,
) -> Seq<usize>
    decreases steps,
{
    if steps == 0 {
        Seq::empty()
    } else {
        let t = next_taken(edges, removed, gone, degree);
        let lowered = degree.update(t.0, (degree[t.0] - 1) as usize);
        seq![t.2] + encode_from(
            edges,
            removed.update(t.1, true),
            gone.update(t.0, true),
            lowered.update(t.2 as int, (lowered[t.2 as int] - 1) as usize),
            (steps - 1) as nat,
        )
    }
}

/// The Prüfer code of the tree of the edges on the vertices `1 .. n`.
pub open spec fn encoded(n: int, edges: Seq<(usize, usize)>) -> Seq<usize> {
    encode_from(
        edges,
        none_removed(edges.len() as int),
        Seq::new((n + 1) as nat, |x: int| false),
        tree_degrees(n, edges),
        (n - 2) as nat,
    )
}

/// The least place of an edge that is still there and has an end at `u`,
/// or the number of edges where there is none.
pub fn least_edge_at(edges: &Vec<(usize, usize)>, removed: &Vec<bool>, u: usize) -> (place: usize)
    requires
        removed@.len() == edges@.len(),
    ensures
        place == first_edge_at(edges@, removed@, u as int, 0),
        place <= edges@.len(),
        place < edges@.len() ==> !removed@[place as int] && (edges@[place as int].0 == u || edges@[place as int].1
            == u),
        forall|j: int|
            0 <= j < place ==> removed@[j] || ((#[trigger] edges@[j]).0 != u && edges@[j].1 != u),
{
    let size: usize = edges.len();
    let mut j: usize = 0;
    while j < size && (removed[j] || (edges[j].0 != u && edges[j].1 != u))
        invariant
            j <= size,
            size == edges@.len(),
            removed@.len() == size,
            first_edge_at(edges@, removed@, u as int, 0) == first_edge_at(edges@, removed@, u as int, j as int),
            forall|i: int| 0 <= i < j ==> removed@[i] || ((#[trigger] edges@[i]).0 != u && edges@[i].1 != u),
        decreases size - j,
    {
        j += 1;
    }
    j
}

/// The Prüfer code of the tree of the edges on the vertices `1 .. n`: the
/// least leaf is taken away with its edge, and the vertex at the other
/// end of that edge is written down, until two vertices are left.
pub fn prufer_code_of_tree(n: usize, edges: &Vec<(usize, usize)>) -> (code: Vec<usize>)
    requires
        n >= 2,
        2 * n < usize::MAX,
        is_tree_list(n as int, edges@),
    ensures
        code@ == encoded(n as int, edges@),
        code@.len() == n - 2,
        forall|i: int| 0 <= i < code@.len() ==> 1 <= #[trigger] code@[i] <= n,
{
    let ghost list = edges@;
    let m: usize = edges.len();
    let ghost none = none_removed(m as int);
    let mut degree: Vec<usize> = filled(0usize, n + 1);
    let mut k: usize = 0;
    proof {
        lemma_zero_sum(degree@, n + 1);
    }
    while k < m
        invariant
            k <= m,
            m == list.len(),
            m == n - 1,
            2 * n < usize::MAX,
            list == edges@,
            none == none_removed(m as int),
            degree@.len() == n + 1,
            forall|j: int| 0 <= j < list.len() ==> 1 <= (#[trigger] list[j]).0 <= n && 1 <= list[j].1 <= n,
            forall|x: int| 0 <= x <= n ==> #[trigger] degree@[x] == ends_at(list, none, x, k as int),
            degree_sum(degree@, n + 1) == 2 * k,
        decreases m - k,
    {
        let (a, b) = edges[k];
        assert(1 <= list[k as int].0 <= n && 1 <= list[k as int].1 <= n);
        proof {
            lemma_ends_at_bounds(list, none, a as int, k as int);
            lemma_ends_at_bounds(list, none, b as int, k as int);
            lemma_degree_raised(degree@, n + 1, a as int);
        }
        degree[a] += 1;
        proof {
            lemma_degree_raised(degree@, n + 1, b as int);
        }
        degree[b] += 1;
        k += 1;
    }
    let mut removed: Vec<bool> = filled(false, m);
    let mut gone: Vec<bool> = filled(false, n + 1);
    let mut code: Vec<usize> = Vec::new();
    proof {
        assert(removed@ =~= none);
        assert(gone@ =~= Seq::new((n + 1) as nat, |x: int| false));
        assert forall|x: int| 0 <= x <= n implies #[trigger] degree@[x] == tree_degrees(n as int, list)[x] by {
            lemma_ends_at_bounds(list, none, x, m as int);
        }
        assert(degree@ =~= tree_degrees(n as int, list));
        lemma_start_alive(n as int, n + 1);
        lemma_start_live_edges(m as int, m as int);
    }
    let mut i: usize = 0;
    while i + 2 < n
        invariant
            i + 2 <= n,
            m == list.len(),
            m == n - 1,
            list == edges@,
            degree@.len() == n + 1,
            gone@.len() == n + 1,
            removed@.len() == m,
            forall|j: int| 0 <= j < list.len() ==> 1 <= (#[trigger] list[j]).0 <= n && 1 <= list[j].1 <= n,
            forall|x: int| 1 <= x <= n ==> #[trigger] degree@[x] == ends_at(list, removed@, x, m as int),
            forall|x: int| 1 <= x <= n && #[trigger] gone@[x] ==> degree@[x] == 0,
            degree_sum(degree@, n + 1) == 2 * live_edges(removed@, m as int),
            live_edges(removed@, m as int) == m - i,
            alive(gone@, n + 1) == n - i,
            forall|x: int, y: int|
                1 <= x <= n && 1 <= y <= n && !gone@[x] && !gone@[y] ==> #[trigger] connects(
                    live_rel(list, removed@),
                    x,
                    y,
                ),
            code@.len() == i,
            forall|t: int| 0 <= t < code@.len() ==> 1 <= #[trigger] code@[t] <= n,
            code@ + encode_from(list, removed@, gone@, degree@, (n - 2 - i) as nat) == encoded(n as int, list),
        decreases n - i,
    {
        let ghost d0 = degree@;
        let ghost g0 = gone@;
        let ghost r0 = removed@;
        let ghost before = live_rel(list, r0);
        let u: usize = least_leaf(&degree, &gone);
        proof {
            lemma_first_leaf(d0, g0, 1);
            if u >= n + 1 {
                assert forall|x: int| 1 <= x < n + 1 && !g0[x] implies #[trigger] d0[x] >= 2 by {
                    let y = lemma_alive_other(g0, n + 1, x);
                    assert(connects(before, x, y));
                    let b = lemma_first_step(before, x, y);
                    let j = choose|j: int| #[trigger] joins(list, r0, j, x, b);
                    lemma_ends_at_has(list, r0, x, m as int, j);
                    assert(!is_free_leaf(d0, g0, x));
                }
                lemma_no_leaf_means_many_ends(d0, g0, n + 1);
            }
            assert(is_free_leaf(d0, g0, u as int));
            let w = lemma_ends_at_witness(list, r0, u as int, m as int);
        }
        let j: usize = least_edge_at(edges, &removed, u);
        let edge = edges[j];
        let v: usize = if edge.0 == u {
            edge.1
        } else {
            edge.0
        };
        proof {
            assert(1 <= list[j as int].0 <= n && 1 <= list[j as int].1 <= n);
            lemma_ends_at_has(list, r0, u as int, m as int, j as int);
            assert(u != v);
            lemma_ends_at_has(list, r0, v as int, m as int, j as int);
            assert(!g0[v as int]);
            assert(joins(list, r0, j as int, u as int, v as int));
            lemma_degree_lowered(d0, n + 1, u as int);
            let d1 = d0.update(u as int, (d0[u as int] - 1) as usize);
            lemma_degree_lowered(d1, n + 1, v as int);
            lemma_vertex_taken(g0, n + 1, u as int);
            lemma_edge_removed(list, r0, 0, m as int, j as int);
        }
        code.push(v);
        removed[j] = true;
        degree[u] -= 1;
        degree[v] -= 1;
        gone[u] = true;
        proof {
            let d1 = d0.update(u as int, (d0[u as int] - 1) as usize);
            assert(degree@ =~= d1.update(v as int, (d1[v as int] - 1) as usize));
            assert(removed@ =~= r0.update(j as int, true));
            assert(gone@ =~= g0.update(u as int, true));
            assert forall|x: int| 1 <= x <= n implies #[trigger] degree@[x] == ends_at(
                list,
                removed@,
                x,
                m as int,
            ) by {
                lemma_edge_removed(list, r0, x, m as int, j as int);
                assert(d0[x] == ends_at(list, r0, x, m as int));
            }
            assert forall|x: int| 1 <= x <= n && #[trigger] gone@[x] implies degree@[x] == 0 by {
                if x != u {
                    assert(g0[x]);
                }
            }
            assert forall|x: int, y: int|
                1 <= x <= n && 1 <= y <= n && !gone@[x] && !gone@[y] implies #[trigger] connects(
                live_rel(list, removed@),
                x,
                y,
            ) by {
                assert(connects(before, x, y));
                lemma_leaf_off_keeps_connected(list, r0, j as int, u as int, v as int, x, y);
            }
            assert(next_taken(list, r0, g0, d0) == (u as int, j as int, v));
            assert(code@ + encode_from(list, removed@, gone@, degree@, (n - 2 - i - 1) as nat) =~= code@.drop_last()
                + encode_from(list, r0, g0, d0, (n - 2 - i) as nat));
        }
        i += 1;
    }
    proof {
        assert(code@ + Seq::<usize>::empty() =~= code@);
    }
    code
}

/// Degrees that are all zero sum up to zero.
pub proof fn lemma_zero_sum(degree: Seq<usize>, k: int)
    requires
        k <= degree.len(),
        forall|x: int| 0 <= x < degree.len() ==> degree[x] == 0,
    ensures
        degree_sum(degree, k) == 0,
    decreases k,
{
    if k > 1 {
        lemma_zero_sum(degree, k - 1);
    }
}

/// Before anything is taken away, every vertex is there.
pub proof fn lemma_start_alive(n: int, k: int)
    requires
        1 <= k <= n + 1,
    ensures
        alive(Seq::new((n + 1) as nat, |x: int| false), k) == k - 1,
    decreases k,
{
    if k > 1 {
        lemma_start_alive(n, k - 1);
    }
}

/// Before anything is taken away, every edge is there.
pub proof fn lemma_start_live_edges(m: int, k: int)
    requires
        0 <= k <= m,
    ensures
        live_edges(none_removed(m), k) == k,
    decreases k,
{
    if k > 0 {
        lemma_start_live_edges(m, k - 1);
    }
}

} // verus!
