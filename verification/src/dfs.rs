//! The depth-first traversal context and the walk that all decompositions
//! share.

use crate::graph::Graph;
use crate::graph::VisitColor;
use crate::vectors::empty_lists;
use crate::vectors::filled;
use vstd::prelude::*;
use vstd::seq_lib::lemma_no_dup_in_concat;

verus! {

/// The bookkeeping of a depth-first traversal of one graph: a clock, the
/// colour of each vertex, the times at which each vertex was entered and
/// left, and the children of each vertex in the traversal tree.
#[derive(Debug, Clone)]
pub struct DFSSpace {
    pub time: usize,
    pub visit_colors: Vec<VisitColor>,
    pub t_in: Vec<usize>,
    pub t_out: Vec<usize>,
    pub children: Vec<Vec<usize>>,
}

/// The number of white entries.
pub open spec fn white_count(colors: Seq<VisitColor>) -> nat
    decreases colors.len(),
{
    if colors.len() == 0 {
        0
    } else {
        white_count(colors.drop_last()) + if colors.last() == VisitColor::White {
            1nat
        } else {
            0nat
        }
    }
}

/// Where no vertex turns white, the number of white vertices does not
/// grow.
pub proof fn lemma_white_count_le(a: Seq<VisitColor>, b: Seq<VisitColor>)
    requires
        a.len() == b.len(),
        forall|i: int| 0 <= i < a.len() && b[i] == VisitColor::White ==> a[i] == VisitColor::White,
    ensures
        white_count(b) <= white_count(a),
    decreases a.len(),
{
    if a.len() > 0 {
        lemma_white_count_le(a.drop_last(), b.drop_last());
    }
}

/// Where no vertex turns white and one stops being white, the number of
/// white vertices falls.
pub proof fn lemma_white_count_lt(a: Seq<VisitColor>, b: Seq<VisitColor>, v: int)
    requires
        a.len() == b.len(),
        forall|i: int| 0 <= i < a.len() && b[i] == VisitColor::White ==> a[i] == VisitColor::White,
        0 <= v < a.len(),
        a[v] == VisitColor::White,
        b[v] != VisitColor::White,
    ensures
        white_count(b) < white_count(a),
    decreases a.len(),
{
    if v == a.len() - 1 {
        lemma_white_count_le(a.drop_last(), b.drop_last());
    } else {
        lemma_white_count_lt(a.drop_last(), b.drop_last(), v);
    }
}

/// What the walk from `v` makes of the colours, and the vertices it visits
/// in the order of the visits: `v` turns gray and is visited; then for each
/// record of `v`, in order, a walk starts from its end if that is white;
/// in the end `v` turns black. The walk goes `fuel` vertices deep.
pub open spec fn walk(graph: &Graph, colors: Seq<VisitColor>, v: int, fuel: nat) -> (
    Seq<VisitColor>,
    Seq<usize>,
)
    decreases fuel, 0nat,
{
    if fuel == 0 {
        (colors, Seq::empty())
    } else {
        let below = walk_records(graph, colors.update(v, VisitColor::Gray), v, 0, (fuel - 1) as nat);
        (below.0.update(v, VisitColor::Black), seq![v as usize] + below.1)
    }
}

/// What the walks from the ends of the records of `v`, from record `k` on,
/// make of the colours, and the vertices they visit.
pub open spec fn walk_records(graph: &Graph, colors: Seq<VisitColor>, v: int, k: int, fuel: nat) -> (
    Seq<VisitColor>,
    Seq<usize>,
)
    decreases fuel, 1 + graph.adj()[v].len() - k,
{
    if k < 0 || k >= graph.adj()[v].len() {
        (colors, Seq::empty())
    } else {
        let to = graph.adj()[v][k].to as int;
        let first = if colors[to] == VisitColor::White {
            walk(graph, colors, to, fuel)
        } else {
            (colors, Seq::<usize>::empty())
        };
        let rest = walk_records(graph, first.0, v, k + 1, fuel);
        (rest.0, first.1 + rest.1)
    }
}

/// The fuel that a walk from `v` needs at most.
pub open spec fn enough_fuel(colors: Seq<VisitColor>, v: int, fuel: nat) -> bool {
    fuel > white_count(colors) + if colors[v] == VisitColor::White {
        0nat
    } else {
        1nat
    }
}

/// The colours before any walk.
pub open spec fn all_white_colors(n: int) -> Seq<VisitColor> {
    Seq::new(n as nat, |x: int| VisitColor::White)
}

/// What a whole walk from `v` makes of the colours, and the vertices it
/// visits in the order of the visits.
pub open spec fn whole_walk(graph: &Graph, colors: Seq<VisitColor>, v: int) -> (Seq<VisitColor>, Seq<usize>) {
    walk(graph, colors, v, colors.len() + 2)
}

/// Changing one entry changes the number of white entries by what that
/// entry adds or takes away.
pub proof fn lemma_white_count_update(c: Seq<VisitColor>, v: int, color: VisitColor)
    requires
        0 <= v < c.len(),
    ensures
        white_count(c.update(v, color)) + (if c[v] == VisitColor::White {
            1int
        } else {
            0int
        }) == white_count(c) + (if color == VisitColor::White {
            1int
        } else {
            0int
        }),
    decreases c.len(),
{
    let d = c.update(v, color);
    if v == c.len() - 1 {
        assert(d.drop_last() =~= c.drop_last());
    } else {
        assert(d.drop_last() =~= c.drop_last().update(v, color));
        lemma_white_count_update(c.drop_last(), v, color);
    }
}

/// Where every entry is white the count is the length; where none is, it
/// is zero.
pub proof fn lemma_white_count_all(c: Seq<VisitColor>)
    ensures
        (forall|x: int| 0 <= x < c.len() ==> c[x] == VisitColor::White) ==> white_count(c) == c.len(),
        (forall|x: int| 0 <= x < c.len() ==> c[x] != VisitColor::White) ==> white_count(c) == 0,
    decreases c.len(),
{
    if c.len() > 0 {
        lemma_white_count_all(c.drop_last());
    }
}

/// There are no more white vertices than vertices.
pub proof fn lemma_white_count_bound(colors: Seq<VisitColor>)
    ensures
        white_count(colors) <= colors.len(),
    decreases colors.len(),
{
    if colors.len() > 0 {
        lemma_white_count_bound(colors.drop_last());
    }
}

/// Entry `j` of `block` is reached by a record from an earlier entry.
pub open spec fn has_parent_in(graph: &Graph, block: Seq<usize>, j: int) -> bool {
    exists|i: int| 0 <= i < j && graph.has_edge(#[trigger] block[i] as int, block[j] as int)
}

/// No record that leaves `u` leads to a white vertex.
pub open spec fn settled(graph: &Graph, colors: Seq<VisitColor>, u: int) -> bool {
    forall|k: int|
        0 <= k < graph.adj()[u].len() ==> colors[(#[trigger] graph.adj()[u][k]).to as int]
            != VisitColor::White
}

/// `block` is what one walk from `v` visits, in the order of the visits, when
/// the colours are `before` at its start and `after` at its end: `v` first,
/// then vertices that were white, each reached by a record from an earlier
/// one; all of them black in the end, nothing else changed, and no record
/// from any of them leads to a vertex that is still white.
pub open spec fn is_sweep(
    graph: &Graph,
    before: Seq<VisitColor>,
    after: Seq<VisitColor>,
    v: int,
    block: Seq<usize>,
) -> bool {
    &&& block.len() > 0
    &&& block[0] == v
    &&& block.no_duplicates()
    &&& after.len() == before.len()
    &&& forall|j: int|
        0 < j < block.len() ==> (#[trigger] block[j]) < graph.order() && before[block[j] as int]
            == VisitColor::White
    &&& forall|j: int| 0 < j < block.len() ==> #[trigger] has_parent_in(graph, block, j)
    &&& forall|x: usize|
        x < after.len() ==> #[trigger] after[x as int] == (if block.contains(x) {
            VisitColor::Black
        } else {
            before[x as int]
        })
    &&& forall|j: int| 0 <= j < block.len() ==> settled(graph, after, #[trigger] block[j] as int)
}

/// What holds of a walk from `v` after the first `k` records of `v` have
/// been handled.
pub open spec fn sweep_partial(
    graph: &Graph,
    before: Seq<VisitColor>,
    now: Seq<VisitColor>,
    v: int,
    block: Seq<usize>,
    k: int,
) -> bool {
    &&& 0 <= v < graph.order()
    &&& before.len() == graph.order()
    &&& now.len() == graph.order()
    &&& block.len() > 0
    &&& block[0] == v
    &&& block.no_duplicates()
    &&& forall|j: int|
        0 < j < block.len() ==> (#[trigger] block[j]) < graph.order() && before[block[j] as int]
            == VisitColor::White
    &&& forall|j: int| 0 < j < block.len() ==> #[trigger] has_parent_in(graph, block, j)
    &&& now[v] == VisitColor::Gray
    &&& forall|x: usize|
        x < now.len() && x != v ==> #[trigger] now[x as int] == (if block.contains(x) {
            VisitColor::Black
        } else {
            before[x as int]
        })
    &&& forall|j: int| 0 < j < block.len() ==> settled(graph, now, #[trigger] block[j] as int)
    &&& forall|k1: int|
        0 <= k1 < k ==> now[(#[trigger] graph.adj()[v][k1]).to as int] != VisitColor::White
}

proof fn lemma_sweep_step(
    graph: &Graph,
    before: Seq<VisitColor>,
    mid: Seq<VisitColor>,
    after: Seq<VisitColor>,
    v: int,
    block: Seq<usize>,
    child: Seq<usize>,
    k: int,
)
    requires
        graph.wf(),
        sweep_partial(graph, before, mid, v, block, k),
        0 <= k < graph.adj()[v].len(),
        mid[graph.adj()[v][k].to as int] == VisitColor::White,
        is_sweep(graph, mid, after, graph.adj()[v][k].to as int, child),
    ensures
        sweep_partial(graph, before, after, v, block + child, k + 1),
{
    let to = graph.adj()[v][k].to;
    let all = block + child;
    assert(to < graph.order());
    assert forall|j: int| 0 <= j < child.len() implies (#[trigger] child[j]) < graph.order()
        && mid[child[j] as int] == VisitColor::White && child[j] != v && !block.contains(child[j])
        && before[child[j] as int] == VisitColor::White by {
        if j > 0 {
        }
    }
    assert forall|i: int, j: int| 0 <= i < block.len() && 0 <= j < child.len() implies block[i]
        != child[j] by {
        assert(block.contains(block[i]));
    }
    lemma_no_dup_in_concat(block, child);
    assert forall|j: int| 0 < j < all.len() implies #[trigger] has_parent_in(graph, all, j) by {
        if j < block.len() {
            assert(has_parent_in(graph, block, j));
            let i = choose|i: int| 0 <= i < j && graph.has_edge(#[trigger] block[i] as int, block[j] as int);
            assert(all[i] == block[i]);
            assert(all[j] == block[j]);
        } else if j == block.len() {
            assert(all[j] == child[0]);
            assert(all[0] == block[0]);
            assert(graph.has_edge(v, to as int));
        } else {
            let j1 = j - block.len();
            assert(has_parent_in(graph, child, j1));
            let i = choose|i: int| 0 <= i < j1 && graph.has_edge(#[trigger] child[i] as int, child[j1] as int);
            assert(all[i + block.len()] == child[i]);
            assert(all[j] == child[j1]);
        }
    }
    assert forall|x: usize| all.contains(x) <==> block.contains(x) || child.contains(x) by {
        if block.contains(x) {
            let i = block.index_of(x);
            assert(all[i] == x);
        }
        if child.contains(x) {
            let i = child.index_of(x);
            assert(all[i + block.len()] == x);
        }
        if all.contains(x) {
            let i = all.index_of(x);
            if i < block.len() {
                assert(block[i] == x);
            } else {
                assert(child[i - block.len()] == x);
            }
        }
    }
    assert(!child.contains(v as usize)) by {
        if child.contains(v as usize) {
            let i = child.index_of(v as usize);
            assert(child[i] != v);
        }
    }
    assert forall|j: int| 0 < j < all.len() implies settled(graph, after, #[trigger] all[j] as int) by {
        if j < block.len() {
            assert(settled(graph, mid, block[j] as int));
            assert(all[j] == block[j]);
        } else {
            assert(settled(graph, after, child[j - block.len()] as int));
            assert(all[j] == child[j - block.len()]);
        }
    }
    assert forall|j: int| 0 < j < all.len() implies (#[trigger] all[j]) < graph.order()
        && before[all[j] as int] == VisitColor::White by {
        if j < block.len() {
            assert(all[j] == block[j]);
        } else {
            assert(all[j] == child[j - block.len()]);
        }
    }
    assert(child.contains(to)) by {
        assert(child[0] == to);
    }
}

proof fn lemma_sweep_finish(
    graph: &Graph,
    before: Seq<VisitColor>,
    now: Seq<VisitColor>,
    v: int,
    block: Seq<usize>,
)
    requires
        graph.wf(),
        sweep_partial(graph, before, now, v, block, graph.adj()[v].len() as int),
    ensures
        is_sweep(graph, before, now.update(v, VisitColor::Black), v, block),
{
    let after = now.update(v, VisitColor::Black);
    assert(block.contains(v as usize)) by {
        assert(block[0] == v);
    }
    assert forall|j: int| 0 <= j < block.len() implies settled(
        graph,
        after,
        #[trigger] block[j] as int,
    ) by {
        if j > 0 {
            assert(settled(graph, now, block[j] as int));
        }
    }
}

impl DFSSpace {
    /// The space has one entry per vertex of `graph` in each of its lists.
    pub open spec fn fits(&self, graph: &Graph) -> bool {
        &&& self.visit_colors@.len() == graph.order()
        &&& self.t_in@.len() == graph.order()
        &&& self.t_out@.len() == graph.order()
        &&& self.children@.len() == graph.order()
    }

    /// No vertex has been visited.
    pub open spec fn all_white(&self) -> bool {
        forall|x: int| 0 <= x < self.visit_colors@.len() ==> self.visit_colors@[x] == VisitColor::White
    }

    /// No vertex has a child recorded.
    pub open spec fn no_children(&self) -> bool {
        forall|x: int| 0 <= x < self.children@.len() ==> (#[trigger] self.children@[x])@.len() == 0
    }

    /// The state in which a space is made, and to which `clear` returns it.
    pub open spec fn is_reset(&self) -> bool {
        &&& self.time == 0
        &&& self.all_white()
        &&& self.no_children()
        &&& forall|x: int| 0 <= x < self.t_in@.len() ==> self.t_in@[x] == 0
        &&& forall|x: int| 0 <= x < self.t_out@.len() ==> self.t_out@[x] == 0
    }

    /// A fresh space for `graph`.
    pub fn new(graph: &Graph) -> (space: Self)
        ensures
            space.fits(graph),
            space.is_reset(),
    {
        let n = graph.vertexes();
        DFSSpace {
            time: 0,
            visit_colors: filled(VisitColor::White, n),
            t_in: filled(0, n),
            t_out: filled(0, n),
            children: empty_lists(n),
        }
    }

    /// Returns the space to the state in which it was made.
    pub fn clear(&mut self)
        ensures
            final(self).is_reset(),
            final(self).visit_colors@.len() == old(self).visit_colors@.len(),
            final(self).t_in@.len() == old(self).t_in@.len(),
            final(self).t_out@.len() == old(self).t_out@.len(),
            final(self).children@.len() == old(self).children@.len(),
    {
        self.time = 0;
        self.visit_colors = filled(VisitColor::White, self.visit_colors.len());
        self.t_in = filled(0, self.t_in.len());
        self.t_out = filled(0, self.t_out.len());
        self.children = empty_lists(self.children.len());
    }

    /// Marks the given vertices as completely handled, so that later walks
    /// pass them by.
    pub fn ignore_vertexes(&mut self, vertexes: &[usize])
        requires
            forall|i: int| 0 <= i < vertexes@.len() ==> vertexes@[i] < old(self).visit_colors@.len(),
        ensures
            final(self).time == old(self).time,
            final(self).t_in == old(self).t_in,
            final(self).t_out == old(self).t_out,
            final(self).children == old(self).children,
            final(self).visit_colors@.len() == old(self).visit_colors@.len(),
            forall|x: usize|
                x < old(self).visit_colors@.len() ==> #[trigger] final(self).visit_colors@[x as int]
                    == (if vertexes@.contains(x) {
                    VisitColor::Black
                } else {
                    old(self).visit_colors@[x as int]
                }),
    {
        let count: usize = vertexes.len();
        let mut i: usize = 0;
        while i < count
            invariant
                i <= count,
                count == vertexes@.len(),
                forall|i1: int| 0 <= i1 < vertexes@.len() ==> vertexes@[i1] < self.visit_colors@.len(),
                self.time == old(self).time,
                self.t_in == old(self).t_in,
                self.t_out == old(self).t_out,
                self.children == old(self).children,
                self.visit_colors@.len() == old(self).visit_colors@.len(),
                forall|x: usize|
                    x < old(self).visit_colors@.len() ==> #[trigger] self.visit_colors@[x as int] == (
                    if vertexes@.take(i as int).contains(x) {
                        VisitColor::Black
                    } else {
                        old(self).visit_colors@[x as int]
                    }),
            decreases count - i,
        {
            let vertex: usize = vertexes[i];
            let ghost earlier = self.visit_colors@;
            self.visit_colors[vertex] = VisitColor::Black;
            proof {
                let short = vertexes@.take(i as int);
                let long = vertexes@.take(i + 1);
                assert(long =~= short.push(vertex));
                assert forall|x: usize| long.contains(x) <==> short.contains(x) || x == vertex by {
                    if short.contains(x) {
                        let j = short.index_of(x);
                        assert(long[j] == x);
                    }
                    if x == vertex {
                        assert(long[i as int] == x);
                    }
                    if long.contains(x) {
                        let j = long.index_of(x);
                        if j < i {
                            assert(short[j] == x);
                        }
                    }
                }
            }
            i += 1;
        }
        proof {
            assert(vertexes@.take(count as int) =~= vertexes@);
        }
    }

    /// Walks depth-first from `v`: marks `v` as on the current path, appends
    /// it to `visited`, walks from each white vertex that a record of `v`
    /// leads to, in the order of the records, and marks `v` as handled.
    pub fn dfs_preorder_with(&mut self, graph: &Graph, v: usize, visited: &mut Vec<usize>)
        requires
            graph.wf(),
            old(self).visit_colors@.len() == graph.order(),
            v < graph.order(),
        ensures
            final(self).time == old(self).time,
            final(self).t_in == old(self).t_in,
            final(self).t_out == old(self).t_out,
            final(self).children == old(self).children,
            final(visited)@.len() > old(visited)@.len(),
            final(visited)@.take(old(visited)@.len() as int) == old(visited)@,
            is_sweep(
                graph,
                old(self).visit_colors@,
                final(self).visit_colors@,
                v as int,
                final(visited)@.skip(old(visited)@.len() as int),
            ),
            forall|fuel: nat|
                enough_fuel(old(self).visit_colors@, v as int, fuel) ==> #[trigger] walk(
                    graph,
                    old(self).visit_colors@,
                    v as int,
                    fuel,
                ) == (final(self).visit_colors@, final(visited)@.skip(old(visited)@.len() as int)),
            whole_walk(graph, old(self).visit_colors@, v as int) == (
                final(self).visit_colors@,
                final(visited)@.skip(old(visited)@.len() as int),
            ),
        decreases
                white_count(old(self).visit_colors@),
                (if old(self).visit_colors@[v as int] == VisitColor::White {
                    0int
                } else {
                    1int
                }),
    {
        let ghost before = self.visit_colors@;
        let ghost start = visited@.len() as int;
        self.visit_colors[v] = VisitColor::Gray;
        visited.push(v);
        let degree: usize = graph.edges[v].len();
        let mut k: usize = 0;
        proof {
            let block = visited@.skip(start);
            assert(block =~= seq![v]);
            assert forall|x: usize| x != v implies !block.contains(x) by {
                if block.contains(x) {
                    let i = block.index_of(x);
                }
            }
            assert(block.no_duplicates());
            assert(self.visit_colors@ == before.update(v as int, VisitColor::Gray));
            assert(sweep_partial(graph, before, self.visit_colors@, v as int, block, 0));
        }
        proof {
            assert(visited@.skip(start + 1) =~= Seq::<usize>::empty());
            assert forall|fuel: nat| true implies #[trigger] walk_records(
                graph,
                before.update(v as int, VisitColor::Gray),
                v as int,
                0,
                fuel,
            ) == ({
                let rest = walk_records(graph, self.visit_colors@, v as int, 0, fuel);
                (rest.0, visited@.skip(start + 1) + rest.1)
            }) by {
                let rest = walk_records(graph, self.visit_colors@, v as int, 0, fuel);
                assert(visited@.skip(start + 1) + rest.1 =~= rest.1);
            }
        }
        while k < degree
            invariant
                graph.wf(),
                k <= degree,
                degree == graph.adj()[v as int].len(),
                v < graph.order(),
                before == old(self).visit_colors@,
                start == old(visited)@.len(),
                self.time == old(self).time,
                self.t_in == old(self).t_in,
                self.t_out == old(self).t_out,
                self.children == old(self).children,
                visited@.len() > start,
                visited@.take(start) == old(visited)@,
                sweep_partial(graph, before, self.visit_colors@, v as int, visited@.skip(start), k as int),
                forall|fuel: nat|
                    fuel >= white_count(before.update(v as int, VisitColor::Gray)) + 1 ==> #[trigger] walk_records(
                        graph,
                        before.update(v as int, VisitColor::Gray),
                        v as int,
                        0,
                        fuel,
                    ) == ({
                        let rest = walk_records(graph, self.visit_colors@, v as int, k as int, fuel);
                        (rest.0, visited@.skip(start + 1) + rest.1)
                    }),
            decreases degree - k,
        {
            let to: usize = graph.edges[v][k].to;
            assert(to == graph.adj()[v as int][k as int].to);
            let ghost here = self.visit_colors@;
            let ghost seen = visited@.skip(start + 1);
            if self.visit_colors[to] == VisitColor::White {
                let ghost mid = self.visit_colors@;
                let ghost block = visited@.skip(start);
                let ghost mark = visited@.len() as int;
                proof {
                    assert forall|i: int|
                        0 <= i < before.len() && mid[i] == VisitColor::White implies before[i]
                        == VisitColor::White by {
                        assert(self.visit_colors@.len() == self.visit_colors.len());
                        let x = i as usize;
                        assert(mid[x as int] == VisitColor::White);
                    }
                    if before[v as int] == VisitColor::White {
                        lemma_white_count_lt(before, mid, v as int);
                    } else {
                        lemma_white_count_le(before, mid);
                    }
                }
                self.dfs_preorder_with(graph, to, visited);
                proof {
                    let child = visited@.skip(mark);
                    lemma_sweep_step(graph, before, mid, self.visit_colors@, v as int, block, child, k as int);
                    assert(visited@.skip(start) =~= block + child) by {
                        assert(visited@.take(mark) == old(visited)@ + block) by {
                            assert(visited@.take(mark).take(start) =~= visited@.take(start));
                        }
                    }
                    assert(visited@.take(start) =~= visited@.take(mark).take(start));
                    // the walk goes on as the records say
                    assert forall|i: int| 0 <= i < before.len() && mid[i] == VisitColor::White implies before.update(
                        v as int,
                        VisitColor::Gray,
                    )[i] == VisitColor::White by {
                        assert(before[i] == VisitColor::White);
                        assert(mid[v as int] != VisitColor::White);
                    }
                    lemma_white_count_le(before.update(v as int, VisitColor::Gray), mid);
                    assert(visited@.skip(start + 1) =~= seen + child);
                    assert forall|fuel: nat|
                        fuel >= white_count(before.update(v as int, VisitColor::Gray)) + 1 implies #[trigger] walk_records(
                        graph,
                        before.update(v as int, VisitColor::Gray),
                        v as int,
                        0,
                        fuel,
                    ) == ({
                        let rest = walk_records(graph, self.visit_colors@, v as int, k + 1, fuel);
                        (rest.0, visited@.skip(start + 1) + rest.1)
                    }) by {
                        assert(enough_fuel(mid, to as int, fuel));
                        assert(walk(graph, mid, to as int, fuel) == (self.visit_colors@, child));
                        let rest = walk_records(graph, self.visit_colors@, v as int, k + 1, fuel);
                        assert(seen + (child + rest.1) =~= (seen + child) + rest.1);
                    }
                }
            } else {
                proof {
                    assert forall|fuel: nat|
                        fuel >= white_count(before.update(v as int, VisitColor::Gray)) + 1 implies #[trigger] walk_records(
                        graph,
                        before.update(v as int, VisitColor::Gray),
                        v as int,
                        0,
                        fuel,
                    ) == ({
                        let rest = walk_records(graph, self.visit_colors@, v as int, k + 1, fuel);
                        (rest.0, visited@.skip(start + 1) + rest.1)
                    }) by {
                        let rest = walk_records(graph, here, v as int, k + 1, fuel);
                        assert(Seq::<usize>::empty() + rest.1 =~= rest.1);
                    }
                }
            }
            k += 1;
        }
        proof {
            lemma_sweep_finish(graph, before, self.visit_colors@, v as int, visited@.skip(start));
        }
        let ghost last = self.visit_colors@;
        self.visit_colors[v] = VisitColor::Black;
        proof {
            lemma_white_count_update(before, v as int, VisitColor::Gray);
            lemma_white_count_bound(before);
            assert forall|fuel: nat| enough_fuel(before, v as int, fuel) implies #[trigger] walk(
                graph,
                before,
                v as int,
                fuel,
            ) == (self.visit_colors@, visited@.skip(start)) by {
                let g = (fuel - 1) as nat;
                let below = walk_records(graph, before.update(v as int, VisitColor::Gray), v as int, 0, g);
                let rest = walk_records(graph, last, v as int, degree as int, g);
                assert(visited@.skip(start + 1) + rest.1 =~= visited@.skip(start + 1));
                assert(seq![v] + visited@.skip(start + 1) =~= visited@.skip(start));
            }
            assert(enough_fuel(before, v as int, (before.len() + 2) as nat));
        }
    }
}

} // verus!
