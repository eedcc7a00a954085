//! An undirected weighted graph in adjacency lists, with traversals, shortest paths and
//! minimum spanning trees.
//!
//! Vertices are numbered from 0. Weights are unsigned integers; `u64::MAX` stands for "no
//! path", and sums of weights stop there.

use distance::is_undirected;
use vstd::prelude::*;

pub mod distance;
pub mod lightest;
pub mod spanning;
pub mod traversal;

verus! {

/// One direction of an edge: where it leads, and its weight.
#[derive(Clone, Copy, Debug, PartialEq, Eq, Structural)]
pub struct Edge {
    pub to: usize,
    pub weight: u64,
}

/// A graph on the vertices `0..vertices`. `adjacency_list[v]` holds the edges that leave
/// `v`, in the order in which they were added.
#[derive(Debug)]
pub struct Graph {
    pub vertices: usize,
    pub adjacency_list: Vec<Vec<Edge>>,
}

/// The edges that leave each vertex, as sequences.
pub open spec fn lists(adjacency_list: Seq<Vec<Edge>>) -> Seq<Seq<Edge>> {
    Seq::new(adjacency_list.len(), |v: int| adjacency_list[v]@)
}

/// The weight of the last edge of `list` that leads to `to`, or `u64::MAX` if none does.
pub open spec fn direct(list: Seq<Edge>, to: usize) -> u64
    decreases list.len(),
{
    if list.len() == 0 {
        u64::MAX
    } else if list.last().to == to {
        list.last().weight
    } else {
        direct(list.drop_last(), to)
    }
}

/// Between every two vertices, the last edge one way and the last edge the other way
/// weigh the same.
pub open spec fn is_mirrored(adjacency: Seq<Seq<Edge>>) -> bool {
    forall|a: int, b: int|
        0 <= a < adjacency.len() && 0 <= b < adjacency.len() ==> #[trigger] direct(
            adjacency[a],
            b as usize,
        ) == #[trigger] direct(adjacency[b], a as usize)
}

/// What an edge more at the end of a list does to the weights of the last edges.
pub(crate) proof fn lemma_direct_after_push(list: Seq<Edge>, edge: Edge, to: usize)
    ensures
        direct(list.push(edge), to) == if edge.to == to {
            edge.weight
        } else {
            direct(list, to)
        },
{
    assert(list.push(edge).drop_last() =~= list);
}

/// An edge more, with the edge back, keeps an undirected graph undirected.
proof fn lemma_undirected_after_edge(
    before: Seq<Seq<Edge>>,
    after: Seq<Seq<Edge>>,
    from: usize,
    to: usize,
    weight: u64,
)
    requires
        is_undirected(before),
        from < before.len(),
        to < before.len(),
        after == before.update(from as int, before[from as int].push(Edge { to, weight })).update(
            to as int,
            before.update(from as int, before[from as int].push(Edge { to, weight }))[to as int].push(
                Edge { to: from, weight },
            ),
        ),
    ensures
        is_undirected(after),
{
    let there = Edge { to, weight };
    let back = Edge { to: from, weight };
    let between = before.update(from as int, before[from as int].push(there));
    assert(after[to as int] == between[to as int].push(back));
    assert(after[to as int][between[to as int].len() as int] == back);
    assert(after[to as int].contains(back));
    assert(after[from as int].contains(there)) by {
        if from == to {
            assert(after[from as int][before[from as int].len() as int] == there);
        } else {
            assert(after[from as int] == before[from as int].push(there));
            assert(after[from as int][before[from as int].len() as int] == there);
        }
    }
    assert forall|v: int, i: int| 0 <= v < after.len() && 0 <= i < after[v].len() implies (
    #[trigger] after[v][i]).to < after.len() && after[after[v][i].to as int].contains(
        Edge { to: v as usize, weight: after[v][i].weight },
    ) by {
        let edge = after[v][i];
        if i < before[v].len() {
            assert(edge == before[v][i]);
            let mirror = Edge { to: v as usize, weight: edge.weight };
            assert(before[edge.to as int].contains(mirror));
            let j = choose|j: int| 0 <= j < before[edge.to as int].len() && before[edge.to as int][j] == mirror;
            assert(after[edge.to as int][j] == mirror);
        }
    }
}

/// A graph that is well formed fits its number of vertices.
pub proof fn lemma_well_formed_fits(graph: Graph)
    requires
        graph.well_formed(),
    ensures
        fits(graph.adjacency(), graph.vertices as int),
{
    let adjacency = graph.adjacency();
    assert forall|v: int, i: int| 0 <= v < graph.vertices && 0 <= i < adjacency[v].len() implies (
    #[trigger] adjacency[v][i]).to < graph.vertices by {
        assert(adjacency[v][i] == graph.adjacency_list[v][i]);
    }
}

/// An edge more, with the edge back, keeps a mirrored graph mirrored.
proof fn lemma_mirrored_after_edge(
    before: Seq<Seq<Edge>>,
    after: Seq<Seq<Edge>>,
    from: usize,
    to: usize,
    weight: u64,
)
    requires
        is_mirrored(before),
        before.len() <= usize::MAX,
        from < before.len(),
        to < before.len(),
        after == before.update(from as int, before[from as int].push(Edge { to, weight })).update(
            to as int,
            before.update(from as int, before[from as int].push(Edge { to, weight }))[to as int].push(
                Edge { to: from, weight },
            ),
        ),
    ensures
        is_mirrored(after),
{
    let there = Edge { to, weight };
    let back = Edge { to: from, weight };
    let between = before.update(from as int, before[from as int].push(there));
    assert forall|a: int, b: int| 0 <= a < after.len() && 0 <= b < after.len() implies #[trigger] direct(
        after[a],
        b as usize,
    ) == #[trigger] direct(after[b], a as usize) by {
        assert(direct(before[a], b as usize) == direct(before[b], a as usize));
        lemma_direct_after_push(before[from as int], there, b as usize);
        lemma_direct_after_push(before[from as int], there, a as usize);
        lemma_direct_after_push(between[to as int], back, b as usize);
        lemma_direct_after_push(between[to as int], back, a as usize);
    }
}

/// The graph's lists match the vectors, and every edge leads to a vertex.
pub open spec fn fits(adjacency: Seq<Seq<Edge>>, vertices: int) -> bool {
    &&& vertices <= usize::MAX
    &&& adjacency.len() == vertices
    &&& forall|v: int, i: int|
        0 <= v < vertices && 0 <= i < adjacency[v].len() ==> (#[trigger] adjacency[v][i]).to
            < vertices
}

/// `visited` marks exactly the vertices of `order`.
pub(crate) open spec fn marks(visited: Seq<bool>, order: Seq<usize>) -> bool {
    &&& forall|v: int| 0 <= v < visited.len() && #[trigger] visited[v] ==> order.contains(v as usize)
    &&& forall|k: int|
        0 <= k < order.len() ==> (#[trigger] order[k]) < visited.len() && visited[order[k] as int]
}

/// The number of vertices that `visited` does not mark.
pub(crate) open spec fn unmarked(visited: Seq<bool>) -> nat
    decreases visited.len(),
{
    if visited.len() == 0 {
        0
    } else {
        unmarked(visited.drop_last()) + if visited.last() {
            0nat
        } else {
            1nat
        }
    }
}

pub(crate) proof fn lemma_mark_one(visited: Seq<bool>, v: int)
    requires
        0 <= v < visited.len(),
        !visited[v],
    ensures
        unmarked(visited.update(v, true)) == unmarked(visited) - 1,
    decreases visited.len(),
{
    let after = visited.update(v, true);
    if v == visited.len() - 1 {
        assert(after.drop_last() =~= visited.drop_last());
    } else {
        lemma_mark_one(visited.drop_last(), v);
        assert(after.drop_last() =~= visited.drop_last().update(v, true));
    }
}

/// Marking a vertex as it is added to the vertices seen.
pub(crate) proof fn lemma_marks_one_more(visited: Seq<bool>, seen: Seq<usize>, to: usize)
    requires
        marks(visited, seen),
        to < visited.len(),
        !visited[to as int],
    ensures
        marks(visited.update(to as int, true), seen.push(to)),
        !seen.contains(to),
        unmarked(visited.update(to as int, true)) == unmarked(visited) - 1,
{
    let found = seen.push(to);
    let after = visited.update(to as int, true);
    lemma_mark_one(visited, to as int);
    if seen.contains(to) {
        let k = choose|k: int| 0 <= k < seen.len() && seen[k] == to;
        assert(visited[seen[k] as int]);
    }
    assert forall|v: int| 0 <= v < after.len() && #[trigger] after[v] implies found.contains(
        v as usize,
    ) by {
        if v == to {
            assert(found[seen.len() as int] == to);
        } else {
            assert(visited[v]);
            let k = choose|k: int| 0 <= k < seen.len() && seen[k] == v as usize;
            assert(found[k] == v as usize);
        }
    }
    assert forall|k: int| 0 <= k < found.len() implies (#[trigger] found[k]) < after.len()
        && after[found[k] as int] by {
        if k < seen.len() {
            assert(found[k] == seen[k]);
        }
    }
}

impl Graph {
    /// Every list of edges belongs to a vertex, and every edge leads to a vertex.
    pub open spec fn well_formed(&self) -> bool {
        &&& self.adjacency_list.len() == self.vertices
        &&& forall|v: int, i: int|
            0 <= v < self.adjacency_list.len() && 0 <= i < self.adjacency_list[v].len() ==> (
            #[trigger] self.adjacency_list[v][i]).to < self.vertices
    }

    /// The edges that leave each vertex.
    pub open spec fn adjacency(&self) -> Seq<Seq<Edge>> {
        lists(self.adjacency_list@)
    }

    /// A graph of `vertices` vertices and no edges.
    pub fn new(vertices: usize) -> (graph: Self)
        ensures
            graph.well_formed(),
            graph.vertices == vertices,
            forall|v: int| 0 <= v < vertices ==> (#[trigger] graph.adjacency_list[v]).len() == 0,
            is_mirrored(graph.adjacency()),
            is_undirected(graph.adjacency()),
    {
        let mut adjacency_list: Vec<Vec<Edge>> = Vec::new();
        let mut v: usize = 0;
        while v < vertices
            invariant
                v <= vertices,
                adjacency_list.len() == v,
                forall|u: int| 0 <= u < v ==> (#[trigger] adjacency_list[u]).len() == 0,
            decreases vertices - v,
        {
            adjacency_list.push(Vec::new());
            v += 1;
        }
        Graph { vertices, adjacency_list }
    }

    /// Adds an edge between `from` and `to`: one entry in the list of each, at its end.
    pub fn add_edge(&mut self, from: usize, to: usize, weight: u64)
        requires
            old(self).well_formed(),
            from < old(self).vertices,
            to < old(self).vertices,
        ensures
            final(self).well_formed(),
            final(self).vertices == old(self).vertices,
            final(self).adjacency() == old(self).adjacency().update(
                from as int,
                old(self).adjacency()[from as int].push(Edge { to, weight }),
            ).update(
                to as int,
                old(self).adjacency().update(
                    from as int,
                    old(self).adjacency()[from as int].push(Edge { to, weight }),
                )[to as int].push(Edge { to: from, weight }),
            ),
            is_mirrored(old(self).adjacency()) ==> is_mirrored(final(self).adjacency()),
            is_undirected(old(self).adjacency()) ==> is_undirected(final(self).adjacency()),
    {
        let ghost before = self.adjacency();
        let list = &mut self.adjacency_list[from];
        list.push(Edge { to, weight });
        let ghost between = self.adjacency();
        proof {
            assert(between =~= before.update(
                from as int,
                before[from as int].push(Edge { to, weight }),
            ));
        }
        let list = &mut self.adjacency_list[to];
        list.push(Edge { to: from, weight });
        proof {
            assert(self.adjacency() =~= between.update(
                to as int,
                between[to as int].push(Edge { to: from, weight }),
            ));
            if is_mirrored(before) {
                lemma_mirrored_after_edge(before, self.adjacency(), from, to, weight);
            }
            if is_undirected(before) {
                lemma_undirected_after_edge(before, self.adjacency(), from, to, weight);
            }
            assert forall|v: int, i: int|
                0 <= v < self.adjacency_list.len() && 0 <= i
                    < self.adjacency_list[v].len() implies (#[trigger] self.adjacency_list[v][i]).to
                < self.vertices by {
                assert(self.adjacency()[v][i] == self.adjacency_list[v][i]);
                if v == to && i == self.adjacency_list[v].len() - 1 {
                } else if v == from && i == between[v].len() - 1 {
                    assert(between[v][i] == Edge { to, weight });
                } else {
                    assert(before[v][i] == old(self).adjacency_list[v][i]);
                }
            }
        }
    }
}

impl Clone for Graph {
    /// A graph with the same vertices and the same edges in the same order.
    fn clone(&self) -> (copy: Self)
        ensures
            copy.vertices == self.vertices,
            copy.adjacency() == self.adjacency(),
            self.well_formed() ==> copy.well_formed(),
    {
        let mut adjacency_list: Vec<Vec<Edge>> = Vec::new();
        let mut v: usize = 0;
        while v < self.adjacency_list.len()
            invariant
                v <= self.adjacency_list.len(),
                adjacency_list.len() == v,
                forall|u: int| 0 <= u < v ==> (#[trigger] adjacency_list[u])@ == self.adjacency_list[u]@,
            decreases self.adjacency_list.len() - v,
        {
            let mut list: Vec<Edge> = Vec::new();
            let mut i: usize = 0;
            while i < self.adjacency_list[v].len()
                invariant
                    v < self.adjacency_list.len(),
                    i <= self.adjacency_list[v as int].len(),
                    list@ == self.adjacency_list[v as int]@.take(i as int),
                decreases self.adjacency_list[v as int].len() - i,
            {
                list.push(self.adjacency_list[v][i]);
                proof {
                    assert(list@ =~= self.adjacency_list[v as int]@.take(i + 1));
                }
                i += 1;
            }
            proof {
                assert(list@ =~= self.adjacency_list[v as int]@);
            }
            adjacency_list.push(list);
            v += 1;
        }
        let copy = Graph { vertices: self.vertices, adjacency_list };
        proof {
            assert(copy.adjacency() =~= self.adjacency());
            if self.well_formed() {
                assert forall|v: int, i: int|
                    0 <= v < copy.adjacency_list.len() && 0 <= i
                        < copy.adjacency_list[v].len() implies (#[trigger] copy.adjacency_list[v][i]).to
                    < copy.vertices by {
                    assert(copy.adjacency_list[v]@ == self.adjacency_list[v]@);
                    assert(copy.adjacency_list[v][i] == self.adjacency_list[v][i]);
                }
            }
        }
        copy
    }
}

} // verus!
