//! Minimum spanning trees: by Kruskal's algorithm, with sets of vertices kept as trees that
//! are joined by rank, and by Prim's algorithm, with a heap of the edges that lead out of
//! the tree.

use super::{fits, lemma_marks_one_more, marks, unmarked, Edge, Graph};
use crate::order::{lemma_triples_are_ordered, less_eq};
use crate::priority_queue::{is_greatest, PriorityQueue};
use vstd::multiset::Multiset;
use vstd::prelude::*;

verus! {

/// The edge joins the vertices `a` and `b`.
pub open spec fn joins<W>(edge: (usize, usize, W), a: usize, b: usize) -> bool {
    (edge.0 == a && edge.1 == b) || (edge.0 == b && edge.1 == a)
}

/// The edge `i` of `edges` joins `a` and `b`.
pub open spec fn hop<W>(edges: Seq<(usize, usize, W)>, i: int, a: usize, b: usize) -> bool {
    0 <= i < edges.len() && joins(edges[i], a, b)
}

/// A chain of at most `steps` of the edges `edges` leads from `a` to `b`.
pub open spec fn linked<W>(edges: Seq<(usize, usize, W)>, a: usize, b: usize, steps: nat) -> bool
    decreases steps,
{
    ||| a == b
    ||| steps > 0 && exists|via: usize, i: int|
        #![trigger hop(edges, i, via, b)]
        linked(edges, a, via, (steps - 1) as nat) && hop(edges, i, via, b)
}

/// Some chain of the edges `edges` leads from `a` to `b`.
pub open spec fn connected<W>(edges: Seq<(usize, usize, W)>, a: usize, b: usize) -> bool {
    exists|steps: nat| linked(edges, a, b, steps)
}

/// Of the edges in the list of `from`, those that lead to a vertex of a greater number, as
/// triples of the two ends and the weight, in the order of the list.
pub open spec fn forward_edges(list: Seq<Edge>, from: usize) -> Seq<(usize, usize, u64)>
    decreases list.len(),
{
    if list.len() == 0 {
        Seq::empty()
    } else {
        let earlier = forward_edges(list.drop_last(), from);
        if from < list.last().to {
            earlier.push((from, list.last().to, list.last().weight))
        } else {
            earlier
        }
    }
}

/// The edges between the first `upto` vertices and vertices of greater numbers: every edge
/// that is no loop, once, in the order of the lists.
pub open spec fn edges_once(adjacency: Seq<Seq<Edge>>, upto: int) -> Seq<(usize, usize, u64)>
    decreases upto,
{
    if upto <= 0 {
        Seq::empty()
    } else {
        edges_once(adjacency, upto - 1) + forward_edges(adjacency[upto - 1], (upto - 1) as usize)
    }
}

/// `output` is `input` in ascending order of weight, with edges of equal weight in the order
/// that they have in `input`: `origin[i]` is the place in `input` of the edge `output[i]`.
pub open spec fn sorted_from(
    input: Seq<(usize, usize, u64)>,
    output: Seq<(usize, usize, u64)>,
    origin: Seq<int>,
) -> bool {
    &&& output.len() == input.len()
    &&& origin.len() == input.len()
    &&& forall|i: int|
        0 <= i < output.len() ==> 0 <= #[trigger] origin[i] < input.len() && output[i]
            == input[origin[i]]
    &&& forall|i: int, j: int|
        0 <= i < j < output.len() ==> (#[trigger] output[i]).2 < (#[trigger] output[j]).2 || (
        output[i].2 == output[j].2 && origin[i] < origin[j])
}

/// `output` is `input` in ascending order of weight, with edges of equal weight in the order
/// that they have in `input`.
pub open spec fn sorted_stably(
    input: Seq<(usize, usize, u64)>,
    output: Seq<(usize, usize, u64)>,
) -> bool {
    exists|origin: Seq<int>| sorted_from(input, output, origin)
}

/// The edges that are picked when the edges `edges` are taken in turn and each is picked
/// that joins two vertices which the edges picked before it do not connect.
pub open spec fn greedy_forest<W>(edges: Seq<(usize, usize, W)>) -> Seq<(usize, usize, W)>
    decreases edges.len(),
{
    if edges.len() == 0 {
        Seq::empty()
    } else {
        let before = greedy_forest(edges.drop_last());
        if connected(before, edges.last().0, edges.last().1) {
            before
        } else {
            before.push(edges.last())
        }
    }
}

proof fn lemma_linked_longer<W>(edges: Seq<(usize, usize, W)>, a: usize, b: usize, steps: nat, more: nat)
    requires
        linked(edges, a, b, steps),
        steps <= more,
    ensures
        linked(edges, a, b, more),
    decreases steps,
{
    if a != b {
        let (via, i) = choose|via: usize, i: int|
            #![trigger hop(edges, i, via, b)]
            linked(edges, a, via, (steps - 1) as nat) && hop(edges, i, via, b);
        lemma_linked_longer(edges, a, via, (steps - 1) as nat, (more - 1) as nat);
        assert(hop(edges, i, via, b));
    }
}

proof fn lemma_linked_join<W>(
    edges: Seq<(usize, usize, W)>,
    a: usize,
    b: usize,
    c: usize,
    first: nat,
    second: nat,
)
    requires
        linked(edges, a, b, first),
        linked(edges, b, c, second),
    ensures
        linked(edges, a, c, first + second),
    decreases second,
{
    if b == c {
        lemma_linked_longer(edges, a, b, first, first + second);
    } else {
        let (via, i) = choose|via: usize, i: int|
            #![trigger hop(edges, i, via, c)]
            linked(edges, b, via, (second - 1) as nat) && hop(edges, i, via, c);
        lemma_linked_join(edges, a, b, via, first, (second - 1) as nat);
        assert(hop(edges, i, via, c));
    }
}

proof fn lemma_linked_back<W>(edges: Seq<(usize, usize, W)>, a: usize, b: usize, steps: nat)
    requires
        linked(edges, a, b, steps),
    ensures
        linked(edges, b, a, steps),
    decreases steps,
{
    if a != b {
        let (via, i) = choose|via: usize, i: int|
            #![trigger hop(edges, i, via, b)]
            linked(edges, a, via, (steps - 1) as nat) && hop(edges, i, via, b);
        lemma_linked_back(edges, a, via, (steps - 1) as nat);
        assert(hop(edges, i, b, via));
        assert(linked(edges, b, b, 0));
        assert(linked(edges, b, via, 1));
        lemma_linked_join(edges, b, via, a, 1, (steps - 1) as nat);
    }
}

/// Being connected is symmetric and transitive.
pub proof fn lemma_connected_is_equivalence<W>(edges: Seq<(usize, usize, W)>, a: usize, b: usize, c: usize)
    ensures
        connected(edges, a, a),
        connected(edges, a, b) ==> connected(edges, b, a),
        connected(edges, a, b) && connected(edges, b, c) ==> connected(edges, a, c),
{
    assert(linked(edges, a, a, 0));
    if connected(edges, a, b) {
        let n = choose|n: nat| linked(edges, a, b, n);
        lemma_linked_back(edges, a, b, n);
        if connected(edges, b, c) {
            let m = choose|m: nat| linked(edges, b, c, m);
            lemma_linked_join(edges, a, b, c, n, m);
        }
    }
}

proof fn lemma_linked_with_more<W>(
    edges: Seq<(usize, usize, W)>,
    edge: (usize, usize, W),
    a: usize,
    b: usize,
    steps: nat,
)
    requires
        linked(edges, a, b, steps),
    ensures
        linked(edges.push(edge), a, b, steps),
    decreases steps,
{
    if a != b {
        let (via, i) = choose|via: usize, i: int|
            #![trigger hop(edges, i, via, b)]
            linked(edges, a, via, (steps - 1) as nat) && hop(edges, i, via, b);
        lemma_linked_with_more(edges, edge, a, via, (steps - 1) as nat);
        assert(hop(edges.push(edge), i, via, b));
    }
}

proof fn lemma_linked_through_new<W>(
    edges: Seq<(usize, usize, W)>,
    edge: (usize, usize, W),
    a: usize,
    b: usize,
    steps: nat,
)
    requires
        linked(edges.push(edge), a, b, steps),
    ensures
        connected(edges, a, b) || (connected(edges, a, edge.0) && connected(edges, edge.1, b)) || (
        connected(edges, a, edge.1) && connected(edges, edge.0, b)),
    decreases steps,
{
    let all = edges.push(edge);
    if a == b {
        assert(linked(edges, a, b, 0));
    } else {
        let (via, i) = choose|via: usize, i: int|
            #![trigger hop(all, i, via, b)]
            linked(all, a, via, (steps - 1) as nat) && hop(all, i, via, b);
        lemma_linked_through_new(edges, edge, a, via, (steps - 1) as nat);
        lemma_connected_is_equivalence(edges, b, b, b);
        if i < edges.len() {
            assert(hop(edges, i, via, b));
            assert(linked(edges, via, via, 0));
            assert(linked(edges, via, b, 1));
            assert(connected(edges, via, b));
            lemma_connected_is_equivalence(edges, a, via, b);
            lemma_connected_is_equivalence(edges, edge.1, via, b);
            lemma_connected_is_equivalence(edges, edge.0, via, b);
        } else {
            assert(all[i] == edge);
            if connected(edges, a, via) {
            } else if connected(edges, a, edge.0) && connected(edges, edge.1, via) {
                lemma_connected_is_equivalence(edges, b, edge.1, a);
                lemma_connected_is_equivalence(edges, a, edge.0, b);
            } else {
                lemma_connected_is_equivalence(edges, b, edge.0, a);
                lemma_connected_is_equivalence(edges, a, edge.1, b);
            }
        }
    }
}

/// What one more edge connects: what was connected, and what was connected to its two ends.
pub proof fn lemma_connected_with_more<W>(
    edges: Seq<(usize, usize, W)>,
    edge: (usize, usize, W),
    a: usize,
    b: usize,
)
    ensures
        connected(edges.push(edge), a, b) <==> connected(edges, a, b) || (connected(
            edges,
            a,
            edge.0,
        ) && connected(edges, edge.1, b)) || (connected(edges, a, edge.1) && connected(
            edges,
            edge.0,
            b,
        )),
{
    let all = edges.push(edge);
    if connected(all, a, b) {
        let n = choose|n: nat| linked(all, a, b, n);
        lemma_linked_through_new(edges, edge, a, b, n);
    }
    assert(hop(all, edges.len() as int, edge.0, edge.1));
    assert(hop(all, edges.len() as int, edge.1, edge.0));
    assert(linked(all, edge.0, edge.0, 0));
    assert(linked(all, edge.1, edge.1, 0));
    assert(linked(all, edge.0, edge.1, 1));
    assert(linked(all, edge.1, edge.0, 1));
    if connected(edges, a, b) {
        let n = choose|n: nat| linked(edges, a, b, n);
        lemma_linked_with_more(edges, edge, a, b, n);
    }
    if connected(edges, a, edge.0) && connected(edges, edge.1, b) {
        let n = choose|n: nat| linked(edges, a, edge.0, n);
        let m = choose|m: nat| linked(edges, edge.1, b, m);
        lemma_linked_with_more(edges, edge, a, edge.0, n);
        lemma_linked_with_more(edges, edge, edge.1, b, m);
        lemma_linked_join(all, a, edge.0, edge.1, n, 1);
        lemma_linked_join(all, a, edge.1, b, n + 1, m);
    }
    if connected(edges, a, edge.1) && connected(edges, edge.0, b) {
        let n = choose|n: nat| linked(edges, a, edge.1, n);
        let m = choose|m: nat| linked(edges, edge.0, b, m);
        lemma_linked_with_more(edges, edge, a, edge.1, n);
        lemma_linked_with_more(edges, edge, edge.0, b, m);
        lemma_linked_join(all, a, edge.1, edge.0, n, 1);
        lemma_linked_join(all, a, edge.0, b, n + 1, m);
    }
}

/// Without edges, a vertex is linked to itself only.
proof fn lemma_linked_needs_edges<W>(edges: Seq<(usize, usize, W)>, a: usize, b: usize, steps: nat)
    requires
        edges.len() == 0,
        linked(edges, a, b, steps),
    ensures
        a == b,
{
}

/// The forest that is picked connects what the edges connect.
pub proof fn lemma_forest_spans<W>(edges: Seq<(usize, usize, W)>, a: usize, b: usize)
    ensures
        connected(greedy_forest(edges), a, b) <==> connected(edges, a, b),
    decreases edges.len(),
{
    if edges.len() == 0 {
        assert(greedy_forest(edges) =~= edges);
    } else {
        let init = edges.drop_last();
        let last = edges.last();
        let before = greedy_forest(init);
        assert(edges =~= init.push(last));
        lemma_forest_spans(init, a, b);
        lemma_forest_spans(init, a, last.0);
        lemma_forest_spans(init, a, last.1);
        lemma_forest_spans(init, last.0, b);
        lemma_forest_spans(init, last.1, b);
        lemma_forest_spans(init, last.0, last.1);
        lemma_connected_with_more(init, last, a, b);
        if connected(before, last.0, last.1) {
            lemma_connected_is_equivalence(init, a, last.0, last.1);
            lemma_connected_is_equivalence(init, a, last.1, last.0);
            lemma_connected_is_equivalence(init, last.0, last.1, last.0);
            lemma_connected_is_equivalence(init, a, last.0, b);
            lemma_connected_is_equivalence(init, a, last.1, b);
        } else {
            lemma_connected_with_more(before, last, a, b);
        }
    }
}

/// Every vertex points to a vertex, and to one of a higher rank unless it points to itself.
spec fn ranked(parent: Seq<usize>, rank: Seq<usize>) -> bool {
    &&& parent.len() == rank.len()
    &&& forall|x: int|
        0 <= x < parent.len() ==> (#[trigger] parent[x]) < parent.len() && (parent[x] == x
            || rank[x] < rank[parent[x] as int])
}

/// The vertex that stands for the set of `x`: where the pointers lead from `x`.
spec fn root(parent: Seq<usize>, rank: Seq<usize>, x: int) -> int
    decreases usize::MAX - rank[x],
    when ranked(parent, rank) && 0 <= x < parent.len()
{
    if parent[x] == x {
        x
    } else {
        root(parent, rank, parent[x] as int)
    }
}

proof fn lemma_root(parent: Seq<usize>, rank: Seq<usize>, x: int)
    requires
        ranked(parent, rank),
        0 <= x < parent.len(),
    ensures
        0 <= root(parent, rank, x) < parent.len(),
        parent[root(parent, rank, x)] == root(parent, rank, x),
        rank[x] <= rank[root(parent, rank, x)],
        parent[x] != x ==> rank[x] < rank[root(parent, rank, x)],
        root(parent, rank, parent[x] as int) == root(parent, rank, x),
    decreases usize::MAX - rank[x],
{
    if parent[x] != x {
        lemma_root(parent, rank, parent[x] as int);
    }
}

/// The roots do not depend on the ranks, as long as the ranks are in order.
proof fn lemma_root_whatever_rank(parent: Seq<usize>, rank: Seq<usize>, other: Seq<usize>, x: int)
    requires
        ranked(parent, rank),
        ranked(parent, other),
        0 <= x < parent.len(),
    ensures
        root(parent, rank, x) == root(parent, other, x),
    decreases usize::MAX - rank[x],
{
    if parent[x] != x {
        lemma_root_whatever_rank(parent, rank, other, parent[x] as int);
    }
}

/// Pointing `x` straight to its root changes no root.
proof fn lemma_root_after_shortcut(parent: Seq<usize>, rank: Seq<usize>, x: int, y: int)
    requires
        ranked(parent, rank),
        0 <= x < parent.len(),
        0 <= y < parent.len(),
    ensures
        ranked(parent.update(x, root(parent, rank, x) as usize), rank),
        root(parent.update(x, root(parent, rank, x) as usize), rank, y) == root(parent, rank, y),
    decreases usize::MAX - rank[y],
{
    let top = root(parent, rank, x);
    let after = parent.update(x, top as usize);
    lemma_root(parent, rank, x);
    lemma_root(parent, rank, y);
    assert(ranked(after, rank));
    if y == x {
        if parent[x] != x {
            lemma_root(after, rank, top);
            assert(after[top] == top);
            assert(root(after, rank, top) == top);
        }
    } else if parent[y] != y {
        lemma_root_after_shortcut(parent, rank, x, parent[y] as int);
    }
}

/// Pointing the root `low` to the root `high` moves the set of `low` under `high`.
proof fn lemma_root_after_link(
    parent: Seq<usize>,
    rank: Seq<usize>,
    after_rank: Seq<usize>,
    low: int,
    high: int,
    y: int,
)
    requires
        ranked(parent, rank),
        0 <= low < parent.len(),
        0 <= high < parent.len(),
        0 <= y < parent.len(),
        low != high,
        parent[low] == low,
        parent[high] == high,
        ranked(parent.update(low, high as usize), after_rank),
    ensures
        root(parent.update(low, high as usize), after_rank, y) == if root(parent, rank, y) == low {
            high
        } else {
            root(parent, rank, y)
        },
    decreases usize::MAX - rank[y],
{
    let after = parent.update(low, high as usize);
    if y == low {
        assert(after[high] == high);
        assert(root(after, after_rank, high) == high);
    } else if parent[y] != y {
        lemma_root_after_link(parent, rank, after_rank, low, high, parent[y] as int);
    }
}

/// The sets of the vertices are what the edges `edges` connect.
spec fn sets_match<W>(parent: Seq<usize>, rank: Seq<usize>, edges: Seq<(usize, usize, W)>) -> bool {
    forall|a: usize, b: usize|
        a < parent.len() && b < parent.len() ==> (#[trigger] root(parent, rank, a as int) == #[trigger] root(
            parent,
            rank,
            b as int,
        ) <==> connected(edges, a, b))
}

/// Linking two roots, as the edge `edge` joins their sets.
proof fn lemma_sets_after_link<W>(
    parent: Seq<usize>,
    rank: Seq<usize>,
    after_rank: Seq<usize>,
    edges: Seq<(usize, usize, W)>,
    edge: (usize, usize, W),
    low: int,
    high: int,
)
    requires
        ranked(parent, rank),
        sets_match(parent, rank, edges),
        edge.0 < parent.len(),
        edge.1 < parent.len(),
        low != high,
        (low == root(parent, rank, edge.0 as int) && high == root(parent, rank, edge.1 as int)) || (
        low == root(parent, rank, edge.1 as int) && high == root(parent, rank, edge.0 as int)),
        ranked(parent.update(low, high as usize), after_rank),
    ensures
        sets_match(parent.update(low, high as usize), after_rank, edges.push(edge)),
{
    let after = parent.update(low, high as usize);
    lemma_root(parent, rank, edge.0 as int);
    lemma_root(parent, rank, edge.1 as int);
    assert forall|a: usize, b: usize| a < after.len() && b < after.len() implies (#[trigger] root(
        after,
        after_rank,
        a as int,
    ) == #[trigger] root(after, after_rank, b as int) <==> connected(edges.push(edge), a, b)) by {
        lemma_root_after_link(parent, rank, after_rank, low, high, a as int);
        lemma_root_after_link(parent, rank, after_rank, low, high, b as int);
        lemma_connected_with_more(edges, edge, a, b);
        let ra = root(parent, rank, a as int);
        let rb = root(parent, rank, b as int);
        let r0 = root(parent, rank, edge.0 as int);
        let r1 = root(parent, rank, edge.1 as int);
        assert(ra == rb <==> connected(edges, a, b));
        assert(ra == r0 <==> connected(edges, a, edge.0));
        assert(ra == r1 <==> connected(edges, a, edge.1));
        assert(r1 == rb <==> connected(edges, edge.1, b));
        assert(r0 == rb <==> connected(edges, edge.0, b));
    }
}

/// The forward edges of a list with one more edge.
proof fn lemma_forward_edges_step(list: Seq<Edge>, from: usize, i: int)
    requires
        0 <= i < list.len(),
    ensures
        forward_edges(list.take(i + 1), from) == if from < list[i].to {
            forward_edges(list.take(i), from).push((from, list[i].to, list[i].weight))
        } else {
            forward_edges(list.take(i), from)
        },
{
    assert(list.take(i + 1).drop_last() =~= list.take(i));
}

/// Sorts edges by weight with `<[T]>::sort_by_key`, which is stable: afterwards the edges
/// are in ascending order of weight, and edges of equal weight are in the order in which
/// they were before.
#[verifier::external_body]
fn sort_by_weight(edges: &mut Vec<(usize, usize, u64)>)
    ensures
        sorted_stably(old(edges)@, final(edges)@),
{
    edges.sort_by_key(|edge| edge.2);
}

/// Of the edges `edges`, given as `(one end, other end, what the edge carries)` and taken in
/// turn, those that join two vertices which the edges picked before them do not connect:
/// a spanning forest of the graph that the edges make on the vertices `0..vertices`.
pub fn spanning_forest<W>(vertices: usize, edges: Vec<(usize, usize, W)>) -> (forest: Vec<
    (usize, usize, W),
>)
    requires
        forall|k: int| 0 <= k < edges.len() ==> (#[trigger] edges[k]).0 < vertices && edges[k].1 < vertices,
    ensures
        forest@ == greedy_forest(edges@),
{
    let n = vertices;
    let ghost sorted = edges@;
    let count = edges.len();
    let mut parent: Vec<usize> = Vec::new();
    let mut rank: Vec<usize> = Vec::new();
    let mut v: usize = 0;
    while v < n
        invariant
            v <= n,
            parent.len() == v,
            rank.len() == v,
            forall|u: int| 0 <= u < v ==> #[trigger] parent[u] == u,
            forall|u: int| 0 <= u < v ==> #[trigger] rank[u] == 0,
        decreases n - v,
    {
        parent.push(v);
        rank.push(0);
        v += 1;
    }
    let mut mst: Vec<(usize, usize, W)> = Vec::new();
    proof {
        assert(sorted.take(0) =~= Seq::<(usize, usize, W)>::empty());
        assert forall|a: usize, b: usize| a < n && b < n implies (#[trigger] root(
            parent@,
            rank@,
            a as int,
        ) == #[trigger] root(parent@, rank@, b as int) <==> connected(mst@, a, b)) by {
            assert(linked(mst@, a, a, 0));
            if connected(mst@, a, b) {
                let steps = choose|steps: nat| linked(mst@, a, b, steps);
                lemma_linked_needs_edges(mst@, a, b, steps);
            }
        }
    }
    for edge in turn: edges
        invariant
            turn.seq() == sorted,
            sorted == edges@,
            sorted.len() == count,
            parent.len() == n,
            rank.len() == n,
            ranked(parent@, rank@),
            sets_match(parent@, rank@, mst@),
            mst@ == greedy_forest(sorted.take(turn.index() as int)),
            mst.len() <= turn.index(),
            forall|z: int| 0 <= z < n ==> #[trigger] rank[z] <= mst.len(),
            forall|j: int| 0 <= j < sorted.len() ==> (#[trigger] sorted[j]).0 < n && sorted[j].1 < n,
    {
        let ghost k = turn.index() as int;
        let ghost chosen = mst@;
        let ghost picked = edge;
        let from = edge.0;
        let to = edge.1;
        proof {
            assert(sorted[k] == edge);
            assert(sorted.take(k + 1).drop_last() =~= sorted.take(k));
        }
        let ghost first = parent@;
        let from_root = Graph::find(&mut parent, Ghost(rank@), from);
        let ghost second = parent@;
        let to_root = Graph::find(&mut parent, Ghost(rank@), to);
        proof {
            lemma_root(first, rank@, from as int);
            lemma_root(second, rank@, to as int);
            lemma_root(second, rank@, from as int);
            lemma_root(parent@, rank@, from as int);
            lemma_root(parent@, rank@, to as int);
            lemma_root(parent@, rank@, from_root as int);
            lemma_root(parent@, rank@, to_root as int);
            assert(root(second, rank@, from_root as int) == root(first, rank@, from_root as int));
            assert(root(parent@, rank@, from_root as int) == root(second, rank@, from_root as int));
            assert(root(first, rank@, from_root as int) == from_root);
            assert(root(parent@, rank@, to_root as int) == root(second, rank@, to_root as int));
            assert(root(second, rank@, to_root as int) == to_root);
            assert(root(parent@, rank@, from as int) == from_root);
            assert(root(parent@, rank@, to as int) == to_root);
            assert forall|a: usize, b: usize| a < n && b < n implies (#[trigger] root(
                parent@,
                rank@,
                a as int,
            ) == #[trigger] root(parent@, rank@, b as int) <==> connected(chosen, a, b)) by {}
        }
        if from_root != to_root {
            mst.push(edge);
            Graph::union::<W>(
                &mut parent,
                &mut rank,
                from_root,
                to_root,
                Ghost(chosen),
                Ghost(picked),
            );
        }
    }
    proof {
        assert(sorted.take(sorted.len() as int) =~= sorted);
    }
    mst
}

/// The vertices of the tree before its edge `k` is added: vertex 0 and the far ends of the
/// edges before `k`.
pub open spec fn tree_so_far(tree: Seq<(usize, usize, u64)>, k: int) -> Seq<usize> {
    Seq::new(
        (k + 1) as nat,
        |j: int|
            if j == 0 {
                0usize
            } else {
                tree[j - 1].1
            },
    )
}

/// `edge` is an edge of the graph that leads from a vertex in `inside` to one that is not.
pub open spec fn leaves(
    adjacency: Seq<Seq<Edge>>,
    inside: Seq<usize>,
    edge: (usize, usize, u64),
) -> bool {
    &&& inside.contains(edge.0)
    &&& !inside.contains(edge.1)
    &&& edge.0 < adjacency.len()
    &&& adjacency[edge.0 as int].contains(Edge { to: edge.1, weight: edge.2 })
}

/// Every edge of `tree` leads out of the tree as it was before, and none that does is
/// lighter.
pub open spec fn grows_by_lightest(adjacency: Seq<Seq<Edge>>, tree: Seq<(usize, usize, u64)>) -> bool {
    forall|k: int|
        0 <= k < tree.len() ==> leaves(adjacency, tree_so_far(tree, k), #[trigger] tree[k])
            && forall|other: (usize, usize, u64)| #[trigger]
            leaves(adjacency, tree_so_far(tree, k), other) ==> tree[k].2 <= other.2
}

/// `tree` is a tree that Prim's algorithm grows from vertex 0: each of its edges is a
/// lightest of the edges that lead out of the tree as it was before, and at the end no
/// edge leads out.
pub open spec fn is_prim_tree(adjacency: Seq<Seq<Edge>>, tree: Seq<(usize, usize, u64)>) -> bool {
    &&& grows_by_lightest(adjacency, tree)
    &&& forall|other: (usize, usize, u64)|
        !#[trigger] leaves(adjacency, tree_so_far(tree, tree.len() as int), other)
}

/// What stands for an edge in the heap: the lighter the edge, the greater.
spec fn heap_entry(from: int, edge: Edge) -> (u64, usize, usize) {
    ((u64::MAX - edge.weight) as u64, from as usize, edge.to)
}

/// The heap holds every edge that leads out of `inside`; of the edges of `current`, at
/// least the first `upto` of them.
#[verifier::opaque]
spec fn heap_covers(
    adjacency: Seq<Seq<Edge>>,
    inside: Seq<usize>,
    heap: Multiset<(u64, usize, usize)>,
    current: int,
    upto: int,
) -> bool {
    forall|from: int, i: int|
        0 <= from < adjacency.len() && 0 <= i < adjacency[from].len() && inside.contains(
            from as usize,
        ) && !inside.contains((#[trigger] adjacency[from][i]).to) && (from != current || i < upto)
            ==> heap.contains(heap_entry(from, adjacency[from][i]))
}

/// Every entry of the heap stands for an edge of the graph that leaves a vertex in `inside`.
#[verifier::opaque]
spec fn heap_is_sound(
    adjacency: Seq<Seq<Edge>>,
    inside: Seq<usize>,
    heap: Multiset<(u64, usize, usize)>,
) -> bool {
    forall|entry: (u64, usize, usize)| #[trigger]
        heap.contains(entry) ==> inside.contains(entry.1) && entry.1 < adjacency.len()
            && adjacency[entry.1 as int].contains(
            Edge { to: entry.2, weight: (u64::MAX - entry.0) as u64 },
        )
}

/// Dropping an entry whose edge leads back into the tree.
proof fn lemma_prim_stale(
    adjacency: Seq<Seq<Edge>>,
    inside: Seq<usize>,
    heap: Multiset<(u64, usize, usize)>,
    top: (u64, usize, usize),
)
    requires
        heap_covers(adjacency, inside, heap, -1, 0),
        heap_is_sound(adjacency, inside, heap),
        heap.contains(top),
        inside.contains(top.2),
    ensures
        heap_covers(adjacency, inside, heap.remove(top), -1, 0),
        heap_is_sound(adjacency, inside, heap.remove(top)),
        heap.remove(top).len() < heap.len(),
{
    broadcast use vstd::multiset::group_multiset_axioms;

    reveal(heap_covers);
    reveal(heap_is_sound);
    let rest = heap.remove(top);
    assert forall|entry: (u64, usize, usize)| #[trigger] rest.contains(entry) implies heap.contains(
        entry,
    ) by {}
    assert forall|from: int, i: int|
        0 <= from < adjacency.len() && 0 <= i < adjacency[from].len() && inside.contains(
            from as usize,
        ) && !inside.contains((#[trigger] adjacency[from][i]).to) implies rest.contains(
        heap_entry(from, adjacency[from][i]),
    ) by {
        assert(heap.contains(heap_entry(from, adjacency[from][i])));
        assert(heap_entry(from, adjacency[from][i]) != top);
    }
}

/// Taking the entry on top of the heap, whose edge leads out of the tree, into the tree.
proof fn lemma_prim_pick(
    adjacency: Seq<Seq<Edge>>,
    tree: Seq<(usize, usize, u64)>,
    heap: Multiset<(u64, usize, usize)>,
    top: (u64, usize, usize),
)
    requires
        fits(adjacency, adjacency.len() as int),
        grows_by_lightest(adjacency, tree),
        heap_covers(adjacency, tree_so_far(tree, tree.len() as int), heap, -1, 0),
        heap_is_sound(adjacency, tree_so_far(tree, tree.len() as int), heap),
        is_greatest(heap, top),
        !tree_so_far(tree, tree.len() as int).contains(top.2),
    ensures
        grows_by_lightest(adjacency, tree.push((top.1, top.2, (u64::MAX - top.0) as u64))),
        tree_so_far(tree.push((top.1, top.2, (u64::MAX - top.0) as u64)), tree.len() as int + 1)
            == tree_so_far(tree, tree.len() as int).push(top.2),
        heap_covers(
            adjacency,
            tree_so_far(tree, tree.len() as int).push(top.2),
            heap.remove(top),
            top.2 as int,
            0,
        ),
        heap_is_sound(adjacency, tree_so_far(tree, tree.len() as int).push(top.2), heap.remove(top)),
        top.2 < adjacency.len(),
{
    broadcast use vstd::multiset::group_multiset_axioms;

    reveal(heap_covers);
    reveal(heap_is_sound);
    let inside = tree_so_far(tree, tree.len() as int);
    let edge = (top.1, top.2, (u64::MAX - top.0) as u64);
    let grown = tree.push(edge);
    let wider = inside.push(top.2);
    let rest = heap.remove(top);
    assert(heap.contains(top));
    let at = choose|at: int|
        0 <= at < adjacency[top.1 as int].len() && adjacency[top.1 as int][at] == (Edge {
            to: top.2,
            weight: (u64::MAX - top.0) as u64,
        });
    assert(adjacency[top.1 as int][at].to < adjacency.len());
    assert(tree_so_far(grown, tree.len() as int + 1) =~= wider);
    assert forall|k: int| 0 <= k < grown.len() implies leaves(
        adjacency,
        tree_so_far(grown, k),
        #[trigger] grown[k],
    ) && forall|other: (usize, usize, u64)| #[trigger]
        leaves(adjacency, tree_so_far(grown, k), other) ==> grown[k].2 <= other.2 by {
        assert(tree_so_far(grown, k) =~= tree_so_far(tree, k));
        if k < tree.len() {
            assert(grown[k] == tree[k]);
        } else {
            assert forall|other: (usize, usize, u64)| #[trigger]
                leaves(adjacency, inside, other) implies edge.2 <= other.2 by {
                let i = choose|i: int|
                    0 <= i < adjacency[other.0 as int].len() && adjacency[other.0 as int][i] == (
                    Edge { to: other.1, weight: other.2 });
                let entry = heap_entry(other.0 as int, adjacency[other.0 as int][i]);
                assert(heap.contains(entry));
                assert(less_eq(entry, top));
                lemma_triples_are_ordered(entry, top);
            }
        }
    }
    assert forall|entry: (u64, usize, usize)| #[trigger] rest.contains(entry) implies wider.contains(
        entry.1,
    ) && entry.1 < adjacency.len() && adjacency[entry.1 as int].contains(
        Edge { to: entry.2, weight: (u64::MAX - entry.0) as u64 },
    ) by {
        assert(heap.contains(entry));
        let j = choose|j: int| 0 <= j < inside.len() && inside[j] == entry.1;
        assert(wider[j] == entry.1);
    }
    assert forall|from: int, i: int|
        0 <= from < adjacency.len() && 0 <= i < adjacency[from].len() && wider.contains(
            from as usize,
        ) && !wider.contains((#[trigger] adjacency[from][i]).to) && (from != top.2 || i < 0)
        implies rest.contains(heap_entry(from, adjacency[from][i])) by {
        let target = adjacency[from][i].to;
        let j = choose|j: int| 0 <= j < wider.len() && wider[j] == from as usize;
        assert(inside[j] == from as usize);
        assert(!inside.contains(target)) by {
            if inside.contains(target) {
                let m = choose|m: int| 0 <= m < inside.len() && inside[m] == target;
                assert(wider[m] == target);
            }
        }
        assert(heap.contains(heap_entry(from, adjacency[from][i])));
        assert(wider[inside.len() as int] == top.2);
        assert(heap_entry(from, adjacency[from][i]) != top);
    }
}

/// Looking at the edge `upto` of the vertex that has just come into the tree, and pushing
/// it if it leads out of the tree.
proof fn lemma_prim_push(
    adjacency: Seq<Seq<Edge>>,
    inside: Seq<usize>,
    heap: Multiset<(u64, usize, usize)>,
    current: int,
    upto: int,
)
    requires
        0 <= current < adjacency.len(),
        current <= usize::MAX,
        0 <= upto < adjacency[current].len(),
        inside.contains(current as usize),
        heap_covers(adjacency, inside, heap, current, upto),
        heap_is_sound(adjacency, inside, heap),
    ensures
        inside.contains(adjacency[current][upto].to) ==> heap_covers(
            adjacency,
            inside,
            heap,
            current,
            upto + 1,
        ),
        heap_covers(
            adjacency,
            inside,
            heap.insert(heap_entry(current, adjacency[current][upto])),
            current,
            upto + 1,
        ),
        heap_is_sound(adjacency, inside, heap.insert(heap_entry(current, adjacency[current][upto]))),
{
    broadcast use vstd::multiset::group_multiset_axioms;

    reveal(heap_covers);
    reveal(heap_is_sound);
    let edge = adjacency[current][upto];
    let entry = heap_entry(current, edge);
    let more = heap.insert(entry);
    assert forall|other: (u64, usize, usize)| #[trigger] more.contains(other) implies inside.contains(
        other.1,
    ) && other.1 < adjacency.len() && adjacency[other.1 as int].contains(
        Edge { to: other.2, weight: (u64::MAX - other.0) as u64 },
    ) by {
        if other == entry {
            assert(adjacency[current][upto] == (Edge {
                to: entry.2,
                weight: (u64::MAX - entry.0) as u64,
            }));
        } else {
            assert(heap.contains(other));
        }
    }
    assert forall|from: int, i: int|
        0 <= from < adjacency.len() && 0 <= i < adjacency[from].len() && inside.contains(
            from as usize,
        ) && !inside.contains((#[trigger] adjacency[from][i]).to) && (from != current || i < upto
            + 1) implies more.contains(heap_entry(from, adjacency[from][i])) by {
        if from == current && i == upto {
        } else {
            assert(heap.contains(heap_entry(from, adjacency[from][i])));
        }
    }
}

/// When all edges of the vertex that has just come into the tree are looked at, the heap
/// holds every edge that leads out of the tree.
proof fn lemma_prim_pushed_all(
    adjacency: Seq<Seq<Edge>>,
    inside: Seq<usize>,
    heap: Multiset<(u64, usize, usize)>,
    current: int,
)
    requires
        0 <= current < adjacency.len(),
        heap_covers(adjacency, inside, heap, current, adjacency[current].len() as int),
    ensures
        heap_covers(adjacency, inside, heap, -1, 0),
{
    reveal(heap_covers);
}

/// With an empty heap that holds every edge that leads out of the tree, none does.
proof fn lemma_prim_complete(
    adjacency: Seq<Seq<Edge>>,
    tree: Seq<(usize, usize, u64)>,
    heap: Multiset<(u64, usize, usize)>,
)
    requires
        grows_by_lightest(adjacency, tree),
        heap_covers(adjacency, tree_so_far(tree, tree.len() as int), heap, -1, 0),
        heap.len() == 0,
    ensures
        is_prim_tree(adjacency, tree),
{
    broadcast use vstd::multiset::group_multiset_axioms;

    reveal(heap_covers);
    let inside = tree_so_far(tree, tree.len() as int);
    assert forall|other: (usize, usize, u64)| !#[trigger] leaves(adjacency, inside, other) by {
        if leaves(adjacency, inside, other) {
            let i = choose|i: int|
                0 <= i < adjacency[other.0 as int].len() && adjacency[other.0 as int][i] == (Edge {
                    to: other.1,
                    weight: other.2,
                });
            assert(heap.contains(heap_entry(other.0 as int, adjacency[other.0 as int][i])));
        }
    }
}

impl Graph {
    /// A spanning forest of least weight, by Kruskal's algorithm: of the edges in ascending
    /// order of weight, each one that joins two vertices which the edges picked before it do
    /// not connect. Edges of equal weight are taken in the order of the lists.
    pub fn kruskal(&self) -> (mst: Vec<(usize, usize, u64)>)
        requires
            self.well_formed(),
        ensures
            exists|sorted: Seq<(usize, usize, u64)>|
                sorted_stably(edges_once(self.adjacency(), self.vertices as int), sorted) && mst@
                    == greedy_forest(sorted),
    {
        let ghost adjacency = self.adjacency();
        let n = self.vertices;
        let mut edges: Vec<(usize, usize, u64)> = Vec::new();
        let mut from: usize = 0;
        while from < n
            invariant
                self.well_formed(),
                adjacency == self.adjacency(),
                n == self.vertices,
                from <= n,
                edges@ == edges_once(adjacency, from as int),
                forall|k: int| 0 <= k < edges.len() ==> (#[trigger] edges[k]).0 < n && edges[k].1 < n,
            decreases n - from,
        {
            let ghost before = edges@;
            let mut i: usize = 0;
            proof {
                assert(adjacency[from as int].take(0) =~= Seq::<Edge>::empty());
                assert(edges@ =~= before + forward_edges(adjacency[from as int].take(0), from));
            }
            while i < self.adjacency_list[from].len()
                invariant
                    self.well_formed(),
                    adjacency == self.adjacency(),
                    n == self.vertices,
                    from < n,
                    i <= self.adjacency_list[from as int].len(),
                    edges@ == before + forward_edges(adjacency[from as int].take(i as int), from),
                    forall|k: int|
                        0 <= k < edges.len() ==> (#[trigger] edges[k]).0 < n && edges[k].1 < n,
                decreases self.adjacency_list[from as int].len() - i,
            {
                let edge = self.adjacency_list[from][i];
                proof {
                    assert(adjacency[from as int][i as int] == edge);
                    lemma_forward_edges_step(adjacency[from as int], from, i as int);
                }
                if from < edge.to {
                    edges.push((from, edge.to, edge.weight));
                    proof {
                        assert(edges@ =~= before + forward_edges(
                            adjacency[from as int].take(i + 1),
                            from,
                        ));
                    }
                }
                i += 1;
            }
            proof {
                assert(adjacency[from as int].take(i as int) =~= adjacency[from as int]);
            }
            from += 1;
        }
        let ghost unsorted = edges@;
        sort_by_weight(&mut edges);
        let ghost sorted = edges@;
        proof {
            let origin = choose|origin: Seq<int>| sorted_from(unsorted, sorted, origin);
            assert forall|k: int| 0 <= k < sorted.len() implies (#[trigger] sorted[k]).0 < n
                && sorted[k].1 < n by {
                assert(sorted[k] == unsorted[origin[k]]);
            }
        }

        let mst = spanning_forest(n, edges);
        mst
    }

    /// The vertex that stands for the set of `x`. Points `x`, and every vertex on the way,
    /// straight to it.
    fn find(parent: &mut Vec<usize>, Ghost(rank): Ghost<Seq<usize>>, x: usize) -> (top: usize)
        requires
            ranked(old(parent)@, rank),
            x < old(parent).len(),
        ensures
            top == root(old(parent)@, rank, x as int),
            top < final(parent).len(),
            final(parent).len() == old(parent).len(),
            ranked(final(parent)@, rank),
            forall|y: int|
                0 <= y < final(parent).len() ==> #[trigger] root(final(parent)@, rank, y) == root(
                    old(parent)@,
                    rank,
                    y,
                ),
        decreases usize::MAX - rank[x as int],
    {
        proof {
            lemma_root(parent@, rank, x as int);
        }
        if parent[x] != x {
            let up = parent[x];
            let top = Graph::find(parent, Ghost(rank), up);
            let ghost between = parent@;
            proof {
                lemma_root(between, rank, x as int);
                assert(root(between, rank, x as int) == root(old(parent)@, rank, x as int));
                assert forall|y: int| 0 <= y < between.len() implies #[trigger] root(
                    between.update(x as int, top),
                    rank,
                    y,
                ) == root(old(parent)@, rank, y) by {
                    lemma_root_after_shortcut(between, rank, x as int, y);
                    assert(root(between, rank, y) == root(old(parent)@, rank, y));
                }
                lemma_root_after_shortcut(between, rank, x as int, x as int);
            }
            parent[x] = top;
        }
        proof {
            lemma_root(parent@, rank, x as int);
            assert(root(parent@, rank, x as int) == root(old(parent)@, rank, x as int));
        }
        parent[x]
    }

    /// Joins the sets of `x` and `y`: points the root of the one of lower rank to the root
    /// of the other.
    fn union<W>(
        parent: &mut Vec<usize>,
        rank: &mut Vec<usize>,
        x: usize,
        y: usize,
        Ghost(edges): Ghost<Seq<(usize, usize, W)>>,
        Ghost(edge): Ghost<(usize, usize, W)>,
    )
        requires
            ranked(old(parent)@, old(rank)@),
            sets_match(old(parent)@, old(rank)@, edges),
            x < old(parent).len(),
            y < old(parent).len(),
            edge.0 < old(parent).len(),
            edge.1 < old(parent).len(),
            root(old(parent)@, old(rank)@, x as int) == root(old(parent)@, old(rank)@, edge.0 as int),
            root(old(parent)@, old(rank)@, y as int) == root(old(parent)@, old(rank)@, edge.1 as int),
            root(old(parent)@, old(rank)@, x as int) != root(old(parent)@, old(rank)@, y as int),
            forall|z: int| 0 <= z < old(rank).len() ==> #[trigger] old(rank)[z] <= edges.len(),
            edges.len() < usize::MAX,
        ensures
            final(parent).len() == old(parent).len(),
            final(rank).len() == old(rank).len(),
            ranked(final(parent)@, final(rank)@),
            sets_match(final(parent)@, final(rank)@, edges.push(edge)),
            forall|z: int| 0 <= z < final(rank).len() ==> #[trigger] final(rank)[z] <= edges.len() + 1,
    {
        let ghost rank0 = rank@;
        let x_root = Graph::find(parent, Ghost(rank@), x);
        let y_root = Graph::find(parent, Ghost(rank@), y);
        let ghost before = parent@;
        proof {
            assert forall|a: usize, b: usize|
                a < before.len() && b < before.len() implies (#[trigger] root(
                before,
                rank0,
                a as int,
            ) == #[trigger] root(before, rank0, b as int) <==> connected(edges, a, b)) by {
                assert(root(before, rank0, a as int) == root(old(parent)@, rank0, a as int));
                assert(root(before, rank0, b as int) == root(old(parent)@, rank0, b as int));
            }
            lemma_root(before, rank0, x as int);
            lemma_root(before, rank0, y as int);
            assert(root(before, rank0, x as int) == x_root);
            assert(root(before, rank0, y as int) == y_root);
            assert(root(before, rank0, edge.0 as int) == x_root);
            assert(root(before, rank0, edge.1 as int) == y_root);
        }
        if x_root == y_root {
            return ;
        }
        if rank[x_root] < rank[y_root] {
            parent[x_root] = y_root;
            proof {
                assert(ranked(parent@, rank@));
                lemma_sets_after_link(before, rank0, rank@, edges, edge, x_root as int, y_root as int);
            }
        } else if rank[x_root] > rank[y_root] {
            parent[y_root] = x_root;
            proof {
                assert(ranked(parent@, rank@));
                lemma_sets_after_link(before, rank0, rank@, edges, edge, y_root as int, x_root as int);
            }
        } else {
            parent[y_root] = x_root;
            let higher = rank[x_root] + 1;
            rank[x_root] = higher;
            proof {
                assert forall|z: int| 0 <= z < parent@.len() implies (#[trigger] parent@[z])
                    < parent@.len() && (parent@[z] == z || rank@[z] < rank@[parent@[z] as int]) by {
                    if z != y_root {
                        assert(parent@[z] == before[z]);
                    }
                }
                lemma_sets_after_link(before, rank0, rank@, edges, edge, y_root as int, x_root as int);
            }
        }
    }

    /// A spanning tree of least weight of the part of the graph that vertex 0 is in, by
    /// Prim's algorithm: grown from vertex 0 by adding, each time, a lightest of the edges
    /// that lead out of the tree, in the form `(near end, far end, weight)`.
    pub fn prim(&self) -> (mst: Vec<(usize, usize, u64)>)
        requires
            self.well_formed(),
            self.vertices > 0,
        ensures
            is_prim_tree(self.adjacency(), mst@),
    {
        let ghost adjacency = self.adjacency();
        let n = self.vertices;
        let mut visited: Vec<bool> = Vec::new();
        let mut v: usize = 0;
        while v < n
            invariant
                v <= n,
                visited.len() == v,
                forall|u: int| 0 <= u < v ==> !(#[trigger] visited[u]),
            decreases n - v,
        {
            visited.push(false);
            v += 1;
        }
        let mut mst: Vec<(usize, usize, u64)> = Vec::new();
        proof {
            lemma_triples_are_ordered((0, 0, 0), (0, 0, 0));
        }
        let mut heap: PriorityQueue<(u64, usize, usize)> = PriorityQueue::new();
        let ghost mut inside: Seq<usize> = Seq::<usize>::empty().push(0usize);
        proof {
            assert(marks(visited@, Seq::<usize>::empty()));
            lemma_marks_one_more(visited@, Seq::<usize>::empty(), 0);
            assert(inside =~= tree_so_far(mst@, 0));
            assert(fits(adjacency, n as int)) by {
                assert forall|v: int, i: int| 0 <= v < n && 0 <= i < adjacency[v].len() implies (
                #[trigger] adjacency[v][i]).to < n by {
                    assert(adjacency[v][i] == self.adjacency_list[v][i]);
                }
            }
            assert(heap_covers(adjacency, inside, heap@, 0, 0)) by {
                reveal(heap_covers);
                assert forall|from: int, i: int|
                    0 <= from < adjacency.len() && 0 <= i < adjacency[from].len() && inside.contains(
                        from as usize,
                    ) && !inside.contains((#[trigger] adjacency[from][i]).to) && (from != 0 || i
                        < 0) implies heap@.contains(heap_entry(from, adjacency[from][i])) by {
                    let j = choose|j: int| 0 <= j < inside.len() && inside[j] == from as usize;
                }
            }
            assert(heap_is_sound(adjacency, inside, heap@)) by {
                reveal(heap_is_sound);
                broadcast use vstd::multiset::group_multiset_axioms;

            }
            assert(inside[0] == 0);
        }
        visited[0] = true;
        self.push_edges(0, &visited, &mut heap, Ghost(inside));
        loop
            invariant
                self.well_formed(),
                adjacency == self.adjacency(),
                n == self.vertices,
                fits(adjacency, n as int),
                visited.len() == n,
                inside == tree_so_far(mst@, mst.len() as int),
                marks(visited@, inside),
                grows_by_lightest(adjacency, mst@),
                heap_covers(adjacency, inside, heap@, -1, 0),
                heap_is_sound(adjacency, inside, heap@),
            ensures
                is_prim_tree(adjacency, mst@),
            decreases unmarked(visited@), heap@.len(),
        {
            let ghost before = heap@;
            let (key, from, to) = match heap.pop() {
                Some(top) => top,
                None => {
                    proof {
                        lemma_prim_complete(adjacency, mst@, heap@);
                    }
                    break ;
                },
            };
            proof {
                assert(heap_is_sound(adjacency, inside, before));
                reveal(heap_is_sound);
                assert(before.contains((key, from, to)));
                let at = choose|at: int|
                    0 <= at < adjacency[from as int].len() && adjacency[from as int][at] == (Edge {
                        to,
                        weight: (u64::MAX - key) as u64,
                    });
                assert(adjacency[from as int][at].to < n);
            }
            if visited[to] {
                proof {
                    lemma_prim_stale(adjacency, inside, before, (key, from, to));
                }
                continue ;
            }
            proof {
                assert(!inside.contains(to)) by {
                    if inside.contains(to) {
                        let j = choose|j: int| 0 <= j < inside.len() && inside[j] == to;
                    }
                }
                lemma_prim_pick(adjacency, mst@, before, (key, from, to));
                lemma_marks_one_more(visited@, inside, to);
                inside = inside.push(to);
                assert(inside[inside.len() - 1] == to);
            }
            visited[to] = true;
            mst.push((from, to, u64::MAX - key));
            self.push_edges(to, &visited, &mut heap, Ghost(inside));
        }
        mst
    }

    /// Pushes the edges of `vertex` that lead to vertices not visited.
    fn push_edges(
        &self,
        vertex: usize,
        visited: &Vec<bool>,
        heap: &mut PriorityQueue<(u64, usize, usize)>,
        Ghost(inside): Ghost<Seq<usize>>,
    )
        requires
            self.well_formed(),
            vertex < self.vertices,
            visited.len() == self.vertices,
            marks(visited@, inside),
            inside.contains(vertex),
            heap_covers(self.adjacency(), inside, old(heap)@, vertex as int, 0),
            heap_is_sound(self.adjacency(), inside, old(heap)@),
        ensures
            heap_covers(self.adjacency(), inside, final(heap)@, -1, 0),
            heap_is_sound(self.adjacency(), inside, final(heap)@),
    {
        let ghost adjacency = self.adjacency();
        let mut i: usize = 0;
        while i < self.adjacency_list[vertex].len()
            invariant
                self.well_formed(),
                adjacency == self.adjacency(),
                vertex < self.vertices,
                visited.len() == self.vertices,
                marks(visited@, inside),
                inside.contains(vertex),
                i <= self.adjacency_list[vertex as int].len(),
                heap_covers(adjacency, inside, heap@, vertex as int, i as int),
                heap_is_sound(adjacency, inside, heap@),
            decreases self.adjacency_list[vertex as int].len() - i,
        {
            let edge = self.adjacency_list[vertex][i];
            proof {
                assert(adjacency[vertex as int][i as int] == edge);
                lemma_prim_push(adjacency, inside, heap@, vertex as int, i as int);
            }
            if !visited[edge.to] {
                heap.push((u64::MAX - edge.weight, vertex, edge.to));
            } else {
                proof {
                    assert(inside.contains(edge.to));
                }
            }
            i += 1;
        }
        proof {
            assert(adjacency[vertex as int].len() == self.adjacency_list[vertex as int].len());
            lemma_prim_pushed_all(adjacency, inside, heap@, vertex as int);
        }
    }
}

} // verus!
