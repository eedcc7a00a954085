//! Depth-first and breadth-first traversal.
//!
//! Both orders are told by one rule each: a traversal goes on to the first neighbour, not
//! seen before, of a vertex that it has seen; depth first, of the latest such vertex that
//! has one; breadth first, of the earliest.

use super::{lemma_mark_one, lemma_marks_one_more, marks, unmarked, Edge, Graph};
use std::collections::VecDeque;
use vstd::prelude::*;

verus! {

/// Some edge that leaves `from` leads to a vertex that is not in `seen`.
pub open spec fn has_unseen(adjacency: Seq<Seq<Edge>>, seen: Seq<usize>, from: int) -> bool {
    exists|i: int|
        0 <= i < adjacency[from].len() && !seen.contains((#[trigger] adjacency[from][i]).to)
}

/// `to` is where the first of the edges that leave `from` for a vertex not in `seen` leads.
pub open spec fn first_unseen(
    adjacency: Seq<Seq<Edge>>,
    seen: Seq<usize>,
    from: int,
    to: usize,
) -> bool {
    exists|i: int|
        0 <= i < adjacency[from].len() && (#[trigger] adjacency[from][i]).to == to && !seen.contains(
            to,
        ) && forall|earlier: int|
            0 <= earlier < i ==> seen.contains((#[trigger] adjacency[from][earlier]).to)
}

/// After `seen`, a depth-first traversal goes to `next`: the first unseen neighbour of the
/// latest vertex of `seen` that has an unseen neighbour.
pub open spec fn depth_first_next(adjacency: Seq<Seq<Edge>>, seen: Seq<usize>, next: usize) -> bool {
    exists|j: int|
        0 <= j < seen.len() && first_unseen(adjacency, seen, (#[trigger] seen[j]) as int, next)
            && forall|later: int|
            j < later < seen.len() ==> !has_unseen(adjacency, seen, (#[trigger] seen[later]) as int)
}

/// After `seen`, a breadth-first traversal goes to `next`: the first unseen neighbour of the
/// earliest vertex of `seen` that has an unseen neighbour.
pub open spec fn breadth_first_next(
    adjacency: Seq<Seq<Edge>>,
    seen: Seq<usize>,
    next: usize,
) -> bool {
    exists|j: int|
        0 <= j < seen.len() && first_unseen(adjacency, seen, (#[trigger] seen[j]) as int, next)
            && forall|earlier: int|
            0 <= earlier < j ==> !has_unseen(adjacency, seen, (#[trigger] seen[earlier]) as int)
}

/// `order` is the order in which a depth-first traversal from `start` comes to the vertices:
/// it starts at `start`, goes on by [`depth_first_next`], and ends when no vertex that it
/// has seen has an unseen neighbour.
pub open spec fn is_depth_first_order(
    adjacency: Seq<Seq<Edge>>,
    start: usize,
    order: Seq<usize>,
) -> bool {
    &&& order.len() > 0
    &&& order[0] == start
    &&& forall|k: int|
        1 <= k < order.len() ==> depth_first_next(adjacency, order.take(k), #[trigger] order[k])
    &&& forall|j: int|
        0 <= j < order.len() ==> !has_unseen(adjacency, order, (#[trigger] order[j]) as int)
}

/// `order` is the order in which a breadth-first traversal from `start` comes to the
/// vertices: it starts at `start`, goes on by [`breadth_first_next`], and ends when no vertex
/// that it has seen has an unseen neighbour.
pub open spec fn is_breadth_first_order(
    adjacency: Seq<Seq<Edge>>,
    start: usize,
    order: Seq<usize>,
) -> bool {
    &&& order.len() > 0
    &&& order[0] == start
    &&& forall|k: int|
        1 <= k < order.len() ==> breadth_first_next(adjacency, order.take(k), #[trigger] order[k])
    &&& forall|j: int|
        0 <= j < order.len() ==> !has_unseen(adjacency, order, (#[trigger] order[j]) as int)
}

/// A vertex that has no unseen neighbour keeps having none when more vertices are seen.
proof fn lemma_seen_more(adjacency: Seq<Seq<Edge>>, seen: Seq<usize>, more: Seq<usize>, from: int)
    requires
        !has_unseen(adjacency, seen, from),
        seen.len() <= more.len(),
        more.take(seen.len() as int) == seen,
    ensures
        !has_unseen(adjacency, more, from),
{
    if has_unseen(adjacency, more, from) {
        let i = choose|i: int|
            0 <= i < adjacency[from].len() && !more.contains((#[trigger] adjacency[from][i]).to);
        let to = adjacency[from][i].to;
        assert(seen.contains(to));
        let k = choose|k: int| 0 <= k < seen.len() && seen[k] == to;
        assert(more.take(seen.len() as int)[k] == more[k]);
    }
}

/// Where a breadth-first traversal stands that has seen `seen`, is done with the first `done`
/// of them, and has followed the first `i` edges of the next.
#[verifier::opaque]
spec fn breadth_first_so_far(adjacency: Seq<Seq<Edge>>, seen: Seq<usize>, done: int, i: int) -> bool {
    &&& forall|k: int|
        1 <= k < seen.len() ==> breadth_first_next(adjacency, seen.take(k), #[trigger] seen[k])
    &&& forall|j: int| 0 <= j < done ==> !has_unseen(adjacency, seen, (#[trigger] seen[j]) as int)
    &&& forall|earlier: int|
        0 <= earlier < i ==> seen.contains((#[trigger] adjacency[seen[done] as int][earlier]).to)
}

/// One step of a breadth-first traversal at an edge that leads to the unseen vertex `to`.
proof fn lemma_breadth_first_step(
    adjacency: Seq<Seq<Edge>>,
    seen: Seq<usize>,
    done: int,
    i: int,
    to: usize,
)
    requires
        0 <= done < seen.len(),
        0 <= i < adjacency[seen[done] as int].len(),
        adjacency[seen[done] as int][i].to == to,
        !seen.contains(to),
        breadth_first_so_far(adjacency, seen, done, i),
    ensures
        breadth_first_so_far(adjacency, seen.push(to), done, i + 1),
{
    reveal(breadth_first_so_far);
    let found = seen.push(to);
    let vertex = seen[done] as int;
    assert(found.take(seen.len() as int) =~= seen);
    assert(first_unseen(adjacency, seen, vertex, to));
    assert(breadth_first_next(adjacency, seen, to));
    assert forall|k: int| 1 <= k < found.len() implies breadth_first_next(
        adjacency,
        found.take(k),
        #[trigger] found[k],
    ) by {
        if k < seen.len() {
            assert(found.take(k) =~= seen.take(k));
            assert(found[k] == seen[k]);
        }
    }
    assert forall|j: int| 0 <= j < done implies !has_unseen(
        adjacency,
        found,
        (#[trigger] found[j]) as int,
    ) by {
        assert(found[j] == seen[j]);
        lemma_seen_more(adjacency, seen, found, seen[j] as int);
    }
    assert(found[done] == seen[done]);
    assert forall|earlier: int| 0 <= earlier < i + 1 implies found.contains(
        (#[trigger] adjacency[vertex][earlier]).to,
    ) by {
        let t = adjacency[vertex][earlier].to;
        if earlier < i {
            let k = choose|k: int| 0 <= k < seen.len() && seen[k] == t;
            assert(found[k] == t);
        } else {
            assert(found[seen.len() as int] == t);
        }
    }
}

/// One step of a breadth-first traversal at an edge that leads to a vertex already seen.
proof fn lemma_breadth_first_skip(adjacency: Seq<Seq<Edge>>, seen: Seq<usize>, done: int, i: int)
    requires
        0 <= done < seen.len(),
        0 <= i < adjacency[seen[done] as int].len(),
        seen.contains(adjacency[seen[done] as int][i].to),
        breadth_first_so_far(adjacency, seen, done, i),
    ensures
        breadth_first_so_far(adjacency, seen, done, i + 1),
{
    reveal(breadth_first_so_far);
}

/// A breadth-first traversal is done with a vertex when it has followed all its edges.
proof fn lemma_breadth_first_done(adjacency: Seq<Seq<Edge>>, seen: Seq<usize>, done: int)
    requires
        0 <= done < seen.len(),
        breadth_first_so_far(adjacency, seen, done, adjacency[seen[done] as int].len() as int),
    ensures
        breadth_first_so_far(adjacency, seen, done + 1, 0),
{
    reveal(breadth_first_so_far);
    assert(!has_unseen(adjacency, seen, seen[done] as int));
}

/// A breadth-first traversal that is done with all vertices that it has seen is complete.
proof fn lemma_breadth_first_complete(adjacency: Seq<Seq<Edge>>, seen: Seq<usize>)
    requires
        seen.len() > 0,
        breadth_first_so_far(adjacency, seen, seen.len() as int, 0),
    ensures
        is_breadth_first_order(adjacency, seen[0], seen),
{
    reveal(breadth_first_so_far);
}

/// A vertex has one first unseen neighbour at most.
proof fn lemma_first_unseen_is_unique(
    adjacency: Seq<Seq<Edge>>,
    seen: Seq<usize>,
    from: int,
    one: usize,
    other: usize,
)
    requires
        first_unseen(adjacency, seen, from, one),
        first_unseen(adjacency, seen, from, other),
    ensures
        one == other,
{
    let i = choose|i: int|
        0 <= i < adjacency[from].len() && (#[trigger] adjacency[from][i]).to == one && !seen.contains(
            one,
        ) && forall|earlier: int|
            0 <= earlier < i ==> seen.contains((#[trigger] adjacency[from][earlier]).to);
    let j = choose|j: int|
        0 <= j < adjacency[from].len() && (#[trigger] adjacency[from][j]).to == other && !seen.contains(
            other,
        ) && forall|earlier: int|
            0 <= earlier < j ==> seen.contains((#[trigger] adjacency[from][earlier]).to);
    if i < j {
        assert(seen.contains(adjacency[from][i].to));
    }
    if j < i {
        assert(seen.contains(adjacency[from][j].to));
    }
}

/// A vertex with a first unseen neighbour has an unseen neighbour.
proof fn lemma_first_unseen_is_unseen(
    adjacency: Seq<Seq<Edge>>,
    seen: Seq<usize>,
    from: int,
    to: usize,
)
    requires
        first_unseen(adjacency, seen, from, to),
    ensures
        has_unseen(adjacency, seen, from),
{
    let i = choose|i: int|
        0 <= i < adjacency[from].len() && (#[trigger] adjacency[from][i]).to == to && !seen.contains(
            to,
        ) && forall|earlier: int|
            0 <= earlier < i ==> seen.contains((#[trigger] adjacency[from][earlier]).to);
    assert(!seen.contains(adjacency[from][i].to));
}

/// After the same vertices, a depth-first traversal goes to one vertex only.
proof fn lemma_depth_first_next_is_unique(
    adjacency: Seq<Seq<Edge>>,
    seen: Seq<usize>,
    one: usize,
    other: usize,
)
    requires
        depth_first_next(adjacency, seen, one),
        depth_first_next(adjacency, seen, other),
    ensures
        one == other,
{
    let i = choose|j: int|
        0 <= j < seen.len() && first_unseen(adjacency, seen, (#[trigger] seen[j]) as int, one)
            && forall|later: int|
            j < later < seen.len() ==> !has_unseen(adjacency, seen, (#[trigger] seen[later]) as int);
    let j = choose|j: int|
        0 <= j < seen.len() && first_unseen(adjacency, seen, (#[trigger] seen[j]) as int, other)
            && forall|later: int|
            j < later < seen.len() ==> !has_unseen(adjacency, seen, (#[trigger] seen[later]) as int);
    lemma_first_unseen_is_unseen(adjacency, seen, seen[i] as int, one);
    lemma_first_unseen_is_unseen(adjacency, seen, seen[j] as int, other);
    if i < j {
        assert(!has_unseen(adjacency, seen, seen[j] as int));
    }
    if j < i {
        assert(!has_unseen(adjacency, seen, seen[i] as int));
    }
    lemma_first_unseen_is_unique(adjacency, seen, seen[i] as int, one, other);
}

/// After the same vertices, a breadth-first traversal goes to one vertex only.
proof fn lemma_breadth_first_next_is_unique(
    adjacency: Seq<Seq<Edge>>,
    seen: Seq<usize>,
    one: usize,
    other: usize,
)
    requires
        breadth_first_next(adjacency, seen, one),
        breadth_first_next(adjacency, seen, other),
    ensures
        one == other,
{
    let i = choose|j: int|
        0 <= j < seen.len() && first_unseen(adjacency, seen, (#[trigger] seen[j]) as int, one)
            && forall|earlier: int|
            0 <= earlier < j ==> !has_unseen(adjacency, seen, (#[trigger] seen[earlier]) as int);
    let j = choose|j: int|
        0 <= j < seen.len() && first_unseen(adjacency, seen, (#[trigger] seen[j]) as int, other)
            && forall|earlier: int|
            0 <= earlier < j ==> !has_unseen(adjacency, seen, (#[trigger] seen[earlier]) as int);
    lemma_first_unseen_is_unseen(adjacency, seen, seen[i] as int, one);
    lemma_first_unseen_is_unseen(adjacency, seen, seen[j] as int, other);
    if i < j {
        assert(!has_unseen(adjacency, seen, seen[i] as int));
    }
    if j < i {
        assert(!has_unseen(adjacency, seen, seen[j] as int));
    }
    lemma_first_unseen_is_unique(adjacency, seen, seen[i] as int, one, other);
}

proof fn lemma_depth_first_orders_agree(
    adjacency: Seq<Seq<Edge>>,
    start: usize,
    one: Seq<usize>,
    other: Seq<usize>,
    upto: int,
)
    requires
        is_depth_first_order(adjacency, start, one),
        is_depth_first_order(adjacency, start, other),
        1 <= upto <= one.len(),
    ensures
        upto <= other.len(),
        one.take(upto) == other.take(upto),
    decreases upto,
{
    if upto == 1 {
        assert(one.take(1) =~= other.take(1));
    } else {
        let k = upto - 1;
        lemma_depth_first_orders_agree(adjacency, start, one, other, k);
        assert(depth_first_next(adjacency, one.take(k), one[k]));
        if other.len() == k {
            assert(other.take(k) =~= other);
            let j = choose|j: int|
                0 <= j < other.len() && first_unseen(
                    adjacency,
                    other,
                    (#[trigger] other[j]) as int,
                    one[k],
                ) && forall|later: int|
                    j < later < other.len() ==> !has_unseen(
                        adjacency,
                        other,
                        (#[trigger] other[later]) as int,
                    );
            lemma_first_unseen_is_unseen(adjacency, other, other[j] as int, one[k]);
        }
        assert(depth_first_next(adjacency, other.take(k), other[k]));
        lemma_depth_first_next_is_unique(adjacency, one.take(k), one[k], other[k]);
        assert(one.take(upto) =~= one.take(k).push(one[k]));
        assert(other.take(upto) =~= other.take(k).push(other[k]));
    }
}

/// The depth-first order of the vertices is one order only.
pub proof fn lemma_depth_first_order_is_unique(
    adjacency: Seq<Seq<Edge>>,
    start: usize,
    one: Seq<usize>,
    other: Seq<usize>,
)
    requires
        is_depth_first_order(adjacency, start, one),
        is_depth_first_order(adjacency, start, other),
    ensures
        one == other,
{
    lemma_depth_first_orders_agree(adjacency, start, one, other, one.len() as int);
    lemma_depth_first_orders_agree(adjacency, start, other, one, other.len() as int);
    assert(one.take(one.len() as int) =~= one);
    assert(other.take(other.len() as int) =~= other);
}

proof fn lemma_breadth_first_orders_agree(
    adjacency: Seq<Seq<Edge>>,
    start: usize,
    one: Seq<usize>,
    other: Seq<usize>,
    upto: int,
)
    requires
        is_breadth_first_order(adjacency, start, one),
        is_breadth_first_order(adjacency, start, other),
        1 <= upto <= one.len(),
    ensures
        upto <= other.len(),
        one.take(upto) == other.take(upto),
    decreases upto,
{
    if upto == 1 {
        assert(one.take(1) =~= other.take(1));
    } else {
        let k = upto - 1;
        lemma_breadth_first_orders_agree(adjacency, start, one, other, k);
        assert(breadth_first_next(adjacency, one.take(k), one[k]));
        if other.len() == k {
            assert(other.take(k) =~= other);
            let j = choose|j: int|
                0 <= j < other.len() && first_unseen(
                    adjacency,
                    other,
                    (#[trigger] other[j]) as int,
                    one[k],
                ) && forall|earlier: int|
                    0 <= earlier < j ==> !has_unseen(
                        adjacency,
                        other,
                        (#[trigger] other[earlier]) as int,
                    );
            lemma_first_unseen_is_unseen(adjacency, other, other[j] as int, one[k]);
        }
        assert(breadth_first_next(adjacency, other.take(k), other[k]));
        lemma_breadth_first_next_is_unique(adjacency, one.take(k), one[k], other[k]);
        assert(one.take(upto) =~= one.take(k).push(one[k]));
        assert(other.take(upto) =~= other.take(k).push(other[k]));
    }
}

/// The breadth-first order of the vertices is one order only.
pub proof fn lemma_breadth_first_order_is_unique(
    adjacency: Seq<Seq<Edge>>,
    start: usize,
    one: Seq<usize>,
    other: Seq<usize>,
)
    requires
        is_breadth_first_order(adjacency, start, one),
        is_breadth_first_order(adjacency, start, other),
    ensures
        one == other,
{
    lemma_breadth_first_orders_agree(adjacency, start, one, other, one.len() as int);
    lemma_breadth_first_orders_agree(adjacency, start, other, one, other.len() as int);
    assert(one.take(one.len() as int) =~= one);
    assert(other.take(other.len() as int) =~= other);
}

impl Graph {
    /// The vertices that can be reached from `start`, in the order in which a depth-first
    /// traversal comes to them that takes the edges of each vertex in the order of its list.
    pub fn dfs(&self, start: usize) -> (order: Vec<usize>)
        requires
            self.well_formed(),
            start < self.vertices,
        ensures
            is_depth_first_order(self.adjacency(), start, order@),
    {
        let mut visited: Vec<bool> = Vec::new();
        let mut v: usize = 0;
        while v < self.vertices
            invariant
                v <= self.vertices,
                visited.len() == v,
                forall|u: int| 0 <= u < v ==> !(#[trigger] visited[u]),
            decreases self.vertices - v,
        {
            visited.push(false);
            v += 1;
        }
        let mut result: Vec<usize> = Vec::new();
        self.dfs_util(start, &mut visited, &mut result);
        proof {
            assert(result@.take(0) =~= Seq::<usize>::empty());
        }
        result
    }

    fn dfs_util(&self, vertex: usize, visited: &mut Vec<bool>, result: &mut Vec<usize>)
        requires
            self.well_formed(),
            vertex < self.vertices,
            old(visited).len() == self.vertices,
            !old(visited)[vertex as int],
            marks(old(visited)@, old(result)@),
        ensures
            final(visited).len() == self.vertices,
            marks(final(visited)@, final(result)@),
            unmarked(final(visited)@) < unmarked(old(visited)@),
            final(result)@.len() > old(result)@.len(),
            final(result)@.take(old(result)@.len() as int) == old(result)@,
            final(result)@[old(result)@.len() as int] == vertex,
            forall|k: int|
                old(result)@.len() < k < final(result)@.len() ==> depth_first_next(
                    self.adjacency(),
                    final(result)@.take(k),
                    #[trigger] final(result)@[k],
                ),
            forall|j: int|
                old(result)@.len() <= j < final(result)@.len() ==> !has_unseen(
                    self.adjacency(),
                    final(result)@,
                    (#[trigger] final(result)@[j]) as int,
                ),
        decreases unmarked(old(visited)@),
    {
        let ghost adjacency = self.adjacency();
        let ghost at = result@.len() as int;
        proof {
            lemma_mark_one(visited@, vertex as int);
        }
        visited[vertex] = true;
        result.push(vertex);
        proof {
            assert(result@.take(at) =~= old(result)@);
            assert forall|v: int| 0 <= v < visited.len() && #[trigger] visited[v] implies result@.contains(
                v as usize,
            ) by {
                if v == vertex {
                    assert(result@[at] == vertex);
                } else {
                    assert(old(visited)@[v]);
                    let k = choose|k: int| 0 <= k < at && old(result)@[k] == v as usize;
                    assert(result@[k] == v as usize);
                }
            }
        }
        let mut i: usize = 0;
        while i < self.adjacency_list[vertex as usize].len()
            invariant
                self.well_formed(),
                adjacency == self.adjacency(),
                vertex < self.vertices,
                visited.len() == self.vertices,
                marks(visited@, result@),
                unmarked(visited@) < unmarked(old(visited)@),
                i <= self.adjacency_list[vertex as int].len(),
                result@.len() > at,
                at == old(result)@.len(),
                result@.take(at) == old(result)@,
                result@[at] == vertex,
                forall|earlier: int|
                    0 <= earlier < i ==> result@.contains((#[trigger] adjacency[vertex as int][earlier]).to),
                forall|k: int|
                    at < k < result@.len() ==> depth_first_next(
                        adjacency,
                        result@.take(k),
                        #[trigger] result@[k],
                    ),
                forall|j: int|
                    at < j < result@.len() ==> !has_unseen(
                        adjacency,
                        result@,
                        (#[trigger] result@[j]) as int,
                    ),
            decreases self.adjacency_list[vertex as int].len() - i,
        {
            let to = self.adjacency_list[vertex][i].to;
            let ghost seen = result@;
            proof {
                assert(adjacency[vertex as int][i as int] == self.adjacency_list[vertex as int][i as int]);
            }
            if !visited[to] {
                self.dfs_util(to, visited, result);
                proof {
                    let k0 = seen.len() as int;
                    assert(!seen.contains(to)) by {
                        if seen.contains(to) {
                            let k = choose|k: int| 0 <= k < seen.len() && seen[k] == to;
                        }
                    }
                    assert(result@.take(k0) == seen);
                    assert(depth_first_next(adjacency, result@.take(k0), result@[k0])) by {
                        assert(seen[at] == vertex);
                        assert(first_unseen(adjacency, seen, vertex as int, to)) by {
                            assert(adjacency[vertex as int][i as int].to == to);
                        }
                    }
                    assert(result@.take(at) =~= old(result)@) by {
                        assert(result@.take(at) =~= result@.take(k0).take(at));
                    }
                    assert(result@[at] == seen[at]) by {
                        assert(result@.take(k0)[at] == result@[at]);
                    }
                    assert forall|k: int| at < k < result@.len() implies depth_first_next(
                        adjacency,
                        result@.take(k),
                        #[trigger] result@[k],
                    ) by {
                        if k < k0 {
                            assert(result@.take(k) =~= seen.take(k));
                            assert(result@[k] == seen[k]) by {
                                assert(result@.take(k0)[k] == result@[k]);
                            }
                        }
                    }
                    assert forall|j: int| at < j < result@.len() implies !has_unseen(
                        adjacency,
                        result@,
                        (#[trigger] result@[j]) as int,
                    ) by {
                        if j < k0 {
                            assert(result@[j] == seen[j]) by {
                                assert(result@.take(k0)[j] == result@[j]);
                            }
                            lemma_seen_more(adjacency, seen, result@, seen[j] as int);
                        }
                    }
                    assert forall|earlier: int| 0 <= earlier < i + 1 implies result@.contains(
                        (#[trigger] adjacency[vertex as int][earlier]).to,
                    ) by {
                        let t = adjacency[vertex as int][earlier].to;
                        if earlier < i {
                            let k = choose|k: int| 0 <= k < seen.len() && seen[k] == t;
                            assert(result@.take(k0)[k] == result@[k]);
                        } else {
                            assert(result@[k0] == t);
                        }
                    }
                }
            } else {
                proof {
                    assert(result@.contains(to));
                }
            }
            i += 1;
        }
        proof {
            assert(!has_unseen(adjacency, result@, vertex as int));
        }
    }

    /// The vertices that can be reached from `start`, in the order in which a breadth-first
    /// traversal comes to them that takes the edges of each vertex in the order of its list.
    pub fn bfs(&self, start: usize) -> (order: Vec<usize>)
        requires
            self.well_formed(),
            start < self.vertices,
        ensures
            is_breadth_first_order(self.adjacency(), start, order@),
    {
        let ghost adjacency = self.adjacency();
        let mut visited: Vec<bool> = Vec::new();
        let mut v: usize = 0;
        while v < self.vertices
            invariant
                v <= self.vertices,
                visited.len() == v,
                forall|u: int| 0 <= u < v ==> !(#[trigger] visited[u]),
            decreases self.vertices - v,
        {
            visited.push(false);
            v += 1;
        }
        let mut queue: VecDeque<usize> = VecDeque::new();
        let mut result: Vec<usize> = Vec::new();

        proof {
            assert(marks(visited@, Seq::<usize>::empty()));
            lemma_marks_one_more(visited@, Seq::<usize>::empty(), start);
        }
        visited[start] = true;
        queue.push_back(start);
        let ghost mut found: Seq<usize> = Seq::<usize>::empty().push(start);
        proof {
            assert(found =~= result@ + queue@);
            assert(found[0] == start);
            assert(breadth_first_so_far(adjacency, found, 0, 0)) by {
                reveal(breadth_first_so_far);
            }
        }
        loop
            invariant
                self.well_formed(),
                adjacency == self.adjacency(),
                visited.len() == self.vertices,
                found == result@ + queue@,
                found.len() == result@.len() + queue@.len(),
                found.len() > 0,
                found[0] == start,
                marks(visited@, found),
                breadth_first_so_far(adjacency, found, result@.len() as int, 0),
            ensures
                is_breadth_first_order(adjacency, start, result@),
            decreases 2 * unmarked(visited@) + queue@.len(),
        {
            let ghost done = result@.len() as int;
            let ghost budget = 2 * unmarked(visited@) + queue@.len();
            let vertex = match queue.pop_front() {
                Some(vertex) => vertex,
                None => {
                    proof {
                        assert(found =~= result@);
                        lemma_breadth_first_complete(adjacency, found);
                    }
                    break ;
                },
            };
            result.push(vertex);
            proof {
                assert(found =~= result@ + queue@);
                assert(found[done] == vertex);
                assert(found.contains(vertex));
            }
            let mut i: usize = 0;
            while i < self.adjacency_list[vertex as usize].len()
                invariant
                    self.well_formed(),
                    adjacency == self.adjacency(),
                    visited.len() == self.vertices,
                    vertex < self.vertices,
                    i <= self.adjacency_list[vertex as int].len(),
                    found == result@ + queue@,
                    found.len() == result@.len() + queue@.len(),
                    found[0] == start,
                    0 <= done,
                    result@.len() == done + 1,
                    found[done] == vertex,
                    marks(visited@, found),
                    2 * unmarked(visited@) + queue@.len() < budget,
                    breadth_first_so_far(adjacency, found, done, i as int),
                decreases self.adjacency_list[vertex as int].len() - i,
            {
                let to = self.adjacency_list[vertex][i].to;
                proof {
                    assert(adjacency[vertex as int][i as int]
                        == self.adjacency_list[vertex as int][i as int]);
                }
                if !visited[to] {
                    let ghost seen = found;
                    proof {
                        lemma_marks_one_more(visited@, seen, to);
                        lemma_breadth_first_step(adjacency, seen, done, i as int, to);
                    }
                    visited[to] = true;
                    queue.push_back(to);
                    proof {
                        found = seen.push(to);
                        assert(found =~= result@ + queue@);
                        assert(found[done] == seen[done]);
                        assert(found[0] == seen[0]);
                    }
                } else {
                    proof {
                        assert(found.contains(to));
                        lemma_breadth_first_skip(adjacency, found, done, i as int);
                    }
                }
                i += 1;
            }
            proof {
                assert(adjacency[vertex as int].len() == self.adjacency_list[vertex as int].len());
                lemma_breadth_first_done(adjacency, found, done);
            }
        }
        result
    }
}

} // verus!
