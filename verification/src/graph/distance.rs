//! Shortest distances: from one vertex by Dijkstra's algorithm, between all vertices by the
//! algorithm of Floyd and Warshall.
//!
//! The distance from one vertex to another is the least that the weights of the edges of
//! a walk from the one to the other add up to ([`is_distance`]). Sums stop at `u64::MAX`,
//! which is also the distance to a vertex that no walk leads to.

use super::{direct, fits, is_mirrored, lemma_mark_one, unmarked, Edge, Graph};
use vstd::prelude::*;

verus! {

/// The sum of two weights, which stops at `u64::MAX`.
pub open spec fn capped_sum(a: u64, b: u64) -> u64 {
    if a + b >= u64::MAX {
        u64::MAX
    } else {
        (a + b) as u64
    }
}

/// The edge `i` of the list of `from` leads to `to`, and makes `total` of `part`.
pub open spec fn extends(
    adjacency: Seq<Seq<Edge>>,
    from: usize,
    i: int,
    to: usize,
    part: u64,
    total: u64,
) -> bool {
    &&& from < adjacency.len()
    &&& 0 <= i < adjacency[from as int].len()
    &&& adjacency[from as int][i].to == to
    &&& total == capped_sum(part, adjacency[from as int][i].weight)
}

/// Some walk of at most `steps` edges leads from `start` to `to`, and the weights of its
/// edges add up to `total`.
pub open spec fn walk(
    adjacency: Seq<Seq<Edge>>,
    start: usize,
    to: usize,
    total: u64,
    steps: nat,
) -> bool
    decreases steps,
{
    ||| to == start && total == 0
    ||| steps > 0 && exists|from: usize, i: int, part: u64|
        #![trigger extends(adjacency, from, i, to, part, total)]
        walk(adjacency, start, from, part, (steps - 1) as nat) && extends(
            adjacency,
            from,
            i,
            to,
            part,
            total,
        )
}

/// Some walk leads from `start` to `to`, and the weights of its edges add up to `total`.
pub open spec fn reached(adjacency: Seq<Seq<Edge>>, start: usize, to: usize, total: u64) -> bool {
    exists|steps: nat| walk(adjacency, start, to, total, steps)
}

/// `distance` is the least that the weights of a walk from `start` to `to` add up to, or
/// `u64::MAX` if there is no such walk.
pub open spec fn is_distance(
    adjacency: Seq<Seq<Edge>>,
    start: usize,
    to: usize,
    distance: u64,
) -> bool {
    &&& forall|total: u64, steps: nat| #[trigger]
        walk(adjacency, start, to, total, steps) ==> distance <= total
    &&& distance == u64::MAX || reached(adjacency, start, to, distance)
}

/// Two distances of one vertex are the same.
pub proof fn lemma_distance_is_unique(
    adjacency: Seq<Seq<Edge>>,
    start: usize,
    to: usize,
    one: u64,
    other: u64,
)
    requires
        is_distance(adjacency, start, to, one),
        is_distance(adjacency, start, to, other),
    ensures
        one == other,
{
    if one < other {
        let steps = choose|steps: nat| walk(adjacency, start, to, one, steps);
        assert(walk(adjacency, start, to, one, steps));
    }
    if other < one {
        let steps = choose|steps: nat| walk(adjacency, start, to, other, steps);
        assert(walk(adjacency, start, to, other, steps));
    }
}

/// A walk of at most so many steps is a walk of at most more steps.
pub proof fn lemma_walk_longer(
    adjacency: Seq<Seq<Edge>>,
    a: usize,
    b: usize,
    total: u64,
    steps: nat,
    more: nat,
)
    requires
        walk(adjacency, a, b, total, steps),
        steps <= more,
    ensures
        walk(adjacency, a, b, total, more),
    decreases steps,
{
    if !(b == a && total == 0) {
        let (from, i, part) = choose|from: usize, i: int, part: u64|
            #![trigger extends(adjacency, from, i, b, part, total)]
            walk(adjacency, a, from, part, (steps - 1) as nat) && extends(
                adjacency,
                from,
                i,
                b,
                part,
                total,
            );
        lemma_walk_longer(adjacency, a, from, part, (steps - 1) as nat, (more - 1) as nat);
        assert(extends(adjacency, from, i, b, part, total));
    }
}

/// A walk and a walk on from its end make one walk, of their weights together.
pub proof fn lemma_walks_join(
    adjacency: Seq<Seq<Edge>>,
    a: usize,
    b: usize,
    c: usize,
    first: u64,
    first_steps: nat,
    second: u64,
    second_steps: nat,
)
    requires
        walk(adjacency, a, b, first, first_steps),
        walk(adjacency, b, c, second, second_steps),
    ensures
        walk(adjacency, a, c, capped_sum(first, second), first_steps + second_steps),
    decreases second_steps,
{
    if c == b && second == 0 {
        lemma_walk_longer(adjacency, a, b, first, first_steps, first_steps + second_steps);
    } else {
        let (from, i, part) = choose|from: usize, i: int, part: u64|
            #![trigger extends(adjacency, from, i, c, part, second)]
            walk(adjacency, b, from, part, (second_steps - 1) as nat) && extends(
                adjacency,
                from,
                i,
                c,
                part,
                second,
            );
        lemma_walks_join(adjacency, a, b, from, first, first_steps, part, (second_steps - 1) as nat);
        assert(extends(adjacency, from, i, c, capped_sum(first, part), capped_sum(first, second)));
    }
}

/// The triangle inequality: the distance from `a` to `c` is at most the distance from `a`
/// to `b` and that from `b` to `c` together.
pub proof fn lemma_triangle_inequality(
    adjacency: Seq<Seq<Edge>>,
    a: usize,
    b: usize,
    c: usize,
    ab: u64,
    bc: u64,
    ac: u64,
)
    requires
        is_distance(adjacency, a, b, ab),
        is_distance(adjacency, b, c, bc),
        is_distance(adjacency, a, c, ac),
    ensures
        ac <= capped_sum(ab, bc),
{
    if ab != u64::MAX && bc != u64::MAX {
        let n = choose|n: nat| walk(adjacency, a, b, ab, n);
        let m = choose|m: nat| walk(adjacency, b, c, bc, m);
        lemma_walks_join(adjacency, a, b, c, ab, n, bc, m);
    }
}

/// Every edge has an edge of the same weight that leads back.
pub open spec fn is_undirected(adjacency: Seq<Seq<Edge>>) -> bool {
    forall|from: int, i: int|
        0 <= from < adjacency.len() && 0 <= i < adjacency[from].len() ==> (
        #[trigger] adjacency[from][i]).to < adjacency.len() && adjacency[adjacency[from][i].to as int].contains(
            Edge { to: from as usize, weight: adjacency[from][i].weight },
        )
}

/// In an undirected graph, a walk can be walked back.
pub proof fn lemma_walk_back(adjacency: Seq<Seq<Edge>>, a: usize, b: usize, total: u64, steps: nat)
    requires
        is_undirected(adjacency),
        walk(adjacency, a, b, total, steps),
    ensures
        walk(adjacency, b, a, total, steps),
    decreases steps,
{
    if !(b == a && total == 0) {
        let (from, i, part) = choose|from: usize, i: int, part: u64|
            #![trigger extends(adjacency, from, i, b, part, total)]
            walk(adjacency, a, from, part, (steps - 1) as nat) && extends(
                adjacency,
                from,
                i,
                b,
                part,
                total,
            );
        lemma_walk_back(adjacency, a, from, part, (steps - 1) as nat);
        let edge = adjacency[from as int][i];
        let back = Edge { to: from, weight: edge.weight };
        assert(adjacency[b as int].contains(back));
        let j = choose|j: int| 0 <= j < adjacency[b as int].len() && adjacency[b as int][j] == back;
        assert(walk(adjacency, b, b, 0, 0));
        assert(extends(adjacency, b, j, from, 0, capped_sum(0, edge.weight)));
        assert(walk(adjacency, b, from, capped_sum(0, edge.weight), 1));
        lemma_walks_join(adjacency, b, from, a, edge.weight, 1, part, (steps - 1) as nat);
    }
}

/// In an undirected graph, the distance from `a` to `b` is the distance from `b` to `a`.
pub proof fn lemma_distance_is_symmetric(adjacency: Seq<Seq<Edge>>, a: usize, b: usize, distance: u64)
    requires
        is_undirected(adjacency),
        is_distance(adjacency, a, b, distance),
    ensures
        is_distance(adjacency, b, a, distance),
{
    assert forall|total: u64, steps: nat| #[trigger]
        walk(adjacency, b, a, total, steps) implies distance <= total by {
        lemma_walk_back(adjacency, b, a, total, steps);
    }
    if distance != u64::MAX {
        let n = choose|n: nat| walk(adjacency, a, b, distance, n);
        lemma_walk_back(adjacency, a, b, distance, n);
    }
}

/// The distances of the vertices in `visited` are final: each is attained by a walk, no walk
/// to such a vertex is shorter, all edges that leave such a vertex are relaxed, and no vertex
/// outside is nearer than one inside. Of the edges of `current`, only the first `upto` need
/// be relaxed.
#[verifier::opaque]
spec fn settled(
    adjacency: Seq<Seq<Edge>>,
    start: usize,
    visited: Seq<bool>,
    distances: Seq<u64>,
    current: int,
    upto: int,
) -> bool {
    &&& distances[start as int] == 0
    &&& forall|v: int|
        0 <= v < distances.len() ==> #[trigger] distances[v] == u64::MAX || reached(
            adjacency,
            start,
            v as usize,
            distances[v],
        )
    &&& forall|s: int, i: int|
        0 <= s < visited.len() && visited[s] && 0 <= i < adjacency[s].len() && (s != current || i
            < upto) ==> distances[(#[trigger] adjacency[s][i]).to as int] <= capped_sum(
            distances[s],
            adjacency[s][i].weight,
        )
    &&& forall|s: int, t: int|
        0 <= s < visited.len() && 0 <= t < visited.len() && #[trigger] visited[s]
            && !#[trigger] visited[t] ==> distances[s] <= distances[t]
    &&& forall|s: int, total: u64, steps: nat|
        0 <= s < visited.len() && visited[s] && #[trigger] walk(
            adjacency,
            start,
            s as usize,
            total,
            steps,
        ) ==> distances[s] <= total
    &&& 0 <= current < visited.len() ==> forall|s: int|
        0 <= s < visited.len() && #[trigger] visited[s] ==> distances[s] <= distances[current]
}

/// Before any vertex is visited, with only `start` at distance 0, all is settled.
proof fn lemma_settled_at_first(adjacency: Seq<Seq<Edge>>, start: usize, visited: Seq<bool>, distances: Seq<u64>)
    requires
        start < distances.len(),
        visited.len() == distances.len(),
        forall|v: int| 0 <= v < visited.len() ==> !#[trigger] visited[v],
        distances[start as int] == 0,
        forall|v: int| 0 <= v < distances.len() && v != start ==> #[trigger] distances[v] == u64::MAX,
    ensures
        settled(adjacency, start, visited, distances, -1, 0),
{
    reveal(settled);
    assert(walk(adjacency, start, start, 0, 0));
}

/// With `nearest` the nearest of the vertices not visited, no walk to it is shorter than its
/// distance, and no walk to a visited vertex is shorter than that vertex's distance.
proof fn lemma_walks_are_no_shorter(
    adjacency: Seq<Seq<Edge>>,
    start: usize,
    visited: Seq<bool>,
    distances: Seq<u64>,
    nearest: int,
    to: usize,
    total: u64,
    steps: nat,
)
    requires
        fits(adjacency, distances.len() as int),
        visited.len() == distances.len(),
        start < distances.len(),
        settled(adjacency, start, visited, distances, -1, 0),
        0 <= nearest < visited.len(),
        !visited[nearest],
        forall|t: int| 0 <= t < visited.len() && !#[trigger] visited[t] ==> distances[nearest] <= distances[t],
        walk(adjacency, start, to, total, steps),
    ensures
        to < distances.len(),
        visited[to as int] ==> distances[to as int] <= total,
        !visited[to as int] ==> distances[nearest] <= total,
    decreases steps,
{
    reveal(settled);
    if to == start && total == 0 {
    } else {
        let (from, i, part) = choose|from: usize, i: int, part: u64|
            #![trigger extends(adjacency, from, i, to, part, total)]
            walk(adjacency, start, from, part, (steps - 1) as nat) && extends(
                adjacency,
                from,
                i,
                to,
                part,
                total,
            );
        lemma_walks_are_no_shorter(
            adjacency,
            start,
            visited,
            distances,
            nearest,
            from,
            part,
            (steps - 1) as nat,
        );
        let edge = adjacency[from as int][i];
        assert(edge.to == to);
        if visited[from as int] {
            assert(distances[edge.to as int] <= capped_sum(distances[from as int], edge.weight));
        }
    }
}

/// Visiting the nearest of the vertices not visited.
proof fn lemma_visit_nearest(
    adjacency: Seq<Seq<Edge>>,
    start: usize,
    visited: Seq<bool>,
    distances: Seq<u64>,
    nearest: int,
)
    requires
        fits(adjacency, distances.len() as int),
        visited.len() == distances.len(),
        start < distances.len(),
        settled(adjacency, start, visited, distances, -1, 0),
        0 <= nearest < visited.len(),
        !visited[nearest],
        forall|t: int| 0 <= t < visited.len() && !#[trigger] visited[t] ==> distances[nearest] <= distances[t],
    ensures
        settled(adjacency, start, visited.update(nearest, true), distances, nearest, 0),
{
    let after = visited.update(nearest, true);
    assert forall|s: int, total: u64, steps: nat|
        0 <= s < after.len() && after[s] && #[trigger] walk(
            adjacency,
            start,
            s as usize,
            total,
            steps,
        ) implies distances[s] <= total by {
        lemma_walks_are_no_shorter(
            adjacency,
            start,
            visited,
            distances,
            nearest,
            s as usize,
            total,
            steps,
        );
    }
    reveal(settled);
    assert forall|s: int, t: int|
        0 <= s < after.len() && 0 <= t < after.len() && #[trigger] after[s]
            && !#[trigger] after[t] implies distances[s] <= distances[t] by {
        assert(!visited[t]);
        if s != nearest {
            assert(visited[s]);
        }
    }
    assert forall|s: int| 0 <= s < after.len() && #[trigger] after[s] implies distances[s]
        <= distances[nearest] by {
        if s != nearest {
            assert(visited[s] && !visited[nearest]);
        }
    }
    assert forall|s: int, i: int|
        0 <= s < after.len() && after[s] && 0 <= i < adjacency[s].len() && (s != nearest || i
            < 0) implies distances[(#[trigger] adjacency[s][i]).to as int] <= capped_sum(
        distances[s],
        adjacency[s][i].weight,
    ) by {
        assert(visited[s]);
    }
}

/// Relaxing the edge `upto` of the vertex `current` that is being visited.
proof fn lemma_relax(
    adjacency: Seq<Seq<Edge>>,
    start: usize,
    visited: Seq<bool>,
    distances: Seq<u64>,
    current: int,
    upto: int,
)
    requires
        fits(adjacency, distances.len() as int),
        visited.len() == distances.len(),
        start < distances.len(),
        0 <= current < visited.len(),
        visited[current],
        0 <= upto < adjacency[current].len(),
        settled(adjacency, start, visited, distances, current, upto),
    ensures
        ({
            let edge = adjacency[current][upto];
            let through = capped_sum(distances[current], edge.weight);
            settled(
                adjacency,
                start,
                visited,
                if through < distances[edge.to as int] {
                    distances.update(edge.to as int, through)
                } else {
                    distances
                },
                current,
                upto + 1,
            )
        }),
{
    reveal(settled);
    let edge = adjacency[current][upto];
    let to = edge.to as int;
    let through = capped_sum(distances[current], edge.weight);
    if through < distances[to] {
        let after = distances.update(to, through);
        assert(!visited[to]) by {
            if visited[to] {
                if to != current {
                    assert(visited[to] && visited[current]);
                }
            }
        }
        assert(to != start) by {
            assert(distances[start as int] == 0);
        }
        assert forall|v: int| 0 <= v < after.len() implies #[trigger] after[v] == u64::MAX || reached(
            adjacency,
            start,
            v as usize,
            after[v],
        ) by {
            if v == to {
                assert(distances[current] != u64::MAX);
                let from = current as usize;
                let part = distances[current];
                assert(reached(adjacency, start, from, part));
                let steps = choose|steps: nat| walk(adjacency, start, from, part, steps);
                assert(extends(
                    adjacency,
                    current as usize,
                    upto,
                    to as usize,
                    distances[current],
                    through,
                ));
                assert(walk(adjacency, start, to as usize, through, steps + 1));
            } else {
                assert(after[v] == distances[v]);
            }
        }
        assert forall|s: int, i: int|
            0 <= s < visited.len() && visited[s] && 0 <= i < adjacency[s].len() && (s != current
                || i < upto + 1) implies after[(#[trigger] adjacency[s][i]).to as int]
            <= capped_sum(after[s], adjacency[s][i].weight) by {
            let target = adjacency[s][i].to as int;
            assert(after[s] == distances[s]);
            if s == current && i == upto {
            } else {
                assert(distances[target] <= capped_sum(distances[s], adjacency[s][i].weight));
            }
        }
        assert forall|s: int, t: int|
            0 <= s < visited.len() && 0 <= t < visited.len() && #[trigger] visited[s]
                && !#[trigger] visited[t] implies after[s] <= after[t] by {
            assert(after[s] == distances[s]);
            assert(distances[s] <= distances[to]);
            if t == to {
                assert(distances[s] <= distances[current]);
            }
        }
        assert forall|s: int, total: u64, steps: nat|
            0 <= s < visited.len() && visited[s] && #[trigger] walk(
                adjacency,
                start,
                s as usize,
                total,
                steps,
            ) implies after[s] <= total by {
            assert(after[s] == distances[s]);
        }
    }
}

/// When all edges of the vertex being visited are relaxed, the visit is over.
proof fn lemma_visit_over(
    adjacency: Seq<Seq<Edge>>,
    start: usize,
    visited: Seq<bool>,
    distances: Seq<u64>,
    current: int,
)
    requires
        0 <= current < visited.len(),
        settled(adjacency, start, visited, distances, current, adjacency[current].len() as int),
    ensures
        settled(adjacency, start, visited, distances, -1, 0),
{
    reveal(settled);
}

/// When all vertices are visited, every distance is what [`is_distance`] says.
proof fn lemma_all_settled(
    adjacency: Seq<Seq<Edge>>,
    start: usize,
    visited: Seq<bool>,
    distances: Seq<u64>,
)
    requires
        visited.len() == distances.len(),
        distances.len() <= usize::MAX,
        settled(adjacency, start, visited, distances, -1, 0),
        forall|v: int| 0 <= v < visited.len() ==> #[trigger] visited[v],
    ensures
        forall|v: int|
            0 <= v < distances.len() ==> is_distance(
                adjacency,
                start,
                v as usize,
                #[trigger] distances[v],
            ),
{
    reveal(settled);
    assert forall|v: int| 0 <= v < distances.len() implies is_distance(
        adjacency,
        start,
        v as usize,
        #[trigger] distances[v],
    ) by {
        assert(visited[v]);
    }
}

/// The graph with one edge from every vertex to every vertex, in the order of the vertices:
/// of weight 0 from a vertex to itself, and otherwise of the weight of the last edge
/// between the two in the lists, or `u64::MAX` if there is none.
pub open spec fn direct_graph(adjacency: Seq<Seq<Edge>>) -> Seq<Seq<Edge>> {
    Seq::new(
        adjacency.len(),
        |from: int|
            Seq::new(
                adjacency.len(),
                |to: int|
                    Edge {
                        to: to as usize,
                        weight: if from == to {
                            0
                        } else {
                            direct(adjacency[from], to as usize)
                        },
                    },
            ),
    )
}

/// The graph of the last edges of a mirrored graph is undirected.
pub proof fn lemma_direct_graph_is_undirected(adjacency: Seq<Seq<Edge>>)
    requires
        adjacency.len() <= usize::MAX,
        is_mirrored(adjacency),
    ensures
        is_undirected(direct_graph(adjacency)),
{
    let graph = direct_graph(adjacency);
    assert forall|from: int, i: int|
        0 <= from < graph.len() && 0 <= i < graph[from].len() implies (#[trigger] graph[from][i]).to
        < graph.len() && graph[graph[from][i].to as int].contains(
        Edge { to: from as usize, weight: graph[from][i].weight },
    ) by {
        assert(direct(adjacency[from], i as usize) == direct(adjacency[i], from as usize));
        assert(graph[i][from] == Edge { to: from as usize, weight: graph[from][i].weight });
    }
}

/// The weights of the edges of `graph`, which has one edge from every vertex to every
/// vertex: a square of numbers.
spec fn weights_of(graph: Seq<Seq<Edge>>) -> Seq<Seq<u64>> {
    Seq::new(graph.len(), |from: int| Seq::new(graph.len(), |to: int| graph[from][to].weight))
}

/// `square` is a square of `size` rows of `size` numbers.
spec fn is_square(square: Seq<Seq<u64>>, size: int) -> bool {
    &&& square.len() == size
    &&& forall|row: int| 0 <= row < size ==> (#[trigger] square[row]).len() == size
}

/// Some walk of at most `steps` edges leads from `from` to `to` whose weights, taken from
/// the square `direct`, add up to `total`, and which passes, between its ends, only through
/// `from` and through vertices below `below`.
spec fn walk_through(
    direct: Seq<Seq<u64>>,
    below: int,
    from: int,
    to: int,
    total: u64,
    steps: nat,
) -> bool
    decreases steps,
{
    ||| from == to && total == 0
    ||| steps > 0 && exists|mid: int, part: u64|
        #![trigger goes_on(direct, below, from, mid, to, part, total)]
        walk_through(direct, below, from, mid, part, (steps - 1) as nat) && goes_on(
            direct,
            below,
            from,
            mid,
            to,
            part,
            total,
        )
}

/// The edge from `mid` to `to` makes `total` of `part`, and `mid` is `from` or below `below`.
spec fn goes_on(
    direct: Seq<Seq<u64>>,
    below: int,
    from: int,
    mid: int,
    to: int,
    part: u64,
    total: u64,
) -> bool {
    &&& 0 <= mid < direct.len()
    &&& mid == from || mid < below
    &&& total == capped_sum(part, direct[mid][to])
}

/// Some walk leads from `from` to `to` as [`walk_through`] says.
spec fn reached_through(direct: Seq<Seq<u64>>, below: int, from: int, to: int, total: u64) -> bool {
    exists|steps: nat| walk_through(direct, below, from, to, total, steps)
}

/// `distance` is the least total of the walks from `from` to `to` that pass only through
/// vertices below `below`, or `u64::MAX` if there is none.
spec fn is_distance_through(
    direct: Seq<Seq<u64>>,
    below: int,
    from: int,
    to: int,
    distance: u64,
) -> bool {
    &&& forall|total: u64, steps: nat| #[trigger]
        walk_through(direct, below, from, to, total, steps) ==> distance <= total
    &&& distance == u64::MAX || reached_through(direct, below, from, to, distance)
}

/// A walk that may pass through fewer vertices may pass through more.
proof fn lemma_walk_through_more(
    direct: Seq<Seq<u64>>,
    below: int,
    from: int,
    to: int,
    total: u64,
    steps: nat,
)
    requires
        walk_through(direct, below, from, to, total, steps),
    ensures
        walk_through(direct, below + 1, from, to, total, steps),
    decreases steps,
{
    if !(from == to && total == 0) {
        let (mid, part) = choose|mid: int, part: u64|
            #![trigger goes_on(direct, below, from, mid, to, part, total)]
            walk_through(direct, below, from, mid, part, (steps - 1) as nat) && goes_on(
                direct,
                below,
                from,
                mid,
                to,
                part,
                total,
            );
        lemma_walk_through_more(direct, below, from, mid, part, (steps - 1) as nat);
        assert(goes_on(direct, below + 1, from, mid, to, part, total));
    }
}

/// A walk of at most so many steps is a walk of at most more steps.
proof fn lemma_walk_through_longer(
    direct: Seq<Seq<u64>>,
    below: int,
    from: int,
    to: int,
    total: u64,
    steps: nat,
    more: nat,
)
    requires
        walk_through(direct, below, from, to, total, steps),
        steps <= more,
    ensures
        walk_through(direct, below, from, to, total, more),
    decreases steps,
{
    if !(from == to && total == 0) {
        let (mid, part) = choose|mid: int, part: u64|
            #![trigger goes_on(direct, below, from, mid, to, part, total)]
            walk_through(direct, below, from, mid, part, (steps - 1) as nat) && goes_on(
                direct,
                below,
                from,
                mid,
                to,
                part,
                total,
            );
        lemma_walk_through_longer(direct, below, from, mid, part, (steps - 1) as nat, (more - 1) as nat);
        assert(goes_on(direct, below, from, mid, to, part, total));
    }
}

/// A walk to `below` and a walk on from there make a walk that passes through `below`.
proof fn lemma_walks_join_at(
    direct: Seq<Seq<u64>>,
    below: int,
    from: int,
    to: int,
    first: u64,
    first_steps: nat,
    second: u64,
    second_steps: nat,
)
    requires
        0 <= below < direct.len(),
        walk_through(direct, below, from, below, first, first_steps),
        walk_through(direct, below, below, to, second, second_steps),
    ensures
        walk_through(direct, below + 1, from, to, capped_sum(first, second), first_steps + second_steps),
    decreases second_steps,
{
    if below == to && second == 0 {
        lemma_walk_through_more(direct, below, from, below, first, first_steps);
        lemma_walk_through_longer(direct, below + 1, from, to, first, first_steps, first_steps + second_steps);
    } else {
        let (mid, part) = choose|mid: int, part: u64|
            #![trigger goes_on(direct, below, below, mid, to, part, second)]
            walk_through(direct, below, below, mid, part, (second_steps - 1) as nat) && goes_on(
                direct,
                below,
                below,
                mid,
                to,
                part,
                second,
            );
        lemma_walks_join_at(
            direct,
            below,
            from,
            mid,
            first,
            first_steps,
            part,
            (second_steps - 1) as nat,
        );
        assert(goes_on(
            direct,
            below + 1,
            from,
            mid,
            to,
            capped_sum(first, part),
            capped_sum(first, second),
        ));
    }
}

/// A walk that may pass through `below` is no shorter than some walk that does not, or than
/// some walk to `below` and some walk on from there together.
proof fn lemma_walk_splits_at(
    direct: Seq<Seq<u64>>,
    below: int,
    from: int,
    to: int,
    total: u64,
    steps: nat,
)
    requires
        0 <= below < direct.len(),
        0 <= from < direct.len(),
        walk_through(direct, below + 1, from, to, total, steps),
    ensures
        (exists|less: u64| #[trigger] reached_through(direct, below, from, to, less) && less <= total)
            || (exists|first: u64, second: u64|
            #![trigger reached_through(direct, below, from, below, first), reached_through(direct, below, below, to, second)]
            reached_through(direct, below, from, below, first) && reached_through(
                direct,
                below,
                below,
                to,
                second,
            ) && capped_sum(first, second) <= total),
    decreases steps,
{
    if from == to && total == 0 {
        assert(walk_through(direct, below, from, to, 0, 0));
        assert(reached_through(direct, below, from, to, 0));
    } else {
        let (mid, part) = choose|mid: int, part: u64|
            #![trigger goes_on(direct, below + 1, from, mid, to, part, total)]
            walk_through(direct, below + 1, from, mid, part, (steps - 1) as nat) && goes_on(
                direct,
                below + 1,
                from,
                mid,
                to,
                part,
                total,
            );
        let hop = direct[mid][to];
        lemma_walk_splits_at(direct, below, from, mid, part, (steps - 1) as nat);
        assert(walk_through(direct, below, from, from, 0, 0));
        assert(walk_through(direct, below, below, below, 0, 0));
        if mid == from {
            assert(goes_on(direct, below, from, from, to, 0, capped_sum(0, hop)));
            assert(walk_through(direct, below, from, to, capped_sum(0, hop), 1));
            assert(reached_through(direct, below, from, to, capped_sum(0, hop)));
        } else if exists|less: u64| #[trigger]
            reached_through(direct, below, from, mid, less) && less <= part {
            let less = choose|less: u64| #[trigger]
                reached_through(direct, below, from, mid, less) && less <= part;
            let n = choose|n: nat| walk_through(direct, below, from, mid, less, n);
            if mid < below {
                assert(goes_on(direct, below, from, mid, to, less, capped_sum(less, hop)));
                assert(walk_through(direct, below, from, to, capped_sum(less, hop), n + 1));
                assert(reached_through(direct, below, from, to, capped_sum(less, hop)));
            } else {
                assert(goes_on(direct, below, below, below, to, 0, capped_sum(0, hop)));
                assert(walk_through(direct, below, below, to, capped_sum(0, hop), 1));
                assert(reached_through(direct, below, below, to, capped_sum(0, hop)));
                assert(reached_through(direct, below, from, below, less));
                assert(capped_sum(less, capped_sum(0, hop)) <= total);
            }
        } else {
            let (first, second) = choose|first: u64, second: u64|
                #![trigger reached_through(direct, below, from, below, first), reached_through(direct, below, below, mid, second)]
                reached_through(direct, below, from, below, first) && reached_through(
                    direct,
                    below,
                    below,
                    mid,
                    second,
                ) && capped_sum(first, second) <= part;
            if mid < below {
                let n = choose|n: nat| walk_through(direct, below, below, mid, second, n);
                assert(goes_on(direct, below, below, mid, to, second, capped_sum(second, hop)));
                assert(walk_through(direct, below, below, to, capped_sum(second, hop), n + 1));
                assert(reached_through(direct, below, below, to, capped_sum(second, hop)));
                assert(capped_sum(first, capped_sum(second, hop)) <= total);
            } else {
                assert(goes_on(direct, below, below, below, to, 0, capped_sum(0, hop)));
                assert(walk_through(direct, below, below, to, capped_sum(0, hop), 1));
                assert(reached_through(direct, below, below, to, capped_sum(0, hop)));
                assert(capped_sum(first, capped_sum(0, hop)) <= total);
            }
        }
    }
}

/// The distances through the vertices below `below + 1`, from those through the vertices
/// below `below`.
proof fn lemma_distance_through_one_more(
    direct: Seq<Seq<u64>>,
    below: int,
    from: int,
    to: int,
    straight: u64,
    first: u64,
    second: u64,
)
    requires
        0 <= below < direct.len(),
        0 <= from < direct.len(),
        is_distance_through(direct, below, from, to, straight),
        is_distance_through(direct, below, from, below, first),
        is_distance_through(direct, below, below, to, second),
    ensures
        is_distance_through(
            direct,
            below + 1,
            from,
            to,
            if capped_sum(first, second) < straight {
                capped_sum(first, second)
            } else {
                straight
            },
        ),
{
    let around = capped_sum(first, second);
    let best = if around < straight {
        around
    } else {
        straight
    };
    assert forall|total: u64, steps: nat| #[trigger]
        walk_through(direct, below + 1, from, to, total, steps) implies best <= total by {
        lemma_walk_splits_at(direct, below, from, to, total, steps);
        if exists|less: u64| #[trigger] reached_through(direct, below, from, to, less) && less <= total {
            let less = choose|less: u64| #[trigger]
                reached_through(direct, below, from, to, less) && less <= total;
            let n = choose|n: nat| walk_through(direct, below, from, to, less, n);
            assert(walk_through(direct, below, from, to, less, n));
        } else {
            let (a, b) = choose|a: u64, b: u64|
                #![trigger reached_through(direct, below, from, below, a), reached_through(direct, below, below, to, b)]
                reached_through(direct, below, from, below, a) && reached_through(
                    direct,
                    below,
                    below,
                    to,
                    b,
                ) && capped_sum(a, b) <= total;
            let n = choose|n: nat| walk_through(direct, below, from, below, a, n);
            let m = choose|m: nat| walk_through(direct, below, below, to, b, m);
            assert(walk_through(direct, below, from, below, a, n));
            assert(walk_through(direct, below, below, to, b, m));
        }
    }
    if best != u64::MAX {
        if around < straight {
            let n = choose|n: nat| walk_through(direct, below, from, below, first, n);
            let m = choose|m: nat| walk_through(direct, below, below, to, second, m);
            lemma_walks_join_at(direct, below, from, to, first, n, second, m);
            assert(reached_through(direct, below + 1, from, to, around));
        } else {
            let n = choose|n: nat| walk_through(direct, below, from, to, straight, n);
            lemma_walk_through_more(direct, below, from, to, straight, n);
            assert(reached_through(direct, below + 1, from, to, straight));
        }
    }
}

/// Through no vertex at all, the distance is the weight of the edge; from a vertex to itself,
/// it is 0.
proof fn lemma_distance_through_none(direct: Seq<Seq<u64>>, from: int, to: int)
    requires
        0 <= from < direct.len(),
        direct[from][from] == 0,
    ensures
        is_distance_through(direct, 0, from, to, direct[from][to]),
{
    let hop = direct[from][to];
    assert forall|total: u64, steps: nat| #[trigger]
        walk_through(direct, 0, from, to, total, steps) implies hop <= total by {
        if !(from == to && total == 0) {
            let (mid, part) = choose|mid: int, part: u64|
                #![trigger goes_on(direct, 0, from, mid, to, part, total)]
                walk_through(direct, 0, from, mid, part, (steps - 1) as nat) && goes_on(
                    direct,
                    0,
                    from,
                    mid,
                    to,
                    part,
                    total,
                );
        }
    }
    assert(walk_through(direct, 0, from, from, 0, 0));
    assert(goes_on(direct, 0, from, from, to, 0, capped_sum(0, hop)));
    assert(walk_through(direct, 0, from, to, capped_sum(0, hop), 1));
    assert(reached_through(direct, 0, from, to, hop));
}

/// The graph has one edge from every vertex to every vertex, in the order of the vertices.
spec fn is_complete(graph: Seq<Seq<Edge>>) -> bool {
    forall|u: int|
        0 <= u < graph.len() ==> (#[trigger] graph[u]).len() == graph.len() && forall|v: int|
            0 <= v < graph.len() ==> (#[trigger] graph[u][v]).to == v
}

/// Walks through any vertex of a graph that has one edge from every vertex to every vertex
/// are the walks of that graph.
proof fn lemma_walk_through_all(
    graph: Seq<Seq<Edge>>,
    from: usize,
    to: usize,
    total: u64,
    steps: nat,
)
    requires
        graph.len() <= usize::MAX,
        from < graph.len(),
        is_complete(graph),
    ensures
        walk(graph, from, to, total, steps) <==> walk_through(
            weights_of(graph),
            graph.len() as int,
            from as int,
            to as int,
            total,
            steps,
        ) && to < graph.len(),
    decreases steps,
{
    let direct = weights_of(graph);
    let n = graph.len() as int;
    if walk(graph, from, to, total, steps) && !(to == from && total == 0) {
        let (via, i, part) = choose|via: usize, i: int, part: u64|
            #![trigger extends(graph, via, i, to, part, total)]
            walk(graph, from, via, part, (steps - 1) as nat) && extends(
                graph,
                via,
                i,
                to,
                part,
                total,
            );
        lemma_walk_through_all(graph, from, via, part, (steps - 1) as nat);
        assert(graph[via as int].len() == graph.len());
        assert(graph[via as int][i].to == i);
        assert(direct[via as int][to as int] == graph[via as int][to as int].weight);
        assert(goes_on(direct, n, from as int, via as int, to as int, part, total));
    }
    if walk_through(direct, n, from as int, to as int, total, steps) && to < graph.len() && !(to
        == from && total == 0) {
        let (mid, part) = choose|mid: int, part: u64|
            #![trigger goes_on(direct, n, from as int, mid, to as int, part, total)]
            walk_through(direct, n, from as int, mid, part, (steps - 1) as nat) && goes_on(
                direct,
                n,
                from as int,
                mid,
                to as int,
                part,
                total,
            );
        lemma_walk_through_all(graph, from, mid as usize, part, (steps - 1) as nat);
        assert(graph[mid].len() == graph.len());
        assert(graph[mid][to as int].to == to);
        assert(direct[mid][to as int] == graph[mid][to as int].weight);
        assert(extends(graph, mid as usize, to as int, to, part, total));
    }
}

/// The rows of a table of numbers.
spec fn rows(table: Seq<Vec<u64>>) -> Seq<Seq<u64>> {
    Seq::new(table.len(), |row: int| table[row]@)
}

/// Every number of the square `distances` is the distance through the vertices below
/// `below`.
#[verifier::opaque]
spec fn all_through(direct: Seq<Seq<u64>>, below: int, distances: Seq<Seq<u64>>) -> bool {
    forall|from: int, to: int|
        0 <= from < direct.len() && 0 <= to < direct.len() ==> is_distance_through(
            direct,
            below,
            from,
            to,
            #[trigger] distances[from][to],
        )
}

/// What the distance from `from` to `to` becomes when walks may pass through `through`.
spec fn relaxed(start: Seq<Seq<u64>>, through: int, from: int, to: int) -> u64 {
    let around = capped_sum(start[from][through], start[through][to]);
    if around < start[from][to] {
        around
    } else {
        start[from][to]
    }
}

/// The numbers before the place `(row, column)`, row by row, are relaxed; the others are
/// as they were in `start`.
#[verifier::opaque]
spec fn relaxed_up_to(
    start: Seq<Seq<u64>>,
    distances: Seq<Seq<u64>>,
    through: int,
    row: int,
    column: int,
) -> bool {
    forall|from: int, to: int|
        0 <= from < start.len() && 0 <= to < start.len() ==> #[trigger] distances[from][to] == if from
            < row || (from == row && to < column) {
            relaxed(start, through, from, to)
        } else {
            start[from][to]
        }
}

/// At the start of a round, nothing is relaxed.
proof fn lemma_round_starts(start: Seq<Seq<u64>>, through: int)
    ensures
        relaxed_up_to(start, start, through, 0, 0),
{
    reveal(relaxed_up_to);
}

/// What the numbers in the row and the column of `through` are in the midst of a round:
/// what they were at its start.
proof fn lemma_round_leaves_cross(
    start: Seq<Seq<u64>>,
    distances: Seq<Seq<u64>>,
    through: int,
    row: int,
    column: int,
)
    requires
        is_square(start, start.len() as int),
        0 <= through < start.len(),
        0 <= row < start.len(),
        0 <= column < start.len(),
        relaxed_up_to(start, distances, through, row, column),
    ensures
        distances[row][through] == start[row][through],
        distances[through][column] == start[through][column],
        distances[row][column] == start[row][column],
{
    reveal(relaxed_up_to);
}

/// Relaxing one number.
proof fn lemma_round_goes_on(
    start: Seq<Seq<u64>>,
    distances: Seq<Seq<u64>>,
    after: Seq<Seq<u64>>,
    through: int,
    row: int,
    column: int,
)
    requires
        is_square(start, start.len() as int),
        is_square(distances, start.len() as int),
        0 <= through < start.len(),
        0 <= row < start.len(),
        0 <= column < start.len(),
        relaxed_up_to(start, distances, through, row, column),
        after == distances.update(
            row,
            distances[row].update(column, relaxed(start, through, row, column)),
        ),
    ensures
        relaxed_up_to(start, after, through, row, column + 1),
        column + 1 == start.len() ==> relaxed_up_to(start, after, through, row + 1, 0),
{
    reveal(relaxed_up_to);
    assert forall|from: int, to: int|
        0 <= from < start.len() && 0 <= to < start.len() implies #[trigger] after[from][to] == if from
        < row || (from == row && to < column + 1) {
        relaxed(start, through, from, to)
    } else {
        start[from][to]
    } by {
        assert(distances[from][to] == if from < row || (from == row && to < column) {
            relaxed(start, through, from, to)
        } else {
            start[from][to]
        });
    }
}

/// At the end of a round, every number is the distance through one vertex more.
proof fn lemma_round_ends(
    direct: Seq<Seq<u64>>,
    start: Seq<Seq<u64>>,
    distances: Seq<Seq<u64>>,
    through: int,
)
    requires
        direct.len() == start.len(),
        0 <= through < start.len(),
        all_through(direct, through, start),
        relaxed_up_to(start, distances, through, start.len() as int, 0),
    ensures
        all_through(direct, through + 1, distances),
{
    reveal(relaxed_up_to);
    reveal(all_through);
    assert forall|from: int, to: int|
        0 <= from < direct.len() && 0 <= to < direct.len() implies is_distance_through(
        direct,
        through + 1,
        from,
        to,
        #[trigger] distances[from][to],
    ) by {
        assert(is_distance_through(direct, through, from, to, start[from][to]));
        assert(is_distance_through(direct, through, from, through, start[from][through]));
        assert(is_distance_through(direct, through, through, to, start[through][to]));
        lemma_distance_through_one_more(
            direct,
            through,
            from,
            to,
            start[from][to],
            start[from][through],
            start[through][to],
        );
    }
}

/// Before the first round, the weights of the edges are the distances through no vertex.
proof fn lemma_rounds_start(direct: Seq<Seq<u64>>)
    requires
        forall|v: int| 0 <= v < direct.len() ==> (#[trigger] direct[v])[v] == 0,
    ensures
        all_through(direct, 0, direct),
{
    reveal(all_through);
    assert forall|from: int, to: int|
        0 <= from < direct.len() && 0 <= to < direct.len() implies is_distance_through(
        direct,
        0,
        from,
        to,
        #[trigger] direct[from][to],
    ) by {
        assert(direct[from][from] == 0);
        lemma_distance_through_none(direct, from, to);
    }
}

/// After the last round, the numbers are the distances in the graph.
proof fn lemma_rounds_end(graph: Seq<Seq<Edge>>, distances: Seq<Seq<u64>>, from: usize, to: usize)
    requires
        graph.len() <= usize::MAX,
        is_complete(graph),
        from < graph.len(),
        to < graph.len(),
        all_through(weights_of(graph), graph.len() as int, distances),
    ensures
        is_distance(graph, from, to, distances[from as int][to as int]),
{
    reveal(all_through);
    let direct = weights_of(graph);
    let n = graph.len() as int;
    let distance = distances[from as int][to as int];
    assert(is_distance_through(direct, n, from as int, to as int, distance));
    assert forall|total: u64, steps: nat| #[trigger]
        walk(graph, from, to, total, steps) implies distance <= total by {
        lemma_walk_through_all(graph, from, to, total, steps);
    }
    if distance != u64::MAX {
        let steps = choose|steps: nat|
            walk_through(direct, n, from as int, to as int, distance, steps);
        lemma_walk_through_all(graph, from, to, distance, steps);
        assert(reached(graph, from, to, distance));
    }
}

/// The weight of the last edge to `to` among one edge more.
proof fn lemma_direct_step(list: Seq<Edge>, i: int, to: usize)
    requires
        0 <= i < list.len(),
    ensures
        direct(list.take(i + 1), to) == if list[i].to == to {
            list[i].weight
        } else {
            direct(list.take(i), to)
        },
{
    assert(list.take(i + 1).drop_last() =~= list.take(i));
}

impl Graph {
    /// The distance from `start` to every vertex: the least that the weights of the edges
    /// of a walk from `start` to the vertex add up to, and `u64::MAX` for a vertex that no
    /// walk leads to.
    pub fn dijkstra(&self, start: usize) -> (distances: Vec<u64>)
        requires
            self.well_formed(),
            start < self.vertices,
        ensures
            distances.len() == self.vertices,
            forall|v: int|
                0 <= v < self.vertices ==> is_distance(
                    self.adjacency(),
                    start,
                    v as usize,
                    #[trigger] distances[v],
                ),
    {
        let ghost adjacency = self.adjacency();
        let n = self.vertices;
        let mut visited: Vec<bool> = Vec::new();
        let mut distances: Vec<u64> = Vec::new();
        let mut v: usize = 0;
        while v < n
            invariant
                v <= n,
                visited.len() == v,
                distances.len() == v,
                forall|u: int| 0 <= u < v ==> !(#[trigger] visited[u]),
                forall|u: int| 0 <= u < v ==> #[trigger] distances[u] == u64::MAX,
            decreases n - v,
        {
            visited.push(false);
            distances.push(u64::MAX);
            v += 1;
        }
        distances[start] = 0;
        proof {
            assert(fits(adjacency, n as int)) by {
                assert forall|v: int, i: int| 0 <= v < n && 0 <= i < adjacency[v].len() implies (
                #[trigger] adjacency[v][i]).to < n by {
                    assert(adjacency[v][i] == self.adjacency_list[v][i]);
                }
            }
            lemma_settled_at_first(adjacency, start, visited@, distances@);
        }
        loop
            invariant
                self.well_formed(),
                adjacency == self.adjacency(),
                n == self.vertices,
                start < n,
                fits(adjacency, n as int),
                visited.len() == n,
                distances.len() == n,
                settled(adjacency, start, visited@, distances@, -1, 0),
            ensures
                distances.len() == n,
                forall|v: int|
                    0 <= v < n ==> is_distance(adjacency, start, v as usize, #[trigger] distances[v]),
            decreases unmarked(visited@),
        {
            let mut nearest: Option<usize> = None;
            let mut candidate: usize = 0;
            while candidate < n
                invariant
                    candidate <= n,
                    visited.len() == n,
                    distances.len() == n,
                    match nearest {
                        Some(best) => best < candidate && !visited[best as int] && forall|t: int|
                            0 <= t < candidate && !#[trigger] visited[t] ==> distances[best as int]
                                <= distances[t],
                        None => forall|t: int| 0 <= t < candidate ==> #[trigger] visited[t],
                    },
                decreases n - candidate,
            {
                if !visited[candidate] {
                    let closer = match nearest {
                        Some(best) => distances[candidate] < distances[best],
                        None => true,
                    };
                    if closer {
                        nearest = Some(candidate);
                    }
                }
                candidate += 1;
            }
            match nearest {
                Some(current) => {
                    proof {
                        lemma_visit_nearest(adjacency, start, visited@, distances@, current as int);
                        lemma_mark_one(visited@, current as int);
                    }
                    visited[current] = true;
                    let mut i: usize = 0;
                    while i < self.adjacency_list[current].len()
                        invariant
                            self.well_formed(),
                            adjacency == self.adjacency(),
                            n == self.vertices,
                            start < n,
                            current < n,
                            fits(adjacency, n as int),
                            visited.len() == n,
                            distances.len() == n,
                            visited[current as int],
                            i <= self.adjacency_list[current as int].len(),
                            settled(adjacency, start, visited@, distances@, current as int, i as int),
                        decreases self.adjacency_list[current as int].len() - i,
                    {
                        let edge = self.adjacency_list[current][i];
                        proof {
                            assert(adjacency[current as int][i as int] == edge);
                            lemma_relax(
                                adjacency,
                                start,
                                visited@,
                                distances@,
                                current as int,
                                i as int,
                            );
                        }
                        let through = Self::add_capped(distances[current], edge.weight);
                        if through < distances[edge.to] {
                            distances[edge.to] = through;
                        }
                        i += 1;
                    }
                    proof {
                        assert(adjacency[current as int].len() == self.adjacency_list[current as int].len());
                        lemma_visit_over(adjacency, start, visited@, distances@, current as int);
                    }
                },
                None => {
                    proof {
                        lemma_all_settled(adjacency, start, visited@, distances@);
                    }
                    break ;
                },
            }
        }
        distances
    }

    /// The sum of two weights, which stops at `u64::MAX`.
    fn add_capped(a: u64, b: u64) -> (sum: u64)
        ensures
            sum == capped_sum(a, b),
    {
        if a > u64::MAX - b {
            u64::MAX
        } else {
            a + b
        }
    }

    /// The distances between all vertices, by the algorithm of Floyd and Warshall: row
    /// `from`, column `to` holds the least that the weights of the edges of a walk from
    /// `from` to `to` add up to, and `u64::MAX` if no walk leads there. Of several edges
    /// between two vertices, the last one in the lists counts.
    pub fn floyd_warshall(&self) -> (distances: Vec<Vec<u64>>)
        requires
            self.well_formed(),
        ensures
            distances.len() == self.vertices,
            forall|from: int|
                0 <= from < self.vertices ==> (#[trigger] distances[from]).len() == self.vertices,
            forall|from: int, to: int|
                0 <= from < self.vertices && 0 <= to < self.vertices ==> is_distance(
                    direct_graph(self.adjacency()),
                    from as usize,
                    to as usize,
                    #[trigger] distances[from][to],
                ),
    {
        let ghost adjacency = self.adjacency();
        let ghost graph = direct_graph(adjacency);
        let ghost weights = weights_of(graph);
        let n = self.vertices;
        let mut dist: Vec<Vec<u64>> = Vec::new();
        let mut i: usize = 0;
        while i < n
            invariant
                self.well_formed(),
                adjacency == self.adjacency(),
                graph == direct_graph(adjacency),
                weights == weights_of(graph),
                n == self.vertices,
                i <= n,
                dist.len() == i,
                forall|row: int| 0 <= row < i ==> (#[trigger] dist[row])@ == weights[row],
            decreases n - i,
        {
            let mut row: Vec<u64> = Vec::new();
            let mut j: usize = 0;
            while j < n
                invariant
                    j <= n,
                    row.len() == j,
                    forall|to: int| 0 <= to < j ==> #[trigger] row[to] == u64::MAX,
                decreases n - j,
            {
                row.push(u64::MAX);
                j += 1;
            }
            row[i] = 0;
            let mut e: usize = 0;
            proof {
                assert(adjacency[i as int].take(0) =~= Seq::<Edge>::empty());
            }
            while e < self.adjacency_list[i].len()
                invariant
                    self.well_formed(),
                    adjacency == self.adjacency(),
                    n == self.vertices,
                    i < n,
                    row.len() == n,
                    e <= self.adjacency_list[i as int].len(),
                    forall|to: int|
                        0 <= to < n ==> #[trigger] row[to] == if to == i {
                            0
                        } else {
                            direct(adjacency[i as int].take(e as int), to as usize)
                        },
                decreases self.adjacency_list[i as int].len() - e,
            {
                let edge = self.adjacency_list[i][e];
                let ghost before = row@;
                if edge.to != i {
                    row[edge.to] = edge.weight;
                }
                proof {
                    assert(adjacency[i as int][e as int] == edge);
                    let longer = adjacency[i as int].take(e + 1);
                    assert forall|to: int| 0 <= to < n implies #[trigger] row[to] == if to == i {
                        0
                    } else {
                        direct(longer, to as usize)
                    } by {
                        lemma_direct_step(adjacency[i as int], e as int, to as usize);
                        assert(before[to] == if to == i {
                            0
                        } else {
                            direct(adjacency[i as int].take(e as int), to as usize)
                        });
                    }
                }
                e += 1;
            }
            proof {
                assert(adjacency[i as int].take(e as int) =~= adjacency[i as int]);
                assert(row@ =~= weights[i as int]);
            }
            dist.push(row);
            i += 1;
        }
        proof {
            assert(rows(dist@) =~= weights);
            lemma_rounds_start(weights);
        }
        let mut k: usize = 0;
        while k < n
            invariant
                n == self.vertices,
                graph.len() == n,
                weights.len() == n,
                is_square(weights, n as int),
                k <= n,
                dist.len() == n,
                is_square(rows(dist@), n as int),
                all_through(weights, k as int, rows(dist@)),
            decreases n - k,
        {
            let ghost start = rows(dist@);
            proof {
                lemma_round_starts(start, k as int);
            }
            let mut i: usize = 0;
            while i < n
                invariant
                    k < n,
                    i <= n,
                    dist.len() == n,
                    start.len() == n,
                    is_square(start, n as int),
                    is_square(rows(dist@), n as int),
                    relaxed_up_to(start, rows(dist@), k as int, i as int, 0),
                decreases n - i,
            {
                let mut j: usize = 0;
                while j < n
                    invariant
                        k < n,
                        i < n,
                        j <= n,
                        dist.len() == n,
                        start.len() == n,
                        is_square(start, n as int),
                        is_square(rows(dist@), n as int),
                        j < n ==> relaxed_up_to(start, rows(dist@), k as int, i as int, j as int),
                        j == n ==> relaxed_up_to(start, rows(dist@), k as int, i + 1, 0),
                    decreases n - j,
                {
                    let ghost before = rows(dist@);
                    let ghost target = relaxed(start, k as int, i as int, j as int);
                    proof {
                        lemma_round_leaves_cross(start, before, k as int, i as int, j as int);
                        assert(before[i as int] == dist[i as int]@);
                        assert(before[k as int] == dist[k as int]@);
                        assert(before[i as int].len() == n);
                        assert(before[k as int].len() == n);
                        assert(dist[i as int][k as int] == start[i as int][k as int]);
                        assert(dist[k as int][j as int] == start[k as int][j as int]);
                        assert(dist[i as int][j as int] == start[i as int][j as int]);
                    }
                    if dist[i][k] != u64::MAX && dist[k][j] != u64::MAX {
                        let through = Self::add_capped(dist[i][k], dist[k][j]);
                        if through < dist[i][j] {
                            let row = &mut dist[i];
                            row[j] = through;
                        }
                    }
                    proof {
                        let after = rows(dist@);
                        assert(dist[i as int][j as int] == target);
                        assert(after[i as int] =~= before[i as int].update(j as int, target));
                        assert forall|row: int| 0 <= row < n && row != i implies #[trigger] after[row]
                            == before[row] by {}
                        assert(after =~= before.update(
                            i as int,
                            before[i as int].update(j as int, target),
                        ));
                        lemma_round_goes_on(start, before, after, k as int, i as int, j as int);
                    }
                    j += 1;
                }
                i += 1;
            }
            proof {
                lemma_round_ends(weights, start, rows(dist@), k as int);
            }
            k += 1;
        }
        proof {
            assert(is_complete(graph));
            assert forall|from: int| 0 <= from < n implies (#[trigger] dist[from]).len() == n by {
                assert(rows(dist@)[from].len() == n);
            }
            assert forall|from: int, to: int| 0 <= from < n && 0 <= to < n implies is_distance(
                graph,
                from as usize,
                to as usize,
                #[trigger] dist[from][to],
            ) by {
                lemma_rounds_end(graph, rows(dist@), from as usize, to as usize);
            }
        }
        dist
    }
}

} // verus!
