//! That the forest which Kruskal's algorithm picks is a lightest spanning forest, and that
//! the tree which Prim's algorithm grows is a lightest spanning tree.
//!
//! Both go by counting: of the edges up to any weight, a forest has no more than the
//! forest or tree in question, which connects all that those edges connect.

use super::distance::is_undirected;
use super::spanning::{
    connected,
    edges_once,
    forward_edges,
    greedy_forest,
    grows_by_lightest,
    hop,
    is_prim_tree,
    joins,
    leaves,
    lemma_connected_is_equivalence,
    lemma_connected_with_more,
    lemma_forest_spans,
    linked,
    sorted_from,
    sorted_stably,
    tree_so_far,
};
use super::{fits, Edge};
use vstd::prelude::*;
use vstd::set_lib::{lemma_int_range, lemma_len_subset, lemma_subset_equality, set_int_range};

verus! {

/// Each edge joins two vertices that the edges before it do not connect: there is no cycle.
pub open spec fn is_forest(edges: Seq<(usize, usize, u64)>) -> bool {
    forall|k: int|
        0 <= k < edges.len() ==> !connected(edges.take(k), (#[trigger] edges[k]).0, edges[k].1)
}

/// The weights of the edges together.
pub open spec fn total_weight(edges: Seq<(usize, usize, u64)>) -> int
    decreases edges.len(),
{
    if edges.len() == 0 {
        0
    } else {
        total_weight(edges.drop_last()) + edges.last().2
    }
}

/// The edges are in ascending order of weight.
pub open spec fn ascending_weights(edges: Seq<(usize, usize, u64)>) -> bool {
    forall|i: int, j: int| 0 <= i < j < edges.len() ==> (#[trigger] edges[i]).2 <= (#[trigger] edges[j]).2
}

/// Every edge joins two of the vertices `0..vertices`.
pub open spec fn within(edges: Seq<(usize, usize, u64)>, vertices: int) -> bool {
    forall|k: int| 0 <= k < edges.len() ==> (#[trigger] edges[k]).0 < vertices && edges[k].1 < vertices
}

/// Some edge of `edges` joins the two vertices that `edge` joins, and weighs the same.
pub open spec fn matched(edges: Seq<(usize, usize, u64)>, edge: (usize, usize, u64)) -> bool {
    exists|j: int|
        0 <= j < edges.len() && joins(#[trigger] edges[j], edge.0, edge.1) && edges[j].2 == edge.2
}

/// Of the edges `edges`, those that weigh `limit` at most.
pub open spec fn light(edges: Seq<(usize, usize, u64)>, limit: u64) -> Seq<(usize, usize, u64)>
    decreases edges.len(),
{
    if edges.len() == 0 {
        Seq::empty()
    } else {
        let before = light(edges.drop_last(), limit);
        if edges.last().2 <= limit {
            before.push(edges.last())
        } else {
            before
        }
    }
}

/// `edge` is an edge of the graph that leaves a vertex of the tree.
pub open spec fn in_tree_part(
    adjacency: Seq<Seq<Edge>>,
    tree: Seq<(usize, usize, u64)>,
    edge: (usize, usize, u64),
) -> bool {
    &&& tree_so_far(tree, tree.len() as int).contains(edge.0)
    &&& edge.0 < adjacency.len()
    &&& adjacency[edge.0 as int].contains(Edge { to: edge.1, weight: edge.2 })
}

/// Every edge of `part` is an edge of `whole`.
spec fn among(part: Seq<(usize, usize, u64)>, whole: Seq<(usize, usize, u64)>) -> bool {
    forall|i: int| 0 <= i < part.len() ==> whole.contains(#[trigger] part[i])
}

proof fn lemma_linked_among(
    part: Seq<(usize, usize, u64)>,
    whole: Seq<(usize, usize, u64)>,
    a: usize,
    b: usize,
    steps: nat,
)
    requires
        among(part, whole),
        linked(part, a, b, steps),
    ensures
        linked(whole, a, b, steps),
    decreases steps,
{
    if a != b {
        let (via, i) = choose|via: usize, i: int|
            #![trigger hop(part, i, via, b)]
            linked(part, a, via, (steps - 1) as nat) && hop(part, i, via, b);
        lemma_linked_among(part, whole, a, via, (steps - 1) as nat);
        assert(whole.contains(part[i]));
        let j = choose|j: int| 0 <= j < whole.len() && whole[j] == part[i];
        assert(hop(whole, j, via, b));
    }
}

/// What is connected by some of the edges is connected by all of them.
proof fn lemma_connected_among(
    part: Seq<(usize, usize, u64)>,
    whole: Seq<(usize, usize, u64)>,
    a: usize,
    b: usize,
)
    requires
        among(part, whole),
        connected(part, a, b),
    ensures
        connected(whole, a, b),
{
    let steps = choose|steps: nat| linked(part, a, b, steps);
    lemma_linked_among(part, whole, a, b, steps);
}

/// What a chain of edges connects, edges that connect the ends of each of those edges
/// connect.
proof fn lemma_linked_by_connected(
    part: Seq<(usize, usize, u64)>,
    whole: Seq<(usize, usize, u64)>,
    a: usize,
    b: usize,
    steps: nat,
)
    requires
        forall|i: int| 0 <= i < part.len() ==> connected(whole, (#[trigger] part[i]).0, part[i].1),
        linked(part, a, b, steps),
    ensures
        connected(whole, a, b),
    decreases steps,
{
    lemma_connected_is_equivalence(whole, a, a, a);
    if a != b {
        let (via, i) = choose|via: usize, i: int|
            #![trigger hop(part, i, via, b)]
            linked(part, a, via, (steps - 1) as nat) && hop(part, i, via, b);
        lemma_linked_by_connected(part, whole, a, via, (steps - 1) as nat);
        assert(connected(whole, part[i].0, part[i].1));
        lemma_connected_is_equivalence(whole, part[i].0, part[i].1, part[i].0);
        lemma_connected_is_equivalence(whole, a, via, b);
    }
}

/// What edges within the vertices connect to another vertex is a vertex.
proof fn lemma_linked_within(edges: Seq<(usize, usize, u64)>, vertices: int, a: usize, b: usize, steps: nat)
    requires
        within(edges, vertices),
        linked(edges, a, b, steps),
        a != b,
    ensures
        a < vertices,
        b < vertices,
    decreases steps,
{
    let (via, i) = choose|via: usize, i: int|
        #![trigger hop(edges, i, via, b)]
        linked(edges, a, via, (steps - 1) as nat) && hop(edges, i, via, b);
    assert(edges[i].0 < vertices && edges[i].1 < vertices);
    if a != via {
        lemma_linked_within(edges, vertices, a, via, (steps - 1) as nat);
    }
}

/// No vertex of a smaller number is connected to `v`: `v` stands for the vertices that are
/// connected to it.
spec fn is_least(edges: Seq<(usize, usize, u64)>, v: int) -> bool {
    forall|u: int| 0 <= u < v ==> !connected(edges, #[trigger] (u as usize), v as usize)
}

/// The vertices that stand for the sets of connected vertices, one for each set.
spec fn leasts(edges: Seq<(usize, usize, u64)>, vertices: int) -> Set<int> {
    Set::new(|v: int| 0 <= v < vertices && is_least(edges, v))
}

/// Every vertex is connected to the one that stands for its set.
proof fn lemma_least_exists(edges: Seq<(usize, usize, u64)>, v: int) -> (least: int)
    requires
        0 <= v <= usize::MAX,
    ensures
        0 <= least <= v,
        is_least(edges, least),
        connected(edges, least as usize, v as usize),
    decreases v,
{
    if is_least(edges, v) {
        lemma_connected_is_equivalence(edges, v as usize, v as usize, v as usize);
        v
    } else {
        let u = choose|u: int| 0 <= u < v && connected(edges, #[trigger] (u as usize), v as usize);
        let least = lemma_least_exists(edges, u);
        lemma_connected_is_equivalence(edges, least as usize, u as usize, v as usize);
        least
    }
}

/// Two that stand for sets and are connected are one.
proof fn lemma_least_is_unique(edges: Seq<(usize, usize, u64)>, one: int, other: int)
    requires
        0 <= one <= usize::MAX,
        0 <= other <= usize::MAX,
        is_least(edges, one),
        is_least(edges, other),
        connected(edges, one as usize, other as usize),
    ensures
        one == other,
{
    lemma_connected_is_equivalence(edges, one as usize, other as usize, one as usize);
    if one < other {
        assert(!connected(edges, one as usize, other as usize));
    }
    if other < one {
        assert(!connected(edges, other as usize, one as usize));
    }
}

/// An edge that joins two sets leaves one vertex less that stands for a set.
proof fn lemma_one_set_less(
    edges: Seq<(usize, usize, u64)>,
    edge: (usize, usize, u64),
    vertices: int,
)
    requires
        0 <= vertices <= usize::MAX,
        edge.0 < vertices,
        edge.1 < vertices,
        !connected(edges, edge.0, edge.1),
        leasts(edges, vertices).finite(),
    ensures
        leasts(edges.push(edge), vertices).finite(),
        leasts(edges.push(edge), vertices).len() == leasts(edges, vertices).len() - 1,
{
    let more = edges.push(edge);
    let m0 = lemma_least_exists(edges, edge.0 as int);
    let m1 = lemma_least_exists(edges, edge.1 as int);
    lemma_connected_is_equivalence(edges, m0 as usize, edge.0, edge.1);
    lemma_connected_is_equivalence(edges, m1 as usize, edge.1, edge.0);
    lemma_connected_is_equivalence(edges, edge.0, m0 as usize, m1 as usize);
    lemma_connected_is_equivalence(edges, m0 as usize, m1 as usize, edge.1);
    assert(m0 != m1) by {
        if m0 == m1 {
            lemma_connected_is_equivalence(edges, edge.0, m0 as usize, edge.1);
        }
    }
    let big = if m0 < m1 {
        m1
    } else {
        m0
    };
    let small = if m0 < m1 {
        m0
    } else {
        m1
    };
    assert(leasts(more, vertices) =~= leasts(edges, vertices).remove(big)) by {
        assert forall|v: int| leasts(more, vertices).contains(v) <==> leasts(
            edges,
            vertices,
        ).remove(big).contains(v) by {
            if 0 <= v < vertices {
                if is_least(more, v) {
                    assert forall|u: int| 0 <= u < v implies !connected(
                        edges,
                        #[trigger] (u as usize),
                        v as usize,
                    ) by {
                        lemma_connected_with_more(edges, edge, u as usize, v as usize);
                    }
                    if v == big {
                        lemma_connected_with_more(edges, edge, small as usize, big as usize);
                        lemma_connected_is_equivalence(edges, edge.1, m1 as usize, edge.1);
                        lemma_connected_is_equivalence(edges, edge.0, m0 as usize, edge.0);
                        assert(connected(more, small as usize, big as usize));
                    }
                }
                if is_least(edges, v) && v != big {
                    assert forall|u: int| 0 <= u < v implies !connected(
                        more,
                        #[trigger] (u as usize),
                        v as usize,
                    ) by {
                        lemma_connected_with_more(edges, edge, u as usize, v as usize);
                        if connected(edges, u as usize, edge.0) && connected(
                            edges,
                            edge.1,
                            v as usize,
                        ) {
                            let lu = lemma_least_exists(edges, u);
                            lemma_connected_is_equivalence(edges, lu as usize, u as usize, edge.0);
                            lemma_connected_is_equivalence(edges, lu as usize, edge.0, m0 as usize);
                            lemma_least_is_unique(edges, lu, m0);
                            lemma_connected_is_equivalence(edges, m1 as usize, edge.1, v as usize);
                            lemma_least_is_unique(edges, m1, v);
                        }
                        if connected(edges, u as usize, edge.1) && connected(
                            edges,
                            edge.0,
                            v as usize,
                        ) {
                            let lu = lemma_least_exists(edges, u);
                            lemma_connected_is_equivalence(edges, lu as usize, u as usize, edge.1);
                            lemma_connected_is_equivalence(edges, lu as usize, edge.1, m1 as usize);
                            lemma_least_is_unique(edges, lu, m1);
                            lemma_connected_is_equivalence(edges, m0 as usize, edge.0, v as usize);
                            lemma_least_is_unique(edges, m0, v);
                        }
                    }
                }
            }
        }
    }
    assert(leasts(edges, vertices).contains(big));
}

/// A forest on `vertices` vertices has as many edges as there are fewer sets of connected
/// vertices than vertices.
proof fn lemma_forest_counts(edges: Seq<(usize, usize, u64)>, vertices: int)
    requires
        0 <= vertices <= usize::MAX,
        within(edges, vertices),
        is_forest(edges),
    ensures
        leasts(edges, vertices).finite(),
        edges.len() + leasts(edges, vertices).len() == vertices,
    decreases edges.len(),
{
    if edges.len() == 0 {
        lemma_int_range(0, vertices);
        assert(leasts(edges, vertices) =~= set_int_range(0, vertices)) by {
            assert forall|v: int| 0 <= v < vertices implies is_least(edges, v) by {
                assert forall|u: int| 0 <= u < v implies !connected(
                    edges,
                    #[trigger] (u as usize),
                    v as usize,
                ) by {
                    let a = u as usize;
                    let b = v as usize;
                    if connected(edges, a, b) {
                        let steps = choose|steps: nat| linked(edges, a, b, steps);
                    }
                }
            }
        }
    } else {
        let init = edges.drop_last();
        let last = edges.last();
        assert(edges =~= init.push(last));
        assert(is_forest(init)) by {
            assert forall|k: int| 0 <= k < init.len() implies !connected(
                init.take(k),
                (#[trigger] init[k]).0,
                init[k].1,
            ) by {
                assert(init.take(k) =~= edges.take(k));
                assert(init[k] == edges[k]);
            }
        }
        assert(within(init, vertices)) by {
            assert forall|k: int| 0 <= k < init.len() implies (#[trigger] init[k]).0 < vertices
                && init[k].1 < vertices by {
                assert(init[k] == edges[k]);
            }
        }
        lemma_forest_counts(init, vertices);
        assert(edges.take(edges.len() - 1) =~= init);
        assert(!connected(init, last.0, last.1)) by {
            assert(edges[edges.len() - 1] == last);
        }
        lemma_one_set_less(init, last, vertices);
    }
}

/// Edges that connect less leave more sets.
proof fn lemma_finer_has_more_sets(
    finer: Seq<(usize, usize, u64)>,
    coarser: Seq<(usize, usize, u64)>,
    vertices: int,
)
    requires
        0 <= vertices <= usize::MAX,
        leasts(finer, vertices).finite(),
        forall|a: usize, b: usize| #[trigger] connected(finer, a, b) ==> connected(coarser, a, b),
    ensures
        leasts(coarser, vertices).subset_of(leasts(finer, vertices)),
        leasts(coarser, vertices).finite(),
        leasts(coarser, vertices).len() <= leasts(finer, vertices).len(),
{
    assert forall|v: int| leasts(coarser, vertices).contains(v) implies leasts(
        finer,
        vertices,
    ).contains(v) by {
        assert forall|u: int| 0 <= u < v implies !connected(
            finer,
            #[trigger] (u as usize),
            v as usize,
        ) by {
            assert(!connected(coarser, u as usize, v as usize));
        }
    }
    lemma_len_subset(leasts(coarser, vertices), leasts(finer, vertices));
}

/// A beginning of a forest is a forest.
proof fn lemma_forest_begins_as_forest(edges: Seq<(usize, usize, u64)>, upto: int)
    requires
        is_forest(edges),
        0 <= upto <= edges.len(),
    ensures
        is_forest(edges.take(upto)),
{
    let part = edges.take(upto);
    assert forall|k: int| 0 <= k < part.len() implies !connected(
        part.take(k),
        (#[trigger] part[k]).0,
        part[k].1,
    ) by {
        assert(part.take(k) =~= edges.take(k));
        assert(part[k] == edges[k]);
    }
}

/// A forest with one edge more that joins two vertices which it does not connect is a
/// forest.
proof fn lemma_forest_with_more(edges: Seq<(usize, usize, u64)>, edge: (usize, usize, u64))
    requires
        is_forest(edges),
        !connected(edges, edge.0, edge.1),
    ensures
        is_forest(edges.push(edge)),
{
    let more = edges.push(edge);
    assert forall|k: int| 0 <= k < more.len() implies !connected(
        more.take(k),
        (#[trigger] more[k]).0,
        more[k].1,
    ) by {
        if k < edges.len() {
            assert(more.take(k) =~= edges.take(k));
            assert(more[k] == edges[k]);
        } else {
            assert(more.take(k) =~= edges);
        }
    }
}

/// The light edges are among the edges, and they are light.
proof fn lemma_light(edges: Seq<(usize, usize, u64)>, limit: u64)
    ensures
        among(light(edges, limit), edges),
        forall|i: int| 0 <= i < light(edges, limit).len() ==> (#[trigger] light(edges, limit)[i]).2 <= limit,
        forall|i: int|
            0 <= i < edges.len() && (#[trigger] edges[i]).2 <= limit ==> light(edges, limit).contains(
                edges[i],
            ),
        light(edges, limit).len() <= edges.len(),
    decreases edges.len(),
{
    let part = light(edges, limit);
    if edges.len() > 0 {
        let init = edges.drop_last();
        let before = light(init, limit);
        lemma_light(init, limit);
        assert forall|i: int| 0 <= i < part.len() implies edges.contains(#[trigger] part[i])
            && part[i].2 <= limit by {
            if i < before.len() {
                assert(part[i] == before[i]);
                assert(init.contains(before[i]));
                let j = choose|j: int| 0 <= j < init.len() && init[j] == before[i];
                assert(edges[j] == before[i]);
            } else {
                assert(edges[edges.len() - 1] == part[i]);
            }
        }
        assert forall|i: int| 0 <= i < edges.len() && (#[trigger] edges[i]).2 <= limit implies part.contains(
            edges[i],
        ) by {
            if i < init.len() {
                assert(init[i] == edges[i]);
                assert(before.contains(init[i]));
                let j = choose|j: int| 0 <= j < before.len() && before[j] == init[i];
                assert(part[j] == edges[i]);
            } else {
                assert(part[before.len() as int] == edges[i]);
            }
        }
    }
}

/// Where all edges are light, the light edges are all edges.
proof fn lemma_all_light(edges: Seq<(usize, usize, u64)>, limit: u64)
    requires
        forall|i: int| 0 <= i < edges.len() ==> (#[trigger] edges[i]).2 <= limit,
    ensures
        light(edges, limit) == edges,
    decreases edges.len(),
{
    if edges.len() > 0 {
        let init = edges.drop_last();
        assert forall|i: int| 0 <= i < init.len() implies (#[trigger] init[i]).2 <= limit by {
            assert(init[i] == edges[i]);
        }
        lemma_all_light(init, limit);
        assert(edges[edges.len() - 1].2 <= limit);
        assert(init.push(edges.last()) =~= edges);
    } else {
        assert(light(edges, limit) =~= edges);
    }
}

/// The light edges of a forest are a forest.
proof fn lemma_light_forest(edges: Seq<(usize, usize, u64)>, limit: u64)
    requires
        is_forest(edges),
    ensures
        is_forest(light(edges, limit)),
    decreases edges.len(),
{
    if edges.len() > 0 {
        let init = edges.drop_last();
        let last = edges.last();
        lemma_forest_begins_as_forest(edges, edges.len() - 1);
        assert(edges.take(edges.len() - 1) =~= init);
        lemma_light_forest(init, limit);
        if last.2 <= limit {
            lemma_light(init, limit);
            assert(!connected(init, last.0, last.1)) by {
                assert(edges[edges.len() - 1] == last);
            }
            if connected(light(init, limit), last.0, last.1) {
                lemma_connected_among(light(init, limit), init, last.0, last.1);
            }
            lemma_forest_with_more(light(init, limit), last);
        }
    }
}

/// The number of the edges that weigh more than `limit`.
spec fn heavy_count(edges: Seq<(usize, usize, u64)>, limit: u64) -> int {
    edges.len() - light(edges, limit).len()
}

/// The numbers of the edges that weigh more than 0, than 1, and so on up to `upto - 1`,
/// together.
spec fn layers(edges: Seq<(usize, usize, u64)>, upto: nat) -> int
    decreases upto,
{
    if upto == 0 {
        0
    } else {
        layers(edges, (upto - 1) as nat) + heavy_count(edges, (upto - 1) as u64)
    }
}

proof fn lemma_layers_with_more(edges: Seq<(usize, usize, u64)>, edge: (usize, usize, u64), upto: nat)
    requires
        upto <= u64::MAX,
    ensures
        layers(edges.push(edge), upto) == layers(edges, upto) + if edge.2 <= upto {
            edge.2 as int
        } else {
            upto as int
        },
    decreases upto,
{
    if upto > 0 {
        lemma_layers_with_more(edges, edge, (upto - 1) as nat);
        assert(edges.push(edge).drop_last() =~= edges);
    }
}

proof fn lemma_layers_of_none(edges: Seq<(usize, usize, u64)>, upto: nat)
    requires
        edges.len() == 0,
    ensures
        layers(edges, upto) == 0,
    decreases upto,
{
    if upto > 0 {
        lemma_layers_of_none(edges, (upto - 1) as nat);
    }
}

/// The layers up to the greatest weight are the weights together.
proof fn lemma_layers_are_total(edges: Seq<(usize, usize, u64)>)
    ensures
        layers(edges, u64::MAX as nat) == total_weight(edges),
    decreases edges.len(),
{
    if edges.len() == 0 {
        lemma_layers_of_none(edges, u64::MAX as nat);
    } else {
        let init = edges.drop_last();
        assert(edges =~= init.push(edges.last()));
        lemma_layers_are_total(init);
        lemma_layers_with_more(init, edges.last(), u64::MAX as nat);
    }
}

proof fn lemma_layers_compare(
    fewer: Seq<(usize, usize, u64)>,
    more: Seq<(usize, usize, u64)>,
    upto: nat,
)
    requires
        upto <= u64::MAX,
        forall|limit: u64| #[trigger] heavy_count(fewer, limit) <= heavy_count(more, limit),
    ensures
        layers(fewer, upto) <= layers(more, upto),
    decreases upto,
{
    if upto > 0 {
        lemma_layers_compare(fewer, more, (upto - 1) as nat);
        assert(heavy_count(fewer, (upto - 1) as u64) <= heavy_count(more, (upto - 1) as u64));
    }
}

/// The forest that is picked is a forest.
proof fn lemma_greedy_forest_is_forest(edges: Seq<(usize, usize, u64)>)
    ensures
        is_forest(greedy_forest(edges)),
        among(greedy_forest(edges), edges),
    decreases edges.len(),
{
    let forest = greedy_forest(edges);
    if edges.len() > 0 {
        let init = edges.drop_last();
        let before = greedy_forest(init);
        lemma_greedy_forest_is_forest(init);
        assert forall|k: int| 0 <= k < forest.len() implies !connected(
            forest.take(k),
            (#[trigger] forest[k]).0,
            forest[k].1,
        ) by {
            if k < before.len() {
                assert(forest.take(k) =~= before.take(k));
                assert(forest[k] == before[k]);
            } else {
                assert(forest.take(k) =~= before);
            }
        }
        assert forall|i: int| 0 <= i < forest.len() implies edges.contains(#[trigger] forest[i]) by {
            if i < before.len() {
                assert(forest[i] == before[i]);
                assert(init.contains(before[i]));
                let j = choose|j: int| 0 <= j < init.len() && init[j] == before[i];
                assert(edges[j] == before[i]);
            } else {
                assert(edges[edges.len() - 1] == forest[i]);
            }
        }
    }
}

/// Of ascending edges, the light edges of the forest that is picked connect what the light
/// edges connect.
proof fn lemma_light_forest_spans(edges: Seq<(usize, usize, u64)>, limit: u64, a: usize, b: usize)
    requires
        ascending_weights(edges),
        connected(light(edges, limit), a, b),
    ensures
        connected(light(greedy_forest(edges), limit), a, b),
    decreases edges.len(),
{
    if edges.len() > 0 {
        let init = edges.drop_last();
        let last = edges.last();
        if last.2 <= limit {
            assert forall|i: int| 0 <= i < edges.len() implies (#[trigger] edges[i]).2 <= limit by {
                if i < edges.len() - 1 {
                    assert(edges[i].2 <= edges[edges.len() - 1].2);
                }
            }
            lemma_all_light(edges, limit);
            lemma_forest_spans(edges, a, b);
            let picked = greedy_forest(edges);
            lemma_greedy_forest_is_forest(edges);
            assert forall|i: int| 0 <= i < picked.len() implies (#[trigger] picked[i]).2 <= limit by {
                assert(edges.contains(picked[i]));
                let j = choose|j: int| 0 <= j < edges.len() && edges[j] == picked[i];
            }
            lemma_all_light(picked, limit);
        } else {
            assert(ascending_weights(init)) by {
                assert forall|i: int, j: int| 0 <= i < j < init.len() implies (#[trigger] init[i]).2
                    <= (#[trigger] init[j]).2 by {
                    assert(init[i] == edges[i] && init[j] == edges[j]);
                }
            }
            lemma_light_forest_spans(init, limit, a, b);
            let before = greedy_forest(init);
            if !connected(before, last.0, last.1) {
                assert(before.push(last).drop_last() =~= before);
            }
        }
    }
}

/// Edges that are matched by edges within the vertices are within the vertices.
proof fn lemma_matched_within(
    edges: Seq<(usize, usize, u64)>,
    other: Seq<(usize, usize, u64)>,
    vertices: int,
)
    requires
        within(edges, vertices),
        forall|i: int| 0 <= i < other.len() ==> matched(edges, #[trigger] other[i]),
    ensures
        within(other, vertices),
{
    assert forall|k: int| 0 <= k < other.len() implies (#[trigger] other[k]).0 < vertices
        && other[k].1 < vertices by {
        assert(matched(edges, other[k]));
        let j = choose|j: int|
            0 <= j < edges.len() && joins(#[trigger] edges[j], other[k].0, other[k].1) && edges[j].2
                == other[k].2;
    }
}

/// The forest that is picked of ascending edges weighs no more than any forest that
/// connects all that the edges connect and is made of edges that the edges match.
pub proof fn lemma_greedy_forest_weighs_least(
    edges: Seq<(usize, usize, u64)>,
    other: Seq<(usize, usize, u64)>,
    vertices: int,
)
    requires
        0 <= vertices <= usize::MAX,
        within(edges, vertices),
        ascending_weights(edges),
        is_forest(other),
        forall|i: int| 0 <= i < other.len() ==> matched(edges, #[trigger] other[i]),
        forall|a: usize, b: usize| #[trigger] connected(edges, a, b) ==> connected(other, a, b),
    ensures
        total_weight(greedy_forest(edges)) <= total_weight(other),
{
    let picked = greedy_forest(edges);
    lemma_greedy_forest_is_forest(edges);
    lemma_matched_within(edges, other, vertices);
    assert(within(picked, vertices)) by {
        assert forall|k: int| 0 <= k < picked.len() implies (#[trigger] picked[k]).0 < vertices
            && picked[k].1 < vertices by {
            assert(edges.contains(picked[k]));
            let j = choose|j: int| 0 <= j < edges.len() && edges[j] == picked[k];
        }
    }
    lemma_forest_counts(picked, vertices);
    lemma_forest_counts(other, vertices);
    assert forall|a: usize, b: usize| #[trigger] connected(picked, a, b) implies connected(
        other,
        a,
        b,
    ) by {
        lemma_forest_spans(edges, a, b);
    }
    lemma_finer_has_more_sets(picked, other, vertices);
    assert forall|limit: u64| #[trigger] heavy_count(picked, limit) <= heavy_count(other, limit) by {
        let picked_part = light(picked, limit);
        let other_part = light(other, limit);
        let edges_part = light(edges, limit);
        lemma_light_forest(picked, limit);
        lemma_light_forest(other, limit);
        lemma_light(picked, limit);
        lemma_light(other, limit);
        lemma_light(edges, limit);
        assert(within(picked_part, vertices)) by {
            assert forall|k: int| 0 <= k < picked_part.len() implies (#[trigger] picked_part[k]).0
                < vertices && picked_part[k].1 < vertices by {
                assert(picked.contains(picked_part[k]));
                let j = choose|j: int| 0 <= j < picked.len() && picked[j] == picked_part[k];
            }
        }
        assert(within(other_part, vertices)) by {
            assert forall|k: int| 0 <= k < other_part.len() implies (#[trigger] other_part[k]).0
                < vertices && other_part[k].1 < vertices by {
                assert(other.contains(other_part[k]));
                let j = choose|j: int| 0 <= j < other.len() && other[j] == other_part[k];
            }
        }
        lemma_forest_counts(picked_part, vertices);
        lemma_forest_counts(other_part, vertices);
        assert forall|i: int| 0 <= i < other_part.len() implies connected(
            picked_part,
            (#[trigger] other_part[i]).0,
            other_part[i].1,
        ) by {
            let edge = other_part[i];
            assert(other.contains(edge));
            let k = choose|k: int| 0 <= k < other.len() && other[k] == edge;
            assert(matched(edges, other[k]));
            let j = choose|j: int|
                0 <= j < edges.len() && joins(#[trigger] edges[j], edge.0, edge.1) && edges[j].2
                    == edge.2;
            assert(edges_part.contains(edges[j]));
            let m = choose|m: int| 0 <= m < edges_part.len() && edges_part[m] == edges[j];
            assert(hop(edges_part, m, edge.0, edge.1));
            assert(linked(edges_part, edge.0, edge.0, 0));
            assert(linked(edges_part, edge.0, edge.1, 1));
            lemma_light_forest_spans(edges, limit, edge.0, edge.1);
        }
        assert forall|a: usize, b: usize| #[trigger] connected(other_part, a, b) implies connected(
            picked_part,
            a,
            b,
        ) by {
            let steps = choose|steps: nat| linked(other_part, a, b, steps);
            lemma_linked_by_connected(other_part, picked_part, a, b, steps);
        }
        lemma_finer_has_more_sets(other_part, picked_part, vertices);
    }
    lemma_layers_compare(picked, other, u64::MAX as nat);
    lemma_layers_are_total(picked);
    lemma_layers_are_total(other);
}

proof fn lemma_forward_edges_within(list: Seq<Edge>, from: usize, vertices: int)
    requires
        from < vertices,
        forall|i: int| 0 <= i < list.len() ==> (#[trigger] list[i]).to < vertices,
    ensures
        within(forward_edges(list, from), vertices),
    decreases list.len(),
{
    if list.len() > 0 {
        let init = list.drop_last();
        assert forall|i: int| 0 <= i < init.len() implies (#[trigger] init[i]).to < vertices by {
            assert(init[i] == list[i]);
        }
        lemma_forward_edges_within(init, from, vertices);
        assert(list.last() == list[list.len() - 1]);
    }
}

proof fn lemma_edges_once_within(adjacency: Seq<Seq<Edge>>, upto: int)
    requires
        fits(adjacency, adjacency.len() as int),
        0 <= upto <= adjacency.len(),
    ensures
        within(edges_once(adjacency, upto), adjacency.len() as int),
    decreases upto,
{
    if upto > 0 {
        lemma_edges_once_within(adjacency, upto - 1);
        lemma_forward_edges_within(adjacency[upto - 1], (upto - 1) as usize, adjacency.len() as int);
        let before = edges_once(adjacency, upto - 1);
        let more = forward_edges(adjacency[upto - 1], (upto - 1) as usize);
        let all = edges_once(adjacency, upto);
        assert forall|k: int| 0 <= k < all.len() implies (#[trigger] all[k]).0 < adjacency.len()
            && all[k].1 < adjacency.len() by {
            if k < before.len() {
                assert(all[k] == before[k]);
            } else {
                assert(all[k] == more[k - before.len()]);
            }
        }
    }
}

/// The forward edges of a list are the edges of the list that lead forward.
proof fn lemma_forward_edges_hold(list: Seq<Edge>, from: usize, edge: (usize, usize, u64))
    ensures
        forward_edges(list, from).contains(edge) <==> edge.0 == from && from < edge.1 && list.contains(
            Edge { to: edge.1, weight: edge.2 },
        ),
    decreases list.len(),
{
    let all = forward_edges(list, from);
    let there = Edge { to: edge.1, weight: edge.2 };
    if list.len() > 0 {
        let init = list.drop_last();
        let before = forward_edges(init, from);
        lemma_forward_edges_hold(init, from, edge);
        if all.contains(edge) {
            let i = choose|i: int| 0 <= i < all.len() && all[i] == edge;
            if i < before.len() {
                assert(before[i] == edge);
                let j = choose|j: int| 0 <= j < init.len() && init[j] == there;
                assert(list[j] == there);
            } else {
                assert(list[list.len() - 1] == there);
            }
        }
        if edge.0 == from && from < edge.1 && list.contains(there) {
            let j = choose|j: int| 0 <= j < list.len() && list[j] == there;
            if j < init.len() {
                assert(init[j] == there);
                let i = choose|i: int| 0 <= i < before.len() && before[i] == edge;
                assert(all[i] == edge);
            } else {
                assert(all[before.len() as int] == edge);
            }
        }
    }
}

/// The edges that are taken once are the edges of the graph that lead forward.
proof fn lemma_edges_once_hold(adjacency: Seq<Seq<Edge>>, upto: int, edge: (usize, usize, u64))
    requires
        0 <= upto <= adjacency.len(),
        adjacency.len() <= usize::MAX,
    ensures
        edges_once(adjacency, upto).contains(edge) <==> edge.0 < upto && edge.0 < edge.1
            && adjacency[edge.0 as int].contains(Edge { to: edge.1, weight: edge.2 }),
    decreases upto,
{
    if upto > 0 {
        let before = edges_once(adjacency, upto - 1);
        let more = forward_edges(adjacency[upto - 1], (upto - 1) as usize);
        let all = edges_once(adjacency, upto);
        lemma_edges_once_hold(adjacency, upto - 1, edge);
        lemma_forward_edges_hold(adjacency[upto - 1], (upto - 1) as usize, edge);
        if all.contains(edge) {
            let i = choose|i: int| 0 <= i < all.len() && all[i] == edge;
            if i < before.len() {
                assert(before[i] == edge);
            } else {
                assert(more[i - before.len()] == edge);
            }
        }
        if before.contains(edge) {
            let i = choose|i: int| 0 <= i < before.len() && before[i] == edge;
            assert(all[i] == edge);
        }
        if more.contains(edge) {
            let i = choose|i: int| 0 <= i < more.len() && more[i] == edge;
            assert(all[before.len() + i] == edge);
        }
    }
}

/// Sorting keeps every edge.
proof fn lemma_sorted_holds_same(
    input: Seq<(usize, usize, u64)>,
    output: Seq<(usize, usize, u64)>,
    edge: (usize, usize, u64),
)
    requires
        sorted_stably(input, output),
    ensures
        output.contains(edge) <==> input.contains(edge),
        ascending_weights(output),
{
    let origin = choose|origin: Seq<int>| sorted_from(input, output, origin);
    let n = input.len() as int;
    if output.contains(edge) {
        let i = choose|i: int| 0 <= i < output.len() && output[i] == edge;
        assert(input[origin[i]] == edge);
    }
    assert forall|i: int, j: int| 0 <= i < j < origin.len() implies origin[i] != origin[j] by {
        assert(output[i] == input[origin[i]] && output[j] == input[origin[j]]);
    }
    assert(origin.no_duplicates());
    origin.unique_seq_to_set();
    lemma_int_range(0, n);
    assert(origin.to_set().subset_of(set_int_range(0, n))) by {
        assert forall|k: int| origin.to_set().contains(k) implies set_int_range(0, n).contains(k) by {
            let i = choose|i: int| 0 <= i < origin.len() && origin[i] == k;
            assert(0 <= origin[i] < n);
        }
    }
    lemma_subset_equality(origin.to_set(), set_int_range(0, n));
    if input.contains(edge) {
        let k = choose|k: int| 0 <= k < input.len() && input[k] == edge;
        assert(set_int_range(0, n).contains(k));
        assert(origin.to_set().contains(k));
        let i = choose|i: int| 0 <= i < origin.len() && origin[i] == k;
        assert(output[i] == edge);
    }
}

/// The sorted edges of a graph are within its vertices, and ascending.
proof fn lemma_sorted_edges(adjacency: Seq<Seq<Edge>>, sorted: Seq<(usize, usize, u64)>)
    requires
        fits(adjacency, adjacency.len() as int),
        sorted_stably(edges_once(adjacency, adjacency.len() as int), sorted),
    ensures
        within(sorted, adjacency.len() as int),
        ascending_weights(sorted),
{
    let n = adjacency.len() as int;
    let unsorted = edges_once(adjacency, n);
    lemma_edges_once_within(adjacency, n);
    let origin = choose|origin: Seq<int>| sorted_from(unsorted, sorted, origin);
    assert forall|k: int| 0 <= k < sorted.len() implies (#[trigger] sorted[k]).0 < n && sorted[k].1
        < n by {
        assert(sorted[k] == unsorted[origin[k]]);
    }
}

/// What Kruskal's algorithm returns for a graph is a lightest spanning forest of the
/// graph: it is a forest, it connects all that the edges of the graph connect, and no
/// forest of edges of the graph that does so weighs less.
pub proof fn lemma_kruskal_is_lightest(
    adjacency: Seq<Seq<Edge>>,
    sorted: Seq<(usize, usize, u64)>,
    other: Seq<(usize, usize, u64)>,
)
    requires
        fits(adjacency, adjacency.len() as int),
        sorted_stably(edges_once(adjacency, adjacency.len() as int), sorted),
        is_forest(other),
        forall|i: int| 0 <= i < other.len() ==> matched(sorted, #[trigger] other[i]),
        forall|a: usize, b: usize| #[trigger] connected(sorted, a, b) ==> connected(other, a, b),
    ensures
        is_forest(greedy_forest(sorted)),
        forall|a: usize, b: usize| #[trigger]
            connected(sorted, a, b) ==> connected(greedy_forest(sorted), a, b),
        total_weight(greedy_forest(sorted)) <= total_weight(other),
{
    lemma_sorted_edges(adjacency, sorted);
    lemma_greedy_forest_is_forest(sorted);
    assert forall|a: usize, b: usize| #[trigger] connected(sorted, a, b) implies connected(
        greedy_forest(sorted),
        a,
        b,
    ) by {
        lemma_forest_spans(sorted, a, b);
    }
    lemma_greedy_forest_weighs_least(sorted, other, adjacency.len() as int);
}

/// The vertices of a tree that Prim's algorithm grows come into it once each, and every
/// edge of the tree joins two of them, the far end having come in with the edge.
proof fn lemma_prim_tree_vertices(adjacency: Seq<Seq<Edge>>, tree: Seq<(usize, usize, u64)>, k: int)
    requires
        grows_by_lightest(adjacency, tree),
        0 <= k <= tree.len(),
    ensures
        tree_so_far(tree, k).len() == k + 1,
        tree_so_far(tree, k) == tree_so_far(tree, tree.len() as int).take(k + 1),
        forall|i: int, j: int|
            0 <= i < j <= k ==> tree_so_far(tree, k)[i] != tree_so_far(tree, k)[j],
        forall|i: int|
            0 <= i < k ==> tree_so_far(tree, k).contains((#[trigger] tree[i]).0) && tree_so_far(
                tree,
                k,
            ).contains(tree[i].1),
{
    let all = tree_so_far(tree, tree.len() as int);
    let now = tree_so_far(tree, k);
    assert(now =~= all.take(k + 1));
    assert forall|i: int, j: int| 0 <= i < j <= k implies now[i] != now[j] by {
        let before = tree_so_far(tree, j - 1);
        assert(leaves(adjacency, before, tree[j - 1]));
        assert(before[i] == now[i]);
        assert(before.contains(now[i]));
    }
    assert forall|i: int| 0 <= i < k implies now.contains((#[trigger] tree[i]).0) && now.contains(
        tree[i].1,
    ) by {
        let before = tree_so_far(tree, i);
        assert(leaves(adjacency, before, tree[i]));
        let j = choose|j: int| 0 <= j < before.len() && before[j] == tree[i].0;
        assert(now[j] == tree[i].0);
        assert(now[i + 1] == tree[i].1);
    }
}

/// What edges of the tree connect to a vertex of the tree is in the tree.
proof fn lemma_chain_stays_inside(
    edges: Seq<(usize, usize, u64)>,
    inside: Seq<usize>,
    a: usize,
    b: usize,
    steps: nat,
)
    requires
        forall|i: int|
            0 <= i < edges.len() ==> inside.contains((#[trigger] edges[i]).0) && inside.contains(
                edges[i].1,
            ),
        inside.contains(a),
        linked(edges, a, b, steps),
    ensures
        inside.contains(b),
    decreases steps,
{
    if a != b {
        let (via, i) = choose|via: usize, i: int|
            #![trigger hop(edges, i, via, b)]
            linked(edges, a, via, (steps - 1) as nat) && hop(edges, i, via, b);
        assert(inside.contains(edges[i].0) && inside.contains(edges[i].1));
    }
}

/// A tree that Prim's algorithm grows is a forest.
proof fn lemma_prim_tree_is_forest(adjacency: Seq<Seq<Edge>>, tree: Seq<(usize, usize, u64)>)
    requires
        grows_by_lightest(adjacency, tree),
    ensures
        is_forest(tree),
{
    assert forall|k: int| 0 <= k < tree.len() implies !connected(
        tree.take(k),
        (#[trigger] tree[k]).0,
        tree[k].1,
    ) by {
        let before = tree.take(k);
        let inside = tree_so_far(tree, k);
        lemma_prim_tree_vertices(adjacency, tree, k);
        assert(leaves(adjacency, inside, tree[k]));
        if connected(before, tree[k].0, tree[k].1) {
            let steps = choose|steps: nat| linked(before, tree[k].0, tree[k].1, steps);
            assert forall|i: int| 0 <= i < before.len() implies inside.contains(
                (#[trigger] before[i]).0,
            ) && inside.contains(before[i].1) by {
                assert(before[i] == tree[i]);
            }
            lemma_chain_stays_inside(before, inside, tree[k].0, tree[k].1, steps);
        }
    }
}

/// The edges of a tree that Prim's algorithm grows are edges of the graph that leave
/// vertices of the tree.
proof fn lemma_prim_tree_in_part(adjacency: Seq<Seq<Edge>>, tree: Seq<(usize, usize, u64)>)
    requires
        grows_by_lightest(adjacency, tree),
    ensures
        forall|i: int| 0 <= i < tree.len() ==> in_tree_part(adjacency, tree, #[trigger] tree[i]),
{
    lemma_prim_tree_vertices(adjacency, tree, tree.len() as int);
    assert forall|i: int| 0 <= i < tree.len() implies in_tree_part(
        adjacency,
        tree,
        #[trigger] tree[i],
    ) by {
        assert(leaves(adjacency, tree_so_far(tree, i), tree[i]));
    }
}

/// Edges of the graph that leave vertices of the tree join vertices of the graph.
proof fn lemma_tree_part_within(
    adjacency: Seq<Seq<Edge>>,
    tree: Seq<(usize, usize, u64)>,
    edges: Seq<(usize, usize, u64)>,
)
    requires
        fits(adjacency, adjacency.len() as int),
        forall|i: int| 0 <= i < edges.len() ==> in_tree_part(adjacency, tree, #[trigger] edges[i]),
    ensures
        within(edges, adjacency.len() as int),
{
    assert forall|k: int| 0 <= k < edges.len() implies (#[trigger] edges[k]).0 < adjacency.len()
        && edges[k].1 < adjacency.len() by {
        let edge = edges[k];
        assert(in_tree_part(adjacency, tree, edge));
        let there = Edge { to: edge.1, weight: edge.2 };
        let i = choose|i: int|
            0 <= i < adjacency[edge.0 as int].len() && adjacency[edge.0 as int][i] == there;
        assert(adjacency[edge.0 as int][i].to < adjacency.len());
    }
}

/// The tree that Prim's algorithm grows connects vertex 0 to each of its vertices.
proof fn lemma_prim_tree_connects(adjacency: Seq<Seq<Edge>>, tree: Seq<(usize, usize, u64)>, at: int)
    requires
        grows_by_lightest(adjacency, tree),
        0 <= at <= tree.len(),
    ensures
        connected(tree, 0, tree_so_far(tree, tree.len() as int)[at]),
    decreases at,
{
    let inside = tree_so_far(tree, tree.len() as int);
    if at == 0 {
        assert(linked(tree, 0, 0, 0));
    } else {
        let link = tree[at - 1];
        let before = tree_so_far(tree, at - 1);
        lemma_prim_tree_vertices(adjacency, tree, at - 1);
        assert(leaves(adjacency, before, link));
        let j = choose|j: int| 0 <= j < before.len() && before[j] == link.0;
        assert(inside[j] == link.0) by {
            assert(before[j] == inside.take(at)[j]);
        }
        lemma_prim_tree_connects(adjacency, tree, j);
        assert(hop(tree, at - 1, link.0, link.1));
        assert(linked(tree, link.0, link.0, 0));
        assert(linked(tree, link.0, link.1, 1));
        lemma_connected_is_equivalence(tree, 0, link.0, link.1);
    }
}

/// A chain that leads from a vertex in `inside` to one that is not has an edge that does.
proof fn lemma_chain_crosses(
    edges: Seq<(usize, usize, u64)>,
    inside: Seq<usize>,
    a: usize,
    b: usize,
    steps: nat,
) -> (crossing: (int, usize, usize))
    requires
        linked(edges, a, b, steps),
        inside.contains(a),
        !inside.contains(b),
    ensures
        hop(edges, crossing.0, crossing.1, crossing.2),
        inside.contains(crossing.1),
        !inside.contains(crossing.2),
    decreases steps,
{
    let (via, i) = choose|via: usize, i: int|
        #![trigger hop(edges, i, via, b)]
        linked(edges, a, via, (steps - 1) as nat) && hop(edges, i, via, b);
    if inside.contains(via) {
        (i, via, b)
    } else {
        lemma_chain_crosses(edges, inside, a, via, (steps - 1) as nat)
    }
}

/// The earliest of the vertices of `inside` that `edges` connect to the vertex `inside[at]`.
proof fn lemma_earliest_connected(edges: Seq<(usize, usize, u64)>, inside: Seq<usize>, at: int) -> (first: int)
    requires
        0 <= at < inside.len(),
    ensures
        0 <= first <= at,
        connected(edges, inside[first], inside[at]),
        forall|j: int| 0 <= j < first ==> !connected(edges, #[trigger] inside[j], inside[at]),
    decreases at,
{
    if forall|j: int| 0 <= j < at ==> !connected(edges, #[trigger] inside[j], inside[at]) {
        lemma_connected_is_equivalence(edges, inside[at], inside[at], inside[at]);
        at
    } else {
        let j = choose|j: int| 0 <= j < at && connected(edges, #[trigger] inside[j], inside[at]);
        let first = lemma_earliest_connected(edges, inside, j);
        lemma_connected_is_equivalence(edges, inside[first], inside[j], inside[at]);
        assert forall|i: int| 0 <= i < first implies !connected(
            edges,
            #[trigger] inside[i],
            inside[at],
        ) by {
            lemma_connected_is_equivalence(edges, inside[j], inside[at], inside[j]);
            lemma_connected_is_equivalence(edges, inside[i], inside[at], inside[j]);
        }
        first
    }
}

/// An edge of the graph, turned round if need be, that leads out of `inside`.
proof fn lemma_crossing_edge_leaves(
    adjacency: Seq<Seq<Edge>>,
    inside: Seq<usize>,
    edge: (usize, usize, u64),
    c: usize,
    d: usize,
)
    requires
        is_undirected(adjacency),
        edge.0 < adjacency.len(),
        adjacency[edge.0 as int].contains(Edge { to: edge.1, weight: edge.2 }),
        joins(edge, c, d),
        inside.contains(c),
        !inside.contains(d),
    ensures
        leaves(adjacency, inside, (c, d, edge.2)),
{
    let there = Edge { to: edge.1, weight: edge.2 };
    let i = choose|i: int|
        0 <= i < adjacency[edge.0 as int].len() && adjacency[edge.0 as int][i] == there;
    assert(adjacency[edge.0 as int][i].to < adjacency.len());
}

/// The earliest vertex that light edges of the tree connect to a vertex came into the tree
/// by a heavy edge, unless it is vertex 0.
proof fn lemma_earliest_came_by_heavy(
    adjacency: Seq<Seq<Edge>>,
    tree: Seq<(usize, usize, u64)>,
    limit: u64,
    first: int,
    at: int,
)
    requires
        grows_by_lightest(adjacency, tree),
        0 < first <= at <= tree.len(),
        forall|j: int|
            0 <= j < first ==> !connected(
                light(tree, limit),
                #[trigger] tree_so_far(tree, tree.len() as int)[j],
                tree_so_far(tree, tree.len() as int)[at],
            ),
        connected(
            light(tree, limit),
            tree_so_far(tree, tree.len() as int)[first],
            tree_so_far(tree, tree.len() as int)[at],
        ),
    ensures
        tree[first - 1].2 > limit,
{
    let inside = tree_so_far(tree, tree.len() as int);
    let part = light(tree, limit);
    let link = tree[first - 1];
    let before = tree_so_far(tree, first - 1);
    lemma_light(tree, limit);
    lemma_prim_tree_vertices(adjacency, tree, first - 1);
    assert(leaves(adjacency, before, link));
    assert(link.1 == inside[first]);
    if link.2 <= limit {
        assert(part.contains(link));
        let m = choose|m: int| 0 <= m < part.len() && part[m] == link;
        assert(hop(part, m, link.0, link.1));
        assert(linked(part, link.0, link.0, 0));
        assert(linked(part, link.0, link.1, 1));
        assert(connected(part, link.0, link.1));
        let j = choose|j: int| 0 <= j < before.len() && before[j] == link.0;
        assert(inside[j] == link.0) by {
            assert(before[j] == inside.take(first)[j]);
        }
        lemma_connected_is_equivalence(part, inside[j], inside[first], inside[at]);
    }
}

/// Where light edges of the tree, with one light edge of the graph, connect a vertex that
/// was in the tree at some time to one that was not, a light edge of the graph led out of
/// the tree at that time.
proof fn lemma_light_edge_leaves(
    adjacency: Seq<Seq<Edge>>,
    tree: Seq<(usize, usize, u64)>,
    edge: (usize, usize, u64),
    limit: u64,
    k: int,
    a: usize,
    b: usize,
) -> (out: (usize, usize, u64))
    requires
        is_undirected(adjacency),
        grows_by_lightest(adjacency, tree),
        0 <= k <= tree.len(),
        edge.2 <= limit,
        edge.0 < adjacency.len(),
        adjacency[edge.0 as int].contains(Edge { to: edge.1, weight: edge.2 }),
        connected(light(tree, limit).push(edge), a, b),
        tree_so_far(tree, k).contains(a),
        !tree_so_far(tree, k).contains(b),
    ensures
        leaves(adjacency, tree_so_far(tree, k), out),
        out.2 <= limit,
{
    let part = light(tree, limit);
    let more = part.push(edge);
    let before = tree_so_far(tree, k);
    lemma_light(tree, limit);
    let steps = choose|steps: nat| linked(more, a, b, steps);
    let crossing = lemma_chain_crosses(more, before, a, b, steps);
    let found = more[crossing.0];
    assert(found.2 <= limit && found.0 < adjacency.len() && adjacency[found.0 as int].contains(
        Edge { to: found.1, weight: found.2 },
    )) by {
        if crossing.0 < part.len() {
            assert(found == part[crossing.0]);
            assert(tree.contains(found));
            let i = choose|i: int| 0 <= i < tree.len() && tree[i] == found;
            assert(leaves(adjacency, tree_so_far(tree, i), tree[i]));
        }
    }
    lemma_crossing_edge_leaves(adjacency, before, found, crossing.1, crossing.2);
    (crossing.1, crossing.2, found.2)
}

/// Between the two ends of an edge of the graph in the part of the tree, the tree has a
/// chain of edges none of which is heavier than that edge.
proof fn lemma_tree_chain_is_light(
    adjacency: Seq<Seq<Edge>>,
    tree: Seq<(usize, usize, u64)>,
    edge: (usize, usize, u64),
    limit: u64,
)
    requires
        is_undirected(adjacency),
        is_prim_tree(adjacency, tree),
        in_tree_part(adjacency, tree, edge),
        edge.2 <= limit,
    ensures
        connected(light(tree, limit), edge.0, edge.1),
{
    let all = tree.len() as int;
    let inside = tree_so_far(tree, all);
    let part = light(tree, limit);
    lemma_prim_tree_vertices(adjacency, tree, all);
    assert(inside.contains(edge.1)) by {
        if !inside.contains(edge.1) {
            assert(leaves(adjacency, inside, edge));
        }
    }
    let iu = choose|i: int| 0 <= i < inside.len() && inside[i] == edge.0;
    let iv = choose|i: int| 0 <= i < inside.len() && inside[i] == edge.1;
    let qu = lemma_earliest_connected(part, inside, iu);
    let qv = lemma_earliest_connected(part, inside, iv);
    lemma_connected_is_equivalence(part, inside[qu], edge.0, inside[qu]);
    lemma_connected_is_equivalence(part, inside[qv], edge.1, inside[qv]);
    if qu == qv {
        lemma_connected_is_equivalence(part, edge.0, inside[qu], edge.1);
    } else {
        let later = if qu < qv {
            qv
        } else {
            qu
        };
        let sooner = if qu < qv {
            qu
        } else {
            qv
        };
        let s1 = inside[sooner];
        let s2 = inside[later];
        let before = tree_so_far(tree, later - 1);
        lemma_earliest_came_by_heavy(adjacency, tree, limit, later, if qu < qv {
            iv
        } else {
            iu
        });
        lemma_prim_tree_vertices(adjacency, tree, later - 1);
        lemma_connected_with_more(part, edge, s1, s2);
        assert(connected(part.push(edge), s1, s2));
        assert(before.contains(s1)) by {
            assert(before[sooner] == inside.take(later)[sooner]);
        }
        assert(!before.contains(s2)) by {
            if before.contains(s2) {
                let j = choose|j: int| 0 <= j < before.len() && before[j] == s2;
                assert(before[j] == inside.take(later)[j]);
                assert(inside[j] != inside[later]);
            }
        }
        let out = lemma_light_edge_leaves(adjacency, tree, edge, limit, later - 1, s1, s2);
        assert(leaves(adjacency, before, out));
        assert(tree[later - 1].2 <= out.2);
    }
}

/// Of the light edges, a forest in the part of the tree has no more than the tree.
proof fn lemma_tree_has_most_light(
    adjacency: Seq<Seq<Edge>>,
    tree: Seq<(usize, usize, u64)>,
    other: Seq<(usize, usize, u64)>,
    limit: u64,
)
    requires
        fits(adjacency, adjacency.len() as int),
        is_undirected(adjacency),
        is_prim_tree(adjacency, tree),
        is_forest(other),
        forall|i: int| 0 <= i < other.len() ==> in_tree_part(adjacency, tree, #[trigger] other[i]),
    ensures
        light(other, limit).len() <= light(tree, limit).len(),
{
    let n = adjacency.len() as int;
    let tree_part = light(tree, limit);
    let other_part = light(other, limit);
    lemma_prim_tree_is_forest(adjacency, tree);
    lemma_prim_tree_in_part(adjacency, tree);
    lemma_light_forest(tree, limit);
    lemma_light_forest(other, limit);
    lemma_light(tree, limit);
    lemma_light(other, limit);
    assert forall|i: int| 0 <= i < tree_part.len() implies in_tree_part(
        adjacency,
        tree,
        #[trigger] tree_part[i],
    ) by {
        assert(tree.contains(tree_part[i]));
        let j = choose|j: int| 0 <= j < tree.len() && tree[j] == tree_part[i];
        assert(in_tree_part(adjacency, tree, tree[j]));
    }
    assert forall|i: int| 0 <= i < other_part.len() implies in_tree_part(
        adjacency,
        tree,
        #[trigger] other_part[i],
    ) && connected(tree_part, other_part[i].0, other_part[i].1) by {
        assert(other.contains(other_part[i]));
        let j = choose|j: int| 0 <= j < other.len() && other[j] == other_part[i];
        assert(in_tree_part(adjacency, tree, other[j]));
        lemma_tree_chain_is_light(adjacency, tree, other_part[i], limit);
    }
    lemma_tree_part_within(adjacency, tree, tree_part);
    lemma_tree_part_within(adjacency, tree, other_part);
    lemma_forest_counts(tree_part, n);
    lemma_forest_counts(other_part, n);
    assert forall|a: usize, b: usize| #[trigger] connected(other_part, a, b) implies connected(
        tree_part,
        a,
        b,
    ) by {
        let steps = choose|steps: nat| linked(other_part, a, b, steps);
        lemma_linked_by_connected(other_part, tree_part, a, b, steps);
    }
    lemma_finer_has_more_sets(other_part, tree_part, n);
}

/// The tree that Prim's algorithm grows in an undirected graph is a lightest spanning tree
/// of the part of the graph that vertex 0 is in: it is a forest, and no forest of edges of
/// that part that connects all that the tree connects weighs less.
pub proof fn lemma_prim_tree_is_lightest(
    adjacency: Seq<Seq<Edge>>,
    tree: Seq<(usize, usize, u64)>,
    other: Seq<(usize, usize, u64)>,
)
    requires
        fits(adjacency, adjacency.len() as int),
        is_undirected(adjacency),
        is_prim_tree(adjacency, tree),
        is_forest(other),
        forall|i: int| 0 <= i < other.len() ==> in_tree_part(adjacency, tree, #[trigger] other[i]),
        forall|a: usize, b: usize| #[trigger] connected(tree, a, b) ==> connected(other, a, b),
    ensures
        is_forest(tree),
        total_weight(tree) <= total_weight(other),
{
    let n = adjacency.len() as int;
    lemma_prim_tree_is_forest(adjacency, tree);
    lemma_prim_tree_in_part(adjacency, tree);
    lemma_tree_part_within(adjacency, tree, tree);
    lemma_tree_part_within(adjacency, tree, other);
    lemma_forest_counts(tree, n);
    lemma_forest_counts(other, n);
    lemma_finer_has_more_sets(tree, other, n);
    assert(tree.len() <= other.len());
    assert forall|limit: u64| #[trigger] heavy_count(tree, limit) <= heavy_count(other, limit) by {
        lemma_tree_has_most_light(adjacency, tree, other, limit);
    }
    lemma_layers_compare(tree, other, u64::MAX as nat);
    lemma_layers_are_total(tree);
    lemma_layers_are_total(other);
}

/// Every edge of the tree is matched by one of the sorted edges of the graph.
proof fn lemma_tree_edge_is_matched(
    adjacency: Seq<Seq<Edge>>,
    sorted: Seq<(usize, usize, u64)>,
    tree: Seq<(usize, usize, u64)>,
    i: int,
)
    requires
        fits(adjacency, adjacency.len() as int),
        is_undirected(adjacency),
        sorted_stably(edges_once(adjacency, adjacency.len() as int), sorted),
        grows_by_lightest(adjacency, tree),
        0 <= i < tree.len(),
    ensures
        matched(sorted, tree[i]),
        connected(sorted, tree[i].0, tree[i].1),
{
    let n = adjacency.len() as int;
    let unsorted = edges_once(adjacency, n);
    let edge = tree[i];
    assert(leaves(adjacency, tree_so_far(tree, i), edge));
    let there = Edge { to: edge.1, weight: edge.2 };
    let at = choose|at: int|
        0 <= at < adjacency[edge.0 as int].len() && adjacency[edge.0 as int][at] == there;
    assert(adjacency[edge.0 as int][at].to < n);
    assert(adjacency[edge.1 as int].contains(Edge { to: edge.0, weight: edge.2 }));
    assert(edge.0 != edge.1);
    let forward = if edge.0 < edge.1 {
        edge
    } else {
        (edge.1, edge.0, edge.2)
    };
    lemma_edges_once_hold(adjacency, n, forward);
    lemma_sorted_holds_same(unsorted, sorted, forward);
    let j = choose|j: int| 0 <= j < sorted.len() && sorted[j] == forward;
    assert(joins(sorted[j], edge.0, edge.1));
    assert(hop(sorted, j, edge.0, edge.1));
    assert(linked(sorted, edge.0, edge.0, 0));
    assert(linked(sorted, edge.0, edge.1, 1));
}

/// Every edge that is picked of the sorted edges of the graph leaves a vertex of a tree
/// that holds all vertices.
proof fn lemma_picked_edge_in_part(
    adjacency: Seq<Seq<Edge>>,
    sorted: Seq<(usize, usize, u64)>,
    tree: Seq<(usize, usize, u64)>,
    i: int,
)
    requires
        fits(adjacency, adjacency.len() as int),
        sorted_stably(edges_once(adjacency, adjacency.len() as int), sorted),
        forall|v: usize| v < adjacency.len() ==> tree_so_far(tree, tree.len() as int).contains(v),
        0 <= i < greedy_forest(sorted).len(),
    ensures
        in_tree_part(adjacency, tree, greedy_forest(sorted)[i]),
{
    let n = adjacency.len() as int;
    let edge = greedy_forest(sorted)[i];
    lemma_greedy_forest_is_forest(sorted);
    assert(sorted.contains(edge));
    lemma_sorted_holds_same(edges_once(adjacency, n), sorted, edge);
    lemma_edges_once_hold(adjacency, n, edge);
}

/// What the sorted edges of the graph connect, a tree that holds all vertices connects.
proof fn lemma_tree_connects_all(
    adjacency: Seq<Seq<Edge>>,
    sorted: Seq<(usize, usize, u64)>,
    tree: Seq<(usize, usize, u64)>,
    a: usize,
    b: usize,
)
    requires
        fits(adjacency, adjacency.len() as int),
        sorted_stably(edges_once(adjacency, adjacency.len() as int), sorted),
        grows_by_lightest(adjacency, tree),
        forall|v: usize| v < adjacency.len() ==> tree_so_far(tree, tree.len() as int).contains(v),
        connected(sorted, a, b),
    ensures
        connected(tree, a, b),
{
    let n = adjacency.len() as int;
    let inside = tree_so_far(tree, tree.len() as int);
    lemma_connected_is_equivalence(tree, a, a, a);
    if a != b {
        lemma_sorted_edges(adjacency, sorted);
        let steps = choose|steps: nat| linked(sorted, a, b, steps);
        lemma_linked_within(sorted, n, a, b, steps);
        assert(inside.contains(a));
        assert(inside.contains(b));
        let ia = choose|i: int| 0 <= i < inside.len() && inside[i] == a;
        let ib = choose|i: int| 0 <= i < inside.len() && inside[i] == b;
        lemma_prim_tree_vertices(adjacency, tree, tree.len() as int);
        lemma_prim_tree_connects(adjacency, tree, ia);
        lemma_prim_tree_connects(adjacency, tree, ib);
        lemma_connected_is_equivalence(tree, 0, a, 0);
        lemma_connected_is_equivalence(tree, a, 0, b);
    }
}

/// In an undirected graph that is all of one part, the forest that Kruskal's algorithm
/// returns and the tree that Prim's algorithm grows weigh the same.
pub proof fn lemma_kruskal_and_prim_weigh_the_same(
    adjacency: Seq<Seq<Edge>>,
    sorted: Seq<(usize, usize, u64)>,
    tree: Seq<(usize, usize, u64)>,
)
    requires
        fits(adjacency, adjacency.len() as int),
        is_undirected(adjacency),
        sorted_stably(edges_once(adjacency, adjacency.len() as int), sorted),
        is_prim_tree(adjacency, tree),
        forall|v: usize| v < adjacency.len() ==> tree_so_far(tree, tree.len() as int).contains(v),
    ensures
        total_weight(greedy_forest(sorted)) == total_weight(tree),
{
    let n = adjacency.len() as int;
    let picked = greedy_forest(sorted);
    lemma_sorted_edges(adjacency, sorted);
    lemma_prim_tree_is_forest(adjacency, tree);
    lemma_greedy_forest_is_forest(sorted);
    assert forall|i: int| 0 <= i < tree.len() implies matched(sorted, #[trigger] tree[i])
        && connected(sorted, tree[i].0, tree[i].1) by {
        lemma_tree_edge_is_matched(adjacency, sorted, tree, i);
    }
    assert forall|a: usize, b: usize| #[trigger] connected(sorted, a, b) implies connected(
        tree,
        a,
        b,
    ) by {
        lemma_tree_connects_all(adjacency, sorted, tree, a, b);
    }
    lemma_greedy_forest_weighs_least(sorted, tree, n);
    assert forall|i: int| 0 <= i < picked.len() implies in_tree_part(
        adjacency,
        tree,
        #[trigger] picked[i],
    ) by {
        lemma_picked_edge_in_part(adjacency, sorted, tree, i);
    }
    assert forall|a: usize, b: usize| #[trigger] connected(tree, a, b) implies connected(
        picked,
        a,
        b,
    ) by {
        let steps = choose|steps: nat| linked(tree, a, b, steps);
        lemma_linked_by_connected(tree, sorted, a, b, steps);
        lemma_forest_spans(sorted, a, b);
    }
    lemma_prim_tree_is_lightest(adjacency, tree, picked);
}

} // verus!
