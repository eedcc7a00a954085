use algolab::graph::spanning::spanning_forest;
use algolab::graph::{Edge, Graph};

fn sample() -> Graph {
    let mut graph = Graph::new(5);
    graph.add_edge(0, 1, 2);
    graph.add_edge(0, 2, 4);
    graph.add_edge(1, 2, 1);
    graph.add_edge(1, 3, 7);
    graph.add_edge(2, 3, 3);
    graph.add_edge(2, 4, 5);
    graph.add_edge(3, 4, 2);
    graph
}

fn total(edges: &[(usize, usize, u64)]) -> u64 {
    edges.iter().map(|edge| edge.2).sum()
}

/// Shortest distances by repeated relaxation of all edges.
fn brute_force_distances(graph: &Graph, start: usize) -> Vec<u64> {
    let mut distances = vec![u64::MAX; graph.vertices];
    distances[start] = 0;
    for _ in 0..graph.vertices {
        for from in 0..graph.vertices {
            for edge in &graph.adjacency_list[from] {
                let through = distances[from].saturating_add(edge.weight);
                if through < distances[edge.to] {
                    distances[edge.to] = through;
                }
            }
        }
    }
    distances
}

/// The least weight of a spanning tree, by trying every set of edges.
fn brute_force_minimum(graph: &Graph) -> u64 {
    let mut edges = Vec::new();
    for from in 0..graph.vertices {
        for edge in &graph.adjacency_list[from] {
            if from < edge.to {
                edges.push((from, edge.to, edge.weight));
            }
        }
    }
    let mut best = u64::MAX;
    for choice in 0u32..(1 << edges.len()) {
        if choice.count_ones() as usize != graph.vertices - 1 {
            continue;
        }
        let mut group: Vec<usize> = (0..graph.vertices).collect();
        let mut weight = 0;
        for (at, edge) in edges.iter().enumerate() {
            if choice & (1 << at) != 0 {
                weight += edge.2;
                let (a, b) = (group[edge.0], group[edge.1]);
                for g in group.iter_mut() {
                    if *g == b {
                        *g = a;
                    }
                }
            }
        }
        if group.iter().all(|g| *g == group[0]) && weight < best {
            best = weight;
        }
    }
    best
}

#[test]
fn new_graph_has_no_edges() {
    let graph = Graph::new(3);
    assert_eq!(graph.vertices, 3);
    assert_eq!(graph.adjacency_list.len(), 3);
    assert!(graph.adjacency_list.iter().all(|list| list.is_empty()));
}

#[test]
fn add_edge_is_mirrored() {
    let mut graph = Graph::new(3);
    graph.add_edge(0, 2, 9);
    assert_eq!(graph.adjacency_list[0], vec![Edge { to: 2, weight: 9 }]);
    assert_eq!(graph.adjacency_list[2], vec![Edge { to: 0, weight: 9 }]);
    assert!(graph.adjacency_list[1].is_empty());
    graph.add_edge(1, 1, 4);
    assert_eq!(
        graph.adjacency_list[1],
        vec![Edge { to: 1, weight: 4 }, Edge { to: 1, weight: 4 }]
    );
}

#[test]
fn dfs_follows_the_lists_depth_first() {
    assert_eq!(sample().dfs(0), vec![0, 1, 2, 3, 4]);
    assert_eq!(sample().dfs(3), vec![3, 1, 0, 2, 4]);
}

#[test]
fn bfs_follows_the_lists_breadth_first() {
    assert_eq!(sample().bfs(0), vec![0, 1, 2, 3, 4]);
    assert_eq!(sample().bfs(3), vec![3, 1, 2, 4, 0]);
}

#[test]
fn traversals_differ_where_depth_and_breadth_differ() {
    let mut graph = Graph::new(6);
    graph.add_edge(0, 1, 1);
    graph.add_edge(0, 2, 1);
    graph.add_edge(1, 3, 1);
    graph.add_edge(1, 4, 1);
    graph.add_edge(2, 5, 1);
    assert_eq!(graph.dfs(0), vec![0, 1, 3, 4, 2, 5]);
    assert_eq!(graph.bfs(0), vec![0, 1, 2, 3, 4, 5]);
}

#[test]
fn traversals_stay_in_the_part_of_the_start() {
    let mut graph = Graph::new(5);
    graph.add_edge(0, 1, 1);
    graph.add_edge(2, 3, 1);
    assert_eq!(graph.dfs(0), vec![0, 1]);
    assert_eq!(graph.bfs(2), vec![2, 3]);
    assert_eq!(graph.dfs(4), vec![4]);
    assert_eq!(graph.bfs(4), vec![4]);
}

#[test]
fn dijkstra_on_the_sample() {
    assert_eq!(sample().dijkstra(0), vec![0, 2, 3, 6, 8]);
}

#[test]
fn dijkstra_agrees_with_repeated_relaxation() {
    let graph = sample();
    for start in 0..graph.vertices {
        assert_eq!(graph.dijkstra(start), brute_force_distances(&graph, start));
    }
    let mut other = Graph::new(7);
    let mut weight = 5;
    for from in 0..7usize {
        for to in (from + 1)..7 {
            weight = (weight * 17 + 3) % 23;
            if weight % 3 != 0 {
                other.add_edge(from, to, weight);
            }
        }
    }
    for start in 0..other.vertices {
        assert_eq!(other.dijkstra(start), brute_force_distances(&other, start));
    }
}

#[test]
fn dijkstra_gives_the_maximum_to_what_it_cannot_reach() {
    let mut graph = Graph::new(4);
    graph.add_edge(0, 1, 3);
    assert_eq!(graph.dijkstra(0), vec![0, 3, u64::MAX, u64::MAX]);
}

#[test]
fn dijkstra_sums_stop_at_the_maximum() {
    let mut graph = Graph::new(3);
    graph.add_edge(0, 1, u64::MAX - 1);
    graph.add_edge(1, 2, 5);
    assert_eq!(graph.dijkstra(0), vec![0, u64::MAX - 1, u64::MAX]);
}

#[test]
fn kruskal_on_the_sample() {
    assert_eq!(sample().kruskal(), vec![(1, 2, 1), (0, 1, 2), (3, 4, 2), (2, 3, 3)]);
}

#[test]
fn kruskal_takes_edges_of_equal_weight_in_list_order() {
    let mut graph = Graph::new(3);
    graph.add_edge(1, 2, 1);
    graph.add_edge(0, 2, 1);
    graph.add_edge(0, 1, 1);
    assert_eq!(graph.kruskal(), vec![(0, 2, 1), (0, 1, 1)]);
}

#[test]
fn prim_on_the_sample() {
    assert_eq!(sample().prim(), vec![(0, 1, 2), (1, 2, 1), (2, 3, 3), (3, 4, 2)]);
}

#[test]
fn kruskal_and_prim_weigh_the_same_as_the_least_spanning_tree() {
    let graph = sample();
    let least = brute_force_minimum(&graph);
    assert_eq!(least, 8);
    assert_eq!(total(&graph.kruskal()), least);
    assert_eq!(total(&graph.prim()), least);

    let mut other = Graph::new(6);
    let mut weight = 11;
    for from in 0..6usize {
        for to in (from + 1)..6 {
            weight = (weight * 13 + 7) % 19;
            if (from + to) % 4 != 3 {
                other.add_edge(from, to, weight + 1);
            }
        }
    }
    let least = brute_force_minimum(&other);
    assert_eq!(total(&other.kruskal()), least);
    assert_eq!(total(&other.prim()), least);
    assert_eq!(other.kruskal().len(), 5);
    assert_eq!(other.prim().len(), 5);
}

#[test]
fn prim_stays_in_the_part_of_vertex_zero() {
    let mut graph = Graph::new(5);
    graph.add_edge(0, 1, 4);
    graph.add_edge(2, 3, 1);
    graph.add_edge(3, 4, 2);
    assert_eq!(graph.prim(), vec![(0, 1, 4)]);
    assert_eq!(graph.kruskal(), vec![(2, 3, 1), (3, 4, 2), (0, 1, 4)]);
}

#[test]
fn loops_and_doubled_edges_do_not_enter_the_trees() {
    let mut graph = Graph::new(3);
    graph.add_edge(0, 0, 1);
    graph.add_edge(0, 1, 5);
    graph.add_edge(0, 1, 3);
    graph.add_edge(1, 2, 2);
    assert_eq!(graph.kruskal(), vec![(1, 2, 2), (0, 1, 3)]);
    assert_eq!(graph.prim(), vec![(0, 1, 3), (1, 2, 2)]);
    assert_eq!(graph.dijkstra(0), vec![0, 3, 5]);
}

#[test]
fn floyd_warshall_on_the_sample() {
    let graph = sample();
    assert_eq!(
        graph.floyd_warshall(),
        vec![
            vec![0, 2, 3, 6, 8],
            vec![2, 0, 1, 4, 6],
            vec![3, 1, 0, 3, 5],
            vec![6, 4, 3, 0, 2],
            vec![8, 6, 5, 2, 0],
        ]
    );
}

#[test]
fn floyd_warshall_rows_are_the_distances_of_dijkstra() {
    let graph = sample();
    let all = graph.floyd_warshall();
    for start in 0..graph.vertices {
        assert_eq!(all[start], graph.dijkstra(start));
    }
}

#[test]
fn floyd_warshall_is_symmetric_and_obeys_the_triangle_inequality() {
    let mut graph = Graph::new(6);
    let mut weight = 3;
    for from in 0..6usize {
        for to in (from + 1)..6 {
            weight = (weight * 29 + 5) % 31;
            if weight % 4 != 1 {
                graph.add_edge(from, to, weight);
            }
        }
    }
    let all = graph.floyd_warshall();
    for i in 0..6 {
        assert_eq!(all[i][i], 0);
        for j in 0..6 {
            assert_eq!(all[i][j], all[j][i]);
            for k in 0..6 {
                assert!(all[i][j] <= all[i][k].saturating_add(all[k][j]));
            }
        }
    }
}

#[test]
fn floyd_warshall_keeps_the_diagonal_and_counts_the_last_of_doubled_edges() {
    let mut graph = Graph::new(3);
    graph.add_edge(0, 0, 9);
    graph.add_edge(0, 1, 3);
    graph.add_edge(0, 1, 5);
    assert_eq!(
        graph.floyd_warshall(),
        vec![vec![0, 5, u64::MAX], vec![5, 0, u64::MAX], vec![u64::MAX, u64::MAX, 0]]
    );
}

#[test]
fn spanning_forest_picks_in_the_order_given() {
    let edges = vec![(0, 1, 'a'), (1, 2, 'b'), (0, 2, 'c'), (3, 4, 'd'), (4, 3, 'e'), (2, 2, 'f')];
    assert_eq!(spanning_forest(5, edges), vec![(0, 1, 'a'), (1, 2, 'b'), (3, 4, 'd')]);
    assert_eq!(spanning_forest::<u8>(0, Vec::new()), Vec::new());
}

#[test]
fn a_cloned_graph_has_the_same_edges_and_lives_on_its_own() {
    let mut graph = sample();
    let copy = graph.clone();
    graph.add_edge(0, 4, 1);
    assert_eq!(copy.vertices, 5);
    assert_eq!(copy.adjacency_list, sample().adjacency_list);
    assert_eq!(copy.dijkstra(0), vec![0, 2, 3, 6, 8]);
    assert_eq!(graph.dijkstra(0), vec![0, 2, 3, 3, 1]);
}
