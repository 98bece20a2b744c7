use graph_library::algorithms::shortest_path::bellman_ford::{
    construct_negative_cycle, BellmanFordResult,
};
use graph_library::algorithms::shortest_path::dijkstra::EdgeEntry;
use graph_library::algorithms::shortest_path::single_source_shortest_paths::SingleSourceShortestPaths;
use graph_library::graph::{EdgeWithWeight, GraphBase, ListGraph, MatrixGraph, Vertex};
use graph_library::{Directed, Undirected};
use rustc_hash::FxHashMap;

fn graph_of(n: usize, edges: &[(usize, usize, i64)]) -> ListGraph<Vertex, EdgeWithWeight, Directed> {
    let mut graph = ListGraph::<Vertex, EdgeWithWeight, Directed>::new();
    for id in 0..n {
        graph.push_vertex(Vertex { id }).unwrap();
    }
    for (a, b, w) in edges {
        graph.push_edge(*a, *b, EdgeWithWeight::new(*w)).unwrap();
    }
    graph
}

#[test]
fn dijkstra_finds_the_cheapest_paths() {
    let graph = graph_of(5, &[(2, 1, 2), (1, 0, 5), (2, 0, 8), (2, 3, 1), (3, 0, 6), (3, 1, 0)]);
    let paths = graph.dijkstra(2, None);
    assert_eq!(paths.start(), 2);
    assert_eq!(paths.get_cost(2), Some(0));
    assert_eq!(paths.get_cost(3), Some(1));
    assert_eq!(paths.get_cost(1), Some(1));
    assert_eq!(paths.get_cost(0), Some(6));
    assert_eq!(paths.get_cost(4), None);
    assert_eq!(paths.get_path(0), vec![2, 3, 1, 0]);
    assert_eq!(paths.get_path(2), vec![2]);
    assert_eq!(paths.get_path(4), Vec::<usize>::new());
    // With a goal the cost of the goal is the same.
    let to_goal = graph.dijkstra(2, Some(0));
    assert_eq!(to_goal.get_cost(0), Some(6));
    assert_eq!(to_goal.get_path(0), vec![2, 3, 1, 0]);
    let near = graph.dijkstra(2, Some(3));
    assert_eq!(near.get_cost(3), Some(1));
}

#[test]
fn dijkstra_on_undirected_matrix() {
    let mut graph = MatrixGraph::<Vertex, EdgeWithWeight, Undirected>::new();
    for id in 0..4 {
        graph.push_vertex(Vertex { id }).unwrap();
    }
    graph.push_edge(0, 1, EdgeWithWeight::new(4)).unwrap();
    graph.push_edge(1, 2, EdgeWithWeight::new(1)).unwrap();
    graph.push_edge(0, 2, EdgeWithWeight::new(7)).unwrap();
    let paths = graph.dijkstra(2, None);
    assert_eq!(paths.get_cost(0), Some(5));
    assert_eq!(paths.get_path(0), vec![2, 1, 0]);
    assert_eq!(paths.get_cost(3), None);
    // A start that the graph does not hold.
    let off = graph.dijkstra(9, None);
    assert_eq!(off.get_cost(9), Some(0));
    assert_eq!(off.get_cost(0), None);
}

#[test]
fn bellman_ford_with_negative_weights() {
    let graph = graph_of(4, &[(2, 1, 2), (1, 0, -3), (2, 0, 1), (0, 3, 4)]);
    let result = graph.bellman_ford(2);
    assert!(result.is_spt());
    assert!(!result.is_negative_cycle());
    assert!(result.as_negative_cycle().is_none());
    let paths = result.into_spt().unwrap();
    assert_eq!(paths.get_cost(0), Some(-1));
    assert_eq!(paths.get_cost(1), Some(2));
    assert_eq!(paths.get_cost(3), Some(3));
    assert_eq!(paths.get_path(3), vec![2, 1, 0, 3]);
}

#[test]
fn bellman_ford_agrees_with_dijkstra() {
    let graph = graph_of(5, &[(2, 1, 2), (1, 0, 5), (2, 0, 8), (2, 3, 1), (3, 0, 5), (3, 1, 0)]);
    let dijkstra = graph.dijkstra(2, None);
    let bellman_ford = graph.bellman_ford(2).into_spt().unwrap();
    for v in 0..5 {
        assert_eq!(dijkstra.get_cost(v), bellman_ford.get_cost(v));
    }
}

#[test]
fn bellman_ford_finds_a_negative_cycle() {
    let graph = graph_of(3, &[(0, 1, 1), (1, 2, -3), (2, 1, 1)]);
    let result = graph.bellman_ford(0);
    assert!(result.is_negative_cycle());
    assert!(result.as_spt().is_none());
    let mut cycle = result.into_negative_cycle().unwrap();
    assert!(!cycle.is_empty());
    cycle.sort();
    assert_eq!(cycle, vec![1, 2]);
    // Not from where the cycle cannot be reached.
    let graph = graph_of(4, &[(0, 1, 1), (1, 2, -3), (2, 1, 1), (3, 0, 1)]);
    assert!(graph.bellman_ford(3).is_negative_cycle());
    let graph = graph_of(4, &[(0, 3, 1), (1, 2, -3), (2, 1, 1)]);
    assert!(graph.bellman_ford(0).is_spt());
}

#[test]
fn negative_cycle_from_predecessors() {
    let mut predecessors: FxHashMap<usize, usize> = FxHashMap::default();
    predecessors.insert(1, 3);
    predecessors.insert(3, 2);
    predecessors.insert(2, 1);
    predecessors.insert(5, 1);
    assert_eq!(construct_negative_cycle(&predecessors, 5), vec![2, 3, 1]);
    let mut chain: FxHashMap<usize, usize> = FxHashMap::default();
    chain.insert(2, 1);
    assert_eq!(construct_negative_cycle(&chain, 2), vec![1]);
}

fn paths_of(start: usize, costs: &[(usize, i32)], predecessors: &[(usize, usize)]) -> SingleSourceShortestPaths<i32> {
    let mut cost_map = FxHashMap::default();
    for (v, c) in costs {
        cost_map.insert(*v, *c);
    }
    let mut predecessor_map = FxHashMap::default();
    for (v, p) in predecessors {
        predecessor_map.insert(*v, *p);
    }
    SingleSourceShortestPaths::new(start, cost_map, predecessor_map)
}

#[test]
fn shortest_paths_answer_costs_and_paths() {
    let sp = paths_of(1, &[(1, 0), (2, 1), (3, 2)], &[(2, 1), (3, 2)]);
    assert_eq!(sp.start(), 1);
    assert_eq!(sp.get_cost(1), Some(0));
    assert_eq!(sp.get_cost(2), Some(1));
    assert_eq!(sp.get_cost(4), None);
    assert_eq!(sp.get_path(3), vec![1, 2, 3]);
    assert_eq!(sp.get_path(2), vec![1, 2]);
    assert_eq!(sp.get_path(1), vec![1]);
    // Not reached.
    assert_eq!(sp.get_path(4), Vec::<usize>::new());
    // No predecessor.
    let broken = paths_of(1, &[(1, 0), (2, 1), (3, 2)], &[(2, 1)]);
    assert_eq!(broken.get_path(3), Vec::<usize>::new());
    // Predecessors that go round.
    let round = paths_of(1, &[(1, 0), (2, 1), (3, 2)], &[(2, 3), (3, 2)]);
    assert_eq!(round.get_path(3), Vec::<usize>::new());
}

#[test]
fn entries_carry_cost_and_vertex() {
    let entry = EdgeEntry::new(7, 3);
    assert_eq!(entry.cost, 7);
    assert_eq!(entry.vertex_id, 3);
    let _ = BellmanFordResult::<i128>::NegativeCycle(vec![1]);
}

#[test]
fn negative_cycle_closes_and_weighs_less_than_nothing() {
    let weights: [(usize, usize, i64); 6] =
        [(0, 1, 4), (1, 2, 2), (2, 3, -5), (3, 1, 1), (3, 4, 7), (0, 4, 1)];
    let graph = graph_of(5, &weights);
    let cycle = graph.bellman_ford(0).into_negative_cycle().unwrap();
    let mut sorted = cycle.clone();
    sorted.sort();
    assert_eq!(sorted, vec![1, 2, 3]);
    let mut weight = 0;
    for i in 0..cycle.len() {
        let from = cycle[i];
        let to = cycle[(i + 1) % cycle.len()];
        weight += graph.get_edge(from, to).unwrap().weight;
    }
    assert_eq!(weight, -2);
}
