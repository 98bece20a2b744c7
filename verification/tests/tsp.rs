use graph_library::graph::{EdgeWithWeight, GraphBase, ListGraph, MatrixGraph, Path, Vertex};
use graph_library::{Directed, Undirected};

fn complete(weights: &[&[i64]]) -> MatrixGraph<Vertex, EdgeWithWeight, Directed> {
    let mut graph = MatrixGraph::<Vertex, EdgeWithWeight, Directed>::new();
    for id in 0..weights.len() {
        graph.push_vertex(Vertex { id }).unwrap();
    }
    for (a, row) in weights.iter().enumerate() {
        for (b, w) in row.iter().enumerate() {
            if a != b {
                graph.push_edge(a, b, EdgeWithWeight::new(*w)).unwrap();
            }
        }
    }
    graph
}

fn square() -> MatrixGraph<Vertex, EdgeWithWeight, Undirected> {
    // Four corners of a square with sides 3 and 4, and its diagonals.
    let mut graph = MatrixGraph::<Vertex, EdgeWithWeight, Undirected>::new();
    for id in 0..4 {
        graph.push_vertex(Vertex { id }).unwrap();
    }
    for (a, b, w) in [(0, 1, 3), (1, 2, 4), (2, 3, 3), (3, 0, 4), (0, 2, 5), (1, 3, 5)] {
        graph.push_edge(a, b, EdgeWithWeight::new(w)).unwrap();
    }
    graph
}

fn lopsided() -> MatrixGraph<Vertex, EdgeWithWeight, Directed> {
    complete(&[&[0, 1, 1, 1], &[10, 0, 2, 1000], &[10, 10, 0, 2], &[2, 10, 10, 0]])
}

fn assert_round_trip(path: &Path<EdgeWithWeight>, n: usize, start: usize) {
    let nodes = path.nodes();
    assert_eq!(nodes.len(), n + 1);
    assert_eq!(nodes[0], start);
    assert_eq!(nodes[n], start);
    let mut inner = nodes[..n].to_vec();
    inner.sort();
    assert_eq!(inner, (0..n).collect::<Vec<_>>());
}

#[test]
fn brute_force_finds_the_best_round_trip() {
    let graph = square();
    let path = graph.tsp_brute_force(Some(0)).unwrap();
    assert_round_trip(&path, 4, 0);
    assert_eq!(path.total_cost(), 14);
    let path = graph.tsp_brute_force(Some(2)).unwrap();
    assert_round_trip(&path, 4, 2);
    assert_eq!(path.total_cost(), 14);
    let graph = lopsided();
    let path = graph.tsp_brute_force(Some(0)).unwrap();
    assert_eq!(path.nodes(), vec![0, 1, 2, 3, 0]);
    assert_eq!(path.total_cost(), 7);
}

#[test]
fn nearest_neighbour_goes_to_the_nearest() {
    let graph = square();
    let path = graph.tsp_nearest_neighbor(Some(0)).unwrap();
    assert_eq!(path.nodes(), vec![0, 1, 2, 3, 0]);
    assert_eq!(path.total_cost(), 14);
    let graph = lopsided();
    let path = graph.tsp_nearest_neighbor(None).unwrap();
    assert_eq!(path.nodes(), vec![0, 1, 2, 3, 0]);
    assert_eq!(path.total_cost(), 7);
}

#[test]
fn double_tree_makes_a_round_trip() {
    let graph = square();
    let path = graph.tsp_double_tree(Some(0)).unwrap();
    assert_round_trip(&path, 4, 0);
    assert!(path.total_cost() <= 2 * 14);
    let graph = lopsided();
    let path = graph.tsp_double_tree(Some(0)).unwrap();
    assert_eq!(path.nodes(), vec![0, 3, 2, 1, 0]);
    assert_eq!(path.total_cost(), 31);
}

#[test]
fn branch_and_bound_makes_a_round_trip() {
    let graph = square();
    let path = graph.tsp_branch_and_bound(Some(0)).unwrap();
    assert_round_trip(&path, 4, 0);
    assert_eq!(path.total_cost(), 14);
    // The double-tree rule gives 31 here; the search goes on over 0 -> 1, where
    // the bound is 6 + 10, and comes to the best round trip.
    let graph = lopsided();
    let path = graph.tsp_branch_and_bound(Some(0)).unwrap();
    assert_eq!(path.nodes(), vec![0, 1, 2, 3, 0]);
    assert_eq!(path.total_cost(), 7);
}

#[test]
fn branch_and_bound_can_leave_the_best_out() {
    // The best round trip is 0 -> 1 -> 2 -> 3 -> 0 with 1 + 1 + 3 + 1. The
    // double-tree rule gives 0 -> 3 -> 1 -> 2 -> 0 with 2 + 10 + 1 + 10. The arc
    // 2 -> 1 makes the bound after 0 -> 1 as high as 501 + 10, after 0 -> 2 it
    // is 5 + 10 behind a cost of 10, and after 0 -> 3 it is 5 + 501.
    let graph = complete(&[&[0, 1, 10, 2], &[10, 0, 1, 10], &[10, 1000, 0, 3], &[1, 10, 10, 0]]);
    let best = graph.tsp_brute_force(Some(0)).unwrap();
    assert_eq!(best.nodes(), vec![0, 1, 2, 3, 0]);
    assert_eq!(best.total_cost(), 6);
    let first = graph.tsp_double_tree(Some(0)).unwrap();
    assert_eq!(first.nodes(), vec![0, 3, 1, 2, 0]);
    assert_eq!(first.total_cost(), 23);
    let found = graph.tsp_branch_and_bound(Some(0)).unwrap();
    assert_eq!(found.nodes(), vec![0, 3, 1, 2, 0]);
    assert_eq!(found.total_cost(), 23);
}

#[test]
fn round_trips_of_small_graphs() {
    let empty = ListGraph::<Vertex, EdgeWithWeight, Undirected>::new();
    assert!(empty.tsp_brute_force(None).unwrap().is_empty());
    assert!(empty.tsp_nearest_neighbor(None).unwrap().is_empty());
    assert!(empty.tsp_double_tree(None).unwrap().is_empty());
    assert!(empty.tsp_branch_and_bound(None).unwrap().is_empty());
    let graph = square();
    assert!(graph.tsp_brute_force(Some(9)).unwrap().is_empty());
    assert!(graph.tsp_nearest_neighbor(Some(9)).unwrap().is_empty());
    assert!(graph.tsp_double_tree(Some(9)).unwrap().is_empty());
    assert!(graph.tsp_branch_and_bound(Some(9)).unwrap().is_empty());
    let mut two = ListGraph::<Vertex, EdgeWithWeight, Undirected>::new();
    two.push_vertex(Vertex { id: 0 }).unwrap();
    two.push_vertex(Vertex { id: 1 }).unwrap();
    two.push_edge(0, 1, EdgeWithWeight::new(6)).unwrap();
    for path in [
        two.tsp_brute_force(Some(1)).unwrap(),
        two.tsp_nearest_neighbor(Some(1)).unwrap(),
        two.tsp_double_tree(Some(1)).unwrap(),
        two.tsp_branch_and_bound(Some(1)).unwrap(),
    ] {
        assert_eq!(path.nodes(), vec![1, 0, 1]);
        assert_eq!(path.total_cost(), 12);
    }
}

#[test]
fn double_tree_stays_within_twice_the_best() {
    // Five places on a line; the weights are the distances between them.
    let places: [i64; 5] = [0, 1, 3, 6, 10];
    let mut graph = ListGraph::<Vertex, EdgeWithWeight, Undirected>::new();
    for id in 0..places.len() {
        graph.push_vertex(Vertex { id }).unwrap();
    }
    for a in 0..places.len() {
        for b in a + 1..places.len() {
            graph.push_edge(a, b, EdgeWithWeight::new(places[b] - places[a])).unwrap();
        }
    }
    for start in 0..places.len() {
        let best = graph.tsp_brute_force(Some(start)).unwrap();
        assert_eq!(best.total_cost(), 20);
        let found = graph.tsp_double_tree(Some(start)).unwrap();
        assert_round_trip(&found, places.len(), start);
        assert!(found.total_cost() <= 2 * best.total_cost());
        assert!(found.total_cost() >= best.total_cost());
    }
    let graph = square();
    let found = graph.tsp_double_tree(Some(0)).unwrap();
    assert!(found.total_cost() <= 28);
}

#[test]
fn branch_and_bound_is_no_worse_than_double_tree() {
    let graph = square();
    for start in 0..4 {
        let first = graph.tsp_double_tree(Some(start)).unwrap();
        let found = graph.tsp_branch_and_bound(Some(start)).unwrap();
        assert_round_trip(&found, 4, start);
        assert!(found.total_cost() <= first.total_cost());
        assert!(found.total_cost() >= 14);
    }
}
