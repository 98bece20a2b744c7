use graph_library::algorithms::iter::TraversalType;
use graph_library::algorithms::utils::initial_vertex_of;
use graph_library::graph::{GraphBase, ListGraph, MatrixGraph, WithID};
use graph_library::{Directed, Graph, GraphError, Undirected};

#[derive(Debug, Clone, PartialEq, Eq)]
struct TestVertex {
    id: usize,
    value: String,
}

impl WithID for TestVertex {
    fn get_id(&self) -> usize {
        self.id
    }
}

#[derive(Debug, Clone, Copy, PartialEq, Eq)]
struct TestEdge {
    weight: usize,
}

//    0
//   / \
//  1   2
//     / \
//    3   4
//   /
//  5
fn create_test_graph() -> ListGraph<TestVertex, TestEdge, Directed> {
    let mut graph = Graph::new();
    for (id, value) in ["A", "B", "C", "D", "E", "F"].iter().enumerate() {
        graph.push_vertex(TestVertex { id, value: value.to_string() }).unwrap();
    }
    graph.push_edge(0, 1, TestEdge { weight: 1 }).unwrap();
    graph.push_edge(0, 2, TestEdge { weight: 2 }).unwrap();
    graph.push_edge(2, 3, TestEdge { weight: 3 }).unwrap();
    graph.push_edge(2, 4, TestEdge { weight: 4 }).unwrap();
    graph.push_edge(3, 5, TestEdge { weight: 5 }).unwrap();
    graph
}

fn order<B: GraphBase>(graph: &Graph<B>, start: usize, kind: TraversalType) -> Vec<usize> {
    let mut it = graph.iter(start, kind).unwrap();
    let mut ids = Vec::new();
    while let Some(v) = it.next() {
        ids.push(v.get_id());
    }
    assert!(it.next().is_none());
    ids
}

#[test]
fn bfs_order() {
    let graph = create_test_graph();
    assert_eq!(order(&graph, 0, TraversalType::BFS), vec![0, 1, 2, 3, 4, 5]);
    assert_eq!(order(&graph, 2, TraversalType::BFS), vec![2, 3, 4, 5]);
    assert_eq!(order(&graph, 3, TraversalType::BFS), vec![3, 5]);
    let mut it = graph.bfs_iter(0).unwrap();
    assert_eq!(it.next().map(|v| v.value.clone()), Some("A".to_string()));
}

#[test]
fn dfs_order() {
    let graph = create_test_graph();
    assert_eq!(order(&graph, 0, TraversalType::DFS), vec![0, 2, 4, 3, 5, 1]);
    assert_eq!(order(&graph, 2, TraversalType::DFS), vec![2, 4, 3, 5]);
    assert_eq!(order(&graph, 3, TraversalType::DFS), vec![3, 5]);
    let mut it = graph.dfs_iter(5).unwrap();
    assert_eq!(it.next().map(|v| v.get_id()), Some(5));
    assert!(it.next().is_none());
}

#[test]
fn traversal_from_missing_start() {
    let graph = create_test_graph();
    for kind in [TraversalType::BFS, TraversalType::DFS] {
        assert!(matches!(graph.iter(999, kind), Err(GraphError::VertexNotFound(999))));
    }
    assert!(matches!(graph.bfs_iter(999), Err(GraphError::VertexNotFound(999))));
    assert!(matches!(graph.dfs_iter(999), Err(GraphError::VertexNotFound(999))));
    let mut graph = graph;
    assert!(matches!(graph.bfs_iter_mut(999), Err(GraphError::VertexNotFound(999))));
    assert!(matches!(
        graph.iter_mut(999, TraversalType::BFS),
        Err(GraphError::VertexNotFound(999))
    ));
}

#[test]
fn traversal_of_isolated_vertex_and_cycle() {
    let mut graph: ListGraph<TestVertex, TestEdge, Directed> = Graph::new();
    graph.push_vertex(TestVertex { id: 42, value: "Isolated".to_string() }).unwrap();
    for kind in [TraversalType::BFS, TraversalType::DFS] {
        assert_eq!(order(&graph, 42, kind), vec![42]);
    }
    let mut cycle: ListGraph<TestVertex, TestEdge, Directed> = Graph::new();
    for id in 0..3 {
        cycle.push_vertex(TestVertex { id, value: String::new() }).unwrap();
    }
    cycle.push_edge(0, 1, TestEdge { weight: 1 }).unwrap();
    cycle.push_edge(1, 2, TestEdge { weight: 1 }).unwrap();
    cycle.push_edge(2, 0, TestEdge { weight: 1 }).unwrap();
    for kind in [TraversalType::BFS, TraversalType::DFS] {
        assert_eq!(order(&cycle, 0, kind), vec![0, 1, 2]);
    }
}

#[test]
fn mutable_bfs_changes_every_vertex() {
    let mut graph = create_test_graph();
    {
        let mut it = graph.iter_mut(0, TraversalType::BFS).unwrap();
        while let Some(vertex) = it.next() {
            vertex.value = format!("Modified_{}", vertex.value);
        }
    }
    for (id, value) in ["A", "B", "C", "D", "E", "F"].iter().enumerate() {
        assert_eq!(graph.get_vertex_by_id(id).unwrap().value, format!("Modified_{}", value));
    }
    {
        let mut it = graph.bfs_iter_mut(3).unwrap();
        let mut seen = Vec::new();
        while let Some(vertex) = it.next() {
            seen.push(vertex.get_id());
        }
        assert_eq!(seen, vec![3, 5]);
    }
}

#[test]
fn traversal_names() {
    assert_eq!(TraversalType::BFS.to_string(), "BFS");
    assert_eq!(TraversalType::DFS.to_string(), "DFS");
    assert!(matches!(TraversalType::default(), TraversalType::BFS));
}

fn components_graph() -> ListGraph<TestVertex, TestEdge, Undirected> {
    let mut graph = Graph::new();
    for id in 0..6 {
        graph.push_vertex(TestVertex { id, value: String::new() }).unwrap();
    }
    graph.push_edge(0, 1, TestEdge { weight: 1 }).unwrap();
    graph.push_edge(1, 2, TestEdge { weight: 1 }).unwrap();
    graph.push_edge(3, 4, TestEdge { weight: 1 }).unwrap();
    graph
}

#[test]
fn connected_subgraphs_are_counted() {
    let graph = components_graph();
    assert_eq!(graph.count_connected_subgraphs(None).unwrap(), 3);
    assert_eq!(graph.count_connected_subgraphs(Some(TraversalType::BFS)).unwrap(), 3);
    assert_eq!(graph.count_connected_subgraphs(Some(TraversalType::DFS)).unwrap(), 3);
    assert_eq!(graph.count_connected_subgraphs_with_default_traversal().unwrap(), 3);
    let empty: ListGraph<TestVertex, TestEdge, Undirected> = Graph::new();
    assert_eq!(empty.count_connected_subgraphs(None).unwrap(), 0);
    // In a directed graph the count goes by what the traversals reach.
    let directed = create_test_graph();
    let count = directed.count_connected_subgraphs(None).unwrap();
    assert!(count >= 1 && count <= 6);
}

#[test]
fn initial_vertex_is_chosen() {
    let graph = create_test_graph();
    let (start, mut rest) = graph.get_initial_vertex(Some(2)).unwrap();
    rest.sort();
    assert_eq!(start, 2);
    assert_eq!(rest, vec![0, 1, 3, 4, 5]);
    assert!(graph.get_initial_vertex(Some(17)).is_none());
    let (start, rest) = graph.get_initial_vertex(None).unwrap();
    assert!(start < 6);
    assert_eq!(rest.len(), 5);
    assert!(!rest.contains(&start));
    let empty: ListGraph<TestVertex, TestEdge, Directed> = Graph::new();
    assert!(empty.get_initial_vertex(None).is_none());
}

#[test]
fn initial_vertex_is_the_first_that_is_listed() {
    let ids = vec![5, 3, 9, 4];
    assert_eq!(initial_vertex_of(&ids, None), Some((5, vec![3, 9, 4])));
    assert_eq!(initial_vertex_of(&ids, Some(9)), Some((9, vec![5, 3, 4])));
    assert_eq!(initial_vertex_of(&ids, Some(7)), None);
    assert_eq!(initial_vertex_of(&Vec::new(), None), None);
    let mut graph: MatrixGraph<TestVertex, TestEdge, Directed> = Graph::new();
    for id in 0..4 {
        graph.push_vertex(TestVertex { id, value: String::new() }).unwrap();
    }
    assert_eq!(graph.get_initial_vertex(None), Some((0, vec![1, 2, 3])));
    assert_eq!(graph.get_initial_vertex(Some(2)), Some((2, vec![0, 1, 3])));
}

#[test]
fn traversals_that_break_off_are_not_counted() {
    let mut graph: MatrixGraph<TestVertex, TestEdge, Directed> = Graph::new();
    for id in 0..3 {
        graph.push_vertex(TestVertex { id, value: String::new() }).unwrap();
    }
    // Without arcs every vertex counts.
    assert_eq!(graph.count_connected_subgraphs(None).unwrap(), 3);
    // The traversal from 1 comes to 0, which was visited, and does not count.
    graph.push_edge(1, 0, TestEdge { weight: 1 }).unwrap();
    assert_eq!(graph.count_connected_subgraphs(None).unwrap(), 2);
    assert_eq!(graph.count_connected_subgraphs(Some(TraversalType::DFS)).unwrap(), 2);
    // From 1 first, the traversal visits 0 as well and counts.
    assert_eq!(graph.count_from_roots(&vec![1, 0, 2], None).unwrap(), 2);
    assert_eq!(graph.count_from_roots(&vec![2], None).unwrap(), 1);
    assert_eq!(graph.count_from_roots(&Vec::new(), None).unwrap(), 0);
    assert!(matches!(
        graph.count_from_roots(&vec![0, 8, 9], None),
        Err(GraphError::VertexNotFound(8))
    ));
}

#[test]
fn arcs_stand_in_the_order_of_the_backend() {
    let mut list: ListGraph<TestVertex, TestEdge, Directed> = Graph::new();
    let mut matrix: MatrixGraph<TestVertex, TestEdge, Directed> = Graph::new();
    for id in 0..4 {
        list.push_vertex(TestVertex { id, value: String::new() }).unwrap();
        matrix.push_vertex(TestVertex { id, value: String::new() }).unwrap();
    }
    for to in [3, 1, 2] {
        list.push_edge(0, to, TestEdge { weight: 1 }).unwrap();
        matrix.push_edge(0, to, TestEdge { weight: 1 }).unwrap();
    }
    let heads = |ids: Vec<&TestVertex>| ids.into_iter().map(|v| v.id).collect::<Vec<_>>();
    assert_eq!(heads(list.get_adjacent_vertices(0)), vec![3, 1, 2]);
    assert_eq!(heads(matrix.get_adjacent_vertices(0)), vec![1, 2, 3]);
}
