use graph_library::graph::{
    EdgeWithWeight, GraphBase, ListGraph, MatrixGraph, Vertex, WeightedEdge, WithID,
};
use graph_library::{Directed, Graph, GraphError, Undirected};

#[derive(Debug, Clone, Copy, PartialEq, Eq)]
struct MockVertex {
    id: usize,
}

impl WithID for MockVertex {
    fn get_id(&self) -> usize {
        self.id
    }
}

#[derive(Debug, Clone, Copy, PartialEq, Eq)]
struct MockWeightedEdge {
    weight: u32,
}

impl WeightedEdge for MockWeightedEdge {
    fn get_weight(&self) -> i64 {
        self.weight as i64
    }
}

fn with_vertices<B: GraphBase<Vertex = MockVertex>>(n: usize) -> Graph<B> {
    let mut graph = Graph::<B>::new();
    for id in 0..n {
        graph.push_vertex(MockVertex { id }).unwrap();
    }
    graph
}

fn sorted_edges<B: GraphBase<Edge = i32>>(graph: &Graph<B>) -> Vec<(usize, usize, i32)> {
    let mut edges: Vec<(usize, usize, i32)> =
        graph.get_all_edges().into_iter().map(|(a, b, e)| (a, b, *e)).collect();
    edges.sort();
    edges
}

#[test]
fn list_push_vertex_rejects_duplicate() {
    let mut graph = ListGraph::<MockVertex, (), Directed>::new();
    assert!(graph.push_vertex(MockVertex { id: 0 }).is_ok());
    assert!(graph.push_vertex(MockVertex { id: 1 }).is_ok());
    assert!(matches!(
        graph.push_vertex(MockVertex { id: 1 }),
        Err(GraphError::DuplicateVertex(1))
    ));
    assert_eq!(graph.vertex_count(), 2);
}

#[test]
fn matrix_push_vertex_rejects_duplicate_and_gap() {
    let mut graph = MatrixGraph::<MockVertex, (), Undirected>::new();
    assert!(graph.push_vertex(MockVertex { id: 0 }).is_ok());
    assert!(graph.push_vertex(MockVertex { id: 1 }).is_ok());
    assert!(matches!(
        graph.push_vertex(MockVertex { id: 1 }),
        Err(GraphError::DuplicateVertex(1))
    ));
    match graph.push_vertex(MockVertex { id: 5 }) {
        Err(GraphError::OperationFailed(text)) => assert_eq!(
            text,
            "Vertex ID must be sequential in AdjacencyMatrixGraph and equal to the current number of vertices (expected 2, got 5)"
        ),
        other => panic!("{:?}", other),
    }
    assert_eq!(graph.vertex_count(), 2);
}

fn check_push_edge<B: GraphBase<Vertex = MockVertex, Edge = i32>>() {
    let mut graph = with_vertices::<B>(2);
    assert!(graph.push_edge(0, 1, 10).is_ok());
    assert!(graph.push_edge(1, 0, 30).is_ok());
    assert!(matches!(graph.push_edge(0, 1, 20), Err(GraphError::DuplicateEdge(0, 1))));
    assert!(matches!(graph.push_edge(2, 0, 40), Err(GraphError::VertexNotFound(2))));
    assert!(matches!(graph.push_edge(0, 2, 40), Err(GraphError::VertexNotFound(2))));
    assert_eq!(graph.edge_count(), 2);
    assert_eq!(graph.get_edge(0, 1), Some(&10));
    assert_eq!(graph.get_edge(1, 0), Some(&30));
    assert_eq!(graph.get_edge(1, 1), None);
    assert_eq!(graph.get_edge(7, 1), None);
    assert!(graph.is_directed());
}

#[test]
fn push_edge_directed_list() {
    check_push_edge::<graph_library::graph::ListGraphBackend<MockVertex, i32, Directed>>();
}

#[test]
fn push_edge_directed_matrix() {
    check_push_edge::<graph_library::graph::MatrixGraphBackend<MockVertex, i32, Directed>>();
}

fn check_push_undirected_edge<B: GraphBase<Vertex = MockVertex, Edge = i32>>() {
    let mut graph = with_vertices::<B>(3);
    assert!(graph.push_edge(0, 1, 10).is_ok());
    assert!(matches!(graph.push_edge(0, 1, 20), Err(GraphError::DuplicateEdge(0, 1))));
    assert!(matches!(graph.push_edge(1, 0, 20), Err(GraphError::DuplicateEdge(1, 0))));
    // An edge from a vertex to itself has no place in an undirected graph.
    assert!(matches!(graph.push_edge(2, 2, 5), Err(GraphError::DuplicateEdge(2, 2))));
    assert_eq!(graph.edge_count(), 1);
    assert!(!graph.is_directed());

    let adj_0 = graph.get_adjacent_vertices_with_edges(0);
    assert_eq!(adj_0.len(), 1);
    assert_eq!(adj_0[0].0.id, 1);
    assert_eq!(adj_0[0].1, &10);
    let adj_1 = graph.get_adjacent_vertices_with_edges(1);
    assert_eq!(adj_1.len(), 1);
    assert_eq!(adj_1[0].0.id, 0);
    assert_eq!(adj_1[0].1, &10);
    assert_eq!(graph.get_adjacent_vertices(2).len(), 0);
    assert_eq!(sorted_edges(&graph), vec![(0, 1, 10)]);
}

#[test]
fn push_edge_undirected_list() {
    check_push_undirected_edge::<graph_library::graph::ListGraphBackend<MockVertex, i32, Undirected>>();
}

#[test]
fn push_edge_undirected_matrix() {
    check_push_undirected_edge::<graph_library::graph::MatrixGraphBackend<MockVertex, i32, Undirected>>();
}

fn check_queries<B: GraphBase<Vertex = MockVertex, Edge = i32>>(directed: bool) {
    let mut graph = with_vertices::<B>(3);
    assert_eq!(graph.edge_count(), 0);
    graph.push_edge(0, 1, 10).unwrap();
    assert_eq!(graph.edge_count(), 1);
    graph.push_edge(1, 2, 20).unwrap();
    assert_eq!(graph.edge_count(), 2);
    assert!(graph.push_edge(0, 1, 30).is_err());
    assert_eq!(graph.edge_count(), 2);
    assert_eq!(graph.vertex_count(), 3);
    assert_eq!(graph.get_all_edges().len(), graph.edge_count());
    assert_eq!(sorted_edges(&graph), vec![(0, 1, 10), (1, 2, 20)]);

    let mut ids: Vec<usize> = graph.get_all_vertices().iter().map(|v| v.get_id()).collect();
    ids.sort();
    assert_eq!(ids, vec![0, 1, 2]);
    assert_eq!(graph.get_all_vertices().len(), graph.vertex_count());
    assert_eq!(graph.get_vertex_by_id(1).map(|v| v.id), Some(1));
    assert!(graph.get_vertex_by_id(3).is_none());

    let neighbours: Vec<usize> = graph.get_adjacent_vertices(1).iter().map(|v| v.id).collect();
    if directed {
        assert_eq!(neighbours, vec![2]);
    } else {
        assert_eq!(neighbours, vec![0, 2]);
    }
    assert_eq!(graph.get_adjacent_vertices(3).len(), 0);

    // Another payload for an edge.
    assert!(graph.set_edge(0, 1, 11));
    assert!(!graph.set_edge(0, 2, 11));
    assert_eq!(graph.get_edge(0, 1), Some(&11));
    if directed {
        assert_eq!(graph.get_edge(1, 0), None);
    } else {
        assert_eq!(graph.get_edge(1, 0), Some(&11));
    }
    assert_eq!(graph.edge_count(), 2);
}

#[test]
fn queries_on_all_backends() {
    check_queries::<graph_library::graph::ListGraphBackend<MockVertex, i32, Directed>>(true);
    check_queries::<graph_library::graph::MatrixGraphBackend<MockVertex, i32, Directed>>(true);
    check_queries::<graph_library::graph::ListGraphBackend<MockVertex, i32, Undirected>>(false);
    check_queries::<graph_library::graph::MatrixGraphBackend<MockVertex, i32, Undirected>>(false);
}

fn check_total_weight<B: GraphBase<Vertex = MockVertex, Edge = MockWeightedEdge>>() {
    let mut graph = with_vertices::<B>(3);
    graph.push_edge(0, 1, MockWeightedEdge { weight: 10 }).unwrap();
    graph.push_edge(0, 2, MockWeightedEdge { weight: 20 }).unwrap();
    assert_eq!(graph.get_total_weight(), 30);
}

#[test]
fn total_weight_on_all_backends() {
    check_total_weight::<graph_library::graph::ListGraphBackend<MockVertex, MockWeightedEdge, Directed>>();
    check_total_weight::<graph_library::graph::MatrixGraphBackend<MockVertex, MockWeightedEdge, Directed>>();
    check_total_weight::<graph_library::graph::ListGraphBackend<MockVertex, MockWeightedEdge, Undirected>>();
    check_total_weight::<graph_library::graph::MatrixGraphBackend<MockVertex, MockWeightedEdge, Undirected>>();
}

#[test]
fn vertex_payload_can_be_changed() {
    #[derive(Debug)]
    struct Named {
        id: usize,
        name: String,
    }
    impl WithID for Named {
        fn get_id(&self) -> usize {
            self.id
        }
    }
    let mut list = ListGraph::<Named, (), Directed>::new();
    list.push_vertex(Named { id: 4, name: "four".to_string() }).unwrap();
    list.get_vertex_by_id_mut(4).unwrap().name.push_str("!");
    assert_eq!(list.get_vertex_by_id(4).unwrap().name, "four!");
    assert!(list.get_vertex_by_id_mut(5).is_none());

    let mut matrix = MatrixGraph::<Named, (), Directed>::new();
    matrix.push_vertex(Named { id: 0, name: "zero".to_string() }).unwrap();
    matrix.get_vertex_by_id_mut(0).unwrap().name.push_str("!");
    assert_eq!(matrix.get_vertex_by_id(0).unwrap().name, "zero!");
    assert!(matrix.get_vertex_by_id_mut(1).is_none());
}

#[test]
fn from_vertices_and_edges_builds_and_rejects() {
    let vertices = vec![Vertex { id: 0 }, Vertex { id: 1 }, Vertex { id: 2 }];
    let edges = vec![(0, 1, EdgeWithWeight::new(5)), (1, 2, EdgeWithWeight::new(7))];
    let graph = ListGraph::<Vertex, EdgeWithWeight, Undirected>::from_vertices_and_edges(
        vertices.clone(),
        edges.clone(),
    )
    .unwrap();
    assert_eq!(graph.vertex_count(), 3);
    assert_eq!(graph.edge_count(), 2);
    assert_eq!(graph.get_total_weight(), 12);
    assert_eq!(graph.get_edge(2, 1).map(|e| e.weight), Some(7));

    let matrix = MatrixGraph::<Vertex, EdgeWithWeight, Directed>::from_vertices_and_edges(
        vertices.clone(),
        edges.clone(),
    )
    .unwrap();
    assert_eq!(matrix.edge_count(), 2);
    assert!(matrix.get_edge(2, 1).is_none());

    // A duplicate vertex.
    let twice = vec![Vertex { id: 0 }, Vertex { id: 0 }];
    assert!(matches!(
        ListGraph::<Vertex, EdgeWithWeight, Directed>::from_vertices_and_edges(twice, vec![]),
        Err(GraphError::DuplicateVertex(0))
    ));
    // An unknown end.
    assert!(matches!(
        ListGraph::<Vertex, EdgeWithWeight, Directed>::from_vertices_and_edges(
            vertices.clone(),
            vec![(0, 9, EdgeWithWeight::new(1))]
        ),
        Err(GraphError::VertexNotFound(9))
    ));
    // A duplicate edge.
    assert!(matches!(
        ListGraph::<Vertex, EdgeWithWeight, Undirected>::from_vertices_and_edges(
            vertices.clone(),
            vec![(0, 1, EdgeWithWeight::new(1)), (1, 0, EdgeWithWeight::new(1))]
        ),
        Err(GraphError::DuplicateEdge(1, 0))
    ));
    // Vertices out of order for the matrix.
    assert!(matches!(
        MatrixGraph::<Vertex, EdgeWithWeight, Directed>::from_vertices_and_edges(
            vec![Vertex { id: 1 }],
            vec![]
        ),
        Err(GraphError::OperationFailed(_))
    ));
}

#[test]
fn round_trip_gives_the_same_graph() {
    let mut graph = ListGraph::<Vertex, EdgeWithWeight, Undirected>::new();
    for id in [3usize, 1, 2] {
        graph.push_vertex(Vertex { id }).unwrap();
    }
    graph.push_edge(3, 1, EdgeWithWeight::new(4)).unwrap();
    graph.push_edge(1, 2, EdgeWithWeight::new(6)).unwrap();
    let vertices: Vec<Vertex> = graph.get_all_vertices().into_iter().copied().collect();
    let edges: Vec<(usize, usize, EdgeWithWeight)> =
        graph.get_all_edges().into_iter().map(|(a, b, e)| (a, b, *e)).collect();
    let copy = ListGraph::<Vertex, EdgeWithWeight, Undirected>::from_vertices_and_edges(vertices, edges)
        .unwrap();
    assert_eq!(copy.vertex_count(), 3);
    assert_eq!(copy.edge_count(), 2);
    assert!(!copy.is_directed());
    for (a, b) in [(3usize, 1usize), (1, 3), (1, 2), (2, 1), (3, 2), (2, 3)] {
        assert_eq!(copy.get_edge(a, b).map(|e| e.weight), graph.get_edge(a, b).map(|e| e.weight));
    }
}

#[test]
fn errors_as_text() {
    assert_eq!(GraphError::VertexNotFound(999).to_string(), "Vertex with ID 999 not found");
    assert_eq!(GraphError::DuplicateVertex(0).to_string(), "Vertex with ID 0 already exists");
    assert_eq!(
        GraphError::DuplicateEdge(12, 345).to_string(),
        "Edge between vertices 12 and 345 already exists"
    );
    assert_eq!(GraphError::InvalidFormat("x".to_string()).to_string(), "Invalid file format: x");
    assert_eq!(GraphError::IoError("x".to_string()).to_string(), "I/O error: x");
    assert_eq!(GraphError::ParseError("x".to_string()).to_string(), "Parse error: x");
    assert_eq!(GraphError::OperationFailed("x".to_string()).to_string(), "Graph operation failed: x");
    assert_eq!(GraphError::AlgorithmError("x".to_string()).to_string(), "Algorithm error: x");
    assert_eq!(graph_library::text::decimal(18446744073709551615), "18446744073709551615");
}
