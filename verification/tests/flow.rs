use graph_library::algorithms::maximum_flow::edmonds_karp::ResidualEdge;
use graph_library::graph::{
    GraphBase, ListGraph, ListGraphBackend, MatrixGraph, MatrixGraphBackend, Vertex,
};
use graph_library::{Directed, GraphError};

#[derive(Debug, Clone, Copy, PartialEq, Eq)]
struct FlowEdge {
    capacity: i64,
    flow: i64,
}

fn network(n: usize, edges: &[(usize, usize, i64)]) -> ListGraph<Vertex, FlowEdge, Directed> {
    let mut graph = ListGraph::<Vertex, FlowEdge, Directed>::new();
    for id in 0..n {
        graph.push_vertex(Vertex { id }).unwrap();
    }
    for (a, b, c) in edges {
        graph.push_edge(*a, *b, FlowEdge { capacity: *c, flow: -1 }).unwrap();
    }
    graph
}

fn run(graph: &mut ListGraph<Vertex, FlowEdge, Directed>, source: usize, sink: usize) -> Result<(), GraphError> {
    graph.edmonds_karp::<ListGraphBackend<Vertex, ResidualEdge, Directed>, _, _>(
        source,
        sink,
        |edge: FlowEdge, flow: i64| FlowEdge { capacity: edge.capacity, flow },
        |edge: &FlowEdge| edge.capacity,
    )
}

fn out_of(graph: &ListGraph<Vertex, FlowEdge, Directed>, v: usize) -> i64 {
    graph.get_all_edges().iter().filter(|(a, _, _)| *a == v).map(|(_, _, e)| e.flow).sum()
}

fn into(graph: &ListGraph<Vertex, FlowEdge, Directed>, v: usize) -> i64 {
    graph.get_all_edges().iter().filter(|(_, b, _)| *b == v).map(|(_, _, e)| e.flow).sum()
}

#[test]
fn flow_through_a_small_network() {
    let mut graph = network(4, &[(0, 1, 3), (0, 2, 2), (1, 3, 2), (2, 3, 3)]);
    run(&mut graph, 0, 3).unwrap();
    assert_eq!(graph.get_edge(0, 1).unwrap().flow, 2);
    assert_eq!(graph.get_edge(0, 2).unwrap().flow, 2);
    assert_eq!(graph.get_edge(1, 3).unwrap().flow, 2);
    assert_eq!(graph.get_edge(2, 3).unwrap().flow, 2);
    assert_eq!(out_of(&graph, 0), 4);
    assert_eq!(into(&graph, 3), 4);
}

#[test]
fn flow_is_kept_at_every_inner_vertex() {
    let mut graph = network(
        6,
        &[(0, 1, 16), (0, 2, 13), (1, 3, 12), (2, 1, 4), (2, 4, 14), (3, 2, 9), (3, 5, 20), (4, 3, 7), (4, 5, 4)],
    );
    run(&mut graph, 0, 5).unwrap();
    for v in 1..5 {
        assert_eq!(out_of(&graph, v), into(&graph, v));
    }
    assert_eq!(out_of(&graph, 0), into(&graph, 5));
    assert_eq!(out_of(&graph, 0), 23);
    for (_, _, e) in graph.get_all_edges() {
        assert!(0 <= e.flow && e.flow <= e.capacity);
    }
}

#[test]
fn flow_along_shortest_paths_only() {
    // The shortest path 0-1-2-7 closes the way for the two longer ones.
    let mut graph = network(
        8,
        &[(0, 1, 1), (1, 2, 1), (2, 7, 1), (0, 3, 1), (3, 4, 1), (4, 2, 1), (1, 5, 1), (5, 6, 1), (6, 7, 1)],
    );
    run(&mut graph, 0, 7).unwrap();
    assert_eq!(out_of(&graph, 0), 1);
    assert_eq!(into(&graph, 7), 1);
    assert_eq!(graph.get_edge(1, 2).unwrap().flow, 1);
    assert_eq!(graph.get_edge(0, 3).unwrap().flow, 0);
}

#[test]
fn flow_without_a_path_and_with_a_matrix() {
    let mut graph = network(3, &[(0, 1, 5)]);
    run(&mut graph, 0, 2).unwrap();
    assert_eq!(graph.get_edge(0, 1).unwrap().flow, 0);
    let mut graph = MatrixGraph::<Vertex, FlowEdge, Directed>::new();
    for id in 0..3 {
        graph.push_vertex(Vertex { id }).unwrap();
    }
    graph.push_edge(0, 1, FlowEdge { capacity: 5, flow: -1 }).unwrap();
    graph.push_edge(1, 2, FlowEdge { capacity: 3, flow: -1 }).unwrap();
    graph
        .edmonds_karp::<MatrixGraphBackend<Vertex, ResidualEdge, Directed>, _, _>(
            0,
            2,
            |edge: FlowEdge, flow: i64| FlowEdge { capacity: edge.capacity, flow },
            |edge: &FlowEdge| edge.capacity,
        )
        .unwrap();
    assert_eq!(graph.get_edge(0, 1).unwrap().flow, 3);
    assert_eq!(graph.get_edge(1, 2).unwrap().flow, 3);
}

#[test]
fn flow_is_refused_where_arcs_run_both_ways() {
    let mut graph = network(3, &[(0, 1, 5), (1, 0, 2), (1, 2, 3)]);
    assert!(matches!(run(&mut graph, 0, 2), Err(GraphError::DuplicateEdge(_, _))));
    assert_eq!(graph.get_edge(0, 1).unwrap().flow, -1);
    let residual = ResidualEdge { flow: 3, is_residual: false };
    assert_eq!(residual.flow, 3);
    assert!(!residual.is_residual);
}
