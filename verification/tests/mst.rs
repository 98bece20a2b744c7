use graph_library::algorithms::mst::prim::EdgeEntry;
use graph_library::algorithms::queue::MinQueue;
use graph_library::graph::{
    EdgeWithWeight, GraphBase, ListGraph, ListGraphBackend, MatrixGraphBackend, Vertex, WithID,
};
use graph_library::{Directed, Graph, GraphError, Undirected};

//     1
//    / \
//   1   4
//  /     \
// 2---2---3
//  \     /
//   3   1
//    \ /
//     4
fn example() -> ListGraph<Vertex, EdgeWithWeight, Undirected> {
    let mut graph = ListGraph::<Vertex, EdgeWithWeight, Undirected>::new();
    for id in 1..=4 {
        graph.push_vertex(Vertex { id }).unwrap();
    }
    graph.push_edge(1, 2, EdgeWithWeight::new(1)).unwrap();
    graph.push_edge(1, 3, EdgeWithWeight::new(4)).unwrap();
    graph.push_edge(2, 3, EdgeWithWeight::new(2)).unwrap();
    graph.push_edge(2, 4, EdgeWithWeight::new(3)).unwrap();
    graph.push_edge(3, 4, EdgeWithWeight::new(1)).unwrap();
    graph
}

fn dfs_ids<B: GraphBase>(graph: &Graph<B>, start: usize) -> Vec<usize> {
    let mut it = graph.dfs_iter(start).unwrap();
    let mut ids = Vec::new();
    while let Some(v) = it.next() {
        ids.push(v.get_id());
    }
    ids
}

#[test]
fn prim_example() {
    let graph = example();
    let mst = graph.mst_prim::<ListGraphBackend<_, _, Undirected>>(Some(1)).unwrap();
    assert_eq!(dfs_ids(&mst, 1), vec![1, 2, 3, 4]);
    assert_eq!(mst.vertex_count(), 4);
    assert_eq!(mst.edge_count(), 3);
    assert_eq!(mst.get_total_weight(), 4);
    assert!(mst.get_edge(1, 2).is_some());
    assert!(mst.get_edge(2, 3).is_some());
    assert!(mst.get_edge(3, 4).is_some());
    assert!(mst.get_edge(1, 3).is_none());
}

#[test]
fn kruskal_example() {
    let graph = example();
    let mst = graph.mst_kruskal::<ListGraphBackend<_, _, Undirected>>().unwrap();
    assert_eq!(mst.vertex_count(), 4);
    assert_eq!(mst.edge_count(), 3);
    assert_eq!(mst.get_total_weight(), 4);
    assert!(mst.get_edge(2, 1).is_some());
    assert!(mst.get_edge(3, 2).is_some());
    assert!(mst.get_edge(4, 3).is_some());
    assert!(mst.get_edge(2, 4).is_none());
}

#[test]
fn prim_and_kruskal_agree_on_weight() {
    let mut graph = ListGraph::<Vertex, EdgeWithWeight, Undirected>::new();
    for id in 0..6 {
        graph.push_vertex(Vertex { id }).unwrap();
    }
    let edges = [
        (0, 1, 7),
        (0, 2, 9),
        (0, 5, 14),
        (1, 2, 10),
        (1, 3, 15),
        (2, 3, 11),
        (2, 5, 2),
        (3, 4, 6),
        (4, 5, 9),
    ];
    for (a, b, w) in edges {
        graph.push_edge(a, b, EdgeWithWeight::new(w)).unwrap();
    }
    let prim = graph.mst_prim::<ListGraphBackend<_, _, Undirected>>(None).unwrap();
    let kruskal = graph.mst_kruskal::<ListGraphBackend<_, _, Undirected>>().unwrap();
    assert_eq!(prim.get_total_weight(), 33);
    assert_eq!(kruskal.get_total_weight(), 33);
    assert_eq!(prim.edge_count(), 5);
    assert_eq!(kruskal.edge_count(), 5);
}

#[test]
fn mst_of_empty_and_unconnected_graphs() {
    let empty = ListGraph::<Vertex, EdgeWithWeight, Undirected>::new();
    let prim = empty.mst_prim::<ListGraphBackend<_, _, Undirected>>(None).unwrap();
    assert_eq!(prim.vertex_count(), 0);
    let kruskal = empty.mst_kruskal::<ListGraphBackend<_, _, Undirected>>().unwrap();
    assert_eq!(kruskal.vertex_count(), 0);

    let mut two = example();
    two.push_vertex(Vertex { id: 9 }).unwrap();
    // Prim grows the tree of what the start reaches.
    let prim = two.mst_prim::<ListGraphBackend<_, _, Undirected>>(Some(1)).unwrap();
    assert_eq!(prim.vertex_count(), 4);
    assert!(prim.get_vertex_by_id(9).is_none());
    let alone = two.mst_prim::<ListGraphBackend<_, _, Undirected>>(Some(9)).unwrap();
    assert_eq!(alone.vertex_count(), 1);
    assert_eq!(alone.edge_count(), 0);
    // Kruskal keeps every vertex.
    let kruskal = two.mst_kruskal::<ListGraphBackend<_, _, Undirected>>().unwrap();
    assert_eq!(kruskal.vertex_count(), 5);
    assert_eq!(kruskal.edge_count(), 3);
    assert!(matches!(
        two.mst_prim::<ListGraphBackend<_, _, Undirected>>(Some(77)),
        Err(GraphError::VertexNotFound(77))
    ));
}

#[test]
fn mst_into_a_matrix() {
    let mut graph = ListGraph::<Vertex, EdgeWithWeight, Directed>::new();
    for id in 0..3 {
        graph.push_vertex(Vertex { id }).unwrap();
    }
    graph.push_edge(0, 1, EdgeWithWeight::new(2)).unwrap();
    graph.push_edge(1, 2, EdgeWithWeight::new(3)).unwrap();
    graph.push_edge(0, 2, EdgeWithWeight::new(9)).unwrap();
    let mst = graph.mst_prim::<MatrixGraphBackend<_, _, Directed>>(Some(0)).unwrap();
    assert_eq!(mst.get_total_weight(), 5);
    // The matrix takes its vertices in the order of their ids only.
    assert!(matches!(
        graph.mst_prim::<MatrixGraphBackend<_, _, Directed>>(Some(1)),
        Err(GraphError::OperationFailed(_))
    ));
}

#[test]
fn queue_hands_out_by_ascending_key() {
    let mut queue: MinQueue<EdgeEntry<char>> = MinQueue::new();
    queue.push(EdgeEntry::new(5, 0, 1, 'a'));
    queue.push(EdgeEntry::new(2, 0, 2, 'b'));
    queue.push(EdgeEntry::new(5, 0, 3, 'c'));
    queue.push(EdgeEntry::new(2, 0, 4, 'd'));
    assert_eq!(queue.len(), 4);
    let order: Vec<char> = std::iter::from_fn(|| queue.pop()).map(|e| e.edge).collect();
    assert_eq!(order, vec!['b', 'd', 'a', 'c']);
    assert!(queue.pop().is_none());
}

#[test]
fn lightest_forest_with_negative_weights() {
    let mut graph = ListGraph::<Vertex, EdgeWithWeight, Undirected>::new();
    for id in 0..5 {
        graph.push_vertex(Vertex { id }).unwrap();
    }
    for (a, b, w) in [(0, 2, 5), (0, 1, -1), (1, 2, -1), (3, 4, 2)] {
        graph.push_edge(a, b, EdgeWithWeight::new(w)).unwrap();
    }
    let kruskal = graph.mst_kruskal::<ListGraphBackend<_, _, Undirected>>().unwrap();
    assert_eq!(kruskal.vertex_count(), 5);
    assert_eq!(kruskal.edge_count(), 3);
    assert_eq!(kruskal.get_total_weight(), 0);
    assert!(kruskal.get_edge(0, 2).is_none());
    assert!(kruskal.get_edge(3, 4).is_some());
    let prim = graph.mst_prim::<ListGraphBackend<_, _, Undirected>>(Some(2)).unwrap();
    assert_eq!(prim.vertex_count(), 3);
    assert_eq!(prim.edge_count(), 2);
    assert_eq!(prim.get_total_weight(), -2);
}
