use graph_library::graph::{Path, WeightedEdge};

#[derive(Debug, Clone, Copy, PartialEq)]
struct MockEdge {
    weight: u32,
}

impl WeightedEdge for MockEdge {
    fn get_weight(&self) -> i64 {
        self.weight as i64
    }
}

fn path_of(edges: Vec<(usize, usize, MockEdge)>) -> Path<MockEdge> {
    let mut path = Path::default();
    for (from, to, edge) in edges {
        path.push(from, to, edge);
    }
    path
}

#[test]
fn test_path_display() {
    let path = path_of(vec![
        (1, 2, MockEdge { weight: 10 }),
        (2, 3, MockEdge { weight: 20 }),
    ]);
    let output = path.to_string();
    assert!(output.contains("1: 1 -> 2 via MockEdge { weight: 10 }"));
    assert!(output.contains("2: 2 -> 3 via MockEdge { weight: 20 }"));
}

#[test]
fn test_vertices_iter_empty() {
    let path: Path<MockEdge> = Path::default();
    let vertices: Vec<_> = path.vertices();
    assert!(vertices.is_empty());
}

#[test]
fn test_vertices_iter_single_edge() {
    let path = path_of(vec![(1, 2, MockEdge { weight: 42 })]);
    let vertices: Vec<_> = path.vertices();
    assert_eq!(vertices, vec![1, 2]);
}

#[test]
fn test_vertices_iter_multiple_edges() {
    let path = path_of(vec![
        (1, 2, MockEdge { weight: 10 }),
        (2, 3, MockEdge { weight: 20 }),
        (3, 4, MockEdge { weight: 30 }),
    ]);
    let vertices: Vec<_> = path.vertices();
    assert_eq!(vertices, vec![1, 2, 3, 4]);
}

#[test]
fn path_total_cost_and_nodes() {
    let path = path_of(vec![
        (1, 2, MockEdge { weight: 10 }),
        (2, 3, MockEdge { weight: 20 }),
    ]);
    assert_eq!(path.total_cost(), 30);
    assert_eq!(path.nodes(), vec![1, 2, 3]);
    assert_eq!(path.len(), 2);
    assert!(!path.is_empty());
    let single = path_of(vec![(5, 6, MockEdge { weight: 5 })]);
    assert_eq!(single.total_cost(), 5);
    assert_eq!(single.nodes(), vec![5, 6]);
    assert_eq!(single.to_string(), "1: 5 -> 6 via MockEdge { weight: 5 }\n");
}
