use graph_library::graph::from_file::{lines, parse_hoever, parse_number, split};
use graph_library::graph::{
    EdgeWithWeight, GraphBase, ListGraph, MatrixGraph, Vertex, WithID,
};
use graph_library::{Directed, GraphError, Undirected};

fn weight(columns: Vec<&[u8]>) -> EdgeWithWeight {
    EdgeWithWeight::new(parse_number(columns[0]).unwrap() as i64)
}

#[test]
fn text_is_split() {
    assert_eq!(split(b"a\tbc\t\td", b'\t'), vec![&b"a"[..], &b"bc"[..], &b""[..], &b"d"[..]]);
    assert_eq!(split(b"", b'\t'), vec![&b""[..]]);
    assert_eq!(split(b"\t", b'\t'), vec![&b""[..], &b""[..]]);
    assert_eq!(lines(b"3\n0\t1\r\n1\t2\n\n\r\n"), vec![&b"3"[..], &b"0\t1"[..], &b"1\t2"[..]]);
    assert_eq!(lines(b"3\n\n0\t1"), vec![&b"3"[..], &b""[..], &b"0\t1"[..]]);
    assert!(lines(b"").is_empty());
    assert!(lines(b"\n\n").is_empty());
}

#[test]
fn numbers_are_read() {
    assert_eq!(parse_number(b"0"), Some(0));
    assert_eq!(parse_number(b"007"), Some(7));
    assert_eq!(parse_number(b"+15"), Some(15));
    assert_eq!(parse_number(b"18446744073709551615"), Some(18446744073709551615));
    assert_eq!(parse_number(b"18446744073709551616"), None);
    assert_eq!(parse_number(b""), None);
    assert_eq!(parse_number(b"+"), None);
    assert_eq!(parse_number(b"-1"), None);
    assert_eq!(parse_number(b"1 "), None);
    assert_eq!(parse_number(b"1.5"), None);
}

#[test]
fn description_is_parsed() {
    let (n, edges) = parse_hoever(b"4\n0\t1\t2.5\textra\n2\t3\n").unwrap();
    assert_eq!(n, 4);
    assert_eq!(edges.len(), 2);
    assert_eq!(edges[0], (0, 1, vec![&b"2.5"[..], &b"extra"[..]]));
    assert_eq!(edges[1], (2, 3, vec![]));
}

fn message(result: Result<(usize, Vec<(usize, usize, Vec<&[u8]>)>), GraphError>) -> String {
    result.unwrap_err().to_string()
}

#[test]
fn flaws_are_reported() {
    assert_eq!(
        message(parse_hoever(b"")),
        "Invalid file format: The file must contain at least one line with the number of edges"
    );
    assert_eq!(
        message(parse_hoever(b"four\n0\t1")),
        "Parse error: Cannot parse number of vertices (1st line)"
    );
    assert_eq!(
        message(parse_hoever(b"0\n0\t1")),
        "Invalid file format: Number of vertices must be greater than 0"
    );
    assert_eq!(message(parse_hoever(b"3\nx\t1")), "Parse error: Cannot parse \"from\" vertex");
    assert_eq!(message(parse_hoever(b"3\n\n0\t1")), "Parse error: Cannot parse \"from\" vertex");
    assert_eq!(
        message(parse_hoever(b"3\n1")),
        "Invalid file format: Missing 'to' vertex id in edge definition"
    );
    assert_eq!(message(parse_hoever(b"3\n1\ty")), "Parse error: Cannot parse \"to\" vertex");
    assert_eq!(
        message(parse_hoever(b"3\n0\t1\n1\t3\nx")),
        "Invalid file format: Vertex ID out of range: expected 0-2, got 1 or 3"
    );
    assert_eq!(message(parse_hoever(b"3\n")), "Invalid file format: No edges found in file");
}

#[test]
fn graphs_come_from_descriptions() {
    let text = b"4\n0\t1\t5\n1\t2\t7\n2\t3\t1\n";
    let graph =
        ListGraph::<Vertex, EdgeWithWeight, Undirected>::from_hoever_file_with_weights(text, weight)
            .unwrap();
    assert_eq!(graph.vertex_count(), 4);
    assert_eq!(graph.edge_count(), 3);
    assert_eq!(graph.get_total_weight(), 13);
    assert_eq!(graph.get_edge(2, 1).map(|e| e.weight), Some(7));

    let plain = MatrixGraph::<Vertex, (), Directed>::from_hoever_file_default(text).unwrap();
    assert_eq!(plain.vertex_count(), 4);
    assert_eq!(plain.edge_count(), 3);
    assert!(plain.get_edge(0, 1).is_some());
    assert!(plain.get_edge(1, 0).is_none());

    #[derive(Debug, Clone, Copy)]
    struct Shifted(usize);
    impl WithID for Shifted {
        fn get_id(&self) -> usize {
            self.0
        }
    }
    let shifted = ListGraph::<Shifted, (), Directed>::from_hoever_file(
        b"2\n0\t1",
        |id| Shifted(id),
        |_| (),
    )
    .unwrap();
    assert_eq!(shifted.get_vertex_by_id(1).map(|v| v.0), Some(1));

    // An edge twice.
    assert!(matches!(
        ListGraph::<Vertex, (), Undirected>::from_hoever_file_default(b"2\n0\t1\n1\t0"),
        Err(GraphError::DuplicateEdge(1, 0))
    ));
    assert!(matches!(
        ListGraph::<Vertex, (), Undirected>::from_hoever_file_default(b"2\n0\t2"),
        Err(GraphError::InvalidFormat(_))
    ));
}

#[test]
fn components_of_a_described_graph() {
    let text = b"15\n0\t1\n1\t2\n2\t3\n3\t4\n4\t5\n5\t6\n6\t0\n7\t8\n8\t9\n9\t10\n10\t11\n11\t12\n12\t13\n13\t14\n14\t7\n";
    let graph = ListGraph::<Vertex, (), Undirected>::from_hoever_file_default(text).unwrap();
    assert_eq!(graph.count_connected_subgraphs(None).unwrap(), 2);
}
