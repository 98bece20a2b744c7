use vstd::prelude::*;
use super::direction::Direction;
use super::error::GraphError;
use super::graph::Graph;
use super::model::GraphModel;
use super::traits::{GraphBase, WithID};

verus! {

/// The graph that holds the vertices of `vs` and no edge.
pub open spec fn vertices_model<V: WithID, E>(vs: Seq<V>, directed: bool) -> GraphModel<V, E>
    decreases vs.len(),
{
    if vs.len() == 0 {
        GraphModel::empty(directed)
    } else {
        vertices_model::<V, E>(vs.drop_last(), directed).with_vertex(vs.last())
    }
}

/// The first of the first `n` vertices of `vs` that the backend does not take
/// after those before it; `n` where it takes them all.
pub open spec fn first_rejected_vertex<B: GraphBase>(vs: Seq<B::Vertex>, n: int) -> int
    decreases n,
{
    if n <= 0 {
        0
    } else {
        let k = first_rejected_vertex::<B>(vs, n - 1);
        if k < n - 1 {
            k
        } else if B::accepts(
            vertices_model::<B::Vertex, B::Edge>(vs.take(n - 1), B::Direction::directed()),
            vs[n - 1].spec_id(),
        ) {
            n
        } else {
            n - 1
        }
    }
}

/// The edge `t` joins `a` to `b`: it runs from `a` to `b`, or the other way in an
/// undirected graph.
pub open spec fn joins<E>(t: (usize, usize, E), a: usize, b: usize, directed: bool) -> bool {
    (t.0 == a && t.1 == b) || (!directed && t.0 == b && t.1 == a)
}

/// One of the first `j` edges joins `a` to `b`.
pub open spec fn joined_before<E>(
    edges: Seq<(usize, usize, E)>,
    j: int,
    a: usize,
    b: usize,
    directed: bool,
) -> bool {
    exists|k: int| 0 <= k < j && #[trigger] joins(edges[k], a, b, directed)
}

/// Why the `j`-th edge cannot come in after those before it, if it cannot.
pub open spec fn edge_rejection<E>(
    ids: Set<usize>,
    edges: Seq<(usize, usize, E)>,
    j: int,
    directed: bool,
) -> Option<GraphError> {
    let from = edges[j].0;
    let to = edges[j].1;
    if !ids.contains(from) {
        Some(GraphError::VertexNotFound(from))
    } else if !ids.contains(to) {
        Some(GraphError::VertexNotFound(to))
    } else if joined_before(edges, j, from, to, directed) || (!directed && from == to) {
        Some(GraphError::DuplicateEdge(from, to))
    } else {
        None
    }
}

/// The first of the first `n` edges that cannot come in; `n` where all can.
pub open spec fn first_rejected_edge<E>(
    ids: Set<usize>,
    edges: Seq<(usize, usize, E)>,
    directed: bool,
    n: int,
) -> int
    decreases n,
{
    if n <= 0 {
        0
    } else {
        let k = first_rejected_edge(ids, edges, directed, n - 1);
        if k < n - 1 {
            k
        } else if edge_rejection(ids, edges, n - 1, directed) is None {
            n
        } else {
            n - 1
        }
    }
}

/// A rejection among the first `n` vertices is the first rejection of any longer
/// prefix.
pub proof fn lemma_rejected_vertex_stays<B: GraphBase>(vs: Seq<B::Vertex>, n: int, m: int)
    requires
        0 <= n <= m,
        first_rejected_vertex::<B>(vs, n) < n,
    ensures
        first_rejected_vertex::<B>(vs, m) == first_rejected_vertex::<B>(vs, n),
    decreases m - n,
{
    if n < m {
        lemma_rejected_vertex_stays::<B>(vs, n, m - 1);
    }
}

/// A rejection among the first `n` edges is the first rejection of any longer prefix.
pub proof fn lemma_rejected_edge_stays<E>(
    ids: Set<usize>,
    edges: Seq<(usize, usize, E)>,
    directed: bool,
    n: int,
    m: int,
)
    requires
        0 <= n <= m,
        first_rejected_edge(ids, edges, directed, n) < n,
    ensures
        first_rejected_edge(ids, edges, directed, m) == first_rejected_edge(ids, edges, directed, n),
    decreases m - n,
{
    if n < m {
        lemma_rejected_edge_stays(ids, edges, directed, n, m - 1);
    }
}

/// `m` is the graph of the vertices `vs` and the first `j` of `edges`.
pub open spec fn holds_batch<V: WithID, E>(
    m: GraphModel<V, E>,
    vs: Seq<V>,
    edges: Seq<(usize, usize, E)>,
    j: int,
) -> bool {
    &&& m.vertices == vertices_model::<V, E>(vs, m.directed).vertices
    &&& forall|a: usize, b: usize| #[trigger]
        m.has_arc(a, b) <==> joined_before(edges, j, a, b, m.directed)
    &&& forall|k: int|
        0 <= k < j ==> m.edge((#[trigger] edges[k]).0, edges[k].1) == Some(edges[k].2)
    &&& m.edge_count() == j
}

/// The backend takes every vertex whose id it does not hold.
pub open spec fn takes_all<Backend: GraphBase>() -> bool {
    forall|m: GraphModel<Backend::Vertex, Backend::Edge>, id: usize|
        !m.has_vertex(id) ==> #[trigger] Backend::accepts(m, id)
}

/// A backend that takes every new vertex takes vertices with different ids one
/// after the other.
pub proof fn lemma_vertices_accepted<Backend: GraphBase>(vs: Seq<Backend::Vertex>, n: int)
    requires
        takes_all::<Backend>(),
        0 <= n <= vs.len(),
        forall|i: int, j: int| 0 <= i < j < vs.len() ==> (#[trigger] vs[i]).spec_id() != (
        #[trigger] vs[j]).spec_id(),
    ensures
        first_rejected_vertex::<Backend>(vs, n) == n,
    decreases n,
{
    if n > 0 {
        lemma_vertices_accepted::<Backend>(vs, n - 1);
        let before = vertices_model::<Backend::Vertex, Backend::Edge>(
            vs.take(n - 1),
            Backend::Direction::directed(),
        );
        lemma_no_arcs::<Backend::Vertex, Backend::Edge>(vs.take(n - 1), Backend::Direction::directed());
        if before.has_vertex(vs[n - 1].spec_id()) {
            let k = choose|k: int|
                0 <= k < vs.take(n - 1).len() && (#[trigger] vs.take(n - 1)[k]).spec_id() == vs[n
                    - 1].spec_id();
            assert(vs.take(n - 1)[k] == vs[k]);
            assert(vs[k].spec_id() != vs[n - 1].spec_id());
        }
    }
}

/// What building a graph from a batch of vertices and edges gives: where every
/// vertex and every edge can come in after those before it, the graph of the batch,
/// and else the error of the first that cannot: for a vertex whose id is taken
/// `DuplicateVertex`, for another vertex that the backend does not take
/// `OperationFailed`, and for an edge what `edge_rejection` says.
pub open spec fn batch_result<Backend: GraphBase>(
    vertices: Seq<Backend::Vertex>,
    edges: Seq<(usize, usize, Backend::Edge)>,
    r: Result<Graph<Backend>, GraphError>,
) -> bool {
    match r {
        Ok(g) => {
            &&& g.wf()
            &&& first_rejected_vertex::<Backend>(vertices, vertices.len() as int) == vertices.len()
            &&& first_rejected_edge(
                g.model().vertices.dom(),
                edges,
                g.model().directed,
                edges.len() as int,
            ) == edges.len()
            &&& holds_batch(g.model(), vertices, edges, edges.len() as int)
        },
        Err(e) => {
            let dir = Backend::Direction::directed();
            let i = first_rejected_vertex::<Backend>(vertices, vertices.len() as int);
            let before = vertices_model::<Backend::Vertex, Backend::Edge>(vertices.take(i), dir);
            let ids = vertices_model::<Backend::Vertex, Backend::Edge>(vertices, dir).vertices.dom();
            let j = first_rejected_edge(ids, edges, dir, edges.len() as int);
            if i < vertices.len() {
                if before.has_vertex(vertices[i].spec_id()) {
                    e == GraphError::DuplicateVertex(vertices[i].spec_id())
                } else {
                    e is OperationFailed
                }
            } else {
                j < edges.len() && Some(e) == edge_rejection(ids, edges, j, dir)
            }
        },
    }
}

impl<Backend: GraphBase> Graph<Backend> {
    /// The graph of a batch of vertices and edges: what comes of taking in the
    /// vertices in order and then the edges in order. Where one of them cannot come
    /// in, the error of the first that cannot is returned.
    pub fn from_vertices_and_edges(
        vertices: Vec<Backend::Vertex>,
        edges: Vec<(usize, usize, Backend::Edge)>,
    ) -> (r: Result<Self, GraphError>) where Backend::Vertex: Copy, Backend::Edge: Copy
        ensures
            batch_result::<Backend>(vertices@, edges@, r),
    {
        let ghost dir = Backend::Direction::directed();
        let mut graph = Self::new_with_size(vertices.len());
        let mut i: usize = 0;
        while i < vertices.len()
            invariant
                0 <= i <= vertices.len(),
                dir == Backend::Direction::directed(),
                graph.wf(),
                graph.model() == vertices_model::<Backend::Vertex, Backend::Edge>(
                    vertices@.take(i as int),
                    dir,
                ),
                first_rejected_vertex::<Backend>(vertices@, i as int) == i,
            decreases vertices.len() - i,
        {
            proof {
                assert(vertices@.take(i + 1).drop_last() =~= vertices@.take(i as int));
                graph.lemma_wf();
            }
            match graph.push_vertex(vertices[i]) {
                Ok(()) => {},
                Err(e) => {
                    proof {
                        lemma_rejected_vertex_stays::<Backend>(
                            vertices@,
                            i + 1,
                            vertices.len() as int,
                        );
                    }
                    return Err(e);
                },
            }
            i += 1;
        }
        proof {
            assert(vertices@.take(vertices.len() as int) =~= vertices@);
            graph.lemma_wf();
            lemma_no_arcs::<Backend::Vertex, Backend::Edge>(vertices@, dir);
            assert forall|a: (usize, usize)| !graph.model().canonical_arcs().contains(a) by {
                assert(graph.model().out(a.0) == Seq::<(usize, Backend::Edge)>::empty());
                if graph.model().has_arc(a.0, a.1) {
                    let c = graph.model().arc_index(a.0, a.1);
                    assert(graph.model().arc_at(a.0, c, a.1));
                }
            }
            assert(graph.model().canonical_arcs() =~= Set::<(usize, usize)>::empty());
            assert forall|a: usize, b: usize| #[trigger]
                graph.model().has_arc(a, b) <==> joined_before(edges@, 0, a, b, dir) by {
                lemma_no_arcs::<Backend::Vertex, Backend::Edge>(vertices@, dir);
                assert(graph.model().out(a) == Seq::<(usize, Backend::Edge)>::empty());
                if graph.model().has_arc(a, b) {
                    let c = graph.model().arc_index(a, b);
                    assert(graph.model().arc_at(a, c, b));
                }
            }
        }
        let ghost ids = graph.model().vertices.dom();
        let mut j: usize = 0;
        while j < edges.len()
            invariant
                0 <= j <= edges.len(),
                dir == Backend::Direction::directed(),
                graph.wf(),
                graph.model().directed == dir,
                ids == graph.model().vertices.dom(),
                ids == vertices_model::<Backend::Vertex, Backend::Edge>(
                    vertices@,
                    dir,
                ).vertices.dom(),
                first_rejected_vertex::<Backend>(vertices@, vertices.len() as int)
                    == vertices.len(),
                holds_batch(graph.model(), vertices@, edges@, j as int),
                first_rejected_edge(ids, edges@, dir, j as int) == j,
            decreases edges.len() - j,
        {
            let ghost before = graph.model();
            let from = edges[j].0;
            let to = edges[j].1;
            let edge = edges[j].2;
            proof {
                graph.lemma_wf();
            }
            match graph.push_edge(from, to, edge) {
                Ok(()) => {
                    proof {
                        let after = graph.model();
                        after.lemma_adds_edge(before, from, to, edge);
                        assert forall|a: usize, b: usize| #[trigger]
                            after.has_arc(a, b) <==> joined_before(edges@, j + 1, a, b, dir) by {
                            if joined_before(edges@, j + 1, a, b, dir) {
                                let k = choose|k: int|
                                    0 <= k < j + 1 && #[trigger] joins(edges[k], a, b, dir);
                                if k < j {
                                    assert(joined_before(edges@, j as int, a, b, dir));
                                }
                            }
                            if before.has_arc(a, b) {
                                let k = choose|k: int|
                                    0 <= k < j && #[trigger] joins(edges[k], a, b, dir);
                                assert(joins(edges[k], a, b, dir));
                            }
                            if (a == from && b == to) || (!dir && a == to && b == from) {
                                assert(joins(edges[j as int], a, b, dir));
                            }
                        }
                        assert forall|k: int| 0 <= k < j + 1 implies after.edge(
                            (#[trigger] edges[k]).0,
                            edges[k].1,
                        ) == Some(edges[k].2) by {
                            if k < j {
                                assert(joins(edges[k], edges[k].0, edges[k].1, dir));
                                assert(joined_before(edges@, j as int, edges[k].0, edges[k].1, dir));
                                assert(before.has_arc(edges[k].0, edges[k].1));
                            }
                        }
                    }
                },
                Err(e) => {
                    proof {
                        lemma_rejected_edge_stays(ids, edges@, dir, j + 1, edges.len() as int);
                    }
                    return Err(e);
                },
            }
            j += 1;
        }
        Ok(graph)
    }
}

/// A graph of vertices alone has no arcs, and its vertices carry their own ids.
pub proof fn lemma_no_arcs<V: WithID, E>(vs: Seq<V>, directed: bool)
    ensures
        forall|u: usize| #[trigger]
            vertices_model::<V, E>(vs, directed).out(u) == Seq::<(usize, E)>::empty(),
        vertices_model::<V, E>(vs, directed).directed == directed,
        forall|id: usize|
            vertices_model::<V, E>(vs, directed).has_vertex(id) <==> exists|k: int|
                0 <= k < vs.len() && (#[trigger] vs[k]).spec_id() == id,
    decreases vs.len(),
{
    let m = vertices_model::<V, E>(vs, directed);
    if vs.len() > 0 {
        let rest = vertices_model::<V, E>(vs.drop_last(), directed);
        lemma_no_arcs::<V, E>(vs.drop_last(), directed);
        assert forall|u: usize| #[trigger] m.out(u) == Seq::<(usize, E)>::empty() by {
            assert(rest.out(u) == Seq::<(usize, E)>::empty());
        }
        assert forall|id: usize| m.has_vertex(id) <==> exists|k: int|
            0 <= k < vs.len() && (#[trigger] vs[k]).spec_id() == id by {
            if rest.has_vertex(id) {
                let k = choose|k: int|
                    0 <= k < vs.drop_last().len() && (#[trigger] vs.drop_last()[k]).spec_id() == id;
                assert(vs[k].spec_id() == id);
            }
            if exists|k: int| 0 <= k < vs.len() && (#[trigger] vs[k]).spec_id() == id {
                let k = choose|k: int| 0 <= k < vs.len() && (#[trigger] vs[k]).spec_id() == id;
                if k < vs.len() - 1 {
                    assert(vs.drop_last()[k].spec_id() == id);
                }
            }
        }
    }
}

} // verus!
