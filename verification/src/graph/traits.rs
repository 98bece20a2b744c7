use vstd::prelude::*;
use super::direction::Direction;
use super::error::GraphError;
use super::model::{lemma_listing_weight, lemma_seq_weight_bound, seq_weight, GraphModel};

verus! {

/// A vertex payload: anything that has a stable id.
pub trait WithID {
    /// The id of this vertex. An implementation that states nothing here leaves the
    /// id open.
    open spec fn spec_id(&self) -> usize {
        arbitrary()
    }

    fn get_id(&self) -> (id: usize)
        ensures
            id == self.spec_id(),
    ;
}

/// An edge payload that has a weight.
pub trait WeightedEdge {
    /// The weight of this edge. An implementation that states nothing here leaves
    /// the weight open.
    open spec fn spec_weight(&self) -> i64 {
        arbitrary()
    }

    fn get_weight(&self) -> (w: i64)
        ensures
            w == self.spec_weight(),
    ;
}

pub type EdgeTuple<Edge> = (usize, usize, Edge);

/// `r` lists the vertices of `m`, each once.
pub open spec fn lists_vertices<V: WithID, E>(r: Seq<&V>, m: GraphModel<V, E>) -> bool {
    &&& r.len() == m.vertices.dom().len()
    &&& forall|i: int|
        0 <= i < r.len() ==> m.has_vertex((#[trigger] r[i]).spec_id()) && *r[i]
            == m.vertices[r[i].spec_id()]
    &&& forall|i: int, j: int|
        0 <= i < j < r.len() ==> (#[trigger] r[i]).spec_id() != (#[trigger] r[j]).spec_id()
}

/// A listing of the vertices holds every vertex.
pub proof fn lemma_listing_covers<V: WithID, E>(r: Seq<&V>, m: GraphModel<V, E>, id: usize)
    requires
        lists_vertices(r, m),
        m.vertices.dom().finite(),
        m.has_vertex(id),
    ensures
        exists|k: int| 0 <= k < r.len() && (#[trigger] r[k]).spec_id() == id,
{
    let ids = r.map_values(|v: &V| v.spec_id());
    assert(ids.no_duplicates()) by {
        assert forall|a: int, b: int| 0 <= a < ids.len() && 0 <= b < ids.len() && a != b implies ids[a]
            != ids[b] by {
            if a < b {
                assert(r[a].spec_id() != r[b].spec_id());
            } else {
                assert(r[b].spec_id() != r[a].spec_id());
            }
        }
    }
    ids.unique_seq_to_set();
    vstd::seq_lib::seq_to_set_is_finite(ids);
    assert(ids.to_set().subset_of(m.vertices.dom())) by {
        assert forall|x: usize| ids.to_set().contains(x) implies m.vertices.dom().contains(x) by {
            let k = choose|k: int| 0 <= k < ids.len() && ids[k] == x;
            assert(m.has_vertex(r[k].spec_id()));
        }
    }
    vstd::set_lib::lemma_subset_equality(ids.to_set(), m.vertices.dom());
    assert(ids.to_set().contains(id));
    let k = choose|k: int| 0 <= k < ids.len() && ids[k] == id;
    assert(r[k].spec_id() == id);
}

/// `r` lists the edges of `m`, each once, with its payload.
pub open spec fn lists_edges<V: WithID, E>(r: Seq<(usize, usize, &E)>, m: GraphModel<V, E>) -> bool {
    &&& r.len() == m.edge_count()
    &&& forall|i: int|
        0 <= i < r.len() ==> {
            let t = #[trigger] r[i];
            m.canonical_arcs().contains((t.0, t.1)) && m.edge(t.0, t.1) == Some(*t.2)
        }
    &&& forall|i: int, j: int|
        0 <= i < j < r.len() ==> ((#[trigger] r[i]).0, r[i].1) != ((#[trigger] r[j]).0, r[j].1)
}

/// A listing of the edges holds every edge.
pub proof fn lemma_edges_cover<V: WithID, E>(r: Seq<(usize, usize, &E)>, m: GraphModel<V, E>, a: usize, b: usize)
    requires
        lists_edges(r, m),
        m.valid(),
        m.canonical_arcs().contains((a, b)),
    ensures
        exists|k: int| 0 <= k < r.len() && (#[trigger] r[k]).0 == a && r[k].1 == b,
{
    let pairs = r.map_values(|t: (usize, usize, &E)| (t.0, t.1));
    let s = m.canonical_arcs();
    assert forall|k: int| 0 <= k < pairs.len() implies s.contains(#[trigger] pairs[k]) by {
        let t = r[k];
        assert(s.contains((t.0, t.1)));
    }
    assert forall|x: int, y: int| 0 <= x < pairs.len() && 0 <= y < pairs.len() && x != y implies pairs[x]
        != pairs[y] by {
        assert(pairs[x] == (r[x].0, r[x].1) && pairs[y] == (r[y].0, r[y].1));
        if x < y {
            assert((r[x].0, r[x].1) != (r[y].0, r[y].1));
        } else {
            assert((r[y].0, r[y].1) != (r[x].0, r[x].1));
        }
    }
    vstd::seq_lib::seq_to_set_is_finite(pairs);
    pairs.unique_seq_to_set();
    assert(pairs.to_set().subset_of(s));
    vstd::set_lib::lemma_subset_equality(pairs.to_set(), s);
    assert(pairs.to_set().contains((a, b)));
    let k = choose|k: int| 0 <= k < pairs.len() && pairs[k] == (a, b);
    assert(r[k].0 == a && r[k].1 == b);
}

/// What a storage backend offers. `model` is the graph that a value stands for;
/// every operation is stated over it.
pub trait GraphBase: Sized {
    type Vertex: WithID;

    type Edge;

    type Direction: Direction;

    /// The graph that this value stands for.
    spec fn model(&self) -> GraphModel<Self::Vertex, Self::Edge>;

    /// The backend's own invariant.
    spec fn wf(&self) -> bool;

    /// Whether a backend of this kind that stands for `m` takes a new vertex with
    /// this id.
    spec fn accepts(m: GraphModel<Self::Vertex, Self::Edge>, id: usize) -> bool;

    /// The place among the arcs that leave `from` at which a backend of this kind
    /// that stands for `m` puts a new arc to `to`.
    spec fn place(m: GraphModel<Self::Vertex, Self::Edge>, from: usize, to: usize) -> int;

    /// A well-formed backend stands for a valid graph with the direction of its tag,
    /// and takes no id twice.
    proof fn lemma_wf(&self)
        requires
            self.wf(),
        ensures
            self.model().valid(),
            self.model().directed == Self::Direction::directed(),
            forall|id: usize| #[trigger] Self::accepts(self.model(), id) ==> !self.model().has_vertex(id),
    ;

    fn new() -> (g: Self)
        ensures
            g.wf(),
            g.model() == GraphModel::<Self::Vertex, Self::Edge>::empty(
                Self::Direction::directed(),
            ),
    ;

    fn new_with_size(n_vertices: usize) -> (g: Self)
        ensures
            g.wf(),
            g.model() == GraphModel::<Self::Vertex, Self::Edge>::empty(
                Self::Direction::directed(),
            ),
    ;

    fn push_vertex(&mut self, vertex: Self::Vertex) -> (r: Result<(), GraphError>)
        requires
            old(self).wf(),
        ensures
            final(self).wf(),
            r is Ok <==> Self::accepts(old(self).model(), vertex.spec_id()),
            r is Ok ==> final(self).model() == old(self).model().with_vertex(vertex),
            r is Err ==> final(self).model() == old(self).model(),
            old(self).model().has_vertex(vertex.spec_id()) ==> r == Err::<(), GraphError>(
                GraphError::DuplicateVertex(vertex.spec_id()),
            ),
            r is Err && !old(self).model().has_vertex(vertex.spec_id()) ==> r->Err_0 is OperationFailed,
    ;

    fn push_edge(&mut self, from: usize, to: usize, edge: Self::Edge) -> (r: Result<
        (),
        GraphError,
    >)
        requires
            old(self).wf(),
        ensures
            final(self).wf(),
            r is Ok <==> old(self).model().accepts_edge(from, to),
            r is Ok ==> final(self).model().adds_edge(old(self).model(), from, to, edge),
            r is Ok ==> final(self).model().out(from) == old(self).model().out(from).insert(
                Self::place(old(self).model(), from, to),
                (to, edge),
            ),
            r is Ok && !old(self).model().directed ==> final(self).model().out(to) == old(
                self,
            ).model().out(to).insert(Self::place(old(self).model(), to, from), (from, edge)),
            r is Err ==> final(self).model() == old(self).model(),
            !old(self).model().has_vertex(from) ==> r == Err::<(), GraphError>(
                GraphError::VertexNotFound(from),
            ),
            old(self).model().has_vertex(from) && !old(self).model().has_vertex(to) ==> r == Err::<
                (),
                GraphError,
            >(GraphError::VertexNotFound(to)),
            old(self).model().has_vertex(from) && old(self).model().has_vertex(to) && (old(
                self,
            ).model().has_arc(from, to) || (from == to && !old(self).model().directed)) ==> r
                == Err::<(), GraphError>(GraphError::DuplicateEdge(from, to)),
            r is Err && old(self).model().has_vertex(from) && old(self).model().has_vertex(to)
                && !old(self).model().has_arc(from, to) && (from != to || old(
                self,
            ).model().directed) ==> r->Err_0 is OperationFailed,
    ;

    fn is_directed(&self) -> (b: bool)
        requires
            self.wf(),
        ensures
            b == self.model().directed,
    ;

    fn get_vertex_by_id(&self, vertex_id: usize) -> (r: Option<&Self::Vertex>)
        requires
            self.wf(),
        ensures
            r is Some <==> self.model().has_vertex(vertex_id),
            r is Some ==> *r->Some_0 == self.model().vertices[vertex_id],
    ;

    /// The payload of a vertex, to be changed in place. The graph stays well-formed
    /// where the payload keeps its id.
    fn get_vertex_by_id_mut(&mut self, vertex_id: usize) -> (r: Option<&mut Self::Vertex>)
        requires
            old(self).wf(),
        ensures
            r is Some <==> old(self).model().has_vertex(vertex_id),
            match r {
                Some(v) => {
                    &&& *v == old(self).model().vertices[vertex_id]
                    &&& final(self).model() == old(self).model().with_payload(vertex_id, *final(v))
                    &&& final(v).spec_id() == vertex_id ==> final(self).wf()
                },
                None => *final(self) == *old(self),
            },
    ;

    fn get_edge(&self, from_id: usize, to_id: usize) -> (r: Option<&Self::Edge>)
        requires
            self.wf(),
        ensures
            r is Some <==> self.model().has_arc(from_id, to_id),
            r is Some ==> Some(*r->Some_0) == self.model().edge(from_id, to_id),
    ;

    /// Gives the edge from `from` to `to` another payload, if there is such an edge.
    fn set_edge(&mut self, from: usize, to: usize, edge: Self::Edge) -> (done: bool)
        requires
            old(self).wf(),
        ensures
            final(self).wf(),
            done == old(self).model().has_arc(from, to),
            done ==> final(self).model() == old(self).model().with_edge_payload(from, to, edge),
            !done ==> final(self).model() == old(self).model(),
    ;

    fn get_all_vertices(&self) -> (r: Vec<&Self::Vertex>)
        requires
            self.wf(),
        ensures
            lists_vertices(r@, self.model()),
    ;

    fn get_all_edges(&self) -> (r: Vec<(usize, usize, &Self::Edge)>)
        requires
            self.wf(),
        ensures
            lists_edges(r@, self.model()),
    ;

    fn get_adjacent_vertices(&self, vertex_id: usize) -> (r: Vec<&Self::Vertex>)
        requires
            self.wf(),
        ensures
            r.len() == self.model().out(vertex_id).len(),
            forall|i: int|
                0 <= i < r.len() ==> *(#[trigger] r[i]) == self.model().vertices[self.model().out(
                    vertex_id,
                )[i].0],
    ;

    fn get_adjacent_vertices_with_edges(&self, vertex_id: usize) -> (r: Vec<
        (&Self::Vertex, &Self::Edge),
    >)
        requires
            self.wf(),
        ensures
            r.len() == self.model().out(vertex_id).len(),
            forall|i: int|
                0 <= i < r.len() ==> {
                    let arc = self.model().out(vertex_id)[i];
                    *(#[trigger] r[i]).0 == self.model().vertices[arc.0] && *r[i].1 == arc.1
                },
    ;

    fn vertex_count(&self) -> (n: usize)
        requires
            self.wf(),
        ensures
            n == self.model().vertices.dom().len(),
    ;

    fn edge_count(&self) -> (n: usize)
        requires
            self.wf(),
        ensures
            n == self.model().edge_count(),
    ;

    /// The sum of the weights of the edges, each edge of an undirected graph
    /// counted once.
    fn get_total_weight(&self) -> (w: i128) where Self::Edge: WeightedEdge
        requires
            self.wf(),
        ensures
            w == self.model().total_weight(),
    ;
}



/// The sum of the weights in a listing of a graph's edges.
pub fn weight_of_listing<V: WithID, E: WeightedEdge>(
    edges: &Vec<(usize, usize, &E)>,
    Ghost(m): Ghost<GraphModel<V, E>>,
) -> (w: i128)
    requires
        lists_edges(edges@, m),
        m.valid(),
    ensures
        w == m.total_weight(),
{
    let ghost arcs = m.arcs;
    let ghost pairs = edges@.map_values(|t: (usize, usize, &E)| (t.0, t.1));
    let mut total: i128 = 0;
    let mut i: usize = 0;
    while i < edges.len()
        invariant
            0 <= i <= edges.len(),
            lists_edges(edges@, m),
            arcs == m.arcs,
            pairs == edges@.map_values(|t: (usize, usize, &E)| (t.0, t.1)),
            total == seq_weight(arcs, pairs.take(i as int)),
        decreases edges.len() - i,
    {
        proof {
            lemma_seq_weight_bound(arcs, pairs.take(i as int));
            assert(pairs.take(i + 1).drop_last() =~= pairs.take(i as int));
            let t = edges[i as int];
            assert(m.edge(t.0, t.1) == Some(*t.2));
            assert(pairs.take(i + 1).last() == (t.0, t.1));
        }
        total = total + edges[i].2.get_weight() as i128;
        i += 1;
    }
    proof {
        assert(pairs.take(edges.len() as int) =~= pairs);
        let s = m.canonical_arcs();
        assert forall|k: int| 0 <= k < pairs.len() implies s.contains(#[trigger] pairs[k]) by {
            let t = edges[k];
            assert(s.contains((t.0, t.1)));
        }
        assert forall|a: int, b: int| 0 <= a < pairs.len() && 0 <= b < pairs.len() && a
            != b implies pairs[a] != pairs[b] by {
            assert(pairs[a] == (edges[a].0, edges[a].1) && pairs[b] == (edges[b].0, edges[b].1));
            if a < b {
                assert((edges[a].0, edges[a].1) != (edges[b].0, edges[b].1));
            } else {
                assert((edges[b].0, edges[b].1) != (edges[a].0, edges[a].1));
            }
        }
        vstd::seq_lib::seq_to_set_is_finite(pairs);
        pairs.unique_seq_to_set();
        assert(pairs.to_set().subset_of(s));
        vstd::set_lib::lemma_subset_equality(pairs.to_set(), s);
        assert forall|a: (usize, usize)| s.contains(a) implies pairs.contains(a) by {
            assert(pairs.to_set().contains(a));
        }
        lemma_listing_weight(arcs, pairs, s);
    }
    total
}

} // verus!
