use vstd::prelude::*;
use crate::algorithms::queue::{first_least, lemma_first_least, Keyed, MinQueue};
use crate::algorithms::reach::{
    components, lemma_closed_set, lemma_reaches_grows, lemma_reaches_self, lemma_reaches_step,
    lemma_same_component, reachable_from, reaches,
};
use crate::fx::{set_contains, set_insert, set_len, set_new, set_remove};
use crate::graph::model::{lemma_edge_at, GraphModel};
use crate::graph::{lemma_listing_covers, lists_vertices, Graph, GraphBase, WeightedEdge, WithID};
use crate::GraphError;
use crate::graph::model::weight_at;
use super::forest::{
    is_chain, joins, lemma_crossing, lemma_linked_back, lemma_linked_grows, lemma_linked_self,
    lemma_linked_step, lemma_linked_trans, linked,
};
use super::kruskal::{lemma_arc_payload_back, subgraph};
use super::lightest::{
    below, lemma_lightest, lemma_spans, lightest_spanning_forest, settled, spanning_forest,
};

verus! {

/// An edge that waits to be taken into a spanning tree, with its weight.
#[derive(Debug, Clone, Copy)]
pub struct EdgeEntry<E> {
    pub weight: i64,
    pub from: usize,
    pub to: usize,
    pub edge: E,
}

impl<E> EdgeEntry<E> {
    pub fn new(weight: i64, from: usize, to: usize, edge: E) -> (e: Self)
        ensures
            e.weight == weight,
            e.from == from,
            e.to == to,
            e.edge == edge,
    {
        EdgeEntry { weight, from, to, edge }
    }
}

impl<E> Keyed for EdgeEntry<E> {
    open spec fn spec_key(&self) -> int {
        self.weight as int
    }

    fn key(&self) -> (k: i128) {
        self.weight as i128
    }
}

/// The entries that wait are arcs of `g` that leave vertices of the tree `t`.
pub open spec fn entry_ok<V: WithID, E: WeightedEdge>(
    e: EdgeEntry<E>,
    t: GraphModel<V, E>,
    g: GraphModel<V, E>,
) -> bool {
    &&& t.has_vertex(e.from)
    &&& g.has_arc(e.from, e.to)
    &&& g.edge(e.from, e.to) == Some(e.edge)
    &&& e.weight == e.edge.spec_weight()
}

/// The arc from `a` to `b` waits.
pub open spec fn arc_waits<E>(q: Seq<EdgeEntry<E>>, a: usize, b: usize) -> bool {
    exists|i: int| 0 <= i < q.len() && (#[trigger] q[i]).from == a && q[i].to == b
}

/// What holds while the tree `t` grows in `g` from `root`: every vertex of the tree
/// is reached from the root, every arc that leaves the tree waits, and the tree has
/// one edge less than vertices.
pub open spec fn growing<V: WithID, E: WeightedEdge>(
    t: GraphModel<V, E>,
    g: GraphModel<V, E>,
    root: usize,
    left: Set<usize>,
    q: Seq<EdgeEntry<E>>,
) -> bool {
    &&& subgraph(t, g)
    &&& t.has_vertex(root)
    &&& left.finite()
    &&& forall|x: usize| #[trigger] left.contains(x) ==> g.has_vertex(x) && !t.has_vertex(x)
    &&& forall|x: usize| #[trigger] g.has_vertex(x) ==> left.contains(x) || t.has_vertex(x)
    &&& forall|x: usize| #[trigger] t.has_vertex(x) ==> reaches(g, root, x) && reaches(t, root, x)
    &&& forall|i: int| 0 <= i < q.len() ==> entry_ok(#[trigger] q[i], t, g)
    &&& forall|a: usize, k: int|
        t.has_vertex(a) && 0 <= k < g.out(a).len() ==> t.has_vertex(#[trigger] g.out(a)[k].0)
            || arc_waits(q, a, g.out(a)[k].0)
    &&& t.edge_count() + 1 == t.vertices.dom().len()
}

impl<Backend: GraphBase> Graph<Backend> where
    Backend::Vertex: Copy,
    Backend::Edge: WeightedEdge + Copy,
 {
    /// Prim's algorithm: a tree grows from the start vertex, which is
    /// `start_vertex_id` or, without it, the first vertex that the graph lists. Of
    /// the edges that lead out of the tree the lightest comes in with its head, as
    /// long as there are any. The result is a tree on the vertices that the start
    /// vertex reaches; an empty graph gives an empty result. Of a connected
    /// undirected graph it is a lightest spanning tree.
    pub fn mst_prim<OutputBackend>(&self, start_vertex_id: Option<usize>) -> (r: Result<
        Graph<OutputBackend>,
        GraphError,
    >) where
        OutputBackend: GraphBase<
            Vertex = Backend::Vertex,
            Edge = Backend::Edge,
            Direction = Backend::Direction,
        >,

        requires
            self.wf(),
        ensures
            match r {
                Ok(t) => {
                    &&& t.wf()
                    &&& subgraph(t.model(), self.model())
                    &&& self.model().vertices.dom().len() == 0 ==> t.model().vertices.dom().len() == 0
                    &&& self.model().vertices.dom().len() > 0 ==> {
                        &&& t.model().edge_count() + 1 == t.model().vertices.dom().len()
                        &&& exists|root: usize|
                            (start_vertex_id is Some ==> root == start_vertex_id->Some_0)
                                && t.model().vertices.dom() == #[trigger] reachable_from(
                                self.model(),
                                root,
                            ) && t.model().vertices.dom() == reachable_from(t.model(), root)
                        &&& !self.model().directed ==> settled(
                            t.model().vertices.dom(),
                            t.model(),
                            self.model(),
                        )
                        &&& !self.model().directed && t.model().vertices.dom()
                            == self.model().vertices.dom() ==> lightest_spanning_forest(
                            t.model(),
                            self.model(),
                        )
                    }
                },
                Err(e) => {
                    if start_vertex_id is Some && !self.model().has_vertex(start_vertex_id->Some_0) {
                        e == GraphError::VertexNotFound(start_vertex_id->Some_0)
                    } else {
                        e is OperationFailed
                    }
                },
            },
            start_vertex_id is Some && !self.model().has_vertex(start_vertex_id->Some_0) ==> r is Err,
            (start_vertex_id is None || self.model().has_vertex(start_vertex_id->Some_0)) && (forall|
                m: GraphModel<Backend::Vertex, Backend::Edge>,
                id: usize,
            | !m.has_vertex(id) ==> #[trigger] OutputBackend::accepts(m, id)) ==> r is Ok,
    {
        let ghost g = self.model();
        proof {
            self.lemma_wf();
        }
        let mut mst_graph = Graph::<OutputBackend>::new();
        let mut edge_pq: MinQueue<EdgeEntry<Backend::Edge>> = MinQueue::new();
        // The start vertex, and the vertices that are still to come in.
        let vertices = self.get_all_vertices();
        let start_id = match start_vertex_id {
            Some(s) => {
                if self.get_vertex_by_id(s).is_none() {
                    return Err(GraphError::VertexNotFound(s));
                }
                s
            },
            None => {
                if vertices.len() == 0 {
                    proof {
                        mst_graph.lemma_wf();
                        assert(mst_graph.model().vertices.dom() =~= Set::empty());
                        assert forall|a: usize, b: usize| !#[trigger] mst_graph.model().has_arc(
                            a,
                            b,
                        ) by {
                            if mst_graph.model().has_arc(a, b) {
                                let c = mst_graph.model().arc_index(a, b);
                                assert(mst_graph.model().arc_at(a, c, b));
                            }
                        }
                    }
                    return Ok(mst_graph);
                }
                vertices[0].get_id()
            },
        };
        let mut remaining_vertices = set_new();
        let mut i: usize = 0;
        while i < vertices.len()
            invariant
                0 <= i <= vertices.len(),
                lists_vertices(vertices@, g),
                remaining_vertices@.finite(),
                forall|x: usize| #[trigger]
                    remaining_vertices@.contains(x) <==> x != start_id && exists|k: int|
                        0 <= k < i && (#[trigger] vertices[k]).spec_id() == x,
            decreases vertices.len() - i,
        {
            let id = vertices[i].get_id();
            if id != start_id {
                set_insert(&mut remaining_vertices, id);
            }
            i += 1;
        }
        let v0 = match self.get_vertex_by_id(start_id) {
            Some(v) => *v,
            None => {
                proof {
                    assert(g.has_vertex(vertices[0].spec_id()));
                }
                assert(false);
                return Ok(mst_graph);
            },
        };
        proof {
            mst_graph.lemma_wf();
            assert(mst_graph.model().vertices.dom() =~= Set::empty());
        }
        match mst_graph.push_vertex(v0) {
            Ok(()) => {},
            Err(e) => {
                return Err(e);
            },
        }
        proof {
            let empty = GraphModel::<Backend::Vertex, Backend::Edge>::empty(g.directed);
            let t = mst_graph.model();
            assert(t == empty.with_vertex(v0));
            assert forall|a: usize| #[trigger] t.out(a) == Seq::<(usize, Backend::Edge)>::empty() by {}
            assert forall|a: usize, b: usize| !#[trigger] t.has_arc(a, b) by {
                if t.has_arc(a, b) {
                    let c = t.arc_index(a, b);
                    assert(t.arc_at(a, c, b));
                    assert(t.out(a) == Seq::<(usize, Backend::Edge)>::empty());
                }
            }
            assert forall|p: (usize, usize)| !t.canonical_arcs().contains(p) by {
                assert(!t.has_arc(p.0, p.1));
            }
            assert(t.canonical_arcs() =~= Set::<(usize, usize)>::empty());
            assert(t.vertices.dom() =~= set![start_id]);
            lemma_reaches_self(g, start_id);
            lemma_reaches_self(t, start_id);
            assert forall|x: usize| #[trigger] g.has_vertex(x) implies remaining_vertices@.contains(x)
                || t.has_vertex(x) by {
                if x != start_id {
                    lemma_listing_covers(vertices@, g, x);
                }
            }
            assert forall|x: usize| #[trigger]
                remaining_vertices@.contains(x) implies g.has_vertex(x) && !t.has_vertex(x) by {
                let k = choose|k: int|
                    0 <= k < vertices.len() && (#[trigger] vertices[k]).spec_id() == x;
                assert(g.has_vertex(vertices[k].spec_id()));
            }
            assert forall|x: usize, y: usize, w: int|
                t.vertices.dom().contains(x) && t.vertices.dom().contains(y) && #[trigger] linked(
                    below(g.arcs, g.canonical_arcs(), w),
                    x,
                    y,
                ) implies linked(below(g.arcs, t.canonical_arcs(), w), x, y) by {
                lemma_linked_self(below(g.arcs, t.canonical_arcs(), w), x);
            }
        }
        // The arcs of the start vertex wait.
        self.push_arcs(&mut edge_pq, start_id, &remaining_vertices, Ghost(mst_graph.model()), Ghost(start_id));
        // Grow the tree while vertices are left and an arc leads out of it.
        let mut searching = true;
        while searching
            invariant
                self.wf(),
                g == self.model(),
                g.valid(),
                mst_graph.wf(),
                mst_graph.model().directed == g.directed,
                growing(mst_graph.model(), g, start_id, remaining_vertices@, edge_pq@),
                start_vertex_id is Some ==> start_vertex_id->Some_0 == start_id,
                g.has_vertex(start_id),
                !searching ==> remaining_vertices@.len() == 0 || edge_pq@.len() == 0,
                !g.directed ==> settled(mst_graph.model().vertices.dom(), mst_graph.model(), g),
            decreases remaining_vertices@.len(), edge_pq@.len(), (if searching { 1int } else { 0int }),
        {
            let ghost t = mst_graph.model();
            let ghost waiting = edge_pq@;
            let ghost left = remaining_vertices@;
            if set_len(&remaining_vertices) == 0 {
                searching = false;
            } else {
                match edge_pq.pop() {
                    None => {
                        searching = false;
                    },
                    Some(cheapest) => {
                        let ghost at = first_least(waiting);
                        proof {
                            lemma_first_least(waiting);
                            mst_graph.lemma_wf();
                            assert(entry_ok(waiting[at], t, g));
                            lemma_popped(t, g, start_id, remaining_vertices@, waiting, at);
                        }
                        if set_remove(&mut remaining_vertices, cheapest.to) {
                            // The head of the arc comes in with the arc.
                            let head = match self.get_vertex_by_id(cheapest.to) {
                                Some(v) => *v,
                                None => {
                                    assert(false);
                                    return Ok(mst_graph);
                                },
                            };
                            proof {
                                t.lemma_with_vertex(head);
                            }
                            match mst_graph.push_vertex(head) {
                                Ok(()) => {},
                                Err(e) => {
                                    return Err(e);
                                },
                            }
                            let ghost mid = mst_graph.model();
                            proof {
                                mst_graph.lemma_wf();
                                if t.has_arc(cheapest.from, cheapest.to) {
                                    crate::algorithms::reach::lemma_reaches_vertex_arc(
                                        t,
                                        cheapest.from,
                                        cheapest.to,
                                    );
                                }
                                assert(!mid.has_arc(cheapest.from, cheapest.to));
                                assert(cheapest.from != cheapest.to);
                                assert(t.vertices.dom().len() <= g.vertices.dom().len()) by {
                                    assert forall|x: usize|
                                        t.vertices.dom().contains(x) implies g.vertices.dom().contains(
                                        x,
                                    ) by {
                                        assert(t.has_vertex(x));
                                    }
                                    assert(t.vertices.dom().subset_of(g.vertices.dom()));
                                    vstd::set_lib::lemma_len_subset(
                                        t.vertices.dom(),
                                        g.vertices.dom(),
                                    );
                                }
                            }
                            let limit = self.vertex_count();
                            proof {
                                assert(mid.has_vertex(cheapest.from) && mid.has_vertex(cheapest.to));
                                assert(mid.edge_count() == t.edge_count());
                                assert(mid.edge_count() < limit);
                            }
                            match mst_graph.push_edge(cheapest.from, cheapest.to, cheapest.edge) {
                                Ok(()) => {},
                                Err(e) => {
                                    assert(false);
                                    return Err(e);
                                },
                            }
                            proof {
                                lemma_grown(
                                    t,
                                    mid,
                                    mst_graph.model(),
                                    g,
                                    start_id,
                                    remaining_vertices@.insert(cheapest.to),
                                    edge_pq@,
                                    cheapest,
                                    head,
                                );
                                if !g.directed {
                                    let after = mst_graph.model();
                                    lemma_lightest_crossing(t, g, start_id, left, waiting);
                                    after.lemma_adds_edge(mid, cheapest.from, cheapest.to, cheapest.edge);
                                    assert(after.vertices.dom() =~= t.vertices.dom().insert(cheapest.to));
                                    assert(mid.canonical_arcs() =~= t.canonical_arcs());
                                    lemma_grown_settled(t, after, g, cheapest.from, cheapest.to);
                                }
                            }
                            self.push_arcs(
                                &mut edge_pq,
                                cheapest.to,
                                &remaining_vertices,
                                Ghost(mst_graph.model()),
                                Ghost(start_id),
                            );
                        }
                    },
                }
            }
        }
        proof {
            let t = mst_graph.model();
            assert(t.vertices.dom() =~= reachable_from(g, start_id)) by {
                assert forall|x: usize| t.vertices.dom().contains(x) <==> reaches(g, start_id, x) by {
                    if reaches(g, start_id, x) {
                        if remaining_vertices@.len() == 0 {
                            crate::algorithms::reach::lemma_reaches_vertex(g, start_id, x);
                            assert(g.has_vertex(x));
                            if remaining_vertices@.contains(x) {
                                vstd::set_lib::lemma_len_subset(set![x], remaining_vertices@);
                            }
                        } else {
                            assert forall|u: usize, w: usize|
                                t.vertices.dom().contains(u) && #[trigger] g.has_arc(
                                    u,
                                    w,
                                ) implies t.vertices.dom().contains(w) by {
                                let k = g.arc_index(u, w);
                                assert(g.arc_at(u, k, w));
                                assert(t.has_vertex(g.out(u)[k].0) || arc_waits(
                                    edge_pq@,
                                    u,
                                    g.out(u)[k].0,
                                ));
                            }
                            lemma_closed_set(g, t.vertices.dom(), start_id, x);
                        }
                    }
                    if t.has_vertex(x) {
                        assert(reaches(g, start_id, x));
                    }
                }
            }
            assert(g.vertices.dom().len() > 0) by {
                vstd::set_lib::lemma_len_subset(set![start_id], g.vertices.dom());
            }
            mst_graph.lemma_wf();
            assert(t.vertices.dom() =~= reachable_from(t, start_id)) by {
                assert forall|x: usize| t.vertices.dom().contains(x) <==> reaches(t, start_id, x) by {
                    if reaches(t, start_id, x) {
                        crate::algorithms::reach::lemma_reaches_vertex(t, start_id, x);
                    }
                    if t.has_vertex(x) {
                        assert(reaches(t, start_id, x));
                    }
                }
            }
            if !g.directed && t.vertices.dom() == g.vertices.dom() {
                lemma_tree_lightest(t, g, start_id);
            }
        }
        Ok(mst_graph)
    }

    /// Makes the arcs wait that lead from `from`, a vertex of the tree, to vertices
    /// that are still to come in.
    fn push_arcs(
        &self,
        edge_pq: &mut MinQueue<EdgeEntry<Backend::Edge>>,
        from: usize,
        remaining_vertices: &rustc_hash::FxHashSet<usize>,
        Ghost(t): Ghost<GraphModel<Backend::Vertex, Backend::Edge>>,
        Ghost(root): Ghost<usize>,
    )
        requires
            self.wf(),
            self.model().valid(),
            t.has_vertex(from),
            growing_but(t, self.model(), root, remaining_vertices@, old(edge_pq)@, from),
        ensures
            growing(t, self.model(), root, remaining_vertices@, final(edge_pq)@),
    {
        let ghost g = self.model();
        let adj = self.get_adjacent_vertices_with_edges(from);
        let mut k: usize = 0;
        while k < adj.len()
            invariant
                0 <= k <= adj.len(),
                self.wf(),
                g == self.model(),
                g.valid(),
                t.has_vertex(from),
                adj.len() == g.out(from).len(),
                forall|j: int|
                    0 <= j < adj.len() ==> {
                        let arc = g.out(from)[j];
                        *(#[trigger] adj[j]).0 == g.vertices[arc.0] && *adj[j].1 == arc.1
                    },
                growing_but(t, g, root, remaining_vertices@, edge_pq@, from),
                forall|j: int|
                    0 <= j < k ==> t.has_vertex(#[trigger] g.out(from)[j].0) || arc_waits(
                        edge_pq@,
                        from,
                        g.out(from)[j].0,
                    ),
            decreases adj.len() - k,
        {
            let neighbor_id = adj[k].0.get_id();
            let ghost before = edge_pq@;
            proof {
                assert(g.has_vertex(g.out(from)[k as int].0));
                assert(neighbor_id == g.out(from)[k as int].0);
                lemma_edge_at(g.arcs, from, k as int);
            }
            if set_contains(remaining_vertices, neighbor_id) {
                let next_edge = *adj[k].1;
                edge_pq.push(EdgeEntry::new(next_edge.get_weight(), from, neighbor_id, next_edge));
                proof {
                    let q = edge_pq@;
                    assert(q[before.len() as int].from == from && q[before.len() as int].to
                        == neighbor_id);
                    assert(arc_waits(q, from, neighbor_id));
                    lemma_more_waits(t, g, root, remaining_vertices@, before, q, from);
                    assert forall|j: int| 0 <= j < k implies t.has_vertex(
                        #[trigger] g.out(from)[j].0,
                    ) || arc_waits(q, from, g.out(from)[j].0) by {
                        let b = g.out(from)[j].0;
                        if arc_waits(before, from, b) {
                            let i = choose|i: int|
                                0 <= i < before.len() && (#[trigger] before[i]).from == from
                                    && before[i].to == b;
                            assert(q[i] == before[i]);
                        }
                    }
                }
            }
            k += 1;
        }
    }
}

/// As `growing`, but for the arcs that leave `from`, which need not wait yet.
pub open spec fn growing_but<V: WithID, E: WeightedEdge>(
    t: GraphModel<V, E>,
    g: GraphModel<V, E>,
    root: usize,
    left: Set<usize>,
    q: Seq<EdgeEntry<E>>,
    from: usize,
) -> bool {
    &&& subgraph(t, g)
    &&& t.has_vertex(root)
    &&& left.finite()
    &&& forall|x: usize| #[trigger] left.contains(x) ==> g.has_vertex(x) && !t.has_vertex(x)
    &&& forall|x: usize| #[trigger] g.has_vertex(x) ==> left.contains(x) || t.has_vertex(x)
    &&& forall|x: usize| #[trigger] t.has_vertex(x) ==> reaches(g, root, x) && reaches(t, root, x)
    &&& forall|i: int| 0 <= i < q.len() ==> entry_ok(#[trigger] q[i], t, g)
    &&& forall|a: usize, k: int|
        t.has_vertex(a) && a != from && 0 <= k < g.out(a).len() ==> t.has_vertex(
            #[trigger] g.out(a)[k].0,
        ) || arc_waits(q, a, g.out(a)[k].0)
    &&& t.edge_count() + 1 == t.vertices.dom().len()
}

/// One more entry that waits keeps what holds.
pub proof fn lemma_more_waits<V: WithID, E: WeightedEdge>(
    t: GraphModel<V, E>,
    g: GraphModel<V, E>,
    root: usize,
    left: Set<usize>,
    before: Seq<EdgeEntry<E>>,
    after: Seq<EdgeEntry<E>>,
    from: usize,
)
    requires
        growing_but(t, g, root, left, before, from),
        after.len() == before.len() + 1,
        forall|i: int| 0 <= i < before.len() ==> after[i] == before[i],
        entry_ok(after[before.len() as int], t, g),
    ensures
        growing_but(t, g, root, left, after, from),
{
    assert forall|i: int| 0 <= i < after.len() implies entry_ok(#[trigger] after[i], t, g) by {
        if i < before.len() {
            assert(entry_ok(before[i], t, g));
        }
    }
    assert forall|a: usize, k: int|
        t.has_vertex(a) && a != from && 0 <= k < g.out(a).len() implies t.has_vertex(
        #[trigger] g.out(a)[k].0,
    ) || arc_waits(after, a, g.out(a)[k].0) by {
        let b = g.out(a)[k].0;
        if arc_waits(before, a, b) {
            let i = choose|i: int|
                0 <= i < before.len() && (#[trigger] before[i]).from == a && before[i].to == b;
            assert(after[i] == before[i]);
        }
    }
}

/// The entry at `at` is taken out. Where its head is in the tree already, nothing
/// else changes.
pub proof fn lemma_popped<V: WithID, E: WeightedEdge>(
    t: GraphModel<V, E>,
    g: GraphModel<V, E>,
    root: usize,
    left: Set<usize>,
    q: Seq<EdgeEntry<E>>,
    at: int,
)
    requires
        g.valid(),
        growing(t, g, root, left, q),
        0 <= at < q.len(),
    ensures
        !left.contains(q[at].to) ==> growing(t, g, root, left, q.remove(at)),
        left.contains(q[at].to) ==> forall|i: int|
            0 <= i < q.remove(at).len() ==> entry_ok(#[trigger] q.remove(at)[i], t, g),
        left.contains(q[at].to) ==> forall|a: usize, k: int|
            t.has_vertex(a) && 0 <= k < g.out(a).len() ==> t.has_vertex(#[trigger] g.out(a)[k].0)
                || g.out(a)[k].0 == q[at].to || arc_waits(q.remove(at), a, g.out(a)[k].0),
{
    let rest = q.remove(at);
    assert(entry_ok(q[at], t, g));
    crate::algorithms::reach::lemma_reaches_vertex_arc(g, q[at].from, q[at].to);
    assert forall|i: int| 0 <= i < rest.len() implies entry_ok(#[trigger] rest[i], t, g) by {
        let i0 = if i < at {
            i
        } else {
            i + 1
        };
        assert(rest[i] == q[i0]);
        assert(entry_ok(q[i0], t, g));
    }
    assert forall|a: usize, k: int|
        t.has_vertex(a) && 0 <= k < g.out(a).len() implies t.has_vertex(#[trigger] g.out(a)[k].0)
        || g.out(a)[k].0 == q[at].to || arc_waits(rest, a, g.out(a)[k].0) by {
        let b = g.out(a)[k].0;
        if !t.has_vertex(b) && b != q[at].to {
            assert(arc_waits(q, a, b));
            let i0 = choose|i: int| 0 <= i < q.len() && (#[trigger] q[i]).from == a && q[i].to == b;
            let i = if i0 < at {
                i0
            } else {
                i0 - 1
            };
            assert(rest[i] == q[i0]);
        }
    }
    if !left.contains(q[at].to) {
        assert(t.has_vertex(q[at].to));
    }
}

/// The head of the lightest arc that leaves the tree has come in with the arc.
pub proof fn lemma_grown<V: WithID, E: WeightedEdge>(
    t: GraphModel<V, E>,
    mid: GraphModel<V, E>,
    after: GraphModel<V, E>,
    g: GraphModel<V, E>,
    root: usize,
    left: Set<usize>,
    rest: Seq<EdgeEntry<E>>,
    taken: EdgeEntry<E>,
    head: V,
)
    requires
        g.valid(),
        t.valid(),
        mid.valid(),
        subgraph(t, g),
        t.has_vertex(root),
        left.finite(),
        forall|x: usize| #[trigger] left.contains(x) ==> g.has_vertex(x) && !t.has_vertex(x),
        forall|x: usize| #[trigger] g.has_vertex(x) ==> left.contains(x) || t.has_vertex(x),
        forall|x: usize| #[trigger] t.has_vertex(x) ==> reaches(g, root, x) && reaches(t, root, x),
        t.edge_count() + 1 == t.vertices.dom().len(),
        entry_ok(taken, t, g),
        left.contains(taken.to),
        head == g.vertices[taken.to],
        head.spec_id() == taken.to,
        mid == t.with_vertex(head),
        after.adds_edge(mid, taken.from, taken.to, taken.edge),
        forall|i: int| 0 <= i < rest.len() ==> entry_ok(#[trigger] rest[i], t, g),
        forall|a: usize, k: int|
            t.has_vertex(a) && 0 <= k < g.out(a).len() ==> t.has_vertex(#[trigger] g.out(a)[k].0)
                || g.out(a)[k].0 == taken.to || arc_waits(rest, a, g.out(a)[k].0),
    ensures
        growing_but(after, g, root, left.remove(taken.to), rest, taken.to),
{
    t.lemma_with_vertex(head);
    if t.has_arc(taken.from, taken.to) {
        crate::algorithms::reach::lemma_reaches_vertex_arc(t, taken.from, taken.to);
    }
    assert(!mid.has_arc(taken.from, taken.to));
    assert(taken.from != taken.to);
    after.lemma_adds_edge(mid, taken.from, taken.to, taken.edge);
    if !g.directed {
        super::kruskal::lemma_arc_payload_back(g, taken.from, taken.to);
    }
    assert(after.vertices.dom() =~= t.vertices.dom().insert(taken.to));
    assert forall|a: usize, b: usize| #[trigger] after.has_arc(a, b) implies g.has_arc(a, b)
        && after.edge(a, b) == g.edge(a, b) by {
        if mid.has_arc(a, b) {
            assert(t.has_arc(a, b));
            assert(after.edge(a, b) == mid.edge(a, b));
            assert(mid.edge(a, b) == t.edge(a, b));
        }
    }
    lemma_reaches_step(g, root, taken.from, taken.to);
    assert forall|i: int| 0 <= i < rest.len() implies entry_ok(#[trigger] rest[i], after, g) by {
        assert(entry_ok(rest[i], t, g));
    }
    let left2 = left.remove(taken.to);
    assert forall|id: usize| #[trigger] after.has_vertex(id) implies g.has_vertex(id)
        && after.vertices[id] == g.vertices[id] by {
        if id != taken.to {
            assert(t.has_vertex(id));
        }
    }
    assert forall|x: usize| #[trigger] left2.contains(x) implies g.has_vertex(x) && !after.has_vertex(
        x,
    ) by {
        assert(left.contains(x));
    }
    assert forall|x: usize| #[trigger] g.has_vertex(x) implies left2.contains(x) || after.has_vertex(
        x,
    ) by {}
    assert forall|u: usize, w: usize| #[trigger] t.has_arc(u, w) implies after.has_arc(u, w) by {
        assert(mid.has_arc(u, w));
    }
    lemma_reaches_grows(t, after, root, taken.from);
    lemma_reaches_step(after, root, taken.from, taken.to);
    assert forall|x: usize| #[trigger] after.has_vertex(x) implies reaches(g, root, x) && reaches(
        after,
        root,
        x,
    ) by {
        if x != taken.to {
            assert(t.has_vertex(x));
            lemma_reaches_grows(t, after, root, x);
        }
    }
    assert forall|a: usize, k: int|
        after.has_vertex(a) && a != taken.to && 0 <= k < g.out(a).len() implies after.has_vertex(
        #[trigger] g.out(a)[k].0,
    ) || arc_waits(rest, a, g.out(a)[k].0) by {
        assert(t.has_vertex(a));
        assert(t.has_vertex(g.out(a)[k].0) || g.out(a)[k].0 == taken.to || arc_waits(
            rest,
            a,
            g.out(a)[k].0,
        ));
    }
    assert(subgraph(after, g));
}

/// The lightest entry that waits is no heavier than any arc that leaves the tree.
pub proof fn lemma_lightest_crossing<V: WithID, E: WeightedEdge>(
    t: GraphModel<V, E>,
    g: GraphModel<V, E>,
    root: usize,
    left: Set<usize>,
    q: Seq<EdgeEntry<E>>,
)
    requires
        g.valid(),
        growing(t, g, root, left, q),
        q.len() > 0,
    ensures
        forall|a: usize, b: usize|
            t.has_vertex(a) && !t.has_vertex(b) && #[trigger] g.has_arc(a, b) ==> q[first_least(
                q,
            )].weight <= weight_at(g.arcs, (a, b)),
{
    lemma_first_least(q);
    assert forall|a: usize, b: usize| t.has_vertex(a) && !t.has_vertex(b) && #[trigger] g.has_arc(
        a,
        b,
    ) implies q[first_least(q)].weight <= weight_at(g.arcs, (a, b)) by {
        let k = g.arc_index(a, b);
        assert(g.arc_at(a, k, b));
        assert(t.has_vertex(g.out(a)[k].0) || arc_waits(q, a, g.out(a)[k].0));
        let i = choose|i: int| 0 <= i < q.len() && (#[trigger] q[i]).from == a && q[i].to == b;
        assert(entry_ok(q[i], t, g));
        assert(q[first_least(q)].spec_key() <= q[i].spec_key());
    }
}

/// A vertex that has come into the tree over the lightest arc that leaves it is
/// linked in the tree, by edges of a weight or less, to what it is linked to in the
/// graph by such edges.
proof fn lemma_head_settled<V: WithID, E: WeightedEdge>(
    t: GraphModel<V, E>,
    after: GraphModel<V, E>,
    g: GraphModel<V, E>,
    u: usize,
    v: usize,
    y: usize,
    w: int,
)
    requires
        g.valid(),
        !g.directed,
        t.has_vertex(u),
        !t.has_vertex(v),
        g.has_arc(u, v),
        after.canonical_arcs() == t.canonical_arcs().insert(
            if u <= v {
                (u, v)
            } else {
                (v, u)
            },
        ),
        settled(t.vertices.dom(), t, g),
        forall|a: usize, b: usize|
            t.has_vertex(a) && !t.has_vertex(b) && #[trigger] g.has_arc(a, b) ==> weight_at(
                g.arcs,
                (u, v),
            ) <= weight_at(g.arcs, (a, b)),
        t.has_vertex(y),
        linked(below(g.arcs, g.canonical_arcs(), w), v, y),
    ensures
        linked(below(g.arcs, after.canonical_arcs(), w), v, y),
{
    let gw = below(g.arcs, g.canonical_arcs(), w);
    let tw = below(g.arcs, t.canonical_arcs(), w);
    let aw = below(g.arcs, after.canonical_arcs(), w);
    let key = if u <= v {
        (u, v)
    } else {
        (v, u)
    };
    let p = choose|p: Seq<usize>| #[trigger] is_chain(gw, p) && p[0] == v && p.last() == y;
    let i = lemma_crossing(gw, p, t.vertices.dom(), p.len() - 1);
    let a = p[i + 1];
    let b = p[i];
    assert(joins(gw, p[i], p[i + 1]));
    let e = if gw.contains((b, a)) {
        (b, a)
    } else {
        (a, b)
    };
    assert(g.has_arc(e.0, e.1));
    lemma_arc_payload_back(g, e.0, e.1);
    assert(weight_at(g.arcs, (a, b)) == weight_at(g.arcs, e));
    assert(g.has_arc(a, b));
    lemma_arc_payload_back(g, u, v);
    assert(weight_at(g.arcs, key) == weight_at(g.arcs, (u, v)));
    assert(gw.contains(key));
    assert(aw.contains(key));
    lemma_linked_self(gw, u);
    lemma_linked_step(gw, u, u, v);
    lemma_linked_trans(gw, u, v, y);
    assert(linked(tw, u, y));
    assert(tw.subset_of(aw));
    lemma_linked_grows(tw, aw, u, y);
    lemma_linked_self(aw, v);
    lemma_linked_step(aw, v, v, u);
    lemma_linked_trans(aw, v, u, y);
}

/// The tree stays settled when the lightest arc that leaves it comes in with its
/// head.
pub proof fn lemma_grown_settled<V: WithID, E: WeightedEdge>(
    t: GraphModel<V, E>,
    after: GraphModel<V, E>,
    g: GraphModel<V, E>,
    u: usize,
    v: usize,
)
    requires
        g.valid(),
        !g.directed,
        t.has_vertex(u),
        !t.has_vertex(v),
        g.has_arc(u, v),
        after.vertices.dom() == t.vertices.dom().insert(v),
        after.canonical_arcs() == t.canonical_arcs().insert(
            if u <= v {
                (u, v)
            } else {
                (v, u)
            },
        ),
        settled(t.vertices.dom(), t, g),
        forall|a: usize, b: usize|
            t.has_vertex(a) && !t.has_vertex(b) && #[trigger] g.has_arc(a, b) ==> weight_at(
                g.arcs,
                (u, v),
            ) <= weight_at(g.arcs, (a, b)),
    ensures
        settled(after.vertices.dom(), after, g),
{
    assert forall|x: usize, y: usize, w: int|
        after.vertices.dom().contains(x) && after.vertices.dom().contains(y) && #[trigger] linked(
            below(g.arcs, g.canonical_arcs(), w),
            x,
            y,
        ) implies linked(below(g.arcs, after.canonical_arcs(), w), x, y) by {
        let gw = below(g.arcs, g.canonical_arcs(), w);
        let tw = below(g.arcs, t.canonical_arcs(), w);
        let aw = below(g.arcs, after.canonical_arcs(), w);
        if x == y {
            lemma_linked_self(aw, x);
        } else if x == v {
            assert(t.has_vertex(y));
            lemma_head_settled(t, after, g, u, v, y, w);
        } else if y == v {
            assert(t.has_vertex(x));
            lemma_linked_back(gw, x, v);
            lemma_head_settled(t, after, g, u, v, x, w);
            lemma_linked_back(aw, v, x);
        } else {
            assert(t.vertices.dom().contains(x) && t.vertices.dom().contains(y));
            assert(linked(tw, x, y));
            assert(tw.subset_of(aw));
            lemma_linked_grows(tw, aw, x, y);
        }
    }
}

/// A settled tree on all the vertices of an undirected graph is a lightest spanning
/// forest of it.
pub proof fn lemma_tree_lightest<V: WithID, E: WeightedEdge>(
    t: GraphModel<V, E>,
    g: GraphModel<V, E>,
    root: usize,
)
    requires
        g.valid(),
        t.valid(),
        !g.directed,
        subgraph(t, g),
        t.vertices.dom() == g.vertices.dom(),
        t.vertices.dom() == reachable_from(t, root),
        t.has_vertex(root),
        t.edge_count() + 1 == t.vertices.dom().len(),
        settled(t.vertices.dom(), t, g),
    ensures
        lightest_spanning_forest(t, g),
{
    assert(t.vertices =~= g.vertices) by {
        assert forall|id: usize| t.vertices.dom().contains(id) implies t.vertices[id] == g.vertices[id] by {
            assert(t.has_vertex(id));
        }
    }
    lemma_spans(t, g);
    let whole = reachable_from(t, root);
    assert(components(t) =~= set![whole]) by {
        assert forall|k: Set<usize>| components(t).contains(k) <==> set![whole].contains(k) by {
            if components(t).contains(k) {
                let x = choose|x: usize| t.has_vertex(x) && k == #[trigger] reachable_from(t, x);
                assert(whole.contains(x));
                lemma_same_component(t, root, x);
            }
        }
    }
    assert forall|other: GraphModel<V, E>| #[trigger] spanning_forest(other, g) implies t.total_weight()
        <= other.total_weight() by {
        lemma_lightest(t, g, other);
    }
}

} // verus!
