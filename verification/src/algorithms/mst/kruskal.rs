use vstd::prelude::*;
use crate::algorithms::queue::{first_least, lemma_first_least, Keyed, MinQueue};
use crate::graph::model::{weight_at, GraphModel};
use crate::graph::{
    lemma_edges_cover, lemma_listing_covers, lists_edges, lists_vertices, Graph, GraphBase,
    WeightedEdge, WithID,
};
use crate::GraphError;
use super::forest::{
    classes, lemma_classes_alone, lemma_classes_finite, lemma_classes_insert, lemma_linked_alone,
    lemma_linked_back, lemma_linked_grows, lemma_linked_insert, lemma_linked_self,
    lemma_linked_step, lemma_one_class, linked,
};
use super::lightest::{
    below, edge_settled, lemma_components_classes, lemma_lightest, lemma_settled, lemma_spans,
    lightest_spanning_forest, settled, spanning_forest,
};
use super::prim::{arc_waits, EdgeEntry};
use super::union_find::UnionFind;

verus! {

/// `t` is a part of `g`: its vertices are vertices of `g`, and its arcs are arcs of
/// `g`, each with the payload that it has there.
pub open spec fn subgraph<V: WithID, E>(t: GraphModel<V, E>, g: GraphModel<V, E>) -> bool {
    &&& t.directed == g.directed
    &&& forall|id: usize| #[trigger]
        t.has_vertex(id) ==> g.has_vertex(id) && t.vertices[id] == g.vertices[id]
    &&& forall|a: usize, b: usize| #[trigger]
        t.has_arc(a, b) ==> g.has_arc(a, b) && t.edge(a, b) == g.edge(a, b)
}

/// In an undirected graph an arc and its reverse carry the same payload.
pub proof fn lemma_arc_payload_back<V: WithID, E>(m: GraphModel<V, E>, u: usize, w: usize)
    requires
        m.valid(),
        !m.directed,
        m.has_arc(u, w),
    ensures
        m.has_arc(w, u),
        m.edge(w, u) == m.edge(u, w),
{
    let k = m.arc_index(u, w);
    assert(m.arc_at(u, k, w));
    crate::graph::model::lemma_edge_at(m.arcs, u, k);
    let arc = m.out(u)[k];
    assert(m.edge(arc.0, u) == Some(arc.1));
}

/// The entry is an edge of `g`, with its payload and its weight.
pub open spec fn entry_of<V: WithID, E: WeightedEdge>(x: EdgeEntry<E>, g: GraphModel<V, E>) -> bool {
    &&& g.canonical_arcs().contains((x.from, x.to))
    &&& g.edge(x.from, x.to) == Some(x.edge)
    &&& x.weight == x.edge.spec_weight()
}

/// What holds while the edges of `g` are sifted, with the edges `c` taken and the
/// entries `q` waiting: every edge of `g` waits or is settled by what was taken, and
/// nothing that was taken is heavier than anything that waits.
pub open spec fn sifting<V: WithID, E: WeightedEdge>(
    g: GraphModel<V, E>,
    c: Set<(usize, usize)>,
    q: Seq<EdgeEntry<E>>,
) -> bool {
    &&& forall|k: int| 0 <= k < q.len() ==> entry_of(#[trigger] q[k], g)
    &&& forall|e: (usize, usize)| #[trigger]
        g.canonical_arcs().contains(e) ==> arc_waits(q, e.0, e.1) || edge_settled(g.arcs, c, e)
    &&& forall|e: (usize, usize), k: int| #[trigger]
        c.contains(e) && 0 <= k < q.len() ==> weight_at(g.arcs, e) <= (#[trigger] q[k]).weight
}

/// The sets hold together what the edges `c` link.
pub open spec fn sets_follow(sets: UnionFind, v: Set<usize>, c: Set<(usize, usize)>) -> bool {
    forall|x: usize, y: usize|
        v.contains(x) && v.contains(y) ==> (#[trigger] sets.same_set(x, y) <==> linked(c, x, y))
}

/// The lightest entry is left out where its ends are linked already.
pub proof fn lemma_sift_skip<V: WithID, E: WeightedEdge>(
    g: GraphModel<V, E>,
    c: Set<(usize, usize)>,
    q: Seq<EdgeEntry<E>>,
)
    requires
        sifting(g, c, q),
        q.len() > 0,
        linked(c, q[first_least(q)].from, q[first_least(q)].to),
    ensures
        sifting(g, c, q.remove(first_least(q))),
{
    lemma_first_least(q);
    let at = first_least(q);
    let r = q.remove(at);
    assert forall|k: int| 0 <= k < r.len() implies entry_of(#[trigger] r[k], g) by {
        assert(r[k] == q[if k < at { k } else { k + 1 }]);
    }
    assert forall|e: (usize, usize), k: int| #[trigger] c.contains(e) && 0 <= k < r.len() implies weight_at(
        g.arcs,
        e,
    ) <= (#[trigger] r[k]).weight by {
        assert(r[k] == q[if k < at { k } else { k + 1 }]);
    }
    assert forall|e: (usize, usize)| #[trigger] g.canonical_arcs().contains(e) implies arc_waits(
        r,
        e.0,
        e.1,
    ) || edge_settled(g.arcs, c, e) by {
        if !edge_settled(g.arcs, c, e) {
            let k = choose|k: int| 0 <= k < q.len() && (#[trigger] q[k]).from == e.0 && q[k].to == e.1;
            if k == at {
                assert(entry_of(q[at], g));
                assert(below(g.arcs, c, weight_at(g.arcs, e)) =~= c) by {
                    assert forall|x: (usize, usize)| c.contains(x) implies weight_at(g.arcs, x)
                        <= weight_at(g.arcs, e) by {
                        assert(weight_at(g.arcs, x) <= q[at].weight);
                    }
                }
            } else {
                let j = if k < at {
                    k
                } else {
                    k - 1
                };
                assert(r[j] == q[k]);
            }
        }
    }
}

/// The lightest entry is taken.
pub proof fn lemma_sift_take<V: WithID, E: WeightedEdge>(
    g: GraphModel<V, E>,
    c: Set<(usize, usize)>,
    q: Seq<EdgeEntry<E>>,
)
    requires
        sifting(g, c, q),
        q.len() > 0,
    ensures
        sifting(g, c.insert((q[first_least(q)].from, q[first_least(q)].to)), q.remove(first_least(q))),
{
    lemma_first_least(q);
    let at = first_least(q);
    let r = q.remove(at);
    let taken = (q[at].from, q[at].to);
    let d = c.insert(taken);
    assert(entry_of(q[at], g));
    assert forall|k: int| 0 <= k < r.len() implies entry_of(#[trigger] r[k], g) by {
        assert(r[k] == q[if k < at { k } else { k + 1 }]);
    }
    assert forall|e: (usize, usize), k: int| #[trigger] d.contains(e) && 0 <= k < r.len() implies weight_at(
        g.arcs,
        e,
    ) <= (#[trigger] r[k]).weight by {
        let k0 = if k < at {
            k
        } else {
            k + 1
        };
        assert(r[k] == q[k0]);
        if e == taken {
            assert(q[at].spec_key() <= q[k0].spec_key());
        } else {
            assert(c.contains(e));
        }
    }
    assert forall|e: (usize, usize)| #[trigger] g.canonical_arcs().contains(e) implies arc_waits(
        r,
        e.0,
        e.1,
    ) || edge_settled(g.arcs, d, e) by {
        let low = below(g.arcs, d, weight_at(g.arcs, e));
        if edge_settled(g.arcs, c, e) {
            assert(below(g.arcs, c, weight_at(g.arcs, e)).subset_of(low));
            lemma_linked_grows(below(g.arcs, c, weight_at(g.arcs, e)), low, e.0, e.1);
        } else {
            let k = choose|k: int| 0 <= k < q.len() && (#[trigger] q[k]).from == e.0 && q[k].to == e.1;
            if k == at {
                assert(low.contains(e));
                lemma_linked_self(low, e.0);
                lemma_linked_step(low, e.0, e.0, e.1);
            } else {
                let j = if k < at {
                    k
                } else {
                    k - 1
                };
                assert(r[j] == q[k]);
            }
        }
    }
}

/// When nothing waits any more, or the vertices make one class, every edge is
/// settled.
pub proof fn lemma_sift_end<V: WithID, E: WeightedEdge>(
    g: GraphModel<V, E>,
    c: Set<(usize, usize)>,
    q: Seq<EdgeEntry<E>>,
)
    requires
        g.valid(),
        sifting(g, c, q),
        q.len() == 0 || classes(g.vertices.dom(), c).len() <= 1,
    ensures
        forall|e: (usize, usize)| #[trigger] g.canonical_arcs().contains(e) ==> edge_settled(g.arcs, c, e),
{
    assert forall|e: (usize, usize)| #[trigger] g.canonical_arcs().contains(e) implies edge_settled(
        g.arcs,
        c,
        e,
    ) by {
        if !edge_settled(g.arcs, c, e) {
            let k = choose|k: int| 0 <= k < q.len() && (#[trigger] q[k]).from == e.0 && q[k].to == e.1;
            assert(entry_of(q[k], g));
            assert(below(g.arcs, c, weight_at(g.arcs, e)) =~= c) by {
                assert forall|x: (usize, usize)| c.contains(x) implies weight_at(g.arcs, x) <= weight_at(
                    g.arcs,
                    e,
                ) by {
                    assert(weight_at(g.arcs, x) <= q[k].weight);
                }
            }
            crate::algorithms::reach::lemma_reaches_vertex_arc(g, e.0, e.1);
            lemma_one_class(g.vertices.dom(), c, e.0, e.1);
        }
    }
}

/// A union that merged the sets of `a` and `b` follows the edge between them.
pub proof fn lemma_follow_take(
    before: UnionFind,
    after: UnionFind,
    v: Set<usize>,
    c: Set<(usize, usize)>,
    a: usize,
    b: usize,
)
    requires
        before.wf(),
        before.elements() == v,
        after.elements() == v,
        v.contains(a),
        v.contains(b),
        sets_follow(before, v, c),
        forall|w: usize|
            v.contains(w) ==> #[trigger] after.rep(w) == (if before.same_set(w, a) || before.same_set(
                w,
                b,
            ) {
                before.merged_rep(a, b)
            } else {
                before.rep(w)
            }),
    ensures
        sets_follow(after, v, c.insert((a, b))),
{
    assert forall|x: usize, y: usize| v.contains(x) && v.contains(y) implies (#[trigger] after.same_set(
        x,
        y,
    ) <==> linked(c.insert((a, b)), x, y)) by {
        before.lemma_union_joins(after, a, b, x, y);
        lemma_linked_insert(c, a, b, x, y);
        assert(before.same_set(x, y) <==> linked(c, x, y));
        assert(before.same_set(x, a) <==> linked(c, x, a));
        assert(before.same_set(x, b) <==> linked(c, x, b));
        assert(before.same_set(y, a) <==> linked(c, y, a));
        assert(before.same_set(y, b) <==> linked(c, y, b));
        if linked(c, y, a) {
            lemma_linked_back(c, y, a);
        }
        if linked(c, a, y) {
            lemma_linked_back(c, a, y);
        }
        if linked(c, y, b) {
            lemma_linked_back(c, y, b);
        }
        if linked(c, b, y) {
            lemma_linked_back(c, b, y);
        }
    }
}

/// A part of `g` with its vertices whose edges settle every edge of `g`, and which
/// has one edge less than vertices for each class, is a lightest spanning forest
/// where `g` is undirected.
pub proof fn lemma_sifted<V: WithID, E: WeightedEdge>(t: GraphModel<V, E>, g: GraphModel<V, E>)
    requires
        g.valid(),
        t.valid(),
        subgraph(t, g),
        t.vertices == g.vertices,
        forall|e: (usize, usize)| #[trigger]
            g.canonical_arcs().contains(e) ==> edge_settled(g.arcs, t.canonical_arcs(), e),
        t.edge_count() + classes(g.vertices.dom(), t.canonical_arcs()).len() == g.vertices.dom().len(),
    ensures
        settled(g.vertices.dom(), t, g),
        !g.directed ==> lightest_spanning_forest(t, g),
{
    lemma_settled(t, g);
    if !g.directed {
        lemma_spans(t, g);
        lemma_components_classes(t);
        assert forall|other: GraphModel<V, E>| #[trigger] spanning_forest(other, g) implies t.total_weight()
            <= other.total_weight() by {
            lemma_lightest(t, g, other);
        }
    }
}

impl<Backend: GraphBase> Graph<Backend> where
    Backend::Vertex: Copy,
    Backend::Edge: WeightedEdge + Copy,
 {
    /// Kruskal's algorithm: the edges are taken by ascending weight, and an edge
    /// joins the result where its ends are not linked there yet. The result has the
    /// vertices of the graph; it stops growing when it has one edge less than
    /// vertices. Of an undirected graph it is a lightest spanning forest.
    pub fn mst_kruskal<OutputBackend>(&self) -> (r: Result<Graph<OutputBackend>, GraphError>) where
        OutputBackend: GraphBase<
            Vertex = Backend::Vertex,
            Edge = Backend::Edge,
            Direction = Backend::Direction,
        >,

        requires
            self.wf(),
        ensures
            match r {
                Ok(t) => {
                    &&& t.wf()
                    &&& t.model().vertices == self.model().vertices
                    &&& subgraph(t.model(), self.model())
                    &&& settled(self.model().vertices.dom(), t.model(), self.model())
                    &&& t.model().edge_count() + classes(
                        self.model().vertices.dom(),
                        t.model().canonical_arcs(),
                    ).len() == self.model().vertices.dom().len()
                    &&& !self.model().directed ==> lightest_spanning_forest(t.model(), self.model())
                },
                Err(e) => e is OperationFailed,
            },
            (forall|m: GraphModel<Backend::Vertex, Backend::Edge>, id: usize|
                !m.has_vertex(id) ==> #[trigger] OutputBackend::accepts(m, id)) ==> r is Ok,
    {
        let ghost g = self.model();
        let ghost none = Set::<(usize, usize)>::empty();
        proof {
            self.lemma_wf();
        }
        let mut mst_graph = Graph::<OutputBackend>::new();
        // All edges wait, the lightest first.
        let edges = self.get_all_edges();
        let mut queue: MinQueue<EdgeEntry<Backend::Edge>> = MinQueue::new();
        let mut i: usize = 0;
        while i < edges.len()
            invariant
                0 <= i <= edges.len(),
                lists_edges(edges@, g),
                queue@.len() == i,
                forall|k: int| 0 <= k < i ==> entry_of(#[trigger] queue@[k], g),
                forall|k: int|
                    0 <= k < i ==> (#[trigger] queue@[k]).from == edges[k].0 && queue@[k].to == edges[k].1,
            decreases edges.len() - i,
        {
            let from = edges[i].0;
            let to = edges[i].1;
            let edge = *edges[i].2;
            let ghost before = queue@;
            proof {
                assert(g.canonical_arcs().contains((edges[i as int].0, edges[i as int].1)));
            }
            queue.push(EdgeEntry::new(edge.get_weight(), from, to, edge));
            proof {
                assert forall|k: int| 0 <= k < i + 1 implies entry_of(#[trigger] queue@[k], g) && queue@[k].from
                    == edges[k].0 && queue@[k].to == edges[k].1 by {
                    if k < before.len() {
                        assert(queue@[k] == before[k]);
                    }
                }
            }
            i += 1;
        }
        proof {
            assert forall|e: (usize, usize)| #[trigger] g.canonical_arcs().contains(e) implies arc_waits(
                queue@,
                e.0,
                e.1,
            ) by {
                lemma_edges_cover(edges@, g, e.0, e.1);
                let k = choose|k: int| 0 <= k < edges.len() && (#[trigger] edges[k]).0 == e.0 && edges[k].1 == e.1;
                assert(queue@[k].from == e.0 && queue@[k].to == e.1);
            }
            assert(sifting(g, none, queue@));
        }
        // Every vertex is a set of its own and a vertex of the result.
        let mut union_find = UnionFind::new();
        let vertices = self.get_all_vertices();
        let mut j: usize = 0;
        proof {
            mst_graph.lemma_wf();
            assert(mst_graph.model().vertices.dom() =~= Set::empty());
            assert(mst_graph.model().canonical_arcs() =~= Set::empty()) by {
                assert forall|a: (usize, usize)| !mst_graph.model().canonical_arcs().contains(a) by {
                    if mst_graph.model().has_arc(a.0, a.1) {
                        let c = mst_graph.model().arc_index(a.0, a.1);
                        assert(mst_graph.model().arc_at(a.0, c, a.1));
                    }
                }
            }
        }
        while j < vertices.len()
            invariant
                0 <= j <= vertices.len(),
                lists_vertices(vertices@, g),
                g.valid(),
                mst_graph.wf(),
                union_find.wf(),
                mst_graph.model().directed == g.directed,
                mst_graph.model().canonical_arcs() == Set::<(usize, usize)>::empty(),
                forall|id: usize| #[trigger]
                    mst_graph.model().has_vertex(id) <==> union_find.elements().contains(id),
                forall|id: usize| #[trigger]
                    mst_graph.model().has_vertex(id) <==> exists|k: int|
                        0 <= k < j && (#[trigger] vertices[k]).spec_id() == id,
                forall|id: usize| #[trigger]
                    mst_graph.model().has_vertex(id) ==> mst_graph.model().vertices[id]
                        == g.vertices[id],
                forall|a: usize, b: usize| !#[trigger] mst_graph.model().has_arc(a, b),
                forall|id: usize|
                    union_find.elements().contains(id) ==> #[trigger] union_find.rep(id) == id,
            decreases vertices.len() - j,
        {
            let v = *vertices[j];
            let id = v.get_id();
            let ghost before = mst_graph.model();
            let ghost sets = union_find;
            proof {
                mst_graph.lemma_wf();
                assert(g.has_vertex(vertices[j as int].spec_id()));
                assert(!before.has_vertex(id)) by {
                    if before.has_vertex(id) {
                        let k = choose|k: int| 0 <= k < j && (#[trigger] vertices[k]).spec_id() == id;
                        assert(vertices[k].spec_id() != vertices[j as int].spec_id());
                    }
                }
            }
            match union_find.make_set(id) {
                Ok(()) => {},
                Err(e) => {
                    return Err(GraphError::AlgorithmError(e.to_string()));
                },
            }
            match mst_graph.push_vertex(v) {
                Ok(()) => {},
                Err(e) => {
                    return Err(e);
                },
            }
            proof {
                let after = mst_graph.model();
                assert(after == before.with_vertex(v));
                assert forall|x: usize| #[trigger]
                    after.has_vertex(x) <==> union_find.elements().contains(x) by {
                    assert(after.has_vertex(x) <==> before.has_vertex(x) || x == id);
                }
                assert forall|x: usize| #[trigger] after.has_vertex(x) implies after.vertices[x]
                    == g.vertices[x] by {
                    if x != id {
                        assert(before.has_vertex(x));
                    }
                }
                assert forall|x: usize| #[trigger] after.has_vertex(x) <==> exists|k: int|
                    0 <= k < j + 1 && (#[trigger] vertices[k]).spec_id() == x by {
                    if before.has_vertex(x) {
                        let k = choose|k: int| 0 <= k < j && (#[trigger] vertices[k]).spec_id() == x;
                        assert(0 <= k < j + 1 && vertices[k].spec_id() == x);
                    }
                    if exists|k: int| 0 <= k < j + 1 && (#[trigger] vertices[k]).spec_id() == x {
                        let k = choose|k: int|
                            0 <= k < j + 1 && (#[trigger] vertices[k]).spec_id() == x;
                        if k < j {
                            assert(before.has_vertex(x));
                        }
                    }
                }
                assert forall|a: usize, b: usize| !#[trigger] after.has_arc(a, b) by {
                    assert(!before.has_arc(a, b));
                    if after.has_arc(a, b) {
                        let c = after.arc_index(a, b);
                        assert(after.arc_at(a, c, b));
                        if a != id {
                            assert(before.arc_at(a, c, b));
                        }
                    }
                }
                assert forall|a: (usize, usize)| !after.canonical_arcs().contains(a) by {
                    assert(!after.has_arc(a.0, a.1));
                }
                assert(after.canonical_arcs() =~= Set::<(usize, usize)>::empty());
                assert forall|x: usize| union_find.elements().contains(x) implies #[trigger] union_find.rep(
                    x,
                ) == x by {
                    if x != id {
                        assert(sets.elements().contains(x));
                        assert(sets.rep(x) == x);
                    }
                }
            }
            j += 1;
        }
        let n = vertices.len();
        proof {
            assert(mst_graph.model().vertices =~= g.vertices) by {
                assert forall|id: usize|
                    mst_graph.model().vertices.dom().contains(id) <==> g.vertices.dom().contains(
                        id,
                    ) by {
                    if g.has_vertex(id) {
                        lemma_listing_covers(vertices@, g, id);
                    }
                    if mst_graph.model().has_vertex(id) {
                        let k = choose|k: int| 0 <= k < j && (#[trigger] vertices[k]).spec_id() == id;
                        assert(g.has_vertex(vertices[k].spec_id()));
                    }
                }
                assert forall|id: usize|
                    mst_graph.model().vertices.dom().contains(
                        id,
                    ) implies mst_graph.model().vertices[id] == g.vertices[id] by {
                    assert(mst_graph.model().has_vertex(id));
                }
            }
            assert forall|x: usize| union_find.elements().contains(x) <==> g.vertices.dom().contains(
                x,
            ) by {
                assert(mst_graph.model().has_vertex(x) <==> union_find.elements().contains(x));
            }
            assert(union_find.elements() =~= g.vertices.dom());
            assert(n == g.vertices.dom().len());
            lemma_classes_alone(g.vertices.dom());
            assert(mst_graph.model().edge_count() == 0);
            assert forall|x: usize, y: usize|
                g.vertices.dom().contains(x) && g.vertices.dom().contains(y) implies (
            #[trigger] union_find.same_set(x, y) <==> linked(none, x, y)) by {
                assert(union_find.rep(x) == x && union_find.rep(y) == y);
                lemma_linked_self(none, x);
                if linked(none, x, y) {
                    lemma_linked_alone(x, y);
                }
            }
        }
        let target_edge_count = if n == 0 {
            0
        } else {
            n - 1
        };
        let mut edge_count: usize = 0;
        let mut growing = target_edge_count > 0;
        while growing
            invariant
                g == self.model(),
                g.valid(),
                n == g.vertices.dom().len(),
                target_edge_count + 1 == n || (n == 0 && target_edge_count == 0),
                mst_graph.wf(),
                union_find.wf(),
                mst_graph.model().vertices == g.vertices,
                mst_graph.model().directed == g.directed,
                union_find.elements() == g.vertices.dom(),
                subgraph(mst_graph.model(), g),
                edge_count == mst_graph.model().edge_count(),
                edge_count <= target_edge_count,
                growing ==> edge_count < target_edge_count,
                !growing ==> queue@.len() == 0 || edge_count == target_edge_count,
                forall|a: usize, b: usize| #[trigger]
                    mst_graph.model().has_arc(a, b) ==> union_find.same_set(a, b),
                sifting(g, mst_graph.model().canonical_arcs(), queue@),
                sets_follow(union_find, g.vertices.dom(), mst_graph.model().canonical_arcs()),
                edge_count + classes(g.vertices.dom(), mst_graph.model().canonical_arcs()).len() == n,
            decreases queue@.len(), (if growing { 1int } else { 0int }),
        {
            let ghost waiting = queue@;
            match queue.pop() {
                None => {
                    growing = false;
                },
                Some(entry) => {
                    let from = entry.from;
                    let to = entry.to;
                    let ghost before = mst_graph.model();
                    let ghost sets = union_find;
                    proof {
                        lemma_first_least(waiting);
                        assert(entry_of(waiting[first_least(waiting)], g));
                        mst_graph.lemma_wf();
                        crate::algorithms::reach::lemma_reaches_vertex_arc(g, from, to);
                    }
                    let was_merged = match union_find.union(from, to) {
                        Ok(merged) => merged,
                        Err(e) => {
                            assert(false);
                            return Err(GraphError::AlgorithmError(e.to_string()));
                        },
                    };
                    proof {
                        assert forall|a: usize, b: usize| #[trigger]
                            before.has_arc(a, b) implies union_find.same_set(a, b) by {
                            assert(sets.same_set(a, b));
                        }
                        assert(sets.same_set(from, to) <==> linked(before.canonical_arcs(), from, to));
                    }
                    if was_merged {
                        proof {
                            assert(!before.has_arc(from, to));
                            assert(from != to);
                        }
                        match mst_graph.push_edge(from, to, entry.edge) {
                            Ok(()) => {},
                            Err(e) => {
                                assert(false);
                                return Err(e);
                            },
                        }
                        edge_count += 1;
                        proof {
                            let after = mst_graph.model();
                            after.lemma_adds_edge(before, from, to, entry.edge);
                            if !g.directed {
                                lemma_arc_payload_back(g, from, to);
                            }
                            assert(union_find.same_set(from, to));
                            assert(union_find.same_set(to, from));
                            assert forall|a: usize, b: usize| #[trigger]
                                after.has_arc(a, b) implies g.has_arc(a, b) && after.edge(a, b)
                                == g.edge(a, b) && union_find.same_set(a, b) by {
                                if before.has_arc(a, b) {
                                    assert(after.edge(a, b) == before.edge(a, b));
                                    assert(g.has_arc(a, b) && before.edge(a, b) == g.edge(a, b));
                                }
                            }
                            assert(after.canonical_arcs() == before.canonical_arcs().insert((from, to)));
                            lemma_sift_take(g, before.canonical_arcs(), waiting);
                            lemma_follow_take(
                                sets,
                                union_find,
                                g.vertices.dom(),
                                before.canonical_arcs(),
                                from,
                                to,
                            );
                            lemma_classes_insert(g.vertices.dom(), before.canonical_arcs(), from, to);
                        }
                        if edge_count >= target_edge_count {
                            growing = false;
                        }
                    } else {
                        proof {
                            lemma_sift_skip(g, before.canonical_arcs(), waiting);
                            assert forall|x: usize, y: usize|
                                g.vertices.dom().contains(x) && g.vertices.dom().contains(y) implies (
                            #[trigger] union_find.same_set(x, y) <==> linked(
                                before.canonical_arcs(),
                                x,
                                y,
                            )) by {
                                assert(sets.same_set(x, y) <==> linked(before.canonical_arcs(), x, y));
                                assert(union_find.rep(x) == sets.rep(x));
                                assert(union_find.rep(y) == sets.rep(y));
                            }
                        }
                    }
                },
            }
        }
        proof {
            mst_graph.lemma_wf();
            lemma_classes_finite(g.vertices.dom(), mst_graph.model().canonical_arcs());
            lemma_sift_end(g, mst_graph.model().canonical_arcs(), queue@);
            lemma_sifted(mst_graph.model(), g);
        }
        Ok(mst_graph)
    }
}

} // verus!
