//! What holds between the operations of a graph.

use vstd::prelude::*;
use super::batch::{
    edge_rejection, first_rejected_edge, holds_batch, joined_before, joins, vertices_model,
};
use super::model::GraphModel;
use super::traits::{lemma_listing_covers, lists_edges, lists_vertices, WithID};

verus! {

/// The number of vertices is the length of every listing of the vertices, and a
/// vertex is found by its id exactly where a listing holds a vertex with that id.
pub proof fn lemma_vertices_listed<V: WithID, E>(m: GraphModel<V, E>, listing: Seq<&V>, id: usize)
    requires
        m.valid(),
        lists_vertices(listing, m),
    ensures
        listing.len() == m.vertices.dom().len(),
        m.has_vertex(id) <==> exists|k: int| 0 <= k < listing.len() && (#[trigger] listing[k]).spec_id() == id,
{
    if m.has_vertex(id) {
        lemma_listing_covers(listing, m, id);
    }
    if exists|k: int| 0 <= k < listing.len() && (#[trigger] listing[k]).spec_id() == id {
        let k = choose|k: int| 0 <= k < listing.len() && (#[trigger] listing[k]).spec_id() == id;
        assert(m.has_vertex(listing[k].spec_id()));
    }
}

/// The arcs of a graph.
pub open spec fn all_arcs<V: WithID, E>(m: GraphModel<V, E>) -> Set<(usize, usize)> {
    Set::new(|a: (usize, usize)| m.has_arc(a.0, a.1))
}

/// The number of edges is the length of every listing of the edges, and in an
/// undirected graph it is half the number of arcs.
pub proof fn lemma_edges_listed<V: WithID, E>(m: GraphModel<V, E>, listing: Seq<(usize, usize, &E)>)
    requires
        m.valid(),
        lists_edges(listing, m),
    ensures
        listing.len() == m.edge_count(),
        !m.directed ==> all_arcs(m).finite() && all_arcs(m).len() == 2 * m.edge_count(),
        m.directed ==> all_arcs(m) == m.canonical_arcs(),
{
    if m.directed {
        assert(all_arcs(m) =~= m.canonical_arcs());
    } else {
        let up = m.canonical_arcs();
        let down = Set::new(|a: (usize, usize)| m.has_arc(a.0, a.1) && a.0 > a.1);
        let flip = |a: (usize, usize)| (a.1, a.0);
        assert forall|a: (usize, usize)| m.has_arc(a.0, a.1) implies m.has_arc(a.1, a.0) && a.0
            != a.1 by {
            let k = m.arc_index(a.0, a.1);
            assert(m.arc_at(a.0, k, a.1));
            let arc = m.out(a.0)[k];
            assert(arc.0 != a.0 && m.edge(arc.0, a.0) == Some(arc.1));
        }
        assert(down =~= up.map(flip)) by {
            assert forall|a: (usize, usize)| down.contains(a) <==> up.map(flip).contains(a) by {
                if down.contains(a) {
                    assert(up.contains((a.1, a.0)));
                    assert(flip((a.1, a.0)) == a);
                }
                if up.map(flip).contains(a) {
                    let b = choose|b: (usize, usize)| up.contains(b) && a == flip(b);
                    assert(m.has_arc(b.0, b.1));
                }
            }
        }
        assert(vstd::relations::injective(flip)) by {
            assert forall|x: (usize, usize), y: (usize, usize)| #[trigger]
                flip(x) == #[trigger] flip(y) implies x == y by {
                assert(flip(x).1 == x.0 && flip(x).0 == x.1);
                assert(flip(y).1 == y.0 && flip(y).0 == y.1);
            }
        }
        vstd::set_lib::lemma_map_size(up, down, flip);
        assert(all_arcs(m) =~= up + down);
        assert(up.disjoint(down));
        vstd::set_lib::lemma_set_disjoint_lens(up, down);
    }
}

/// `listing` holds the vertices of `m`, each once.
pub open spec fn owns_vertices<V: WithID, E>(listing: Seq<V>, m: GraphModel<V, E>) -> bool {
    &&& forall|i: int|
        0 <= i < listing.len() ==> m.has_vertex((#[trigger] listing[i]).spec_id()) && listing[i]
            == m.vertices[listing[i].spec_id()]
    &&& forall|i: int, j: int|
        0 <= i < j < listing.len() ==> (#[trigger] listing[i]).spec_id() != (
        #[trigger] listing[j]).spec_id()
    &&& forall|id: usize|
        m.has_vertex(id) ==> exists|i: int| 0 <= i < listing.len() && (#[trigger] listing[i]).spec_id() == id
}

/// `listing` holds the edges of `m`, each once, with its payload; of an undirected
/// graph the arc of each edge that runs from the smaller id.
pub open spec fn owns_edges<V: WithID, E>(listing: Seq<(usize, usize, E)>, m: GraphModel<V, E>) -> bool {
    &&& forall|i: int|
        0 <= i < listing.len() ==> {
            let t = #[trigger] listing[i];
            m.canonical_arcs().contains((t.0, t.1)) && m.edge(t.0, t.1) == Some(t.2)
        }
    &&& forall|i: int, j: int|
        0 <= i < j < listing.len() ==> ((#[trigger] listing[i]).0, listing[i].1) != (
            (#[trigger] listing[j]).0,
            listing[j].1,
        )
    &&& forall|a: usize, b: usize|
        m.canonical_arcs().contains((a, b)) ==> exists|i: int|
            0 <= i < listing.len() && (#[trigger] listing[i]).0 == a && listing[i].1 == b
}

/// The vertices of the graph of a listing of the vertices of `m` are those of `m`.
pub proof fn lemma_vertices_rebuilt<V: WithID, E>(m: GraphModel<V, E>, listing: Seq<V>, n: int)
    requires
        m.valid(),
        owns_vertices(listing, m),
        0 <= n <= listing.len(),
    ensures
        forall|id: usize|
            vertices_model::<V, E>(listing.take(n), m.directed).has_vertex(id) <==> exists|i: int|
                0 <= i < n && (#[trigger] listing[i]).spec_id() == id,
        forall|id: usize| #[trigger]
            vertices_model::<V, E>(listing.take(n), m.directed).has_vertex(id) ==> vertices_model::<
                V,
                E,
            >(listing.take(n), m.directed).vertices[id] == m.vertices[id],
    decreases n,
{
    let built = vertices_model::<V, E>(listing.take(n), m.directed);
    if n > 0 {
        lemma_vertices_rebuilt(m, listing, n - 1);
        let before = vertices_model::<V, E>(listing.take(n - 1), m.directed);
        assert(listing.take(n).drop_last() =~= listing.take(n - 1));
        assert(listing.take(n).last() == listing[n - 1]);
        assert(built == before.with_vertex(listing[n - 1]));
        assert forall|id: usize| built.has_vertex(id) <==> exists|i: int|
            0 <= i < n && (#[trigger] listing[i]).spec_id() == id by {
            if before.has_vertex(id) {
                let i = choose|i: int| 0 <= i < n - 1 && (#[trigger] listing[i]).spec_id() == id;
                assert(0 <= i < n && listing[i].spec_id() == id);
            }
            if exists|i: int| 0 <= i < n && (#[trigger] listing[i]).spec_id() == id {
                let i = choose|i: int| 0 <= i < n && (#[trigger] listing[i]).spec_id() == id;
                if i < n - 1 {
                    assert(before.has_vertex(id));
                }
            }
        }
        assert forall|id: usize| #[trigger] built.has_vertex(id) implies built.vertices[id]
            == m.vertices[id] by {
            if id == listing[n - 1].spec_id() {
            } else {
                assert(before.has_vertex(id));
            }
        }
    } else {
        assert(listing.take(0) =~= Seq::<V>::empty());
    }
}

/// Every edge of a listing of the edges of a graph can come in after those before
/// it.
pub proof fn lemma_edges_accepted<V: WithID, E>(m: GraphModel<V, E>, listing: Seq<(usize, usize, E)>, n: int)
    requires
        m.valid(),
        owns_edges(listing, m),
        0 <= n <= listing.len(),
    ensures
        first_rejected_edge(m.vertices.dom(), listing, m.directed, n) == n,
    decreases n,
{
    if n > 0 {
        lemma_edges_accepted(m, listing, n - 1);
        let t = listing[n - 1];
        assert(m.canonical_arcs().contains((t.0, t.1)));
        crate::algorithms::reach::lemma_reaches_vertex_arc(m, t.0, t.1);
        if joined_before(listing, n - 1, t.0, t.1, m.directed) {
            let k = choose|k: int| 0 <= k < n - 1 && #[trigger] joins(listing[k], t.0, t.1, m.directed);
            assert((listing[k].0, listing[k].1) != (listing[n - 1].0, listing[n - 1].1));
            assert(m.canonical_arcs().contains((listing[k].0, listing[k].1)));
        }
        if !m.directed && t.0 == t.1 {
            let k = m.arc_index(t.0, t.1);
            assert(m.arc_at(t.0, k, t.1));
            let arc = m.out(t.0)[k];
            assert(arc.0 != t.0);
        }
        assert(edge_rejection(m.vertices.dom(), listing, n - 1, m.directed) is None);
    }
}

/// Building a graph from the vertices and the edges of a graph gives a graph with
/// the same vertices, the same arcs with the same payloads, and the same direction;
/// and no edge is turned away on the way.
pub proof fn lemma_round_trip<V: WithID, E>(
    m: GraphModel<V, E>,
    vs: Seq<V>,
    es: Seq<(usize, usize, E)>,
    built: GraphModel<V, E>,
)
    requires
        m.valid(),
        built.valid(),
        built.directed == m.directed,
        owns_vertices(vs, m),
        owns_edges(es, m),
        holds_batch(built, vs, es, es.len() as int),
    ensures
        built.vertices == m.vertices,
        forall|a: usize, b: usize| #[trigger] built.has_arc(a, b) == m.has_arc(a, b),
        forall|a: usize, b: usize| #[trigger] built.edge(a, b) == m.edge(a, b),
        first_rejected_edge(m.vertices.dom(), es, m.directed, es.len() as int) == es.len(),
{
    assert(vs.take(vs.len() as int) =~= vs);
    lemma_vertices_rebuilt(m, vs, vs.len() as int);
    assert(built.vertices =~= m.vertices) by {
        assert forall|id: usize| built.vertices.dom().contains(id) <==> m.vertices.dom().contains(
            id,
        ) by {
            let listed = vertices_model::<V, E>(vs, m.directed);
            assert(built.vertices == listed.vertices);
            assert(listed.has_vertex(id) <==> exists|i: int|
                0 <= i < vs.len() && (#[trigger] vs[i]).spec_id() == id);
            if listed.has_vertex(id) {
                let i = choose|i: int| 0 <= i < vs.len() && (#[trigger] vs[i]).spec_id() == id;
                assert(m.has_vertex(vs[i].spec_id()));
            }
            if m.has_vertex(id) {
                let i = choose|i: int| 0 <= i < vs.len() && (#[trigger] vs[i]).spec_id() == id;
                assert(0 <= i < vs.len() && vs[i].spec_id() == id);
            }
        }
        assert forall|id: usize| built.vertices.dom().contains(id) implies built.vertices[id]
            == m.vertices[id] by {
            assert(vertices_model::<V, E>(vs, m.directed).has_vertex(id));
        }
    }
    lemma_edges_accepted(m, es, es.len() as int);
    assert forall|a: usize, b: usize| #[trigger] built.has_arc(a, b) == m.has_arc(a, b) by {
        if built.has_arc(a, b) {
            let k = choose|k: int| 0 <= k < es.len() && #[trigger] joins(es[k], a, b, m.directed);
            assert(m.canonical_arcs().contains((es[k].0, es[k].1)));
            if !(es[k].0 == a && es[k].1 == b) {
                crate::algorithms::reach::lemma_arc_back(m, es[k].0, es[k].1);
            }
        }
        if m.has_arc(a, b) {
            if m.directed || a <= b {
                assert(m.canonical_arcs().contains((a, b)));
                let i = choose|i: int| 0 <= i < es.len() && (#[trigger] es[i]).0 == a && es[i].1 == b;
                assert(joins(es[i], a, b, m.directed));
            } else {
                crate::algorithms::reach::lemma_arc_back(m, a, b);
                assert(m.canonical_arcs().contains((b, a)));
                let i = choose|i: int| 0 <= i < es.len() && (#[trigger] es[i]).0 == b && es[i].1 == a;
                assert(joins(es[i], a, b, m.directed));
            }
            assert(joined_before(es, es.len() as int, a, b, m.directed));
        }
    }
    assert forall|a: usize, b: usize| #[trigger] built.edge(a, b) == m.edge(a, b) by {
        assert(built.has_arc(a, b) == m.has_arc(a, b));
        if m.has_arc(a, b) {
            if m.directed || a <= b {
                assert(m.canonical_arcs().contains((a, b)));
                let i = choose|i: int| 0 <= i < es.len() && (#[trigger] es[i]).0 == a && es[i].1 == b;
                assert(built.edge(es[i].0, es[i].1) == Some(es[i].2));
            } else {
                crate::algorithms::reach::lemma_arc_back(m, a, b);
                crate::algorithms::mst::kruskal::lemma_arc_payload_back(m, a, b);
                crate::algorithms::mst::kruskal::lemma_arc_payload_back(built, a, b);
                assert(m.canonical_arcs().contains((b, a)));
                let i = choose|i: int| 0 <= i < es.len() && (#[trigger] es[i]).0 == b && es[i].1 == a;
                assert(built.edge(es[i].0, es[i].1) == Some(es[i].2));
            }
        }
    }
}

} // verus!
