//! Spanning forests of least weight: what makes a spanning forest of a weighted
//! graph a lightest one, and why.

use vstd::prelude::*;
use crate::algorithms::reach::{components, is_walk, lemma_arc_back, reachable_from, reaches};
use crate::graph::model::{set_weight, weight_at, GraphModel};
use crate::graph::{WeightedEdge, WithID};
use super::forest::{
    class_of, classes, is_chain, joins, lemma_classes_alone, lemma_classes_bound,
    lemma_classes_coarser, lemma_linked_back, lemma_linked_closed, lemma_linked_grows,
    lemma_linked_self, lemma_linked_trans, linked, within,
};
use super::kruskal::subgraph;

verus! {

/// The sum over a finite set is the weight of any one of its arcs plus the sum over
/// the others.
pub proof fn lemma_set_weight_remove<E: WeightedEdge>(
    arcs: Map<usize, Seq<(usize, E)>>,
    s: Set<(usize, usize)>,
    x: (usize, usize),
)
    requires
        s.finite(),
        s.contains(x),
    ensures
        set_weight(arcs, s) == weight_at(arcs, x) + set_weight(arcs, s.remove(x)),
    decreases s.len(),
{
    let a = s.choose();
    if a != x {
        lemma_set_weight_remove(arcs, s.remove(a), x);
        lemma_set_weight_remove(arcs, s.remove(x), a);
        assert(s.remove(a).remove(x) =~= s.remove(x).remove(a));
    }
}

/// Two tables of arcs that agree on the weights of the arcs of a set give it the
/// same sum.
pub proof fn lemma_set_weight_same<E: WeightedEdge>(
    a: Map<usize, Seq<(usize, E)>>,
    b: Map<usize, Seq<(usize, E)>>,
    s: Set<(usize, usize)>,
)
    requires
        s.finite(),
        forall|x: (usize, usize)| s.contains(x) ==> #[trigger] weight_at(a, x) == weight_at(b, x),
    ensures
        set_weight(a, s) == set_weight(b, s),
    decreases s.len(),
{
    if s.len() > 0 {
        lemma_set_weight_same(a, b, s.remove(s.choose()));
    }
}

/// The arcs of `s` that weigh `w` at most.
pub open spec fn below<E: WeightedEdge>(
    arcs: Map<usize, Seq<(usize, E)>>,
    s: Set<(usize, usize)>,
    w: int,
) -> Set<(usize, usize)> {
    Set::new(|a: (usize, usize)| s.contains(a) && weight_at(arcs, a) <= w)
}

/// A finite set of arcs that is not empty has a heaviest arc.
pub proof fn lemma_heaviest<E: WeightedEdge>(arcs: Map<usize, Seq<(usize, E)>>, s: Set<(usize, usize)>) -> (x: (
    usize,
    usize,
))
    requires
        s.finite(),
        s.len() > 0,
    ensures
        s.contains(x),
        forall|y: (usize, usize)| s.contains(y) ==> weight_at(arcs, y) <= weight_at(arcs, x),
    decreases s.len(),
{
    let a = s.choose();
    if s.len() == 1 {
        assert forall|y: (usize, usize)| s.contains(y) implies y == a by {
            if y != a {
                assert(s.remove(a).contains(y));
            }
        }
        a
    } else {
        let b = lemma_heaviest(arcs, s.remove(a));
        if weight_at(arcs, a) <= weight_at(arcs, b) {
            assert forall|y: (usize, usize)| s.contains(y) implies weight_at(arcs, y) <= weight_at(
                arcs,
                b,
            ) by {
                if y != a {
                    assert(s.remove(a).contains(y));
                }
            }
            b
        } else {
            assert forall|y: (usize, usize)| s.contains(y) implies weight_at(arcs, y) <= weight_at(
                arcs,
                a,
            ) by {
                if y != a {
                    assert(s.remove(a).contains(y));
                }
            }
            a
        }
    }
}

/// Of two sets of arcs of one size, the one that has at every weight at least as
/// many arcs of that weight or less is the lighter.
pub proof fn lemma_dominated<E: WeightedEdge>(
    arcs: Map<usize, Seq<(usize, E)>>,
    a: Set<(usize, usize)>,
    b: Set<(usize, usize)>,
)
    requires
        a.finite(),
        b.finite(),
        a.len() == b.len(),
        forall|w: int| #[trigger] below(arcs, b, w).len() <= below(arcs, a, w).len(),
    ensures
        set_weight(arcs, a) <= set_weight(arcs, b),
    decreases a.len(),
{
    if a.len() > 0 {
        let x = lemma_heaviest(arcs, a);
        let y = lemma_heaviest(arcs, b);
        let wx = weight_at(arcs, x);
        let wy = weight_at(arcs, y);
        let a1 = a.remove(x);
        let b1 = b.remove(y);
        if wx > wy {
            assert(below(arcs, b, wy) =~= b);
            assert(below(arcs, a, wy).subset_of(a1));
            vstd::set_lib::lemma_len_subset(below(arcs, a, wy), a1);
            assert(false);
        }
        assert forall|w: int| #[trigger] below(arcs, b1, w).len() <= below(arcs, a1, w).len() by {
            if w >= wy {
                assert(below(arcs, b1, w) =~= b1);
                assert(below(arcs, a1, w) =~= a1);
            } else if w >= wx {
                assert(below(arcs, a1, w) =~= a1);
                assert(below(arcs, b1, w).subset_of(b1));
                vstd::set_lib::lemma_len_subset(below(arcs, b1, w), b1);
            } else {
                assert(below(arcs, a1, w) =~= below(arcs, a, w));
                assert(below(arcs, b1, w) =~= below(arcs, b, w));
            }
        }
        lemma_dominated(arcs, a1, b1);
        lemma_set_weight_remove(arcs, a, x);
        lemma_set_weight_remove(arcs, b, y);
    }
}

/// In an undirected graph the edges join what the arcs join.
pub proof fn lemma_joins_arcs<V: WithID, E>(m: GraphModel<V, E>, a: usize, b: usize)
    requires
        m.valid(),
        !m.directed,
    ensures
        joins(m.canonical_arcs(), a, b) <==> m.has_arc(a, b),
{
    if m.has_arc(a, b) {
        lemma_arc_back(m, a, b);
    }
    if m.has_arc(b, a) {
        lemma_arc_back(m, b, a);
    }
}

/// In an undirected graph a vertex reaches what its edges link it to.
pub proof fn lemma_reaches_linked<V: WithID, E>(m: GraphModel<V, E>, x: usize, y: usize)
    requires
        m.valid(),
        !m.directed,
    ensures
        reaches(m, x, y) <==> m.has_vertex(x) && linked(m.canonical_arcs(), x, y),
{
    let c = m.canonical_arcs();
    if reaches(m, x, y) {
        let p = choose|p: Seq<usize>| #[trigger] is_walk(m, p) && p[0] == x && p.last() == y;
        assert forall|i: int| 0 <= i < p.len() - 1 implies joins(c, #[trigger] p[i], p[i + 1]) by {
            assert(m.has_arc(p[i], p[i + 1]));
            lemma_joins_arcs(m, p[i], p[i + 1]);
        }
        assert(is_chain(c, p));
    }
    if m.has_vertex(x) && linked(c, x, y) {
        let p = choose|p: Seq<usize>| #[trigger] is_chain(c, p) && p[0] == x && p.last() == y;
        assert forall|i: int| 0 <= i < p.len() - 1 implies m.has_arc(#[trigger] p[i], p[i + 1]) by {
            assert(joins(c, p[i], p[i + 1]));
            lemma_joins_arcs(m, p[i], p[i + 1]);
        }
        assert(is_walk(m, p));
    }
}

/// The connected components of an undirected graph are the classes into which its
/// edges part its vertices.
pub proof fn lemma_components_classes<V: WithID, E>(m: GraphModel<V, E>)
    requires
        m.valid(),
        !m.directed,
    ensures
        components(m) == classes(m.vertices.dom(), m.canonical_arcs()),
        within(m.vertices.dom(), m.canonical_arcs()),
{
    let c = m.canonical_arcs();
    let v = m.vertices.dom();
    assert forall|x: usize| m.has_vertex(x) implies #[trigger] reachable_from(m, x) == class_of(c, x) by {
        assert forall|y: usize| reaches(m, x, y) <==> linked(c, x, y) by {
            lemma_reaches_linked(m, x, y);
        }
        assert(reachable_from(m, x) =~= class_of(c, x));
    }
    assert forall|k: Set<usize>| components(m).contains(k) <==> classes(v, c).contains(k) by {
        if components(m).contains(k) {
            let x = choose|x: usize| m.has_vertex(x) && k == #[trigger] reachable_from(m, x);
            assert(v.contains(x) && k == class_of(c, x));
        }
        if classes(v, c).contains(k) {
            let x = choose|x: usize| v.contains(x) && k == #[trigger] class_of(c, x);
            assert(m.has_vertex(x) && k == reachable_from(m, x));
        }
    }
    assert(components(m) =~= classes(v, c));
    assert forall|e: (usize, usize)| #[trigger] c.contains(e) implies v.contains(e.0) && v.contains(
        e.1,
    ) by {
        crate::algorithms::reach::lemma_reaches_vertex_arc(m, e.0, e.1);
    }
}

/// `t` is a spanning forest of the undirected graph `g`: a part of it with all its
/// vertices and with the same connected components, and with as few edges as such a
/// part can have, which is one less than vertices for each component.
pub open spec fn spanning_forest<V: WithID, E>(t: GraphModel<V, E>, g: GraphModel<V, E>) -> bool {
    &&& t.valid()
    &&& subgraph(t, g)
    &&& t.vertices == g.vertices
    &&& components(t) == components(g)
    &&& t.edge_count() + components(t).len() == g.vertices.dom().len()
}

/// Among the vertices `v`, the edges of `t` of any weight or less link all that the
/// edges of `g` of that weight or less link: no edge of `g` is lighter than an edge
/// of `t` whose place it could take.
pub open spec fn settled<V: WithID, E: WeightedEdge>(
    v: Set<usize>,
    t: GraphModel<V, E>,
    g: GraphModel<V, E>,
) -> bool {
    forall|x: usize, y: usize, w: int|
        v.contains(x) && v.contains(y) && #[trigger] linked(below(g.arcs, g.canonical_arcs(), w), x, y)
            ==> linked(below(g.arcs, t.canonical_arcs(), w), x, y)
}

/// The edge `e` is settled by the edges `c`: those of them that are no heavier link
/// its ends.
pub open spec fn edge_settled<E: WeightedEdge>(
    arcs: Map<usize, Seq<(usize, E)>>,
    c: Set<(usize, usize)>,
    e: (usize, usize),
) -> bool {
    linked(below(arcs, c, weight_at(arcs, e)), e.0, e.1)
}

/// Where every edge of `g` is settled by the edges of `t`, the edges of `t` of any
/// weight or less link all that those of `g` link.
pub proof fn lemma_settled<V: WithID, E: WeightedEdge>(t: GraphModel<V, E>, g: GraphModel<V, E>)
    requires
        forall|e: (usize, usize)| #[trigger]
            g.canonical_arcs().contains(e) ==> edge_settled(g.arcs, t.canonical_arcs(), e),
    ensures
        settled(g.vertices.dom(), t, g),
{
    let c = t.canonical_arcs();
    assert forall|x: usize, y: usize, w: int| #[trigger]
        linked(below(g.arcs, g.canonical_arcs(), w), x, y) implies linked(below(g.arcs, c, w), x, y) by {
        let low = below(g.arcs, c, w);
        let set = class_of(low, x);
        lemma_linked_self(low, x);
        assert forall|u: usize, z: usize|
            set.contains(u) && #[trigger] joins(below(g.arcs, g.canonical_arcs(), w), u, z) implies set.contains(
            z,
        ) by {
            let e = if below(g.arcs, g.canonical_arcs(), w).contains((u, z)) {
                (u, z)
            } else {
                (z, u)
            };
            assert(g.canonical_arcs().contains(e));
            assert(edge_settled(g.arcs, c, e));
            lemma_linked_grows(below(g.arcs, c, weight_at(g.arcs, e)), low, e.0, e.1);
            if e == (z, u) {
                lemma_linked_back(low, z, u);
            }
            lemma_linked_trans(low, x, u, z);
        }
        lemma_linked_closed(below(g.arcs, g.canonical_arcs(), w), set, x, y);
    }
}

/// A part of an undirected graph whose edges settle it has the connected components
/// of the graph.
pub proof fn lemma_spans<V: WithID, E: WeightedEdge>(t: GraphModel<V, E>, g: GraphModel<V, E>)
    requires
        g.valid(),
        t.valid(),
        !g.directed,
        subgraph(t, g),
        t.vertices == g.vertices,
        settled(g.vertices.dom(), t, g),
    ensures
        components(t) == components(g),
{
    let v = g.vertices.dom();
    let top = i64::MAX as int;
    assert(below(g.arcs, g.canonical_arcs(), top) =~= g.canonical_arcs());
    assert(below(g.arcs, t.canonical_arcs(), top) =~= t.canonical_arcs());
    assert(t.canonical_arcs().subset_of(g.canonical_arcs())) by {
        assert forall|e: (usize, usize)| t.canonical_arcs().contains(e) implies g.canonical_arcs().contains(
            e,
        ) by {
            assert(t.has_arc(e.0, e.1));
        }
    }
    assert forall|x: usize| g.has_vertex(x) implies #[trigger] reachable_from(t, x) == reachable_from(
        g,
        x,
    ) by {
        assert forall|y: usize| reaches(t, x, y) <==> reaches(g, x, y) by {
            lemma_reaches_linked(t, x, y);
            lemma_reaches_linked(g, x, y);
            if linked(t.canonical_arcs(), x, y) {
                lemma_linked_grows(t.canonical_arcs(), g.canonical_arcs(), x, y);
            }
            if reaches(g, x, y) {
                crate::algorithms::reach::lemma_reaches_vertex(g, x, y);
                assert(linked(below(g.arcs, g.canonical_arcs(), top), x, y));
            }
        }
        assert(reachable_from(t, x) =~= reachable_from(g, x));
    }
    assert forall|k: Set<usize>| components(t).contains(k) <==> components(g).contains(k) by {
        if components(t).contains(k) {
            let x = choose|x: usize| t.has_vertex(x) && k == #[trigger] reachable_from(t, x);
            assert(g.has_vertex(x) && k == reachable_from(g, x));
        }
        if components(g).contains(k) {
            let x = choose|x: usize| g.has_vertex(x) && k == #[trigger] reachable_from(g, x);
            assert(t.has_vertex(x) && k == reachable_from(t, x));
        }
    }
    assert(components(t) =~= components(g));
}

/// `t` is a lightest spanning forest of `g`: no spanning forest of `g` weighs less.
pub open spec fn lightest_spanning_forest<V: WithID, E: WeightedEdge>(
    t: GraphModel<V, E>,
    g: GraphModel<V, E>,
) -> bool {
    &&& spanning_forest(t, g)
    &&& forall|other: GraphModel<V, E>| #[trigger]
        spanning_forest(other, g) ==> t.total_weight() <= other.total_weight()
}

/// The ends of every edge of a graph are vertices of it.
pub proof fn lemma_arcs_within<V: WithID, E>(m: GraphModel<V, E>)
    requires
        m.valid(),
    ensures
        within(m.vertices.dom(), m.canonical_arcs()),
{
    assert forall|e: (usize, usize)| #[trigger] m.canonical_arcs().contains(e) implies m.vertices.dom().contains(
        e.0,
    ) && m.vertices.dom().contains(e.1) by {
        crate::algorithms::reach::lemma_reaches_vertex_arc(m, e.0, e.1);
    }
}

/// A part of `g` whose edges settle it is no heavier than any set of as many edges
/// of `g` that is a forest: that leaves a class for each edge that it lacks to
/// have one less than vertices.
pub proof fn lemma_lightest_edges<V: WithID, E: WeightedEdge>(
    t: GraphModel<V, E>,
    g: GraphModel<V, E>,
    b: Set<(usize, usize)>,
)
    requires
        g.valid(),
        t.valid(),
        subgraph(t, g),
        t.vertices == g.vertices,
        settled(g.vertices.dom(), t, g),
        b.finite(),
        b.subset_of(g.canonical_arcs()),
        b.len() + classes(g.vertices.dom(), b).len() == g.vertices.dom().len(),
        b.len() == t.edge_count(),
    ensures
        set_weight(g.arcs, t.canonical_arcs()) <= set_weight(g.arcs, b),
{
    let v = g.vertices.dom();
    let a = t.canonical_arcs();
    let none = Set::<(usize, usize)>::empty();
    lemma_arcs_within(t);
    lemma_arcs_within(g);
    lemma_classes_alone(v);
    assert forall|w: int| #[trigger] below(g.arcs, b, w).len() <= below(g.arcs, a, w).len() by {
        let aw = below(g.arcs, a, w);
        let bw = below(g.arcs, b, w);
        assert(aw.subset_of(a));
        assert(bw.subset_of(b));
        vstd::set_lib::lemma_len_subset(aw, a);
        assert(within(v, aw));
        assert(within(v, b));
        lemma_classes_bound(v, none, aw);
        lemma_classes_bound(v, bw, b);
        assert forall|x: usize, y: usize| v.contains(x) && v.contains(y) && #[trigger] linked(bw, x, y) implies linked(
            aw,
            x,
            y,
        ) by {
            assert(bw.subset_of(below(g.arcs, g.canonical_arcs(), w)));
            lemma_linked_grows(bw, below(g.arcs, g.canonical_arcs(), w), x, y);
        }
        lemma_classes_coarser(v, bw, aw);
    }
    lemma_dominated(g.arcs, a, b);
}

/// A spanning forest whose edges settle the graph is a lightest one: no spanning
/// forest of the graph weighs less.
pub proof fn lemma_lightest<V: WithID, E: WeightedEdge>(
    t: GraphModel<V, E>,
    g: GraphModel<V, E>,
    other: GraphModel<V, E>,
)
    requires
        g.valid(),
        !g.directed,
        spanning_forest(t, g),
        settled(g.vertices.dom(), t, g),
        spanning_forest(other, g),
    ensures
        t.total_weight() <= other.total_weight(),
{
    let a = t.canonical_arcs();
    let b = other.canonical_arcs();
    lemma_components_classes(other);
    assert forall|e: (usize, usize)| b.contains(e) implies g.canonical_arcs().contains(e) by {
        assert(other.has_arc(e.0, e.1));
    }
    lemma_lightest_edges(t, g, b);
    assert forall|x: (usize, usize)| a.contains(x) implies #[trigger] weight_at(t.arcs, x) == weight_at(
        g.arcs,
        x,
    ) by {
        assert(t.has_arc(x.0, x.1));
    }
    assert forall|x: (usize, usize)| b.contains(x) implies #[trigger] weight_at(other.arcs, x)
        == weight_at(g.arcs, x) by {
        assert(other.has_arc(x.0, x.1));
    }
    lemma_set_weight_same(t.arcs, g.arcs, a);
    lemma_set_weight_same(other.arcs, g.arcs, b);
}

/// Two lightest spanning forests of a graph weigh the same.
pub proof fn lemma_lightest_agree<V: WithID, E: WeightedEdge>(
    a: GraphModel<V, E>,
    b: GraphModel<V, E>,
    g: GraphModel<V, E>,
)
    requires
        lightest_spanning_forest(a, g),
        lightest_spanning_forest(b, g),
    ensures
        a.total_weight() == b.total_weight(),
{
    assert(spanning_forest(a, g));
    assert(spanning_forest(b, g));
}

} // verus!
