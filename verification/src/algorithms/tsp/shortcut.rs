//! Round trips along a spanning tree: why, where the weights keep the triangle
//! inequality, the round trip that visits the vertices in the depth-first order of
//! a lightest spanning tree weighs at most twice what any round trip weighs.

use vstd::prelude::*;
use crate::algorithms::mst::forest::{
    class_of, classes, joins, lemma_classes_finite, lemma_linked_self, lemma_linked_step,
    lemma_same_class, linked,
};
use crate::algorithms::mst::kruskal::{lemma_arc_payload_back, subgraph};
use crate::algorithms::mst::lightest::{lemma_lightest_edges, lightest_spanning_forest, settled};
use crate::algorithms::shortest_path::walks::walk_weight;
use crate::algorithms::reach::{
    discover, frontier_ok, lemma_discover_shape, reachable_from, waits_behind, Frontier,
};
use crate::graph::model::{
    lemma_listing_len, lemma_listing_weight, seq_weight, set_weight, weight_at, GraphModel,
};
use crate::graph::{WeightedEdge, WithID};
use super::{is_tour, joined, lemma_tour_arcs};

verus! {

/// The weight of the arc from `x` to `y`; 0 where there is none.
pub open spec fn dist<V: WithID, E: WeightedEdge>(m: GraphModel<V, E>, x: usize, y: usize) -> int {
    weight_at(m.arcs, (x, y))
}

/// The way from `x` to `z` is no longer than the way over `y`.
pub open spec fn triangle<V: WithID, E: WeightedEdge>(m: GraphModel<V, E>, x: usize, y: usize, z: usize) -> bool {
    dist(m, x, z) <= dist(m, x, y) + dist(m, y, z)
}

/// No weight is negative, and no way between two vertices is longer than a way over
/// a third.
pub open spec fn metric<V: WithID, E: WeightedEdge>(m: GraphModel<V, E>) -> bool {
    &&& forall|x: usize, y: usize| 0 <= #[trigger] dist(m, x, y)
    &&& forall|x: usize, y: usize, z: usize|
        m.has_vertex(x) && m.has_vertex(y) && m.has_vertex(z) ==> #[trigger] triangle(m, x, y, z)
}

/// The edge between `a` and `b` as the graph lists it.
pub open spec fn edge_key(a: usize, b: usize) -> (usize, usize) {
    if a <= b {
        (a, b)
    } else {
        (b, a)
    }
}

/// The edges along the path `p`.
pub open spec fn path_edges(p: Seq<usize>) -> Seq<(usize, usize)> {
    Seq::new(
        if p.len() == 0 {
            0
        } else {
            (p.len() - 1) as nat
        },
        |i: int| edge_key(p[i], p[i + 1]),
    )
}

/// In an undirected graph the edges along a walk weigh what the walk weighs.
pub proof fn lemma_path_edges_weight<V: WithID, E: WeightedEdge>(m: GraphModel<V, E>, p: Seq<usize>)
    requires
        m.valid(),
        !m.directed,
        p.len() > 0,
        forall|i: int| 0 <= i < p.len() - 1 ==> m.has_arc(#[trigger] p[i], p[i + 1]),
    ensures
        seq_weight(m.arcs, path_edges(p)) == walk_weight(m, p),
        forall|i: int| 0 <= i < p.len() - 1 ==> m.canonical_arcs().contains(#[trigger] path_edges(p)[i]),
    decreases p.len(),
{
    if p.len() > 1 {
        let q = p.drop_last();
        assert forall|i: int| 0 <= i < q.len() - 1 implies m.has_arc(#[trigger] q[i], q[i + 1]) by {
            assert(m.has_arc(p[i], p[i + 1]));
        }
        lemma_path_edges_weight(m, q);
        assert(path_edges(p).drop_last() =~= path_edges(q));
        let a = p[p.len() - 2];
        let b = p[p.len() - 1];
        assert(m.has_arc(p[p.len() - 2], p[p.len() - 2 + 1]));
        lemma_arc_payload_back(m, a, b);
        assert(path_edges(p).last() == edge_key(a, b));
        assert forall|i: int| 0 <= i < p.len() - 1 implies m.canonical_arcs().contains(
            #[trigger] path_edges(p)[i],
        ) by {
            assert(m.has_arc(p[i], p[i + 1]));
            lemma_arc_payload_back(m, p[i], p[i + 1]);
        }
    }
}

/// A path that visits no vertex twice passes no edge twice.
pub proof fn lemma_path_edges_distinct(p: Seq<usize>)
    requires
        p.no_duplicates(),
    ensures
        path_edges(p).no_duplicates(),
{
    let l = path_edges(p);
    assert forall|i: int, j: int| 0 <= i < l.len() && 0 <= j < l.len() && i != j implies l[i] != l[j] by {
        assert(p[i] != p[j]);
        assert(p[i + 1] != p[j + 1]);
        assert(p[i] != p[i + 1]);
        if i + 1 != j {
            assert(p[i + 1] != p[j]);
        }
        if j + 1 != i {
            assert(p[j + 1] != p[i]);
        }
    }
}

/// The edges along a path link its first vertex to each of its vertices.
pub proof fn lemma_path_linked(p: Seq<usize>, i: int)
    requires
        0 <= i < p.len(),
    ensures
        linked(path_edges(p).to_set(), p[0], p[i]),
    decreases i,
{
    let b = path_edges(p).to_set();
    if i == 0 {
        lemma_linked_self(b, p[0]);
    } else {
        lemma_path_linked(p, i - 1);
        assert(path_edges(p)[i - 1] == edge_key(p[i - 1], p[i - 1 + 1]));
        assert(b.contains(path_edges(p)[i - 1]));
        assert(joins(b, p[i - 1], p[i]));
        lemma_linked_step(b, p[0], p[i - 1], p[i]);
    }
}

/// A spanning tree whose edges settle an undirected graph without negative weights
/// weighs no more than any round trip through the graph.
pub proof fn lemma_tree_below_tour<V: WithID, E: WeightedEdge>(
    t: GraphModel<V, E>,
    g: GraphModel<V, E>,
    start: usize,
    tour: Seq<usize>,
)
    requires
        g.valid(),
        !g.directed,
        joined(g),
        forall|x: usize, y: usize| 0 <= #[trigger] dist(g, x, y),
        t.valid(),
        subgraph(t, g),
        t.vertices == g.vertices,
        settled(g.vertices.dom(), t, g),
        t.edge_count() + 1 == g.vertices.dom().len(),
        is_tour(g, start, tour),
    ensures
        set_weight(g.arcs, t.canonical_arcs()) <= walk_weight(g, tour),
{
    let v = g.vertices.dom();
    let inner = tour.drop_last();
    let l = path_edges(inner);
    let b = l.to_set();
    assert forall|i: int| 0 <= i < inner.len() - 1 implies g.has_arc(#[trigger] inner[i], inner[i + 1]) by {
        lemma_tour_arcs(g, start, tour, i);
        assert(inner[i] == tour[i] && inner[i + 1] == tour[i + 1]);
    }
    lemma_path_edges_weight(g, inner);
    lemma_path_edges_distinct(inner);
    lemma_listing_len(l, b);
    lemma_listing_weight(g.arcs, l, b);
    lemma_classes_finite(v, b);
    let whole = class_of(b, inner[0]);
    assert(inner.to_set().contains(inner[0]));
    assert(classes(v, b) =~= set![whole]) by {
        assert forall|k: Set<usize>| classes(v, b).contains(k) <==> set![whole].contains(k) by {
            if classes(v, b).contains(k) {
                let x = choose|x: usize| v.contains(x) && k == #[trigger] class_of(b, x);
                assert(inner.to_set().contains(x));
                let i = choose|i: int| 0 <= i < inner.len() && inner[i] == x;
                lemma_path_linked(inner, i);
                lemma_same_class(b, inner[0], x);
            }
            if k == whole {
                assert(v.contains(inner[0]));
            }
        }
    }
    assert(b.subset_of(g.canonical_arcs())) by {
        assert forall|e: (usize, usize)| b.contains(e) implies g.canonical_arcs().contains(e) by {
            let i = choose|i: int| 0 <= i < l.len() && l[i] == e;
            assert(g.canonical_arcs().contains(path_edges(inner)[i]));
        }
    }
    lemma_lightest_edges(t, g, b);
    assert(walk_weight(g, tour) == walk_weight(g, inner) + dist(g, tour[tour.len() - 2], tour.last()));
}

/// In an undirected graph the way back weighs what the way there weighs.
pub proof fn lemma_dist_back<V: WithID, E: WeightedEdge>(m: GraphModel<V, E>, x: usize, y: usize)
    requires
        m.valid(),
        !m.directed,
    ensures
        dist(m, x, y) == dist(m, y, x),
{
    if m.has_arc(x, y) {
        lemma_arc_payload_back(m, x, y);
    }
    if m.has_arc(y, x) {
        lemma_arc_payload_back(m, y, x);
    }
}

/// What is known of a tree while a depth-first traversal walks it: for each vertex
/// that was discovered the vertex whose visit discovered it, its parent, and what
/// the edges from the start down to it weigh, its depth; the way from the start
/// down to the vertex that was visited last, the trail; and for each vertex that
/// waits the place of its parent on the trail.
pub struct Climb {
    pub parent: Map<usize, usize>,
    pub depth: Map<usize, int>,
    pub trail: Seq<usize>,
    pub at: Seq<int>,
}

/// What the edges weigh over which the vertices of `y` but the first were
/// discovered.
pub open spec fn entered<V: WithID, E: WeightedEdge>(
    m: GraphModel<V, E>,
    parent: Map<usize, usize>,
    y: Seq<usize>,
) -> int
    decreases y.len(),
{
    if y.len() <= 1 {
        0
    } else {
        entered(m, parent, y.drop_last()) + dist(m, parent[y.last()], y.last())
    }
}

/// Every vertex that was discovered hangs on its parent, which was visited.
pub open spec fn hanging<V: WithID, E: WeightedEdge>(
    t: GraphModel<V, E>,
    m: GraphModel<V, E>,
    start: usize,
    visited: Set<usize>,
    y: Seq<usize>,
    c: Climb,
) -> bool {
    forall|x: usize| #[trigger]
        visited.contains(x) && x != start ==> {
            &&& y.contains(c.parent[x])
            &&& t.has_arc(c.parent[x], x)
            &&& c.depth[x] == c.depth[c.parent[x]] + dist(m, c.parent[x], x)
        }
}

/// The trail leads from the start down to the vertex that was visited last.
pub open spec fn trailing(start: usize, y: Seq<usize>, c: Climb) -> bool {
    &&& c.trail.len() > 0
    &&& c.trail[0] == start
    &&& c.trail.last() == y.last()
    &&& forall|i: int| 0 <= i < c.trail.len() ==> y.contains(#[trigger] c.trail[i])
    &&& forall|i: int|
        0 < i < c.trail.len() ==> (#[trigger] c.trail[i]) != start && c.parent[c.trail[i]] == c.trail[i
            - 1]
}

/// The parents of the vertices that wait are on the trail, the parent of one that
/// waits longer no further down than that of one that came later.
pub open spec fn waiting(pending: Seq<usize>, c: Climb) -> bool {
    &&& c.at.len() == pending.len()
    &&& forall|i: int|
        0 <= i < pending.len() ==> 0 <= (#[trigger] c.at[i]) < c.trail.len() && c.parent[pending[i]]
            == c.trail[c.at[i]]
    &&& forall|i: int, j: int| 0 <= i < j < pending.len() ==> c.at[i] <= c.at[j]
}

/// The parent of the vertex at `k` was visited before it.
pub open spec fn parent_before(parent: Map<usize, usize>, y: Seq<usize>, k: int) -> bool {
    exists|j: int| 0 <= j < k && #[trigger] y[j] == parent[y[k]]
}

/// What holds while a depth-first traversal from `start` walks the tree `t` in the
/// graph `m`, after it has visited `y`: the walk along `y` and then up to the start
/// along the tree weighs at most twice the edges over which `y` was discovered.
pub open spec fn climbing<V: WithID, E: WeightedEdge>(
    t: GraphModel<V, E>,
    m: GraphModel<V, E>,
    start: usize,
    f: Frontier,
    y: Seq<usize>,
    c: Climb,
) -> bool {
    &&& y.len() > 0
    &&& y[0] == start
    &&& c.depth[start] == 0
    &&& hanging(t, m, start, f.visited, y, c)
    &&& forall|k: int| 0 < k < y.len() ==> #[trigger] parent_before(c.parent, y, k)
    &&& trailing(start, y, c)
    &&& waiting(f.pending, c)
    &&& walk_weight(m, y) + c.depth[y.last()] <= 2 * entered(m, c.parent, y)
}

/// Along the trail the way up from a vertex to one above it is no longer than the
/// edges between them weigh.
pub proof fn lemma_trail_metric<V: WithID, E: WeightedEdge>(
    m: GraphModel<V, E>,
    c: Climb,
    j: int,
    k: int,
)
    requires
        m.valid(),
        !m.directed,
        metric(m),
        0 <= j < k < c.trail.len(),
        forall|i: int| 0 <= i < c.trail.len() ==> m.has_vertex(#[trigger] c.trail[i]),
        forall|i: int|
            0 < i < c.trail.len() ==> c.depth[#[trigger] c.trail[i]] == c.depth[c.trail[i - 1]] + dist(
                m,
                c.trail[i - 1],
                c.trail[i],
            ),
    ensures
        dist(m, c.trail[k], c.trail[j]) <= c.depth[c.trail[k]] - c.depth[c.trail[j]],
    decreases k - j,
{
    lemma_dist_back(m, c.trail[k - 1], c.trail[k]);
    assert(c.depth[c.trail[k]] == c.depth[c.trail[k - 1]] + dist(m, c.trail[k - 1], c.trail[k]));
    if k > j + 1 {
        lemma_trail_metric(m, c, j, k - 1);
        assert(m.has_vertex(c.trail[k]) && m.has_vertex(c.trail[k - 1]) && m.has_vertex(c.trail[j]));
        assert(triangle(m, c.trail[k], c.trail[k - 1], c.trail[j]));
    }
}

/// What the edges weigh over which vertices were discovered depends only on the
/// parents of those vertices.
pub proof fn lemma_entered_same<V: WithID, E: WeightedEdge>(
    m: GraphModel<V, E>,
    a: Map<usize, usize>,
    b: Map<usize, usize>,
    y: Seq<usize>,
)
    requires
        forall|i: int| 0 <= i < y.len() ==> a[#[trigger] y[i]] == b[y[i]],
    ensures
        entered(m, a, y) == entered(m, b, y),
    decreases y.len(),
{
    if y.len() > 1 {
        lemma_entered_same(m, a, b, y.drop_last());
        assert(a[y[y.len() - 1]] == b[y[y.len() - 1]]);
    }
}

/// The state after the visit of `s`, whose parent is at `j` on the trail: the
/// vertices that the visit discovered hang on `s`.
pub open spec fn climbed<V: WithID, E: WeightedEdge>(
    m: GraphModel<V, E>,
    known: Set<usize>,
    waited: int,
    after: int,
    c: Climb,
    s: usize,
    j: int,
) -> Climb {
    Climb {
        parent: Map::new(
            |x: usize| true,
            |x: usize|
                if known.contains(x) {
                    c.parent[x]
                } else {
                    s
                },
        ),
        depth: Map::new(
            |x: usize| true,
            |x: usize|
                if known.contains(x) {
                    c.depth[x]
                } else {
                    c.depth[s] + dist(m, s, x)
                },
        ),
        trail: c.trail.take(j + 1).push(s),
        at: Seq::new(
            after as nat,
            |i: int|
                if i < waited {
                    c.at[i]
                } else {
                    j + 1
                },
        ),
    }
}

/// The first visit, of the start vertex.
pub proof fn lemma_climb_start<V: WithID, E: WeightedEdge>(
    t: GraphModel<V, E>,
    m: GraphModel<V, E>,
    start: usize,
) -> (c: Climb)
    requires
        t.valid(),
        t.has_vertex(start),
    ensures
        climbing(
            t,
            m,
            start,
            discover(
                t.out(start),
                t.out(start).len() as int,
                Frontier::of(Seq::empty(), set![start]),
            ),
            seq![start],
            c,
        ),
{
    let rest = Frontier::of(Seq::<usize>::empty(), set![start]);
    let n = t.out(start).len() as int;
    let f2 = discover(t.out(start), n, rest);
    let y = seq![start];
    lemma_discover_shape(t.out(start), n, rest);
    let c = Climb {
        parent: Map::new(|x: usize| true, |x: usize| start),
        depth: Map::new(
            |x: usize| true,
            |x: usize|
                if x == start {
                    0
                } else {
                    dist(m, start, x)
                },
        ),
        trail: seq![start],
        at: Seq::new(f2.pending.len(), |i: int| 0int),
    };
    assert(y[0] == start);
    assert(y.contains(start));
    assert forall|x: usize| #[trigger] f2.visited.contains(x) && x != start implies {
        &&& y.contains(c.parent[x])
        &&& t.has_arc(c.parent[x], x)
        &&& c.depth[x] == c.depth[c.parent[x]] + dist(m, c.parent[x], x)
    } by {
        assert(waits_behind(rest, f2, x));
        let i = choose|i: int| rest.pending.len() <= i < f2.pending.len() && #[trigger] f2.pending[i] == x;
        let k = choose|k: int| 0 <= k < n && (#[trigger] t.out(start)[k]).0 == f2.pending[i];
        lemma_head_joined(t, start, k);
    }
    assert(walk_weight(m, y) == 0);
    assert(entered(m, c.parent, y) == 0);
    c
}

/// The head of an arc that leaves a vertex is joined to it.
pub proof fn lemma_head_joined<V: WithID, E>(m: GraphModel<V, E>, u: usize, k: int)
    requires
        m.valid(),
        0 <= k < m.out(u).len(),
    ensures
        m.has_arc(u, m.out(u)[k].0),
{
    crate::graph::model::lemma_edge_at(m.arcs, u, k);
}

/// The state of the traversal after the visit of the vertex that waits last.
pub open spec fn next_frontier<V: WithID, E>(t: GraphModel<V, E>, f: Frontier) -> Frontier {
    discover(
        t.out(f.pending.last()),
        t.out(f.pending.last()).len() as int,
        Frontier::of(f.pending.drop_last(), f.visited),
    )
}

/// The state of a depth-first traversal of `t` from `start` after `k` visits, and
/// the vertices that it has visited, in order.
pub open spec fn depth_first<V: WithID, E>(t: GraphModel<V, E>, start: usize, k: nat) -> (
    Frontier,
    Seq<usize>,
)
    decreases k,
{
    if k == 0 {
        (Frontier::of(seq![start], set![start]), Seq::empty())
    } else {
        let before = depth_first(t, start, (k - 1) as nat);
        (next_frontier(t, before.0), before.1.push(before.0.pending.last()))
    }
}

/// The round trip `trip` goes along the tree `tree` of the graph `m`: the tree has
/// the vertices of the graph and one edge less, every vertex is reached from the
/// start in it, and the round trip visits the vertices in the order of a
/// depth-first traversal of the tree. In an undirected graph the tree is a
/// lightest spanning tree.
pub open spec fn tree_trip<V: WithID, E: WeightedEdge>(
    m: GraphModel<V, E>,
    tree: GraphModel<V, E>,
    trip: Seq<usize>,
) -> bool {
    &&& trip.len() > 0
    &&& tree.valid()
    &&& subgraph(tree, m)
    &&& tree.vertices.dom() == m.vertices.dom()
    &&& tree.edge_count() + 1 == tree.vertices.dom().len()
    &&& tree.vertices.dom() == reachable_from(tree, trip[0])
    &&& !m.directed ==> lightest_spanning_forest(tree, m)
    &&& trip.drop_last() == depth_first(tree, trip[0], (trip.len() - 1) as nat).1
}

/// What is known of the tree after the visit of the vertex that waits last.
pub open spec fn next_climb<V: WithID, E: WeightedEdge>(
    t: GraphModel<V, E>,
    m: GraphModel<V, E>,
    f: Frontier,
    c: Climb,
) -> Climb {
    climbed(
        m,
        f.visited,
        f.pending.len() - 1,
        next_frontier(t, f).pending.len() as int,
        c,
        f.pending.last(),
        c.at[f.pending.len() - 1],
    )
}

/// What was visited was discovered, and stays visited.
pub proof fn lemma_visited<V: WithID, E>(t: GraphModel<V, E>, start: usize, f: Frontier, y: Seq<usize>, x: usize)
    requires
        frontier_ok(t, start, f, y),
        y.contains(x),
    ensures
        f.visited.contains(x),
        t.has_vertex(x),
        y.push(f.pending.last()).contains(x),
{
    let i = choose|i: int| 0 <= i < y.len() && y[i] == x;
    assert(f.visited.contains(y[i]));
    assert(y.push(f.pending.last())[i] == x);
}

/// After one more visit every vertex that was discovered hangs on its parent.
pub proof fn lemma_step_hanging<V: WithID, E: WeightedEdge>(
    t: GraphModel<V, E>,
    m: GraphModel<V, E>,
    start: usize,
    f: Frontier,
    y: Seq<usize>,
    c: Climb,
)
    requires
        t.valid(),
        frontier_ok(t, start, f, y),
        hanging(t, m, start, f.visited, y, c),
        f.pending.len() > 0,
    ensures
        hanging(t, m, start, next_frontier(t, f).visited, y.push(f.pending.last()), next_climb(t, m, f, c)),
{
    let s = f.pending.last();
    let rest = Frontier::of(f.pending.drop_last(), f.visited);
    let n = t.out(s).len() as int;
    let f2 = next_frontier(t, f);
    let y2 = y.push(s);
    let c2 = next_climb(t, m, f, c);
    lemma_discover_shape(t.out(s), n, rest);
    assert(f.visited.contains(f.pending[f.pending.len() - 1]));
    assert(y2[y.len() as int] == s);
    assert forall|x: usize| #[trigger] f2.visited.contains(x) && x != start implies {
        &&& y2.contains(c2.parent[x])
        &&& t.has_arc(c2.parent[x], x)
        &&& c2.depth[x] == c2.depth[c2.parent[x]] + dist(m, c2.parent[x], x)
    } by {
        if f.visited.contains(x) {
            assert(y.contains(c.parent[x]));
            lemma_visited(t, start, f, y, c.parent[x]);
        } else {
            assert(waits_behind(rest, f2, x));
            let i = choose|i: int| rest.pending.len() <= i < f2.pending.len() && #[trigger] f2.pending[i] == x;
            let k = choose|k: int| 0 <= k < n && (#[trigger] t.out(s)[k]).0 == f2.pending[i];
            lemma_head_joined(t, s, k);
        }
    }
}

/// After one more visit the parent of each visited vertex but the start was
/// visited before it.
pub proof fn lemma_step_order<V: WithID, E: WeightedEdge>(
    t: GraphModel<V, E>,
    m: GraphModel<V, E>,
    start: usize,
    f: Frontier,
    y: Seq<usize>,
    c: Climb,
)
    requires
        frontier_ok(t, start, f, y),
        f.pending.len() > 0,
        y.len() > 0,
        trailing(start, y, c),
        waiting(f.pending, c),
        forall|k: int| 0 < k < y.len() ==> #[trigger] parent_before(c.parent, y, k),
    ensures
        forall|k: int|
            0 < k < y.push(f.pending.last()).len() ==> #[trigger] parent_before(
                next_climb(t, m, f, c).parent,
                y.push(f.pending.last()),
                k,
            ),
{
    let s = f.pending.last();
    let last = f.pending.len() - 1;
    let y2 = y.push(s);
    let c2 = next_climb(t, m, f, c);
    assert(f.visited.contains(f.pending[last]));
    assert(c.parent[f.pending[last]] == c.trail[c.at[last]]);
    assert forall|k: int| 0 < k < y2.len() implies #[trigger] parent_before(c2.parent, y2, k) by {
        if k < y.len() {
            assert(parent_before(c.parent, y, k));
            let i = choose|i: int| 0 <= i < k && #[trigger] y[i] == c.parent[y[k]];
            assert(f.visited.contains(y[k]));
            assert(y2[i] == c2.parent[y2[k]]);
        } else {
            assert(y.contains(c.trail[c.at[last]]));
            let i = choose|i: int| 0 <= i < y.len() && y[i] == c.trail[c.at[last]];
            assert(y2[i] == c2.parent[y2[k]]);
        }
    }
}

/// After one more visit the trail leads down to the vertex that was visited.
pub proof fn lemma_step_trail<V: WithID, E: WeightedEdge>(
    t: GraphModel<V, E>,
    m: GraphModel<V, E>,
    start: usize,
    f: Frontier,
    y: Seq<usize>,
    c: Climb,
)
    requires
        frontier_ok(t, start, f, y),
        f.pending.len() > 0,
        y.len() > 0,
        y[0] == start,
        trailing(start, y, c),
        waiting(f.pending, c),
    ensures
        trailing(start, y.push(f.pending.last()), next_climb(t, m, f, c)),
{
    let s = f.pending.last();
    let last = f.pending.len() - 1;
    let j = c.at[last];
    let y2 = y.push(s);
    let c2 = next_climb(t, m, f, c);
    assert(0 <= c.at[last] < c.trail.len());
    assert(f.visited.contains(f.pending[last]));
    assert(c.parent[f.pending[last]] == c.trail[c.at[last]]);
    assert(s != start) by {
        assert(f.pending[last] != y[0]);
    }
    assert(y2[y.len() as int] == s);
    assert(c2.trail[0] == c.trail[0]);
    assert forall|i: int| 0 <= i < c2.trail.len() implies y2.contains(#[trigger] c2.trail[i]) by {
        if i <= j {
            assert(c2.trail[i] == c.trail[i]);
            assert(y.contains(c.trail[i]));
            lemma_visited(t, start, f, y, c.trail[i]);
        }
    }
    assert forall|i: int| 0 < i < c2.trail.len() implies (#[trigger] c2.trail[i]) != start
        && c2.parent[c2.trail[i]] == c2.trail[i - 1] by {
        if i <= j {
            assert(c2.trail[i] == c.trail[i] && c2.trail[i - 1] == c.trail[i - 1]);
            assert(y.contains(c.trail[i]));
            lemma_visited(t, start, f, y, c.trail[i]);
        } else {
            assert(c2.trail[i] == s);
            assert(c2.trail[i - 1] == c.trail[j]);
        }
    }
}

/// After one more visit the parents of the vertices that wait are on the trail.
pub proof fn lemma_step_waiting<V: WithID, E: WeightedEdge>(
    t: GraphModel<V, E>,
    m: GraphModel<V, E>,
    start: usize,
    f: Frontier,
    y: Seq<usize>,
    c: Climb,
)
    requires
        frontier_ok(t, start, f, y),
        f.pending.len() > 0,
        waiting(f.pending, c),
    ensures
        waiting(next_frontier(t, f).pending, next_climb(t, m, f, c)),
{
    let s = f.pending.last();
    let last = f.pending.len() - 1;
    let rest = Frontier::of(f.pending.drop_last(), f.visited);
    let n = t.out(s).len() as int;
    let f2 = next_frontier(t, f);
    let c2 = next_climb(t, m, f, c);
    lemma_discover_shape(t.out(s), n, rest);
    assert(0 <= c.at[last] < c.trail.len());
    assert forall|i: int| 0 <= i < f2.pending.len() implies 0 <= (#[trigger] c2.at[i]) < c2.trail.len()
        && c2.parent[f2.pending[i]] == c2.trail[c2.at[i]] by {
        if i < rest.pending.len() {
            assert(f2.pending[i] == f2.pending.take(rest.pending.len() as int)[i]);
            assert(f2.pending[i] == f.pending[i]);
            assert(c.at[i] <= c.at[last]);
            assert(0 <= c.at[i] < c.trail.len());
            assert(f.visited.contains(f.pending[i]));
            assert(c.parent[f.pending[i]] == c.trail[c.at[i]]);
            assert(c2.trail[c.at[i]] == c.trail[c.at[i]]);
        } else {
            assert(!f.visited.contains(discover(t.out(s), n, rest).pending[i]));
        }
    }
    assert forall|i: int, k: int| 0 <= i < k < f2.pending.len() implies c2.at[i] <= c2.at[k] by {
        if k < rest.pending.len() {
            assert(c.at[i] <= c.at[k]);
        } else if i < rest.pending.len() {
            assert(c.at[i] <= c.at[last]);
        }
    }
}

/// After one more visit the walk along the visited vertices and up to the start
/// still weighs at most twice the edges over which they were discovered.
pub proof fn lemma_step_weight<V: WithID, E: WeightedEdge>(
    t: GraphModel<V, E>,
    m: GraphModel<V, E>,
    start: usize,
    f: Frontier,
    y: Seq<usize>,
    c: Climb,
)
    requires
        m.valid(),
        !m.directed,
        metric(m),
        subgraph(t, m),
        frontier_ok(t, start, f, y),
        climbing(t, m, start, f, y, c),
        f.pending.len() > 0,
    ensures
        walk_weight(m, y.push(f.pending.last())) + next_climb(t, m, f, c).depth[f.pending.last()] <= 2
            * entered(m, next_climb(t, m, f, c).parent, y.push(f.pending.last())),
{
    let s = f.pending.last();
    let last = f.pending.len() - 1;
    let j = c.at[last];
    let a = c.trail[j];
    let y2 = y.push(s);
    let c2 = next_climb(t, m, f, c);
    let v = y.last();
    assert(0 <= c.at[last] < c.trail.len());
    assert(f.visited.contains(f.pending[last]));
    assert(c.parent[f.pending[last]] == c.trail[c.at[last]]);
    assert(s != start) by {
        assert(f.pending[last] != y[0]);
    }
    assert(y2.drop_last() =~= y);
    assert(y2[y2.len() - 2] == v);
    assert(walk_weight(m, y2) == walk_weight(m, y) + dist(m, v, s));
    assert forall|i: int| 0 <= i < y.len() implies c.parent[#[trigger] y[i]] == c2.parent[y[i]] by {
        assert(f.visited.contains(y[i]));
    }
    lemma_entered_same(m, c.parent, c2.parent, y);
    assert(entered(m, c2.parent, y2) == entered(m, c2.parent, y) + dist(m, c2.parent[s], s));
    assert(c.depth[s] == c.depth[a] + dist(m, a, s));
    assert(c2.depth[s] == c.depth[s]);
    assert forall|i: int| 0 <= i < c.trail.len() implies m.has_vertex(#[trigger] c.trail[i]) by {
        assert(y.contains(c.trail[i]));
        lemma_visited(t, start, f, y, c.trail[i]);
    }
    assert forall|i: int| 0 < i < c.trail.len() implies c.depth[#[trigger] c.trail[i]] == c.depth[c.trail[i
        - 1]] + dist(m, c.trail[i - 1], c.trail[i]) by {
        assert(y.contains(c.trail[i]));
        lemma_visited(t, start, f, y, c.trail[i]);
        assert(f.visited.contains(c.trail[i]) && c.trail[i] != start);
    }
    if j < c.trail.len() - 1 {
        lemma_trail_metric(m, c, j, c.trail.len() - 1);
        assert(t.has_vertex(s));
        assert(m.has_vertex(v) && m.has_vertex(a) && m.has_vertex(s));
        assert(triangle(m, v, a, s));
    }
}

/// One more visit: the vertex that waited last is visited, and what its arcs lead
/// to and was not discovered before waits.
pub proof fn lemma_climb_step<V: WithID, E: WeightedEdge>(
    t: GraphModel<V, E>,
    m: GraphModel<V, E>,
    start: usize,
    f: Frontier,
    y: Seq<usize>,
    c: Climb,
)
    requires
        t.valid(),
        m.valid(),
        !m.directed,
        metric(m),
        subgraph(t, m),
        frontier_ok(t, start, f, y),
        climbing(t, m, start, f, y, c),
        f.pending.len() > 0,
    ensures
        climbing(t, m, start, next_frontier(t, f), y.push(f.pending.last()), next_climb(t, m, f, c)),
{
    lemma_step_hanging(t, m, start, f, y, c);
    lemma_step_order(t, m, start, f, y, c);
    lemma_step_trail(t, m, start, f, y, c);
    lemma_step_waiting(t, m, start, f, y, c);
    lemma_step_weight(t, m, start, f, y, c);
    assert(f.visited.contains(start));
    assert(y.push(f.pending.last())[0] == start);
    assert(y.push(f.pending.last()).last() == f.pending.last());
}

/// The edges over which the vertices of `y` but the first were discovered.
pub open spec fn entries(parent: Map<usize, usize>, y: Seq<usize>) -> Seq<(usize, usize)> {
    Seq::new(
        if y.len() == 0 {
            0
        } else {
            (y.len() - 1) as nat
        },
        |k: int| edge_key(parent[y[k + 1]], y[k + 1]),
    )
}

/// The edges over which vertices were discovered weigh what was counted for them.
pub proof fn lemma_entries_weight<V: WithID, E: WeightedEdge>(
    m: GraphModel<V, E>,
    parent: Map<usize, usize>,
    y: Seq<usize>,
)
    requires
        m.valid(),
        !m.directed,
    ensures
        seq_weight(m.arcs, entries(parent, y)) == entered(m, parent, y),
    decreases y.len(),
{
    if y.len() > 1 {
        lemma_entries_weight(m, parent, y.drop_last());
        assert(entries(parent, y).drop_last() =~= entries(parent, y.drop_last()));
        lemma_dist_back(m, parent[y.last()], y.last());
        assert(entries(parent, y).last() == edge_key(parent[y[y.len() - 2 + 1]], y[y.len() - 2 + 1]));
    }
}

/// After the last visit: the round trip along the visited vertices and back to the
/// start weighs at most twice what the tree weighs.
pub proof fn lemma_climb_end<V: WithID, E: WeightedEdge>(
    t: GraphModel<V, E>,
    m: GraphModel<V, E>,
    start: usize,
    f: Frontier,
    y: Seq<usize>,
    c: Climb,
)
    requires
        t.valid(),
        m.valid(),
        !m.directed,
        metric(m),
        subgraph(t, m),
        frontier_ok(t, start, f, y),
        climbing(t, m, start, f, y, c),
        y.len() >= 2,
        y.no_duplicates(),
        t.edge_count() + 1 == y.len(),
    ensures
        walk_weight(m, y.push(start)) <= 2 * set_weight(m.arcs, t.canonical_arcs()),
{
    let tour = y.push(start);
    let l = entries(c.parent, y);
    assert(tour.drop_last() =~= y);
    assert(tour[tour.len() - 2] == y.last());
    assert(walk_weight(m, tour) == walk_weight(m, y) + dist(m, y.last(), start));
    assert forall|i: int| 0 <= i < y.len() implies f.visited.contains(#[trigger] y[i]) by {}
    assert forall|x: usize| y.contains(x) implies f.visited.contains(x) by {
        let i = choose|i: int| 0 <= i < y.len() && y[i] == x;
        assert(f.visited.contains(y[i]));
    }
    // The way back to the start.
    assert(y.last() != start) by {
        assert(y[y.len() - 1] != y[0]);
    }
    assert(c.trail.len() >= 2);
    assert forall|i: int| 0 <= i < c.trail.len() implies m.has_vertex(#[trigger] c.trail[i]) by {
        assert(y.contains(c.trail[i]));
        assert(f.visited.contains(c.trail[i]));
        assert(t.has_vertex(c.trail[i]));
    }
    assert forall|i: int| 0 < i < c.trail.len() implies c.depth[#[trigger] c.trail[i]] == c.depth[c.trail[i
        - 1]] + dist(m, c.trail[i - 1], c.trail[i]) by {
        assert(y.contains(c.trail[i]));
        assert(f.visited.contains(c.trail[i]) && c.trail[i] != start);
    }
    lemma_trail_metric(m, c, 0, c.trail.len() - 1);
    // The edges that were counted are the edges of the tree.
    lemma_entries_weight(m, c.parent, y);
    assert forall|k: int| 0 <= k < l.len() implies t.canonical_arcs().contains(#[trigger] l[k]) by {
        let x = y[k + 1];
        assert(x != y[0]);
        assert(f.visited.contains(x) && x != start);
        assert(t.has_arc(c.parent[x], x));
        lemma_arc_payload_back(t, c.parent[x], x);
    }
    assert(l.no_duplicates()) by {
        assert forall|i: int, k: int| 0 <= i < l.len() && 0 <= k < l.len() && i != k implies l[i] != l[k] by {
            let x = y[i + 1];
            let z = y[k + 1];
            assert(x != z);
            if l[i] == l[k] {
                assert(c.parent[x] == z && c.parent[z] == x);
                assert(parent_before(c.parent, y, i + 1));
                assert(parent_before(c.parent, y, k + 1));
                let ix = choose|ix: int| 0 <= ix < i + 1 && #[trigger] y[ix] == c.parent[y[i + 1]];
                let iz = choose|iz: int| 0 <= iz < k + 1 && #[trigger] y[iz] == c.parent[y[k + 1]];
                assert(y[ix] == y[k + 1]);
                assert(y[iz] == y[i + 1]);
            }
        }
    }
    let b = l.to_set();
    lemma_listing_len(l, b);
    assert(b.subset_of(t.canonical_arcs())) by {
        assert forall|e: (usize, usize)| b.contains(e) implies t.canonical_arcs().contains(e) by {
            let k = choose|k: int| 0 <= k < l.len() && l[k] == e;
            assert(t.canonical_arcs().contains(l[k]));
        }
    }
    vstd::set_lib::lemma_subset_equality(b, t.canonical_arcs());
    lemma_listing_weight(m.arcs, l, t.canonical_arcs());
}

} // verus!
