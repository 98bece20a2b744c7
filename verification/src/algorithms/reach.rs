//! Walks and reachability in a graph, and the state of a traversal that discovers
//! what can be reached from a start vertex.

use vstd::prelude::*;
use rustc_hash::FxHashSet;
use crate::fx::{set_contains, set_insert};
use crate::graph::model::GraphModel;
use crate::graph::{Graph, GraphBase, WithID};

verus! {

/// `p` is a walk: a sequence of vertices, each joined to the next by an arc.
pub open spec fn is_walk<V: WithID, E>(m: GraphModel<V, E>, p: Seq<usize>) -> bool {
    &&& p.len() > 0
    &&& m.has_vertex(p[0])
    &&& forall|i: int| 0 <= i < p.len() - 1 ==> m.has_arc(#[trigger] p[i], p[i + 1])
}

/// A walk leads from `s` to `t`.
pub open spec fn reaches<V: WithID, E>(m: GraphModel<V, E>, s: usize, t: usize) -> bool {
    exists|p: Seq<usize>| #[trigger] is_walk(m, p) && p[0] == s && p.last() == t
}

/// The vertices that can be reached from `s`; `s` itself is one of them.
pub open spec fn reachable_from<V: WithID, E>(m: GraphModel<V, E>, s: usize) -> Set<usize> {
    Set::new(|t: usize| reaches(m, s, t))
}

/// A vertex reaches itself.
pub proof fn lemma_reaches_self<V: WithID, E>(m: GraphModel<V, E>, s: usize)
    requires
        m.has_vertex(s),
    ensures
        reaches(m, s, s),
{
    assert(is_walk(m, seq![s]));
}

/// A walk can be continued along an arc.
pub proof fn lemma_reaches_step<V: WithID, E>(m: GraphModel<V, E>, s: usize, u: usize, w: usize)
    requires
        reaches(m, s, u),
        m.has_arc(u, w),
    ensures
        reaches(m, s, w),
{
    let p = choose|p: Seq<usize>| #[trigger] is_walk(m, p) && p[0] == s && p.last() == u;
    let q = p.push(w);
    assert forall|i: int| 0 <= i < q.len() - 1 implies m.has_arc(#[trigger] q[i], q[i + 1]) by {
        if i < p.len() - 1 {
            assert(q[i] == p[i] && q[i + 1] == p[i + 1]);
            assert(m.has_arc(p[i], p[i + 1]));
        }
    }
    assert(is_walk(m, q));
}

/// A set that holds `s` and with each vertex the heads of its arcs holds every
/// vertex that `s` reaches.
pub proof fn lemma_closed_set<V: WithID, E>(m: GraphModel<V, E>, set: Set<usize>, s: usize, t: usize)
    requires
        set.contains(s),
        forall|u: usize, w: usize| set.contains(u) && #[trigger] m.has_arc(u, w) ==> set.contains(w),
        reaches(m, s, t),
    ensures
        set.contains(t),
{
    let p = choose|p: Seq<usize>| #[trigger] is_walk(m, p) && p[0] == s && p.last() == t;
    lemma_walk_stays(m, set, p, p.len() - 1);
}

proof fn lemma_walk_stays<V: WithID, E>(m: GraphModel<V, E>, set: Set<usize>, p: Seq<usize>, i: int)
    requires
        is_walk(m, p),
        set.contains(p[0]),
        forall|u: usize, w: usize| set.contains(u) && #[trigger] m.has_arc(u, w) ==> set.contains(w),
        0 <= i < p.len(),
    ensures
        set.contains(p[i]),
    decreases i,
{
    if i > 0 {
        lemma_walk_stays(m, set, p, i - 1);
        assert(m.has_arc(p[i - 1], p[i - 1 + 1]));
    }
}

/// What is reached in a graph is reached in every graph that has its vertices and
/// arcs.
pub proof fn lemma_reaches_grows<V: WithID, E>(a: GraphModel<V, E>, b: GraphModel<V, E>, s: usize, x: usize)
    requires
        forall|u: usize, w: usize| #[trigger] a.has_arc(u, w) ==> b.has_arc(u, w),
        forall|v: usize| #[trigger] a.has_vertex(v) ==> b.has_vertex(v),
        reaches(a, s, x),
    ensures
        reaches(b, s, x),
{
    let p = choose|p: Seq<usize>| #[trigger] is_walk(a, p) && p[0] == s && p.last() == x;
    assert forall|i: int| 0 <= i < p.len() - 1 implies b.has_arc(#[trigger] p[i], p[i + 1]) by {
        assert(a.has_arc(p[i], p[i + 1]));
    }
    assert(is_walk(b, p));
}

/// Every vertex of a walk is a vertex of the graph.
pub proof fn lemma_walk_vertices<V: WithID, E>(m: GraphModel<V, E>, p: Seq<usize>, i: int)
    requires
        m.valid(),
        is_walk(m, p),
        0 <= i < p.len(),
    ensures
        m.has_vertex(p[i]),
{
    if i > 0 {
        assert(m.has_arc(p[i - 1], p[i - 1 + 1]));
        let k = m.arc_index(p[i - 1], p[i]);
        assert(m.arc_at(p[i - 1], k, p[i]));
        assert(m.has_vertex(m.out(p[i - 1])[k].0));
    }
}

/// The ends of an arc are vertices.
pub proof fn lemma_reaches_vertex_arc<V: WithID, E>(m: GraphModel<V, E>, u: usize, w: usize)
    requires
        m.valid(),
        m.has_arc(u, w),
    ensures
        m.has_vertex(u),
        m.has_vertex(w),
{
    let k = m.arc_index(u, w);
    assert(m.arc_at(u, k, w));
    assert(m.has_vertex(m.out(u)[k].0));
    assert(m.arcs.dom().contains(u));
}

/// What a vertex reaches is a vertex.
pub proof fn lemma_reaches_vertex<V: WithID, E>(m: GraphModel<V, E>, s: usize, t: usize)
    requires
        m.valid(),
        reaches(m, s, t),
    ensures
        m.has_vertex(s),
        m.has_vertex(t),
{
    let p = choose|p: Seq<usize>| #[trigger] is_walk(m, p) && p[0] == s && p.last() == t;
    lemma_walk_vertices(m, p, p.len() - 1);
}

/// Two walks, the second from where the first ends, make one walk.
pub proof fn lemma_reaches_trans<V: WithID, E>(m: GraphModel<V, E>, a: usize, b: usize, c: usize)
    requires
        reaches(m, a, b),
        reaches(m, b, c),
    ensures
        reaches(m, a, c),
{
    let p = choose|p: Seq<usize>| #[trigger] is_walk(m, p) && p[0] == a && p.last() == b;
    let q = choose|q: Seq<usize>| #[trigger] is_walk(m, q) && q[0] == b && q.last() == c;
    let r = p + q.drop_first();
    assert forall|i: int| 0 <= i < r.len() - 1 implies m.has_arc(#[trigger] r[i], r[i + 1]) by {
        if i < p.len() - 1 {
            assert(r[i] == p[i] && r[i + 1] == p[i + 1]);
            assert(m.has_arc(p[i], p[i + 1]));
        } else {
            let j = i - (p.len() - 1);
            assert(r[i] == q[j] && r[i + 1] == q[j + 1]);
            assert(m.has_arc(q[j], q[j + 1]));
        }
    }
    assert(r[0] == a);
    assert(is_walk(m, r));
    assert(r.last() == c);
}

/// In an undirected graph every arc has its reverse.
pub proof fn lemma_arc_back<V: WithID, E>(m: GraphModel<V, E>, u: usize, w: usize)
    requires
        m.valid(),
        !m.directed,
        m.has_arc(u, w),
    ensures
        m.has_arc(w, u),
{
    let k = m.arc_index(u, w);
    assert(m.arc_at(u, k, w));
    let arc = m.out(u)[k];
    assert(m.edge(arc.0, u) == Some(arc.1));
}

/// In an undirected graph a walk can be walked back.
pub proof fn lemma_reaches_back<V: WithID, E>(m: GraphModel<V, E>, s: usize, t: usize)
    requires
        m.valid(),
        !m.directed,
        reaches(m, s, t),
    ensures
        reaches(m, t, s),
{
    let p = choose|p: Seq<usize>| #[trigger] is_walk(m, p) && p[0] == s && p.last() == t;
    let r = p.reverse();
    lemma_walk_vertices(m, p, p.len() - 1);
    assert forall|i: int| 0 <= i < r.len() - 1 implies m.has_arc(#[trigger] r[i], r[i + 1]) by {
        let j = p.len() - 2 - i;
        assert(r[i] == p[j + 1] && r[i + 1] == p[j]);
        assert(m.has_arc(p[j], p[j + 1]));
        lemma_arc_back(m, p[j], p[j + 1]);
    }
    assert(is_walk(m, r));
    assert(r[0] == t && r.last() == s);
}

/// The sets of vertices that can reach each other, in an undirected graph its
/// connected components: for each vertex the set of what it reaches.
pub open spec fn components<V: WithID, E>(m: GraphModel<V, E>) -> Set<Set<usize>> {
    Set::new(|c: Set<usize>| exists|v: usize| m.has_vertex(v) && c == #[trigger] reachable_from(m, v))
}

/// In an undirected graph two vertices of which one reaches the other reach the
/// same vertices.
pub proof fn lemma_same_component<V: WithID, E>(m: GraphModel<V, E>, s: usize, t: usize)
    requires
        m.valid(),
        !m.directed,
        reaches(m, s, t),
    ensures
        reachable_from(m, s) == reachable_from(m, t),
{
    lemma_reaches_back(m, s, t);
    assert forall|x: usize| reaches(m, s, x) <==> reaches(m, t, x) by {
        if reaches(m, s, x) {
            lemma_reaches_trans(m, t, s, x);
        }
        if reaches(m, t, x) {
            lemma_reaches_trans(m, s, t, x);
        }
    }
    assert(reachable_from(m, s) =~= reachable_from(m, t));
}

/// The state of a traversal: the vertices that wait to be visited, in order, and
/// those that have been discovered.
pub struct Frontier {
    pub pending: Seq<usize>,
    pub visited: Set<usize>,
}

impl Frontier {
    /// The state where `pending` wait and `visited` are discovered.
    pub open spec fn of(pending: Seq<usize>, visited: Set<usize>) -> Frontier {
        Frontier { pending, visited }
    }
}

/// The state after the heads of the first `n` of the arcs `out` have been looked
/// at: each head that was not discovered before is discovered and waits last.
pub open spec fn discover<E>(out: Seq<(usize, E)>, n: int, f: Frontier) -> Frontier
    decreases n,
{
    if n <= 0 {
        f
    } else {
        let g = discover(out, n - 1, f);
        let w = out[n - 1].0;
        if g.visited.contains(w) {
            g
        } else {
            Frontier::of(g.pending.push(w), g.visited.insert(w))
        }
    }
}

/// What holds of a traversal from `start` that has visited `yielded`, whatever the
/// arcs of the visited vertices lead to.
pub open spec fn frontier_base<V: WithID, E>(
    m: GraphModel<V, E>,
    start: usize,
    f: Frontier,
    yielded: Seq<usize>,
) -> bool {
    &&& f.visited.finite()
    &&& forall|x: usize| #[trigger] f.visited.contains(x) ==> m.has_vertex(x) && reaches(m, start, x)
    &&& forall|i: int| 0 <= i < f.pending.len() ==> f.visited.contains(#[trigger] f.pending[i])
    &&& f.pending.no_duplicates()
    &&& yielded.no_duplicates()
    &&& forall|i: int| 0 <= i < yielded.len() ==> f.visited.contains(#[trigger] yielded[i])
    &&& forall|x: usize| #[trigger]
        f.visited.contains(x) ==> f.pending.contains(x) || yielded.contains(x)
    &&& forall|i: int, j: int|
        0 <= i < f.pending.len() && 0 <= j < yielded.len() ==> #[trigger] f.pending[i]
            != #[trigger] yielded[j]
    &&& f.visited.contains(start)
}

/// Every head of an arc that leaves a visited vertex is discovered.
pub open spec fn frontier_closed<V: WithID, E>(
    m: GraphModel<V, E>,
    visited: Set<usize>,
    yielded: Seq<usize>,
) -> bool {
    forall|i: int, k: int|
        0 <= i < yielded.len() && 0 <= k < m.out(yielded[i]).len() ==> visited.contains(
            #[trigger] m.out(yielded[i])[k].0,
        )
}

/// What holds of a traversal between two visits.
pub open spec fn frontier_ok<V: WithID, E>(
    m: GraphModel<V, E>,
    start: usize,
    f: Frontier,
    yielded: Seq<usize>,
) -> bool {
    frontier_base(m, start, f, yielded) && frontier_closed(m, f.visited, yielded)
}

/// What holds while the arcs of `u`, the vertex being visited, are looked at, after
/// the first `n` of them.
pub open spec fn frontier_visiting<V: WithID, E>(
    m: GraphModel<V, E>,
    start: usize,
    f: Frontier,
    yielded: Seq<usize>,
    u: usize,
    n: int,
) -> bool {
    &&& frontier_base(m, start, f, yielded.push(u))
    &&& frontier_closed(m, f.visited, yielded)
    &&& forall|k: int| 0 <= k < n ==> f.visited.contains(#[trigger] m.out(u)[k].0)
}

/// How many visits are left at most: one for each vertex that waits and one for
/// each that is not discovered.
pub open spec fn visits_left<V: WithID, E>(m: GraphModel<V, E>, f: Frontier) -> int {
    m.vertices.dom().len() - f.visited.len() + f.pending.len()
}

/// The visits that are left are not negative.
pub proof fn lemma_visits_left<V: WithID, E>(
    m: GraphModel<V, E>,
    start: usize,
    f: Frontier,
    yielded: Seq<usize>,
)
    requires
        m.valid(),
        frontier_base(m, start, f, yielded),
    ensures
        f.visited.len() <= m.vertices.dom().len(),
        visits_left(m, f) >= 0,
{
    assert(f.visited.subset_of(m.vertices.dom()));
    vstd::set_lib::lemma_len_subset(f.visited, m.vertices.dom());
}

/// The traversal as it starts: `start` is discovered and waits.
pub proof fn lemma_frontier_start<V: WithID, E>(m: GraphModel<V, E>, start: usize)
    requires
        m.has_vertex(start),
    ensures
        frontier_ok(m, start, Frontier::of(seq![start], set![start]), Seq::empty()),
{
    lemma_reaches_self(m, start);
    let f = Frontier::of(seq![start], set![start]);
    assert(f.pending[0] == start);
    assert forall|x: usize| f.visited.contains(x) implies f.pending.contains(x) by {
        assert(f.pending[0] == x);
    }
}

/// Taking the vertex that waits at position `at` begins its visit.
pub proof fn lemma_frontier_take<V: WithID, E>(
    m: GraphModel<V, E>,
    start: usize,
    f: Frontier,
    yielded: Seq<usize>,
    at: int,
)
    requires
        frontier_ok(m, start, f, yielded),
        0 <= at < f.pending.len(),
    ensures
        frontier_visiting(
            m,
            start,
            Frontier::of(f.pending.remove(at), f.visited),
            yielded,
            f.pending[at],
            0,
        ),
        visits_left(m, Frontier::of(f.pending.remove(at), f.visited)) + 1
            == visits_left(m, f),
{
    let u = f.pending[at];
    let rest = f.pending.remove(at);
    let g = Frontier::of(rest, f.visited);
    let y2 = yielded.push(u);
    assert forall|i: int| 0 <= i < rest.len() implies f.visited.contains(#[trigger] rest[i])
        && rest[i] != u by {
        if i < at {
            assert(rest[i] == f.pending[i]);
        } else {
            assert(rest[i] == f.pending[i + 1]);
        }
    }
    assert(rest.no_duplicates()) by {
        assert forall|i: int, j: int| 0 <= i < rest.len() && 0 <= j < rest.len() && i
            != j implies rest[i] != rest[j] by {
            let i0 = if i < at {
                i
            } else {
                i + 1
            };
            let j0 = if j < at {
                j
            } else {
                j + 1
            };
            assert(rest[i] == f.pending[i0] && rest[j] == f.pending[j0]);
        }
    }
    assert(y2.no_duplicates()) by {
        assert forall|i: int, j: int| 0 <= i < y2.len() && 0 <= j < y2.len() && i != j implies y2[i]
            != y2[j] by {
            if i < yielded.len() && j < yielded.len() {
                assert(y2[i] == yielded[i] && y2[j] == yielded[j]);
            } else if i < yielded.len() {
                assert(f.pending[at] != yielded[i]);
            } else {
                assert(f.pending[at] != yielded[j]);
            }
        }
    }
    assert forall|i: int| 0 <= i < y2.len() implies f.visited.contains(#[trigger] y2[i]) by {
        if i < yielded.len() {
            assert(y2[i] == yielded[i]);
        }
    }
    assert forall|x: usize| f.visited.contains(x) implies rest.contains(x) || y2.contains(x) by {
        if x == u {
            assert(y2[yielded.len() as int] == u);
        } else if f.pending.contains(x) {
            let i = choose|i: int| 0 <= i < f.pending.len() && f.pending[i] == x;
            if i < at {
                assert(rest[i] == x);
            } else {
                assert(rest[i - 1] == x);
            }
        } else {
            let j = choose|j: int| 0 <= j < yielded.len() && yielded[j] == x;
            assert(y2[j] == x);
        }
    }
    assert forall|i: int, j: int| 0 <= i < rest.len() && 0 <= j < y2.len() implies #[trigger] rest[i]
        != #[trigger] y2[j] by {
        let i0 = if i < at {
            i
        } else {
            i + 1
        };
        assert(rest[i] == f.pending[i0]);
        if j < yielded.len() {
            assert(y2[j] == yielded[j]);
        }
    }
}

/// Looking at one more arc of the vertex being visited.
pub proof fn lemma_frontier_look<V: WithID, E>(
    m: GraphModel<V, E>,
    start: usize,
    f: Frontier,
    yielded: Seq<usize>,
    u: usize,
    n: int,
)
    requires
        m.valid(),
        frontier_visiting(m, start, f, yielded, u, n),
        0 <= n < m.out(u).len(),
    ensures
        ({
            let w = m.out(u)[n].0;
            let g = if f.visited.contains(w) {
                f
            } else {
                Frontier::of(f.pending.push(w), f.visited.insert(w))
            };
            frontier_visiting(m, start, g, yielded, u, n + 1) && visits_left(m, g) == visits_left(
                m,
                f,
            ) && f.visited.len() <= m.vertices.dom().len()
        }),
{
    let w = m.out(u)[n].0;
    let y2 = yielded.push(u);
    assert(f.visited.contains(y2[yielded.len() as int]));
    crate::graph::model::lemma_edge_at(m.arcs, u, n);
    assert(m.has_vertex(m.out(u)[n].0));
    lemma_reaches_step(m, start, u, w);
    assert(f.visited.subset_of(m.vertices.dom()));
    vstd::set_lib::lemma_len_subset(f.visited, m.vertices.dom());
    if !f.visited.contains(w) {
        let g = Frontier::of(f.pending.push(w), f.visited.insert(w));
        assert forall|i: int| 0 <= i < g.pending.len() implies g.visited.contains(
            #[trigger] g.pending[i],
        ) by {
            if i < f.pending.len() {
                assert(g.pending[i] == f.pending[i]);
            }
        }
        assert(g.pending.no_duplicates()) by {
            assert forall|i: int, j: int| 0 <= i < g.pending.len() && 0 <= j < g.pending.len() && i
                != j implies g.pending[i] != g.pending[j] by {
                if i < f.pending.len() {
                    assert(g.pending[i] == f.pending[i]);
                }
                if j < f.pending.len() {
                    assert(g.pending[j] == f.pending[j]);
                }
            }
        }
        assert forall|x: usize| g.visited.contains(x) implies g.pending.contains(x) || y2.contains(
            x,
        ) by {
            if x == w {
                assert(g.pending[f.pending.len() as int] == w);
            } else if f.pending.contains(x) {
                let i = choose|i: int| 0 <= i < f.pending.len() && f.pending[i] == x;
                assert(g.pending[i] == x);
            }
        }
        assert forall|i: int, j: int| 0 <= i < g.pending.len() && 0 <= j < y2.len() implies #[trigger] g.pending[i]
            != #[trigger] y2[j] by {
            if i < f.pending.len() {
                assert(g.pending[i] == f.pending[i]);
            } else {
                assert(f.visited.contains(y2[j]));
            }
        }
        assert(g.visited.subset_of(m.vertices.dom()));
        vstd::set_lib::lemma_len_subset(g.visited, m.vertices.dom());
    }
}

/// The visit of `u` ends when all its arcs have been looked at.
pub proof fn lemma_frontier_done<V: WithID, E>(
    m: GraphModel<V, E>,
    start: usize,
    f: Frontier,
    yielded: Seq<usize>,
    u: usize,
)
    requires
        frontier_visiting(m, start, f, yielded, u, m.out(u).len() as int),
    ensures
        frontier_ok(m, start, f, yielded.push(u)),
{
    let y2 = yielded.push(u);
    assert forall|i: int, k: int| 0 <= i < y2.len() && 0 <= k < m.out(y2[i]).len() implies f.visited.contains(
        #[trigger] m.out(y2[i])[k].0,
    ) by {
        if i < yielded.len() {
            assert(y2[i] == yielded[i]);
        }
    }
}

/// When no vertex waits, the visited vertices are those that `start` reaches.
pub proof fn lemma_frontier_end<V: WithID, E>(
    m: GraphModel<V, E>,
    start: usize,
    f: Frontier,
    yielded: Seq<usize>,
)
    requires
        frontier_ok(m, start, f, yielded),
        f.pending.len() == 0,
    ensures
        yielded.no_duplicates(),
        yielded.to_set() == reachable_from(m, start),
{
    assert forall|u: usize, w: usize| f.visited.contains(u) && #[trigger] m.has_arc(u, w) implies f.visited.contains(
        w,
    ) by {
        assert(yielded.contains(u));
        let i = choose|i: int| 0 <= i < yielded.len() && yielded[i] == u;
        let k = m.arc_index(u, w);
        assert(m.arc_at(u, k, w));
        assert(f.visited.contains(m.out(yielded[i])[k].0));
    }
    assert forall|t: usize| yielded.to_set().contains(t) <==> reachable_from(m, start).contains(
        t,
    ) by {
        if reaches(m, start, t) {
            lemma_closed_set(m, f.visited, start, t);
            assert(yielded.contains(t));
        }
        if yielded.contains(t) {
            let i = choose|i: int| 0 <= i < yielded.len() && yielded[i] == t;
            assert(f.visited.contains(yielded[i]));
        }
    }
    assert(yielded.to_set() =~= reachable_from(m, start));
}

/// Another payload for a vertex, under whatever id, leaves walks and what a
/// traversal has found as they are.
pub proof fn lemma_frontier_payload<V: WithID, E>(
    m: GraphModel<V, E>,
    id: usize,
    v: V,
    start: usize,
    f: Frontier,
    yielded: Seq<usize>,
)
    requires
        m.has_vertex(id),
        frontier_ok(m, start, f, yielded),
    ensures
        frontier_ok(m.with_payload(id, v), start, f, yielded),
        visits_left(m.with_payload(id, v), f) == visits_left(m, f),
        reachable_from(m.with_payload(id, v), start) == reachable_from(m, start),
{
    let m2 = m.with_payload(id, v);
    assert(m2.vertices.dom() =~= m.vertices.dom());
    assert forall|p: Seq<usize>| #[trigger] is_walk(m2, p) == is_walk(m, p) by {}
    assert forall|x: usize| #[trigger] reaches(m2, start, x) == reaches(m, start, x) by {
        if reaches(m, start, x) {
            let p = choose|p: Seq<usize>| #[trigger] is_walk(m, p) && p[0] == start && p.last() == x;
            assert(is_walk(m2, p));
        }
        if reaches(m2, start, x) {
            let p = choose|p: Seq<usize>| #[trigger] is_walk(m2, p) && p[0] == start && p.last() == x;
            assert(is_walk(m, p));
        }
    }
    assert(reachable_from(m2, start) =~= reachable_from(m, start));
    assert forall|x: usize| #[trigger] f.visited.contains(x) implies m2.has_vertex(x) && reaches(
        m2,
        start,
        x,
    ) by {
        assert(m.has_vertex(x) && reaches(m, start, x));
        assert(reaches(m2, start, x) == reaches(m, start, x));
    }
    assert(frontier_base(m2, start, f, yielded));
    assert(frontier_closed(m2, f.visited, yielded)) by {
        assert forall|i: int, k: int|
            0 <= i < yielded.len() && 0 <= k < m2.out(yielded[i]).len() implies f.visited.contains(
            #[trigger] m2.out(yielded[i])[k].0,
        ) by {
            assert(f.visited.contains(m.out(yielded[i])[k].0));
        }
    }
}

/// Looking at the first `n` arcs of the vertex being visited.
pub proof fn lemma_frontier_discover<V: WithID, E>(
    m: GraphModel<V, E>,
    start: usize,
    f: Frontier,
    yielded: Seq<usize>,
    u: usize,
    n: int,
)
    requires
        m.valid(),
        frontier_visiting(m, start, f, yielded, u, 0),
        0 <= n <= m.out(u).len(),
    ensures
        frontier_visiting(m, start, discover(m.out(u), n, f), yielded, u, n),
        visits_left(m, discover(m.out(u), n, f)) == visits_left(m, f),
    decreases n,
{
    if n > 0 {
        lemma_frontier_discover(m, start, f, yielded, u, n - 1);
        lemma_frontier_look(m, start, discover(m.out(u), n - 1, f), yielded, u, n - 1);
    }
}

/// What is discovered does not depend on what waits, and those who waited before
/// wait first afterwards.
pub proof fn lemma_discover_split<E>(out: Seq<(usize, E)>, n: int, pending: Seq<usize>, visited: Set<usize>)
    ensures
        discover(out, n, Frontier { pending, visited }).visited == discover(
            out,
            n,
            Frontier { pending: Seq::empty(), visited },
        ).visited,
        discover(out, n, Frontier { pending, visited }).pending == pending + discover(
            out,
            n,
            Frontier { pending: Seq::empty(), visited },
        ).pending,
    decreases n,
{
    let bare = Frontier { pending: Seq::<usize>::empty(), visited };
    if n > 0 {
        lemma_discover_split(out, n - 1, pending, visited);
        let g = discover(out, n - 1, bare);
        let w = out[n - 1].0;
        if !g.visited.contains(w) {
            assert((pending + g.pending).push(w) =~= pending + g.pending.push(w));
        }
    } else {
        assert(pending + Seq::<usize>::empty() =~= pending);
    }
}

/// `x` waits in `g` behind all that waited in `f`.
pub open spec fn waits_behind(f: Frontier, g: Frontier, x: usize) -> bool {
    exists|i: int| f.pending.len() <= i < g.pending.len() && #[trigger] g.pending[i] == x
}

/// What looking at arcs leaves behind: those who waited wait first, then those who
/// were discovered, each the head of one of the arcs and not discovered before.
pub proof fn lemma_discover_shape<E>(out: Seq<(usize, E)>, n: int, f: Frontier)
    requires
        0 <= n <= out.len(),
    ensures
        discover(out, n, f).pending.len() >= f.pending.len(),
        discover(out, n, f).pending.take(f.pending.len() as int) == f.pending,
        forall|i: int|
            f.pending.len() <= i < discover(out, n, f).pending.len() ==> !f.visited.contains(
                #[trigger] discover(out, n, f).pending[i],
            ) && exists|k: int| 0 <= k < n && (#[trigger] out[k]).0 == discover(out, n, f).pending[i],
        forall|x: usize| #[trigger]
            discover(out, n, f).visited.contains(x) <==> f.visited.contains(x) || waits_behind(
                f,
                discover(out, n, f),
                x,
            ),
    decreases n,
{
    let g = discover(out, n, f);
    if n > 0 {
        lemma_discover_shape(out, n - 1, f);
        let h = discover(out, n - 1, f);
        let w = out[n - 1].0;
        if h.visited.contains(w) {
            assert(g == h);
            assert forall|i: int| f.pending.len() <= i < g.pending.len() implies !f.visited.contains(
                #[trigger] g.pending[i],
            ) && exists|k: int| 0 <= k < n && (#[trigger] out[k]).0 == g.pending[i] by {
                let k = choose|k: int| 0 <= k < n - 1 && (#[trigger] out[k]).0 == h.pending[i];
                assert(0 <= k < n && out[k].0 == g.pending[i]);
            }
        } else {
            assert(g.pending == h.pending.push(w));
            assert(g.pending.take(f.pending.len() as int) =~= h.pending.take(f.pending.len() as int));
            assert(!f.visited.contains(w)) by {
                assert(h.visited.contains(w) <==> f.visited.contains(w) || waits_behind(f, h, w));
            }
            assert forall|i: int| f.pending.len() <= i < g.pending.len() implies !f.visited.contains(
                #[trigger] g.pending[i],
            ) && exists|k: int| 0 <= k < n && (#[trigger] out[k]).0 == g.pending[i] by {
                if i < h.pending.len() {
                    assert(g.pending[i] == h.pending[i]);
                    let k = choose|k: int| 0 <= k < n - 1 && (#[trigger] out[k]).0 == h.pending[i];
                    assert(0 <= k < n && out[k].0 == g.pending[i]);
                } else {
                    assert(out[n - 1].0 == g.pending[i]);
                }
            }
            assert forall|x: usize| #[trigger]
                g.visited.contains(x) <==> f.visited.contains(x) || waits_behind(f, g, x) by {
                assert(h.visited.contains(x) <==> f.visited.contains(x) || waits_behind(f, h, x));
                if waits_behind(f, h, x) {
                    let i = choose|i: int| f.pending.len() <= i < h.pending.len() && #[trigger] h.pending[i] == x;
                    assert(g.pending[i] == x);
                }
                if x == w {
                    assert(g.pending[h.pending.len() as int] == x);
                }
                if waits_behind(f, g, x) {
                    let i = choose|i: int| f.pending.len() <= i < g.pending.len() && #[trigger] g.pending[i] == x;
                    if i < h.pending.len() {
                        assert(h.pending[i] == x);
                    }
                }
            }
        }
    } else {
        assert(g.pending.take(f.pending.len() as int) =~= f.pending);
    }
}

/// Looks at the arcs that leave `u`: every head that is not in `visited` yet joins
/// it and is handed back, in the order of the arcs.
pub(crate) fn discover_new<Backend: GraphBase>(
    graph: &Graph<Backend>,
    u: usize,
    visited: &mut FxHashSet<usize>,
) -> (fresh: Vec<usize>)
    requires
        graph.wf(),
    ensures
        Frontier::of(fresh@, final(visited)@) == discover(
            graph.model().out(u),
            graph.model().out(u).len() as int,
            Frontier::of(Seq::empty(), old(visited)@),
        ),
{
    let neighbors = graph.get_adjacent_vertices(u);
    let mut fresh: Vec<usize> = Vec::new();
    let ghost out = graph.model().out(u);
    let ghost first = Frontier::of(Seq::<usize>::empty(), visited@);
    proof {
        graph.lemma_wf();
    }
    let mut i: usize = 0;
    while i < neighbors.len()
        invariant
            0 <= i <= neighbors.len(),
            graph.wf(),
            graph.model().valid(),
            out == graph.model().out(u),
            neighbors.len() == out.len(),
            forall|k: int|
                0 <= k < neighbors.len() ==> *(#[trigger] neighbors[k])
                    == graph.model().vertices[out[k].0],
            Frontier::of(fresh@, visited@) == discover(out, i as int, first),
        decreases neighbors.len() - i,
    {
        let vid = neighbors[i].get_id();
        proof {
            assert(graph.model().has_vertex(graph.model().out(u)[i as int].0));
            assert(vid == out[i as int].0);
        }
        if !set_contains(visited, vid) {
            set_insert(visited, vid);
            fresh.push(vid);
        }
        i += 1;
    }
    fresh
}

} // verus!
