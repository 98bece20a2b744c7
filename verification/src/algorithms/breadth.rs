//! The order of a breadth-first traversal: no vertex is visited before a vertex that
//! is fewer arcs away from the start.

use vstd::prelude::*;
use crate::graph::model::GraphModel;
use crate::graph::WithID;
use super::count_connected_subgraphs::stepped;
use super::reach::{
    discover, frontier_ok, is_walk, lemma_discover_shape, lemma_discover_split,
    lemma_frontier_discover, lemma_frontier_done, lemma_frontier_start, lemma_frontier_take,
    waits_behind, Frontier,
};

verus! {

/// The state of a breadth-first traversal from `start` after `k` visits, or after
/// its last visit where it makes fewer, and the vertices that it has visited, in
/// order.
pub open spec fn breadth_first<V: WithID, E>(m: GraphModel<V, E>, start: usize, k: nat) -> (
    Frontier,
    Seq<usize>,
)
    decreases k,
{
    if k == 0 {
        (Frontier::of(seq![start], set![start]), Seq::empty())
    } else {
        let before = breadth_first(m, start, (k - 1) as nat);
        if before.0.pending.len() == 0 {
            before
        } else {
            (stepped(m, true, before.0), before.1.push(before.0.pending[0]))
        }
    }
}

/// The vertex `v` is `d` arcs away from `s`: a walk of `d` arcs leads from `s` to
/// `v`, and none of fewer.
pub open spec fn hop_distance<V: WithID, E>(m: GraphModel<V, E>, s: usize, v: usize, d: nat) -> bool {
    &&& exists|p: Seq<usize>| #[trigger] is_walk(m, p) && p[0] == s && p.last() == v && p.len() == d + 1
    &&& forall|p: Seq<usize>| #[trigger] is_walk(m, p) && p[0] == s && p.last() == v ==> p.len() >= d + 1
}

/// What holds of a breadth-first traversal from `s`: `depth` gives for every
/// discovered vertex how many arcs it is away, the visited vertices stand by
/// ascending depth and so do those that wait, none of which is nearer than a
/// visited one or more than one arc farther than the first that waits.
pub open spec fn by_distance<V: WithID, E>(
    m: GraphModel<V, E>,
    s: usize,
    f: Frontier,
    y: Seq<usize>,
    depth: Map<usize, nat>,
) -> bool {
    &&& forall|v: usize| #[trigger] f.visited.contains(v) ==> hop_distance(m, s, v, depth[v])
    &&& forall|a: int, b: int| 0 <= a < b < y.len() ==> depth[#[trigger] y[a]] <= depth[#[trigger] y[b]]
    &&& forall|a: int, b: int|
        0 <= a < b < f.pending.len() ==> depth[#[trigger] f.pending[a]] <= depth[#[trigger] f.pending[b]]
    &&& forall|a: int, b: int|
        0 <= a < y.len() && 0 <= b < f.pending.len() ==> depth[#[trigger] y[a]] <= depth[
        #[trigger] f.pending[b]]
    &&& forall|b: int|
        0 <= b < f.pending.len() ==> depth[#[trigger] f.pending[b]] <= depth[f.pending[0]] + 1
}

/// A walk from the start has, as far as the first vertex that waits is away,
/// discovered vertices only, each no farther away than its place in the walk.
pub proof fn lemma_hops_visited<V: WithID, E>(
    m: GraphModel<V, E>,
    s: usize,
    f: Frontier,
    y: Seq<usize>,
    depth: Map<usize, nat>,
    p: Seq<usize>,
    i: int,
)
    requires
        m.valid(),
        frontier_ok(m, s, f, y),
        by_distance(m, s, f, y, depth),
        f.pending.len() > 0,
        is_walk(m, p),
        p[0] == s,
        0 <= i < p.len(),
        i <= depth[f.pending[0]],
    ensures
        f.visited.contains(p[i]),
        depth[p[i]] <= i,
    decreases i,
{
    crate::algorithms::shortest_path::walks::lemma_prefix_walk(m, p, i + 1);
    let q = p.take(i + 1);
    assert(q[0] == s && q.last() == p[i]);
    if i > 0 {
        lemma_hops_visited(m, s, f, y, depth, p, i - 1);
        let u = p[i - 1];
        assert(!f.pending.contains(u)) by {
            if f.pending.contains(u) {
                let b = choose|b: int| 0 <= b < f.pending.len() && f.pending[b] == u;
                if b > 0 {
                    assert(depth[f.pending[0]] <= depth[f.pending[b]]);
                }
            }
        }
        assert(y.contains(u));
        let a = choose|a: int| 0 <= a < y.len() && y[a] == u;
        assert(m.has_arc(p[i - 1], p[i - 1 + 1]));
        let k = m.arc_index(u, p[i]);
        assert(m.arc_at(u, k, p[i]));
        assert(f.visited.contains(m.out(y[a])[k].0));
    }
    assert(hop_distance(m, s, p[i], depth[p[i]]));
}

/// The depths after one more visit: what was discovered keeps its depth, and what
/// the visit of `u` discovers is one arc farther away than `u`.
pub open spec fn deeper(depth: Map<usize, nat>, known: Set<usize>, u: usize) -> Map<usize, nat> {
    Map::new(
        |x: usize| true,
        |x: usize|
            if known.contains(x) {
                depth[x]
            } else {
                depth[u] + 1
            },
    )
}

/// One more visit keeps what holds of a breadth-first traversal.
pub proof fn lemma_breadth_step<V: WithID, E>(
    m: GraphModel<V, E>,
    s: usize,
    f: Frontier,
    y: Seq<usize>,
    depth: Map<usize, nat>,
)
    requires
        m.valid(),
        frontier_ok(m, s, f, y),
        by_distance(m, s, f, y, depth),
        f.pending.len() > 0,
    ensures
        frontier_ok(m, s, stepped(m, true, f), y.push(f.pending[0])),
        by_distance(m, s, stepped(m, true, f), y.push(f.pending[0]), deeper(depth, f.visited, f.pending[0])),
{
    let u = f.pending[0];
    let rest = Frontier::of(f.pending.drop_first(), f.visited);
    let n = m.out(u).len() as int;
    let f2 = stepped(m, true, f);
    let y2 = y.push(u);
    let d2 = deeper(depth, f.visited, u);
    assert(f.pending.remove(0) =~= f.pending.drop_first());
    lemma_frontier_take(m, s, f, y, 0);
    lemma_frontier_discover(m, s, rest, y, u, n);
    lemma_discover_split(m.out(u), n, rest.pending, rest.visited);
    lemma_frontier_done(m, s, discover(m.out(u), n, rest), y, u);
    lemma_discover_shape(m.out(u), n, rest);
    assert(f.visited.contains(f.pending[0]));
    assert forall|b: int| 0 <= b < f2.pending.len() implies d2[#[trigger] f2.pending[b]] == (if b
        < rest.pending.len() {
        depth[f.pending[b + 1]]
    } else {
        depth[u] + 1
    }) by {
        if b < rest.pending.len() {
            assert(f2.pending[b] == f2.pending.take(rest.pending.len() as int)[b]);
            assert(f2.pending[b] == f.pending[b + 1]);
            assert(f.visited.contains(f.pending[b + 1]));
        }
    }
    assert forall|a: int| 0 <= a < y2.len() implies d2[#[trigger] y2[a]] == (if a < y.len() {
        depth[y[a]]
    } else {
        depth[u]
    }) by {
        if a < y.len() {
            assert(f.visited.contains(y[a]));
        }
    }
    assert forall|v: usize| #[trigger] f2.visited.contains(v) implies hop_distance(m, s, v, d2[v]) by {
        if f.visited.contains(v) {
            assert(hop_distance(m, s, v, depth[v]));
        } else {
            assert(waits_behind(rest, f2, v));
            let b = choose|b: int| rest.pending.len() <= b < f2.pending.len() && #[trigger] f2.pending[b] == v;
            let k = choose|k: int| 0 <= k < n && (#[trigger] m.out(u)[k]).0 == f2.pending[b];
            crate::graph::model::lemma_edge_at(m.arcs, u, k);
            assert(hop_distance(m, s, u, depth[u]));
            let pu = choose|p: Seq<usize>|
                #[trigger] is_walk(m, p) && p[0] == s && p.last() == u && p.len() == depth[u] + 1;
            let longer = pu.push(v);
            assert forall|i: int| 0 <= i < longer.len() - 1 implies m.has_arc(
                #[trigger] longer[i],
                longer[i + 1],
            ) by {
                if i < pu.len() - 1 {
                    assert(m.has_arc(pu[i], pu[i + 1]));
                }
            }
            assert(is_walk(m, pu.push(v)) && pu.push(v)[0] == s && pu.push(v).last() == v && pu.push(
                v,
            ).len() == d2[v] + 1);
            assert forall|p: Seq<usize>| #[trigger] is_walk(m, p) && p[0] == s && p.last() == v implies p.len()
                >= d2[v] + 1 by {
                if p.len() < d2[v] + 1 {
                    lemma_hops_visited(m, s, f, y, depth, p, p.len() - 1);
                }
            }
        }
    }
    assert forall|a: int, b: int| 0 <= a < b < y2.len() implies d2[#[trigger] y2[a]] <= d2[
    #[trigger] y2[b]] by {
        if b < y.len() {
            assert(depth[y[a]] <= depth[y[b]]);
        } else {
            assert(depth[y[a]] <= depth[f.pending[0]]);
        }
    }
    assert forall|a: int, b: int| 0 <= a < b < f2.pending.len() implies d2[#[trigger] f2.pending[a]]
        <= d2[#[trigger] f2.pending[b]] by {
        if b < rest.pending.len() {
            assert(depth[f.pending[a + 1]] <= depth[f.pending[b + 1]]);
        } else if a < rest.pending.len() {
            assert(depth[f.pending[a + 1]] <= depth[f.pending[0]] + 1);
        }
    }
    assert forall|a: int, b: int| 0 <= a < y2.len() && 0 <= b < f2.pending.len() implies d2[
    #[trigger] y2[a]] <= d2[#[trigger] f2.pending[b]] by {
        if a < y.len() {
            assert(depth[y[a]] <= depth[f.pending[0]]);
        }
        if b < rest.pending.len() {
            assert(depth[f.pending[0]] <= depth[f.pending[b + 1]]);
        }
    }
    assert forall|b: int| 0 <= b < f2.pending.len() implies d2[#[trigger] f2.pending[b]] <= d2[f2.pending[0]]
        + 1 by {
        if b < rest.pending.len() {
            assert(depth[f.pending[b + 1]] <= depth[f.pending[0]] + 1);
        }
        if 0 < rest.pending.len() {
            assert(depth[f.pending[0]] <= depth[f.pending[0int + 1]]);
        }
    }
}

/// Every state of a breadth-first traversal is in order, with depths that tell how
/// many arcs each discovered vertex is away from the start.
pub proof fn lemma_breadth_first<V: WithID, E>(m: GraphModel<V, E>, s: usize, k: nat) -> (depth: Map<
    usize,
    nat,
>)
    requires
        m.valid(),
        m.has_vertex(s),
    ensures
        frontier_ok(m, s, breadth_first(m, s, k).0, breadth_first(m, s, k).1),
        by_distance(m, s, breadth_first(m, s, k).0, breadth_first(m, s, k).1, depth),
    decreases k,
{
    if k == 0 {
        let depth = Map::new(|x: usize| true, |x: usize| 0nat);
        lemma_frontier_start(m, s);
        let one = seq![s];
        assert(is_walk(m, one) && one[0] == s && one.last() == s && one.len() == 0 + 1);
        depth
    } else {
        let depth = lemma_breadth_first(m, s, (k - 1) as nat);
        let before = breadth_first(m, s, (k - 1) as nat);
        if before.0.pending.len() == 0 {
            depth
        } else {
            lemma_breadth_step(m, s, before.0, before.1, depth);
            deeper(depth, before.0.visited, before.0.pending[0])
        }
    }
}

/// The vertex at `a` is as many arcs away from `s` as the vertex at `b`, or fewer.
pub open spec fn no_farther<V: WithID, E>(m: GraphModel<V, E>, s: usize, y: Seq<usize>, a: int, b: int) -> bool {
    exists|da: nat, db: nat| da <= db && #[trigger] hop_distance(m, s, y[a], da) && #[trigger] hop_distance(m, s, y[b], db)
}

/// A breadth-first traversal visits no vertex before one that is fewer arcs away
/// from the start.
pub proof fn lemma_breadth_order<V: WithID, E>(m: GraphModel<V, E>, s: usize, k: nat, a: int, b: int)
    requires
        m.valid(),
        m.has_vertex(s),
        0 <= a <= b < breadth_first(m, s, k).1.len(),
    ensures
        no_farther(m, s, breadth_first(m, s, k).1, a, b),
{
    let depth = lemma_breadth_first(m, s, k);
    let f = breadth_first(m, s, k).0;
    let y = breadth_first(m, s, k).1;
    assert(f.visited.contains(y[a]));
    assert(f.visited.contains(y[b]));
    assert(hop_distance(m, s, y[a], depth[y[a]]));
    assert(hop_distance(m, s, y[b], depth[y[b]]));
    if a < b {
        assert(depth[y[a]] <= depth[y[b]]);
    }
}

} // verus!
