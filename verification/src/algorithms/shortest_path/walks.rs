//! Weighted walks and the distance between two vertices.

use vstd::prelude::*;
use crate::algorithms::reach::{is_walk, lemma_walk_vertices, reaches};
use crate::graph::model::{lemma_edge_at, weight_at, GraphModel};
use crate::graph::{WeightedEdge, WithID};

verus! {

/// The sum of the weights of the arcs of a walk.
pub open spec fn walk_weight<V: WithID, E: WeightedEdge>(m: GraphModel<V, E>, p: Seq<usize>) -> int
    decreases p.len(),
{
    if p.len() <= 1 {
        0
    } else {
        walk_weight(m, p.drop_last()) + weight_at(m.arcs, (p[p.len() - 2], p.last()))
    }
}

/// A walk of `n` vertices weighs at most `n` times the largest weight.
pub proof fn lemma_walk_weight_bound<V: WithID, E: WeightedEdge>(m: GraphModel<V, E>, p: Seq<usize>)
    ensures
        -p.len() * 0x8000_0000_0000_0000 <= walk_weight(m, p) <= p.len() * 0x8000_0000_0000_0000,
    decreases p.len(),
{
    if p.len() > 1 {
        lemma_walk_weight_bound(m, p.drop_last());
    }
}

/// No arc has a negative weight.
pub open spec fn nonnegative<V: WithID, E: WeightedEdge>(m: GraphModel<V, E>) -> bool {
    forall|u: usize, k: int| 0 <= k < m.out(u).len() ==> (#[trigger] m.out(u)[k]).1.spec_weight() >= 0
}

/// `p` is a walk from `s` to `t`.
pub open spec fn walk_between<V: WithID, E>(m: GraphModel<V, E>, p: Seq<usize>, s: usize, t: usize) -> bool {
    is_walk(m, p) && p[0] == s && p.last() == t
}

/// `c` is the distance from `s` to `t`: the weight of a walk from `s` to `t`, and
/// no walk from `s` to `t` weighs less.
pub open spec fn is_distance<V: WithID, E: WeightedEdge>(
    m: GraphModel<V, E>,
    s: usize,
    t: usize,
    c: int,
) -> bool {
    &&& exists|p: Seq<usize>| #[trigger] walk_between(m, p, s, t) && walk_weight(m, p) == c
    &&& forall|p: Seq<usize>| #[trigger] walk_between(m, p, s, t) ==> c <= walk_weight(m, p)
}

/// The weight of an arc that is there is the weight of its payload.
pub proof fn lemma_arc_weight<V: WithID, E: WeightedEdge>(m: GraphModel<V, E>, u: usize, k: int)
    requires
        m.valid(),
        0 <= k < m.out(u).len(),
    ensures
        m.has_arc(u, m.out(u)[k].0),
        weight_at(m.arcs, (u, m.out(u)[k].0)) == m.out(u)[k].1.spec_weight(),
{
    lemma_edge_at(m.arcs, u, k);
}

/// Where no weight is negative, no arc weighs less than 0.
pub proof fn lemma_weight_nonnegative<V: WithID, E: WeightedEdge>(m: GraphModel<V, E>, u: usize, v: usize)
    requires
        m.valid(),
        nonnegative(m),
    ensures
        weight_at(m.arcs, (u, v)) >= 0,
{
    if m.has_arc(u, v) {
        let k = m.arc_index(u, v);
        assert(m.arc_at(u, k, v));
        lemma_arc_weight(m, u, k);
    }
}

/// Where no weight is negative, a walk weighs at least as much as each of its
/// beginnings.
pub proof fn lemma_prefix_weight<V: WithID, E: WeightedEdge>(m: GraphModel<V, E>, p: Seq<usize>, k: int)
    requires
        m.valid(),
        nonnegative(m),
        1 <= k <= p.len(),
    ensures
        walk_weight(m, p.take(k)) <= walk_weight(m, p),
    decreases p.len() - k,
{
    if k < p.len() {
        lemma_prefix_weight(m, p.drop_last(), k);
        assert(p.drop_last().take(k) =~= p.take(k));
        lemma_weight_nonnegative(m, p[p.len() - 2], p.last());
    } else {
        assert(p.take(k) =~= p);
    }
}

/// A beginning of a walk is a walk.
pub proof fn lemma_prefix_walk<V: WithID, E>(m: GraphModel<V, E>, p: Seq<usize>, k: int)
    requires
        is_walk(m, p),
        1 <= k <= p.len(),
    ensures
        is_walk(m, p.take(k)),
{
    let q = p.take(k);
    assert forall|i: int| 0 <= i < q.len() - 1 implies m.has_arc(#[trigger] q[i], q[i + 1]) by {
        assert(q[i] == p[i] && q[i + 1] == p[i + 1]);
        assert(m.has_arc(p[i], p[i + 1]));
    }
}

/// A walk with one more arc at its end.
pub proof fn lemma_walk_push<V: WithID, E: WeightedEdge>(m: GraphModel<V, E>, p: Seq<usize>, v: usize)
    requires
        is_walk(m, p),
        m.has_arc(p.last(), v),
    ensures
        is_walk(m, p.push(v)),
        walk_weight(m, p.push(v)) == walk_weight(m, p) + weight_at(m.arcs, (p.last(), v)),
{
    let q = p.push(v);
    assert forall|i: int| 0 <= i < q.len() - 1 implies m.has_arc(#[trigger] q[i], q[i + 1]) by {
        if i < p.len() - 1 {
            assert(q[i] == p[i] && q[i + 1] == p[i + 1]);
            assert(m.has_arc(p[i], p[i + 1]));
        }
    }
    assert(q.drop_last() =~= p);
}

/// Two walks, the second from where the first ends, weigh together what the walk
/// along both weighs.
pub proof fn lemma_weight_concat<V: WithID, E: WeightedEdge>(m: GraphModel<V, E>, u: Seq<usize>, v: Seq<usize>)
    requires
        u.len() >= 1,
        v.len() >= 1,
        u.last() == v[0],
    ensures
        walk_weight(m, u + v.drop_first()) == walk_weight(m, u) + walk_weight(m, v),
    decreases v.len(),
{
    let whole = u + v.drop_first();
    if v.len() == 1 {
        assert(whole =~= u);
    } else {
        let shorter = v.drop_last();
        lemma_weight_concat(m, u, shorter);
        assert(whole.drop_last() =~= u + shorter.drop_first());
        assert(whole.last() == v.last());
        if v.len() == 2 {
            assert(whole[whole.len() - 2] == u.last());
        } else {
            assert(whole[whole.len() - 2] == v[v.len() - 2]);
        }
    }
}

/// Two walks, the second from where the first ends, make one walk.
pub proof fn lemma_walk_concat<V: WithID, E>(m: GraphModel<V, E>, u: Seq<usize>, v: Seq<usize>)
    requires
        is_walk(m, u),
        is_walk(m, v),
        u.last() == v[0],
    ensures
        is_walk(m, u + v.drop_first()),
        (u + v.drop_first())[0] == u[0],
        (u + v.drop_first()).last() == v.last(),
{
    let whole = u + v.drop_first();
    assert forall|i: int| 0 <= i < whole.len() - 1 implies m.has_arc(#[trigger] whole[i], whole[i + 1]) by {
        if i < u.len() - 1 {
            assert(whole[i] == u[i] && whole[i + 1] == u[i + 1]);
            assert(m.has_arc(u[i], u[i + 1]));
        } else {
            let j = i - (u.len() - 1);
            assert(whole[i + 1] == v[j + 1]);
            assert(whole[i] == v[j]);
            assert(m.has_arc(v[j], v[j + 1]));
        }
    }
}

/// A part of a walk is a walk.
pub proof fn lemma_subwalk<V: WithID, E>(m: GraphModel<V, E>, p: Seq<usize>, i: int, j: int)
    requires
        m.valid(),
        is_walk(m, p),
        0 <= i <= j < p.len(),
    ensures
        is_walk(m, p.subrange(i, j + 1)),
{
    let q = p.subrange(i, j + 1);
    lemma_walk_vertices(m, p, i);
    assert forall|k: int| 0 <= k < q.len() - 1 implies m.has_arc(#[trigger] q[k], q[k + 1]) by {
        assert(q[k] == p[i + k] && q[k + 1] == p[i + k + 1]);
        assert(m.has_arc(p[i + k], p[i + k + 1]));
    }
}

/// A sequence of members of a finite set that is longer than the set is large holds
/// a member twice.
pub proof fn lemma_repeat(p: Seq<usize>, set: Set<usize>)
    requires
        set.finite(),
        forall|i: int| 0 <= i < p.len() ==> set.contains(#[trigger] p[i]),
        p.len() > set.len(),
    ensures
        exists|i: int, j: int| 0 <= i < j < p.len() && #[trigger] p[i] == #[trigger] p[j],
{
    if p.no_duplicates() {
        p.unique_seq_to_set();
        assert(p.to_set().subset_of(set));
        vstd::set_lib::lemma_len_subset(p.to_set(), set);
    } else {
        let (a, b) = choose|a: int, b: int|
            0 <= a < p.len() && 0 <= b < p.len() && a != b && p[a] == p[b];
        if a < b {
            assert(p[a] == p[b]);
        } else {
            assert(p[b] == p[a]);
        }
    }
}

/// No walk from a vertex that `s` reaches back to that vertex has a negative weight.
pub open spec fn no_negative_cycle<V: WithID, E: WeightedEdge>(m: GraphModel<V, E>, s: usize) -> bool {
    forall|x: usize, c: Seq<usize>|
        reaches(m, s, x) && #[trigger] walk_between(m, c, x, x) ==> walk_weight(m, c) >= 0
}

/// A walk that comes to a vertex twice is a walk without what lies between, and the
/// walk between, which leads from the vertex back to it.
pub proof fn lemma_cut<V: WithID, E: WeightedEdge>(m: GraphModel<V, E>, p: Seq<usize>, i: int, j: int)
    requires
        m.valid(),
        is_walk(m, p),
        0 <= i < j < p.len(),
        p[i] == p[j],
    ensures
        is_walk(m, p.take(i + 1)),
        is_walk(m, p.subrange(i, j + 1)),
        is_walk(m, p.take(i + 1) + p.skip(j + 1)),
        (p.take(i + 1) + p.skip(j + 1))[0] == p[0],
        (p.take(i + 1) + p.skip(j + 1)).last() == p.last(),
        walk_weight(m, p) == walk_weight(m, p.take(i + 1) + p.skip(j + 1)) + walk_weight(
            m,
            p.subrange(i, j + 1),
        ),
{
    let head = p.take(i + 1);
    let cycle = p.subrange(i, j + 1);
    let tail = p.skip(j);
    assert(head =~= p.subrange(0, i + 1));
    assert(tail =~= p.subrange(j, p.len() - 1 + 1));
    lemma_subwalk(m, p, 0, i);
    lemma_subwalk(m, p, i, j);
    lemma_subwalk(m, p, j, p.len() - 1);
    let upto = head + cycle.drop_first();
    lemma_weight_concat(m, head, cycle);
    assert(upto =~= p.take(j + 1));
    lemma_weight_concat(m, upto, tail);
    assert(upto + tail.drop_first() =~= p);
    assert(tail.drop_first() =~= p.skip(j + 1));
    lemma_weight_concat(m, head, tail);
    lemma_walk_concat(m, head, tail);
}

/// Where no cycle of negative weight can be reached from `s`, every walk from `s`
/// can be made a walk to the same end that weighs no more and passes no more
/// vertices than the graph has.
pub proof fn lemma_shorten<V: WithID, E: WeightedEdge>(m: GraphModel<V, E>, s: usize, p: Seq<usize>)
    requires
        m.valid(),
        no_negative_cycle(m, s),
        is_walk(m, p),
        p[0] == s,
    ensures
        exists|q: Seq<usize>|
            #[trigger] is_walk(m, q) && q[0] == s && q.last() == p.last() && q.len()
                <= m.vertices.dom().len() && walk_weight(m, q) <= walk_weight(m, p),
    decreases p.len(),
{
    if p.len() <= m.vertices.dom().len() {
        assert(is_walk(m, p) && p[0] == s && p.last() == p.last());
    } else {
        assert forall|i: int| 0 <= i < p.len() implies m.vertices.dom().contains(#[trigger] p[i]) by {
            lemma_walk_vertices(m, p, i);
        }
        lemma_repeat(p, m.vertices.dom());
        let (i, j) = choose|i: int, j: int| 0 <= i < j < p.len() && #[trigger] p[i] == #[trigger] p[j];
        lemma_cut(m, p, i, j);
        let head = p.take(i + 1);
        let cycle = p.subrange(i, j + 1);
        let shorter = p.take(i + 1) + p.skip(j + 1);
        assert(head[0] == s && head.last() == p[i]);
        assert(reaches(m, s, p[i]));
        assert(cycle[0] == p[i] && cycle.last() == p[i]);
        assert(walk_between(m, cycle, p[i], p[i]));
        assert(walk_weight(m, cycle) >= 0);
        lemma_shorten(m, s, shorter);
        let q = choose|q: Seq<usize>|
            #[trigger] is_walk(m, q) && q[0] == s && q.last() == shorter.last() && q.len()
                <= m.vertices.dom().len() && walk_weight(m, q) <= walk_weight(m, shorter);
        assert(is_walk(m, q) && q[0] == s && q.last() == p.last());
    }
}

/// The distance from `s` to `t` is one number.
pub proof fn lemma_distance_unique<V: WithID, E: WeightedEdge>(
    m: GraphModel<V, E>,
    s: usize,
    t: usize,
    c: int,
    d: int,
)
    requires
        is_distance(m, s, t, c),
        is_distance(m, s, t, d),
    ensures
        c == d,
{
    let p = choose|p: Seq<usize>| #[trigger] walk_between(m, p, s, t) && walk_weight(m, p) == c;
    let q = choose|q: Seq<usize>| #[trigger] walk_between(m, q, s, t) && walk_weight(m, q) == d;
    assert(walk_between(m, p, s, t));
    assert(walk_between(m, q, s, t));
}

} // verus!
