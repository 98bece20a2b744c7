use vstd::prelude::*;
use std::collections::VecDeque;
use rustc_hash::FxHashMap;
use crate::fx::{map_get, map_insert, map_new, set_contains, set_insert, set_new};
use crate::algorithms::reach::{is_walk, lemma_reaches_vertex_arc};
use crate::graph::batch::{
    batch_result, edge_rejection, first_rejected_edge, first_rejected_vertex, holds_batch,
    joined_before, joins, lemma_no_arcs, lemma_vertices_accepted, takes_all, vertices_model,
};
use crate::graph::model::GraphModel;
use crate::graph::{
    lemma_edges_cover, lemma_listing_covers, lists_edges, Directed, Graph, GraphBase, WithID,
};
use crate::GraphError;
use super::conservation::{conserved, flow_in, flow_out, lemma_conservation};

verus! {

/// An arc of the residual graph: what it can still carry, and whether it is the
/// reverse of an arc of the graph.
#[derive(Debug, Clone, Copy)]
pub struct ResidualEdge {
    pub flow: i64,
    pub is_residual: bool,
}

/// The arc from `u` to `v` can still carry something.
pub open spec fn open_arc<V: WithID>(res: GraphModel<V, ResidualEdge>, u: usize, v: usize) -> bool {
    res.has_arc(u, v) && res.edge(u, v)->Some_0.flow > 0
}

/// `p` leads from `s` to `t` along arcs that can still carry something, and visits
/// no vertex twice.
pub open spec fn open_path<V: WithID>(
    res: GraphModel<V, ResidualEdge>,
    p: Seq<usize>,
    s: usize,
    t: usize,
) -> bool {
    &&& p.len() >= 2
    &&& p[0] == s
    &&& p.last() == t
    &&& p.no_duplicates()
    &&& forall|i: int| 0 <= i < p.len() - 1 ==> open_arc(res, #[trigger] p[i], p[i + 1])
}

/// What holds of a vertex that the search has found: it is the start, or it was
/// found from its predecessor along an arc that can still carry something, one
/// step farther from the start.
pub open spec fn found_ok<V: WithID>(
    res: GraphModel<V, ResidualEdge>,
    s: usize,
    pred: Map<usize, usize>,
    depth: Map<usize, nat>,
    found: Set<usize>,
    v: usize,
) -> bool {
    &&& pred.contains_key(v)
    &&& depth.contains_key(v)
    &&& v == s ==> depth[v] == 0
    &&& v != s ==> {
        &&& found.contains(pred[v])
        &&& depth.contains_key(pred[v])
        &&& depth[v] == depth[pred[v]] + 1
        &&& open_arc(res, pred[v], v)
        &&& res.has_vertex(v)
    }
}

/// `p` leads from `s` to `t` along arcs that can still carry something.
pub open spec fn open_walk<V: WithID>(
    res: GraphModel<V, ResidualEdge>,
    p: Seq<usize>,
    s: usize,
    t: usize,
) -> bool {
    &&& p.len() >= 1
    &&& p[0] == s
    &&& p.last() == t
    &&& forall|i: int| 0 <= i < p.len() - 1 ==> open_arc(res, #[trigger] p[i], p[i + 1])
}

/// Every found vertex waits or is done, and every arc that leaves a vertex that is
/// done and can still carry something leads to a found vertex; of the vertex `now`,
/// which is being looked at, the first `k` arcs.
pub open spec fn search_closed<V: WithID>(
    res: GraphModel<V, ResidualEdge>,
    found: Set<usize>,
    done: Set<usize>,
    waiting: Seq<usize>,
    now: usize,
    k: int,
) -> bool {
    &&& forall|v: usize| #[trigger] found.contains(v) ==> done.contains(v) || waiting.contains(v)
    &&& forall|u: usize, j: int|
        done.contains(u) && 0 <= j < res.out(u).len() && (u != now || j < k) && res.out(u)[j].1.flow
            > 0 ==> found.contains(#[trigger] res.out(u)[j].0)
}

/// Where all found vertices are done, a walk from a found vertex along arcs that
/// can still carry something stays among the found vertices.
pub proof fn lemma_search_closed<V: WithID>(
    res: GraphModel<V, ResidualEdge>,
    found: Set<usize>,
    done: Set<usize>,
    now: usize,
    p: Seq<usize>,
    i: int,
)
    requires
        res.valid(),
        search_closed(res, found, done, Seq::empty(), now, res.out(now).len() as int),
        p.len() >= 1,
        found.contains(p[0]),
        forall|j: int| 0 <= j < p.len() - 1 ==> open_arc(res, #[trigger] p[j], p[j + 1]),
        0 <= i < p.len(),
    ensures
        found.contains(p[i]),
    decreases i,
{
    if i > 0 {
        lemma_search_closed(res, found, done, now, p, i - 1);
        let u = p[i - 1];
        assert(open_arc(res, p[i - 1], p[i - 1 + 1]));
        let j = res.arc_index(u, p[i]);
        assert(res.arc_at(u, j, p[i]));
        crate::graph::model::lemma_edge_at(res.arcs, u, j);
        assert(done.contains(u) || Seq::<usize>::empty().contains(u));
        assert(found.contains(res.out(u)[j].0));
    }
}

/// The search goes by layers: the vertices that wait are as far from the start as
/// the vertex that was taken last, or one step farther, the nearer ones first; no
/// vertex that is done is farther; and an arc that leaves a vertex that is done and
/// can still carry something leads at most one step farther. Of the vertex `now`,
/// which is being looked at, this holds of the first `k` arcs.
pub open spec fn layered<V: WithID>(
    res: GraphModel<V, ResidualEdge>,
    depth: Map<usize, nat>,
    done: Set<usize>,
    waiting: Seq<usize>,
    now: usize,
    k: int,
    level: nat,
) -> bool {
    &&& forall|i: int| 0 <= i < waiting.len() ==> level <= depth[#[trigger] waiting[i]] <= level + 1
    &&& forall|i: int, j: int|
        0 <= i < j < waiting.len() ==> depth[#[trigger] waiting[i]] <= depth[#[trigger] waiting[j]]
    &&& forall|u: usize| #[trigger] done.contains(u) ==> depth[u] <= level
    &&& forall|u: usize, j: int|
        done.contains(u) && 0 <= j < res.out(u).len() && (u != now || j < k) && res.out(u)[j].1.flow
            > 0 ==> depth[#[trigger] res.out(u)[j].0] <= depth[u] + 1
}

/// No walk from `s` to `t` along arcs that can still carry something has fewer than
/// `least` arcs.
pub open spec fn no_shorter<V: WithID>(res: GraphModel<V, ResidualEdge>, s: usize, t: usize, least: int) -> bool {
    forall|p: Seq<usize>| #[trigger] open_walk(res, p, s, t) ==> least + 1 <= p.len()
}

/// A walk from the start along arcs that can still carry something comes with each
/// step at most one layer farther, as long as it is nearer than the layer of the
/// vertex that is being looked at.
pub proof fn lemma_layers<V: WithID>(
    res: GraphModel<V, ResidualEdge>,
    s: usize,
    depth: Map<usize, nat>,
    found: Set<usize>,
    done: Set<usize>,
    waiting: Seq<usize>,
    now: usize,
    k: int,
    level: nat,
    p: Seq<usize>,
    i: int,
)
    requires
        res.valid(),
        found.contains(s),
        depth[s] == 0,
        search_closed(res, found, done, waiting, now, k),
        layered(res, depth, done, waiting, now, k, level),
        depth[now] == level,
        p.len() >= 1,
        p[0] == s,
        forall|a: int| 0 <= a < p.len() - 1 ==> open_arc(res, #[trigger] p[a], p[a + 1]),
        0 <= i < p.len(),
    ensures
        i > level || (found.contains(p[i]) && depth[p[i]] <= i),
    decreases i,
{
    if 0 < i <= level {
        lemma_layers(res, s, depth, found, done, waiting, now, k, level, p, i - 1);
        let u = p[i - 1];
        assert(found.contains(u) && depth[u] <= i - 1);
        assert(done.contains(u)) by {
            if waiting.contains(u) {
                let a = choose|a: int| 0 <= a < waiting.len() && waiting[a] == u;
                assert(level <= depth[waiting[a]]);
            }
        }
        assert(u != now);
        assert(open_arc(res, p[i - 1], p[i - 1 + 1]));
        let j = res.arc_index(u, p[i]);
        assert(res.arc_at(u, j, p[i]));
        crate::graph::model::lemma_edge_at(res.arcs, u, j);
        assert(found.contains(res.out(u)[j].0));
        assert(depth[res.out(u)[j].0] <= depth[u] + 1);
    }
}

/// A shortest path, by the number of its arcs, from `start` to `target` along arcs
/// of the residual graph that can still carry something, if there is a path.
pub(crate) fn find_shortest_path<ResBackend>(res: &Graph<ResBackend>, start: usize, target: usize) -> (r:
    Option<Vec<usize>>) where ResBackend: GraphBase<Edge = ResidualEdge>
    requires
        res.wf(),
        start != target,
    ensures
        r is Some ==> open_path(res.model(), r->Some_0@, start, target),
        r is Some ==> no_shorter(res.model(), start, target, r->Some_0@.len() - 1),
        r is None ==> forall|p: Seq<usize>| !#[trigger] open_walk(res.model(), p, start, target),
{
    let ghost m = res.model();
    proof {
        res.lemma_wf();
    }
    let n = res.vertex_count();
    let mut visited = set_new();
    let mut pred: FxHashMap<usize, usize> = map_new();
    let mut queue: VecDeque<usize> = VecDeque::new();
    queue.push_back(start);
    set_insert(&mut visited, start);
    map_insert(&mut pred, start, start);
    let ghost mut depth: Map<usize, nat> = Map::empty().insert(start, 0nat);
    let ghost mut done: Set<usize> = Set::empty();
    let ghost mut last: usize = start;
    let ghost mut level: nat = 0;
    let mut searching = true;
    proof {
        assert(visited@.remove(start) =~= Set::<usize>::empty());
        assert(queue@[0] == start);
    }
    // A breadth-first search that remembers where each vertex was found from.
    while searching
        invariant
            res.wf(),
            m == res.model(),
            m.valid(),
            n == m.vertices.dom().len(),
            visited@.finite(),
            visited@.contains(start),
            visited@.remove(start).subset_of(m.vertices.dom()),
            forall|v: usize| #[trigger] visited@.contains(v) ==> found_ok(m, start, pred@, depth, visited@, v),
            forall|i: int| 0 <= i < queue@.len() ==> visited@.contains(#[trigger] queue@[i]),
            visited@.contains(target) || search_closed(
                m,
                visited@,
                done,
                queue@,
                last,
                m.out(last).len() as int,
            ),
            !searching ==> visited@.contains(target) || queue@.len() == 0,
            searching ==> !visited@.contains(target),
            forall|u: usize| #[trigger] done.contains(u) ==> visited@.contains(u),
            visited@.contains(target) || (layered(
                m,
                depth,
                done,
                queue@,
                last,
                m.out(last).len() as int,
                level,
            ) && (done.contains(last) ==> depth[last] == level)),
            visited@.contains(target) ==> no_shorter(m, start, target, depth[target] as int),
        decreases n + 1 - visited@.len() + queue@.len(), (if searching { 1int } else { 0int }),
    {
        proof {
            vstd::set_lib::lemma_len_subset(visited@.remove(start), m.vertices.dom());
        }
        let ghost left = n + 1 - visited@.len() + queue@.len();
        let ghost waited = queue@;
        match queue.pop_front() {
            None => {
                searching = false;
            },
            Some(current) => {
                let adj = res.get_adjacent_vertices_with_edges(current);
                let mut k: usize = 0;
                proof {
                    if !visited@.contains(target) {
                        let before = done;
                        done = done.insert(current);
                        assert forall|v: usize| #[trigger] visited@.contains(v) implies done.contains(
                            v,
                        ) || queue@.contains(v) by {
                            if !before.contains(v) && v != current {
                                let i = choose|i: int| 0 <= i < waited.len() && waited[i] == v;
                                assert(queue@[i - 1] == v);
                            }
                        }
                        if before.contains(current) {
                            assert(done =~= before);
                        }
                        assert(waited[0] == current);
                        assert(level <= depth[waited[0]] <= level + 1);
                        assert forall|i: int| 0 <= i < queue@.len() implies depth[current] <= depth[
                        #[trigger] queue@[i]] <= depth[current] + 1 by {
                            assert(queue@[i] == waited[i + 1]);
                            assert(depth[waited[0]] <= depth[waited[i + 1]]);
                            assert(level <= depth[waited[i + 1]] <= level + 1);
                        }
                        assert forall|i: int, j: int| 0 <= i < j < queue@.len() implies depth[
                        #[trigger] queue@[i]] <= depth[#[trigger] queue@[j]] by {
                            assert(queue@[i] == waited[i + 1] && queue@[j] == waited[j + 1]);
                            assert(depth[waited[i + 1]] <= depth[waited[j + 1]]);
                        }
                        assert forall|u: usize| #[trigger] done.contains(u) implies depth[u] <= depth[current] by {
                            if u != current {
                                assert(before.contains(u));
                            }
                        }
                        level = depth[current];
                    }
                    last = current;
                }
                while k < adj.len() && searching
                    invariant
                        0 <= k <= adj.len(),
                        res.wf(),
                        m == res.model(),
                        m.valid(),
                        n == m.vertices.dom().len(),
                        adj.len() == m.out(current).len(),
                        forall|j: int|
                            0 <= j < adj.len() ==> {
                                let arc = m.out(current)[j];
                                *(#[trigger] adj[j]).0 == m.vertices[arc.0] && *adj[j].1 == arc.1
                            },
                        visited@.finite(),
                        visited@.contains(start),
                        visited@.contains(current),
                        visited@.remove(start).subset_of(m.vertices.dom()),
                        forall|v: usize| #[trigger]
                            visited@.contains(v) ==> found_ok(m, start, pred@, depth, visited@, v),
                        forall|i: int| 0 <= i < queue@.len() ==> visited@.contains(#[trigger] queue@[i]),
                        n + 1 - visited@.len() + queue@.len() == left - 1,
                        visited@.len() <= n + 1,
                        last == current,
                        visited@.contains(target) || search_closed(
                            m,
                            visited@,
                            done,
                            queue@,
                            current,
                            k as int,
                        ),
                        !searching ==> visited@.contains(target),
                        searching ==> !visited@.contains(target),
                        forall|u: usize| #[trigger] done.contains(u) ==> visited@.contains(u),
                        visited@.contains(target) || (layered(
                            m,
                            depth,
                            done,
                            queue@,
                            current,
                            k as int,
                            level,
                        ) && done.contains(current) && depth[current] == level),
                        visited@.contains(target) ==> no_shorter(m, start, target, depth[target] as int),
                    decreases adj.len() - k,
                {
                    let to = adj[k].0.get_id();
                    let can_carry = adj[k].1.flow > 0;
                    proof {
                        assert(m.has_vertex(m.out(current)[k as int].0));
                        assert(to == m.out(current)[k as int].0);
                        crate::graph::model::lemma_edge_at(m.arcs, current, k as int);
                    }
                    if can_carry {
                        if !set_contains(&visited, to) {
                            let ghost before = visited@;
                            let ghost waiting = queue@;
                            set_insert(&mut visited, to);
                            queue.push_back(to);
                            map_insert(&mut pred, to, current);
                            proof {
                                assert(queue@[waiting.len() as int] == to);
                                assert forall|v: usize| #[trigger] visited@.contains(v) implies done.contains(
                                    v,
                                ) || queue@.contains(v) || before.contains(target) by {
                                    if v != to && !done.contains(v) && !before.contains(target) {
                                        let i = choose|i: int| 0 <= i < waiting.len() && waiting[i] == v;
                                        assert(queue@[i] == v);
                                    }
                                }
                                let ghost depth0 = depth;
                                depth = depth.insert(to, depth[current] + 1);
                                assert(forall|v: usize| before.contains(v) ==> depth[v] == depth0[v]);
                                assert(layered(m, depth, done, queue@, current, k as int, level)) by {
                                    assert forall|i: int| 0 <= i < queue@.len() implies level <= depth[
                                    #[trigger] queue@[i]] <= level + 1 by {
                                        if i < waiting.len() {
                                            assert(queue@[i] == waiting[i]);
                                            assert(before.contains(waiting[i]));
                                            assert(level <= depth0[waiting[i]] <= level + 1);
                                        }
                                    }
                                    assert forall|i: int, j: int| 0 <= i < j < queue@.len() implies depth[
                                    #[trigger] queue@[i]] <= depth[#[trigger] queue@[j]] by {
                                        assert(queue@[i] == waiting[i]);
                                        assert(before.contains(waiting[i]));
                                        assert(level <= depth0[waiting[i]] <= level + 1);
                                        if j < waiting.len() {
                                            assert(queue@[j] == waiting[j]);
                                            assert(before.contains(waiting[j]));
                                            assert(depth0[waiting[i]] <= depth0[waiting[j]]);
                                        }
                                    }
                                    assert forall|u: usize| #[trigger] done.contains(u) implies depth[u]
                                        <= level by {
                                        assert(before.contains(u));
                                        assert(depth0[u] <= level);
                                    }
                                    assert forall|u: usize, j: int|
                                        done.contains(u) && 0 <= j < m.out(u).len() && (u != current || j
                                            < k) && m.out(u)[j].1.flow > 0 implies depth[
                                    #[trigger] m.out(u)[j].0] <= depth[u] + 1 by {
                                        assert(before.contains(u));
                                        assert(before.contains(m.out(u)[j].0));
                                        assert(depth0[m.out(u)[j].0] <= depth0[u] + 1);
                                    }
                                }
                                assert forall|v: usize| #[trigger]
                                    visited@.contains(v) implies found_ok(
                                    m,
                                    start,
                                    pred@,
                                    depth,
                                    visited@,
                                    v,
                                ) by {
                                    if v != to {
                                        assert(before.contains(v));
                                    } else {
                                        assert(before.contains(current));
                                    }
                                }
                                assert(visited@.remove(start).subset_of(m.vertices.dom()));
                                vstd::set_lib::lemma_len_subset(
                                    visited@.remove(start),
                                    m.vertices.dom(),
                                );
                            }
                        }
                        proof {
                            // The arc that was looked at leads at most one layer farther.
                            assert(visited@.contains(to));
                            assert(depth[to] <= level + 1) by {
                                assert(done.contains(to) || queue@.contains(to));
                                if queue@.contains(to) {
                                    let i = choose|i: int| 0 <= i < queue@.len() && queue@[i] == to;
                                    assert(depth[queue@[i]] <= level + 1);
                                }
                            }
                            assert(layered(m, depth, done, queue@, current, k + 1, level));
                            assert(search_closed(m, visited@, done, queue@, current, k + 1));
                            if to == target {
                                assert(depth[target] == level + 1) by {
                                    assert(found_ok(m, start, pred@, depth, visited@, target));
                                }
                                assert(found_ok(m, start, pred@, depth, visited@, start));
                                assert forall|p: Seq<usize>| #[trigger] open_walk(
                                    m,
                                    p,
                                    start,
                                    target,
                                ) implies depth[target] + 1 <= p.len() by {
                                    lemma_layers(
                                        m,
                                        start,
                                        depth,
                                        visited@,
                                        done,
                                        queue@,
                                        current,
                                        k + 1,
                                        level,
                                        p,
                                        p.len() - 1,
                                    );
                                }
                            }
                        }
                        // The search ends where the target is found.
                        if to == target {
                            searching = false;
                        }
                    }
                    k += 1;
                }
            },
        }
    }
    // The path back from the target, if the target was found.
    if !set_contains(&visited, target) {
        proof {
            assert(queue@ =~= Seq::<usize>::empty());
            assert forall|p: Seq<usize>| !#[trigger] open_walk(m, p, start, target) by {
                if open_walk(m, p, start, target) {
                    lemma_search_closed(m, visited@, done, last, p, p.len() - 1);
                }
            }
        }
        return None;
    }
    let mut back: Vec<usize> = Vec::new();
    let mut current = target;
    while current != start
        invariant
            visited@.contains(current),
            forall|v: usize| #[trigger] visited@.contains(v) ==> found_ok(m, start, pred@, depth, visited@, v),
            forall|i: int|
                0 <= i < back.len() ==> visited@.contains(#[trigger] back[i]) && depth[back[i]]
                    == depth[target] - i,
            forall|i: int| 0 <= i < back.len() - 1 ==> open_arc(m, #[trigger] back[i + 1], back[i]),
            back.len() > 0 ==> back[0] == target && open_arc(m, current, back[back.len() - 1]),
            back.len() == 0 ==> current == target,
            depth[current] == depth[target] - back.len(),
        decreases depth[current],
    {
        let ghost before = back@;
        back.push(current);
        proof {
            assert(found_ok(m, start, pred@, depth, visited@, current));
        }
        current = match map_get(&pred, current) {
            Some(p) => *p,
            None => {
                assert(false);
                start
            },
        };
        proof {
            assert forall|i: int| 0 <= i < back.len() - 1 implies open_arc(
                m,
                #[trigger] back[i + 1],
                back[i],
            ) by {
                if i < before.len() - 1 {
                    assert(back[i + 1] == before[i + 1] && back[i] == before[i]);
                }
            }
        }
    }
    let ghost inner = back@;
    back.push(start);
    let ghost full = back@;
    // Turn the vertices round.
    let mut path: Vec<usize> = Vec::new();
    let mut i: usize = back.len();
    while i > 0
        invariant
            0 <= i <= back.len(),
            back@ == full,
            path.len() == full.len() - i,
            forall|a: int| 0 <= a < path.len() ==> #[trigger] path[a] == full[full.len() - 1 - a],
        decreases i,
    {
        i -= 1;
        path.push(back[i]);
    }
    proof {
        let p = path@;
        assert(found_ok(m, start, pred@, depth, visited@, start));
        assert forall|a: int| 0 <= a < full.len() implies depth[#[trigger] full[a]] == depth[target] - a by {
            if a < inner.len() {
                assert(full[a] == inner[a]);
            }
        }
        assert forall|a: int, b: int| 0 <= a < p.len() && 0 <= b < p.len() && a != b implies p[a]
            != p[b] by {
            assert(p[a] == full[full.len() - 1 - a]);
            assert(p[b] == full[full.len() - 1 - b]);
        }
        assert forall|a: int| 0 <= a < p.len() - 1 implies open_arc(m, #[trigger] p[a], p[a + 1]) by {
            let b = full.len() - 1 - (a + 1);
            assert(p[a] == full[b + 1]);
            assert(p[a + 1] == full[b]);
            if b + 1 < inner.len() {
                assert(full[b + 1] == inner[b + 1] && full[b] == inner[b]);
                assert(open_arc(m, inner[b + 1], inner[b]));
            } else {
                assert(full[b] == inner[inner.len() - 1]);
            }
        }
        assert(p[0] == full[full.len() - 1]);
        assert(p[p.len() - 1] == full[0]);
        assert(full[0] == inner[0]);
    }
    Some(path)
}

/// The arc from `u` to `v` is an arc of the path `p`.
pub open spec fn on_path(p: Seq<usize>, u: usize, v: usize) -> bool {
    exists|i: int| 0 <= i < p.len() - 1 && #[trigger] p[i] == u && p[i + 1] == v
}

/// The arc from `u` to `v` is one of the first `n` arcs of the path `p`.
pub open spec fn on_prefix(p: Seq<usize>, n: int, u: usize, v: usize) -> bool {
    exists|i: int| 0 <= i < n && i < p.len() - 1 && #[trigger] p[i] == u && p[i + 1] == v
}

/// What the paths carry along the arc from `u` to `v`: for each path that has the
/// arc, the amount that the path carries.
pub open spec fn carried(paths: Seq<(Seq<usize>, int)>, u: usize, v: usize) -> int
    decreases paths.len(),
{
    if paths.len() == 0 {
        0
    } else {
        carried(paths.drop_last(), u, v) + (if on_path(paths.last().0, u, v) {
            paths.last().1
        } else {
            0
        })
    }
}

/// `p` is a path from `s` to `t` in `g` that visits no vertex twice, and carries
/// a positive amount.
pub open spec fn augmenting<V: WithID, E>(
    g: GraphModel<V, E>,
    s: usize,
    t: usize,
    path: (Seq<usize>, int),
) -> bool {
    &&& path.1 > 0
    &&& is_walk(g, path.0)
    &&& path.0[0] == s
    &&& path.0.last() == t
    &&& path.0.no_duplicates()
}

/// The residual edge that can carry `flow`.
pub open spec fn residual(flow: int, is_residual: bool) -> ResidualEdge {
    ResidualEdge { flow: flow as i64, is_residual }
}

/// The residual graph `res` of `g` after the paths have carried their amounts: an
/// arc of `g` can carry its capacity less what the paths carry along it, and its
/// reverse can carry nothing.
pub open spec fn residual_ok<V: WithID, E>(
    g: GraphModel<V, E>,
    res: GraphModel<V, ResidualEdge>,
    s: usize,
    t: usize,
    caps: Map<(usize, usize), i64>,
    paths: Seq<(Seq<usize>, int)>,
) -> bool {
    &&& res.vertices.dom() == g.vertices.dom()
    &&& forall|u: usize, v: usize| #[trigger]
        res.has_arc(u, v) <==> g.has_arc(u, v) || g.has_arc(v, u)
    &&& forall|u: usize, v: usize| #[trigger]
        g.has_arc(u, v) ==> {
            &&& !g.has_arc(v, u)
            &&& 0 <= carried(paths, u, v)
            &&& carried(paths, u, v) > 0 ==> carried(paths, u, v) <= caps[(u, v)]
            &&& i64::MIN <= caps[(u, v)] - carried(paths, u, v) <= i64::MAX
            &&& res.edge(u, v) == Some(residual(caps[(u, v)] - carried(paths, u, v), false))
            &&& res.edge(v, u) == Some(residual(0, true))
        }
    &&& forall|j: int| 0 <= j < paths.len() ==> augmenting(g, s, t, #[trigger] paths[j])
}

/// The arcs of `g` that can still carry something.
pub open spec fn open_set<V: WithID, E>(g: GraphModel<V, E>, res: GraphModel<V, ResidualEdge>) -> Set<
    (usize, usize),
> {
    Set::new(|a: (usize, usize)| g.has_arc(a.0, a.1) && open_arc(res, a.0, a.1))
}

/// What `edmonds_karp` has written: the graph `after` is `before` but for the
/// payloads of its edges, each of which comes from the one before by `flow`, with
/// what the paths carry along the edge; that is at most the capacity that
/// `max_flow` gave for the edge.
pub open spec fn flow_written<V: WithID, E, FlowFn: Fn(E, i64) -> E, MaxFlowFn: Fn(&E) -> i64>(
    before: GraphModel<V, E>,
    after: GraphModel<V, E>,
    flow: FlowFn,
    max_flow: MaxFlowFn,
    caps: Map<(usize, usize), i64>,
    paths: Seq<(Seq<usize>, int)>,
) -> bool {
    &&& after.vertices == before.vertices
    &&& after.directed == before.directed
    &&& forall|a: usize, b: usize| #[trigger] after.has_arc(a, b) == before.has_arc(a, b)
    &&& forall|a: usize, b: usize| #[trigger]
        before.has_arc(a, b) ==> {
            &&& call_ensures(max_flow, (&before.edge(a, b)->Some_0,), caps[(a, b)])
            &&& 0 <= carried(paths, a, b) <= i64::MAX
            &&& carried(paths, a, b) > 0 ==> carried(paths, a, b) <= caps[(a, b)]
            &&& after.edge(a, b) is Some
            &&& call_ensures(
                flow,
                (before.edge(a, b)->Some_0, carried(paths, a, b) as i64),
                after.edge(a, b)->Some_0,
            )
        }
}

/// The arcs of a path that are among its first `n + 1` are those among its first
/// `n` and the one after them.
pub proof fn lemma_augment_step<V: WithID>(
    m0: GraphModel<V, ResidualEdge>,
    before: GraphModel<V, ResidualEdge>,
    after: GraphModel<V, ResidualEdge>,
    p: Seq<usize>,
    i: int,
    min: int,
    changed: ResidualEdge,
)
    requires
        before.valid(),
        before.directed,
        p.no_duplicates(),
        0 <= i < p.len() - 1,
        forall|u: usize, v: usize| #[trigger] before.has_arc(u, v) == m0.has_arc(u, v),
        forall|u: usize, v: usize| #[trigger]
            before.edge(u, v) == (if on_prefix(p, i, u, v) {
                Some(residual(m0.edge(u, v)->Some_0.flow - min, false))
            } else {
                m0.edge(u, v)
            }),
        m0.has_arc(p[i], p[i + 1]),
        changed == residual(m0.edge(p[i], p[i + 1])->Some_0.flow - min, false),
        after == before.with_edge_payload(p[i], p[i + 1], changed),
    ensures
        after.vertices == before.vertices,
        after.directed == before.directed,
        forall|u: usize, v: usize| #[trigger] after.has_arc(u, v) == m0.has_arc(u, v),
        forall|u: usize, v: usize| #[trigger]
            after.edge(u, v) == (if on_prefix(p, i + 1, u, v) {
                Some(residual(m0.edge(u, v)->Some_0.flow - min, false))
            } else {
                m0.edge(u, v)
            }),
{
    let from = p[i];
    let to = p[i + 1];
    before.lemma_with_edge_payload(from, to, changed);
    assert forall|u: usize, v: usize| #[trigger] after.has_arc(u, v) == m0.has_arc(u, v) by {
        assert(after.has_arc(u, v) == before.has_arc(u, v));
    }
    assert forall|u: usize, v: usize| #[trigger] after.edge(u, v) == (if on_prefix(p, i + 1, u, v) {
        Some(residual(m0.edge(u, v)->Some_0.flow - min, false))
    } else {
        m0.edge(u, v)
    }) by {
        assert(after.edge(u, v) == (if before.has_arc(u, v) && before.belongs(u, v, from, to) {
            Some(changed)
        } else {
            before.edge(u, v)
        }));
        assert(before.has_arc(from, to) == m0.has_arc(from, to));
        if u == from && v == to {
            assert(p[i] == u && p[i + 1] == v);
            assert(on_prefix(p, i + 1, u, v));
        } else {
            if on_prefix(p, i + 1, u, v) {
                let j = choose|j: int|
                    0 <= j < i + 1 && j < p.len() - 1 && #[trigger] p[j] == u && p[j + 1] == v;
                if j == i {
                    assert(false);
                }
                assert(0 <= j < i && j < p.len() - 1 && p[j] == u && p[j + 1] == v);
                assert(on_prefix(p, i, u, v));
            }
            if on_prefix(p, i, u, v) {
                let j = choose|j: int|
                    0 <= j < i && j < p.len() - 1 && #[trigger] p[j] == u && p[j + 1] == v;
                assert(0 <= j < i + 1 && j < p.len() - 1 && p[j] == u && p[j + 1] == v);
                assert(on_prefix(p, i + 1, u, v));
            }
        }
    }
}

/// Takes from every arc of `path` the least of what its arcs can carry, and hands
/// that amount back.
pub(crate) fn augment<ResBackend>(res: &mut Graph<ResBackend>, path: &Vec<usize>, Ghost(s): Ghost<usize>, Ghost(t): Ghost<usize>) -> (min:
    i64) where ResBackend: GraphBase<Edge = ResidualEdge>
    requires
        old(res).wf(),
        old(res).model().directed,
        open_path(old(res).model(), path@, s, t),
        forall|i: int|
            0 <= i < path.len() - 1 ==> !old(res).model().edge(
                #[trigger] path[i],
                path[i + 1],
            )->Some_0.is_residual,
    ensures
        final(res).wf(),
        min > 0,
        final(res).model().vertices == old(res).model().vertices,
        final(res).model().directed == old(res).model().directed,
        forall|u: usize, v: usize| #[trigger]
            final(res).model().has_arc(u, v) == old(res).model().has_arc(u, v),
        forall|i: int|
            0 <= i < path.len() - 1 ==> min <= old(res).model().edge(
                #[trigger] path[i],
                path[i + 1],
            )->Some_0.flow,
        exists|i: int|
            0 <= i < path.len() - 1 && min == old(res).model().edge(
                #[trigger] path[i],
                path[i + 1],
            )->Some_0.flow,
        forall|u: usize, v: usize| #[trigger]
            final(res).model().edge(u, v) == (if on_path(path@, u, v) {
                Some(residual(old(res).model().edge(u, v)->Some_0.flow - min, false))
            } else {
                old(res).model().edge(u, v)
            }),
{
    let ghost m0 = res.model();
    let ghost p = path@;
    // The least of what the arcs of the path can carry.
    proof {
        assert(open_arc(m0, p[0int], p[0int + 1]));
    }
    let mut min: i64 = match res.get_edge(path[0], path[1]) {
        Some(e) => e.flow,
        None => {
            assert(false);
            0
        },
    };
    let mut i: usize = 1;
    while i + 1 < path.len()
        invariant
            1 <= i < path.len(),
            res.wf(),
            *res == *old(res),
            m0 == res.model(),
            p == path@,
            open_path(m0, p, s, t),
            min > 0,
            forall|j: int| 0 <= j < i ==> min <= m0.edge(#[trigger] p[j], p[j + 1])->Some_0.flow,
            exists|j: int| 0 <= j < i && min == m0.edge(#[trigger] p[j], p[j + 1])->Some_0.flow,
        decreases path.len() - i,
    {
        proof {
            assert(open_arc(m0, p[i as int], p[i + 1]));
        }
        let flow = match res.get_edge(path[i], path[i + 1]) {
            Some(e) => e.flow,
            None => {
                assert(false);
                0
            },
        };
        if flow < min {
            min = flow;
        }
        i += 1;
    }
    // Every arc of the path carries that much more.
    let mut i: usize = 0;
    while i + 1 < path.len()
        invariant
            0 <= i < path.len(),
            res.wf(),
            p == path@,
            open_path(m0, p, s, t),
            forall|j: int| 0 <= j < p.len() - 1 ==> !m0.edge(#[trigger] p[j], p[j + 1])->Some_0.is_residual,
            min > 0,
            forall|j: int| 0 <= j < p.len() - 1 ==> min <= m0.edge(#[trigger] p[j], p[j + 1])->Some_0.flow,
            res.model().vertices == m0.vertices,
            res.model().directed == m0.directed,
            m0.directed,
            forall|u: usize, v: usize| #[trigger] res.model().has_arc(u, v) == m0.has_arc(u, v),
            forall|u: usize, v: usize| #[trigger]
                res.model().edge(u, v) == (if on_prefix(p, i as int, u, v) {
                    Some(residual(m0.edge(u, v)->Some_0.flow - min, false))
                } else {
                    m0.edge(u, v)
                }),
        decreases path.len() - i,
    {
        let ghost before = res.model();
        let from = path[i];
        let to = path[i + 1];
        proof {
            res.lemma_wf();
            assert(open_arc(m0, p[i as int], p[i + 1]));
            assert(!on_prefix(p, i as int, from, to)) by {
                if on_prefix(p, i as int, from, to) {
                    let j = choose|j: int|
                        0 <= j < i && j < p.len() - 1 && #[trigger] p[j] == from && p[j + 1] == to;
                    assert(p[j] == p[i as int]);
                }
            }
            assert(before.edge(from, to) == m0.edge(from, to));
        }
        let edge = match res.get_edge(from, to) {
            Some(e) => *e,
            None => {
                assert(false);
                ResidualEdge { flow: 0, is_residual: false }
            },
        };
        let changed = if edge.is_residual {
            proof {
                assert(false);
            }
            ResidualEdge { flow: edge.flow, is_residual: true }
        } else {
            ResidualEdge { flow: edge.flow - min, is_residual: false }
        };
        res.set_edge(from, to, changed);
        proof {
            lemma_augment_step(m0, before, res.model(), p, i as int, min as int, changed);
        }
        i += 1;
    }
    proof {
        assert forall|u: usize, v: usize| on_prefix(p, path.len() - 1, u, v) == on_path(p, u, v) by {
            if on_path(p, u, v) {
                let j = choose|j: int| 0 <= j < p.len() - 1 && #[trigger] p[j] == u && p[j + 1] == v;
                assert(on_prefix(p, path.len() - 1, u, v));
            }
            if on_prefix(p, path.len() - 1, u, v) {
                let j = choose|j: int|
                    0 <= j < path.len() - 1 && j < p.len() - 1 && #[trigger] p[j] == u && p[j + 1] == v;
                assert(on_path(p, u, v));
            }
        }
    }
    min
}

/// `listing` holds the arcs of the directed graph `g`, each once, with its payload.
pub open spec fn owned_listing<V: WithID, E>(listing: Seq<(usize, usize, E)>, g: GraphModel<V, E>) -> bool {
    &&& forall|i: int|
        0 <= i < listing.len() ==> g.has_arc((#[trigger] listing[i]).0, listing[i].1) && g.edge(
            listing[i].0,
            listing[i].1,
        ) == Some(listing[i].2)
    &&& forall|i: int, j: int|
        0 <= i < j < listing.len() ==> ((#[trigger] listing[i]).0, listing[i].1) != (
            (#[trigger] listing[j]).0,
            listing[j].1,
        )
    &&& forall|a: usize, b: usize| #[trigger]
        g.has_arc(a, b) ==> exists|i: int|
            0 <= i < listing.len() && (#[trigger] listing[i]).0 == a && listing[i].1 == b
}

/// The position of the arc from `a.0` to `a.1` in a listing.
pub open spec fn listed_at<E>(listing: Seq<(usize, usize, E)>, a: (usize, usize)) -> int {
    choose|i: int| 0 <= i < listing.len() && (#[trigger] listing[i]).0 == a.0 && listing[i].1 == a.1
}

/// The capacities by arc, from the capacities in the order of a listing.
pub open spec fn caps_of<E>(listing: Seq<(usize, usize, E)>, amounts: Seq<i64>) -> Map<(usize, usize), i64> {
    Map::new(|a: (usize, usize)| true, |a: (usize, usize)| amounts[listed_at(listing, a)])
}

/// The arcs of the residual graph of `listing`: its arcs with their capacities, then
/// their reverses, which can carry nothing.
pub open spec fn residual_batch<E>(
    listing: Seq<(usize, usize, E)>,
    amounts: Seq<i64>,
    batch: Seq<(usize, usize, ResidualEdge)>,
) -> bool {
    &&& amounts.len() == listing.len()
    &&& batch.len() == 2 * listing.len()
    &&& forall|i: int|
        0 <= i < listing.len() ==> #[trigger] batch[i] == (
            listing[i].0,
            listing[i].1,
            residual(amounts[i] as int, false),
        )
    &&& forall|i: int|
        0 <= i < listing.len() ==> #[trigger] batch[listing.len() + i] == (
            listing[i].1,
            listing[i].0,
            residual(0, true),
        )
}

/// Where all of the first `n` edges of a batch can come in, each of them can.
pub proof fn lemma_all_accepted<E>(
    ids: Set<usize>,
    edges: Seq<(usize, usize, E)>,
    directed: bool,
    n: int,
    j: int,
)
    requires
        0 <= j < n,
        first_rejected_edge(ids, edges, directed, n) == n,
    ensures
        edge_rejection(ids, edges, j, directed) is None,
    decreases n,
{
    if j < n - 1 {
        lemma_all_accepted(ids, edges, directed, n - 1, j);
    }
}

/// The graph of a residual batch is the residual graph before anything is carried.
pub proof fn lemma_residual_built<V: WithID, E>(
    g: GraphModel<V, E>,
    res: GraphModel<V, ResidualEdge>,
    s: usize,
    t: usize,
    vs: Seq<V>,
    listing: Seq<(usize, usize, E)>,
    amounts: Seq<i64>,
    batch: Seq<(usize, usize, ResidualEdge)>,
)
    requires
        g.valid(),
        g.directed,
        res.valid(),
        res.directed,
        owned_listing(listing, g),
        residual_batch(listing, amounts, batch),
        res.vertices.dom() == g.vertices.dom(),
        holds_batch(res, vs, batch, batch.len() as int),
        first_rejected_edge(res.vertices.dom(), batch, true, batch.len() as int) == batch.len(),
    ensures
        residual_ok(g, res, s, t, caps_of(listing, amounts), Seq::empty()),
{
    let k = listing.len() as int;
    let caps = caps_of(listing, amounts);
    let none = Seq::<(Seq<usize>, int)>::empty();
    assert forall|u: usize, v: usize| #[trigger]
        res.has_arc(u, v) <==> g.has_arc(u, v) || g.has_arc(v, u) by {
        if res.has_arc(u, v) {
            assert(joined_before(batch, 2 * k, u, v, true));
            let x = choose|x: int| 0 <= x < 2 * k && #[trigger] joins(batch[x], u, v, true);
            if x < k {
                assert(batch[x] == (listing[x].0, listing[x].1, residual(amounts[x] as int, false)));
            } else {
                assert(batch[k + (x - k)] == (
                    listing[x - k].1,
                    listing[x - k].0,
                    residual(0, true),
                ));
            }
        }
        if g.has_arc(u, v) {
            let x = listed_at(listing, (u, v));
            assert(joins(batch[x], u, v, true));
            assert(joined_before(batch, 2 * k, u, v, true));
        }
        if g.has_arc(v, u) {
            let x = listed_at(listing, (v, u));
            assert(joins(batch[k + x], u, v, true));
            assert(joined_before(batch, 2 * k, u, v, true));
        }
    }
    assert forall|u: usize, v: usize| #[trigger] g.has_arc(u, v) implies {
        &&& !g.has_arc(v, u)
        &&& 0 <= carried(none, u, v)
        &&& carried(none, u, v) > 0 ==> carried(none, u, v) <= caps[(u, v)]
        &&& i64::MIN <= caps[(u, v)] - carried(none, u, v) <= i64::MAX
        &&& res.edge(u, v) == Some(residual(caps[(u, v)] - carried(none, u, v), false))
        &&& res.edge(v, u) == Some(residual(0, true))
    } by {
        let x = listed_at(listing, (u, v));
        assert(batch[x] == (listing[x].0, listing[x].1, residual(amounts[x] as int, false)));
        assert(batch[k + x] == (listing[x].1, listing[x].0, residual(0, true)));
        assert(res.edge(batch[x].0, batch[x].1) == Some(batch[x].2));
        assert(res.edge(batch[k + x].0, batch[k + x].1) == Some(batch[k + x].2));
        if g.has_arc(v, u) {
            let y = listed_at(listing, (v, u));
            assert(batch[y] == (listing[y].0, listing[y].1, residual(amounts[y] as int, false)));
            lemma_all_accepted(res.vertices.dom(), batch, true, 2 * k, k + x);
            assert(joins(batch[y], v, u, true));
            assert(joined_before(batch, k + x, v, u, true));
        }
    }
}

/// No arc of the graph has its reverse in the graph, and none leads from a vertex
/// to itself.
pub open spec fn one_way<V: WithID, E>(g: GraphModel<V, E>) -> bool {
    forall|u: usize, v: usize| #[trigger] g.has_arc(u, v) ==> !g.has_arc(v, u)
}

/// Where an arc of the graph has its reverse in the graph, or leads from a vertex
/// to itself, the reverse that the residual graph gets for it cannot come in.
pub proof fn lemma_residual_rejected<V: WithID, E>(
    g: GraphModel<V, E>,
    listing: Seq<(usize, usize, E)>,
    amounts: Seq<i64>,
    batch: Seq<(usize, usize, ResidualEdge)>,
)
    requires
        owned_listing(listing, g),
        residual_batch(listing, amounts, batch),
        !one_way(g),
    ensures
        first_rejected_edge(g.vertices.dom(), batch, true, batch.len() as int) < batch.len(),
{
    let (u, v) = choose|u: usize, v: usize| #[trigger] g.has_arc(u, v) && g.has_arc(v, u);
    let x = choose|i: int| 0 <= i < listing.len() && (#[trigger] listing[i]).0 == u && listing[i].1 == v;
    let y = choose|i: int| 0 <= i < listing.len() && (#[trigger] listing[i]).0 == v && listing[i].1 == u;
    let j = listing.len() + x;
    assert(batch[listing.len() + x] == (listing[x].1, listing[x].0, residual(0, true)));
    assert(batch[y] == (listing[y].0, listing[y].1, residual(amounts[y] as int, false)));
    assert(joins(batch[y], v, u, true));
    assert(joined_before(batch, j, v, u, true));
    assert(edge_rejection(g.vertices.dom(), batch, j, true) is Some);
    assert(first_rejected_edge(g.vertices.dom(), batch, true, j + 1) < j + 1);
    crate::graph::batch::lemma_rejected_edge_stays(g.vertices.dom(), batch, true, j + 1, batch.len() as int);
}

/// The first edge that cannot come in is one of the edges, or their number.
pub proof fn lemma_rejection_place<E>(ids: Set<usize>, edges: Seq<(usize, usize, E)>, n: int)
    requires
        0 <= n,
    ensures
        0 <= first_rejected_edge(ids, edges, true, n) <= n,
    decreases n,
{
    if n > 0 {
        lemma_rejection_place(ids, edges, n - 1);
    }
}

/// An edge of the residual batch that cannot come in is there already.
pub proof fn lemma_residual_error<V: WithID, E>(
    g: GraphModel<V, E>,
    listing: Seq<(usize, usize, E)>,
    amounts: Seq<i64>,
    batch: Seq<(usize, usize, ResidualEdge)>,
    j: int,
)
    requires
        g.valid(),
        owned_listing(listing, g),
        residual_batch(listing, amounts, batch),
        0 <= j < batch.len(),
        edge_rejection(g.vertices.dom(), batch, j, true) is Some,
    ensures
        edge_rejection(g.vertices.dom(), batch, j, true)->Some_0 is DuplicateEdge,
{
    let k = listing.len() as int;
    let own = if j < k {
        j
    } else {
        j - k
    };
    assert(g.has_arc(listing[own].0, listing[own].1));
    lemma_reaches_vertex_arc(g, listing[own].0, listing[own].1);
    if j < k {
        assert(batch[j] == (listing[own].0, listing[own].1, residual(amounts[own] as int, false)));
    } else {
        assert(batch[k + own] == (listing[own].1, listing[own].0, residual(0, true)));
    }
}

/// The arcs of the residual graph of a graph without arcs both ways can all come
/// in.
pub proof fn lemma_residual_accepted<V: WithID, E>(
    g: GraphModel<V, E>,
    listing: Seq<(usize, usize, E)>,
    amounts: Seq<i64>,
    batch: Seq<(usize, usize, ResidualEdge)>,
    n: int,
)
    requires
        g.valid(),
        g.directed,
        one_way(g),
        owned_listing(listing, g),
        residual_batch(listing, amounts, batch),
        0 <= n <= batch.len(),
    ensures
        first_rejected_edge(g.vertices.dom(), batch, true, n) == n,
    decreases n,
{
    if n > 0 {
        lemma_residual_accepted(g, listing, amounts, batch, n - 1);
        let k = listing.len() as int;
        let j = n - 1;
        let own = if j < k {
            j
        } else {
            j - k
        };
        assert(batch[own] == (listing[own].0, listing[own].1, residual(amounts[own] as int, false)));
        assert(batch[k + own] == (listing[own].1, listing[own].0, residual(0, true)));
        assert(g.has_arc(listing[own].0, listing[own].1));
        lemma_reaches_vertex_arc(g, listing[own].0, listing[own].1);
        if joined_before(batch, j, batch[j].0, batch[j].1, true) {
            let x = choose|x: int| 0 <= x < j && #[trigger] joins(batch[x], batch[j].0, batch[j].1, true);
            let other = if x < k {
                x
            } else {
                x - k
            };
            assert(batch[other] == (
                listing[other].0,
                listing[other].1,
                residual(amounts[other] as int, false),
            ));
            assert(batch[k + other] == (listing[other].1, listing[other].0, residual(0, true)));
            assert(g.has_arc(listing[other].0, listing[other].1));
            if (x < k) == (j < k) {
                assert((listing[other].0, listing[other].1) != (listing[own].0, listing[own].1));
            }
        }
        assert(edge_rejection(g.vertices.dom(), batch, j, true) is None);
    }
}

/// Every path from `s` to `t` has an arc that carries all that it can carry.
pub open spec fn exhausted<V: WithID, E>(
    g: GraphModel<V, E>,
    s: usize,
    t: usize,
    caps: Map<(usize, usize), i64>,
    paths: Seq<(Seq<usize>, int)>,
) -> bool {
    forall|p: Seq<usize>|
        #[trigger] is_walk(g, p) && p[0] == s && p.last() == t ==> exists|i: int|
            0 <= i < p.len() - 1 && caps[(p[i], p[i + 1])] <= #[trigger] carried(paths, p[i], p[i + 1])
}

/// Where no path along arcs that can still carry something leads from `s` to `t` in
/// the residual graph, every path from `s` to `t` is exhausted.
pub proof fn lemma_exhausted<V: WithID, E>(
    g: GraphModel<V, E>,
    res: GraphModel<V, ResidualEdge>,
    s: usize,
    t: usize,
    caps: Map<(usize, usize), i64>,
    paths: Seq<(Seq<usize>, int)>,
)
    requires
        residual_ok(g, res, s, t, caps, paths),
        forall|p: Seq<usize>| !#[trigger] open_walk(res, p, s, t),
    ensures
        exhausted(g, s, t, caps, paths),
{
    assert forall|p: Seq<usize>| #[trigger] is_walk(g, p) && p[0] == s && p.last() == t implies exists|
        i: int,
    |
        0 <= i < p.len() - 1 && caps[(p[i], p[i + 1])] <= #[trigger] carried(paths, p[i], p[i + 1]) by {
        if !exists|i: int|
            0 <= i < p.len() - 1 && caps[(p[i], p[i + 1])] <= #[trigger] carried(paths, p[i], p[i + 1]) {
            assert forall|i: int| 0 <= i < p.len() - 1 implies open_arc(res, #[trigger] p[i], p[i + 1]) by {
                assert(g.has_arc(p[i], p[i + 1]));
                assert(!(caps[(p[i], p[i + 1])] <= carried(paths, p[i], p[i + 1])));
                assert(res.edge(p[i], p[i + 1]) == Some(
                    residual(caps[(p[i], p[i + 1])] - carried(paths, p[i], p[i + 1]), false),
                ));
            }
            assert(open_walk(res, p, s, t));
        }
    }
}

/// What the paths carry goes up by the amount of a new path along its arcs, and is
/// what it was elsewhere.
pub proof fn lemma_carried_push(paths: Seq<(Seq<usize>, int)>, p: Seq<usize>, amount: int, u: usize, v: usize)
    ensures
        carried(paths.push((p, amount)), u, v) == carried(paths, u, v) + (if on_path(p, u, v) {
            amount
        } else {
            0
        }),
{
    assert(paths.push((p, amount)).drop_last() =~= paths);
}

/// What the arc from `u` to `v` can still carry after the first `j` of the paths.
pub open spec fn left_after(
    caps: Map<(usize, usize), i64>,
    paths: Seq<(Seq<usize>, int)>,
    j: int,
    u: usize,
    v: usize,
) -> int {
    caps[(u, v)] - carried(paths.take(j), u, v)
}

/// Every arc of `q` can still carry something after the first `j` of the paths.
pub open spec fn still_open(caps: Map<(usize, usize), i64>, paths: Seq<(Seq<usize>, int)>, j: int, q: Seq<usize>) -> bool {
    forall|i: int| 0 <= i < q.len() - 1 ==> left_after(caps, paths, j, #[trigger] q[i], q[i + 1]) > 0
}

/// The path at `j` carries the least of what its arcs could still carry after the
/// paths before it, and no path from `s` to `t` along arcs that could still carry
/// something then has fewer arcs.
pub open spec fn step_ok<V: WithID, E>(
    g: GraphModel<V, E>,
    s: usize,
    t: usize,
    caps: Map<(usize, usize), i64>,
    paths: Seq<(Seq<usize>, int)>,
    j: int,
) -> bool {
    let p = paths[j].0;
    let amount = paths[j].1;
    &&& forall|i: int| 0 <= i < p.len() - 1 ==> amount <= left_after(caps, paths, j, #[trigger] p[i], p[i + 1])
    &&& exists|i: int| 0 <= i < p.len() - 1 && amount == left_after(caps, paths, j, #[trigger] p[i], p[i + 1])
    &&& forall|q: Seq<usize>|
        #[trigger] is_walk(g, q) && q[0] == s && q.last() == t && still_open(caps, paths, j, q) ==> p.len()
            <= q.len()
}

/// One more path that is a shortest one and carries the least of what its arcs can
/// carry keeps what holds of the paths one by one.
pub proof fn lemma_step_ok<V: WithID, E>(
    g: GraphModel<V, E>,
    res0: GraphModel<V, ResidualEdge>,
    s: usize,
    t: usize,
    caps: Map<(usize, usize), i64>,
    paths: Seq<(Seq<usize>, int)>,
    p: Seq<usize>,
    min: int,
)
    requires
        g.valid(),
        residual_ok(g, res0, s, t, caps, paths),
        open_path(res0, p, s, t),
        no_shorter(res0, s, t, p.len() - 1),
        forall|i: int| 0 <= i < p.len() - 1 ==> min <= res0.edge(#[trigger] p[i], p[i + 1])->Some_0.flow,
        exists|i: int| 0 <= i < p.len() - 1 && min == res0.edge(#[trigger] p[i], p[i + 1])->Some_0.flow,
        forall|j: int| 0 <= j < paths.len() ==> #[trigger] step_ok(g, s, t, caps, paths, j),
    ensures
        forall|j: int|
            0 <= j < paths.len() + 1 ==> #[trigger] step_ok(g, s, t, caps, paths.push((p, min)), j),
{
    let more = paths.push((p, min));
    assert forall|j: int| 0 <= j < paths.len() + 1 implies #[trigger] step_ok(g, s, t, caps, more, j) by {
        if j < paths.len() {
            assert(step_ok(g, s, t, caps, paths, j));
            assert(more.take(j) =~= paths.take(j));
            assert(more[j] == paths[j]);
            let pj = paths[j].0;
            let i = choose|i: int|
                0 <= i < pj.len() - 1 && paths[j].1 == left_after(caps, paths, j, #[trigger] pj[i], pj[i + 1]);
            assert(0 <= i < pj.len() - 1 && more[j].1 == left_after(caps, more, j, pj[i], pj[i + 1]));
            assert forall|q: Seq<usize>|
                #[trigger] is_walk(g, q) && q[0] == s && q.last() == t && still_open(
                    caps,
                    more,
                    j,
                    q,
                ) implies pj.len() <= q.len() by {
                assert(still_open(caps, paths, j, q));
            }
        } else {
            assert(more.take(j) =~= paths);
            assert(more[j] == (p, min));
            // The arcs of the path are arcs of the graph.
            assert forall|i: int| 0 <= i < p.len() - 1 implies g.has_arc(#[trigger] p[i], p[i + 1]) by {
                assert(open_arc(res0, p[i], p[i + 1]));
                assert(res0.has_arc(p[i], p[i + 1]));
                if g.has_arc(p[i + 1], p[i]) {
                    assert(res0.edge(p[i], p[i + 1]) == Some(residual(0, true)));
                }
            }
            assert forall|i: int| 0 <= i < p.len() - 1 implies min <= left_after(
                caps,
                more,
                j,
                #[trigger] p[i],
                p[i + 1],
            ) by {
                assert(g.has_arc(p[i], p[i + 1]));
            }
            let i = choose|i: int| 0 <= i < p.len() - 1 && min == res0.edge(#[trigger] p[i], p[i + 1])->Some_0.flow;
            assert(g.has_arc(p[i], p[i + 1]));
            assert(0 <= i < p.len() - 1 && min == left_after(caps, more, j, p[i], p[i + 1]));
            assert forall|q: Seq<usize>|
                #[trigger] is_walk(g, q) && q[0] == s && q.last() == t && still_open(
                    caps,
                    more,
                    j,
                    q,
                ) implies p.len() <= q.len() by {
                assert forall|i: int| 0 <= i < q.len() - 1 implies open_arc(res0, #[trigger] q[i], q[i + 1]) by {
                    assert(g.has_arc(q[i], q[i + 1]));
                    assert(left_after(caps, more, j, q[i], q[i + 1]) > 0);
                    assert(res0.edge(q[i], q[i + 1]) == Some(
                        residual(caps[(q[i], q[i + 1])] - carried(paths, q[i], q[i + 1]), false),
                    ));
                }
                assert(open_walk(res0, q, s, t));
            }
        }
    }
}

/// The residual graph after one more path: what holds of it, and that fewer arcs
/// can still carry something.
pub proof fn lemma_augmented<V: WithID, E>(
    g: GraphModel<V, E>,
    res0: GraphModel<V, ResidualEdge>,
    res1: GraphModel<V, ResidualEdge>,
    s: usize,
    t: usize,
    caps: Map<(usize, usize), i64>,
    paths: Seq<(Seq<usize>, int)>,
    p: Seq<usize>,
    min: int,
)
    requires
        g.valid(),
        g.directed,
        g.canonical_arcs().finite(),
        residual_ok(g, res0, s, t, caps, paths),
        open_path(res0, p, s, t),
        min > 0,
        res1.vertices == res0.vertices,
        forall|u: usize, v: usize| #[trigger] res1.has_arc(u, v) == res0.has_arc(u, v),
        forall|i: int| 0 <= i < p.len() - 1 ==> min <= res0.edge(#[trigger] p[i], p[i + 1])->Some_0.flow,
        exists|i: int| 0 <= i < p.len() - 1 && min == res0.edge(#[trigger] p[i], p[i + 1])->Some_0.flow,
        forall|u: usize, v: usize| #[trigger]
            res1.edge(u, v) == (if on_path(p, u, v) {
                Some(residual(res0.edge(u, v)->Some_0.flow - min, false))
            } else {
                res0.edge(u, v)
            }),
    ensures
        residual_ok(g, res1, s, t, caps, paths.push((p, min))),
        open_set(g, res0).finite(),
        open_set(g, res1).len() < open_set(g, res0).len(),
{
    let more = paths.push((p, min));
    // The arcs of the path are arcs of the graph.
    assert forall|i: int| 0 <= i < p.len() - 1 implies g.has_arc(#[trigger] p[i], p[i + 1]) by {
        assert(open_arc(res0, p[i], p[i + 1]));
        assert(res0.has_arc(p[i], p[i + 1]));
        if g.has_arc(p[i + 1], p[i]) {
            assert(res0.edge(p[i], p[i + 1]) == Some(residual(0, true)));
        }
    }
    assert(g.has_arc(p[0int], p[0int + 1]));
    lemma_reaches_vertex_arc(g, p[0], p[1]);
    assert(augmenting(g, s, t, (p, min)));
    assert forall|j: int| 0 <= j < more.len() implies augmenting(g, s, t, #[trigger] more[j]) by {
        if j < paths.len() {
            assert(more[j] == paths[j]);
        }
    }
    assert forall|u: usize, v: usize| #[trigger] res1.has_arc(u, v) <==> g.has_arc(u, v) || g.has_arc(
        v,
        u,
    ) by {
        assert(res1.has_arc(u, v) == res0.has_arc(u, v));
    }
    assert forall|u: usize, v: usize| #[trigger] g.has_arc(u, v) implies {
        &&& !g.has_arc(v, u)
        &&& 0 <= carried(more, u, v)
        &&& carried(more, u, v) > 0 ==> carried(more, u, v) <= caps[(u, v)]
        &&& i64::MIN <= caps[(u, v)] - carried(more, u, v) <= i64::MAX
        &&& res1.edge(u, v) == Some(residual(caps[(u, v)] - carried(more, u, v), false))
        &&& res1.edge(v, u) == Some(residual(0, true))
    } by {
        lemma_carried_push(paths, p, min, u, v);
        lemma_carried_push(paths, p, min, v, u);
        assert(res0.edge(u, v) == Some(residual(caps[(u, v)] - carried(paths, u, v), false)));
        if on_path(p, u, v) {
            let i = choose|i: int| 0 <= i < p.len() - 1 && #[trigger] p[i] == u && p[i + 1] == v;
            assert(min <= res0.edge(p[i], p[i + 1])->Some_0.flow);
        }
        if on_path(p, v, u) {
            let i = choose|i: int| 0 <= i < p.len() - 1 && #[trigger] p[i] == v && p[i + 1] == u;
            assert(g.has_arc(p[i], p[i + 1]));
        }
    }
    // One arc of the path can carry nothing any more, and no arc can carry more.
    let set0 = open_set(g, res0);
    let set1 = open_set(g, res1);
    assert(set0.subset_of(g.canonical_arcs()));
    vstd::set_lib::lemma_set_subset_finite(g.canonical_arcs(), set0);
    let i = choose|i: int| 0 <= i < p.len() - 1 && min == res0.edge(#[trigger] p[i], p[i + 1])->Some_0.flow;
    let full = (p[i], p[i + 1]);
    assert(g.has_arc(p[i], p[i + 1]));
    assert(open_arc(res0, p[i], p[i + 1]));
    assert(on_path(p, p[i], p[i + 1]));
    assert(set0.contains(full));
    assert(!set1.contains(full));
    assert forall|a: (usize, usize)| set1.contains(a) implies set0.remove(full).contains(a) by {
        assert(res1.has_arc(a.0, a.1) == res0.has_arc(a.0, a.1));
        if on_path(p, a.0, a.1) {
            let j = choose|j: int| 0 <= j < p.len() - 1 && #[trigger] p[j] == a.0 && p[j + 1] == a.1;
            assert(open_arc(res0, p[j], p[j + 1]));
        }
    }
    assert(set1.subset_of(set0.remove(full)));
    vstd::set_lib::lemma_len_subset(set1, set0.remove(full));
}

impl<Backend: GraphBase<Direction = Directed>> Graph<Backend> where
    Backend::Vertex: Copy,
    Backend::Edge: Copy,
 {
    /// Flows from `start` to `target` by shortest augmenting paths. The residual
    /// graph, built in `ResBackend`, has for every arc of the graph an arc that can
    /// carry the capacity that `max_flow` gives for it, and for its reverse an arc
    /// that can carry nothing. As long as a path from `start` to `target` leads
    /// along arcs that can still carry something, the shortest such path carries
    /// the least of what its arcs can carry. In the end every edge has the payload
    /// that `flow` gives it with what the paths carry along it, and what flows into
    /// a vertex other than `start` and `target` flows out of it.
    ///
    /// Nothing is changed where the residual graph cannot be built: where the graph
    /// holds an arc and its reverse, or an arc from a vertex to itself, which gives
    /// `DuplicateEdge`, or where `ResBackend` does not take the vertices.
    pub fn edmonds_karp<ResBackend, FlowFn, MaxFlowFn>(
        &mut self,
        start: usize,
        target: usize,
        flow: FlowFn,
        max_flow: MaxFlowFn,
    ) -> (r: Result<(), GraphError>) where
        ResBackend: GraphBase<Vertex = Backend::Vertex, Edge = ResidualEdge, Direction = Directed>,
        FlowFn: Fn(Backend::Edge, i64) -> Backend::Edge,
        MaxFlowFn: Fn(&Backend::Edge) -> i64,

        requires
            old(self).wf(),
            start != target,
            forall|e: Backend::Edge| call_requires(max_flow, (&e,)),
            forall|e: Backend::Edge, f: i64| call_requires(flow, (e, f)),
        ensures
            final(self).wf(),
            r is Err ==> final(self).model() == old(self).model(),
            r is Ok ==> exists|caps: Map<(usize, usize), i64>, paths: Seq<(Seq<usize>, int)>|
                {
                    &&& #[trigger] flow_written(
                        old(self).model(),
                        final(self).model(),
                        flow,
                        max_flow,
                        caps,
                        paths,
                    )
                    &&& forall|j: int|
                        0 <= j < paths.len() ==> augmenting(
                            old(self).model(),
                            start,
                            target,
                            #[trigger] paths[j],
                        )
                    &&& forall|j: int|
                        0 <= j < paths.len() ==> #[trigger] step_ok(
                            old(self).model(),
                            start,
                            target,
                            caps,
                            paths,
                            j,
                        )
                    &&& exhausted(old(self).model(), start, target, caps, paths)
                    &&& conserved(old(self).model().vertices.dom(), start, target, paths)
                },
            one_way(old(self).model()) && takes_all::<ResBackend>() ==> r is Ok,
            r is Ok ==> one_way(old(self).model()),
            r is Err && takes_all::<ResBackend>() ==> r->Err_0 is DuplicateEdge,
    {
        let ghost g = self.model();
        proof {
            self.lemma_wf();
        }
        // The arcs of the graph with their capacities, and the vertices.
        let mut listing: Vec<(usize, usize, Backend::Edge)> = Vec::new();
        let mut amounts: Vec<i64> = Vec::new();
        let mut res_edges: Vec<(usize, usize, ResidualEdge)> = Vec::new();
        let mut vertices: Vec<Backend::Vertex> = Vec::new();
        {
            let edges = self.get_all_edges();
            let mut i: usize = 0;
            while i < edges.len()
                invariant
                    0 <= i <= edges.len(),
                    lists_edges(edges@, g),
                    g.valid(),
                    g.directed,
                    forall|e: Backend::Edge| call_requires(max_flow, (&e,)),
                    listing.len() == i,
                    amounts.len() == i,
                    res_edges.len() == i,
                    forall|k: int|
                        0 <= k < i ==> #[trigger] listing[k] == (edges[k].0, edges[k].1, *edges[k].2),
                    forall|k: int|
                        0 <= k < i ==> call_ensures(max_flow, (&listing[k].2,), #[trigger] amounts[k]),
                    forall|k: int|
                        0 <= k < i ==> #[trigger] res_edges[k] == (
                            listing[k].0,
                            listing[k].1,
                            residual(amounts[k] as int, false),
                        ),
                decreases edges.len() - i,
            {
                let from = edges[i].0;
                let to = edges[i].1;
                let edge = *edges[i].2;
                let amount = max_flow(&edge);
                listing.push((from, to, edge));
                amounts.push(amount);
                res_edges.push((from, to, ResidualEdge { flow: amount, is_residual: false }));
                i += 1;
            }
            proof {
                assert forall|a: usize, b: usize| #[trigger] g.has_arc(a, b) implies exists|x: int|
                    0 <= x < listing.len() && (#[trigger] listing[x]).0 == a && listing[x].1 == b by {
                    assert(g.canonical_arcs().contains((a, b)));
                    lemma_edges_cover(edges@, g, a, b);
                    let x = choose|x: int| 0 <= x < edges.len() && (#[trigger] edges[x]).0 == a && edges[x].1 == b;
                    assert(listing[x].0 == a && listing[x].1 == b);
                }
                assert forall|x: int| 0 <= x < listing.len() implies g.has_arc(
                    (#[trigger] listing[x]).0,
                    listing[x].1,
                ) && g.edge(listing[x].0, listing[x].1) == Some(listing[x].2) by {
                    let e = edges[x];
                    assert(g.canonical_arcs().contains((e.0, e.1)));
                }
                assert forall|x: int, y: int| 0 <= x < y < listing.len() implies (
                    (#[trigger] listing[x]).0,
                    listing[x].1,
                ) != ((#[trigger] listing[y]).0, listing[y].1) by {
                    assert((edges[x].0, edges[x].1) != (edges[y].0, edges[y].1));
                }
            }
            let all = self.get_all_vertices();
            let mut j: usize = 0;
            while j < all.len()
                invariant
                    0 <= j <= all.len(),
                    vertices.len() == j,
                    forall|k: int| 0 <= k < j ==> #[trigger] vertices[k] == *all[k],
                decreases all.len() - j,
            {
                vertices.push(*all[j]);
                j += 1;
            }
            proof {
                assert forall|x: int, y: int| 0 <= x < y < vertices.len() implies (
                #[trigger] vertices[x]).spec_id() != (#[trigger] vertices[y]).spec_id() by {
                    assert(all[x].spec_id() != all[y].spec_id());
                }
                assert forall|id: usize| g.has_vertex(id) implies exists|x: int|
                    0 <= x < vertices.len() && (#[trigger] vertices[x]).spec_id() == id by {
                    lemma_listing_covers(all@, g, id);
                    let x = choose|x: int| 0 <= x < all.len() && (#[trigger] all[x]).spec_id() == id;
                    assert(vertices[x].spec_id() == id);
                }
                assert forall|x: int| 0 <= x < vertices.len() implies g.has_vertex(
                    (#[trigger] vertices[x]).spec_id(),
                ) by {
                    assert(g.has_vertex(all[x].spec_id()));
                }
            }
        }
        let count = listing.len();
        let mut i: usize = 0;
        while i < count
            invariant
                0 <= i <= count,
                count == listing.len(),
                amounts.len() == count,
                res_edges.len() == count + i,
                forall|k: int|
                    0 <= k < count ==> #[trigger] res_edges[k] == (
                        listing[k].0,
                        listing[k].1,
                        residual(amounts[k] as int, false),
                    ),
                forall|k: int|
                    0 <= k < i ==> #[trigger] res_edges[count + k] == (
                        listing[k].1,
                        listing[k].0,
                        residual(0, true),
                    ),
            decreases count - i,
        {
            res_edges.push((listing[i].1, listing[i].0, ResidualEdge { flow: 0, is_residual: true }));
            i += 1;
        }
        let ghost vs = vertices@;
        let ghost batch = res_edges@;
        let built = Graph::<ResBackend>::from_vertices_and_edges(vertices, res_edges);
        proof {
            let listed = vertices_model::<Backend::Vertex, ResidualEdge>(vs, true);
            lemma_no_arcs::<Backend::Vertex, ResidualEdge>(vs, true);
            assert(listed.vertices.dom() =~= g.vertices.dom()) by {
                assert forall|id: usize| listed.vertices.dom().contains(id) <==> g.vertices.dom().contains(
                    id,
                ) by {
                    if g.has_vertex(id) {
                        let x = choose|x: int| 0 <= x < vs.len() && (#[trigger] vs[x]).spec_id() == id;
                        assert(vs[x].spec_id() == id);
                    }
                    if listed.has_vertex(id) {
                        let x = choose|x: int| 0 <= x < vs.len() && (#[trigger] vs[x]).spec_id() == id;
                        assert(g.has_vertex(vs[x].spec_id()));
                    }
                }
            }
            if !one_way(g) {
                lemma_residual_rejected(g, listing@, amounts@, batch);
                if built is Ok {
                    built->Ok_0.lemma_wf();
                    lemma_no_arcs::<Backend::Vertex, ResidualEdge>(vs, true);
                    assert(built->Ok_0.model().vertices.dom() == listed.vertices.dom());
                }
            }
            if built is Err && takes_all::<ResBackend>() {
                lemma_vertices_accepted::<ResBackend>(vs, vs.len() as int);
                let j = first_rejected_edge(g.vertices.dom(), batch, true, batch.len() as int);
                assert(batch_result::<ResBackend>(vs, batch, built));
                assert(first_rejected_vertex::<ResBackend>(vs, vs.len() as int) == vs.len());
                lemma_rejection_place(g.vertices.dom(), batch, batch.len() as int);
                lemma_residual_error(g, listing@, amounts@, batch, j);
            }
            if one_way(g) && takes_all::<ResBackend>() {
                lemma_vertices_accepted::<ResBackend>(vs, vs.len() as int);
                lemma_residual_accepted(g, listing@, amounts@, batch, batch.len() as int);
                lemma_no_arcs::<Backend::Vertex, ResidualEdge>(vs, true);
                assert(vertices_model::<Backend::Vertex, ResidualEdge>(vs, true).vertices.dom()
                    =~= g.vertices.dom()) by {
                    assert forall|id: usize|
                        vertices_model::<Backend::Vertex, ResidualEdge>(vs, true).vertices.dom().contains(
                            id,
                        ) <==> g.vertices.dom().contains(id) by {
                        let listed = vertices_model::<Backend::Vertex, ResidualEdge>(vs, true);
                        if g.has_vertex(id) {
                            let x = choose|x: int| 0 <= x < vs.len() && (#[trigger] vs[x]).spec_id() == id;
                            assert(vs[x].spec_id() == id);
                        }
                        if listed.has_vertex(id) {
                            let x = choose|x: int| 0 <= x < vs.len() && (#[trigger] vs[x]).spec_id() == id;
                            assert(g.has_vertex(vs[x].spec_id()));
                        }
                    }
                }
                assert(built is Ok);
            }
        }
        let mut res = match built {
            Ok(res) => res,
            Err(e) => {
                return Err(e);
            },
        };
        let ghost caps = caps_of(listing@, amounts@);
        let ghost mut paths: Seq<(Seq<usize>, int)> = Seq::empty();
        proof {
            res.lemma_wf();
            crate::graph::batch::lemma_no_arcs::<Backend::Vertex, ResidualEdge>(vs, true);
            assert(res.model().vertices.dom() =~= g.vertices.dom()) by {
                assert forall|id: usize|
                    res.model().vertices.dom().contains(id) <==> g.vertices.dom().contains(id) by {
                    assert(res.model().vertices.dom() == vertices_model::<
                        Backend::Vertex,
                        ResidualEdge,
                    >(vs, true).vertices.dom());
                    if g.has_vertex(id) {
                        let x = choose|x: int| 0 <= x < vs.len() && (#[trigger] vs[x]).spec_id() == id;
                        assert(vs[x].spec_id() == id);
                    }
                    if vertices_model::<Backend::Vertex, ResidualEdge>(vs, true).has_vertex(id) {
                        let x = choose|x: int| 0 <= x < vs.len() && (#[trigger] vs[x]).spec_id() == id;
                        assert(g.has_vertex(vs[x].spec_id()));
                    }
                }
            }
            lemma_residual_built(g, res.model(), start, target, vs, listing@, amounts@, batch);
        }
        // As long as there is a path, it carries what it can.
        let mut flowing = true;
        while flowing
            invariant
                res.wf(),
                res.model().directed,
                g.valid(),
                g.directed,
                start != target,
                residual_ok(g, res.model(), start, target, caps, paths),
                !flowing ==> forall|p: Seq<usize>| !#[trigger] open_walk(res.model(), p, start, target),
                forall|j: int| 0 <= j < paths.len() ==> #[trigger] step_ok(g, start, target, caps, paths, j),
            decreases open_set(g, res.model()).len(), (if flowing { 1int } else { 0int }),
        {
            let ghost res0 = res.model();
            match find_shortest_path(&res, start, target) {
                Some(path) => {
                    proof {
                        assert forall|i: int| 0 <= i < path.len() - 1 implies !res0.edge(
                            #[trigger] path[i],
                            path[i + 1],
                        )->Some_0.is_residual by {
                            assert(open_arc(res0, path[i], path[i + 1]));
                            assert(res0.has_arc(path[i], path[i + 1]));
                            if g.has_arc(path[i + 1], path[i]) {
                                assert(res0.edge(path[i], path[i + 1]) == Some(residual(0, true)));
                            }
                        }
                    }
                    let min = augment(&mut res, &path, Ghost(start), Ghost(target));
                    proof {
                        lemma_augmented(
                            g,
                            res0,
                            res.model(),
                            start,
                            target,
                            caps,
                            paths,
                            path@,
                            min as int,
                        );
                        lemma_step_ok(g, res0, start, target, caps, paths, path@, min as int);
                        paths = paths.push((path@, min as int));
                    }
                },
                None => {
                    flowing = false;
                },
            }
        }
        proof {
            lemma_exhausted(g, res.model(), start, target, caps, paths);
        }
        // Every edge gets what was carried along it.
        let mut i: usize = 0;
        while i < count
            invariant
                0 <= i <= count,
                count == listing.len(),
                amounts.len() == count,
                self.wf(),
                res.wf(),
                g.valid(),
                g.directed,
                owned_listing(listing@, g),
                caps == caps_of(listing@, amounts@),
                residual_ok(g, res.model(), start, target, caps, paths),
                forall|e: Backend::Edge, f: i64| call_requires(flow, (e, f)),
                self.model().vertices == g.vertices,
                self.model().directed == g.directed,
                forall|a: usize, b: usize| #[trigger] self.model().has_arc(a, b) == g.has_arc(a, b),
                forall|k: int|
                    0 <= k < i ==> self.model().edge((#[trigger] listing[k]).0, listing[k].1)
                        is Some && call_ensures(
                        flow,
                        (listing[k].2, carried(paths, listing[k].0, listing[k].1) as i64),
                        self.model().edge(listing[k].0, listing[k].1)->Some_0,
                    ),
                forall|k: int|
                    i <= k < count ==> self.model().edge((#[trigger] listing[k]).0, listing[k].1)
                        == g.edge(listing[k].0, listing[k].1),
            decreases count - i,
        {
            let from = listing[i].0;
            let to = listing[i].1;
            let edge_before = listing[i].2;
            let ghost before = self.model();
            proof {
                self.lemma_wf();
                assert(g.has_arc(listing[i as int].0, listing[i as int].1));
                assert(listed_at(listing@, (from, to)) == i) by {
                    let x = listed_at(listing@, (from, to));
                    if x < i {
                        assert((listing[x].0, listing[x].1) != (listing[i as int].0, listing[i as int].1));
                    }
                    if i < x {
                        assert((listing[i as int].0, listing[i as int].1) != (listing[x].0, listing[x].1));
                    }
                }
            }
            let left = match res.get_edge(from, to) {
                Some(e) => e.flow,
                None => {
                    assert(false);
                    0
                },
            };
            let carried_here = amounts[i] - left;
            let edge_after = flow(edge_before, carried_here);
            self.set_edge(from, to, edge_after);
            proof {
                before.lemma_with_edge_payload(from, to, edge_after);
                let after = self.model();
                assert forall|a: usize, b: usize| #[trigger] after.has_arc(a, b) == g.has_arc(a, b) by {
                    assert(after.has_arc(a, b) == before.has_arc(a, b));
                }
                assert forall|k: int| 0 <= k < i + 1 implies after.edge(
                    (#[trigger] listing[k]).0,
                    listing[k].1,
                ) is Some && call_ensures(
                    flow,
                    (listing[k].2, carried(paths, listing[k].0, listing[k].1) as i64),
                    after.edge(listing[k].0, listing[k].1)->Some_0,
                ) by {
                    if k < i {
                        assert((listing[k].0, listing[k].1) != (listing[i as int].0, listing[i as int].1));
                        assert(after.edge(listing[k].0, listing[k].1) == before.edge(
                            listing[k].0,
                            listing[k].1,
                        ));
                    }
                }
                assert forall|k: int| i + 1 <= k < count implies after.edge(
                    (#[trigger] listing[k]).0,
                    listing[k].1,
                ) == g.edge(listing[k].0, listing[k].1) by {
                    assert((listing[i as int].0, listing[i as int].1) != (listing[k].0, listing[k].1));
                    assert(after.edge(listing[k].0, listing[k].1) == before.edge(
                        listing[k].0,
                        listing[k].1,
                    ));
                }
            }
            i += 1;
        }
        proof {
            let after = self.model();
            assert(flow_written(g, after, flow, max_flow, caps, paths)) by {
                assert forall|a: usize, b: usize| #[trigger] g.has_arc(a, b) implies {
                    &&& call_ensures(max_flow, (&g.edge(a, b)->Some_0,), caps[(a, b)])
                    &&& 0 <= carried(paths, a, b) <= i64::MAX
                    &&& carried(paths, a, b) > 0 ==> carried(paths, a, b) <= caps[(a, b)]
                    &&& after.edge(a, b) is Some
                    &&& call_ensures(
                        flow,
                        (g.edge(a, b)->Some_0, carried(paths, a, b) as i64),
                        after.edge(a, b)->Some_0,
                    )
                } by {
                    let x = listed_at(listing@, (a, b));
                    assert(listing[x].0 == a && listing[x].1 == b);
                    assert(g.edge(listing[x].0, listing[x].1) == Some(listing[x].2));
                }
            }
            assert(conserved(g.vertices.dom(), start, target, paths)) by {
                lemma_conservation(g, start, target, paths, start);
                assert forall|x: usize| x != start && x != target implies #[trigger] flow_in(
                    g.vertices.dom(),
                    paths,
                    x,
                ) == flow_out(g.vertices.dom(), paths, x) by {
                    lemma_conservation(g, start, target, paths, x);
                }
            }
        }
        Ok(())
    }
}

} // verus!
