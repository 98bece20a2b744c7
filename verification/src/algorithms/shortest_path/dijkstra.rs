use vstd::prelude::*;
use crate::algorithms::queue::{first_least, lemma_first_least, Keyed, MinQueue};
use rustc_hash::FxHashMap;
use crate::algorithms::reach::{is_walk, reaches};
use crate::fx::{map_get, map_insert, map_new, set_contains, set_insert, set_new};
use crate::graph::model::{weight_at, GraphModel};
use crate::graph::{Graph, GraphBase, WeightedEdge, WithID};
use super::single_source_shortest_paths::{chain, SingleSourceShortestPaths};
use super::walks::{
    is_distance, lemma_arc_weight, lemma_prefix_weight, lemma_walk_push, nonnegative, walk_between,
    walk_weight,
};

verus! {

/// A vertex that waits to be settled, with the cost at which it was found.
#[derive(Debug, Clone, Copy)]
pub struct EdgeEntry {
    pub cost: i128,
    pub vertex_id: usize,
}

impl EdgeEntry {
    pub fn new(cost: i128, vertex_id: usize) -> (e: Self)
        ensures
            e == entry_of(cost, vertex_id),
    {
        EdgeEntry { cost, vertex_id }
    }
}

impl Keyed for EdgeEntry {
    open spec fn spec_key(&self) -> int {
        self.cost as int
    }

    fn key(&self) -> (k: i128) {
        self.cost
    }
}

/// The entry of the vertex `v` found at the cost `c`.
pub open spec fn entry_of(c: i128, v: usize) -> EdgeEntry {
    EdgeEntry { cost: c, vertex_id: v }
}

/// The state of a search: the costs and predecessors found, the settled vertices,
/// for each found vertex the number of arcs on its path, and the entries that wait.
pub struct Search {
    pub costs: Map<usize, i128>,
    pub preds: Map<usize, usize>,
    pub settled: Set<usize>,
    pub hops: Map<usize, nat>,
    pub queue: Seq<EdgeEntry>,
}

impl Search {
    pub open spec fn of(
        costs: Map<usize, i128>,
        preds: Map<usize, usize>,
        settled: Set<usize>,
        hops: Map<usize, nat>,
        queue: Seq<EdgeEntry>,
    ) -> Search {
        Search { costs, preds, settled, hops, queue }
    }
}

/// The largest weight of an arc.
pub open spec fn heaviest() -> int {
    0x7fff_ffff_ffff_ffff
}

/// What is known of a found vertex `v`: its cost is the cost of its predecessor,
/// which is settled, plus the weight of the arc from there, and likewise the
/// number of arcs on its path.
pub open spec fn known<V: WithID, E: WeightedEdge>(m: GraphModel<V, E>, s: usize, st: Search, v: usize) -> bool {
    &&& 0 <= st.costs[v] <= st.settled.len() * heaviest()
    &&& st.hops.contains_key(v)
    &&& st.hops[v] <= st.settled.len()
    &&& v == s ==> st.costs[v] == 0 && st.hops[v] == 0
    &&& v != s ==> {
        let u = st.preds[v];
        &&& m.has_vertex(v)
        &&& st.preds.contains_key(v)
        &&& st.settled.contains(u)
        &&& st.costs.contains_key(u)
        &&& st.hops.contains_key(u)
        &&& m.has_arc(u, v)
        &&& st.costs[v] == st.costs[u] + weight_at(m.arcs, (u, v))
        &&& st.hops[v] == st.hops[u] + 1
    }
}

/// The `j`-th arc of `x` cannot improve the cost of its head.
pub open spec fn relaxed<V: WithID, E: WeightedEdge>(m: GraphModel<V, E>, st: Search, x: usize, j: int) -> bool {
    let arc = m.out(x)[j];
    st.costs.contains_key(arc.0) && st.costs[arc.0] <= st.costs[x] + arc.1.spec_weight()
}

/// The `i`-th entry that waits is for a found vertex, at a cost that is not below
/// the cost found for it.
pub open spec fn queued_ok(st: Search, i: int) -> bool {
    st.costs.contains_key(st.queue[i].vertex_id) && st.queue[i].cost >= st.costs[st.queue[i].vertex_id]
}

/// The vertex `v` waits with the cost found for it.
pub open spec fn waits(st: Search, v: usize) -> bool {
    exists|i: int| 0 <= i < st.queue.len() && #[trigger] st.queue[i] == entry_of(st.costs[v], v)
}

/// What holds of a search from `s` while the arcs of the settled vertex `u` are
/// looked at, after the first `k` of them.
pub open spec fn search_inv<V: WithID, E: WeightedEdge>(
    m: GraphModel<V, E>,
    s: usize,
    st: Search,
    u: usize,
    k: int,
) -> bool {
    &&& st.costs.dom().finite()
    &&& st.settled.finite()
    &&& st.costs.contains_key(s)
    &&& st.preds.dom() == st.costs.dom().remove(s)
    &&& forall|v: usize| #[trigger] st.costs.contains_key(v) ==> known(m, s, st, v)
    &&& forall|v: usize| #[trigger]
        st.settled.contains(v) ==> st.costs.contains_key(v) && st.hops[v] < st.settled.len()
    &&& st.settled.len() > 0 ==> st.settled.contains(s)
    &&& forall|x: usize, j: int|
        st.settled.contains(x) && 0 <= j < m.out(x).len() && (x != u || j < k) ==> #[trigger] relaxed(
            m,
            st,
            x,
            j,
        )
    &&& forall|i: int| 0 <= i < st.queue.len() ==> #[trigger] queued_ok(st, i)
    &&& forall|i: int, x: usize|
        0 <= i < st.queue.len() && #[trigger] st.settled.contains(x) ==> st.costs[x] <= (
        #[trigger] st.queue[i]).cost
    &&& forall|v: usize| st.costs.contains_key(v) && !st.settled.contains(v) ==> #[trigger] waits(st, v)
}

/// What holds besides while the arcs of `u` are looked at: no settled vertex costs
/// more than `u`, and no entry that waits costs less.
pub open spec fn relaxing(st: Search, u: usize) -> bool {
    &&& st.settled.contains(u)
    &&& st.costs.contains_key(u)
    &&& st.costs[u] <= (st.settled.len() - 1) * heaviest()
    &&& forall|x: usize| #[trigger] st.settled.contains(x) ==> st.costs[x] <= st.costs[u]
    &&& forall|i: int| 0 <= i < st.queue.len() ==> (#[trigger] st.queue[i]).cost >= st.costs[u]
}

/// The search as it starts: `s` is found at the cost 0 and waits.
pub proof fn lemma_search_start<V: WithID, E: WeightedEdge>(m: GraphModel<V, E>, s: usize, u: usize, k: int)
    ensures
        search_inv(
            m,
            s,
            Search::of(
                Map::empty().insert(s, 0i128),
                Map::empty(),
                Set::empty(),
                Map::empty().insert(s, 0nat),
                seq![entry_of(0, s)],
            ),
            u,
            k,
        ),
{
    let st = Search::of(
        Map::empty().insert(s, 0i128),
        Map::empty(),
        Set::empty(),
        Map::empty().insert(s, 0nat),
        seq![entry_of(0, s)],
    );
    assert(st.preds.dom() =~= st.costs.dom().remove(s));
    assert(queued_ok(st, 0));
    assert(st.queue[0] == entry_of(st.costs[s], s));
    assert(waits(st, s));
}

/// An entry for a settled vertex is dropped.
pub proof fn lemma_pop_settled<V: WithID, E: WeightedEdge>(
    m: GraphModel<V, E>,
    s: usize,
    st: Search,
    u: usize,
    i: int,
)
    requires
        search_inv(m, s, st, u, m.out(u).len() as int),
        0 <= i < st.queue.len(),
        st.settled.contains(st.queue[i].vertex_id),
    ensures
        search_inv(
            m,
            s,
            Search::of(st.costs, st.preds, st.settled, st.hops, st.queue.remove(i)),
            u,
            m.out(u).len() as int,
        ),
{
    let st2 = Search::of(st.costs, st.preds, st.settled, st.hops, st.queue.remove(i));
    let k = m.out(u).len() as int;
    assert forall|v: usize| #[trigger] st2.costs.contains_key(v) implies known(m, s, st2, v) by {
        assert(known(m, s, st, v));
    }
    assert forall|x: usize, j: int|
        st2.settled.contains(x) && 0 <= j < m.out(x).len() && (x != u || j < k) implies #[trigger] relaxed(
        m,
        st2,
        x,
        j,
    ) by {
        assert(relaxed(m, st, x, j));
    }
    assert forall|a: int| 0 <= a < st2.queue.len() implies #[trigger] queued_ok(st2, a) by {
        let a0 = if a < i {
            a
        } else {
            a + 1
        };
        assert(st2.queue[a] == st.queue[a0]);
        assert(queued_ok(st, a0));
    }
    assert forall|a: int, x: usize|
        0 <= a < st2.queue.len() && #[trigger] st2.settled.contains(x) implies st2.costs[x] <= (
    #[trigger] st2.queue[a]).cost by {
        let a0 = if a < i {
            a
        } else {
            a + 1
        };
        assert(st2.queue[a] == st.queue[a0]);
    }
    assert forall|v: usize| st2.costs.contains_key(v) && !st2.settled.contains(v) implies #[trigger] waits(
        st2,
        v,
    ) by {
        assert(waits(st, v));
        let a0 = choose|a: int| 0 <= a < st.queue.len() && #[trigger] st.queue[a] == entry_of(st.costs[v], v);
        let a = if a0 < i {
            a0
        } else {
            a0 - 1
        };
        assert(st2.queue[a] == st.queue[a0]);
    }
}

/// The first of the least entries, for a vertex that is not settled, carries the
/// cost found for its vertex, which is settled with it.
pub proof fn lemma_pop_open<V: WithID, E: WeightedEdge>(
    m: GraphModel<V, E>,
    s: usize,
    st: Search,
    last: usize,
)
    requires
        search_inv(m, s, st, last, m.out(last).len() as int),
        st.queue.len() > 0,
        !st.settled.contains(st.queue[first_least(st.queue)].vertex_id),
    ensures
        ({
            let i = first_least(st.queue);
            let u = st.queue[i].vertex_id;
            let st2 = Search::of(st.costs, st.preds, st.settled.insert(u), st.hops, st.queue.remove(i));
            &&& st.queue[i].cost == st.costs[u]
            &&& st.costs.contains_key(u)
            &&& search_inv(m, s, st2, u, 0)
            &&& relaxing(st2, u)
            &&& forall|v: usize| #[trigger] waits(st, v) ==> st.costs[u] <= st.costs[v]
        }),
{
    let i = first_least(st.queue);
    lemma_first_least(st.queue);
    let u = st.queue[i].vertex_id;
    let c = st.queue[i].cost;
    let st2 = Search::of(st.costs, st.preds, st.settled.insert(u), st.hops, st.queue.remove(i));
    assert(queued_ok(st, i));
    assert(waits(st, u));
    let j = choose|j: int| 0 <= j < st.queue.len() && #[trigger] st.queue[j] == entry_of(st.costs[u], u);
    assert(st.queue[i].spec_key() <= st.queue[j].spec_key());
    assert(c == st.costs[u]);
    assert(known(m, s, st, u));
    if st.settled.len() == 0 {
        assert(u == s);
    }
    assert forall|v: usize| #[trigger] waits(st, v) implies st.costs[u] <= st.costs[v] by {
        let a = choose|a: int| 0 <= a < st.queue.len() && #[trigger] st.queue[a] == entry_of(st.costs[v], v);
        assert(st.queue[i].spec_key() <= st.queue[a].spec_key());
    }
    assert forall|v: usize| #[trigger] st2.costs.contains_key(v) implies known(m, s, st2, v) by {
        assert(known(m, s, st, v));
        assert(st.settled.len() * heaviest() <= st2.settled.len() * heaviest()) by (nonlinear_arith)
            requires
                st.settled.len() <= st2.settled.len(),
        ;
    }
    assert forall|x: usize, j: int|
        st2.settled.contains(x) && 0 <= j < m.out(x).len() && (x != u || j < 0) implies #[trigger] relaxed(
        m,
        st2,
        x,
        j,
    ) by {
        assert(relaxed(m, st, x, j));
    }
    assert forall|a: int| 0 <= a < st2.queue.len() implies #[trigger] queued_ok(st2, a) && st2.queue[a].cost
        >= st.costs[u] by {
        let a0 = if a < i {
            a
        } else {
            a + 1
        };
        assert(st2.queue[a] == st.queue[a0]);
        assert(queued_ok(st, a0));
        assert(st.queue[i].spec_key() <= st.queue[a0].spec_key());
    }
    assert forall|a: int, x: usize|
        0 <= a < st2.queue.len() && #[trigger] st2.settled.contains(x) implies st2.costs[x] <= (
    #[trigger] st2.queue[a]).cost by {
        let a0 = if a < i {
            a
        } else {
            a + 1
        };
        assert(st2.queue[a] == st.queue[a0]);
        assert(st.queue[i].spec_key() <= st.queue[a0].spec_key());
    }
    assert forall|v: usize| st2.costs.contains_key(v) && !st2.settled.contains(v) implies #[trigger] waits(
        st2,
        v,
    ) by {
        assert(waits(st, v));
        let a0 = choose|a: int| 0 <= a < st.queue.len() && #[trigger] st.queue[a] == entry_of(st.costs[v], v);
        let a = if a0 < i {
            a0
        } else {
            a0 - 1
        };
        assert(st2.queue[a] == st.queue[a0]);
    }
    assert forall|x: usize| #[trigger] st2.settled.contains(x) implies st2.costs[x] <= st2.costs[u] by {
        if x != u {
            assert(st.settled.contains(x));
            assert(st.costs[x] <= st.queue[i].cost);
        }
    }
    assert((st2.settled.len() - 1) * heaviest() == st.settled.len() * heaviest());
}

/// An arc that cannot improve the cost of its head is passed over.
pub proof fn lemma_relax_keep<V: WithID, E: WeightedEdge>(
    m: GraphModel<V, E>,
    s: usize,
    st: Search,
    u: usize,
    k: int,
)
    requires
        search_inv(m, s, st, u, k),
        0 <= k < m.out(u).len(),
        relaxed(m, st, u, k),
    ensures
        search_inv(m, s, st, u, k + 1),
{
    assert forall|x: usize, j: int|
        st.settled.contains(x) && 0 <= j < m.out(x).len() && (x != u || j < k + 1) implies #[trigger] relaxed(
        m,
        st,
        x,
        j,
    ) by {
        if x == u && j == k {
        } else {
            assert(relaxed(m, st, x, j));
        }
    }
}

/// An arc that improves the cost of its head, or finds its head: the head gets the
/// new cost and `u` for its predecessor, and waits.
#[verifier::rlimit(80)]
#[verifier::spinoff_prover]
pub proof fn lemma_relax_update<V: WithID, E: WeightedEdge>(
    m: GraphModel<V, E>,
    s: usize,
    st: Search,
    u: usize,
    k: int,
)
    requires
        m.valid(),
        nonnegative(m),
        search_inv(m, s, st, u, k),
        relaxing(st, u),
        0 <= k < m.out(u).len(),
        !st.settled.contains(m.out(u)[k].0),
        !st.costs.contains_key(m.out(u)[k].0) || st.costs[u] + m.out(u)[k].1.spec_weight()
            < st.costs[m.out(u)[k].0],
        st.settled.len() <= 0x1_0000_0000_0000_0000,
    ensures
        ({
            let v = m.out(u)[k].0;
            let nc = (st.costs[u] + m.out(u)[k].1.spec_weight()) as i128;
            let st2 = Search::of(
                st.costs.insert(v, nc),
                st.preds.insert(v, u),
                st.settled,
                st.hops.insert(v, st.hops[u] + 1),
                st.queue.push(entry_of(nc, v)),
            );
            &&& nc == st.costs[u] + m.out(u)[k].1.spec_weight()
            &&& search_inv(m, s, st2, u, k + 1)
            &&& relaxing(st2, u)
        }),
{
    let v = m.out(u)[k].0;
    let w = m.out(u)[k].1.spec_weight();
    let nc = (st.costs[u] + w) as i128;
    let st2 = Search::of(
        st.costs.insert(v, nc),
        st.preds.insert(v, u),
        st.settled,
        st.hops.insert(v, st.hops[u] + 1),
        st.queue.push(entry_of(nc, v)),
    );
    lemma_arc_weight(m, u, k);
    assert(m.has_vertex(m.out(u)[k].0));
    assert(known(m, s, st, u));
    assert(w >= 0);
    assert(st.costs[u] + w <= st.settled.len() * heaviest()) by {
        assert((st.settled.len() - 1) * heaviest() + heaviest() == st.settled.len() * heaviest())
            by (nonlinear_arith);
    }
    assert(st.settled.len() * heaviest() <= i128::MAX) by (nonlinear_arith)
        requires
            st.settled.len() <= 0x1_0000_0000_0000_0000,
            heaviest() == 0x7fff_ffff_ffff_ffff,
    ;
    assert(v != s);
    assert(v != u);
    assert(st2.preds.dom() =~= st2.costs.dom().remove(s));
    assert forall|x: usize| #[trigger] st2.costs.contains_key(x) implies known(m, s, st2, x) by {
        if x != v {
            assert(known(m, s, st, x));
        }
    }
    assert forall|x: usize, j: int|
        st2.settled.contains(x) && 0 <= j < m.out(x).len() && (x != u || j < k + 1) implies #[trigger] relaxed(
        m,
        st2,
        x,
        j,
    ) by {
        if x == u && j == k {
        } else {
            assert(relaxed(m, st, x, j));
        }
    }
    assert forall|a: int| 0 <= a < st2.queue.len() implies #[trigger] queued_ok(st2, a) && st2.queue[a].cost
        >= st2.costs[u] by {
        if a < st.queue.len() {
            assert(st2.queue[a] == st.queue[a]);
            assert(queued_ok(st, a));
        }
    }
    assert forall|a: int, x: usize|
        0 <= a < st2.queue.len() && #[trigger] st2.settled.contains(x) implies st2.costs[x] <= (
    #[trigger] st2.queue[a]).cost by {
        if a < st.queue.len() {
            assert(st2.queue[a] == st.queue[a]);
        }
    }
    assert forall|x: usize| st2.costs.contains_key(x) && !st2.settled.contains(x) implies #[trigger] waits(
        st2,
        x,
    ) by {
        if x == v {
            assert(st2.queue[st.queue.len() as int] == entry_of(st2.costs[v], v));
        } else {
            assert(waits(st, x));
            let a = choose|a: int| 0 <= a < st.queue.len() && #[trigger] st.queue[a] == entry_of(st.costs[x], x);
            assert(st2.queue[a] == st.queue[a]);
        }
    }
}

/// The cost found for a vertex on a walk from `s`, all of whose vertices before it
/// are settled, is at most the weight of the walk up to it.
pub proof fn lemma_settled_prefix<V: WithID, E: WeightedEdge>(
    m: GraphModel<V, E>,
    s: usize,
    st: Search,
    last: usize,
    p: Seq<usize>,
    k: int,
)
    requires
        m.valid(),
        search_inv(m, s, st, last, m.out(last).len() as int),
        is_walk(m, p),
        p[0] == s,
        0 <= k < p.len(),
        forall|i: int| 0 <= i < k ==> st.settled.contains(#[trigger] p[i]),
    ensures
        st.costs.contains_key(p[k]),
        st.costs[p[k]] <= walk_weight(m, p.take(k + 1)),
    decreases k,
{
    if k == 0 {
        assert(known(m, s, st, s));
    } else {
        lemma_settled_prefix(m, s, st, last, p, k - 1);
        let x = p[k - 1];
        assert(st.settled.contains(p[k - 1]));
        assert(m.has_arc(p[k - 1], p[k - 1 + 1]));
        let j = m.arc_index(x, p[k]);
        assert(m.arc_at(x, j, p[k]));
        assert(relaxed(m, st, x, j));
        lemma_arc_weight(m, x, j);
        assert(p.take(k + 1).drop_last() =~= p.take(k));
    }
}

/// When no entry waits, every found vertex is settled, and no walk from `s` to a
/// vertex weighs less than the cost found for it.
pub proof fn lemma_search_end<V: WithID, E: WeightedEdge>(
    m: GraphModel<V, E>,
    s: usize,
    st: Search,
    last: usize,
    p: Seq<usize>,
    k: int,
)
    requires
        m.valid(),
        search_inv(m, s, st, last, m.out(last).len() as int),
        st.queue.len() == 0,
        is_walk(m, p),
        p[0] == s,
        0 <= k < p.len(),
    ensures
        st.settled.contains(p[k]),
        st.costs.contains_key(p[k]),
        st.costs[p[k]] <= walk_weight(m, p.take(k + 1)),
    decreases k,
{
    assert forall|i: int| 0 <= i < k implies st.settled.contains(#[trigger] p[i]) by {
        lemma_search_end(m, s, st, last, p, i);
    }
    lemma_settled_prefix(m, s, st, last, p, k);
    if !st.settled.contains(p[k]) {
        assert(waits(st, p[k]));
    }
}

/// No walk from `s` to the vertex that is about to be settled weighs less than the
/// cost found for it.
pub proof fn lemma_search_goal<V: WithID, E: WeightedEdge>(
    m: GraphModel<V, E>,
    s: usize,
    st: Search,
    last: usize,
    p: Seq<usize>,
)
    requires
        m.valid(),
        nonnegative(m),
        search_inv(m, s, st, last, m.out(last).len() as int),
        st.queue.len() > 0,
        !st.settled.contains(st.queue[first_least(st.queue)].vertex_id),
        is_walk(m, p),
        p[0] == s,
        p.last() == st.queue[first_least(st.queue)].vertex_id,
    ensures
        st.costs[p.last()] <= walk_weight(m, p),
{
    lemma_pop_open(m, s, st, last);
    let k = first_open(st, p, 0);
    lemma_first_open(st, p, 0);
    lemma_settled_prefix(m, s, st, last, p, k);
    lemma_prefix_weight(m, p, k + 1);
    assert(waits(st, p[k]));
}

/// The first position from `from` on at which a vertex of `p` is not settled.
pub open spec fn first_open(st: Search, p: Seq<usize>, from: int) -> int
    decreases p.len() - from,
{
    if from >= p.len() || !st.settled.contains(p[from]) {
        from
    } else {
        first_open(st, p, from + 1)
    }
}

pub proof fn lemma_first_open(st: Search, p: Seq<usize>, from: int)
    requires
        0 <= from < p.len(),
        !st.settled.contains(p.last()),
    ensures
        from <= first_open(st, p, from) < p.len(),
        !st.settled.contains(p[first_open(st, p, from)]),
        forall|i: int| from <= i < first_open(st, p, from) ==> st.settled.contains(#[trigger] p[i]),
    decreases p.len() - from,
{
    if st.settled.contains(p[from]) {
        lemma_first_open(st, p, from + 1);
    }
}

/// The path of a found vertex along the predecessors is a walk from `s` to it that
/// weighs what was found as its cost.
pub proof fn lemma_search_path<V: WithID, E: WeightedEdge>(
    m: GraphModel<V, E>,
    s: usize,
    st: Search,
    last: usize,
    k: int,
    v: usize,
    fuel: nat,
)
    requires
        m.valid(),
        m.has_vertex(s),
        search_inv(m, s, st, last, k),
        st.costs.contains_key(v),
        fuel >= st.hops[v],
    ensures
        chain(st.preds, s, v, fuel) is Some,
        walk_between(m, chain(st.preds, s, v, fuel)->Some_0, s, v),
        walk_weight(m, chain(st.preds, s, v, fuel)->Some_0) == st.costs[v],
    decreases st.hops[v],
{
    assert(known(m, s, st, v));
    if v == s {
        assert(is_walk(m, seq![s]));
    } else {
        let u = st.preds[v];
        lemma_search_path(m, s, st, last, k, u, (fuel - 1) as nat);
        let p = chain(st.preds, s, u, (fuel - 1) as nat)->Some_0;
        lemma_walk_push(m, p, v);
    }
}

/// No found vertex is more arcs away from `s` than there are predecessors.
pub proof fn lemma_search_hops<V: WithID, E: WeightedEdge>(
    m: GraphModel<V, E>,
    s: usize,
    st: Search,
    last: usize,
    k: int,
    v: usize,
)
    requires
        search_inv(m, s, st, last, k),
        st.costs.contains_key(v),
    ensures
        st.hops[v] <= st.preds.dom().len(),
{
    assert(known(m, s, st, v));
    assert(st.settled.subset_of(st.costs.dom()));
    if st.settled.contains(v) {
        vstd::set_lib::lemma_len_subset(st.settled, st.costs.dom());
    } else {
        assert(st.settled.subset_of(st.costs.dom().remove(v)));
        vstd::set_lib::lemma_len_subset(st.settled, st.costs.dom().remove(v));
    }
}

/// There are at most as many settled vertices as the graph has vertices, and the
/// start.
pub proof fn lemma_settled_bound<V: WithID, E: WeightedEdge>(
    m: GraphModel<V, E>,
    s: usize,
    st: Search,
    last: usize,
    k: int,
)
    requires
        m.valid(),
        search_inv(m, s, st, last, k),
    ensures
        st.settled.len() <= m.vertices.dom().len() + 1,
{
    assert(st.settled.remove(s).subset_of(m.vertices.dom())) by {
        assert forall|v: usize| st.settled.remove(s).contains(v) implies m.vertices.dom().contains(
            v,
        ) by {
            assert(st.settled.contains(v));
            assert(known(m, s, st, v));
        }
    }
    vstd::set_lib::lemma_len_subset(st.settled.remove(s), m.vertices.dom());
}

/// The search has come to its end: no entry waits, or the goal was about to be
/// settled, and then no walk from `s` to the goal weighs less than the cost found
/// for it.
pub open spec fn finished<V: WithID, E: WeightedEdge>(
    m: GraphModel<V, E>,
    s: usize,
    goal: Option<usize>,
    st: Search,
) -> bool {
    st.queue.len() == 0 || (goal is Some && st.costs.contains_key(goal->Some_0) && forall|
        p: Seq<usize>,
    | #[trigger] walk_between(m, p, s, goal->Some_0) ==> st.costs[goal->Some_0] <= walk_weight(m, p))
}

impl<Backend: GraphBase> Graph<Backend> where Backend::Edge: WeightedEdge {
    /// Dijkstra's algorithm: the cost of the cheapest walk from `start` to each vertex
    /// that it reaches, and the vertex before it on such a walk. With a `goal` the
    /// search ends when the goal is about to be settled; the cost of the goal is then
    /// final, the costs of vertices that were found and not settled need not be.
    /// No arc may have a negative weight.
    pub fn dijkstra(&self, start: usize, goal: Option<usize>) -> (r: SingleSourceShortestPaths<i128>)
        requires
            self.wf(),
            nonnegative(self.model()),
        ensures
            r.spec_start() == start,
            r.costs().contains_key(start),
            r.costs()[start] == 0,
            !self.model().has_vertex(start) ==> r.costs().dom() == set![start],
            self.model().has_vertex(start) ==> forall|v: usize| #[trigger]
                r.costs().contains_key(v) ==> walk_between(self.model(), r.path(v), start, v)
                    && walk_weight(self.model(), r.path(v)) == r.costs()[v],
            goal is None ==> forall|v: usize| #[trigger]
                r.costs().contains_key(v) <==> reaches(self.model(), start, v) || v == start,
            self.model().has_vertex(start) && goal is None ==> forall|v: usize| #[trigger]
                r.costs().contains_key(v) ==> is_distance(self.model(), start, v, r.costs()[v] as int),
            goal is Some && reaches(self.model(), start, goal->Some_0) ==> r.costs().contains_key(
                goal->Some_0,
            ),
            self.model().has_vertex(start) && goal is Some && r.costs().contains_key(goal->Some_0)
                ==> is_distance(
                self.model(),
                start,
                goal->Some_0,
                r.costs()[goal->Some_0] as int,
            ),
    {
        let ghost m = self.model();
        proof {
            self.lemma_wf();
        }
        let mut costs: FxHashMap<usize, i128> = map_new();
        let mut preds: FxHashMap<usize, usize> = map_new();
        let mut visited = set_new();
        let mut queue: MinQueue<EdgeEntry> = MinQueue::new();
        let ghost mut hops: Map<usize, nat> = Map::empty().insert(start, 0nat);
        map_insert(&mut costs, start, 0i128);
        queue.push(EdgeEntry::new(0, start));
        let n = self.vertex_count();
        let ghost mut last: usize = start;
        let ghost mut waiting: Seq<EdgeEntry> = queue@;
        let mut done = false;
        proof {
            lemma_search_start(m, start, last, m.out(last).len() as int);
            assert(costs@ =~= Map::empty().insert(start, 0i128));
            assert(preds@ =~= Map::empty());
            assert(queue@ =~= seq![entry_of(0, start)]);
        }
        while !done
            invariant
                self.wf(),
                m == self.model(),
                m.valid(),
                nonnegative(m),
                n == m.vertices.dom().len(),
                search_inv(
                    m,
                    start,
                    Search::of(costs@, preds@, visited@, hops, waiting),
                    last,
                    m.out(last).len() as int,
                ),
                !done ==> waiting == queue@,
                done ==> finished(m, start, goal, Search::of(costs@, preds@, visited@, hops, waiting)),
                visited@.len() <= n + 1,
            decreases n + 1 - visited@.len(), queue@.len(), (if done { 0int } else { 1int }),
        {
            let ghost st = Search::of(costs@, preds@, visited@, hops, queue@);
            match queue.pop() {
                None => {
                    done = true;
                },
                Some(entry) => {
                    let ghost i = first_least(st.queue);
                    proof {
                        lemma_first_least(st.queue);
                    }
                    let u = entry.vertex_id;
                    let at_goal = match goal {
                        Some(g) => g == u,
                        None => false,
                    };
                    if set_contains(&visited, u) {
                        proof {
                            lemma_pop_settled(m, start, st, last, i);
                            waiting = queue@;
                        }
                    } else if at_goal {
                        // The goal is about to be settled: its cost is final.
                        proof {
                            lemma_pop_open(m, start, st, last);
                            assert forall|p: Seq<usize>| #[trigger]
                                walk_between(m, p, start, u) implies st.costs[u] <= walk_weight(
                                m,
                                p,
                            ) by {
                                lemma_search_goal(m, start, st, last, p);
                            }
                        }
                        done = true;
                    } else {
                        proof {
                            lemma_pop_open(m, start, st, last);
                            lemma_settled_bound(
                                m,
                                start,
                                Search::of(costs@, preds@, visited@.insert(u), hops, queue@),
                                u,
                                0,
                            );
                        }
                        let adj = self.get_adjacent_vertices_with_edges(u);
                        let mut k: usize = 0;
                        while k < adj.len()
                            invariant
                                0 <= k <= adj.len(),
                                self.wf(),
                                m == self.model(),
                                m.valid(),
                                nonnegative(m),
                                n == m.vertices.dom().len(),
                                adj.len() == m.out(u).len(),
                                forall|j: int|
                                    0 <= j < adj.len() ==> {
                                        let arc = m.out(u)[j];
                                        *(#[trigger] adj[j]).0 == m.vertices[arc.0] && *adj[j].1
                                            == arc.1
                                    },
                                !visited@.contains(u),
                                u == entry.vertex_id,
                                entry.cost == costs@[u],
                                visited@.insert(u).len() <= n + 1,
                                search_inv(
                                    m,
                                    start,
                                    Search::of(costs@, preds@, visited@.insert(u), hops, queue@),
                                    u,
                                    k as int,
                                ),
                                relaxing(
                                    Search::of(costs@, preds@, visited@.insert(u), hops, queue@),
                                    u,
                                ),
                            decreases adj.len() - k,
                        {
                            let ghost now = Search::of(
                                costs@,
                                preds@,
                                visited@.insert(u),
                                hops,
                                queue@,
                            );
                            let next_v = adj[k].0.get_id();
                            let weight = adj[k].1.get_weight();
                            proof {
                                assert(m.has_vertex(m.out(u)[k as int].0));
                                assert(next_v == m.out(u)[k as int].0);
                                assert(weight >= 0);
                                assert(known(m, start, now, u));
                                assert((now.settled.len() - 1) * heaviest() + heaviest() <= i128::MAX)
                                    by (nonlinear_arith)
                                    requires
                                        now.settled.len() <= 0x1_0000_0000_0000_0000,
                                        heaviest() == 0x7fff_ffff_ffff_ffff,
                                ;
                            }
                            if set_contains(&visited, next_v) {
                                proof {
                                    assert(now.settled.contains(next_v));
                                    lemma_relax_keep(m, start, now, u, k as int);
                                }
                            } else {
                                let new_cost = entry.cost + weight as i128;
                                let improves = match map_get(&costs, next_v) {
                                    Some(existing) => new_cost < *existing,
                                    None => true,
                                };
                                if improves {
                                    proof {
                                        lemma_relax_update(m, start, now, u, k as int);
                                        hops = hops.insert(next_v, hops[u] + 1);
                                    }
                                    map_insert(&mut costs, next_v, new_cost);
                                    queue.push(EdgeEntry::new(new_cost, next_v));
                                    map_insert(&mut preds, next_v, u);
                                } else {
                                    proof {
                                        lemma_relax_keep(m, start, now, u, k as int);
                                    }
                                }
                            }
                            k += 1;
                        }
                        set_insert(&mut visited, u);
                        proof {
                            last = u;
                            waiting = queue@;
                        }
                    }
                },
            }
        }
        let ghost end = Search::of(costs@, preds@, visited@, hops, waiting);
        let ghost full = m.out(last).len() as int;
        proof {
            assert(known(m, start, end, start));
            if !m.has_vertex(start) {
                assert(costs@.dom() =~= set![start]) by {
                    assert forall|v: usize| costs@.contains_key(v) implies v == start by {
                        lemma_off_graph(m, start, end, last, full, v);
                    }
                }
            }
            if m.has_vertex(start) {
                assert forall|v: usize| #[trigger] costs@.contains_key(v) implies walk_between(
                    m,
                    chain(preds@, start, v, preds@.dom().len())->Some_0,
                    start,
                    v,
                ) && chain(preds@, start, v, preds@.dom().len()) is Some && walk_weight(
                    m,
                    chain(preds@, start, v, preds@.dom().len())->Some_0,
                ) == costs@[v] by {
                    lemma_search_hops(m, start, end, last, full, v);
                    lemma_search_path(m, start, end, last, full, v, preds@.dom().len());
                }
            }
            if waiting.len() == 0 {
                assert forall|v: usize| reaches(m, start, v) implies #[trigger] costs@.contains_key(
                    v,
                ) by {
                    let p = choose|p: Seq<usize>| #[trigger] is_walk(m, p) && p[0] == start && p.last() == v;
                    lemma_search_end(m, start, end, last, p, p.len() - 1);
                }
                assert forall|v: usize| #[trigger] costs@.contains_key(v) implies forall|
                    p: Seq<usize>,
                | #[trigger] walk_between(m, p, start, v) ==> costs@[v] <= walk_weight(m, p) by {
                    assert forall|p: Seq<usize>| #[trigger]
                        walk_between(m, p, start, v) implies costs@[v] <= walk_weight(m, p) by {
                        lemma_search_end(m, start, end, last, p, p.len() - 1);
                        assert(p.take(p.len() as int) =~= p);
                    }
                }
            }
            assert forall|v: usize| costs@.contains_key(v) && v != start implies reaches(m, start, v) by {
                if m.has_vertex(start) {
                    lemma_search_hops(m, start, end, last, full, v);
                    lemma_search_path(m, start, end, last, full, v, preds@.dom().len());
                    assert(is_walk(m, chain(preds@, start, v, preds@.dom().len())->Some_0));
                } else {
                    lemma_off_graph(m, start, end, last, full, v);
                }
            }
        }
        SingleSourceShortestPaths::new(start, costs, preds)
    }
}

/// From a start that is no vertex of the graph nothing but the start is found.
pub proof fn lemma_off_graph<V: WithID, E: WeightedEdge>(
    m: GraphModel<V, E>,
    s: usize,
    st: Search,
    last: usize,
    k: int,
    v: usize,
)
    requires
        m.valid(),
        !m.has_vertex(s),
        search_inv(m, s, st, last, k),
        st.costs.contains_key(v),
    ensures
        v == s,
    decreases st.hops[v],
{
    assert(known(m, s, st, v));
    if v != s {
        let u = st.preds[v];
        lemma_off_graph(m, s, st, last, k, u);
        let j = m.arc_index(u, v);
        assert(m.arc_at(u, j, v));
        assert(m.out(s).len() == 0);
    }
}

} // verus!
