use vstd::prelude::*;
use rustc_hash::FxHashMap;
use crate::algorithms::reach::{is_walk, reaches};
use crate::fx::{map_get, map_insert, map_len, map_new, set_contains, set_insert, set_new};
use crate::graph::model::{weight_at, GraphModel};
use crate::graph::{Graph, GraphBase, WeightedEdge, WithID};
use super::single_source_shortest_paths::{chain, SingleSourceShortestPaths};
use super::walks::{
    is_distance, lemma_arc_weight, lemma_prefix_walk, lemma_shorten, lemma_walk_push,
    lemma_walk_weight_bound, no_negative_cycle, walk_between, walk_weight,
};

verus! {

/// What the Bellman-Ford algorithm finds: the shortest paths, or the vertices of a
/// cycle of negative weight.
#[derive(Debug, Clone)]
pub enum BellmanFordResult<Cost> {
    SPT(SingleSourceShortestPaths<Cost>),
    /// The vertices of the cycle, each the predecessor of the next.
    NegativeCycle(Vec<usize>),
}

impl<Cost> BellmanFordResult<Cost> {
    pub fn is_spt(&self) -> (b: bool)
        ensures
            b == (self is SPT),
    {
        match self {
            BellmanFordResult::SPT(_) => true,
            BellmanFordResult::NegativeCycle(_) => false,
        }
    }

    pub fn is_negative_cycle(&self) -> (b: bool)
        ensures
            b == (self is NegativeCycle),
    {
        match self {
            BellmanFordResult::SPT(_) => false,
            BellmanFordResult::NegativeCycle(_) => true,
        }
    }

    pub fn as_spt(&self) -> (r: Option<&SingleSourceShortestPaths<Cost>>)
        ensures
            r == (match self {
                BellmanFordResult::SPT(sp) => Some(sp),
                BellmanFordResult::NegativeCycle(_) => None,
            }),
    {
        match self {
            BellmanFordResult::SPT(sp) => Some(sp),
            BellmanFordResult::NegativeCycle(_) => None,
        }
    }

    pub fn as_negative_cycle(&self) -> (r: Option<&Vec<usize>>)
        ensures
            r == (match self {
                BellmanFordResult::SPT(_) => None,
                BellmanFordResult::NegativeCycle(c) => Some(c),
            }),
    {
        match self {
            BellmanFordResult::SPT(_) => None,
            BellmanFordResult::NegativeCycle(c) => Some(c),
        }
    }

    pub fn into_spt(self) -> (r: Result<SingleSourceShortestPaths<Cost>, Self>)
        ensures
            r == (match self {
                BellmanFordResult::SPT(sp) => Ok::<SingleSourceShortestPaths<Cost>, Self>(sp),
                BellmanFordResult::NegativeCycle(c) => Err::<SingleSourceShortestPaths<Cost>, Self>(
                    BellmanFordResult::NegativeCycle(c),
                ),
            }),
    {
        match self {
            BellmanFordResult::SPT(sp) => Ok(sp),
            BellmanFordResult::NegativeCycle(c) => Err(BellmanFordResult::NegativeCycle(c)),
        }
    }

    pub fn into_negative_cycle(self) -> (r: Result<Vec<usize>, Self>)
        ensures
            r == (match self {
                BellmanFordResult::SPT(sp) => Err::<Vec<usize>, Self>(BellmanFordResult::SPT(sp)),
                BellmanFordResult::NegativeCycle(c) => Ok::<Vec<usize>, Self>(c),
            }),
    {
        match self {
            BellmanFordResult::SPT(sp) => Err(BellmanFordResult::SPT(sp)),
            BellmanFordResult::NegativeCycle(c) => Ok(c),
        }
    }
}

/// The `j`-th arc of `x` cannot improve the cost of its head.
pub open spec fn arc_relaxed<V: WithID, E: WeightedEdge>(
    m: GraphModel<V, E>,
    costs: Map<usize, i128>,
    x: usize,
    j: int,
) -> bool {
    let arc = m.out(x)[j];
    costs.contains_key(arc.0) && costs[arc.0] <= costs[x] + arc.1.spec_weight()
}

/// Every vertex with a cost but `s` has a predecessor, and every predecessor is the
/// tail of an arc to its vertex, over which the cost of the vertex is reached from
/// a cost that the predecessor has had: a higher one where the predecessor got its
/// cost later than the vertex, which the stamps tell. The vertex `s` has a
/// predecessor only where its cost is below 0.
#[verifier::opaque]
pub open spec fn traced<V: WithID, E: WeightedEdge>(
    m: GraphModel<V, E>,
    s: usize,
    costs: Map<usize, i128>,
    preds: Map<usize, usize>,
    stamp: Map<usize, nat>,
    clock: nat,
) -> bool {
    &&& preds.dom().finite()
    &&& forall|x: usize| #[trigger]
        preds.contains_key(x) ==> {
            &&& costs.contains_key(x)
            &&& costs.contains_key(preds[x])
            &&& m.has_arc(preds[x], x)
            &&& costs[x] >= costs[preds[x]] + weight_at(m.arcs, (preds[x], x))
            &&& stamp[preds[x]] > stamp[x] || preds[x] == x ==> costs[x] > costs[preds[x]] + weight_at(
                m.arcs,
                (preds[x], x),
            )
        }
    &&& forall|x: usize| #[trigger] costs.contains_key(x) && x != s ==> preds.contains_key(x)
    &&& preds.contains_key(s) ==> costs[s] < 0
    &&& !preds.contains_key(s) ==> costs[s] == 0
    &&& forall|x: usize| #[trigger] costs.contains_key(x) ==> stamp[x] < clock
    &&& forall|x: usize, y: usize|
        costs.contains_key(x) && costs.contains_key(y) && x != y ==> #[trigger] stamp[x]
            != #[trigger] stamp[y]
}

/// A lower cost for `w` over the arc from `v` keeps the predecessors in order.
pub proof fn lemma_traced_update<V: WithID, E: WeightedEdge>(
    m: GraphModel<V, E>,
    s: usize,
    costs: Map<usize, i128>,
    preds: Map<usize, usize>,
    stamp: Map<usize, nat>,
    clock: nat,
    v: usize,
    w: usize,
    new_cost: i128,
)
    requires
        traced(m, s, costs, preds, stamp, clock),
        costs.contains_key(s),
        costs[s] <= 0,
        costs.contains_key(v),
        m.has_arc(v, w),
        new_cost == costs[v] + weight_at(m.arcs, (v, w)),
        !costs.contains_key(w) || new_cost < costs[w],
    ensures
        traced(m, s, costs.insert(w, new_cost), preds.insert(w, v), stamp.insert(w, clock), clock + 1),
{
    reveal(traced);    let costs2 = costs.insert(w, new_cost);
    let preds2 = preds.insert(w, v);
    let stamp2 = stamp.insert(w, clock);
    assert forall|x: usize| #[trigger] preds2.contains_key(x) implies {
        &&& costs2.contains_key(x)
        &&& costs2.contains_key(preds2[x])
        &&& m.has_arc(preds2[x], x)
        &&& costs2[x] >= costs2[preds2[x]] + weight_at(m.arcs, (preds2[x], x))
        &&& stamp2[preds2[x]] > stamp2[x] || preds2[x] == x ==> costs2[x] > costs2[preds2[x]] + weight_at(
            m.arcs,
            (preds2[x], x),
        )
    } by {
        if x != w {
            assert(preds.contains_key(x));
            assert(costs.contains_key(x) && costs.contains_key(preds[x]));
            assert(stamp[x] < clock && stamp[preds[x]] < clock);
        } else {
            assert(stamp[v] < clock);
        }
    }
    assert forall|x: usize| #[trigger] costs2.contains_key(x) && x != s implies preds2.contains_key(x) by {
        if x != w {
            assert(costs.contains_key(x));
        }
    }
    assert forall|x: usize| #[trigger] costs2.contains_key(x) implies stamp2[x] < clock + 1 by {
        if x != w {
            assert(costs.contains_key(x));
        }
    }
    assert forall|x: usize, y: usize|
        costs2.contains_key(x) && costs2.contains_key(y) && x != y implies #[trigger] stamp2[x]
        != #[trigger] stamp2[y] by {
        if x != w {
            assert(costs.contains_key(x));
        }
        if y != w {
            assert(costs.contains_key(y));
        }
    }
}

/// Along predecessors the costs go up by the weights of the arcs at least: a walk
/// of which each vertex is the predecessor of the next weighs no more than the
/// cost of its end less that of its start, and less than that where the cost at
/// the place `tight + 1` is more than that before it and the weight of the arc.
pub proof fn lemma_pred_walk<V: WithID, E: WeightedEdge>(
    m: GraphModel<V, E>,
    s: usize,
    costs: Map<usize, i128>,
    preds: Map<usize, usize>,
    stamp: Map<usize, nat>,
    clock: nat,
    p: Seq<usize>,
    tight: int,
)
    requires
        traced(m, s, costs, preds, stamp, clock),
        p.len() >= 1,
        costs.contains_key(p[0]),
        forall|i: int| 0 <= i < p.len() - 1 ==> preds.contains_key(#[trigger] p[i + 1]) && preds[p[i + 1]] == p[i],
        0 <= tight < p.len() - 1 ==> costs[p[tight + 1]] > costs[p[tight]] + weight_at(
            m.arcs,
            (p[tight], p[tight + 1]),
        ),
    ensures
        costs.contains_key(p.last()),
        forall|i: int| 0 <= i < p.len() - 1 ==> m.has_arc(#[trigger] p[i], p[i + 1]),
        walk_weight(m, p) + (if 0 <= tight < p.len() - 1 {
            1int
        } else {
            0int
        }) <= costs[p.last()] - costs[p[0]],
    decreases p.len(),
{
    reveal(traced);    if p.len() > 1 {
        let q = p.drop_last();
        assert forall|i: int| 0 <= i < q.len() - 1 implies preds.contains_key(#[trigger] q[i + 1])
            && preds[q[i + 1]] == q[i] by {
            assert(preds.contains_key(p[i + 1]));
        }
        lemma_pred_walk(m, s, costs, preds, stamp, clock, q, tight);
        let n = p.len() as int;
        assert(preds.contains_key(p[n - 2 + 1]) && preds[p[n - 2 + 1]] == p[n - 2]);
        assert forall|i: int| 0 <= i < p.len() - 1 implies m.has_arc(#[trigger] p[i], p[i + 1]) by {
            assert(preds.contains_key(p[i + 1]));
        }
    }
}

/// The place of the vertex of `c` that got its cost last.
pub proof fn lemma_latest(stamp: Map<usize, nat>, c: Seq<usize>, k: int) -> (at: int)
    requires
        0 < k <= c.len(),
    ensures
        0 <= at < k,
        forall|i: int| 0 <= i < k ==> stamp[#[trigger] c[i]] <= stamp[c[at]],
    decreases k,
{
    if k == 1 {
        0
    } else {
        let before = lemma_latest(stamp, c, k - 1);
        if stamp[c[k - 1]] > stamp[c[before]] {
            k - 1
        } else {
            before
        }
    }
}

/// A cycle of predecessors weighs less than nothing, is a cycle of the graph, and
/// is reached from `s`.
pub proof fn lemma_pred_cycle<V: WithID, E: WeightedEdge>(
    m: GraphModel<V, E>,
    s: usize,
    costs: Map<usize, i128>,
    preds: Map<usize, usize>,
    stamp: Map<usize, nat>,
    clock: nat,
    c: Seq<usize>,
)
    requires
        traced(m, s, costs, preds, stamp, clock),
        c.len() > 0,
        forall|i: int| 0 <= i < c.len() - 1 ==> preds.contains_key(#[trigger] c[i + 1]) && preds[c[i + 1]] == c[i],
        preds.contains_key(c[0]),
        preds[c[0]] == c.last(),
    ensures
        m.has_arc(c.last(), c[0]),
        forall|i: int| 0 <= i < c.len() - 1 ==> m.has_arc(#[trigger] c[i], c[i + 1]),
        walk_weight(m, c.push(c[0])) < 0,
        costs.contains_key(c[0]),
{
    reveal(traced);    let p = c.push(c[0]);
    let n = c.len() as int;
    let at = lemma_latest(stamp, c, n);
    assert forall|i: int| 0 <= i < p.len() - 1 implies preds.contains_key(#[trigger] p[i + 1])
        && preds[p[i + 1]] == p[i] by {
        if i < n - 1 {
            assert(preds.contains_key(c[i + 1]));
        }
    }
    // The arc that leaves the vertex that got its cost last.
    let next = p[at + 1];
    assert(preds.contains_key(p[at + 1]) && preds[p[at + 1]] == p[at]);
    assert(costs.contains_key(next) && costs.contains_key(c[at]));
    if next != c[at] {
        let i = if at + 1 < n {
            at + 1
        } else {
            0
        };
        assert(next == c[i]);
        assert(stamp[c[i]] <= stamp[c[at]]);
    }
    lemma_pred_walk(m, s, costs, preds, stamp, clock, p, at);
    assert forall|i: int| 0 <= i < c.len() - 1 implies m.has_arc(#[trigger] c[i], c[i + 1]) by {
        assert(m.has_arc(p[i], p[i + 1]));
    }
}

/// The first place at which the predecessors end, at `i` or before it.
pub proof fn lemma_first_end(preds: Map<usize, usize>, x: usize, i: nat) -> (j: nat)
    requires
        !preds.contains_key(back_from(preds, x, i)),
    ensures
        j <= i,
        leads_back(preds, x, j),
        !preds.contains_key(back_from(preds, x, j)),
    decreases i,
{
    if i > 0 && !leads_back(preds, x, i) {
        let a = choose|a: nat| a < i && !preds.contains_key(#[trigger] back_from(preds, x, a));
        lemma_first_end(preds, x, a)
    } else {
        i
    }
}

/// Where the cost of `v` is less than the weight of every walk from `s` to `v` that
/// has no more vertices than the graph, the predecessors lead back from `v`
/// without end: else they would lead back to `s` along such a walk.
pub proof fn lemma_endless<V: WithID, E: WeightedEdge>(
    m: GraphModel<V, E>,
    s: usize,
    costs: Map<usize, i128>,
    preds: Map<usize, usize>,
    stamp: Map<usize, nat>,
    clock: nat,
    v: usize,
)
    requires
        m.valid(),
        m.has_vertex(s),
        traced(m, s, costs, preds, stamp, clock),
        costs.contains_key(v),
        forall|p: Seq<usize>|
            #[trigger] is_walk(m, p) && p[0] == s && p.last() == v && p.len() <= m.vertices.dom().len()
                ==> walk_weight(m, p) > costs[v],
    ensures
        endless(preds, v),
{
    reveal(traced);    if !endless(preds, v) {
        let i = choose|i: nat| !preds.contains_key(#[trigger] back_from(preds, v, i));
        let j = lemma_first_end(preds, v, i);
        let q = Seq::new(j + 1, |a: int| back_from(preds, v, (j - a) as nat));
        assert forall|a: int| 0 <= a < q.len() - 1 implies preds.contains_key(#[trigger] q[a + 1])
            && preds[q[a + 1]] == q[a] by {
            let b = (j - a - 1) as nat;
            assert(preds.contains_key(back_from(preds, v, b)));
            assert(back_from(preds, v, (j - a) as nat) == preds[back_from(preds, v, b)]);
        }
        assert(q[j as int] == v);
        assert(costs.contains_key(q[0])) by {
            if j > 0 {
                assert(preds.contains_key(q[0int + 1]));
            }
        }
        assert(q[0] == s);
        lemma_pred_walk(m, s, costs, preds, stamp, clock, q, -1);
        assert(is_walk(m, q));
        assert(q.no_duplicates()) by {
            assert forall|a: int, b: int| 0 <= a < q.len() && 0 <= b < q.len() && a != b implies q[a]
                != q[b] by {
                if q[a] == q[b] {
                    let lo = if a < b {
                        (j - b) as nat
                    } else {
                        (j - a) as nat
                    };
                    let hi = if a < b {
                        (j - a) as nat
                    } else {
                        (j - b) as nat
                    };
                    assert(leads_back(preds, v, hi));
                    lemma_round(preds, v, lo, hi, j);
                }
            }
        }
        q.unique_seq_to_set();
        assert(q.to_set().subset_of(m.vertices.dom())) by {
            assert forall|x: usize| q.to_set().contains(x) implies m.vertices.dom().contains(x) by {
                let a = choose|a: int| 0 <= a < q.len() && q[a] == x;
                crate::algorithms::reach::lemma_walk_vertices(m, q, a);
            }
        }
        vstd::set_lib::lemma_len_subset(q.to_set(), m.vertices.dom());
        assert(is_walk(m, q) && q[0] == s && q.last() == v && q.len() <= m.vertices.dom().len());
    }
}

/// Where the predecessors lead back from `v` without end, they lead round: a cycle
/// of predecessors is reached, which weighs less than nothing.
pub proof fn lemma_endless_cycle<V: WithID, E: WeightedEdge>(
    m: GraphModel<V, E>,
    s: usize,
    costs: Map<usize, i128>,
    preds: Map<usize, usize>,
    stamp: Map<usize, nat>,
    clock: nat,
    v: usize,
) -> (c: Seq<usize>)
    requires
        traced(m, s, costs, preds, stamp, clock),
        endless(preds, v),
    ensures
        c.len() > 0,
        costs.contains_key(c[0]),
        forall|i: int| 0 <= i < c.len() - 1 ==> m.has_arc(#[trigger] c[i], c[i + 1]),
        m.has_arc(c.last(), c[0]),
        walk_weight(m, c.push(c[0])) < 0,
{
    reveal(traced);
    let n = preds.dom().len();
    let t = Seq::new(n + 1, |a: int| back_from(preds, v, a as nat));
    // More vertices than there are predecessors: one comes twice.
    if t.no_duplicates() {
        t.unique_seq_to_set();
        assert(t.to_set().subset_of(preds.dom())) by {
            assert forall|x: usize| t.to_set().contains(x) implies preds.dom().contains(x) by {
                let a = choose|a: int| 0 <= a < t.len() && t[a] == x;
                assert(preds.contains_key(back_from(preds, v, a as nat)));
            }
        }
        vstd::set_lib::lemma_len_subset(t.to_set(), preds.dom());
    }
    let (i, k) = choose|i: int, k: int| 0 <= i < t.len() && 0 <= k < t.len() && i != k && t[i] == t[k];
    let lo = if i < k {
        i
    } else {
        k
    };
    let hi = if i < k {
        k
    } else {
        i
    };
    assert(t[lo] == back_from(preds, v, lo as nat) && t[hi] == back_from(preds, v, hi as nat));
    let c = Seq::new((hi - lo) as nat, |j: int| back_from(preds, v, (hi - j) as nat));
    assert forall|j: int| 0 <= j < c.len() - 1 implies preds.contains_key(#[trigger] c[j + 1]) && preds[c[j
        + 1]] == c[j] by {
        let b = (hi - j - 1) as nat;
        assert(preds.contains_key(back_from(preds, v, b)));
        assert(back_from(preds, v, (hi - j) as nat) == preds[back_from(preds, v, b)]);
    }
    assert(preds.contains_key(c[0]) && preds[c[0]] == c.last()) by {
        assert(preds.contains_key(back_from(preds, v, hi as nat)));
        assert(back_from(preds, v, (lo + 1) as nat) == preds[back_from(preds, v, lo as nat)]);
        assert(c[c.len() - 1] == back_from(preds, v, (lo + 1) as nat));
    }
    lemma_pred_cycle(m, s, costs, preds, stamp, clock, c);
    c
}

/// The chain of predecessors from `v` that comes to `s` after `j` steps, and not
/// before, is the path from `s` to `v` that the result hands out.
pub proof fn lemma_chain_is(preds: Map<usize, usize>, s: usize, v: usize, j: nat, fuel: nat)
    requires
        leads_back(preds, v, j),
        back_from(preds, v, j) == s,
        forall|i: nat| i < j ==> #[trigger] back_from(preds, v, i) != s,
        fuel >= j,
    ensures
        chain(preds, s, v, fuel) == Some(Seq::new(j + 1, |a: int| back_from(preds, v, (j - a) as nat))),
    decreases j,
{
    let q = Seq::new(j + 1, |a: int| back_from(preds, v, (j - a) as nat));
    if j == 0 {
        assert(q =~= seq![s]);
    } else {
        let u = preds[v];
        assert(back_from(preds, v, 0) != s);
        assert(preds.contains_key(back_from(preds, v, 0)));
        assert forall|i: nat| #![auto] back_from(preds, u, i) == back_from(preds, v, i + 1) by {
            lemma_back_further(preds, v, 1, i);
            assert(back_from(preds, v, 1) == preds[back_from(preds, v, 0)]);
        }
        assert(leads_back(preds, u, (j - 1) as nat)) by {
            assert forall|i: nat| i < j - 1 implies preds.contains_key(#[trigger] back_from(preds, u, i)) by {
                assert(preds.contains_key(back_from(preds, v, i + 1)));
            }
        }
        assert forall|i: nat| i < j - 1 implies #[trigger] back_from(preds, u, i) != s by {
            assert(back_from(preds, v, i + 1) != s);
        }
        lemma_chain_is(preds, s, u, (j - 1) as nat, (fuel - 1) as nat);
        let shorter = Seq::new(j, |a: int| back_from(preds, u, (j - 1 - a) as nat));
        assert(shorter.push(v) =~= q);
    }
}

/// Where no cycle of negative weight is reached and the costs are final, the path
/// that the result hands out for a vertex with a cost is a walk from `s` to it, and
/// weighs what the vertex costs.
pub proof fn lemma_path_found<V: WithID, E: WeightedEdge>(
    m: GraphModel<V, E>,
    s: usize,
    costs: Map<usize, i128>,
    preds: Map<usize, usize>,
    stamp: Map<usize, nat>,
    clock: nat,
    v: usize,
) -> (q: Seq<usize>)
    requires
        m.valid(),
        m.has_vertex(s),
        traced(m, s, costs, preds, stamp, clock),
        tight(m, s, costs, preds),
        no_negative_cycle(m, s),
        costs.contains_key(s),
        costs.contains_key(v),
        forall|x: usize| #[trigger] costs.contains_key(x) ==> reaches(m, s, x),
    ensures
        chain(preds, s, v, preds.dom().len()) == Some(q),
        walk_between(m, q, s, v),
        walk_weight(m, q) == costs[v] - costs[s],
{
    if endless(preds, v) {
        let c = lemma_endless_cycle(m, s, costs, preds, stamp, clock, v);
        let p = c.push(c[0]);
        assert(reaches(m, s, c[0]));
        assert forall|i: int| 0 <= i < p.len() - 1 implies m.has_arc(#[trigger] p[i], p[i + 1]) by {
            if i < c.len() - 1 {
                assert(m.has_arc(c[i], c[i + 1]));
            }
        }
        crate::algorithms::reach::lemma_reaches_vertex(m, s, c[0]);
        assert(walk_between(m, p, c[0], c[0]));
    }
    reveal(traced);
    let i = choose|i: nat| !preds.contains_key(#[trigger] back_from(preds, v, i));
    let j = lemma_first_end(preds, v, i);
    let q = Seq::new(j + 1, |a: int| back_from(preds, v, (j - a) as nat));
    assert forall|a: int| 0 <= a < q.len() - 1 implies preds.contains_key(#[trigger] q[a + 1]) && preds[q[a
        + 1]] == q[a] by {
        let b = (j - a - 1) as nat;
        assert(preds.contains_key(back_from(preds, v, b)));
        assert(back_from(preds, v, (j - a) as nat) == preds[back_from(preds, v, b)]);
    }
    assert(q[j as int] == v);
    assert(costs.contains_key(q[0])) by {
        if j > 0 {
            assert(preds.contains_key(q[0int + 1]));
        }
    }
    assert(q[0] == s);
    lemma_pred_walk(m, s, costs, preds, stamp, clock, q, -1);
    assert(is_walk(m, q));
    lemma_tight_walk(m, s, costs, preds, q);
    // The vertices of the chain are different vertices with predecessors.
    let keys = q.drop_first();
    assert(keys.no_duplicates()) by {
        assert forall|a: int, b: int| 0 <= a < keys.len() && 0 <= b < keys.len() && a != b implies keys[a]
            != keys[b] by {
            if keys[a] == keys[b] {
                let lo = if a < b {
                    (j - b - 1) as nat
                } else {
                    (j - a - 1) as nat
                };
                let hi = if a < b {
                    (j - a - 1) as nat
                } else {
                    (j - b - 1) as nat
                };
                assert(keys[a] == q[a + 1] && keys[b] == q[b + 1]);
                assert(leads_back(preds, v, hi));
                lemma_round(preds, v, lo, hi, j);
            }
        }
    }
    keys.unique_seq_to_set();
    assert(keys.to_set().subset_of(preds.dom())) by {
        assert forall|x: usize| keys.to_set().contains(x) implies preds.dom().contains(x) by {
            let a = choose|a: int| 0 <= a < keys.len() && keys[a] == x;
            assert(keys[a] == q[a + 1]);
            assert(preds.contains_key(q[a + 1]));
        }
    }
    vstd::set_lib::lemma_len_subset(keys.to_set(), preds.dom());
    assert forall|a: nat| a < j implies #[trigger] back_from(preds, v, a) != s by {
        assert(preds.contains_key(back_from(preds, v, a)));
    }
    lemma_chain_is(preds, s, v, j, preds.dom().len());
    q
}

/// Along tight predecessors a walk of which each vertex is the predecessor of the
/// next weighs the cost of its end less that of its start.
pub proof fn lemma_tight_walk<V: WithID, E: WeightedEdge>(
    m: GraphModel<V, E>,
    s: usize,
    costs: Map<usize, i128>,
    preds: Map<usize, usize>,
    p: Seq<usize>,
)
    requires
        tight(m, s, costs, preds),
        p.len() >= 1,
        forall|i: int| 0 <= i < p.len() - 1 ==> preds.contains_key(#[trigger] p[i + 1]) && preds[p[i + 1]] == p[i],
        forall|i: int| 0 < i < p.len() ==> costs.contains_key(#[trigger] p[i]) && p[i] != s,
    ensures
        walk_weight(m, p) == costs[p.last()] - costs[p[0]],
    decreases p.len(),
{
    if p.len() > 1 {
        let q = p.drop_last();
        assert forall|i: int| 0 <= i < q.len() - 1 implies preds.contains_key(#[trigger] q[i + 1])
            && preds[q[i + 1]] == q[i] by {
            assert(preds.contains_key(p[i + 1]));
        }
        assert forall|i: int| 0 < i < q.len() implies costs.contains_key(#[trigger] q[i]) && q[i] != s by {
            assert(costs.contains_key(p[i]));
        }
        lemma_tight_walk(m, s, costs, preds, q);
        let n = p.len() as int;
        assert(preds.contains_key(p[n - 2 + 1]) && preds[p[n - 2 + 1]] == p[n - 2]);
        assert(costs.contains_key(p[n - 1]) && p[n - 1] != s);
    }
}

/// What was found: the vertices of `cycle`, each the predecessor of the next and
/// the last that of the first, make a cycle of negative weight that is reached from
/// `s`.
pub open spec fn negative_cycle_found<V: WithID, E: WeightedEdge>(
    m: GraphModel<V, E>,
    s: usize,
    cycle: Seq<usize>,
) -> bool {
    &&& cycle.len() > 0
    &&& cycle.no_duplicates()
    &&& forall|i: int| 0 <= i < cycle.len() - 1 ==> m.has_arc(#[trigger] cycle[i], cycle[i + 1])
    &&& m.has_arc(cycle.last(), cycle[0])
    &&& walk_weight(m, cycle.push(cycle[0])) < 0
    &&& reaches(m, s, cycle[0])
}

/// Every vertex with a cost but `s` has a predecessor, which is the tail of an arc
/// to it, and its cost is the cost of the predecessor and the weight of that arc.
pub open spec fn tight<V: WithID, E: WeightedEdge>(
    m: GraphModel<V, E>,
    s: usize,
    costs: Map<usize, i128>,
    preds: Map<usize, usize>,
) -> bool {
    forall|x: usize| #[trigger]
        costs.contains_key(x) && x != s ==> {
            &&& preds.contains_key(x)
            &&& costs.contains_key(preds[x])
            &&& m.has_arc(preds[x], x)
            &&& costs[x] == costs[preds[x]] + weight_at(m.arcs, (preds[x], x))
        }
}

/// The vertices whose costs have changed since their arcs were last looked at: those
/// of the frontier from position `t` on, and those that changed in this pass.
pub open spec fn dirty(frontier: Seq<usize>, t: int, changed: Seq<usize>) -> Set<usize> {
    Set::new(
        |x: usize|
            changed.contains(x) || exists|a: int| t <= a < frontier.len() && #[trigger] frontier[a] == x,
    )
}

/// The largest weight of an arc.
pub open spec fn heaviest() -> int {
    0x7fff_ffff_ffff_ffff
}

/// What holds of the costs found from `s`: each is the weight of a walk from `s`,
/// kept in `via`, and the arcs of every found vertex that is not dirty are relaxed;
/// of the vertex `v` that is being looked at, the first `k`.
pub open spec fn relax_inv<V: WithID, E: WeightedEdge>(
    m: GraphModel<V, E>,
    s: usize,
    costs: Map<usize, i128>,
    via: Map<usize, Seq<usize>>,
    depth: Map<usize, nat>,
    unclean: Set<usize>,
    v: usize,
    k: int,
) -> bool {
    &&& costs.dom().finite()
    &&& costs.contains_key(s)
    &&& costs[s] <= 0
    &&& forall|x: usize| #[trigger]
        costs.contains_key(x) ==> {
            &&& x != s ==> m.has_vertex(x) && m.has_vertex(s)
            &&& via.contains_key(x)
            &&& m.has_vertex(s) ==> walk_between(m, via[x], s, x) && walk_weight(m, via[x]) == costs[x]
            &&& depth.contains_key(x)
            &&& depth[x] < costs.dom().len()
            &&& costs[x] <= depth[x] * heaviest()
        }
    &&& forall|x: usize, j: int|
        costs.contains_key(x) && !unclean.contains(x) && 0 <= j < m.out(x).len() && (x != v || j < k)
            ==> #[trigger] arc_relaxed(m, costs, x, j)
}

/// The vertex `x` is in the frontier at the position `t` or later.
pub open spec fn waits(frontier: Seq<usize>, t: int, x: usize) -> bool {
    exists|a: int| t <= a < frontier.len() && #[trigger] frontier[a] == x
}

/// The `j`-th arc of `x` cannot improve the cost of its head beyond what the cost of
/// `x` was when the pass began.
pub open spec fn relaxed_from<V: WithID, E: WeightedEdge>(
    m: GraphModel<V, E>,
    before: Map<usize, i128>,
    costs: Map<usize, i128>,
    x: usize,
    j: int,
) -> bool {
    let arc = m.out(x)[j];
    costs.contains_key(arc.0) && costs[arc.0] <= before[x] + arc.1.spec_weight()
}

/// Whether the `j`-th arc of `x` has been looked at in this pass or did not need to
/// be: `x` does not wait from the position `t` on, or it is the vertex that is being
/// looked at, and `j` is among its first arcs.
pub open spec fn looked_at(frontier: Seq<usize>, t: int, current: Option<(usize, int)>, x: usize, j: int) -> bool {
    match current {
        None => !waits(frontier, t, x),
        Some((v, k)) => (x != v && !waits(frontier, t, x)) || (x == v && j < k),
    }
}

/// What holds in a pass: no cost has gone up since the pass began, and no arc that
/// has been looked at can improve the cost of its head beyond the cost that its
/// tail had then.
pub open spec fn pass_inv<V: WithID, E: WeightedEdge>(
    m: GraphModel<V, E>,
    before: Map<usize, i128>,
    costs: Map<usize, i128>,
    frontier: Seq<usize>,
    t: int,
    current: Option<(usize, int)>,
) -> bool {
    &&& forall|x: usize| #[trigger] before.contains_key(x) ==> costs.contains_key(x) && costs[x] <= before[x]
    &&& forall|x: usize, j: int|
        before.contains_key(x) && 0 <= j < m.out(x).len() && looked_at(frontier, t, current, x, j)
            ==> #[trigger] relaxed_from(m, before, costs, x, j)
}

/// No walk from `s` of at most `passes` arcs weighs less than the cost of its end.
pub open spec fn bounded<V: WithID, E: WeightedEdge>(
    m: GraphModel<V, E>,
    s: usize,
    costs: Map<usize, i128>,
    passes: int,
) -> bool {
    forall|p: Seq<usize>|
        #[trigger] is_walk(m, p) && p[0] == s && p.len() <= passes + 1 ==> costs.contains_key(
            p.last(),
        ) && costs[p.last()] <= walk_weight(m, p)
}

/// The walk `p` from `s` weighs less than the cost that its end had, or its end had
/// none.
pub open spec fn lighter<V: WithID, E: WeightedEdge>(
    m: GraphModel<V, E>,
    s: usize,
    before: Map<usize, i128>,
    p: Seq<usize>,
) -> bool {
    is_walk(m, p) && p[0] == s && (!before.contains_key(p.last()) || walk_weight(m, p) < before[p.last()])
}

/// As a pass begins, the arcs of the vertices that are not in the frontier have
/// been looked at.
pub proof fn lemma_pass_start<V: WithID, E: WeightedEdge>(
    m: GraphModel<V, E>,
    s: usize,
    costs: Map<usize, i128>,
    via: Map<usize, Seq<usize>>,
    depth: Map<usize, nat>,
    frontier: Seq<usize>,
)
    requires
        relax_inv(
            m,
            s,
            costs,
            via,
            depth,
            dirty(frontier, 0, Seq::empty()),
            s,
            m.out(s).len() as int,
        ),
    ensures
        pass_inv(m, costs, costs, frontier, 0, None),
{
    assert forall|x: usize, j: int|
        costs.contains_key(x) && 0 <= j < m.out(x).len() && looked_at(
            frontier,
            0,
            None,
            x,
            j,
        ) implies #[trigger] relaxed_from(m, costs, costs, x, j) by {
        if dirty(frontier, 0, Seq::empty()).contains(x) {
            assert(!Seq::<usize>::empty().contains(x));
            let a = choose|a: int| 0 <= a < frontier.len() && #[trigger] frontier[a] == x;
            assert(waits(frontier, 0, x));
        }
        assert(arc_relaxed(m, costs, x, j));
    }
}

/// The next vertex of the frontier is looked at.
pub proof fn lemma_pass_vertex<V: WithID, E: WeightedEdge>(
    m: GraphModel<V, E>,
    before: Map<usize, i128>,
    costs: Map<usize, i128>,
    frontier: Seq<usize>,
    t: int,
)
    requires
        pass_inv(m, before, costs, frontier, t, None),
        0 <= t < frontier.len(),
    ensures
        pass_inv(m, before, costs, frontier, t + 1, Some((frontier[t], 0int))),
{
    assert forall|x: usize, j: int|
        before.contains_key(x) && 0 <= j < m.out(x).len() && looked_at(
            frontier,
            t + 1,
            Some((frontier[t], 0int)),
            x,
            j,
        ) implies #[trigger] relaxed_from(m, before, costs, x, j) by {
        if waits(frontier, t, x) {
            let a = choose|a: int| t <= a < frontier.len() && #[trigger] frontier[a] == x;
            assert(a != t);
            assert(t + 1 <= a < frontier.len() && frontier[a] == x);
        }
        assert(looked_at(frontier, t, None, x, j));
    }
}

/// An arc that cannot improve the cost of its head has been looked at.
pub proof fn lemma_pass_keep<V: WithID, E: WeightedEdge>(
    m: GraphModel<V, E>,
    before: Map<usize, i128>,
    costs: Map<usize, i128>,
    frontier: Seq<usize>,
    t: int,
    v: usize,
    k: int,
)
    requires
        pass_inv(m, before, costs, frontier, t, Some((v, k))),
        before.contains_key(v),
        0 <= k < m.out(v).len(),
        arc_relaxed(m, costs, v, k),
    ensures
        pass_inv(m, before, costs, frontier, t, Some((v, k + 1))),
{
    assert forall|x: usize, j: int|
        before.contains_key(x) && 0 <= j < m.out(x).len() && looked_at(
            frontier,
            t,
            Some((v, k + 1)),
            x,
            j,
        ) implies #[trigger] relaxed_from(m, before, costs, x, j) by {
        if x == v && j == k {
        } else {
            assert(looked_at(frontier, t, Some((v, k)), x, j));
        }
    }
}

/// An arc that improves the cost of its head has been looked at once the head has
/// its new cost.
pub proof fn lemma_pass_update<V: WithID, E: WeightedEdge>(
    m: GraphModel<V, E>,
    before: Map<usize, i128>,
    costs: Map<usize, i128>,
    frontier: Seq<usize>,
    t: int,
    v: usize,
    k: int,
    new_cost: i128,
)
    requires
        pass_inv(m, before, costs, frontier, t, Some((v, k))),
        before.contains_key(v),
        0 <= k < m.out(v).len(),
        new_cost == costs[v] + m.out(v)[k].1.spec_weight(),
        !costs.contains_key(m.out(v)[k].0) || new_cost < costs[m.out(v)[k].0],
    ensures
        pass_inv(m, before, costs.insert(m.out(v)[k].0, new_cost), frontier, t, Some((v, k + 1))),
{
    let w = m.out(v)[k].0;
    let after = costs.insert(w, new_cost);
    assert forall|x: usize, j: int|
        before.contains_key(x) && 0 <= j < m.out(x).len() && looked_at(
            frontier,
            t,
            Some((v, k + 1)),
            x,
            j,
        ) implies #[trigger] relaxed_from(m, before, after, x, j) by {
        if x == v && j == k {
        } else {
            assert(looked_at(frontier, t, Some((v, k)), x, j));
            assert(relaxed_from(m, before, costs, x, j));
        }
    }
}

/// When all arcs of a vertex have been looked at, the vertex has been dealt with.
pub proof fn lemma_pass_done<V: WithID, E: WeightedEdge>(
    m: GraphModel<V, E>,
    before: Map<usize, i128>,
    costs: Map<usize, i128>,
    frontier: Seq<usize>,
    t: int,
    v: usize,
)
    requires
        pass_inv(m, before, costs, frontier, t, Some((v, m.out(v).len() as int))),
    ensures
        pass_inv(m, before, costs, frontier, t, None),
{
    assert forall|x: usize, j: int|
        before.contains_key(x) && 0 <= j < m.out(x).len() && looked_at(
            frontier,
            t,
            None,
            x,
            j,
        ) implies #[trigger] relaxed_from(m, before, costs, x, j) by {
        assert(looked_at(frontier, t, Some((v, m.out(v).len() as int)), x, j));
    }
}

/// After a pass the costs are bounded by the walks of one more arc.
pub proof fn lemma_pass_end<V: WithID, E: WeightedEdge>(
    m: GraphModel<V, E>,
    s: usize,
    before: Map<usize, i128>,
    costs: Map<usize, i128>,
    frontier: Seq<usize>,
    passes: int,
)
    requires
        m.valid(),
        passes >= 0,
        bounded(m, s, before, passes),
        pass_inv(m, before, costs, frontier, frontier.len() as int, None),
    ensures
        bounded(m, s, costs, passes + 1),
{
    assert forall|p: Seq<usize>| #[trigger] is_walk(m, p) && p[0] == s && p.len() <= passes + 2 implies costs.contains_key(
        p.last(),
    ) && costs[p.last()] <= walk_weight(m, p) by {
        if p.len() <= passes + 1 {
            assert(before.contains_key(p.last()));
        } else {
            let q = p.drop_last();
            lemma_prefix_walk(m, p, p.len() - 1);
            assert(p.take(p.len() - 1) =~= q);
            assert(is_walk(m, q) && q[0] == s && q.len() <= passes + 1);
            let v = q.last();
            assert(m.has_arc(p[p.len() - 2], p[p.len() - 2 + 1]));
            let j = m.arc_index(v, p.last());
            assert(m.arc_at(v, j, p.last()));
            lemma_arc_weight(m, v, j);
            assert(looked_at(frontier, frontier.len() as int, None, v, j));
            assert(relaxed_from(m, before, costs, v, j));
        }
    }
}

/// Where no cycle of negative weight can be reached from `s`, the costs cannot be
/// improved once they are bounded by the walks of one arc less than the graph has
/// vertices.
pub proof fn lemma_no_improvement<V: WithID, E: WeightedEdge>(
    m: GraphModel<V, E>,
    s: usize,
    before: Map<usize, i128>,
    p: Seq<usize>,
)
    requires
        m.valid(),
        bounded(m, s, before, m.vertices.dom().len() - 1),
        lighter(m, s, before, p),
    ensures
        !no_negative_cycle(m, s),
{
    if no_negative_cycle(m, s) {
        lemma_shorten(m, s, p);
        let q = choose|q: Seq<usize>|
            #[trigger] is_walk(m, q) && q[0] == s && q.last() == p.last() && q.len()
                <= m.vertices.dom().len() && walk_weight(m, q) <= walk_weight(m, p);
        assert(is_walk(m, q) && q[0] == s && q.len() <= (m.vertices.dom().len() - 1) + 1);
    }
}

/// Where no cycle of negative weight can be reached from `s`, no walk from `s`
/// weighs less than the costs can hold.
pub proof fn lemma_no_underflow<V: WithID, E: WeightedEdge>(m: GraphModel<V, E>, s: usize, p: Seq<usize>)
    requires
        m.valid(),
        m.vertices.dom().len() <= usize::MAX,
        is_walk(m, p),
        p[0] == s,
        walk_weight(m, p) < i128::MIN,
    ensures
        !no_negative_cycle(m, s),
{
    if no_negative_cycle(m, s) {
        lemma_shorten(m, s, p);
        let q = choose|q: Seq<usize>|
            #[trigger] is_walk(m, q) && q[0] == s && q.last() == p.last() && q.len()
                <= m.vertices.dom().len() && walk_weight(m, q) <= walk_weight(m, p);
        lemma_walk_weight_bound(m, q);
        assert(-q.len() * 0x8000_0000_0000_0000 >= -0xffff_ffff_ffff_ffff * 0x8000_0000_0000_0000)
            by (nonlinear_arith)
            requires
                q.len() <= 0xffff_ffff_ffff_ffff,
        ;
    }
}

/// Where every arc of a found vertex is relaxed, the cost found for the end of a
/// walk is at most the cost found for its start plus the weight of the walk.
pub proof fn lemma_relaxed_walk<V: WithID, E: WeightedEdge>(
    m: GraphModel<V, E>,
    costs: Map<usize, i128>,
    p: Seq<usize>,
    k: int,
)
    requires
        m.valid(),
        forall|x: usize, j: int|
            costs.contains_key(x) && 0 <= j < m.out(x).len() ==> #[trigger] arc_relaxed(m, costs, x, j),
        is_walk(m, p),
        costs.contains_key(p[0]),
        0 <= k < p.len(),
    ensures
        costs.contains_key(p[k]),
        costs[p[k]] <= costs[p[0]] + walk_weight(m, p.take(k + 1)),
    decreases k,
{
    if k > 0 {
        lemma_relaxed_walk(m, costs, p, k - 1);
        let x = p[k - 1];
        assert(m.has_arc(p[k - 1], p[k - 1 + 1]));
        let j = m.arc_index(x, p[k]);
        assert(m.arc_at(x, j, p[k]));
        assert(arc_relaxed(m, costs, x, j));
        lemma_arc_weight(m, x, j);
        assert(p.take(k + 1).drop_last() =~= p.take(k));
    }
}

/// The found vertices are vertices of the graph, but for the start.
pub proof fn lemma_found_bound<V: WithID, E: WeightedEdge>(
    m: GraphModel<V, E>,
    s: usize,
    costs: Map<usize, i128>,
    via: Map<usize, Seq<usize>>,
    depth: Map<usize, nat>,
    unclean: Set<usize>,
    v: usize,
    k: int,
)
    requires
        m.valid(),
        relax_inv(m, s, costs, via, depth, unclean, v, k),
    ensures
        costs.dom().len() <= m.vertices.dom().len() + 1,
{
    assert(costs.dom().remove(s).subset_of(m.vertices.dom()));
    vstd::set_lib::lemma_len_subset(costs.dom().remove(s), m.vertices.dom());
}

/// The vertex that is `j` steps back from `x` along the predecessors.
pub open spec fn back_from(preds: Map<usize, usize>, x: usize, j: nat) -> usize
    decreases j,
{
    if j == 0 {
        x
    } else {
        preds[back_from(preds, x, (j - 1) as nat)]
    }
}

/// The predecessors lead at least `j` steps back from `x`.
pub open spec fn leads_back(preds: Map<usize, usize>, x: usize, j: nat) -> bool {
    forall|i: nat| i < j ==> preds.contains_key(#[trigger] back_from(preds, x, i))
}

/// The predecessors lead back from `x` without end.
pub open spec fn endless(preds: Map<usize, usize>, x: usize) -> bool {
    forall|i: nat| preds.contains_key(#[trigger] back_from(preds, x, i))
}

/// The predecessors lead back from `x` to `y`.
pub open spec fn on_chain(preds: Map<usize, usize>, x: usize, y: usize) -> bool {
    exists|j: nat| leads_back(preds, x, j) && #[trigger] back_from(preds, x, j) == y
}

/// The vertices along the predecessors from `initial` up to the first that comes
/// twice, and from there once round: a cycle, each vertex the predecessor of the
/// next and the last that of the first, where the predecessors of `initial` lead
/// back without end. Where they end, the result is the vertex at which they end.
pub fn construct_negative_cycle(predecessors: &FxHashMap<usize, usize>, initial: usize) -> (cycle: Vec<
    usize,
>)
    requires
        predecessors@.dom().finite(),
    ensures
        cycle.len() > 0,
        cycle@.no_duplicates(),
        forall|i: int|
            0 <= i < cycle.len() - 1 ==> predecessors@.contains_key(#[trigger] cycle[i + 1])
                && predecessors@[cycle[i + 1]] == cycle[i],
        forall|i: int| 0 <= i < cycle.len() ==> on_chain(predecessors@, initial, #[trigger] cycle[i]),
        endless(predecessors@, initial) ==> predecessors@.contains_key(cycle[0])
            && predecessors@[cycle[0]] == cycle[cycle.len() - 1],
        !endless(predecessors@, initial) ==> cycle.len() == 1 && !predecessors@.contains_key(cycle[0]),
{
    let ghost preds = predecessors@;
    let total = map_len(predecessors);
    let mut visited = set_new();
    let mut current = initial;
    let mut fuel = total;
    let mut searching = true;
    let ghost mut trail: Seq<usize> = Seq::empty();
    // Follow the predecessors until a vertex comes twice.
    while searching
        invariant
            preds == predecessors@,
            preds.dom().finite(),
            total == preds.dom().len(),
            fuel + trail.len() == total,
            trail.no_duplicates(),
            searching ==> visited@ == trail.to_set(),
            forall|i: int|
                0 <= i < trail.len() ==> #[trigger] trail[i] == back_from(preds, initial, i as nat)
                    && preds.contains_key(trail[i]),
            current == back_from(preds, initial, trail.len() as nat),
            !searching ==> trail.contains(current) || !preds.contains_key(current),
        decreases
                if searching {
                    fuel + 1
                } else {
                    0
                },
    {
        if set_contains(&visited, current) || fuel == 0 {
            searching = false;
            proof {
                if !trail.contains(current) {
                    // Every vertex with a predecessor has been visited.
                    trail.unique_seq_to_set();
                    assert(trail.to_set().subset_of(preds.dom())) by {
                        assert forall|x: usize| trail.to_set().contains(x) implies preds.dom().contains(
                            x,
                        ) by {
                            let i = choose|i: int| 0 <= i < trail.len() && trail[i] == x;
                            assert(preds.contains_key(trail[i]));
                        }
                    }
                    vstd::set_lib::lemma_subset_equality(trail.to_set(), preds.dom());
                }
            }
        } else {
            set_insert(&mut visited, current);
            match map_get(predecessors, current) {
                Some(pred) => {
                    proof {
                        let longer = trail.push(current);
                        assert(longer.to_set() =~= trail.to_set().insert(current)) by {
                            assert forall|x: usize| longer.to_set().contains(x) <==> trail.to_set().insert(
                                current,
                            ).contains(x) by {
                                if longer.contains(x) {
                                    let i = choose|i: int| 0 <= i < longer.len() && longer[i] == x;
                                    if i < trail.len() {
                                        assert(trail[i] == x);
                                    }
                                }
                                if trail.contains(x) {
                                    let i = choose|i: int| 0 <= i < trail.len() && trail[i] == x;
                                    assert(longer[i] == x);
                                }
                                if x == current {
                                    assert(longer[trail.len() as int] == x);
                                }
                            }
                        }
                        assert(longer.no_duplicates()) by {
                            assert forall|i: int, j: int|
                                0 <= i < longer.len() && 0 <= j < longer.len() && i != j implies longer[i]
                                != longer[j] by {
                                if i < trail.len() {
                                    assert(trail.to_set().contains(trail[i]));
                                }
                                if j < trail.len() {
                                    assert(trail.to_set().contains(trail[j]));
                                }
                            }
                        }
                        trail = longer;
                    }
                    current = *pred;
                    fuel -= 1;
                },
                None => {
                    searching = false;
                },
            }
        }
    }
    // Once round from there.
    let cycle_start = current;
    let ghost round = trail.contains(cycle_start);
    let ghost from: int = if round {
        choose|i: int| 0 <= i < trail.len() && trail[i] == cycle_start
    } else {
        trail.len() as int
    };
    let mut back: Vec<usize> = Vec::new();
    back.push(cycle_start);
    let mut fuel = total;
    let mut walking = true;
    while walking
        invariant
            preds == predecessors@,
            total == preds.dom().len(),
            trail.len() <= total,
            trail.no_duplicates(),
            forall|i: int|
                0 <= i < trail.len() ==> #[trigger] trail[i] == back_from(preds, initial, i as nat)
                    && preds.contains_key(trail[i]),
            cycle_start == back_from(preds, initial, trail.len() as nat),
            round == trail.contains(cycle_start),
            round ==> 0 <= from < trail.len() && trail[from] == cycle_start,
            !round ==> from == trail.len() && !preds.contains_key(cycle_start),
            back.len() > 0,
            back[0] == cycle_start,
            current == back[back.len() - 1],
            round ==> from + back.len() <= trail.len(),
            round ==> fuel + back.len() == total + 1,
            !round ==> back.len() == 1,
            forall|j: int|
                0 <= j < back.len() ==> #[trigger] back[j] == back_from(preds, initial, (from + j) as nat),
            forall|i: int|
                0 <= i < back.len() - 1 ==> preds.contains_key(#[trigger] back[i]) && preds[back[i]]
                    == back[i + 1],
            !walking && round ==> preds.contains_key(current) && preds[current] == cycle_start,
        decreases
                if walking {
                    fuel + 1
                } else {
                    0
                },
    {
        proof {
            if round {
                assert(back[back.len() - 1] == trail[from + back.len() - 1]);
                assert(preds.contains_key(trail[from + back.len() - 1]));
            }
        }
        match map_get(predecessors, current) {
            Some(pred) => {
                proof {
                    assert(round);
                    // The predecessor is the next vertex of the trail, or the first again.
                    assert(*pred == back_from(preds, initial, (from + back.len()) as nat));
                    if from + back.len() < trail.len() {
                        assert(*pred == trail[from + back.len()]);
                        assert(trail[from + back.len()] != trail[from]);
                    }
                }
                if *pred == cycle_start || fuel == 0 {
                    walking = false;
                } else {
                    let ghost before = back@;
                    current = *pred;
                    back.push(current);
                    fuel -= 1;
                    proof {
                        assert forall|j: int| 0 <= j < back.len() implies #[trigger] back[j]
                            == back_from(preds, initial, (from + j) as nat) by {
                            if j < before.len() {
                                assert(back[j] == before[j]);
                            }
                        }
                        assert forall|i: int| 0 <= i < back.len() - 1 implies preds.contains_key(
                            #[trigger] back[i],
                        ) && preds[back[i]] == back[i + 1] by {
                            if i < before.len() - 1 {
                                assert(back[i] == before[i] && back[i + 1] == before[i + 1]);
                            }
                        }
                    }
                }
            },
            None => {
                walking = false;
            },
        }
    }
    // Turn the vertices round.
    let ghost full = back@;
    let mut cycle: Vec<usize> = Vec::new();
    let mut i: usize = back.len();
    while i > 0
        invariant
            0 <= i <= back.len(),
            back@ == full,
            cycle.len() == full.len() - i,
            forall|a: int| 0 <= a < cycle.len() ==> #[trigger] cycle[a] == full[full.len() - 1 - a],
        decreases i,
    {
        i -= 1;
        cycle.push(back[i]);
    }
    proof {
        assert forall|a: int| 0 <= a < cycle.len() - 1 implies preds.contains_key(#[trigger] cycle[a + 1])
            && preds[cycle[a + 1]] == cycle[a] by {
            let b = full.len() - 1 - (a + 1);
            assert(cycle[a + 1] == full[b]);
            assert(cycle[a] == full[b + 1]);
            assert(preds.contains_key(back[b]));
        }
        assert(leads_back(preds, initial, trail.len() as nat)) by {
            assert forall|x: nat| x < trail.len() implies preds.contains_key(
                #[trigger] back_from(preds, initial, x),
            ) by {
                assert(trail[x as int] == back_from(preds, initial, x));
            }
        }
        assert forall|a: int| 0 <= a < cycle.len() implies on_chain(preds, initial, #[trigger] cycle[a]) by {
            let b = full.len() - 1 - a;
            assert(cycle[a] == full[b]);
            assert(back[b] == back_from(preds, initial, (from + b) as nat));
            assert(leads_back(preds, initial, (from + b) as nat));
        }
        assert(cycle@.no_duplicates()) by {
            assert forall|a: int, c: int| 0 <= a < cycle.len() && 0 <= c < cycle.len() && a != c implies cycle[a]
                != cycle[c] by {
                let x = full.len() - 1 - a;
                let y = full.len() - 1 - c;
                assert(cycle[a] == full[x] && cycle[c] == full[y]);
                if round {
                    assert(back[x] == trail[from + x]);
                    assert(back[y] == trail[from + y]);
                }
            }
        }
        if !round {
            assert(!preds.contains_key(back_from(preds, initial, trail.len() as nat)));
            assert(cycle[0] == full[0]);
        } else {
            assert(cycle[0] == full[full.len() - 1]);
            assert(cycle[cycle.len() - 1] == full[0]);
            assert(endless(preds, initial)) by {
                assert forall|x: nat| preds.contains_key(#[trigger] back_from(preds, initial, x)) by {
                    lemma_round(preds, initial, from as nat, trail.len() as nat, x);
                }
            }
        }
    }
    cycle
}

/// Steps back from a vertex that is itself some steps back.
pub proof fn lemma_back_further(preds: Map<usize, usize>, x: usize, a: nat, d: nat)
    ensures
        back_from(preds, x, a + d) == back_from(preds, back_from(preds, x, a), d),
    decreases d,
{
    if d > 0 {
        lemma_back_further(preds, x, a, (d - 1) as nat);
    }
}

/// Where the vertex `k` steps back is the vertex `i` steps back once more, the
/// predecessors lead back without end.
pub proof fn lemma_round(preds: Map<usize, usize>, x: usize, i: nat, k: nat, j: nat)
    requires
        i < k,
        leads_back(preds, x, k),
        back_from(preds, x, k) == back_from(preds, x, i),
    ensures
        preds.contains_key(back_from(preds, x, j)),
    decreases j,
{
    if j >= k {
        let less = (j - (k - i)) as nat;
        lemma_round(preds, x, i, k, less);
        lemma_back_further(preds, x, k, (j - k) as nat);
        lemma_back_further(preds, x, i, (j - k) as nat);
        assert(back_from(preds, x, j) == back_from(preds, x, less));
    }
}

impl<Backend: GraphBase> Graph<Backend> where Backend::Edge: WeightedEdge {
    /// The Bellman-Ford algorithm in its form with a queue: in each pass the arcs of
    /// the vertices whose cost changed in the pass before are looked at, and an arc
    /// that leads to a lower cost for its head sets that cost and makes its tail the
    /// predecessor of its head. When a pass changes nothing, the costs are the
    /// distances from `start`, the predecessors lead back along shortest paths, and
    /// no cycle of negative weight can be reached from `start`. When the pass that
    /// is as many as the graph has vertices still changes a cost, or a cost falls
    /// below what the cost type holds, the predecessors lead round, and their cycle
    /// is returned: a cycle of negative weight that is reached from `start`.
    pub fn bellman_ford(&self, start: usize) -> (r: BellmanFordResult<i128>)
        requires
            self.wf(),
        ensures
            match r {
                BellmanFordResult::SPT(sp) => {
                    let m = self.model();
                    &&& sp.spec_start() == start
                    &&& sp.costs().contains_key(start)
                    &&& !m.has_vertex(start) ==> sp.costs().dom() == set![start]
                    &&& m.has_vertex(start) ==> forall|v: usize| #[trigger]
                        sp.costs().contains_key(v) <==> reaches(m, start, v)
                    &&& m.has_vertex(start) ==> forall|v: usize| #[trigger]
                        sp.costs().contains_key(v) ==> is_distance(m, start, v, sp.costs()[v] as int)
                    &&& no_negative_cycle(m, start)
                    &&& tight(m, start, sp.costs(), sp.predecessors())
                    &&& m.has_vertex(start) ==> forall|v: usize| #[trigger]
                        sp.costs().contains_key(v) ==> walk_between(m, sp.path(v), start, v)
                            && walk_weight(m, sp.path(v)) == sp.costs()[v]
                },
                BellmanFordResult::NegativeCycle(cycle) => {
                    &&& !no_negative_cycle(self.model(), start)
                    &&& negative_cycle_found(self.model(), start, cycle@)
                },
            },
    {
        let ghost m = self.model();
        proof {
            self.lemma_wf();
        }
        let mut costs: FxHashMap<usize, i128> = map_new();
        let mut predecessor: FxHashMap<usize, usize> = map_new();
        map_insert(&mut costs, start, 0i128);
        let mut vertices: Vec<usize> = Vec::new();
        vertices.push(start);
        let n = self.vertex_count();
        let ghost mut via: Map<usize, Seq<usize>> = Map::empty().insert(start, seq![start]);
        let ghost mut depth: Map<usize, nat> = Map::empty().insert(start, 0nat);
        let ghost mut stamp: Map<usize, nat> = Map::empty().insert(start, 0nat);
        let ghost mut clock: nat = 1;
        let mut remaining = n;
        let mut settled = false;
        proof {
            assert(costs@.dom() =~= set![start]);
            if m.has_vertex(start) {
                assert(is_walk(m, seq![start]));
            }
            assert(vertices@[0] == start);
            assert(dirty(vertices@, 0, Seq::empty()).contains(start));
            assert(traced(m, start, costs@, predecessor@, stamp, clock)) by {
                reveal(traced);
                assert(predecessor@.dom() =~= Set::<usize>::empty());
            }
            assert(bounded(m, start, costs@, 0)) by {
                assert forall|p: Seq<usize>|
                    #[trigger] is_walk(m, p) && p[0] == start && p.len() <= 1 implies costs@.contains_key(
                    p.last(),
                ) && costs@[p.last()] <= walk_weight(m, p) by {}
            }
        }
        while remaining > 0 && !settled
            invariant
                self.wf(),
                m == self.model(),
                m.valid(),
                n == m.vertices.dom().len(),
                remaining <= n,
                bounded(m, start, costs@, n - remaining),
                relax_inv(
                    m,
                    start,
                    costs@,
                    via,
                    depth,
                    dirty(vertices@, 0, Seq::<usize>::empty()),
                    start,
                    m.out(start).len() as int,
                ),
                !settled ==> remaining > 0 || n == 0,
                forall|a: int| 0 <= a < vertices.len() ==> costs@.contains_key(#[trigger] vertices[a]),
                settled ==> vertices.len() == 0,
                traced(m, start, costs@, predecessor@, stamp, clock),
            decreases remaining, (if settled { 0int } else { 1int }),
        {
            let mut changed_vertices: Vec<usize> = Vec::new();
            let mut t: usize = 0;
            let ghost before = costs@;
            let ghost mut improved: Seq<usize> = Seq::empty();
            proof {
                assert(dirty(vertices@, 0, changed_vertices@) =~= dirty(
                    vertices@,
                    0,
                    Seq::<usize>::empty(),
                ));
                lemma_pass_start(m, start, costs@, via, depth, vertices@);
            }
            while t < vertices.len()
                invariant
                    0 <= t <= vertices.len(),
                    self.wf(),
                    m == self.model(),
                    m.valid(),
                    n == m.vertices.dom().len(),
                    pass_inv(m, before, costs@, vertices@, t as int, None),
                    forall|a: int| 0 <= a < vertices.len() ==> before.contains_key(#[trigger] vertices[a]),
                    changed_vertices.len() > 0 ==> lighter(m, start, before, improved),
                    relax_inv(
                        m,
                        start,
                        costs@,
                        via,
                        depth,
                        dirty(vertices@, t as int, changed_vertices@),
                        start,
                        m.out(start).len() as int,
                    ),
                    forall|a: int|
                        0 <= a < vertices.len() ==> costs@.contains_key(#[trigger] vertices[a]),
                    forall|a: int|
                        0 <= a < changed_vertices.len() ==> costs@.contains_key(
                            #[trigger] changed_vertices[a],
                        ),
                    forall|a: int|
                        0 <= a < changed_vertices.len() ==> !before.contains_key(
                            #[trigger] changed_vertices[a],
                        ) || costs@[changed_vertices[a]] < before[changed_vertices[a]],
                    traced(m, start, costs@, predecessor@, stamp, clock),
                decreases vertices.len() - t,
            {
                let v = vertices[t];
                let adj = self.get_adjacent_vertices_with_edges(v);
                let mut k: usize = 0;
                proof {
                    lemma_pass_vertex(m, before, costs@, vertices@, t as int);
                    assert forall|x: usize, j: int|
                        costs@.contains_key(x) && !dirty(
                            vertices@,
                            t + 1,
                            changed_vertices@,
                        ).contains(x) && 0 <= j < m.out(x).len() && (x != v || j < 0) implies #[trigger] arc_relaxed(
                        m,
                        costs@,
                        x,
                        j,
                    ) by {
                        if dirty(vertices@, t as int, changed_vertices@).contains(x) {
                            assert(!changed_vertices@.contains(x));
                            let a = choose|a: int|
                                t <= a < vertices.len() && #[trigger] vertices[a] == x;
                            assert(a != t);
                            assert(t + 1 <= a < vertices.len() && vertices[a] == x);
                        }
                    }
                }
                while k < adj.len()
                    invariant
                        0 <= k <= adj.len(),
                        0 <= t < vertices.len(),
                        v == vertices[t as int],
                        self.wf(),
                        m == self.model(),
                        m.valid(),
                        n == m.vertices.dom().len(),
                        adj.len() == m.out(v).len(),
                        forall|j: int|
                            0 <= j < adj.len() ==> {
                                let arc = m.out(v)[j];
                                *(#[trigger] adj[j]).0 == m.vertices[arc.0] && *adj[j].1 == arc.1
                            },
                        pass_inv(m, before, costs@, vertices@, t + 1, Some((v, k as int))),
                        forall|a: int|
                            0 <= a < vertices.len() ==> before.contains_key(#[trigger] vertices[a]),
                        changed_vertices.len() > 0 ==> lighter(m, start, before, improved),
                        relax_inv(
                            m,
                            start,
                            costs@,
                            via,
                            depth,
                            dirty(vertices@, t + 1, changed_vertices@),
                            v,
                            k as int,
                        ),
                        forall|a: int|
                            0 <= a < vertices.len() ==> costs@.contains_key(#[trigger] vertices[a]),
                        forall|a: int|
                            0 <= a < changed_vertices.len() ==> costs@.contains_key(
                                #[trigger] changed_vertices[a],
                            ),
                        forall|a: int|
                            0 <= a < changed_vertices.len() ==> !before.contains_key(
                                #[trigger] changed_vertices[a],
                            ) || costs@[changed_vertices[a]] < before[changed_vertices[a]],
                        traced(m, start, costs@, predecessor@, stamp, clock),
                    decreases adj.len() - k,
                {
                    let w = adj[k].0.get_id();
                    let weight = adj[k].1.get_weight() as i128;
                    let ghost unclean = dirty(vertices@, t + 1, changed_vertices@);
                    proof {
                        assert(m.has_vertex(m.out(v)[k as int].0));
                        assert(w == m.out(v)[k as int].0);
                        lemma_found_bound(m, start, costs@, via, depth, unclean, v, k as int);
                        lemma_arc_weight(m, v, k as int);
                    }
                    let cost_v = match map_get(&costs, v) {
                        Some(c) => *c,
                        None => {
                            assert(false);
                            0
                        },
                    };
                    proof {
                        assert(depth[v] * heaviest() + heaviest() <= i128::MAX) by (nonlinear_arith)
                            requires
                                depth[v] < 0x1_0000_0000_0000_0000,
                                heaviest() == 0x7fff_ffff_ffff_ffff,
                        ;
                    }
                    if weight < 0 && cost_v < i128::MIN - weight {
                        // The cost has left the range of the cost type.
                        proof {
                            assert(m.arcs.dom().contains(v));
                            assert(m.has_vertex(start));
                            lemma_walk_push(m, via[v], w);
                            lemma_no_underflow(m, start, via[v].push(w));
                        }
                        proof {
                            assert forall|p: Seq<usize>|
                                #[trigger] is_walk(m, p) && p[0] == start && p.last() == v && p.len()
                                    <= m.vertices.dom().len() implies walk_weight(m, p) > costs@[v] by {
                                lemma_walk_weight_bound(m, p);
                                assert(-p.len() * 0x8000_0000_0000_0000 >= -0xffff_ffff_ffff_ffff
                                    * 0x8000_0000_0000_0000) by (nonlinear_arith)
                                    requires
                                        p.len() <= 0xffff_ffff_ffff_ffff,
                                ;
                            }
                            lemma_endless(m, start, costs@, predecessor@, stamp, clock, v);
                            assert(predecessor@.dom().finite()) by {
                                reveal(traced);
                            }
                        }
                        let cycle = construct_negative_cycle(&predecessor, v);
                        proof {
                            lemma_pred_cycle(m, start, costs@, predecessor@, stamp, clock, cycle@);
                            assert(is_walk(m, via[cycle[0]]));
                        }
                        return BellmanFordResult::NegativeCycle(cycle);
                    }
                    let new_cost = cost_v + weight;
                    let improves = match map_get(&costs, w) {
                        Some(cost_w) => new_cost < *cost_w,
                        None => true,
                    };
                    if improves {
                        proof {
                            let fresh = !costs@.contains_key(w);
                            let old_costs = costs@;
                            let old_depth = depth;
                            let new_costs = costs@.insert(w, new_cost);
                            assert(m.arcs.dom().contains(v));
                            assert(m.has_vertex(start));
                            lemma_walk_push(m, via[v], w);
                            lemma_pass_update(
                                m,
                                before,
                                costs@,
                                vertices@,
                                t + 1,
                                v,
                                k as int,
                                new_cost,
                            );
                            improved = via[v].push(w);
                            assert(lighter(m, start, before, improved)) by {
                                if before.contains_key(w) {
                                    assert(old_costs.contains_key(w) && old_costs[w] <= before[w]);
                                }
                            }
                            via = via.insert(w, via[v].push(w));
                            if fresh {
                                depth = depth.insert(w, depth[v] + 1);
                            }
                            let after = changed_vertices@.push(w);
                            assert(after[changed_vertices.len() as int] == w);
                            assert forall|x: usize|
                                dirty(vertices@, t + 1, after).contains(x) <==> unclean.contains(x)
                                    || x == w by {
                                if changed_vertices@.contains(x) {
                                    let a = choose|a: int|
                                        0 <= a < changed_vertices.len() && changed_vertices[a] == x;
                                    assert(after[a] == x);
                                }
                                if after.contains(x) && x != w {
                                    let a = choose|a: int| 0 <= a < after.len() && after[a] == x;
                                    assert(changed_vertices[a] == x);
                                }
                            }
                            assert forall|x: usize, j: int|
                                new_costs.contains_key(x) && !dirty(vertices@, t + 1, after).contains(
                                    x,
                                ) && 0 <= j < m.out(x).len() && (x != v || j < k + 1) implies #[trigger] arc_relaxed(
                                m,
                                new_costs,
                                x,
                                j,
                            ) by {
                                if x == v && j == k {
                                } else {
                                    assert(arc_relaxed(m, old_costs, x, j));
                                }
                            }
                            if fresh {
                                assert(new_costs.dom().len() == old_costs.dom().len() + 1);
                            } else {
                                assert(new_costs.dom() =~= old_costs.dom());
                            }
                            assert forall|x: usize| #[trigger] new_costs.contains_key(x) implies {
                                &&& x != start ==> m.has_vertex(x)
                                &&& via.contains_key(x)
                                &&& m.has_vertex(start) ==> walk_between(m, via[x], start, x)
                                    && walk_weight(m, via[x]) == new_costs[x]
                                &&& depth.contains_key(x)
                                &&& depth[x] < new_costs.dom().len()
                                &&& new_costs[x] <= depth[x] * heaviest()
                            } by {
                                if x != w {
                                    assert(old_costs.contains_key(x));
                                } else if !fresh {
                                    assert(old_costs.contains_key(w));
                                } else {
                                    assert(depth[w] * heaviest() == old_depth[v] * heaviest()
                                        + heaviest()) by (nonlinear_arith)
                                        requires
                                            depth[w] == old_depth[v] + 1,
                                    ;
                                }
                            }
                        }
                        let ghost costs0 = costs@;
                        let ghost preds0 = predecessor@;
                        let ghost changed0 = changed_vertices@;
                        map_insert(&mut costs, w, new_cost);
                        map_insert(&mut predecessor, w, v);
                        changed_vertices.push(w);
                        proof {
                            assert forall|a: int| 0 <= a < changed_vertices.len() implies !before.contains_key(
                                #[trigger] changed_vertices[a],
                            ) || costs@[changed_vertices[a]] < before[changed_vertices[a]] by {
                                if a < changed0.len() {
                                    assert(changed_vertices[a] == changed0[a]);
                                    assert(costs0.contains_key(changed0[a]));
                                }
                                if before.contains_key(w) {
                                    assert(costs0.contains_key(w) && costs0[w] <= before[w]);
                                }
                            }
                            super::walks::lemma_arc_weight(m, v, k as int);
                            lemma_traced_update(m, start, costs0, preds0, stamp, clock, v, w, new_cost);
                            stamp = stamp.insert(w, clock);
                            clock = clock + 1;
                        }
                    } else {
                        proof {
                            assert(arc_relaxed(m, costs@, v, k as int));
                            lemma_pass_keep(m, before, costs@, vertices@, t + 1, v, k as int);
                        }
                    }
                    k += 1;
                }
                proof {
                    lemma_pass_done(m, before, costs@, vertices@, t + 1, v);
                }
                proof {
                    // The arcs of `v` have all been looked at.
                    assert forall|x: usize, j: int|
                        costs@.contains_key(x) && !dirty(
                            vertices@,
                            t + 1,
                            changed_vertices@,
                        ).contains(x) && 0 <= j < m.out(x).len() && (x != start || j < m.out(
                            start,
                        ).len()) implies #[trigger] arc_relaxed(m, costs@, x, j) by {}
                }
                t += 1;
            }
            if changed_vertices.len() == 0 {
                settled = true;
            } else if remaining == 1 {
                // As many passes as there are vertices, and still a cost changes.
                proof {
                    lemma_no_improvement(m, start, before, improved);
                }
                let first = changed_vertices[0];
                proof {
                    assert(m.has_vertex(start)) by {
                        assert(is_walk(m, improved));
                    }
                    assert forall|p: Seq<usize>|
                        #[trigger] is_walk(m, p) && p[0] == start && p.last() == first && p.len()
                            <= m.vertices.dom().len() implies walk_weight(m, p) > costs@[first] by {
                        assert(p.len() <= (n - 1) + 1);
                        assert(before.contains_key(p.last()) && before[p.last()] <= walk_weight(m, p));
                    }
                    lemma_endless(m, start, costs@, predecessor@, stamp, clock, first);
                    assert(predecessor@.dom().finite()) by {
                        reveal(traced);
                    }
                }
                let cycle = construct_negative_cycle(&predecessor, first);
                proof {
                    lemma_pred_cycle(m, start, costs@, predecessor@, stamp, clock, cycle@);
                    assert(is_walk(m, via[cycle[0]]));
                }
                return BellmanFordResult::NegativeCycle(cycle);
            }
            proof {
                assert(dirty(changed_vertices@, 0, Seq::<usize>::empty()) =~= dirty(
                    vertices@,
                    vertices.len() as int,
                    changed_vertices@,
                )) by {
                    assert forall|x: usize|
                        dirty(changed_vertices@, 0, Seq::<usize>::empty()).contains(x) <==> dirty(
                            vertices@,
                            vertices.len() as int,
                            changed_vertices@,
                        ).contains(x) by {
                        if changed_vertices@.contains(x) {
                            let a = choose|a: int|
                                0 <= a < changed_vertices.len() && changed_vertices[a] == x;
                            assert(changed_vertices[a] == x);
                        }
                    }
                }
            }
            proof {
                lemma_pass_end(m, start, before, costs@, vertices@, n - remaining);
            }
            vertices = changed_vertices;
            remaining -= 1;
        }
        proof {
            // Nothing is dirty: every arc of a found vertex is relaxed.
            assert forall|x: usize, j: int|
                costs@.contains_key(x) && 0 <= j < m.out(x).len() implies #[trigger] arc_relaxed(
                m,
                costs@,
                x,
                j,
            ) by {
                if settled {
                    assert(!dirty(vertices@, 0, Seq::<usize>::empty()).contains(x));
                } else {
                    // The graph has no vertex, and so no arc.
                    assert(m.arcs.dom().contains(x));
                    assert(m.vertices.dom().contains(x));
                    assert(m.vertices.dom().len() > 0) by {
                        vstd::set_lib::lemma_len_subset(set![x], m.vertices.dom());
                    }
                }
            }
            assert(tight(m, start, costs@, predecessor@)) by {
                reveal(traced);
                assert forall|x: usize| #[trigger] costs@.contains_key(x) && x != start implies {
                    &&& predecessor@.contains_key(x)
                    &&& costs@.contains_key(predecessor@[x])
                    &&& m.has_arc(predecessor@[x], x)
                    &&& costs@[x] == costs@[predecessor@[x]] + weight_at(m.arcs, (predecessor@[x], x))
                } by {
                    let u = predecessor@[x];
                    assert(predecessor@.contains_key(x));
                    let j = m.arc_index(u, x);
                    assert(m.arc_at(u, j, x));
                    super::walks::lemma_arc_weight(m, u, j);
                    assert(arc_relaxed(m, costs@, u, j));
                }
            }
            if !m.has_vertex(start) {
                assert(costs@.dom() =~= set![start]) by {
                    assert forall|x: usize| costs@.contains_key(x) implies x == start by {}
                }
            } else {
                assert forall|v: usize| #[trigger] costs@.contains_key(v) <==> reaches(m, start, v) by {
                    if reaches(m, start, v) {
                        let p = choose|p: Seq<usize>| #[trigger]
                            is_walk(m, p) && p[0] == start && p.last() == v;
                        lemma_relaxed_walk(m, costs@, p, p.len() - 1);
                    }
                    if costs@.contains_key(v) {
                        assert(is_walk(m, via[v]));
                    }
                }
                assert forall|v: usize| #[trigger] costs@.contains_key(v) implies is_distance(
                    m,
                    start,
                    v,
                    costs@[v] as int,
                ) by {
                    assert(walk_between(m, via[v], start, v));
                    assert forall|p: Seq<usize>| #[trigger]
                        walk_between(m, p, start, v) implies costs@[v] <= walk_weight(m, p) by {
                        lemma_relaxed_walk(m, costs@, p, p.len() - 1);
                        assert(p.take(p.len() as int) =~= p);
                    }
                }
            }
            assert forall|x: usize, p: Seq<usize>|
                reaches(m, start, x) && #[trigger] walk_between(m, p, x, x) implies walk_weight(m, p)
                >= 0 by {
                let q = choose|q: Seq<usize>| #[trigger] is_walk(m, q) && q[0] == start && q.last() == x;
                lemma_relaxed_walk(m, costs@, q, q.len() - 1);
                lemma_relaxed_walk(m, costs@, p, p.len() - 1);
                assert(p.take(p.len() as int) =~= p);
            }
            if m.has_vertex(start) {
                assert(no_negative_cycle(m, start));
                assert(costs@[start] == 0) by {
                    assert(walk_between(m, via[start], start, start));
                    assert(reaches(m, start, start));
                }
                assert forall|v: usize| #[trigger] costs@.contains_key(v) implies chain(
                    predecessor@,
                    start,
                    v,
                    predecessor@.dom().len(),
                ) is Some && walk_between(
                    m,
                    chain(predecessor@, start, v, predecessor@.dom().len())->Some_0,
                    start,
                    v,
                ) && walk_weight(m, chain(predecessor@, start, v, predecessor@.dom().len())->Some_0)
                    == costs@[v] by {
                    let q = lemma_path_found(m, start, costs@, predecessor@, stamp, clock, v);
                }
            }
        }
        BellmanFordResult::SPT(SingleSourceShortestPaths::new(start, costs, predecessor))
    }
}

} // verus!
