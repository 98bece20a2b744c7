use vstd::prelude::*;
use super::traits::{WeightedEdge, WithID};

verus! {

/// The arcs that leave `from` in a table of arcs; none where the table has no entry.
pub open spec fn out_of<E>(arcs: Map<usize, Seq<(usize, E)>>, from: usize) -> Seq<(usize, E)> {
    if arcs.dom().contains(from) {
        arcs[from]
    } else {
        Seq::empty()
    }
}

pub open spec fn arc_at_of<E>(arcs: Map<usize, Seq<(usize, E)>>, from: usize, i: int, to: usize) -> bool {
    0 <= i < out_of(arcs, from).len() && out_of(arcs, from)[i].0 == to
}

pub open spec fn has_arc_of<E>(arcs: Map<usize, Seq<(usize, E)>>, from: usize, to: usize) -> bool {
    exists|i: int| arc_at_of(arcs, from, i, to)
}

pub open spec fn arc_index_of<E>(arcs: Map<usize, Seq<(usize, E)>>, from: usize, to: usize) -> int {
    choose|i: int| arc_at_of(arcs, from, i, to)
}

pub open spec fn canonical_arcs_of<E>(arcs: Map<usize, Seq<(usize, E)>>, directed: bool) -> Set<
    (usize, usize),
> {
    Set::new(|a: (usize, usize)| has_arc_of(arcs, a.0, a.1) && (directed || a.0 <= a.1))
}

/// The payload of the arc `from -> to` in a table of arcs.
pub open spec fn edge_of<E>(arcs: Map<usize, Seq<(usize, E)>>, from: usize, to: usize) -> Option<E> {
    if has_arc_of(arcs, from, to) {
        Some(out_of(arcs, from)[arc_index_of(arcs, from, to)].1)
    } else {
        None
    }
}

/// No two arcs that leave one vertex have the same head.
pub open spec fn distinct_heads<E>(arcs: Map<usize, Seq<(usize, E)>>) -> bool {
    forall|u: usize, i: int, j: int|
        0 <= i < j < out_of(arcs, u).len() ==> #[trigger] out_of(arcs, u)[i].0
            != #[trigger] out_of(arcs, u)[j].0
}

/// The `i`-th arc that leaves `u` is the arc from `u` to its head.
pub proof fn lemma_edge_at<E>(arcs: Map<usize, Seq<(usize, E)>>, u: usize, i: int)
    requires
        distinct_heads(arcs),
        0 <= i < out_of(arcs, u).len(),
    ensures
        has_arc_of(arcs, u, out_of(arcs, u)[i].0),
        edge_of(arcs, u, out_of(arcs, u)[i].0) == Some(out_of(arcs, u)[i].1),
{
    let v = out_of(arcs, u)[i].0;
    assert(arc_at_of(arcs, u, i, v));
    let c = arc_index_of(arcs, u, v);
    assert(arc_at_of(arcs, u, c, v));
    if c < i {
        assert(out_of(arcs, u)[c].0 != out_of(arcs, u)[i].0);
    }
    if i < c {
        assert(out_of(arcs, u)[i].0 != out_of(arcs, u)[c].0);
    }
}

/// `after` is `before` with the arc `u -> v` added at position `k` among the arcs
/// that leave `u`.
pub open spec fn inserts_arc<E>(
    after: Map<usize, Seq<(usize, E)>>,
    before: Map<usize, Seq<(usize, E)>>,
    u: usize,
    k: int,
    v: usize,
    e: E,
) -> bool {
    &&& 0 <= k <= out_of(before, u).len()
    &&& out_of(after, u) == out_of(before, u).insert(k, (v, e))
    &&& forall|w: usize| w != u ==> #[trigger] out_of(after, w) == out_of(before, w)
}

/// The number of arcs of `row` whose heads are below `to`.
pub open spec fn heads_below<E>(row: Seq<(usize, E)>, to: usize) -> int
    decreases row.len(),
{
    if row.len() == 0 {
        0
    } else {
        heads_below(row.drop_last(), to) + (if row.last().0 < to {
            1int
        } else {
            0int
        })
    }
}

/// The arcs of `row` stand by ascending heads.
pub open spec fn by_heads<E>(row: Seq<(usize, E)>) -> bool {
    forall|i: int, j: int| 0 <= i < j < row.len() ==> (#[trigger] row[i]).0 < (#[trigger] row[j]).0
}

/// In a row that stands by ascending heads, a new arc stands behind the arcs whose
/// heads are below its own.
pub proof fn lemma_sorted_place<E>(row: Seq<(usize, E)>, k: int, to: usize, e: E)
    requires
        0 <= k <= row.len(),
        by_heads(row.insert(k, (to, e))),
    ensures
        heads_below(row, to) == k,
    decreases row.len(),
{
    let longer = row.insert(k, (to, e));
    if row.len() > 0 {
        let shorter = row.drop_last();
        let n = row.len() as int;
        if k == n {
            let less = shorter.insert(n - 1, (to, e));
            assert forall|i: int, j: int| 0 <= i < j < less.len() implies (#[trigger] less[i]).0 < (
            #[trigger] less[j]).0 by {
                if j < n - 1 {
                    assert(less[i] == longer[i] && less[j] == longer[j]);
                } else {
                    assert(less[i] == longer[i] && less[j] == longer[n]);
                }
            }
            lemma_sorted_place(shorter, n - 1, to, e);
            assert(longer[n - 1] == row.last() && longer[n] == (to, e));
            assert(longer[n - 1].0 < longer[n].0);
        } else {
            let less = shorter.insert(k, (to, e));
            assert(less =~= longer.drop_last());
            assert forall|i: int, j: int| 0 <= i < j < less.len() implies (#[trigger] less[i]).0 < (
            #[trigger] less[j]).0 by {
                assert(less[i] == longer[i] && less[j] == longer[j]);
            }
            lemma_sorted_place(shorter, k, to, e);
            assert(longer[k] == (to, e) && longer[n] == row.last());
            assert(longer[k].0 < longer[n].0);
        }
    }
}

/// A new arc `u -> v` adds this arc and changes no other.
pub proof fn lemma_inserts_arc<E>(
    after: Map<usize, Seq<(usize, E)>>,
    before: Map<usize, Seq<(usize, E)>>,
    u: usize,
    k: int,
    v: usize,
    e: E,
)
    requires
        distinct_heads(before),
        !has_arc_of(before, u, v),
        inserts_arc(after, before, u, k, v, e),
    ensures
        distinct_heads(after),
        forall|a: usize, b: usize| #[trigger]
            has_arc_of(after, a, b) <==> has_arc_of(before, a, b) || (a == u && b == v),
        forall|a: usize, b: usize|
            has_arc_of(before, a, b) ==> #[trigger] edge_of(after, a, b) == edge_of(before, a, b),
        edge_of(after, u, v) == Some(e),
{
    let s0 = out_of(before, u);
    let s1 = out_of(after, u);
    assert forall|i: int| 0 <= i < s0.len() implies (#[trigger] s0[i]).0 != v by {
        if s0[i].0 == v {
            assert(arc_at_of(before, u, i, v));
        }
    }
    assert forall|w: usize, i: int, j: int| 0 <= i < j < out_of(after, w).len() implies #[trigger] out_of(
        after,
        w,
    )[i].0 != #[trigger] out_of(after, w)[j].0 by {
        if w != u {
            assert(out_of(after, w) == out_of(before, w));
        } else {
            let i0 = if i < k {
                i
            } else {
                i - 1
            };
            let j0 = if j < k {
                j
            } else {
                j - 1
            };
            if i != k && j != k {
                assert(s1[i] == s0[i0] && s1[j] == s0[j0]);
                assert(s0[i0].0 != s0[j0].0);
            } else if i == k {
                assert(s1[j] == s0[j0]);
            } else {
                assert(s1[i] == s0[i0]);
            }
        }
    }
    assert forall|a: usize, b: usize| #[trigger]
        has_arc_of(after, a, b) <==> has_arc_of(before, a, b) || (a == u && b == v) by {
        if has_arc_of(before, a, b) {
            let i0 = arc_index_of(before, a, b);
            assert(arc_at_of(before, a, i0, b));
            if a != u {
                assert(out_of(after, a) == out_of(before, a));
                assert(arc_at_of(after, a, i0, b));
            } else {
                let i1 = if i0 < k {
                    i0
                } else {
                    i0 + 1
                };
                assert(s1[i1] == s0[i0]);
                assert(arc_at_of(after, a, i1, b));
            }
        }
        if a == u && b == v {
            assert(arc_at_of(after, u, k, v));
        }
        if has_arc_of(after, a, b) && !(a == u && b == v) {
            let i1 = arc_index_of(after, a, b);
            assert(arc_at_of(after, a, i1, b));
            if a != u {
                assert(out_of(after, a) == out_of(before, a));
                assert(arc_at_of(before, a, i1, b));
            } else {
                let i0 = if i1 < k {
                    i1
                } else {
                    i1 - 1
                };
                assert(s1[i1] == s0[i0]);
                assert(arc_at_of(before, a, i0, b));
            }
        }
    }
    assert forall|a: usize, b: usize| has_arc_of(before, a, b) implies #[trigger] edge_of(after, a, b)
        == edge_of(before, a, b) by {
        let i0 = arc_index_of(before, a, b);
        assert(arc_at_of(before, a, i0, b));
        lemma_edge_at(before, a, i0);
        if a != u {
            assert(out_of(after, a) == out_of(before, a));
            lemma_edge_at(after, a, i0);
        } else {
            let i1 = if i0 < k {
                i0
            } else {
                i0 + 1
            };
            assert(s1[i1] == s0[i0]);
            lemma_edge_at(after, a, i1);
        }
    }
    assert(s1[k] == (v, e));
    lemma_edge_at(after, u, k);
}

/// The mathematical content of a graph: its vertices by id and, for each vertex,
/// the arcs that leave it, in the order in which the graph enumerates them.
pub struct GraphModel<V, E> {
    pub vertices: Map<usize, V>,
    pub arcs: Map<usize, Seq<(usize, E)>>,
    pub directed: bool,
}

impl<V: WithID, E> GraphModel<V, E> {
    /// The graph without vertices.
    pub open spec fn empty(directed: bool) -> Self {
        GraphModel { vertices: Map::empty(), arcs: Map::empty(), directed }
    }

    pub open spec fn has_vertex(self, id: usize) -> bool {
        self.vertices.dom().contains(id)
    }

    /// The arcs that leave `from`; none where `from` is no vertex.
    pub open spec fn out(self, from: usize) -> Seq<(usize, E)> {
        out_of(self.arcs, from)
    }

    /// `to` is the head of the `i`-th arc that leaves `from`.
    pub open spec fn arc_at(self, from: usize, i: int, to: usize) -> bool {
        arc_at_of(self.arcs, from, i, to)
    }

    pub open spec fn has_arc(self, from: usize, to: usize) -> bool {
        has_arc_of(self.arcs, from, to)
    }

    /// The position of the arc `from -> to` among the arcs that leave `from`.
    pub open spec fn arc_index(self, from: usize, to: usize) -> int {
        arc_index_of(self.arcs, from, to)
    }

    /// The payload of the arc `from -> to`.
    pub open spec fn edge(self, from: usize, to: usize) -> Option<E> {
        edge_of(self.arcs, from, to)
    }

    /// The arcs that stand for the graph's edges: every arc of a directed graph,
    /// and of an undirected one the arc of each pair that runs from the smaller id.
    pub open spec fn canonical_arcs(self) -> Set<(usize, usize)> {
        canonical_arcs_of(self.arcs, self.directed)
    }

    /// What every graph of this library satisfies.
    pub open spec fn valid(self) -> bool {
        &&& self.vertices.dom().finite()
        &&& self.canonical_arcs().finite()
        &&& self.arcs.dom() == self.vertices.dom()
        &&& forall|id: usize| #[trigger]
            self.vertices.dom().contains(id) ==> self.vertices[id].spec_id() == id
        &&& forall|from: usize, i: int|
            0 <= i < self.out(from).len() ==> self.has_vertex(#[trigger] self.out(from)[i].0)
        &&& distinct_heads(self.arcs)
        &&& !self.directed ==> forall|from: usize, i: int|
            0 <= i < self.out(from).len() ==> {
                let arc = #[trigger] self.out(from)[i];
                arc.0 != from && self.edge(arc.0, from) == Some(arc.1)
            }
    }

    /// The number of edges.
    pub open spec fn edge_count(self) -> nat {
        self.canonical_arcs().len()
    }

    /// Whether an edge from `from` to `to` can come in.
    pub open spec fn accepts_edge(self, from: usize, to: usize) -> bool {
        &&& self.has_vertex(from)
        &&& self.has_vertex(to)
        &&& !self.has_arc(from, to)
        &&& (self.directed || from != to)
        &&& self.edge_count() < usize::MAX
    }

    /// `self` is `before` with the arc `from -> to` added somewhere among the arcs
    /// that leave `from`.
    pub open spec fn adds_arc(self, before: Self, from: usize, to: usize, e: E) -> bool {
        &&& self.vertices == before.vertices
        &&& self.directed == before.directed
        &&& self.arcs.dom() == before.arcs.dom()
        &&& exists|k: int| #[trigger] inserts_arc(self.arcs, before.arcs, from, k, to, e)
    }

    /// `self` is `before` with the edge `from -> to` added: one arc in a directed
    /// graph, the arc and its reverse in an undirected one.
    pub open spec fn adds_edge(self, before: Self, from: usize, to: usize, e: E) -> bool {
        if before.directed {
            self.adds_arc(before, from, to, e)
        } else {
            exists|mid: Self| #[trigger]
                mid.adds_arc(before, from, to, e) && self.adds_arc(mid, to, from, e)
        }
    }

    /// What an edge that has come in changes: its arc is there, its reverse too in an
    /// undirected graph, every other arc is as it was, and the edges are one more.
    pub proof fn lemma_adds_edge(self, before: Self, from: usize, to: usize, e: E)
        requires
            before.valid(),
            !before.has_arc(from, to),
            before.directed || from != to,
            self.adds_edge(before, from, to, e),
        ensures
            self.vertices == before.vertices,
            self.directed == before.directed,
            forall|a: usize, b: usize| #[trigger]
                self.has_arc(a, b) <==> before.has_arc(a, b) || (a == from && b == to) || (
                !self.directed && a == to && b == from),
            forall|a: usize, b: usize|
                before.has_arc(a, b) ==> #[trigger] self.edge(a, b) == before.edge(a, b),
            self.edge(from, to) == Some(e),
            !self.directed ==> self.edge(to, from) == Some(e),
            self.canonical_arcs() == before.canonical_arcs().insert(
                if self.directed || from <= to {
                    (from, to)
                } else {
                    (to, from)
                },
            ),
            self.edge_count() == before.edge_count() + 1,
    {
        assert(!before.has_arc(to, from) || before.directed) by {
            if before.has_arc(to, from) && !before.directed {
                let i = before.arc_index(to, from);
                assert(before.arc_at(to, i, from));
                assert(before.edge(before.out(to)[i].0, to) is Some);
            }
        }
        let key = if before.directed || from <= to {
            (from, to)
        } else {
            (to, from)
        };
        if before.directed {
            let k = choose|k: int| #[trigger] inserts_arc(self.arcs, before.arcs, from, k, to, e);
            lemma_inserts_arc(self.arcs, before.arcs, from, k, to, e);
        } else {
            let mid = choose|mid: Self| #[trigger]
                mid.adds_arc(before, from, to, e) && self.adds_arc(mid, to, from, e);
            let k = choose|k: int| #[trigger] inserts_arc(mid.arcs, before.arcs, from, k, to, e);
            lemma_inserts_arc(mid.arcs, before.arcs, from, k, to, e);
            let k2 = choose|k: int| #[trigger] inserts_arc(self.arcs, mid.arcs, to, k, from, e);
            assert(!has_arc_of(mid.arcs, to, from)) by {
                if before.has_arc(to, from) {
                    let i = before.arc_index(to, from);
                    assert(before.arc_at(to, i, from));
                    assert(before.edge(before.out(to)[i].0, to) is Some);
                }
            }
            lemma_inserts_arc(self.arcs, mid.arcs, to, k2, from, e);
            assert(has_arc_of(mid.arcs, from, to));
        }
        assert(self.canonical_arcs() =~= before.canonical_arcs().insert(key)) by {
            assert forall|p: (usize, usize)|
                self.canonical_arcs().contains(p) <==> before.canonical_arcs().insert(key).contains(
                    p,
                ) by {
                assert(self.has_arc(p.0, p.1) <==> before.has_arc(p.0, p.1) || (p.0 == from && p.1
                    == to) || (!self.directed && p.0 == to && p.1 == from));
            }
        }
    }

    /// A new vertex changes no arc.
    pub proof fn lemma_with_vertex(self, v: V)
        requires
            self.valid(),
            !self.has_vertex(v.spec_id()),
        ensures
            forall|a: usize, b: usize| #[trigger]
                self.with_vertex(v).has_arc(a, b) == self.has_arc(a, b),
            forall|a: usize, b: usize| #[trigger]
                self.with_vertex(v).edge(a, b) == self.edge(a, b),
            forall|a: usize| #[trigger] self.with_vertex(v).out(a) == self.out(a),
            self.with_vertex(v).canonical_arcs() == self.canonical_arcs(),
            self.with_vertex(v).vertices.dom().len() == self.vertices.dom().len() + 1,
    {
        let after = self.with_vertex(v);
        assert forall|a: usize| #[trigger] out_of(after.arcs, a) == out_of(self.arcs, a) by {}
        lemma_same_out(after.arcs, self.arcs, self.directed);
    }

    /// A valid graph is valid after an edge between two of its vertices has come in.
    pub proof fn lemma_adds_edge_valid(self, before: Self, from: usize, to: usize, e: E)
        requires
            before.valid(),
            before.has_vertex(from),
            before.has_vertex(to),
            !before.has_arc(from, to),
            before.directed || from != to,
            self.adds_edge(before, from, to, e),
        ensures
            self.valid(),
    {
        self.lemma_adds_edge(before, from, to, e);
        if before.directed {
            let k = choose|k: int| #[trigger] inserts_arc(self.arcs, before.arcs, from, k, to, e);
            lemma_inserts_arc(self.arcs, before.arcs, from, k, to, e);
        } else {
            let mid = choose|mid: Self| #[trigger]
                mid.adds_arc(before, from, to, e) && self.adds_arc(mid, to, from, e);
            let k = choose|k: int| #[trigger] inserts_arc(mid.arcs, before.arcs, from, k, to, e);
            lemma_inserts_arc(mid.arcs, before.arcs, from, k, to, e);
            let k2 = choose|k: int| #[trigger] inserts_arc(self.arcs, mid.arcs, to, k, from, e);
            assert(!has_arc_of(mid.arcs, to, from)) by {
                if before.has_arc(to, from) {
                    let i = before.arc_index(to, from);
                    assert(before.arc_at(to, i, from));
                    assert(before.edge(before.out(to)[i].0, to) is Some);
                }
            }
            lemma_inserts_arc(self.arcs, mid.arcs, to, k2, from, e);
        }
        assert forall|u: usize, i: int| 0 <= i < self.out(u).len() implies self.has_vertex(
            #[trigger] self.out(u)[i].0,
        ) && (!self.directed ==> self.out(u)[i].0 != u && self.edge(self.out(u)[i].0, u) == Some(
            self.out(u)[i].1,
        )) by {
            let w = self.out(u)[i].0;
            lemma_edge_at(self.arcs, u, i);
            if before.has_arc(u, w) {
                let i0 = before.arc_index(u, w);
                assert(before.arc_at(u, i0, w));
                lemma_edge_at(before.arcs, u, i0);
                assert(before.has_vertex(before.out(u)[i0].0));
                assert(self.edge(u, w) == before.edge(u, w));
                if !before.directed {
                    let arc = before.out(u)[i0];
                    assert(arc.0 != u && before.edge(arc.0, u) == Some(arc.1));
                    assert(before.has_arc(w, u));
                    assert(self.edge(w, u) == before.edge(w, u));
                }
            }
        }
    }

    /// Whether the arc `u -> head` belongs to the edge from `from` to `to`: it is
    /// that arc, or its reverse in an undirected graph.
    pub open spec fn belongs(self, u: usize, head: usize, from: usize, to: usize) -> bool {
        (u == from && head == to) || (!self.directed && u == to && head == from)
    }

    /// The model with another payload for the edge from `from` to `to`, if there is
    /// such an edge.
    pub open spec fn with_edge_payload(self, from: usize, to: usize, e: E) -> Self {
        GraphModel {
            vertices: self.vertices,
            arcs: Map::new(
                |u: usize| self.arcs.dom().contains(u),
                |u: usize|
                    Seq::new(
                        self.arcs[u].len(),
                        |i: int|
                            (
                                self.arcs[u][i].0,
                                if self.belongs(u, self.arcs[u][i].0, from, to) {
                                    e
                                } else {
                                    self.arcs[u][i].1
                                },
                            ),
                    ),
            ),
            directed: self.directed,
        }
    }

    /// Another payload for an edge changes the payload of its arcs and nothing else.
    pub proof fn lemma_with_edge_payload(self, from: usize, to: usize, e: E)
        requires
            self.valid(),
        ensures
            self.with_edge_payload(from, to, e).valid(),
            self.with_edge_payload(from, to, e).canonical_arcs() == self.canonical_arcs(),
            forall|u: usize| #[trigger]
                self.with_edge_payload(from, to, e).out(u).len() == self.out(u).len(),
            forall|u: usize, i: int|
                0 <= i < self.out(u).len() ==> (#[trigger] self.with_edge_payload(from, to, e).out(
                    u,
                )[i]).0 == self.out(u)[i].0,
            forall|a: usize, b: usize| #[trigger]
                self.with_edge_payload(from, to, e).has_arc(a, b) == self.has_arc(a, b),
            forall|a: usize, b: usize| #[trigger]
                self.with_edge_payload(from, to, e).edge(a, b) == (if self.has_arc(a, b)
                    && self.belongs(a, b, from, to) {
                    Some(e)
                } else {
                    self.edge(a, b)
                }),
    {
        let after = self.with_edge_payload(from, to, e);
        assert(after.arcs.dom() =~= self.arcs.dom());
        assert forall|u: usize| #[trigger] after.out(u).len() == self.out(u).len() by {}
        assert forall|u: usize, i: int| 0 <= i < self.out(u).len() implies (#[trigger] after.out(
            u,
        )[i]).0 == self.out(u)[i].0 by {}
        assert forall|a: usize, b: usize| #[trigger] after.has_arc(a, b) == self.has_arc(a, b) by {
            if self.has_arc(a, b) {
                let i = self.arc_index(a, b);
                assert(self.arc_at(a, i, b));
                assert(after.out(a)[i].0 == self.out(a)[i].0);
                assert(after.arc_at(a, i, b));
            }
            if after.has_arc(a, b) {
                let i = after.arc_index(a, b);
                assert(after.arc_at(a, i, b));
                assert(after.out(a)[i].0 == self.out(a)[i].0);
                assert(self.arc_at(a, i, b));
            }
        }
        assert(distinct_heads(after.arcs)) by {
            assert forall|u: usize, i: int, j: int|
                0 <= i < j < out_of(after.arcs, u).len() implies #[trigger] out_of(after.arcs, u)[i].0
                != #[trigger] out_of(after.arcs, u)[j].0 by {
                assert(after.out(u)[i].0 == self.out(u)[i].0);
                assert(after.out(u)[j].0 == self.out(u)[j].0);
                assert(out_of(self.arcs, u)[i].0 != out_of(self.arcs, u)[j].0);
            }
        }
        assert forall|a: usize, b: usize| #[trigger] after.edge(a, b) == (if self.has_arc(a, b)
            && self.belongs(a, b, from, to) {
            Some(e)
        } else {
            self.edge(a, b)
        }) by {
            assert(after.has_arc(a, b) == self.has_arc(a, b));
            if self.has_arc(a, b) {
                let i = self.arc_index(a, b);
                assert(self.arc_at(a, i, b));
                assert(self.arcs.dom().contains(a));
                assert(after.out(a)[i] == (
                    self.arcs[a][i].0,
                    if self.belongs(a, self.arcs[a][i].0, from, to) {
                        e
                    } else {
                        self.arcs[a][i].1
                    },
                ));
                lemma_edge_at(self.arcs, a, i);
                lemma_edge_at(after.arcs, a, i);
            }
        }
        assert forall|p: (usize, usize)|
            after.canonical_arcs().contains(p) <==> self.canonical_arcs().contains(p) by {
            assert(after.has_arc(p.0, p.1) == self.has_arc(p.0, p.1));
        }
        assert(after.canonical_arcs() =~= self.canonical_arcs());
        assert forall|u: usize, i: int| 0 <= i < after.out(u).len() implies after.has_vertex(
            #[trigger] after.out(u)[i].0,
        ) by {
            assert(after.out(u)[i].0 == self.out(u)[i].0);
            assert(self.has_vertex(self.out(u)[i].0));
        }
        if !self.directed {
            assert forall|u: usize, i: int| 0 <= i < after.out(u).len() implies {
                let arc = #[trigger] after.out(u)[i];
                arc.0 != u && after.edge(arc.0, u) == Some(arc.1)
            } by {
                let old_arc = self.out(u)[i];
                assert(after.out(u)[i].0 == old_arc.0);
                assert(old_arc.0 != u && self.edge(old_arc.0, u) == Some(old_arc.1));
                assert(self.has_arc(old_arc.0, u));
                assert(after.edge(old_arc.0, u) == (if self.has_arc(old_arc.0, u) && self.belongs(
                    old_arc.0,
                    u,
                    from,
                    to,
                ) {
                    Some(e)
                } else {
                    self.edge(old_arc.0, u)
                }));
            }
        }
    }

    /// The model with another payload for the vertex `id`.
    pub open spec fn with_payload(self, id: usize, v: V) -> Self {
        GraphModel { vertices: self.vertices.insert(id, v), arcs: self.arcs, directed: self.directed }
    }

    /// The model after a vertex without arcs has come in.
    pub open spec fn with_vertex(self, v: V) -> Self {
        GraphModel {
            vertices: self.vertices.insert(v.spec_id(), v),
            arcs: self.arcs.insert(v.spec_id(), Seq::empty()),
            directed: self.directed,
        }
    }
}

/// Two tables of arcs in which the same arcs leave each vertex hold the same arcs.
pub proof fn lemma_same_out<E>(
    a: Map<usize, Seq<(usize, E)>>,
    b: Map<usize, Seq<(usize, E)>>,
    directed: bool,
)
    requires
        forall|u: usize| #[trigger] out_of(a, u) == out_of(b, u),
    ensures
        forall|u: usize, v: usize| #[trigger] has_arc_of(a, u, v) == has_arc_of(b, u, v),
        canonical_arcs_of(a, directed) == canonical_arcs_of(b, directed),
        distinct_heads(b) ==> distinct_heads(a),
        distinct_heads(b) ==> forall|u: usize, v: usize| #[trigger]
            edge_of(a, u, v) == edge_of(b, u, v),
{
    if distinct_heads(b) {
        assert forall|u: usize, i: int, j: int| 0 <= i < j < out_of(a, u).len() implies #[trigger] out_of(
            a,
            u,
        )[i].0 != #[trigger] out_of(a, u)[j].0 by {
            assert(out_of(a, u) == out_of(b, u));
        }
        assert forall|u: usize, v: usize| #[trigger] edge_of(a, u, v) == edge_of(b, u, v) by {
            assert(out_of(a, u) == out_of(b, u));
            if has_arc_of(a, u, v) {
                let i = arc_index_of(a, u, v);
                assert(arc_at_of(a, u, i, v));
                assert(arc_at_of(b, u, i, v));
                lemma_edge_at(a, u, i);
                lemma_edge_at(b, u, i);
            }
            if has_arc_of(b, u, v) {
                let i = arc_index_of(b, u, v);
                assert(arc_at_of(b, u, i, v));
                assert(arc_at_of(a, u, i, v));
            }
        }
    }
    assert forall|u: usize, v: usize| #[trigger] has_arc_of(a, u, v) == has_arc_of(b, u, v) by {
        assert(out_of(a, u) == out_of(b, u));
        if has_arc_of(a, u, v) {
            let i = arc_index_of(a, u, v);
            assert(arc_at_of(b, u, i, v));
        }
        if has_arc_of(b, u, v) {
            let i = arc_index_of(b, u, v);
            assert(arc_at_of(a, u, i, v));
        }
    }
    assert(canonical_arcs_of(a, directed) =~= canonical_arcs_of(b, directed));
}

/// The weight of the arc `a.0 -> a.1` in a table of arcs; 0 where there is none.
pub open spec fn weight_at<E: WeightedEdge>(arcs: Map<usize, Seq<(usize, E)>>, a: (usize, usize)) -> int {
    match edge_of(arcs, a.0, a.1) {
        Some(e) => e.spec_weight() as int,
        None => 0,
    }
}

/// The sum of the weights of the arcs in a finite set.
pub open spec fn set_weight<E: WeightedEdge>(
    arcs: Map<usize, Seq<(usize, E)>>,
    s: Set<(usize, usize)>,
) -> int
    decreases s.len(),
    when s.finite()
{
    if s.len() == 0 {
        0
    } else {
        let a = s.choose();
        weight_at(arcs, a) + set_weight(arcs, s.remove(a))
    }
}

/// The sum of the weights of the arcs in a sequence.
pub open spec fn seq_weight<E: WeightedEdge>(
    arcs: Map<usize, Seq<(usize, E)>>,
    l: Seq<(usize, usize)>,
) -> int
    decreases l.len(),
{
    if l.len() == 0 {
        0
    } else {
        seq_weight(arcs, l.drop_last()) + weight_at(arcs, l.last())
    }
}

/// The sum over `n` arcs is at most `n` times the largest weight.
pub proof fn lemma_seq_weight_bound<E: WeightedEdge>(
    arcs: Map<usize, Seq<(usize, E)>>,
    l: Seq<(usize, usize)>,
)
    ensures
        -l.len() * 0x8000_0000_0000_0000 <= seq_weight(arcs, l) <= l.len() * 0x8000_0000_0000_0000,
    decreases l.len(),
{
    if l.len() > 0 {
        lemma_seq_weight_bound(arcs, l.drop_last());
    }
}

/// The sum over a sequence is the weight of any one of its arcs plus the sum over
/// the others.
pub proof fn lemma_seq_weight_remove<E: WeightedEdge>(
    arcs: Map<usize, Seq<(usize, E)>>,
    l: Seq<(usize, usize)>,
    k: int,
)
    requires
        0 <= k < l.len(),
    ensures
        seq_weight(arcs, l) == weight_at(arcs, l[k]) + seq_weight(arcs, l.remove(k)),
    decreases l.len(),
{
    if k == l.len() - 1 {
        assert(l.remove(k) =~= l.drop_last());
    } else {
        lemma_seq_weight_remove(arcs, l.drop_last(), k);
        assert(l.remove(k).drop_last() =~= l.drop_last().remove(k));
        assert(l.remove(k).last() == l.last());
    }
}

/// The sum over a sequence that lists a set, each member once, is the sum over the
/// set: the order of a listing does not matter.
pub proof fn lemma_listing_weight<E: WeightedEdge>(
    arcs: Map<usize, Seq<(usize, E)>>,
    l: Seq<(usize, usize)>,
    s: Set<(usize, usize)>,
)
    requires
        l.no_duplicates(),
        forall|i: int| 0 <= i < l.len() ==> s.contains(#[trigger] l[i]),
        forall|a: (usize, usize)| s.contains(a) ==> l.contains(a),
    ensures
        seq_weight(arcs, l) == set_weight(arcs, s),
    decreases l.len(),
{
    lemma_listing_len(l, s);
    if l.len() > 0 {
        assert(s.contains(l[0]));
        let a = s.choose();
        assert(l.contains(a));
        let k = choose|k: int| 0 <= k < l.len() && l[k] == a;
        let rest = l.remove(k);
        assert forall|i: int| 0 <= i < rest.len() implies s.remove(a).contains(
            #[trigger] rest[i],
        ) by {
            if i < k {
                assert(rest[i] == l[i]);
            } else {
                assert(rest[i] == l[i + 1]);
            }
        }
        assert forall|b: (usize, usize)| s.remove(a).contains(b) implies rest.contains(b) by {
            let j = choose|j: int| 0 <= j < l.len() && l[j] == b;
            if j < k {
                assert(rest[j] == b);
            } else {
                assert(rest[j - 1] == b);
            }
        }
        assert(rest.no_duplicates()) by {
            assert forall|i: int, j: int| 0 <= i < rest.len() && 0 <= j < rest.len() && i
                != j implies rest[i] != rest[j] by {
                let i0 = if i < k {
                    i
                } else {
                    i + 1
                };
                let j0 = if j < k {
                    j
                } else {
                    j + 1
                };
                assert(rest[i] == l[i0] && rest[j] == l[j0]);
            }
        }
        lemma_listing_weight(arcs, rest, s.remove(a));
        lemma_seq_weight_remove(arcs, l, k);
    }
}

/// The ids below `n` are `n` in number.
pub proof fn lemma_ids_below(n: usize)
    ensures
        Set::new(|id: usize| id < n).finite(),
        Set::new(|id: usize| id < n).len() == n,
    decreases n,
{
    let s = Set::new(|id: usize| id < n);
    if n == 0 {
        assert(s =~= Set::empty());
    } else {
        let m = (n - 1) as usize;
        lemma_ids_below(m);
        assert(s =~= Set::new(|id: usize| id < m).insert(m));
    }
}

/// A sequence that lists the members of a set, each once, is as long as the set is
/// large.
pub proof fn lemma_listing_len<A>(listing: Seq<A>, s: Set<A>)
    requires
        listing.no_duplicates(),
        forall|i: int| 0 <= i < listing.len() ==> s.contains(#[trigger] listing[i]),
        forall|a: A| s.contains(a) ==> listing.contains(a),
    ensures
        s.finite(),
        s.len() == listing.len(),
{
    listing.unique_seq_to_set();
    vstd::seq_lib::seq_to_set_is_finite(listing);
    assert(listing.to_set() =~= s);
}

impl<V: WithID, E: WeightedEdge> GraphModel<V, E> {
    /// The sum of the weights of the edges.
    pub open spec fn total_weight(self) -> int {
        set_weight(self.arcs, self.canonical_arcs())
    }
}

} // verus!
