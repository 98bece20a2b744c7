use vstd::prelude::*;
use std::marker::PhantomData;
use rustc_hash::FxHashMap;
use crate::fx::{map_contains_key, map_entries, map_get, map_get_mut, map_insert, map_len, map_new, map_with_capacity};
use super::direction::{Directed, Direction, Undirected};
use super::error::GraphError;
use super::model::{
    arc_at_of, inserts_arc, lemma_edge_at, lemma_listing_len, lemma_same_out, out_of, GraphModel,
};
use super::traits::{
    lists_edges, lists_vertices, weight_of_listing, GraphBase, WeightedEdge, WithID,
};

verus! {

/// The arcs that the adjacency lists of a graph with these vertices stand for.
pub open spec fn list_arcs<V, E>(
    vertices: Map<usize, V>,
    adjacency: Map<usize, Vec<(usize, E)>>,
) -> Map<usize, Seq<(usize, E)>> {
    Map::new(
        |id: usize| vertices.contains_key(id),
        |id: usize|
            if adjacency.contains_key(id) {
                adjacency[id]@
            } else {
                Seq::empty()
            },
    )
}

/// The graph that a table of vertices and their adjacency lists stand for.
pub open spec fn list_model<V: WithID, E>(
    vertices: Map<usize, V>,
    adjacency: Map<usize, Vec<(usize, E)>>,
    directed: bool,
) -> GraphModel<V, E> {
    GraphModel { vertices, arcs: list_arcs(vertices, adjacency), directed }
}

/// The position `(x, y)`, entry and place in its list, comes before `(ei, li)`.
pub open spec fn position_before(x: int, y: int, ei: int, li: int) -> bool {
    x < ei || (x == ei && y < li)
}

/// `r` lists, each once, the edges at the positions before `(ei, li)`; `pos` holds
/// the position that each of them was taken from.
pub open spec fn arcs_listed_until<E>(
    r: Seq<(usize, usize, &E)>,
    pos: Seq<(int, int)>,
    entries: Seq<(usize, &Vec<(usize, E)>)>,
    directed: bool,
    ei: int,
    li: int,
) -> bool {
    &&& pos.len() == r.len()
    &&& forall|k: int|
        0 <= k < r.len() ==> {
            let p = #[trigger] pos[k];
            &&& 0 <= p.0 < entries.len()
            &&& 0 <= p.1 < entries[p.0].1@.len()
            &&& position_before(p.0, p.1, ei, li)
            &&& r[k].0 == entries[p.0].0
            &&& r[k].1 == entries[p.0].1@[p.1].0
            &&& *r[k].2 == entries[p.0].1@[p.1].1
            &&& (directed || r[k].0 <= r[k].1)
        }
    &&& forall|x: int, y: int|
        0 <= x < entries.len() && 0 <= y < entries[x].1@.len() && #[trigger] position_before(
            x,
            y,
            ei,
            li,
        ) && (directed || entries[x].0 <= entries[x].1@[y].0) ==> pos.contains((x, y))
    &&& forall|k: int, l: int| 0 <= k < l < pos.len() ==> #[trigger] pos[k] != #[trigger] pos[l]
}

/// A position that holds no edge to list can be passed over.
pub proof fn lemma_arcs_skip<E>(
    r: Seq<(usize, usize, &E)>,
    pos: Seq<(int, int)>,
    entries: Seq<(usize, &Vec<(usize, E)>)>,
    directed: bool,
    ei: int,
    li: int,
)
    requires
        arcs_listed_until(r, pos, entries, directed, ei, li),
        0 <= ei < entries.len(),
        0 <= li < entries[ei].1@.len(),
        !(directed || entries[ei].0 <= entries[ei].1@[li].0),
    ensures
        arcs_listed_until(r, pos, entries, directed, ei, li + 1),
{
    assert forall|x: int, y: int|
        0 <= x < entries.len() && 0 <= y < entries[x].1@.len() && #[trigger] position_before(
            x,
            y,
            ei,
            li + 1,
        ) && (directed || entries[x].0 <= entries[x].1@[y].0) implies pos.contains((x, y)) by {
        assert(position_before(x, y, ei, li));
    }
    assert forall|k: int| 0 <= k < r.len() implies position_before(
        (#[trigger] pos[k]).0,
        pos[k].1,
        ei,
        li + 1,
    ) by {
        assert(position_before(pos[k].0, pos[k].1, ei, li));
    }
}

/// After the last position of a list comes the first of the next.
pub proof fn lemma_arcs_row<E>(
    r: Seq<(usize, usize, &E)>,
    pos: Seq<(int, int)>,
    entries: Seq<(usize, &Vec<(usize, E)>)>,
    directed: bool,
    ei: int,
)
    requires
        arcs_listed_until(r, pos, entries, directed, ei, entries[ei].1@.len() as int),
        0 <= ei < entries.len(),
    ensures
        arcs_listed_until(r, pos, entries, directed, ei + 1, 0),
{
    let li = entries[ei].1@.len() as int;
    assert forall|x: int, y: int|
        0 <= x < entries.len() && 0 <= y < entries[x].1@.len() && #[trigger] position_before(
            x,
            y,
            ei + 1,
            0,
        ) && (directed || entries[x].0 <= entries[x].1@[y].0) implies pos.contains((x, y)) by {
        assert(position_before(x, y, ei, li));
    }
    assert forall|k: int| 0 <= k < r.len() implies position_before(
        (#[trigger] pos[k]).0,
        pos[k].1,
        ei + 1,
        0,
    ) by {
        assert(position_before(pos[k].0, pos[k].1, ei, li));
    }
}

/// The edge at the position that is reached joins the list.
pub proof fn lemma_arcs_push<E>(
    r: Seq<(usize, usize, &E)>,
    pos: Seq<(int, int)>,
    entries: Seq<(usize, &Vec<(usize, E)>)>,
    directed: bool,
    ei: int,
    li: int,
    e: &E,
)
    requires
        arcs_listed_until(r, pos, entries, directed, ei, li),
        0 <= ei < entries.len(),
        0 <= li < entries[ei].1@.len(),
        *e == entries[ei].1@[li].1,
        directed || entries[ei].0 <= entries[ei].1@[li].0,
    ensures
        arcs_listed_until(
            r.push((entries[ei].0, entries[ei].1@[li].0, e)),
            pos.push((ei, li)),
            entries,
            directed,
            ei,
            li + 1,
        ),
{
    let r1 = r.push((entries[ei].0, entries[ei].1@[li].0, e));
    let pos1 = pos.push((ei, li));
    assert forall|k: int| 0 <= k < r1.len() implies {
        let p = #[trigger] pos1[k];
        &&& 0 <= p.0 < entries.len()
        &&& 0 <= p.1 < entries[p.0].1@.len()
        &&& position_before(p.0, p.1, ei, li + 1)
        &&& r1[k].0 == entries[p.0].0
        &&& r1[k].1 == entries[p.0].1@[p.1].0
        &&& *r1[k].2 == entries[p.0].1@[p.1].1
        &&& (directed || r1[k].0 <= r1[k].1)
    } by {
        if k < r.len() {
            assert(pos1[k] == pos[k] && r1[k] == r[k]);
            assert(position_before(pos[k].0, pos[k].1, ei, li));
        }
    }
    assert forall|x: int, y: int|
        0 <= x < entries.len() && 0 <= y < entries[x].1@.len() && #[trigger] position_before(
            x,
            y,
            ei,
            li + 1,
        ) && (directed || entries[x].0 <= entries[x].1@[y].0) implies pos1.contains((x, y)) by {
        if position_before(x, y, ei, li) {
            assert(pos.contains((x, y)));
            let k = choose|k: int| 0 <= k < pos.len() && pos[k] == (x, y);
            assert(pos1[k] == (x, y));
        } else {
            assert(pos1[pos.len() as int] == (x, y));
        }
    }
    assert forall|k: int, l: int| 0 <= k < l < pos1.len() implies #[trigger] pos1[k]
        != #[trigger] pos1[l] by {
        assert(pos1[k] == pos[k]);
        assert(position_before(pos[k].0, pos[k].1, ei, li));
        if l < pos.len() {
            assert(pos1[l] == pos[l]);
        }
    }
}

/// A graph as a table of vertices by id and, for each vertex, the list of the arcs
/// that leave it, in the order in which they came in.
#[derive(Debug)]
pub struct AdjacencyListGraph<Vertex: WithID, Edge, Dir: Direction> {
    vertices: FxHashMap<usize, Vertex>,
    adjacency: FxHashMap<usize, Vec<(usize, Edge)>>,
    edge_total: usize,
    _phantom: PhantomData<Dir>,
}

impl<Vertex: WithID, Edge: Copy, Dir: Direction> AdjacencyListGraph<Vertex, Edge, Dir> {
    /// The graph that this value stands for.
    pub closed spec fn spec_model(&self) -> GraphModel<Vertex, Edge> {
        list_model(self.vertices@, self.adjacency@, Dir::directed())
    }

    /// The representation invariant.
    pub closed spec fn spec_wf(&self) -> bool {
        &&& self.spec_model().valid()
        &&& forall|id: usize| #[trigger]
            self.adjacency@.contains_key(id) ==> self.vertices@.contains_key(id)
        &&& self.edge_total == self.spec_model().canonical_arcs().len()
    }

    /// A well-formed value stands for a valid graph with the direction of its tag.
    pub proof fn lemma_valid(&self)
        requires
            self.spec_wf(),
        ensures
            self.spec_model().valid(),
            self.spec_model().directed == Dir::directed(),
    {
    }

    /// The arcs that leave a vertex are its adjacency list.
    proof fn lemma_out(&self, id: usize)
        requires
            self.spec_wf(),
        ensures
            self.spec_model().out(id) == (if self.adjacency@.contains_key(id) {
                self.adjacency@[id]@
            } else {
                Seq::<(usize, Edge)>::empty()
            }),
    {
    }

    /// Create a new, empty graph with an adjacency list representation.
    pub fn new() -> (g: Self)
        ensures
            g.spec_wf(),
            g.spec_model() == GraphModel::<Vertex, Edge>::empty(Dir::directed()),
    {
        let g = AdjacencyListGraph {
            vertices: map_new(),
            adjacency: map_new(),
            edge_total: 0,
            _phantom: PhantomData,
        };
        proof {
            let m = g.spec_model();
            assert(m.vertices =~= Map::empty());
            assert(m.arcs =~= Map::empty());
            assert(m.canonical_arcs() =~= Set::empty()) by {
                assert forall|a: (usize, usize)| !m.has_arc(a.0, a.1) by {
                    assert(m.out(a.0) =~= Seq::empty());
                }
            }
        }
        g
    }

    fn new_with_size(n_vertices: usize) -> (g: Self)
        ensures
            g.spec_wf(),
            g.spec_model() == GraphModel::<Vertex, Edge>::empty(Dir::directed()),
    {
        let g = AdjacencyListGraph {
            vertices: map_with_capacity(n_vertices),
            adjacency: map_new(),
            edge_total: 0,
            _phantom: PhantomData,
        };
        proof {
            let m = g.spec_model();
            assert(m.vertices =~= Map::empty());
            assert(m.arcs =~= Map::empty());
            assert(m.canonical_arcs() =~= Set::empty()) by {
                assert forall|a: (usize, usize)| !m.has_arc(a.0, a.1) by {
                    assert(m.out(a.0) =~= Seq::empty());
                }
            }
        }
        g
    }

    fn push_vertex(&mut self, vertex: Vertex) -> (r: Result<(), GraphError>)
        requires
            old(self).spec_wf(),
        ensures
            final(self).spec_wf(),
            r is Ok <==> !old(self).spec_model().has_vertex(vertex.spec_id()),
            r is Ok ==> final(self).spec_model() == old(self).spec_model().with_vertex(vertex),
            r is Err ==> final(self).spec_model() == old(self).spec_model(),
            r is Err ==> r == Err::<(), GraphError>(GraphError::DuplicateVertex(vertex.spec_id())),
    {
        let vid = vertex.get_id();
        if map_contains_key(&self.vertices, vid) {
            return Err(GraphError::DuplicateVertex(vid));
        }
        map_insert(&mut self.vertices, vid, vertex);
        proof {
            let m0 = old(self).spec_model();
            let m1 = self.spec_model();
            assert(m1.vertices =~= m0.with_vertex(vertex).vertices);
            assert(m1.arcs =~= m0.with_vertex(vertex).arcs);
            assert forall|u: usize| #[trigger] out_of(m1.arcs, u) == out_of(m0.arcs, u) by {}
            lemma_same_out(m1.arcs, m0.arcs, Dir::directed());
            assert forall|from: usize, i: int| 0 <= i < m1.out(from).len() implies m1.has_vertex(
                #[trigger] m1.out(from)[i].0,
            ) by {
                assert(m0.has_vertex(m0.out(from)[i].0));
            }
            if !m1.directed {
                assert forall|from: usize, i: int| 0 <= i < m1.out(from).len() implies {
                    let arc = #[trigger] m1.out(from)[i];
                    arc.0 != from && m1.edge(arc.0, from) == Some(arc.1)
                } by {
                    let arc = m0.out(from)[i];
                    assert(arc.0 != from && m0.edge(arc.0, from) == Some(arc.1));
                }
            }
        }
        Ok(())
    }

    /// Whether the arc `from -> to` is there.
    fn has_arc(&self, from: usize, to: usize) -> (found: bool)
        requires
            self.spec_wf(),
        ensures
            found == self.spec_model().has_arc(from, to),
    {
        proof {
            self.lemma_out(from);
        }
        match map_get(&self.adjacency, from) {
            Some(list) => {
                let mut i: usize = 0;
                while i < list.len()
                    invariant
                        0 <= i <= list.len(),
                        self.spec_wf(),
                        self.spec_model().out(from) == list@,
                        forall|k: int| 0 <= k < i ==> (#[trigger] list[k]).0 != to,
                    decreases list.len() - i,
                {
                    if list[i].0 == to {
                        proof {
                            assert(arc_at_of(self.spec_model().arcs, from, i as int, to));
                        }
                        return true;
                    }
                    i += 1;
                }
                proof {
                    if self.spec_model().has_arc(from, to) {
                        let c = self.spec_model().arc_index(from, to);
                        assert(self.spec_model().arc_at(from, c, to));
                    }
                }
                false
            },
            None => {
                proof {
                    if self.spec_model().has_arc(from, to) {
                        let c = self.spec_model().arc_index(from, to);
                        assert(self.spec_model().arc_at(from, c, to));
                    }
                }
                false
            },
        }
    }

    /// Appends the arc `from -> to` to the arcs that leave `from`.
    fn append_arc(&mut self, from: usize, to: usize, edge: Edge)
        requires
            old(self).vertices@.contains_key(from),
            forall|id: usize| #[trigger]
                old(self).adjacency@.contains_key(id) ==> old(self).vertices@.contains_key(id),
        ensures
            final(self).vertices == old(self).vertices,
            final(self).edge_total == old(self).edge_total,
            forall|id: usize| #[trigger]
                final(self).adjacency@.contains_key(id) ==> final(self).vertices@.contains_key(id),
            inserts_arc(
                final(self).spec_model().arcs,
                old(self).spec_model().arcs,
                from,
                old(self).spec_model().out(from).len() as int,
                to,
                edge,
            ),
    {
        let ghost before = self.spec_model().out(from);
        match map_get_mut(&mut self.adjacency, from) {
            Some(list) => {
                list.push((to, edge));
            },
            None => {
                let mut list: Vec<(usize, Edge)> = Vec::new();
                list.push((to, edge));
                map_insert(&mut self.adjacency, from, list);
            },
        }
        proof {
            assert(self.spec_model().out(from) =~= before.insert(before.len() as int, (to, edge)));
            assert forall|w: usize| w != from implies #[trigger] out_of(self.spec_model().arcs, w)
                == out_of(old(self).spec_model().arcs, w) by {}
        }
    }

    /// Gives the arc `from -> to` another payload, if the arc is there.
    fn set_arc(&mut self, from: usize, to: usize, edge: Edge) -> (done: bool)
        requires
            forall|id: usize| #[trigger]
                old(self).adjacency@.contains_key(id) ==> old(self).vertices@.contains_key(id),
        ensures
            final(self).vertices == old(self).vertices,
            final(self).edge_total == old(self).edge_total,
            forall|id: usize| #[trigger]
                final(self).adjacency@.contains_key(id) ==> final(self).vertices@.contains_key(id),
            done == old(self).spec_model().has_arc(from, to),
            final(self).spec_model().arcs.dom() == old(self).spec_model().arcs.dom(),
            forall|u: usize|
                u != from ==> #[trigger] final(self).spec_model().out(u) == old(self).spec_model().out(
                    u,
                ),
            final(self).spec_model().out(from).len() == old(self).spec_model().out(from).len(),
            forall|i: int|
                0 <= i < old(self).spec_model().out(from).len() ==> #[trigger] final(self).spec_model().out(from)[i]
                    == (
                    old(self).spec_model().out(from)[i].0,
                    if old(self).spec_model().out(from)[i].0 == to {
                        edge
                    } else {
                        old(self).spec_model().out(from)[i].1
                    },
                ),
    {
        let ghost m0 = self.spec_model();
        let ghost out0 = m0.out(from);
        let mut done = false;
        match map_get_mut(&mut self.adjacency, from) {
            Some(list) => {
                let ghost list0 = list@;
                let mut i: usize = 0;
                while i < list.len()
                    invariant
                        0 <= i <= list.len(),
                        list.len() == list0.len(),
                        done == (exists|k: int| 0 <= k < i && (#[trigger] list0[k]).0 == to),
                        forall|k: int|
                            0 <= k < list.len() ==> #[trigger] list[k] == (
                                list0[k].0,
                                if k < i && list0[k].0 == to {
                                    edge
                                } else {
                                    list0[k].1
                                },
                            ),
                    decreases list.len() - i,
                {
                    if list[i].0 == to {
                        list.set(i, (to, edge));
                        done = true;
                    }
                    i += 1;
                }
            },
            None => {},
        }
        proof {
            let m1 = self.spec_model();
            assert(m1.arcs.dom() =~= m0.arcs.dom());
            if m0.has_arc(from, to) {
                let c = m0.arc_index(from, to);
                assert(m0.arc_at(from, c, to));
            }
            if done {
                let k = choose|k: int| 0 <= k < out0.len() && (#[trigger] out0[k]).0 == to;
                assert(m0.arc_at(from, k, to));
            }
        }
        done
    }

    /// Gives the edge `from -> to` another payload; with `symmetric`, its reverse
    /// as well.
    fn set_edge_internal(&mut self, from: usize, to: usize, edge: Edge, symmetric: bool) -> (done:
        bool)
        requires
            old(self).spec_wf(),
            symmetric == !Dir::directed(),
        ensures
            final(self).spec_wf(),
            done == old(self).spec_model().has_arc(from, to),
            done ==> final(self).spec_model() == old(self).spec_model().with_edge_payload(
                from,
                to,
                edge,
            ),
            !done ==> final(self).spec_model() == old(self).spec_model(),
    {
        let ghost m0 = self.spec_model();
        if !self.has_arc(from, to) {
            return false;
        }
        self.set_arc(from, to, edge);
        let ghost mid = self.spec_model();
        if symmetric {
            self.set_arc(to, from, edge);
        }
        proof {
            let mf = self.spec_model();
            let want = m0.with_edge_payload(from, to, edge);
            m0.lemma_with_edge_payload(from, to, edge);
            if symmetric {
                crate::algorithms::reach::lemma_arc_back(m0, from, to);
                assert(from != to) by {
                    let c = m0.arc_index(from, to);
                    assert(m0.arc_at(from, c, to));
                    let arc = m0.out(from)[c];
                    assert(arc.0 != from);
                }
            }
            assert(mf.vertices =~= want.vertices);
            assert(mf.arcs.dom() =~= want.arcs.dom());
            assert forall|u: usize| mf.arcs.dom().contains(u) implies #[trigger] mf.arcs[u]
                == want.arcs[u] by {
                assert(mf.arcs[u] == mf.out(u));
                assert(want.arcs[u] == want.out(u));
                assert(m0.arcs[u] == m0.out(u));
                assert(mid.out(u).len() == m0.out(u).len());
                assert(mf.out(u).len() == m0.out(u).len());
                assert forall|i: int| 0 <= i < m0.out(u).len() implies mf.out(u)[i] == want.out(
                    u,
                )[i] by {
                    if u == from {
                        assert(mid.out(from)[i] == (
                            m0.out(from)[i].0,
                            if m0.out(from)[i].0 == to {
                                edge
                            } else {
                                m0.out(from)[i].1
                            },
                        ));
                        if symmetric {
                            assert(mf.out(u) == mid.out(u));
                        }
                    } else if symmetric && u == to {
                        assert(mid.out(u) == m0.out(u));
                        assert(mf.out(to)[i] == (
                            mid.out(to)[i].0,
                            if mid.out(to)[i].0 == from {
                                edge
                            } else {
                                mid.out(to)[i].1
                            },
                        ));
                    } else {
                        assert(mid.out(u) == m0.out(u));
                        if symmetric {
                            assert(mf.out(u) == mid.out(u));
                        }
                    }
                }
                assert(mf.out(u) =~= want.out(u));
            }
            assert(mf.arcs =~= want.arcs);
            assert(mf == want);
        }
        true
    }

    /// Adds the edge `from -> to`; with `symmetric`, its reverse as well.
    fn push_edge_internal(&mut self, from: usize, to: usize, edge: Edge, symmetric: bool) -> (r:
        Result<(), GraphError>)
        requires
            old(self).spec_wf(),
            symmetric == !Dir::directed(),
        ensures
            final(self).spec_wf(),
            r is Ok <==> old(self).spec_model().accepts_edge(from, to),
            r is Ok ==> final(self).spec_model().adds_edge(old(self).spec_model(), from, to, edge),
            r is Ok ==> final(self).spec_model().out(from) == old(self).spec_model().out(from).insert(
                old(self).spec_model().out(from).len() as int,
                (to, edge),
            ),
            r is Ok && symmetric ==> final(self).spec_model().out(to) == old(self).spec_model().out(
                to,
            ).insert(old(self).spec_model().out(to).len() as int, (from, edge)),
            r is Err ==> final(self).spec_model() == old(self).spec_model(),
            !old(self).spec_model().has_vertex(from) ==> r == Err::<(), GraphError>(
                GraphError::VertexNotFound(from),
            ),
            old(self).spec_model().has_vertex(from) && !old(self).spec_model().has_vertex(to) ==> r
                == Err::<(), GraphError>(GraphError::VertexNotFound(to)),
            old(self).spec_model().has_vertex(from) && old(self).spec_model().has_vertex(to) && (old(
                self,
            ).spec_model().has_arc(from, to) || (from == to && !old(self).spec_model().directed))
                ==> r == Err::<(), GraphError>(GraphError::DuplicateEdge(from, to)),
            r is Err && old(self).spec_model().has_vertex(from) && old(self).spec_model().has_vertex(
                to,
            ) && !old(self).spec_model().has_arc(from, to) && (from != to || old(
                self,
            ).spec_model().directed) ==> r->Err_0 is OperationFailed,
    {
        let ghost m0 = self.spec_model();
        if !map_contains_key(&self.vertices, from) {
            return Err(GraphError::VertexNotFound(from));
        }
        if !map_contains_key(&self.vertices, to) {
            return Err(GraphError::VertexNotFound(to));
        }
        if self.has_arc(from, to) || (symmetric && from == to) {
            return Err(GraphError::DuplicateEdge(from, to));
        }
        if self.edge_total == usize::MAX {
            return Err(GraphError::OperationFailed("The graph cannot hold more edges".to_string()));
        }
        self.append_arc(from, to, edge);
        let ghost mid = self.spec_model();
        if symmetric {
            self.append_arc(to, from, edge);
        }
        self.edge_total += 1;
        proof {
            let mf = self.spec_model();
            assert(mid.arcs.dom() =~= m0.arcs.dom());
            assert(mf.arcs.dom() =~= mid.arcs.dom());
            assert(mid.adds_arc(m0, from, to, edge));
            if symmetric {
                assert(mf.adds_arc(mid, to, from, edge));
            } else {
                assert(mf == mid);
            }
            mf.lemma_adds_edge(m0, from, to, edge);
            mf.lemma_adds_edge_valid(m0, from, to, edge);
        }
        Ok(())
    }

    fn get_vertex_by_id(&self, vertex_id: usize) -> (r: Option<&Vertex>)
        requires
            self.spec_wf(),
        ensures
            r is Some <==> self.spec_model().has_vertex(vertex_id),
            r is Some ==> *r->Some_0 == self.spec_model().vertices[vertex_id],
    {
        map_get(&self.vertices, vertex_id)
    }

    fn get_vertex_by_id_mut(&mut self, vertex_id: usize) -> (r: Option<&mut Vertex>)
        requires
            old(self).spec_wf(),
        ensures
            r is Some <==> old(self).spec_model().has_vertex(vertex_id),
            match r {
                Some(v) => {
                    &&& *v == old(self).spec_model().vertices[vertex_id]
                    &&& final(self).spec_model() == old(self).spec_model().with_payload(
                        vertex_id,
                        *final(v),
                    )
                    &&& final(v).spec_id() == vertex_id ==> final(self).spec_wf()
                },
                None => *final(self) == *old(self),
            },
    {
        proof {
            assert forall|v: Vertex|
                self.vertices@.contains_key(vertex_id) implies #[trigger] list_model(
                    self.vertices@.insert(vertex_id, v),
                    self.adjacency@,
                    Dir::directed(),
                ) == self.spec_model().with_payload(vertex_id, v) && (v.spec_id() == vertex_id
                    ==> list_model(
                    self.vertices@.insert(vertex_id, v),
                    self.adjacency@,
                    Dir::directed(),
                ).valid()) by {
                let a = list_model(self.vertices@.insert(vertex_id, v), self.adjacency@, Dir::directed());
                let b = self.spec_model().with_payload(vertex_id, v);
                assert(a.vertices =~= b.vertices);
                assert(a.arcs =~= b.arcs);
                assert(a.vertices.dom() =~= self.spec_model().vertices.dom());
                if v.spec_id() == vertex_id {
                    assert forall|from: usize, i: int| 0 <= i < a.out(from).len() implies a.has_vertex(
                        #[trigger] a.out(from)[i].0,
                    ) by {
                        assert(self.spec_model().has_vertex(self.spec_model().out(from)[i].0));
                    }
                    if !a.directed {
                        assert forall|from: usize, i: int| 0 <= i < a.out(from).len() implies {
                            let arc = #[trigger] a.out(from)[i];
                            arc.0 != from && a.edge(arc.0, from) == Some(arc.1)
                        } by {
                            let arc = self.spec_model().out(from)[i];
                            assert(arc.0 != from && self.spec_model().edge(arc.0, from) == Some(
                                arc.1,
                            ));
                        }
                    }
                }
            }
        }
        map_get_mut(&mut self.vertices, vertex_id)
    }

    fn get_edge_internal(&self, from_id: usize, to_id: usize) -> (r: Option<&Edge>)
        requires
            self.spec_wf(),
        ensures
            r is Some <==> self.spec_model().has_arc(from_id, to_id),
            r is Some ==> Some(*r->Some_0) == self.spec_model().edge(from_id, to_id),
    {
        proof {
            self.lemma_out(from_id);
        }
        match map_get(&self.adjacency, from_id) {
            Some(list) => {
                let mut i: usize = 0;
                while i < list.len()
                    invariant
                        0 <= i <= list.len(),
                        self.spec_wf(),
                        self.spec_model().out(from_id) == list@,
                        forall|k: int| 0 <= k < i ==> (#[trigger] list[k]).0 != to_id,
                    decreases list.len() - i,
                {
                    if list[i].0 == to_id {
                        proof {
                            lemma_edge_at(self.spec_model().arcs, from_id, i as int);
                        }
                        return Some(&list[i].1);
                    }
                    i += 1;
                }
                proof {
                    if self.spec_model().has_arc(from_id, to_id) {
                        let c = self.spec_model().arc_index(from_id, to_id);
                        assert(self.spec_model().arc_at(from_id, c, to_id));
                    }
                }
                None
            },
            None => {
                proof {
                    if self.spec_model().has_arc(from_id, to_id) {
                        let c = self.spec_model().arc_index(from_id, to_id);
                        assert(self.spec_model().arc_at(from_id, c, to_id));
                    }
                }
                None
            },
        }
    }

    fn get_all_vertices(&self) -> (r: Vec<&Vertex>)
        requires
            self.spec_wf(),
        ensures
            lists_vertices(r@, self.spec_model()),
    {
        let entries = map_entries(&self.vertices);
        let mut r: Vec<&Vertex> = Vec::new();
        let mut i: usize = 0;
        while i < entries.len()
            invariant
                0 <= i <= entries.len(),
                r.len() == i,
                forall|k: int| 0 <= k < i ==> *(#[trigger] r[k]) == *entries[k].1,
            decreases entries.len() - i,
        {
            r.push(entries[i].1);
            i += 1;
        }
        proof {
            let m = self.spec_model();
            let keys = entries@.map_values(|t: (usize, &Vertex)| t.0);
            assert forall|id: usize| m.vertices.dom().contains(id) implies keys.contains(id) by {
                let k = choose|k: int| 0 <= k < entries.len() && (#[trigger] entries[k]).0 == id;
                assert(keys[k] == id);
            }
            assert forall|k: int| 0 <= k < keys.len() implies m.vertices.dom().contains(
                #[trigger] keys[k],
            ) by {
                assert(keys[k] == entries[k].0);
            }
            assert forall|a: int, b: int| 0 <= a < keys.len() && 0 <= b < keys.len() && a
                != b implies keys[a] != keys[b] by {
                assert(keys[a] == entries[a].0 && keys[b] == entries[b].0);
                if a < b {
                    assert(entries[a].0 != entries[b].0);
                } else {
                    assert(entries[b].0 != entries[a].0);
                }
            }
            lemma_listing_len(keys, m.vertices.dom());
            assert forall|k: int| 0 <= k < r.len() implies m.has_vertex((#[trigger] r[k]).spec_id())
                && *r[k] == m.vertices[r[k].spec_id()] by {
                assert(m.vertices.dom().contains(entries[k].0));
            }
            assert forall|a: int, b: int| 0 <= a < b < r.len() implies (#[trigger] r[a]).spec_id() != (
            #[trigger] r[b]).spec_id() by {
                assert(m.vertices.dom().contains(entries[a].0));
                assert(m.vertices.dom().contains(entries[b].0));
                assert(entries[a].0 != entries[b].0);
            }
        }
        r
    }

    fn get_adjacent_vertices(&self, vertex_id: usize) -> (r: Vec<&Vertex>)
        requires
            self.spec_wf(),
        ensures
            r.len() == self.spec_model().out(vertex_id).len(),
            forall|i: int|
                0 <= i < r.len() ==> *(#[trigger] r[i]) == self.spec_model().vertices[self.spec_model().out(
                    vertex_id,
                )[i].0],
    {
        proof {
            self.lemma_out(vertex_id);
        }
        let mut r: Vec<&Vertex> = Vec::new();
        match map_get(&self.adjacency, vertex_id) {
            Some(list) => {
                let mut i: usize = 0;
                while i < list.len()
                    invariant
                        0 <= i <= list.len(),
                        self.spec_wf(),
                        self.spec_model().out(vertex_id) == list@,
                        r.len() == i,
                        forall|k: int|
                            0 <= k < i ==> *(#[trigger] r[k]) == self.spec_model().vertices[list[k].0],
                    decreases list.len() - i,
                {
                    proof {
                        assert(self.spec_model().has_vertex(self.spec_model().out(vertex_id)[i as int].0));
                    }
                    match map_get(&self.vertices, list[i].0) {
                        Some(v) => {
                            r.push(v);
                        },
                        None => {
                            assert(false);
                        },
                    }
                    i += 1;
                }
            },
            None => {},
        }
        r
    }

    fn get_adjacent_vertices_with_edges(&self, vertex_id: usize) -> (r: Vec<(&Vertex, &Edge)>)
        requires
            self.spec_wf(),
        ensures
            r.len() == self.spec_model().out(vertex_id).len(),
            forall|i: int|
                0 <= i < r.len() ==> {
                    let arc = self.spec_model().out(vertex_id)[i];
                    *(#[trigger] r[i]).0 == self.spec_model().vertices[arc.0] && *r[i].1 == arc.1
                },
    {
        proof {
            self.lemma_out(vertex_id);
        }
        let mut r: Vec<(&Vertex, &Edge)> = Vec::new();
        match map_get(&self.adjacency, vertex_id) {
            Some(list) => {
                let mut i: usize = 0;
                while i < list.len()
                    invariant
                        0 <= i <= list.len(),
                        self.spec_wf(),
                        self.spec_model().out(vertex_id) == list@,
                        r.len() == i,
                        forall|k: int|
                            0 <= k < i ==> *(#[trigger] r[k]).0
                                == self.spec_model().vertices[list[k].0] && *r[k].1 == list[k].1,
                    decreases list.len() - i,
                {
                    proof {
                        assert(self.spec_model().has_vertex(self.spec_model().out(vertex_id)[i as int].0));
                    }
                    match map_get(&self.vertices, list[i].0) {
                        Some(v) => {
                            r.push((v, &list[i].1));
                        },
                        None => {
                            assert(false);
                        },
                    }
                    i += 1;
                }
            },
            None => {},
        }
        r
    }

    /// The edges list by list; of an undirected graph those that run from the
    /// smaller id.
    fn get_all_edges_internal(&self, directed: bool) -> (r: Vec<(usize, usize, &Edge)>)
        requires
            self.spec_wf(),
            directed == Dir::directed(),
        ensures
            lists_edges(r@, self.spec_model()),
    {
        let entries = map_entries(&self.adjacency);
        let mut r: Vec<(usize, usize, &Edge)> = Vec::new();
        let ghost mut pos: Seq<(int, int)> = Seq::empty();
        let mut ei: usize = 0;
        while ei < entries.len()
            invariant
                0 <= ei <= entries.len(),
                arcs_listed_until(r@, pos, entries@, directed, ei as int, 0),
            decreases entries.len() - ei,
        {
            let from = entries[ei].0;
            let list = entries[ei].1;
            let mut li: usize = 0;
            while li < list.len()
                invariant
                    0 <= li <= list.len(),
                    0 <= ei < entries.len(),
                    from == entries[ei as int].0,
                    list == entries[ei as int].1,
                    arcs_listed_until(r@, pos, entries@, directed, ei as int, li as int),
                decreases list.len() - li,
            {
                let to = list[li].0;
                if directed || from <= to {
                    proof {
                        lemma_arcs_push(
                            r@,
                            pos,
                            entries@,
                            directed,
                            ei as int,
                            li as int,
                            &list[li as int].1,
                        );
                        pos = pos.push((ei as int, li as int));
                    }
                    r.push((from, to, &list[li].1));
                } else {
                    proof {
                        lemma_arcs_skip(r@, pos, entries@, directed, ei as int, li as int);
                    }
                }
                li += 1;
            }
            proof {
                lemma_arcs_row(r@, pos, entries@, directed, ei as int);
            }
            ei += 1;
        }
        proof {
            let m = self.spec_model();
            let n = entries.len() as int;
            let pairs = r@.map_values(|t: (usize, usize, &Edge)| (t.0, t.1));
            assert forall|k: int| 0 <= k < r.len() implies {
                let t = #[trigger] r[k];
                m.canonical_arcs().contains((t.0, t.1)) && m.edge(t.0, t.1) == Some(*t.2)
            } by {
                let p = pos[k];
                self.lemma_out(entries[p.0].0);
                lemma_edge_at(m.arcs, entries[p.0].0, p.1);
            }
            assert forall|k: int, l: int| 0 <= k < l < r.len() implies ((#[trigger] r[k]).0, r[k].1)
                != ((#[trigger] r[l]).0, r[l].1) by {
                let p = pos[k];
                let q = pos[l];
                assert(p != q);
                self.lemma_out(entries[p.0].0);
                if p.0 < q.0 {
                    assert(entries[p.0].0 != entries[q.0].0);
                } else if q.0 < p.0 {
                    assert(entries[q.0].0 != entries[p.0].0);
                } else if p.1 < q.1 {
                    assert(out_of(m.arcs, entries[p.0].0)[p.1].0 != out_of(m.arcs, entries[p.0].0)[q.1].0);
                } else {
                    assert(out_of(m.arcs, entries[p.0].0)[q.1].0 != out_of(m.arcs, entries[p.0].0)[p.1].0);
                }
            }
            assert forall|a: (usize, usize)| m.canonical_arcs().contains(a) implies pairs.contains(
                a,
            ) by {
                let c = m.arc_index(a.0, a.1);
                assert(m.arc_at(a.0, c, a.1));
                self.lemma_out(a.0);
                let x = choose|x: int| 0 <= x < entries.len() && (#[trigger] entries[x]).0 == a.0;
                assert(position_before(x, c, n, 0));
                assert(pos.contains((x, c)));
                let k = choose|k: int| 0 <= k < pos.len() && pos[k] == (x, c);
                assert(pairs[k] == a);
            }
            assert forall|k: int| 0 <= k < pairs.len() implies m.canonical_arcs().contains(
                #[trigger] pairs[k],
            ) by {
                assert(pairs[k] == (r[k].0, r[k].1));
            }
            assert forall|k: int, l: int| 0 <= k < pairs.len() && 0 <= l < pairs.len() && k
                != l implies pairs[k] != pairs[l] by {
                assert(pairs[k] == (r[k].0, r[k].1) && pairs[l] == (r[l].0, r[l].1));
                if k < l {
                    assert((r[k].0, r[k].1) != (r[l].0, r[l].1));
                } else {
                    assert((r[l].0, r[l].1) != (r[k].0, r[k].1));
                }
            }
            lemma_listing_len(pairs, m.canonical_arcs());
        }
        r
    }

    fn vertex_count(&self) -> (n: usize)
        requires
            self.spec_wf(),
        ensures
            n == self.spec_model().vertices.dom().len(),
    {
        map_len(&self.vertices)
    }

    fn edge_count_internal(&self) -> (n: usize)
        requires
            self.spec_wf(),
        ensures
            n == self.spec_model().edge_count(),
    {
        self.edge_total
    }
}


impl<Vertex: WithID, Edge: Copy> GraphBase for AdjacencyListGraph<Vertex, Edge, Directed> {
    type Vertex = Vertex;

    type Edge = Edge;

    type Direction = Directed;

    open spec fn model(&self) -> GraphModel<Vertex, Edge> {
        self.spec_model()
    }

    open spec fn wf(&self) -> bool {
        self.spec_wf()
    }

    open spec fn accepts(m: GraphModel<Vertex, Edge>, id: usize) -> bool {
        !m.has_vertex(id)
    }

    open spec fn place(m: GraphModel<Vertex, Edge>, from: usize, to: usize) -> int {
        m.out(from).len() as int
    }

    proof fn lemma_wf(&self) {
        self.lemma_valid();
    }

    fn new() -> (g: Self) {
        AdjacencyListGraph::new()
    }

    fn new_with_size(n_vertices: usize) -> (g: Self) {
        AdjacencyListGraph::new_with_size(n_vertices)
    }

    fn push_vertex(&mut self, vertex: Vertex) -> (r: Result<(), GraphError>) {
        self.push_vertex(vertex)
    }

    fn push_edge(&mut self, from: usize, to: usize, edge: Edge) -> (r: Result<(), GraphError>) {
        self.push_edge_internal(from, to, edge, false)
    }

    fn is_directed(&self) -> (b: bool) {
        proof {
            self.lemma_valid();
        }
        true
    }

    fn get_vertex_by_id(&self, vertex_id: usize) -> (r: Option<&Vertex>) {
        self.get_vertex_by_id(vertex_id)
    }

    fn get_vertex_by_id_mut(&mut self, vertex_id: usize) -> (r: Option<&mut Vertex>) {
        self.get_vertex_by_id_mut(vertex_id)
    }

    fn get_edge(&self, from_id: usize, to_id: usize) -> (r: Option<&Edge>) {
        self.get_edge_internal(from_id, to_id)
    }

    fn set_edge(&mut self, from: usize, to: usize, edge: Edge) -> (done: bool) {
        self.set_edge_internal(from, to, edge, false)
    }

    fn get_all_vertices(&self) -> (r: Vec<&Vertex>) {
        self.get_all_vertices()
    }

    fn get_all_edges(&self) -> (r: Vec<(usize, usize, &Edge)>) {
        self.get_all_edges_internal(true)
    }

    fn get_adjacent_vertices(&self, vertex_id: usize) -> (r: Vec<&Vertex>) {
        self.get_adjacent_vertices(vertex_id)
    }

    fn get_adjacent_vertices_with_edges(&self, vertex_id: usize) -> (r: Vec<(&Vertex, &Edge)>) {
        self.get_adjacent_vertices_with_edges(vertex_id)
    }

    fn vertex_count(&self) -> (n: usize) {
        self.vertex_count()
    }

    fn edge_count(&self) -> (n: usize) {
        self.edge_count_internal()
    }

    fn get_total_weight(&self) -> (w: i128) where Edge: WeightedEdge {
        let edges = self.get_all_edges_internal(true);
        weight_of_listing::<Vertex, Edge>(&edges, Ghost(self.spec_model()))
    }
}

impl<Vertex: WithID, Edge: Copy> GraphBase for AdjacencyListGraph<Vertex, Edge, Undirected> {
    type Vertex = Vertex;

    type Edge = Edge;

    type Direction = Undirected;

    open spec fn model(&self) -> GraphModel<Vertex, Edge> {
        self.spec_model()
    }

    open spec fn wf(&self) -> bool {
        self.spec_wf()
    }

    open spec fn accepts(m: GraphModel<Vertex, Edge>, id: usize) -> bool {
        !m.has_vertex(id)
    }

    open spec fn place(m: GraphModel<Vertex, Edge>, from: usize, to: usize) -> int {
        m.out(from).len() as int
    }

    proof fn lemma_wf(&self) {
        self.lemma_valid();
    }

    fn new() -> (g: Self) {
        AdjacencyListGraph::new()
    }

    fn new_with_size(n_vertices: usize) -> (g: Self) {
        AdjacencyListGraph::new_with_size(n_vertices)
    }

    fn push_vertex(&mut self, vertex: Vertex) -> (r: Result<(), GraphError>) {
        self.push_vertex(vertex)
    }

    fn push_edge(&mut self, from: usize, to: usize, edge: Edge) -> (r: Result<(), GraphError>) {
        self.push_edge_internal(from, to, edge, true)
    }

    fn is_directed(&self) -> (b: bool) {
        proof {
            self.lemma_valid();
        }
        false
    }

    fn get_vertex_by_id(&self, vertex_id: usize) -> (r: Option<&Vertex>) {
        self.get_vertex_by_id(vertex_id)
    }

    fn get_vertex_by_id_mut(&mut self, vertex_id: usize) -> (r: Option<&mut Vertex>) {
        self.get_vertex_by_id_mut(vertex_id)
    }

    fn get_edge(&self, from_id: usize, to_id: usize) -> (r: Option<&Edge>) {
        self.get_edge_internal(from_id, to_id)
    }

    fn set_edge(&mut self, from: usize, to: usize, edge: Edge) -> (done: bool) {
        self.set_edge_internal(from, to, edge, true)
    }

    fn get_all_vertices(&self) -> (r: Vec<&Vertex>) {
        self.get_all_vertices()
    }

    fn get_all_edges(&self) -> (r: Vec<(usize, usize, &Edge)>) {
        self.get_all_edges_internal(false)
    }

    fn get_adjacent_vertices(&self, vertex_id: usize) -> (r: Vec<&Vertex>) {
        self.get_adjacent_vertices(vertex_id)
    }

    fn get_adjacent_vertices_with_edges(&self, vertex_id: usize) -> (r: Vec<(&Vertex, &Edge)>) {
        self.get_adjacent_vertices_with_edges(vertex_id)
    }

    fn vertex_count(&self) -> (n: usize) {
        self.vertex_count()
    }

    fn edge_count(&self) -> (n: usize) {
        self.edge_count_internal()
    }

    fn get_total_weight(&self) -> (w: i128) where Edge: WeightedEdge {
        let edges = self.get_all_edges_internal(false);
        weight_of_listing::<Vertex, Edge>(&edges, Ghost(self.spec_model()))
    }
}

} // verus!
