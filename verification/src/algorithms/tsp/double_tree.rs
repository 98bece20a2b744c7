use vstd::prelude::*;
use crate::algorithms::reach::{
    is_walk, lemma_reaches_self, lemma_visits_left, reachable_from, reaches, Frontier,
};
use crate::algorithms::mst::kruskal::subgraph;
use crate::algorithms::shortest_path::walks::walk_weight;
use crate::graph::model::GraphModel;
use crate::graph::{Graph, GraphBase, ListGraphBackend, Path, WeightedEdge, WithID};
use super::shortcut::{
    climbing, depth_first, lemma_climb_end, lemma_climb_start, lemma_climb_step,
    lemma_tree_below_tour, metric, next_climb, next_frontier, tree_trip, Climb,
};
use super::{is_tour, joined, lemma_tour_arcs, steps_of, TspResult};

verus! {

/// In a graph in which every two vertices are joined, every vertex reaches every
/// vertex.
pub proof fn lemma_joined_reaches<V: WithID, E>(m: GraphModel<V, E>, s: usize, x: usize)
    requires
        joined(m),
        m.has_vertex(s),
        m.has_vertex(x),
    ensures
        reaches(m, s, x),
{
    if s == x {
        lemma_reaches_self(m, s);
    } else {
        let p = seq![s, x];
        assert forall|i: int| 0 <= i < p.len() - 1 implies m.has_arc(#[trigger] p[i], p[i + 1]) by {
            assert(p[i] == s && p[i + 1] == x);
        }
        assert(is_walk(m, p));
        assert(p[0] == s && p.last() == x);
    }
}

/// The adjacency-list backend takes every vertex whose id it does not hold.
pub open spec fn list_takes_all<V: WithID, E, D: crate::graph::Direction>() -> bool where
    ListGraphBackend<V, E, D>: GraphBase<Vertex = V, Edge = E, Direction = D>,
 {
    forall|m: GraphModel<V, E>, id: usize|
        !m.has_vertex(id) ==> #[trigger] <ListGraphBackend<V, E, D> as GraphBase>::accepts(m, id)
}

impl<Backend: GraphBase> Graph<Backend> where
    Backend::Vertex: Copy,
    Backend::Edge: WeightedEdge + Copy,
    ListGraphBackend<Backend::Vertex, Backend::Edge, Backend::Direction>: GraphBase<
        Vertex = Backend::Vertex,
        Edge = Backend::Edge,
        Direction = Backend::Direction,
    >,
 {
    /// A round trip by the double-tree rule: a spanning tree is grown from the start
    /// vertex by Prim's algorithm, and the round trip visits the vertices in the
    /// order of a depth-first traversal of the tree. The start vertex is
    /// `start_vertex_id` or, without it, the first vertex that the graph lists; the
    /// path is empty where the graph holds no start vertex. In an undirected graph
    /// whose weights keep the triangle inequality the round trip weighs at most
    /// twice what any round trip weighs.
    pub fn tsp_double_tree(&self, start_vertex_id: Option<usize>) -> (r: TspResult<Backend>)
        requires
            self.wf(),
            joined(self.model()),
            list_takes_all::<Backend::Vertex, Backend::Edge, Backend::Direction>(),
        ensures
            r is Ok,
            match start_vertex_id {
                Some(s) => !self.model().has_vertex(s),
                None => self.model().vertices.dom().len() == 0,
            } ==> r->Ok_0@.len() == 0,
            !(match start_vertex_id {
                Some(s) => !self.model().has_vertex(s),
                None => self.model().vertices.dom().len() == 0,
            }) ==> exists|t: Seq<usize>|
                {
                    &&& t.len() > 0
                    &&& #[trigger] is_tour(self.model(), t[0], t)
                    &&& start_vertex_id is Some ==> t[0] == start_vertex_id->Some_0
                    &&& r->Ok_0@ == steps_of(self.model(), t)
                    &&& exists|tree: GraphModel<Backend::Vertex, Backend::Edge>| #[trigger]
                        tree_trip(self.model(), tree, t)
                    &&& !self.model().directed && metric(self.model()) ==> forall|
                        s: usize,
                        other: Seq<usize>,
                    | #[trigger]
                        is_tour(self.model(), s, other) ==> walk_weight(self.model(), t) <= 2
                            * walk_weight(self.model(), other)
                },
    {
        let ghost m = self.model();
        proof {
            self.lemma_wf();
        }
        let (start_v, _) = match self.get_initial_vertex(start_vertex_id) {
            Some(v) => v,
            None => {
                return Ok(Path::default());
            },
        };
        // The spanning tree.
        let mst = match self.mst_prim::<
            ListGraphBackend<Backend::Vertex, Backend::Edge, Backend::Direction>,
        >(Some(start_v)) {
            Ok(t) => t,
            Err(e) => {
                return Err(e);
            },
        };
        proof {
            mst.lemma_wf();
            vstd::set_lib::lemma_len_subset(set![start_v], m.vertices.dom());
            assert(m.vertices.dom().len() > 0);
            assert(exists|root: usize|
                root == start_v && mst.model().vertices.dom() == #[trigger] reachable_from(m, root)
                    && mst.model().vertices.dom() == reachable_from(mst.model(), root));
            assert(mst.model().vertices.dom() == reachable_from(m, start_v));
            assert(mst.model().vertices.dom() == reachable_from(mst.model(), start_v));
            assert forall|x: usize|
                mst.model().vertices.dom().contains(x) <==> m.vertices.dom().contains(x) by {
                assert(mst.model().vertices.dom().contains(x) <==> reachable_from(
                    m,
                    start_v,
                ).contains(x));
                if m.has_vertex(x) {
                    lemma_joined_reaches(m, start_v, x);
                }
                if reaches(m, start_v, x) {
                    crate::algorithms::reach::lemma_reaches_vertex(m, start_v, x);
                }
            }
            assert(mst.model().vertices.dom() =~= m.vertices.dom());
        }
        // Its vertices in depth-first order.
        let mut it = match mst.dfs_iter(start_v) {
            Ok(it) => it,
            Err(e) => {
                return Err(e);
            },
        };
        let mut order: Vec<usize> = Vec::new();
        let mut walking = true;
        let ghost mut climb = Climb {
            parent: Map::empty(),
            depth: Map::empty(),
            trail: Seq::empty(),
            at: Seq::empty(),
        };
        proof {
            lemma_visits_left(mst.model(), start_v, it.frontier(), it.yielded());
        }
        while walking
            invariant
                it.wf(),
                it.graph() == mst,
                it.start() == start_v,
                it.visits_left() >= 0,
                order@ == it.yielded(),
                m.valid(),
                mst.model().valid(),
                mst.model().has_vertex(start_v),
                subgraph(mst.model(), m),
                order.len() == 0 ==> walking && it.frontier() == Frontier::of(
                    seq![start_v],
                    set![start_v],
                ),
                order.len() > 0 ==> order[0] == start_v,
                depth_first(mst.model(), start_v, order.len() as nat) == (it.frontier(), order@),
                !m.directed && metric(m) && order.len() > 0 ==> climbing(
                    mst.model(),
                    m,
                    start_v,
                    it.frontier(),
                    order@,
                    climb,
                ),
                !walking ==> order@.no_duplicates() && order@.to_set() == reachable_from(
                    mst.model(),
                    start_v,
                ),
            decreases
                    if walking {
                        it.visits_left() + 1
                    } else {
                        0
                    },
        {
            let ghost before = it.frontier();
            let ghost visited = it.yielded();
            match it.next() {
                Some(v) => {
                    order.push(v.get_id());
                    proof {
                        assert(it.frontier() == next_frontier(mst.model(), before));
                        assert(depth_first(mst.model(), start_v, (visited.len() + 1) as nat) == (
                            it.frontier(),
                            order@,
                        ));
                        if !m.directed && metric(m) {
                            if visited.len() == 0 {
                                assert(before.pending.drop_last() =~= Seq::<usize>::empty());
                                assert(visited.push(start_v) =~= seq![start_v]);
                                climb = lemma_climb_start(mst.model(), m, start_v);
                            } else {
                                lemma_climb_step(mst.model(), m, start_v, before, visited, climb);
                                climb = next_climb(mst.model(), m, before, climb);
                            }
                        }
                    }
                },
                None => {
                    walking = false;
                },
            }
        }
        // Back to the start.
        let ghost visited = order@;
        order.push(start_v);
        proof {
            let t = order@;
            assert(t.drop_last() =~= visited);
            visited.unique_seq_to_set();
            assert(is_tour(m, start_v, t));
            assert forall|i: int| 0 <= i < t.len() - 1 implies m.has_arc(#[trigger] t[i], t[i + 1]) by {
                lemma_tour_arcs(m, start_v, t, i);
            }
            assert(tree_trip(m, mst.model(), t));
            if !m.directed && metric(m) {
                let tree = mst.model();
                assert(t =~= visited.push(start_v));
                assert(visited.len() >= 2) by {
                    if visited.len() < 2 {
                        assert(m.vertices.dom().len() == 1);
                        assert(m.has_arc(start_v, start_v));
                        let k = m.arc_index(start_v, start_v);
                        assert(m.arc_at(start_v, k, start_v));
                        assert(m.out(start_v)[k].0 != start_v);
                    }
                }
                assert(tree.vertices =~= m.vertices) by {
                    assert forall|id: usize| tree.vertices.dom().contains(id) implies tree.vertices[id]
                        == m.vertices[id] by {
                        assert(tree.has_vertex(id));
                    }
                }
                lemma_climb_end(tree, m, start_v, it.frontier(), visited, climb);
                assert forall|s: usize, other: Seq<usize>| #[trigger] is_tour(m, s, other) implies walk_weight(
                    m,
                    t,
                ) <= 2 * walk_weight(m, other) by {
                    lemma_tree_below_tour(tree, m, s, other);
                }
            }
        }
        let path = self.path_along(&order);
        Ok(path)
    }
}

} // verus!
