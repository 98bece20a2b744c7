use vstd::prelude::*;
use crate::graph::model::GraphModel;
use crate::graph::{Graph, GraphBase, Path, WeightedEdge, WithID};
use crate::GraphError;

pub mod branch_and_bound;
pub mod brute_force;
pub mod double_tree;
pub mod nearest_neighbor;
pub mod shortcut;

verus! {

pub type TspResult<Backend> = Result<Path<<Backend as GraphBase>::Edge>, GraphError>;

/// Every two different vertices are joined by an arc, and where the graph has a
/// single vertex, that vertex is joined to itself: every round trip through all
/// vertices can be made.
pub open spec fn joined<V: WithID, E>(m: GraphModel<V, E>) -> bool {
    forall|u: usize, v: usize|
        m.has_vertex(u) && m.has_vertex(v) && (u != v || m.vertices.dom().len() == 1)
            ==> #[trigger] m.has_arc(u, v)
}

/// `t` is a round trip from `start`: it begins and ends there and visits every
/// vertex once in between.
pub open spec fn is_tour<V: WithID, E>(m: GraphModel<V, E>, start: usize, t: Seq<usize>) -> bool {
    &&& t.len() == m.vertices.dom().len() + 1
    &&& t[0] == start
    &&& t.last() == start
    &&& t.drop_last().no_duplicates()
    &&& t.drop_last().to_set() == m.vertices.dom()
}

/// The steps of the trip `t`, each with the payload of its arc.
pub open spec fn steps_of<V: WithID, E>(m: GraphModel<V, E>, t: Seq<usize>) -> Seq<(usize, usize, E)> {
    Seq::new((t.len() - 1) as nat, |i: int| (t[i], t[i + 1], m.edge(t[i], t[i + 1])->Some_0))
}

/// `order` holds the members of `rest`, each once.
pub open spec fn arranges(order: Seq<usize>, rest: Seq<usize>) -> bool {
    order.no_duplicates() && order.to_set() == rest.to_set()
}

/// Consecutive vertices of a round trip are joined by an arc.
pub proof fn lemma_tour_arcs<V: WithID, E>(m: GraphModel<V, E>, start: usize, t: Seq<usize>, i: int)
    requires
        m.valid(),
        joined(m),
        is_tour(m, start, t),
        0 <= i < t.len() - 1,
    ensures
        m.has_arc(t[i], t[i + 1]),
{
    let inner = t.drop_last();
    let n = inner.len() as int;
    assert(inner[i] == t[i]);
    assert(inner.to_set().contains(inner[i]));
    assert(inner[0] == t[0]);
    assert(inner.to_set().contains(inner[0]));
    if i + 1 < n {
        assert(inner[i + 1] == t[i + 1]);
        assert(inner.to_set().contains(inner[i + 1]));
        assert(inner[i] != inner[i + 1]);
    } else if n > 1 {
        assert(inner[i] != inner[0]);
    }
}

impl<Backend: GraphBase> Graph<Backend> where Backend::Edge: WeightedEdge + Copy {
    /// The path along the vertices of `trip`, each step with the payload of its arc.
    pub(crate) fn path_along(&self, trip: &Vec<usize>) -> (path: Path<Backend::Edge>)
        requires
            self.wf(),
            trip.len() > 0,
            forall|i: int| 0 <= i < trip.len() - 1 ==> self.model().has_arc(#[trigger] trip[i], trip[i + 1]),
        ensures
            path@ == steps_of(self.model(), trip@),
    {
        let mut path: Path<Backend::Edge> = Path::default();
        let mut i: usize = 0;
        while i + 1 < trip.len()
            invariant
                0 <= i < trip.len(),
                self.wf(),
                forall|k: int|
                    0 <= k < trip.len() - 1 ==> self.model().has_arc(#[trigger] trip[k], trip[k + 1]),
                path@ == steps_of(self.model(), trip@.take(i + 1)),
            decreases trip.len() - i,
        {
            let from_v = trip[i];
            let to_v = trip[i + 1];
            proof {
                assert(self.model().has_arc(trip[i as int], trip[i + 1]));
            }
            let edge = match self.get_edge(from_v, to_v) {
                Some(e) => *e,
                None => {
                    assert(false);
                    return path;
                },
            };
            path.push(from_v, to_v, edge);
            proof {
                assert(path@ =~= steps_of(self.model(), trip@.take(i + 2)));
            }
            i += 1;
        }
        proof {
            assert(trip@.take(trip.len() as int) =~= trip@);
        }
        path
    }
}

} // verus!
