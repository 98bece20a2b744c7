use vstd::prelude::*;
use crate::algorithms::shortest_path::walks::{lemma_walk_weight_bound, walk_weight};
use crate::graph::model::GraphModel;
use crate::graph::{Graph, GraphBase, Path, WeightedEdge, WithID};
use super::nearest_neighbor::{lemma_rearranged, lemma_start_and_rest};
use super::{arranges, is_tour, joined, lemma_tour_arcs, steps_of, TspResult};

verus! {

/// The best round trip found so far, if any, is a round trip from `start` with its
/// weight.
pub open spec fn best_ok<V: WithID, E: WeightedEdge>(
    m: GraphModel<V, E>,
    start: usize,
    best: Option<(i128, Vec<usize>)>,
) -> bool {
    best is Some ==> is_tour(m, start, best->Some_0.1@) && best->Some_0.0 == walk_weight(
        m,
        best->Some_0.1@,
    )
}

/// A sequence that arranges another without repetitions is as long.
pub proof fn lemma_arranges_len(order: Seq<usize>, rest: Seq<usize>)
    requires
        rest.no_duplicates(),
        arranges(order, rest),
    ensures
        order.len() == rest.len(),
{
    order.unique_seq_to_set();
    rest.unique_seq_to_set();
}

/// The round trips from `start` are the arrangements of the other vertices between
/// two visits of `start`.
pub proof fn lemma_tour_arranges<V: WithID, E>(m: GraphModel<V, E>, start: usize, rest: Seq<usize>, t: Seq<usize>)
    requires
        m.has_vertex(start),
        rest.no_duplicates(),
        rest.to_set() == m.vertices.dom().remove(start),
        is_tour(m, start, t),
    ensures
        arranges(t.subrange(1, t.len() - 1), rest),
        t == seq![start] + t.subrange(1, t.len() - 1) + seq![start],
{
    let inner = t.drop_last();
    let order = t.subrange(1, t.len() - 1);
    assert(inner.to_set().contains(start));
    assert(inner.len() > 0);
    assert(t =~= seq![start] + order + seq![start]);
    assert forall|a: int, b: int| 0 <= a < order.len() && 0 <= b < order.len() && a != b implies order[a]
        != order[b] by {
        assert(order[a] == inner[a + 1] && order[b] == inner[b + 1]);
    }
    assert forall|x: usize| order.to_set().contains(x) <==> rest.to_set().contains(x) by {
        if order.contains(x) {
            let a = choose|a: int| 0 <= a < order.len() && order[a] == x;
            assert(inner[a + 1] == x);
            assert(inner.to_set().contains(inner[a + 1]));
            assert(inner[0] != inner[a + 1]);
        }
        if rest.to_set().contains(x) {
            assert(inner.to_set().contains(x));
            let b = choose|b: int| 0 <= b < inner.len() && inner[b] == x;
            assert(b != 0);
            assert(order[b - 1] == x);
        }
    }
    assert(order.to_set() =~= rest.to_set());
}

impl<Backend: GraphBase> Graph<Backend> where Backend::Edge: WeightedEdge + Copy {
    /// The lightest round trip through all vertices, found by trying them all. It
    /// starts from `start_vertex_id` or, without it, from the first vertex that the
    /// graph lists. The path is empty where the graph holds no start vertex.
    pub fn tsp_brute_force(&self, start_vertex_id: Option<usize>) -> (r: TspResult<Backend>)
        requires
            self.wf(),
            joined(self.model()),
        ensures
            r is Ok,
            match start_vertex_id {
                Some(s) => !self.model().has_vertex(s),
                None => self.model().vertices.dom().len() == 0,
            } ==> r->Ok_0@.len() == 0,
            !(match start_vertex_id {
                Some(s) => !self.model().has_vertex(s),
                None => self.model().vertices.dom().len() == 0,
            }) ==> exists|t: Seq<usize>|
                {
                    &&& t.len() > 0
                    &&& #[trigger] is_tour(self.model(), t[0], t)
                    &&& start_vertex_id is Some ==> t[0] == start_vertex_id->Some_0
                    &&& r->Ok_0@ == steps_of(self.model(), t)
                    &&& forall|other: Seq<usize>| #[trigger]
                        is_tour(self.model(), t[0], other) ==> walk_weight(self.model(), t)
                            <= walk_weight(self.model(), other)
                },
    {
        let ghost m = self.model();
        proof {
            self.lemma_wf();
        }
        let (start_v, mut remaining) = match self.get_initial_vertex(start_vertex_id) {
            Some(v) => v,
            None => {
                return Ok(Path::default());
            },
        };
        let ghost rest = remaining@;
        let mut best_path: Option<(i128, Vec<usize>)> = None;
        let mut initial_path: Vec<usize> = Vec::new();
        initial_path.push(start_v);
        proof {
            lemma_start_and_rest(start_v, rest, m.vertices.dom());
            assert(initial_path@ =~= seq![start_v]);
        }
        self.brute_force(start_v, &mut initial_path, 0, &mut remaining, &mut best_path);
        match best_path {
            Some((_, best)) => {
                proof {
                    let t = best@;
                    assert forall|i: int| 0 <= i < t.len() - 1 implies m.has_arc(
                        #[trigger] t[i],
                        t[i + 1],
                    ) by {
                        lemma_tour_arcs(m, start_v, t, i);
                    }
                    assert forall|other: Seq<usize>| #[trigger]
                        is_tour(m, start_v, other) implies walk_weight(m, t) <= walk_weight(
                        m,
                        other,
                    ) by {
                        lemma_tour_arranges(m, start_v, rest, other);
                        let order = other.subrange(1, other.len() - 1);
                        assert(arranges(order, rest));
                    }
                }
                let path = self.path_along(&best);
                Ok(path)
            },
            None => {
                assert(false);
                Ok(Path::default())
            },
        }
    }

    /// Tries every way to go on from `current_path` through the vertices of
    /// `remaining` and back to the start, and keeps the lightest round trip.
    fn brute_force(
        &self,
        current_v: usize,
        current_path: &mut Vec<usize>,
        current_cost: i128,
        remaining: &mut Vec<usize>,
        current_best: &mut Option<(i128, Vec<usize>)>,
    )
        requires
            self.wf(),
            self.model().valid(),
            joined(self.model()),
            old(current_path).len() > 0,
            current_v == old(current_path)[old(current_path).len() - 1],
            current_cost == walk_weight(self.model(), old(current_path)@),
            (old(current_path)@ + old(remaining)@).no_duplicates(),
            (old(current_path)@ + old(remaining)@).to_set() == self.model().vertices.dom(),
            best_ok(self.model(), old(current_path)[0], *old(current_best)),
        ensures
            final(current_path)@ == old(current_path)@,
            final(remaining)@ == old(remaining)@,
            best_ok(self.model(), old(current_path)[0], *final(current_best)),
            (*final(current_best)) is Some,
            (*old(current_best)) is Some ==> (*final(current_best))->Some_0.0 <= (*old(current_best))->Some_0.0,
            forall|order: Seq<usize>| #[trigger]
                arranges(order, old(remaining)@) ==> (*final(current_best))->Some_0.0 <= walk_weight(
                    self.model(),
                    old(current_path)@ + order + seq![old(current_path)[0]],
                ),
        decreases old(remaining).len(),
    {
        let ghost m = self.model();
        let ghost path0 = current_path@;
        let ghost rest0 = remaining@;
        let ghost start = current_path@[0];
        let ghost all = current_path@ + remaining@;
        proof {
            all.unique_seq_to_set();
            lemma_walk_weight_bound(m, path0);
            assert(all[0] == start);
            assert(all.to_set().contains(all[0]));
            assert(all[path0.len() - 1] == current_v);
            assert(all.to_set().contains(all[path0.len() - 1]));
        }
        let n = self.vertex_count();
        if current_path.len() == n {
            // All vertices are visited: back to the start.
            let first = current_path[0];
            proof {
                assert(rest0 =~= Seq::<usize>::empty());
                assert(all =~= path0);
                if path0.len() > 1 {
                    assert(path0[0] != path0[path0.len() - 1]);
                }
                assert(m.has_arc(current_v, first));
            }
            let edge_cost = match self.get_edge(current_v, first) {
                Some(e) => e.get_weight(),
                None => {
                    assert(false);
                    0
                },
            };
            let total_cost = current_cost + edge_cost as i128;
            proof {
                let t = path0.push(first);
                assert(t.drop_last() =~= path0);
                assert(is_tour(m, start, t));
                assert forall|order: Seq<usize>| #[trigger] arranges(order, rest0) implies path0 + order
                    + seq![start] == t by {
                    lemma_arranges_len(order, rest0);
                    assert(path0 + order + seq![start] =~= t);
                }
            }
            let better = match current_best {
                Some((best_cost, _)) => total_cost < *best_cost,
                None => true,
            };
            if better {
                let mut path: Vec<usize> = Vec::new();
                let mut i: usize = 0;
                while i < current_path.len()
                    invariant
                        0 <= i <= current_path.len(),
                        current_path@ == path0,
                        path@ == path0.take(i as int),
                    decreases current_path.len() - i,
                {
                    path.push(current_path[i]);
                    proof {
                        assert(path@ =~= path0.take(i + 1));
                    }
                    i += 1;
                }
                path.push(first);
                proof {
                    assert(path0.take(path0.len() as int) =~= path0);
                }
                *current_best = Some((total_cost, path));
            }
            return ;
        }
        proof {
            assert(rest0.len() > 0);
            assert forall|a: int, b: int|
                0 <= a < rest0.len() && 0 <= b < rest0.len() && a != b implies rest0[a] != rest0[b] by {
                assert(rest0[a] == all[path0.len() + a] && rest0[b] == all[path0.len() + b]);
            }
        }
        let last_remaining_idx = remaining.len() - 1;
        let mut next_i: usize = 0;
        while next_i <= last_remaining_idx
            invariant
                0 <= next_i <= last_remaining_idx + 1,
                last_remaining_idx + 1 == rest0.len(),
                self.wf(),
                m == self.model(),
                m.valid(),
                joined(m),
                n == m.vertices.dom().len(),
                current_path@ == path0,
                remaining@ == rest0,
                path0.len() > 0,
                path0.len() < n,
                start == path0[0],
                current_v == path0[path0.len() - 1],
                current_cost == walk_weight(m, path0),
                all == path0 + rest0,
                all.no_duplicates(),
                all.to_set() == m.vertices.dom(),
                all.len() == n,
                rest0.no_duplicates(),
                rest0.len() == old(remaining).len(),
                -path0.len() * 0x8000_0000_0000_0000 <= current_cost <= path0.len()
                    * 0x8000_0000_0000_0000,
                best_ok(m, start, *current_best),
                next_i > 0 ==> (*current_best) is Some,
                (*old(current_best)) is Some ==> (*current_best) is Some && (*current_best)->Some_0.0 <= (*old(current_best))->Some_0.0,
                forall|order: Seq<usize>, j: int|
                    #[trigger] arranges(order, rest0) && 0 <= j < next_i && order[0]
                        == #[trigger] rest0[j] ==> (*current_best)->Some_0.0 <= walk_weight(
                        m,
                        path0 + order + seq![start],
                    ),
            decreases last_remaining_idx + 1 - next_i,
        {
            let next = remaining[next_i];
            let moved = remaining[last_remaining_idx];
            let ghost before_best = *current_best;
            remaining.set(next_i, moved);
            remaining.pop();
            proof {
                assert(all[path0.len() + next_i] == next);
                assert(all.to_set().contains(all[path0.len() + next_i]));
                assert(all[path0.len() - 1] != all[path0.len() + next_i]);
                assert(m.has_arc(current_v, next));
            }
            let edge_cost = match self.get_edge(current_v, next) {
                Some(e) => e.get_weight(),
                None => {
                    assert(false);
                    0
                },
            };
            let new_cost = current_cost + edge_cost as i128;
            current_path.push(next);
            let ghost path1 = current_path@;
            let ghost rest1 = remaining@;
            proof {
                let after = path1 + rest1;
                assert(after.len() == all.len());
                assert forall|a: int| 0 <= a < path0.len() implies after[a] == all[a] by {}
                assert(after[path0.len() as int] == all[path0.len() + next_i]);
                assert forall|k: int|
                    0 <= k < all.len() - path0.len() - 1 && k != next_i implies #[trigger] after[path0.len()
                    + 1 + k] == all[path0.len() + k] by {
                    assert(after[path0.len() + 1 + k] == rest1[k]);
                }
                if next_i < all.len() - path0.len() - 1 {
                    assert(after[path0.len() + 1 + next_i] == rest1[next_i as int]);
                }
                lemma_rearranged(all, after, path0.len() as int, next_i as int);
                assert(path1.drop_last() =~= path0);
            }
            self.brute_force(next, current_path, new_cost, remaining, current_best);
            // Put `next` back where it was.
            current_path.pop();
            remaining.push(moved);
            remaining.set(next_i, next);
            proof {
                assert(current_path@ =~= path0);
                assert(remaining@ =~= rest0);
                assert forall|order: Seq<usize>, j: int|
                    #[trigger] arranges(order, rest0) && 0 <= j < next_i + 1 && order[0]
                        == #[trigger] rest0[j] implies (*current_best)->Some_0.0 <= walk_weight(
                    m,
                    path0 + order + seq![start],
                ) by {
                    lemma_arranges_len(order, rest0);
                    if j < next_i {
                        assert(before_best->Some_0.0 <= walk_weight(m, path0 + order + seq![start]));
                    } else {
                        let tail = order.drop_first();
                        lemma_order_tail(order, rest0, rest1, next_i as int);
                        assert(path1 + tail + seq![start] =~= path0 + order + seq![start]);
                    }
                }
            }
            next_i += 1;
        }
        proof {
            assert forall|order: Seq<usize>| #[trigger] arranges(order, rest0) implies (*current_best)->Some_0.0
                <= walk_weight(m, path0 + order + seq![start]) by {
                lemma_arranges_len(order, rest0);
                assert(order.to_set().contains(order[0]));
                assert(rest0.to_set().contains(order[0]));
                let j = choose|j: int| 0 <= j < rest0.len() && rest0[j] == order[0];
                assert(arranges(order, rest0) && 0 <= j < next_i && order[0] == rest0[j]);
            }
        }
    }
}

/// An arrangement that begins with the member at `at` goes on with an arrangement
/// of the others.
pub proof fn lemma_order_tail(order: Seq<usize>, rest: Seq<usize>, others: Seq<usize>, at: int)
    requires
        rest.no_duplicates(),
        arranges(order, rest),
        0 <= at < rest.len(),
        order.len() == rest.len(),
        order[0] == rest[at],
        others.len() == rest.len() - 1,
        forall|k: int| 0 <= k < others.len() && k != at ==> #[trigger] others[k] == rest[k],
        at < others.len() ==> others[at] == rest[rest.len() - 1],
    ensures
        arranges(order.drop_first(), others),
{
    let tail = order.drop_first();
    assert forall|a: int, b: int| 0 <= a < tail.len() && 0 <= b < tail.len() && a != b implies tail[a]
        != tail[b] by {
        assert(tail[a] == order[a + 1] && tail[b] == order[b + 1]);
    }
    assert forall|x: usize| tail.to_set().contains(x) <==> others.to_set().contains(x) by {
        if tail.contains(x) {
            let a = choose|a: int| 0 <= a < tail.len() && tail[a] == x;
            assert(order[a + 1] == x);
            assert(order.to_set().contains(order[a + 1]));
            assert(rest.to_set().contains(x));
            let b = choose|b: int| 0 <= b < rest.len() && rest[b] == x;
            assert(order[0] != order[a + 1]);
            assert(b != at);
            if b == rest.len() - 1 {
                assert(others[at] == x);
            } else {
                assert(others[b] == x);
            }
        }
        if others.contains(x) {
            let k = choose|k: int| 0 <= k < others.len() && others[k] == x;
            let b = if k == at {
                rest.len() - 1
            } else {
                k
            };
            assert(rest[b] == x);
            assert(b != at);
            assert(rest[b] != rest[at]);
            assert(rest.to_set().contains(rest[b]));
            assert(order.to_set().contains(x));
            let a = choose|a: int| 0 <= a < order.len() && order[a] == x;
            assert(a != 0);
            assert(tail[a - 1] == x);
        }
    }
    assert(tail.to_set() =~= others.to_set());
}

} // verus!
