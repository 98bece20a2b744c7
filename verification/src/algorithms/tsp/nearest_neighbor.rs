use vstd::prelude::*;
use crate::graph::model::{weight_at, GraphModel};
use crate::graph::{Graph, GraphBase, Path, WeightedEdge, WithID};
use super::{is_tour, joined, lemma_tour_arcs, steps_of, TspResult};

verus! {

/// Every step of the trip but the last leads to a vertex that no vertex that was
/// not visited before is nearer than.
pub open spec fn nearest_first<V: WithID, E: WeightedEdge>(m: GraphModel<V, E>, t: Seq<usize>) -> bool {
    forall|i: int, x: usize|
        0 <= i < t.len() - 2 && m.has_vertex(x) && !t.take(i + 1).contains(x) ==> weight_at(
            m.arcs,
            (t[i], t[i + 1]),
        ) <= #[trigger] weight_at(m.arcs, (t[i], x))
}

impl<Backend: GraphBase> Graph<Backend> where Backend::Edge: WeightedEdge + Copy {
    /// A round trip by the nearest-neighbour rule: from the start vertex, which is
    /// `start_vertex_id` or, without it, the first vertex that the graph lists, each
    /// step leads to the nearest vertex that was not visited, and the last step
    /// back. The path is empty where the graph holds no start vertex.
    pub fn tsp_nearest_neighbor(&self, start_vertex_id: Option<usize>) -> (r: TspResult<Backend>)
        requires
            self.wf(),
            joined(self.model()),
        ensures
            r is Ok,
            match start_vertex_id {
                Some(s) => !self.model().has_vertex(s),
                None => self.model().vertices.dom().len() == 0,
            } ==> r->Ok_0@.len() == 0,
            !(match start_vertex_id {
                Some(s) => !self.model().has_vertex(s),
                None => self.model().vertices.dom().len() == 0,
            }) ==> exists|t: Seq<usize>|
                {
                    &&& #[trigger] is_tour(self.model(), t[0], t)
                    &&& start_vertex_id is Some ==> t[0] == start_vertex_id->Some_0
                    &&& nearest_first(self.model(), t)
                    &&& r->Ok_0@ == steps_of(self.model(), t)
                },
    {
        let ghost m = self.model();
        proof {
            self.lemma_wf();
        }
        let (start_v, mut remaining) = match self.get_initial_vertex(start_vertex_id) {
            Some(v) => v,
            None => {
                return Ok(Path::default());
            },
        };
        let ghost rest = remaining@;
        let mut current_path: Vec<usize> = Vec::new();
        current_path.push(start_v);
        proof {
            lemma_start_and_rest(start_v, rest, m.vertices.dom());
            assert(current_path@ =~= seq![start_v]);
        }
        while remaining.len() > 0
            invariant
                self.wf(),
                m == self.model(),
                m.valid(),
                joined(m),
                current_path.len() > 0,
                current_path[0] == start_v,
                (current_path@ + remaining@).no_duplicates(),
                (current_path@ + remaining@).to_set() == m.vertices.dom(),
                current_path.len() + remaining.len() == m.vertices.dom().len(),
                forall|i: int, x: usize|
                    0 <= i < current_path.len() - 1 && m.has_vertex(x) && !current_path@.take(
                        i + 1,
                    ).contains(x) ==> weight_at(m.arcs, (current_path[i], current_path[i + 1]))
                        <= #[trigger] weight_at(m.arcs, (current_path[i], x)),
            decreases remaining.len(),
        {
            let current = current_path[current_path.len() - 1];
            let ghost all = current_path@ + remaining@;
            proof {
                assert(all[current_path.len() - 1] == current);
                assert(all.to_set().contains(all[current_path.len() - 1]));
            }
            // The nearest of the vertices that are left.
            let mut next_v_idx: usize = 0;
            let mut least: i64 = 0;
            let mut i: usize = 0;
            while i < remaining.len()
                invariant
                    0 <= i <= remaining.len(),
                    self.wf(),
                    m == self.model(),
                    m.valid(),
                    joined(m),
                    m.has_vertex(current),
                    all == current_path@ + remaining@,
                    all.no_duplicates(),
                    all.to_set() == m.vertices.dom(),
                    current_path.len() > 0,
                    current == current_path[current_path.len() - 1],
                    i > 0 ==> next_v_idx < i && least == weight_at(
                        m.arcs,
                        (current, remaining[next_v_idx as int]),
                    ),
                    forall|k: int|
                        0 <= k < i ==> least <= weight_at(m.arcs, (current, #[trigger] remaining[k])),
                decreases remaining.len() - i,
            {
                let candidate = remaining[i];
                proof {
                    assert(all[current_path.len() + i] == candidate);
                    assert(all.to_set().contains(all[current_path.len() + i]));
                    assert(all[current_path.len() - 1] != all[current_path.len() + i]);
                    assert(m.has_arc(current, candidate));
                }
                let weight = match self.get_edge(current, candidate) {
                    Some(e) => e.get_weight(),
                    None => {
                        assert(false);
                        0
                    },
                };
                if i == 0 || weight < least {
                    next_v_idx = i;
                    least = weight;
                }
                i += 1;
            }
            let next = remaining[next_v_idx];
            let ghost before_path = current_path@;
            let ghost before_rest = remaining@;
            // It is visited next and leaves those that are left.
            current_path.push(next);
            let last_idx = remaining.len() - 1;
            let moved = remaining[last_idx];
            remaining.set(next_v_idx, moved);
            remaining.pop();
            proof {
                let after = current_path@ + remaining@;
                assert forall|a: int| 0 <= a < after.len() implies exists|b: int|
                    0 <= b < all.len() && all[b] == #[trigger] after[a] && (a < before_path.len() ==> b
                        == a) by {
                    if a < before_path.len() {
                        assert(after[a] == all[a]);
                    } else if a == before_path.len() {
                        assert(after[a] == all[before_path.len() + next_v_idx]);
                    } else {
                        let k = a - before_path.len() - 1;
                        if k == next_v_idx {
                            assert(after[a] == all[before_path.len() + last_idx]);
                        } else {
                            assert(after[a] == all[before_path.len() + k]);
                        }
                    }
                }
                lemma_rearranged(all, after, before_path.len() as int, next_v_idx as int);
                assert forall|i: int, x: usize|
                    0 <= i < current_path.len() - 1 && m.has_vertex(x) && !current_path@.take(
                        i + 1,
                    ).contains(x) implies weight_at(m.arcs, (current_path[i], current_path[i + 1]))
                    <= #[trigger] weight_at(m.arcs, (current_path[i], x)) by {
                    if i < before_path.len() - 1 {
                        assert(current_path@.take(i + 1) =~= before_path.take(i + 1));
                        assert(current_path[i] == before_path[i]);
                        assert(current_path[i + 1] == before_path[i + 1]);
                    } else {
                        assert(current_path@.take(i + 1) =~= before_path);
                        assert(all.to_set().contains(x));
                        let b = choose|b: int| 0 <= b < all.len() && all[b] == x;
                        if b < before_path.len() {
                            assert(before_path[b] == x);
                        } else {
                            assert(before_rest[b - before_path.len()] == x);
                        }
                    }
                }
            }
        }
        // Back to the start.
        let ghost visited = current_path@;
        current_path.push(start_v);
        proof {
            let t = current_path@;
            assert(remaining@ =~= Seq::<usize>::empty());
            assert(visited + remaining@ =~= visited);
            assert(t.drop_last() =~= visited);
            assert(t[0] == visited[0]);
            assert(is_tour(m, start_v, t));
            assert forall|i: int| 0 <= i < t.len() - 1 implies m.has_arc(#[trigger] t[i], t[i + 1]) by {
                lemma_tour_arcs(m, start_v, t, i);
            }
            assert(nearest_first(m, t)) by {
                assert forall|i: int, x: usize|
                    0 <= i < t.len() - 2 && m.has_vertex(x) && !t.take(i + 1).contains(
                        x,
                    ) implies weight_at(m.arcs, (t[i], t[i + 1])) <= #[trigger] weight_at(
                    m.arcs,
                    (t[i], x),
                ) by {
                    assert(t.take(i + 1) =~= t.drop_last().take(i + 1));
                    assert(t[i] == t.drop_last()[i] && t[i + 1] == t.drop_last()[i + 1]);
                }
            }
        }
        let path = self.path_along(&current_path);
        Ok(path)
    }
}

/// The start vertex and the other vertices, each once, are the vertices.
pub proof fn lemma_start_and_rest(start: usize, rest: Seq<usize>, all: Set<usize>)
    requires
        all.contains(start),
        rest.no_duplicates(),
        rest.to_set() == all.remove(start),
    ensures
        (seq![start] + rest).no_duplicates(),
        (seq![start] + rest).to_set() == all,
        (seq![start] + rest).len() == rest.len() + 1,
{
    let s = seq![start] + rest;
    assert forall|a: int, b: int| 0 <= a < s.len() && 0 <= b < s.len() && a != b implies s[a]
        != s[b] by {
        if a > 0 {
            assert(s[a] == rest[a - 1]);
            assert(rest.to_set().contains(rest[a - 1]));
        }
        if b > 0 {
            assert(s[b] == rest[b - 1]);
            assert(rest.to_set().contains(rest[b - 1]));
        }
    }
    assert forall|x: usize| s.to_set().contains(x) <==> all.contains(x) by {
        if s.contains(x) {
            let a = choose|a: int| 0 <= a < s.len() && s[a] == x;
            if a > 0 {
                assert(rest.to_set().contains(rest[a - 1]));
            }
        }
        if all.contains(x) {
            if x == start {
                assert(s[0] == x);
            } else {
                assert(rest.to_set().contains(x));
                let b = choose|b: int| 0 <= b < rest.len() && rest[b] == x;
                assert(s[b + 1] == x);
            }
        }
    }
    assert(s.to_set() =~= all);
}

/// Taking the member at `at` of the second part of a sequence to the end of its
/// first part, and the last member to its place, rearranges the sequence.
pub proof fn lemma_rearranged(all: Seq<usize>, after: Seq<usize>, split: int, at: int)
    requires
        all.no_duplicates(),
        0 <= split,
        0 <= at,
        split + at < all.len(),
        after.len() == all.len(),
        forall|a: int| 0 <= a < split ==> after[a] == all[a],
        after[split] == all[split + at],
        forall|k: int|
            0 <= k < all.len() - split - 1 && k != at ==> #[trigger] after[split + 1 + k] == all[split
                + k],
        at < all.len() - split - 1 ==> after[split + 1 + at] == all[all.len() - 1],
    ensures
        after.no_duplicates(),
        after.to_set() == all.to_set(),
{
    let n = all.len() as int;
    let src = |a: int|
        if a < split {
            a
        } else if a == split {
            split + at
        } else if a - split - 1 == at {
            n - 1
        } else {
            a - 1
        };
    assert forall|a: int| 0 <= a < n implies after[a] == all[src(a)] && 0 <= src(a) < n by {
        if a > split && a - split - 1 != at {
            assert(after[split + 1 + (a - split - 1)] == all[split + (a - split - 1)]);
        }
    }
    assert forall|a: int, b: int| 0 <= a < n && 0 <= b < n && a != b implies after[a] != after[b] by {
        assert(src(a) != src(b));
    }
    assert forall|x: usize| after.to_set().contains(x) <==> all.to_set().contains(x) by {
        if after.contains(x) {
            let a = choose|a: int| 0 <= a < n && after[a] == x;
            assert(all[src(a)] == x);
        }
        if all.contains(x) {
            let b = choose|b: int| 0 <= b < n && all[b] == x;
            let a = if b < split {
                b
            } else if b == split + at {
                split
            } else if b == n - 1 {
                split + 1 + at
            } else {
                b + 1
            };
            assert(src(a) == b);
            assert(after[a] == x);
        }
    }
    assert(after.to_set() =~= all.to_set());
}

} // verus!
