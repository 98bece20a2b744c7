use vstd::prelude::*;
use crate::fx::{set_contains, set_insert, set_new};
use crate::graph::{lemma_listing_covers, lists_vertices, Graph, GraphBase, WithID};
use crate::GraphError;
use super::iter::TraversalType;
use super::reach::{
    components, discover, lemma_reaches_self, lemma_reaches_trans, lemma_same_component,
    lemma_visits_left, reachable_from, reaches, Frontier,
};
use super::utils::ids_of;
use crate::graph::model::GraphModel;

verus! {

/// `seen` holds, for the vertices in `visited`, the sets of what they reach, and
/// `visited` holds with each vertex what it reaches.
pub open spec fn counted<Backend: GraphBase>(
    graph: &Graph<Backend>,
    visited: Set<usize>,
    seen: Set<Set<usize>>,
) -> bool {
    let m = graph.model();
    &&& seen.finite()
    &&& forall|x: usize, y: usize| visited.contains(x) && #[trigger] reaches(m, x, y) ==> visited.contains(y)
    &&& forall|x: usize| #[trigger] visited.contains(x) ==> seen.contains(reachable_from(m, x))
    &&& forall|c: Set<usize>| #[trigger]
        seen.contains(c) ==> exists|x: usize| visited.contains(x) && c == #[trigger] reachable_from(m, x)
}

/// The vertex that a traversal in the state `f` visits next: the first that waits
/// in a breadth-first traversal, the last in a depth-first one.
pub open spec fn taken(bfs: bool, f: Frontier) -> usize {
    if bfs {
        f.pending[0]
    } else {
        f.pending.last()
    }
}

/// The state of a traversal after its next visit.
pub open spec fn stepped<V: WithID, E>(m: GraphModel<V, E>, bfs: bool, f: Frontier) -> Frontier {
    let u = taken(bfs, f);
    discover(
        m.out(u),
        m.out(u).len() as int,
        Frontier::of(
            if bfs {
                f.pending.drop_first()
            } else {
                f.pending.drop_last()
            },
            f.visited,
        ),
    )
}

/// What a traversal that goes on from the state `f` marks, and whether it comes to
/// its end: each vertex that it visits is marked, until it visits one that was
/// marked before; then it breaks off. It makes `fuel` visits at most.
pub open spec fn sweep<V: WithID, E>(
    m: GraphModel<V, E>,
    bfs: bool,
    f: Frontier,
    marked: Set<usize>,
    fuel: nat,
) -> (Set<usize>, bool)
    decreases fuel,
{
    if f.pending.len() == 0 {
        (marked, true)
    } else if fuel == 0 || marked.contains(taken(bfs, f)) {
        (marked, false)
    } else {
        sweep(m, bfs, stepped(m, bfs, f), marked.insert(taken(bfs, f)), (fuel - 1) as nat)
    }
}

/// What is marked after the first `i` of the roots, and how many traversals have
/// come to their end: from each root that is not marked a traversal runs, with as
/// many visits as the graph has vertices at most, and counts if it comes to its
/// end.
pub open spec fn swept<V: WithID, E>(m: GraphModel<V, E>, bfs: bool, roots: Seq<usize>, i: nat) -> (
    Set<usize>,
    nat,
)
    decreases i,
{
    if i == 0 {
        (Set::empty(), 0)
    } else {
        let before = swept(m, bfs, roots, (i - 1) as nat);
        let root = roots[i - 1];
        if before.0.contains(root) {
            before
        } else {
            let pass = sweep(
                m,
                bfs,
                Frontier::of(seq![root], set![root]),
                before.0,
                m.vertices.dom().len(),
            );
            (
                pass.0,
                before.1 + (if pass.1 {
                    1nat
                } else {
                    0nat
                }),
            )
        }
    }
}

/// The roots hold every vertex of the graph.
pub open spec fn covers<V: WithID, E>(m: GraphModel<V, E>, roots: Seq<usize>) -> bool {
    forall|v: usize| #[trigger] m.has_vertex(v) ==> roots.contains(v)
}

impl<Backend: GraphBase> Graph<Backend> {
    /// Counts the traversals from the roots that come to their end: the roots are
    /// taken in order, and from each that no earlier traversal has visited a
    /// traversal is run, which counts unless it comes to a vertex that was visited
    /// before. In an undirected graph no traversal does, and with every vertex among
    /// the roots the count is the number of connected components. A root that is no
    /// vertex of the graph is an error.
    pub fn count_from_roots(&self, roots: &Vec<usize>, traversal_type: Option<TraversalType>) -> (r:
        Result<u32, GraphError>)
        requires
            self.wf(),
            roots.len() <= u32::MAX,
        ensures
            r is Ok <==> forall|k: int| 0 <= k < roots.len() ==> self.model().has_vertex(#[trigger] roots[k]),
            r is Err ==> exists|k: int|
                0 <= k < roots.len() && !self.model().has_vertex(#[trigger] roots[k]) && r->Err_0
                    == GraphError::VertexNotFound(roots[k]),
            r is Ok ==> r->Ok_0 == swept(
                self.model(),
                !(traversal_type matches Some(TraversalType::DFS)),
                roots@,
                roots.len() as nat,
            ).1,
            r is Ok ==> r->Ok_0 <= roots.len(),
            r is Ok && roots.len() > 0 ==> r->Ok_0 >= 1,
            r is Ok && !self.model().directed && covers(self.model(), roots@) ==> r->Ok_0 == components(
                self.model(),
            ).len(),
    {
        let iter_type = match traversal_type {
            Some(t) => t,
            None => TraversalType::BFS,
        };
        let ghost bfs = iter_type is BFS;
        let mut visited = set_new();
        let mut count: u32 = 0;
        let ghost m = self.model();
        let ghost mut seen: Set<Set<usize>> = Set::empty();
        proof {
            self.lemma_wf();
        }
        let mut i: usize = 0;
        while i < roots.len()
            invariant
                0 <= i <= roots.len(),
                self.wf(),
                m == self.model(),
                m.valid(),
                roots.len() <= u32::MAX,
                bfs == (iter_type is BFS),
                forall|k: int| 0 <= k < i ==> m.has_vertex(#[trigger] roots[k]),
                swept(m, bfs, roots@, i as nat) == (visited@, count as nat),
                count <= i,
                i > 0 ==> count >= 1,
                i == 0 ==> visited@ == Set::<usize>::empty(),
                visited@.finite(),
                forall|x: usize| #[trigger] visited@.contains(x) ==> m.has_vertex(x),
                forall|k: int| 0 <= k < i ==> visited@.contains(#[trigger] roots[k]),
                !m.directed ==> counted(self, visited@, seen) && count == seen.len(),
            decreases roots.len() - i,
        {
            let root = roots[i];
            if !set_contains(&visited, root) {
                let ghost before = visited@;
                let mut it = match self.iter(root, iter_type) {
                    Ok(it) => it,
                    Err(e) => {
                        return Err(e);
                    },
                };
                let ghost mut marked: Seq<usize> = Seq::empty();
                let mut running = true;
                let mut completed = false;
                proof {
                    lemma_visits_left(m, root, it.frontier(), it.yielded());
                    assert(before + marked.to_set() =~= before);
                    assert(set![root].len() == 1);
                    assert(it.visits_left() == m.vertices.dom().len());
                }
                while running
                    invariant
                        it.wf(),
                        it.graph() == self,
                        it.start() == root,
                        it.visits_left() >= 0,
                        it.is_bfs() == bfs,
                        running ==> sweep(
                            m,
                            bfs,
                            Frontier::of(seq![root], set![root]),
                            before,
                            m.vertices.dom().len(),
                        ) == sweep(m, bfs, it.frontier(), visited@, it.visits_left() as nat),
                        !running ==> sweep(
                            m,
                            bfs,
                            Frontier::of(seq![root], set![root]),
                            before,
                            m.vertices.dom().len(),
                        ) == (visited@, completed),
                        self.wf(),
                        m == self.model(),
                        m.valid(),
                        m.has_vertex(root),
                        !before.contains(root),
                        visited@.finite(),
                        visited@ == before + marked.to_set(),
                        forall|x: usize| #[trigger] before.contains(x) ==> m.has_vertex(x),
                        running || completed ==> marked == it.yielded(),
                        marked.len() == 0 ==> running && it.frontier().pending == seq![root],
                        marked.len() > 0 ==> marked[0] == root,
                        forall|k: int| 0 <= k < marked.len() ==> m.has_vertex(#[trigger] marked[k]),
                        completed ==> !running && it.yielded().to_set() == reachable_from(m, root),
                        before == Set::<usize>::empty() ==> running || completed,
                        !m.directed ==> counted(self, before, seen) && (running || completed),
                    decreases
                            if running {
                                it.visits_left() + 1
                            } else {
                                0
                            },
                {
                    let ghost yielded = it.yielded();
                    let ghost state = it.frontier();
                    let ghost left = it.visits_left();
                    match it.next() {
                        Some(v) => {
                            let vid = v.get_id();
                            proof {
                                assert(it.yielded() == yielded.push(vid));
                                assert(it.yielded()[yielded.len() as int] == vid);
                                assert(it.frontier().visited.contains(it.yielded()[yielded.len() as int]));
                                assert(reaches(m, root, vid));
                                assert(!yielded.contains(vid)) by {
                                    if yielded.contains(vid) {
                                        let k = choose|k: int| 0 <= k < yielded.len() && yielded[k] == vid;
                                        assert(it.yielded()[k] == vid);
                                    }
                                }
                                if yielded.len() == 0 {
                                    assert(vid == seq![root][0]);
                                }
                                assert(vid == taken(bfs, state));
                                assert(it.frontier() == stepped(m, bfs, state));
                                assert(left >= 1);
                            }
                            if set_contains(&visited, vid) {
                                // The traversal has run into what was counted before.
                                proof {
                                    assert(before.contains(vid));
                                    if !m.directed {
                                        lemma_not_reentered(self, before, seen, root, vid);
                                    }
                                }
                                running = false;
                            } else {
                                set_insert(&mut visited, vid);
                                proof {
                                    marked = marked.push(vid);
                                    assert(visited@ =~= before + marked.to_set()) by {
                                        assert forall|x: usize|
                                            visited@.contains(x) <==> (before + marked.to_set()).contains(
                                                x,
                                            ) by {
                                            if yielded.contains(x) {
                                                let k = choose|k: int|
                                                    0 <= k < yielded.len() && yielded[k] == x;
                                                assert(marked[k] == x);
                                            }
                                            if marked.contains(x) && x != vid {
                                                let k = choose|k: int|
                                                    0 <= k < marked.len() && marked[k] == x;
                                                assert(yielded[k] == x);
                                            }
                                            if x == vid {
                                                assert(marked[yielded.len() as int] == vid);
                                            }
                                        }
                                    }
                                    assert forall|k: int| 0 <= k < marked.len() implies m.has_vertex(
                                        #[trigger] marked[k],
                                    ) by {
                                        if k < yielded.len() {
                                            assert(marked[k] == yielded[k]);
                                        }
                                    }
                                    assert(marked[0] == root) by {
                                        if yielded.len() > 0 {
                                            assert(marked[0] == yielded[0]);
                                        }
                                    }
                                }
                            }
                        },
                        None => {
                            running = false;
                            completed = true;
                        },
                    }
                }
                proof {
                    assert(marked.contains(marked[0]));
                    assert(visited@.contains(root));
                    assert forall|x: usize| #[trigger] visited@.contains(x) implies m.has_vertex(x) by {
                        if marked.contains(x) {
                            let k = choose|k: int| 0 <= k < marked.len() && marked[k] == x;
                            assert(m.has_vertex(marked[k]));
                        }
                    }
                }
                if completed {
                    proof {
                        if !m.directed {
                            lemma_component_counted(self, before, seen, root);
                            seen = seen.insert(reachable_from(m, root));
                        }
                    }
                    count += 1;
                }
            }
            i += 1;
        }
        proof {
            if !m.directed && covers(m, roots@) {
                assert(seen =~= components(m)) by {
                    assert forall|c: Set<usize>| seen.contains(c) <==> components(m).contains(c) by {
                        if components(m).contains(c) {
                            let v = choose|v: usize|
                                m.has_vertex(v) && c == #[trigger] reachable_from(m, v);
                            assert(roots@.contains(v));
                            let k = choose|k: int| 0 <= k < roots.len() && roots[k] == v;
                            assert(visited@.contains(roots[k]));
                        }
                    }
                }
            }
        }
        Ok(count)
    }

    /// Counts the connected subgraphs: the vertices are taken in the order in which
    /// the graph lists them, and from each that no earlier traversal has visited a
    /// traversal is run, which counts unless it comes to a vertex that was visited
    /// before. In an undirected graph no traversal does, and the count is the number
    /// of connected components.
    pub fn count_connected_subgraphs(&self, traversal_type: Option<TraversalType>) -> (r: Result<
        u32,
        GraphError,
    >)
        requires
            self.wf(),
            self.model().vertices.dom().len() <= u32::MAX,
        ensures
            r is Ok,
            exists|listing: Seq<&Backend::Vertex>| #[trigger]
                lists_vertices(listing, self.model()) && r->Ok_0 == swept(
                    self.model(),
                    !(traversal_type matches Some(TraversalType::DFS)),
                    ids_of(listing),
                    listing.len(),
                ).1,
            r->Ok_0 <= self.model().vertices.dom().len(),
            self.model().vertices.dom().len() > 0 ==> r->Ok_0 >= 1,
            !self.model().directed ==> r->Ok_0 == components(self.model()).len(),
    {
        proof {
            self.lemma_wf();
        }
        let ghost m = self.model();
        let vertices = self.get_all_vertices();
        let mut roots: Vec<usize> = Vec::new();
        let mut i: usize = 0;
        while i < vertices.len()
            invariant
                0 <= i <= vertices.len(),
                roots@ == ids_of(vertices@).take(i as int),
            decreases vertices.len() - i,
        {
            roots.push(vertices[i].get_id());
            proof {
                assert(roots@ =~= ids_of(vertices@).take(i + 1));
            }
            i += 1;
        }
        proof {
            let all = ids_of(vertices@);
            assert(all.take(vertices.len() as int) =~= all);
            assert forall|k: int| 0 <= k < roots.len() implies m.has_vertex(#[trigger] roots[k]) by {
                assert(m.has_vertex(vertices[k].spec_id()));
            }
            assert(covers(m, roots@)) by {
                assert forall|v: usize| #[trigger] m.has_vertex(v) implies roots@.contains(v) by {
                    lemma_listing_covers(vertices@, m, v);
                    let a = choose|a: int| 0 <= a < vertices.len() && (#[trigger] vertices[a]).spec_id() == v;
                    assert(roots[a] == v);
                }
            }
        }
        let r = self.count_from_roots(&roots, traversal_type);
        proof {
            assert(lists_vertices(vertices@, m) && r->Ok_0 == swept(
                m,
                !(traversal_type matches Some(TraversalType::DFS)),
                ids_of(vertices@),
                vertices@.len(),
            ).1);
        }
        r
    }

    /// Counts the connected subgraphs with breadth-first traversals.
    pub fn count_connected_subgraphs_with_default_traversal(&self) -> (r: Result<u32, GraphError>)
        requires
            self.wf(),
            self.model().vertices.dom().len() <= u32::MAX,
        ensures
            r is Ok,
            exists|listing: Seq<&Backend::Vertex>| #[trigger]
                lists_vertices(listing, self.model()) && r->Ok_0 == swept(
                    self.model(),
                    true,
                    ids_of(listing),
                    listing.len(),
                ).1,
            r->Ok_0 <= self.model().vertices.dom().len(),
            self.model().vertices.dom().len() > 0 ==> r->Ok_0 >= 1,
            !self.model().directed ==> r->Ok_0 == components(self.model()).len(),
    {
        self.count_connected_subgraphs(None)
    }
}

/// In an undirected graph a traversal from a vertex that was not visited comes to
/// no vertex that was.
pub proof fn lemma_not_reentered<Backend: GraphBase>(
    graph: &Graph<Backend>,
    before: Set<usize>,
    seen: Set<Set<usize>>,
    root: usize,
    vid: usize,
)
    requires
        graph.model().valid(),
        !graph.model().directed,
        counted(graph, before, seen),
        !before.contains(root),
        reaches(graph.model(), root, vid),
    ensures
        !before.contains(vid),
{
    let m = graph.model();
    if before.contains(vid) {
        super::reach::lemma_reaches_back(m, root, vid);
        assert(before.contains(root));
    }
}

/// A completed traversal from a vertex that was not visited adds one component.
pub proof fn lemma_component_counted<Backend: GraphBase>(
    graph: &Graph<Backend>,
    before: Set<usize>,
    seen: Set<Set<usize>>,
    root: usize,
)
    requires
        graph.model().valid(),
        !graph.model().directed,
        counted(graph, before, seen),
        !before.contains(root),
        graph.model().has_vertex(root),
    ensures
        !seen.contains(reachable_from(graph.model(), root)),
        counted(
            graph,
            before + reachable_from(graph.model(), root),
            seen.insert(reachable_from(graph.model(), root)),
        ),
{
    let m = graph.model();
    let c = reachable_from(m, root);
    let after = before + c;
    lemma_reaches_self(m, root);
    if seen.contains(c) {
        let x = choose|x: usize| before.contains(x) && c == #[trigger] reachable_from(m, x);
        assert(reachable_from(m, x).contains(root));
        assert(reaches(m, x, root));
    }
    assert forall|x: usize, y: usize| after.contains(x) && #[trigger] reaches(m, x, y) implies after.contains(
        y,
    ) by {
        if !before.contains(x) {
            lemma_reaches_trans(m, root, x, y);
        }
    }
    assert forall|x: usize| #[trigger] after.contains(x) implies seen.insert(c).contains(
        reachable_from(m, x),
    ) by {
        if !before.contains(x) {
            lemma_same_component(m, root, x);
        }
    }
    assert forall|d: Set<usize>| #[trigger] seen.insert(c).contains(d) implies exists|x: usize|
        after.contains(x) && d == #[trigger] reachable_from(m, x) by {
        if d == c {
            assert(after.contains(root) && d == reachable_from(m, root));
        } else {
            let x = choose|x: usize| before.contains(x) && d == #[trigger] reachable_from(m, x);
            assert(after.contains(x) && d == reachable_from(m, x));
        }
    }
}

} // verus!
