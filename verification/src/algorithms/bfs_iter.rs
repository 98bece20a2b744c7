use vstd::prelude::*;
use super::breadth::breadth_first;
use std::collections::VecDeque;
use rustc_hash::FxHashSet;
use crate::fx::{set_insert, set_new};
use crate::graph::{Graph, GraphBase, WithID};
use crate::GraphError;
use super::reach::{
    discover, discover_new, frontier_ok, lemma_discover_split, lemma_frontier_discover,
    lemma_frontier_done, lemma_frontier_end, lemma_frontier_payload, lemma_frontier_start,
    lemma_frontier_take, lemma_visits_left,
    reachable_from, visits_left, Frontier,
};

verus! {

/// A breadth-first traversal of a graph: the vertices wait in a queue, and a vertex
/// joins the queue when it is first seen as the head of an arc of a visited vertex.
pub struct BfsIter<'a, Backend: GraphBase> {
    graph: &'a Graph<Backend>,
    queue: VecDeque<usize>,
    visited: FxHashSet<usize>,
    start: Ghost<usize>,
    yielded: Ghost<Seq<usize>>,
}

impl<'a, Backend: GraphBase> BfsIter<'a, Backend> {
    /// The graph that is traversed.
    pub closed spec fn graph(&self) -> &Graph<Backend> {
        self.graph
    }

    /// The vertex that the traversal started from.
    pub closed spec fn start(&self) -> usize {
        self.start@
    }

    /// The vertices that wait, the next first, and those that were discovered.
    pub closed spec fn frontier(&self) -> Frontier {
        Frontier::of(self.queue@, self.visited@)
    }

    /// The vertices that were visited, in order.
    pub closed spec fn yielded(&self) -> Seq<usize> {
        self.yielded@
    }

    pub open spec fn wf(&self) -> bool {
        &&& self.graph().wf()
        &&& frontier_ok(self.graph().model(), self.start(), self.frontier(), self.yielded())
        &&& breadth_first(self.graph().model(), self.start(), self.yielded().len()) == (
            self.frontier(),
            self.yielded(),
        )
    }

    /// How many visits are left at most.
    pub open spec fn visits_left(&self) -> int {
        visits_left(self.graph().model(), self.frontier())
    }

    pub(crate) fn new(graph: &'a Graph<Backend>, start_vertex: usize) -> (r: Result<Self, GraphError>)
        requires
            graph.wf(),
        ensures
            match r {
                Ok(it) => {
                    &&& graph.model().has_vertex(start_vertex)
                    &&& it.wf()
                    &&& it.graph() == graph
                    &&& it.start() == start_vertex
                    &&& it.frontier() == Frontier::of(seq![start_vertex], set![start_vertex])
                    &&& it.yielded() == Seq::<usize>::empty()
                },
                Err(e) => !graph.model().has_vertex(start_vertex) && e == GraphError::VertexNotFound(
                    start_vertex,
                ),
            },
    {
        if graph.get_vertex_by_id(start_vertex).is_none() {
            return Err(GraphError::VertexNotFound(start_vertex));
        }
        let mut queue: VecDeque<usize> = VecDeque::new();
        queue.push_back(start_vertex);
        let mut visited = set_new();
        set_insert(&mut visited, start_vertex);
        proof {
            lemma_frontier_start(graph.model(), start_vertex);
            assert(queue@ =~= seq![start_vertex]);
            assert(visited@ =~= set![start_vertex]);
        }
        Ok(BfsIter { graph, queue, visited, start: Ghost(start_vertex), yielded: Ghost(Seq::empty()) })
    }

    /// Visits the vertex that waits first, if there is one: the heads of its arcs
    /// that were not discovered before join the queue, in the order of the arcs.
    /// With no vertex left, every vertex that the start reaches has been visited
    /// once, and no other.
    pub fn next(&mut self) -> (r: Option<&'a Backend::Vertex>)
        requires
            old(self).wf(),
        ensures
            final(self).wf(),
            final(self).graph() == old(self).graph(),
            final(self).start() == old(self).start(),
            match r {
                Some(v) => {
                    let m = old(self).graph().model();
                    let before = old(self).frontier();
                    &&& before.pending.len() > 0
                    &&& v.spec_id() == before.pending[0]
                    &&& *v == m.vertices[before.pending[0]]
                    &&& final(self).frontier() == discover(
                        m.out(before.pending[0]),
                        m.out(before.pending[0]).len() as int,
                        Frontier::of(before.pending.drop_first(), before.visited),
                    )
                    &&& final(self).yielded() == old(self).yielded().push(before.pending[0])
                    &&& final(self).visits_left() + 1 == old(self).visits_left()
                    &&& final(self).visits_left() >= 0
                },
                None => {
                    &&& old(self).frontier().pending.len() == 0
                    &&& final(self).frontier() == old(self).frontier()
                    &&& final(self).yielded() == old(self).yielded()
                    &&& final(self).yielded().no_duplicates()
                    &&& final(self).yielded().to_set() == reachable_from(
                        old(self).graph().model(),
                        old(self).start(),
                    )
                },
            },
    {
        let ghost m = self.graph.model();
        let ghost before = self.frontier();
        proof {
            self.graph.lemma_wf();
        }
        match self.queue.pop_front() {
            Some(next_id) => {
                let ghost rest = Frontier::of(self.queue@, self.visited@);
                proof {
                    assert(before.pending.remove(0) =~= self.queue@);
                    assert(before.pending.drop_first() =~= self.queue@);
                    lemma_frontier_take(m, self.start@, before, self.yielded@, 0);
                    let n = m.out(next_id).len() as int;
                    lemma_frontier_discover(m, self.start@, rest, self.yielded@, next_id, n);
                    lemma_discover_split(m.out(next_id), n, rest.pending, rest.visited);
                    lemma_frontier_done(
                        m,
                        self.start@,
                        discover(m.out(next_id), n, rest),
                        self.yielded@,
                        next_id,
                    );
                    lemma_visits_left(
                        m,
                        self.start@,
                        discover(m.out(next_id), n, rest),
                        self.yielded@.push(next_id),
                    );
                }
                let fresh = discover_new(self.graph, next_id, &mut self.visited);
                let mut i: usize = 0;
                while i < fresh.len()
                    invariant
                        0 <= i <= fresh.len(),
                        self.queue@ == rest.pending + fresh@.take(i as int),
                        self.graph == old(self).graph,
                        self.visited@ == discover(
                            m.out(next_id),
                            m.out(next_id).len() as int,
                            rest,
                        ).visited,
                        self.start == old(self).start,
                        self.yielded == old(self).yielded,
                    decreases fresh.len() - i,
                {
                    self.queue.push_back(fresh[i]);
                    proof {
                        assert(fresh@.take(i + 1) =~= fresh@.take(i as int).push(fresh[i as int]));
                        assert((rest.pending + fresh@.take(i as int)).push(fresh[i as int])
                            =~= rest.pending + fresh@.take(i + 1));
                    }
                    i += 1;
                }
                proof {
                    assert(fresh@.take(fresh.len() as int) =~= fresh@);
                    self.yielded = Ghost(self.yielded@.push(next_id));
                    assert(before.visited.contains(before.pending[0]));
                }
                self.graph.get_vertex_by_id(next_id)
            },
            None => {
                proof {
                    lemma_frontier_end(m, self.start@, before, self.yielded@);
                }
                None
            },
        }
    }
}

/// A breadth-first traversal that hands out each vertex to be changed in place.
pub struct BfsIterMut<'a, Backend: GraphBase> {
    graph: &'a mut Graph<Backend>,
    queue: VecDeque<usize>,
    visited: FxHashSet<usize>,
    start: Ghost<usize>,
    yielded: Ghost<Seq<usize>>,
}

impl<'a, Backend: GraphBase> BfsIterMut<'a, Backend> {
    /// The graph that is traversed, as it is now.
    pub closed spec fn graph(&self) -> Graph<Backend> {
        *self.graph
    }

    /// The borrow of the graph that the traversal holds.
    pub closed spec fn borrowed(&self) -> &mut Graph<Backend> {
        self.graph
    }

    /// The vertex that the traversal started from.
    pub closed spec fn start(&self) -> usize {
        self.start@
    }

    /// The vertices that wait, the next first, and those that were discovered.
    pub closed spec fn frontier(&self) -> Frontier {
        Frontier { pending: self.queue@, visited: self.visited@ }
    }

    /// The vertices that were visited, in order.
    pub closed spec fn yielded(&self) -> Seq<usize> {
        self.yielded@
    }

    pub open spec fn wf(&self) -> bool {
        &&& self.graph().wf()
        &&& frontier_ok(self.graph().model(), self.start(), self.frontier(), self.yielded())
    }

    /// How many visits are left at most.
    pub open spec fn visits_left(&self) -> int {
        visits_left(self.graph().model(), self.frontier())
    }

    fn new(graph: &'a mut Graph<Backend>, start_vertex: usize) -> (r: Result<Self, GraphError>)
        requires
            old(graph).wf(),
        ensures
            match r {
                Ok(it) => {
                    &&& old(graph).model().has_vertex(start_vertex)
                    &&& it.wf()
                    &&& it.graph() == *old(graph)
                    &&& it.start() == start_vertex
                    &&& it.frontier() == Frontier::of(seq![start_vertex], set![start_vertex])
                    &&& it.yielded() == Seq::<usize>::empty()
                    &&& *final(graph) == *final(it.borrowed())
                },
                Err(e) => {
                    &&& !old(graph).model().has_vertex(start_vertex)
                    &&& e == GraphError::VertexNotFound(start_vertex)
                    &&& *final(graph) == *old(graph)
                },
            },
    {
        if graph.get_vertex_by_id(start_vertex).is_none() {
            return Err(GraphError::VertexNotFound(start_vertex));
        }
        let mut queue: VecDeque<usize> = VecDeque::new();
        queue.push_back(start_vertex);
        let mut visited = set_new();
        set_insert(&mut visited, start_vertex);
        proof {
            lemma_frontier_start(graph.model(), start_vertex);
            assert(queue@ =~= seq![start_vertex]);
            assert(visited@ =~= set![start_vertex]);
        }
        Ok(
            BfsIterMut {
                graph,
                queue,
                visited,
                start: Ghost(start_vertex),
                yielded: Ghost(Seq::empty()),
            },
        )
    }

    /// Visits the vertex that waits first, if there is one, as `BfsIter::next` does,
    /// and hands it out to be changed in place. The traversal can go on where the
    /// vertex keeps its id. With no vertex left, every vertex that the start reaches
    /// has been visited once, and no other.
    pub fn next(&mut self) -> (r: Option<&mut Backend::Vertex>)
        requires
            old(self).wf(),
        ensures
            final(self).start() == old(self).start(),
            match r {
                Some(v) => {
                    let m = old(self).graph().model();
                    let before = old(self).frontier();
                    &&& before.pending.len() > 0
                    &&& v.spec_id() == before.pending[0]
                    &&& *v == m.vertices[before.pending[0]]
                    &&& final(self).graph().model() == m.with_payload(before.pending[0], *final(v))
                    &&& final(self).frontier() == discover(
                        m.out(before.pending[0]),
                        m.out(before.pending[0]).len() as int,
                        Frontier::of(before.pending.drop_first(), before.visited),
                    )
                    &&& final(self).yielded() == old(self).yielded().push(before.pending[0])
                    &&& final(self).visits_left() + 1 == old(self).visits_left()
                    &&& final(self).visits_left() >= 0
                    &&& final(v).spec_id() == before.pending[0] ==> final(self).wf()
                },
                None => {
                    &&& old(self).frontier().pending.len() == 0
                    &&& final(self).graph() == old(self).graph()
                    &&& final(self).frontier() == old(self).frontier()
                    &&& final(self).yielded() == old(self).yielded()
                    &&& final(self).wf()
                    &&& final(self).yielded().no_duplicates()
                    &&& final(self).yielded().to_set() == reachable_from(
                        old(self).graph().model(),
                        old(self).start(),
                    )
                },
            },
    {
        let ghost m = self.graph.model();
        let ghost before = self.frontier();
        proof {
            self.graph.lemma_wf();
        }
        match self.queue.pop_front() {
            Some(next_id) => {
                let ghost rest = Frontier::of(self.queue@, self.visited@);
                let ghost after = discover(m.out(next_id), m.out(next_id).len() as int, rest);
                proof {
                    assert(before.pending.remove(0) =~= self.queue@);
                    assert(before.pending.drop_first() =~= self.queue@);
                    lemma_frontier_take(m, self.start@, before, self.yielded@, 0);
                    let n = m.out(next_id).len() as int;
                    lemma_frontier_discover(m, self.start@, rest, self.yielded@, next_id, n);
                    lemma_discover_split(m.out(next_id), n, rest.pending, rest.visited);
                    lemma_frontier_done(m, self.start@, after, self.yielded@, next_id);
                    lemma_visits_left(m, self.start@, after, self.yielded@.push(next_id));
                }
                let fresh = discover_new(&*self.graph, next_id, &mut self.visited);
                let mut i: usize = 0;
                while i < fresh.len()
                    invariant
                        0 <= i <= fresh.len(),
                        self.queue@ == rest.pending + fresh@.take(i as int),
                        *self.graph == *old(self).graph,
                        self.visited@ == after.visited,
                        self.start == old(self).start,
                        self.yielded == old(self).yielded,
                    decreases fresh.len() - i,
                {
                    self.queue.push_back(fresh[i]);
                    proof {
                        assert(fresh@.take(i + 1) =~= fresh@.take(i as int).push(fresh[i as int]));
                        assert((rest.pending + fresh@.take(i as int)).push(fresh[i as int])
                            =~= rest.pending + fresh@.take(i + 1));
                    }
                    i += 1;
                }
                proof {
                    assert(fresh@.take(fresh.len() as int) =~= fresh@);
                    self.yielded = Ghost(self.yielded@.push(next_id));
                    assert(before.visited.contains(before.pending[0]));
                    assert forall|v: Backend::Vertex|
                        #[trigger] frontier_ok(
                            m.with_payload(next_id, v),
                            self.start@,
                            after,
                            self.yielded@,
                        ) && visits_left(m.with_payload(next_id, v), after) == visits_left(
                            m,
                            after,
                        ) by {
                        lemma_frontier_payload(m, next_id, v, self.start@, after, self.yielded@);
                    }
                }
                self.graph.get_vertex_by_id_mut(next_id)
            },
            None => {
                proof {
                    lemma_frontier_end(m, self.start@, before, self.yielded@);
                }
                None
            },
        }
    }
}

impl<Backend: GraphBase> Graph<Backend> {
    /// A breadth-first traversal from `start_vertex`, about to visit it.
    pub fn bfs_iter(&self, start_vertex: usize) -> (r: Result<BfsIter<'_, Backend>, GraphError>)
        requires
            self.wf(),
        ensures
            match r {
                Ok(it) => {
                    &&& self.model().has_vertex(start_vertex)
                    &&& it.wf()
                    &&& it.graph() == self
                    &&& it.start() == start_vertex
                    &&& it.frontier() == Frontier::of(seq![start_vertex], set![start_vertex])
                    &&& it.yielded() == Seq::<usize>::empty()
                },
                Err(e) => !self.model().has_vertex(start_vertex) && e == GraphError::VertexNotFound(
                    start_vertex,
                ),
            },
    {
        BfsIter::new(self, start_vertex)
    }

    /// A breadth-first traversal from `start_vertex` that hands out each vertex to
    /// be changed in place. The graph is what the traversal leaves.
    pub fn bfs_iter_mut(&mut self, start_vertex: usize) -> (r: Result<
        BfsIterMut<'_, Backend>,
        GraphError,
    >)
        requires
            old(self).wf(),
        ensures
            match r {
                Ok(it) => {
                    &&& old(self).model().has_vertex(start_vertex)
                    &&& it.wf()
                    &&& it.graph() == *old(self)
                    &&& it.start() == start_vertex
                    &&& it.frontier() == Frontier::of(seq![start_vertex], set![start_vertex])
                    &&& it.yielded() == Seq::<usize>::empty()
                    &&& *final(self) == *final(it.borrowed())
                },
                Err(e) => {
                    &&& !old(self).model().has_vertex(start_vertex)
                    &&& e == GraphError::VertexNotFound(start_vertex)
                    &&& *final(self) == *old(self)
                },
            },
    {
        BfsIterMut::new(self, start_vertex)
    }
}

} // verus!
