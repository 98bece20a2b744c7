use vstd::prelude::*;
use rustc_hash::FxHashSet;
use crate::fx::{set_insert, set_new};
use crate::graph::{Graph, GraphBase, WithID};
use crate::GraphError;
use super::reach::{
    discover, discover_new, frontier_ok, lemma_discover_split, lemma_frontier_discover,
    lemma_frontier_done, lemma_frontier_end, lemma_frontier_start, lemma_frontier_take,
    lemma_visits_left,
    reachable_from, visits_left, Frontier,
};

verus! {

/// A depth-first traversal of a graph without recursion: the vertices wait on a
/// stack, and a vertex joins the stack when it is first seen as the head of an arc of
/// a visited vertex.
pub struct DfsIter<'a, Backend: GraphBase> {
    graph: &'a Graph<Backend>,
    stack: Vec<usize>,
    visited: FxHashSet<usize>,
    start: Ghost<usize>,
    yielded: Ghost<Seq<usize>>,
}

impl<'a, Backend: GraphBase> DfsIter<'a, Backend> {
    /// The graph that is traversed.
    pub closed spec fn graph(&self) -> &Graph<Backend> {
        self.graph
    }

    /// The vertex that the traversal started from.
    pub closed spec fn start(&self) -> usize {
        self.start@
    }

    /// The vertices that wait, the next last, and those that were discovered.
    pub closed spec fn frontier(&self) -> Frontier {
        Frontier::of(self.stack@, self.visited@)
    }

    /// The vertices that were visited, in order.
    pub closed spec fn yielded(&self) -> Seq<usize> {
        self.yielded@
    }

    pub open spec fn wf(&self) -> bool {
        &&& self.graph().wf()
        &&& frontier_ok(self.graph().model(), self.start(), self.frontier(), self.yielded())
    }

    /// How many visits are left at most.
    pub open spec fn visits_left(&self) -> int {
        visits_left(self.graph().model(), self.frontier())
    }

    pub(crate) fn new(graph: &'a Graph<Backend>, start_vertex: usize) -> (r: Result<Self, GraphError>)
        requires
            graph.wf(),
        ensures
            match r {
                Ok(it) => {
                    &&& graph.model().has_vertex(start_vertex)
                    &&& it.wf()
                    &&& it.graph() == graph
                    &&& it.start() == start_vertex
                    &&& it.frontier() == Frontier::of(seq![start_vertex], set![start_vertex])
                    &&& it.yielded() == Seq::<usize>::empty()
                },
                Err(e) => !graph.model().has_vertex(start_vertex) && e == GraphError::VertexNotFound(
                    start_vertex,
                ),
            },
    {
        if graph.get_vertex_by_id(start_vertex).is_none() {
            return Err(GraphError::VertexNotFound(start_vertex));
        }
        let mut stack: Vec<usize> = Vec::new();
        stack.push(start_vertex);
        let mut visited = set_new();
        set_insert(&mut visited, start_vertex);
        proof {
            lemma_frontier_start(graph.model(), start_vertex);
            assert(stack@ =~= seq![start_vertex]);
            assert(visited@ =~= set![start_vertex]);
        }
        Ok(DfsIter { graph, stack, visited, start: Ghost(start_vertex), yielded: Ghost(Seq::empty()) })
    }

    /// Visits the vertex that waits last, if there is one: the heads of its arcs
    /// that were not discovered before join the stack, in the order of the arcs, so
    /// that the head of the last arc is visited next.
    /// With no vertex left, every vertex that the start reaches has been visited
    /// once, and no other.
    pub fn next(&mut self) -> (r: Option<&'a Backend::Vertex>)
        requires
            old(self).wf(),
        ensures
            final(self).wf(),
            final(self).graph() == old(self).graph(),
            final(self).start() == old(self).start(),
            match r {
                Some(v) => {
                    let m = old(self).graph().model();
                    let before = old(self).frontier();
                    &&& before.pending.len() > 0
                    &&& v.spec_id() == before.pending.last()
                    &&& *v == m.vertices[before.pending.last()]
                    &&& final(self).frontier() == discover(
                        m.out(before.pending.last()),
                        m.out(before.pending.last()).len() as int,
                        Frontier::of(before.pending.drop_last(), before.visited),
                    )
                    &&& final(self).yielded() == old(self).yielded().push(before.pending.last())
                    &&& final(self).visits_left() + 1 == old(self).visits_left()
                    &&& final(self).visits_left() >= 0
                },
                None => {
                    &&& old(self).frontier().pending.len() == 0
                    &&& final(self).frontier() == old(self).frontier()
                    &&& final(self).yielded() == old(self).yielded()
                    &&& final(self).yielded().no_duplicates()
                    &&& final(self).yielded().to_set() == reachable_from(
                        old(self).graph().model(),
                        old(self).start(),
                    )
                },
            },
    {
        let ghost m = self.graph.model();
        let ghost before = self.frontier();
        proof {
            self.graph.lemma_wf();
        }
        match self.stack.pop() {
            Some(next_id) => {
                let ghost rest = Frontier::of(self.stack@, self.visited@);
                proof {
                    assert(before.pending.remove(before.pending.len() - 1) =~= self.stack@);
                    assert(before.pending.drop_last() =~= self.stack@);
                    lemma_frontier_take(
                        m,
                        self.start@,
                        before,
                        self.yielded@,
                        before.pending.len() - 1,
                    );
                    let n = m.out(next_id).len() as int;
                    lemma_frontier_discover(m, self.start@, rest, self.yielded@, next_id, n);
                    lemma_discover_split(m.out(next_id), n, rest.pending, rest.visited);
                    lemma_frontier_done(
                        m,
                        self.start@,
                        discover(m.out(next_id), n, rest),
                        self.yielded@,
                        next_id,
                    );
                    lemma_visits_left(
                        m,
                        self.start@,
                        discover(m.out(next_id), n, rest),
                        self.yielded@.push(next_id),
                    );
                }
                let fresh = discover_new(self.graph, next_id, &mut self.visited);
                let mut i: usize = 0;
                while i < fresh.len()
                    invariant
                        0 <= i <= fresh.len(),
                        self.stack@ == rest.pending + fresh@.take(i as int),
                        self.graph == old(self).graph,
                        self.visited@ == discover(
                            m.out(next_id),
                            m.out(next_id).len() as int,
                            rest,
                        ).visited,
                        self.start == old(self).start,
                        self.yielded == old(self).yielded,
                    decreases fresh.len() - i,
                {
                    self.stack.push(fresh[i]);
                    proof {
                        assert(fresh@.take(i + 1) =~= fresh@.take(i as int).push(fresh[i as int]));
                        assert((rest.pending + fresh@.take(i as int)).push(fresh[i as int])
                            =~= rest.pending + fresh@.take(i + 1));
                    }
                    i += 1;
                }
                proof {
                    assert(fresh@.take(fresh.len() as int) =~= fresh@);
                    self.yielded = Ghost(self.yielded@.push(next_id));
                    assert(before.visited.contains(before.pending[before.pending.len() - 1]));
                }
                self.graph.get_vertex_by_id(next_id)
            },
            None => {
                proof {
                    lemma_frontier_end(m, self.start@, before, self.yielded@);
                }
                None
            },
        }
    }
}

impl<Backend: GraphBase> Graph<Backend> {
    /// A depth-first traversal from `start_vertex`, about to visit it.
    pub fn dfs_iter(&self, start_vertex: usize) -> (r: Result<DfsIter<'_, Backend>, GraphError>)
        requires
            self.wf(),
        ensures
            match r {
                Ok(it) => {
                    &&& self.model().has_vertex(start_vertex)
                    &&& it.wf()
                    &&& it.graph() == self
                    &&& it.start() == start_vertex
                    &&& it.frontier() == Frontier::of(seq![start_vertex], set![start_vertex])
                    &&& it.yielded() == Seq::<usize>::empty()
                },
                Err(e) => !self.model().has_vertex(start_vertex) && e == GraphError::VertexNotFound(
                    start_vertex,
                ),
            },
    {
        DfsIter::new(self, start_vertex)
    }
}

} // verus!
