use vstd::prelude::*;
use crate::graph::{Graph, GraphBase, WithID};
use crate::GraphError;
use super::bfs_iter::{BfsIter, BfsIterMut};
use super::dfs_iter::DfsIter;
use super::reach::{discover, reachable_from, visits_left, Frontier};

verus! {

/// Which traversal to use.
#[derive(Debug, Clone, Copy, Default)]
pub enum TraversalType {
    /// Breadth-first search.
    #[default]
    BFS,
    /// Depth-first search.
    DFS,
}

impl TraversalType {
    /// The name of the traversal.
    pub fn to_string(&self) -> (name: String)
        ensures
            name@ == (match self {
                TraversalType::BFS => "BFS"@,
                TraversalType::DFS => "DFS"@,
            }),
    {
        match self {
            TraversalType::BFS => "BFS".to_string(),
            TraversalType::DFS => "DFS".to_string(),
        }
    }
}

/// A traversal of either kind.
pub enum GraphIter<'a, Backend: GraphBase> {
    BFS(BfsIter<'a, Backend>),
    DFS(DfsIter<'a, Backend>),
}

impl<'a, Backend: GraphBase> GraphIter<'a, Backend> {
    /// Whether the traversal is breadth-first.
    pub open spec fn is_bfs(&self) -> bool {
        self is BFS
    }

    /// The graph that is traversed.
    pub open spec fn graph(&self) -> &Graph<Backend> {
        match self {
            GraphIter::BFS(it) => it.graph(),
            GraphIter::DFS(it) => it.graph(),
        }
    }

    /// The vertex that the traversal started from.
    pub open spec fn start(&self) -> usize {
        match self {
            GraphIter::BFS(it) => it.start(),
            GraphIter::DFS(it) => it.start(),
        }
    }

    /// The vertices that wait and those that were discovered.
    pub open spec fn frontier(&self) -> Frontier {
        match self {
            GraphIter::BFS(it) => it.frontier(),
            GraphIter::DFS(it) => it.frontier(),
        }
    }

    /// The vertices that were visited, in order.
    pub open spec fn yielded(&self) -> Seq<usize> {
        match self {
            GraphIter::BFS(it) => it.yielded(),
            GraphIter::DFS(it) => it.yielded(),
        }
    }

    pub open spec fn wf(&self) -> bool {
        match self {
            GraphIter::BFS(it) => it.wf(),
            GraphIter::DFS(it) => it.wf(),
        }
    }

    /// How many visits are left at most.
    pub open spec fn visits_left(&self) -> int {
        visits_left(self.graph().model(), self.frontier())
    }

    /// The vertex that is visited next: the first that waits in a breadth-first
    /// traversal, the last in a depth-first one.
    pub open spec fn next_id(&self) -> usize {
        match self {
            GraphIter::BFS(it) => it.frontier().pending[0],
            GraphIter::DFS(it) => it.frontier().pending.last(),
        }
    }

    /// Those that wait once the next vertex has been taken.
    pub open spec fn others(&self) -> Seq<usize> {
        match self {
            GraphIter::BFS(it) => it.frontier().pending.drop_first(),
            GraphIter::DFS(it) => it.frontier().pending.drop_last(),
        }
    }

    /// Visits the next vertex, if one waits. With no vertex left, every vertex that
    /// the start reaches has been visited once, and no other.
    pub fn next(&mut self) -> (r: Option<&'a Backend::Vertex>)
        requires
            old(self).wf(),
        ensures
            final(self).wf(),
            final(self).graph() == old(self).graph(),
            final(self).start() == old(self).start(),
            final(self).is_bfs() == old(self).is_bfs(),
            match r {
                Some(v) => {
                    let m = old(self).graph().model();
                    let u = old(self).next_id();
                    &&& old(self).frontier().pending.len() > 0
                    &&& v.spec_id() == u
                    &&& *v == m.vertices[u]
                    &&& final(self).frontier() == discover(
                        m.out(u),
                        m.out(u).len() as int,
                        Frontier::of(old(self).others(), old(self).frontier().visited),
                    )
                    &&& final(self).yielded() == old(self).yielded().push(u)
                    &&& final(self).visits_left() + 1 == old(self).visits_left()
                    &&& final(self).visits_left() >= 0
                },
                None => {
                    &&& old(self).frontier().pending.len() == 0
                    &&& final(self).frontier() == old(self).frontier()
                    &&& final(self).yielded() == old(self).yielded()
                    &&& final(self).yielded().no_duplicates()
                    &&& final(self).yielded().to_set() == reachable_from(
                        old(self).graph().model(),
                        old(self).start(),
                    )
                },
            },
    {
        match self {
            GraphIter::BFS(it) => it.next(),
            GraphIter::DFS(it) => it.next(),
        }
    }
}

/// A traversal that hands out each vertex to be changed in place. Only the
/// breadth-first traversal has this form.
pub enum GraphIterMut<'a, Backend: GraphBase> {
    BFS(BfsIterMut<'a, Backend>),
}

impl<'a, Backend: GraphBase> GraphIterMut<'a, Backend> {
    /// The traversal that this value wraps.
    pub open spec fn inner(&self) -> BfsIterMut<'a, Backend> {
        self->BFS_0
    }

    /// Visits the next vertex, if one waits, and hands it out to be changed.
    pub fn next(&mut self) -> (r: Option<&mut Backend::Vertex>)
        requires
            old(self).inner().wf(),
        ensures
            final(self).inner().start() == old(self).inner().start(),
            match r {
                Some(v) => {
                    let m = old(self).inner().graph().model();
                    let before = old(self).inner().frontier();
                    &&& before.pending.len() > 0
                    &&& v.spec_id() == before.pending[0]
                    &&& *v == m.vertices[before.pending[0]]
                    &&& final(self).inner().graph().model() == m.with_payload(
                        before.pending[0],
                        *final(v),
                    )
                    &&& final(self).inner().frontier() == discover(
                        m.out(before.pending[0]),
                        m.out(before.pending[0]).len() as int,
                        Frontier::of(before.pending.drop_first(), before.visited),
                    )
                    &&& final(self).inner().yielded() == old(self).inner().yielded().push(
                        before.pending[0],
                    )
                    &&& final(self).inner().visits_left() + 1 == old(self).inner().visits_left()
                    &&& final(self).inner().visits_left() >= 0
                    &&& final(v).spec_id() == before.pending[0] ==> final(self).inner().wf()
                },
                None => {
                    &&& old(self).inner().frontier().pending.len() == 0
                    &&& final(self).inner().graph() == old(self).inner().graph()
                    &&& final(self).inner().frontier() == old(self).inner().frontier()
                    &&& final(self).inner().yielded() == old(self).inner().yielded()
                    &&& final(self).inner().wf()
                    &&& final(self).inner().yielded().no_duplicates()
                    &&& final(self).inner().yielded().to_set() == reachable_from(
                        old(self).inner().graph().model(),
                        old(self).inner().start(),
                    )
                },
            },
    {
        match self {
            GraphIterMut::BFS(it) => it.next(),
        }
    }
}

impl<Backend: GraphBase> Graph<Backend> {
    /// A traversal of the given kind from `start_vertex`, about to visit it.
    pub fn iter(&self, start_vertex: usize, iter_type: TraversalType) -> (r: Result<
        GraphIter<'_, Backend>,
        GraphError,
    >)
        requires
            self.wf(),
        ensures
            match r {
                Ok(it) => {
                    &&& self.model().has_vertex(start_vertex)
                    &&& it.wf()
                    &&& it.graph() == self
                    &&& it.start() == start_vertex
                    &&& it.frontier() == Frontier::of(seq![start_vertex], set![start_vertex])
                    &&& it.yielded() == Seq::<usize>::empty()
                    &&& it.is_bfs() == (iter_type is BFS)
                },
                Err(e) => !self.model().has_vertex(start_vertex) && e == GraphError::VertexNotFound(
                    start_vertex,
                ),
            },
    {
        match iter_type {
            TraversalType::BFS => match self.bfs_iter(start_vertex) {
                Ok(it) => Ok(GraphIter::BFS(it)),
                Err(e) => Err(e),
            },
            TraversalType::DFS => match self.dfs_iter(start_vertex) {
                Ok(it) => Ok(GraphIter::DFS(it)),
                Err(e) => Err(e),
            },
        }
    }

    /// A breadth-first traversal from `start_vertex` that hands out each vertex to
    /// be changed in place. There is no depth-first traversal of this form.
    pub fn iter_mut(&mut self, start_vertex: usize, iter_type: TraversalType) -> (r: Result<
        GraphIterMut<'_, Backend>,
        GraphError,
    >)
        requires
            old(self).wf(),
            iter_type is BFS,
        ensures
            match r {
                Ok(it) => {
                    &&& old(self).model().has_vertex(start_vertex)
                    &&& it.inner().wf()
                    &&& it.inner().graph() == *old(self)
                    &&& it.inner().start() == start_vertex
                    &&& it.inner().frontier() == Frontier::of(
                        seq![start_vertex],
                        set![start_vertex],
                    )
                    &&& it.inner().yielded() == Seq::<usize>::empty()
                    &&& *final(self) == *final(it.inner().borrowed())
                },
                Err(e) => {
                    &&& !old(self).model().has_vertex(start_vertex)
                    &&& e == GraphError::VertexNotFound(start_vertex)
                    &&& *final(self) == *old(self)
                },
            },
    {
        match self.bfs_iter_mut(start_vertex) {
            Ok(it) => Ok(GraphIterMut::BFS(it)),
            Err(e) => Err(e),
        }
    }
}

} // verus!
