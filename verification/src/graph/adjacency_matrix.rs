use vstd::prelude::*;
use vstd::string::StringExecFns;
use crate::text::{decimal, decimal_text};
use std::marker::PhantomData;
use super::direction::{Directed, Direction, Undirected};
use super::error::GraphError;
use super::model::{
    heads_below, inserts_arc, lemma_ids_below, lemma_listing_len, lemma_same_out,
    lemma_sorted_place, out_of, GraphModel,
};
use super::traits::{
    lists_edges, lists_vertices, weight_of_listing, GraphBase, WeightedEdge, WithID,
};

verus! {

/// The arcs that a matrix row stands for: one for each filled cell, by column.
pub open spec fn row_arcs<E>(row: Seq<Option<E>>) -> Seq<(usize, E)>
    decreases row.len(),
{
    if row.len() == 0 {
        Seq::empty()
    } else {
        let rest = row_arcs(row.drop_last());
        match row.last() {
            Some(e) => rest.push(((row.len() - 1) as usize, e)),
            None => rest,
        }
    }
}

/// Every arc of a row comes from a filled cell, and the arcs are ordered by column.
pub proof fn lemma_row_arcs_sound<E>(row: Seq<Option<E>>)
    requires
        row.len() <= usize::MAX,
    ensures
        row_arcs(row).len() <= row.len(),
        forall|i: int|
            0 <= i < row_arcs(row).len() ==> {
                let arc = #[trigger] row_arcs(row)[i];
                arc.0 < row.len() && row[arc.0 as int] == Some(arc.1)
            },
        forall|i: int, j: int|
            0 <= i < j < row_arcs(row).len() ==> (#[trigger] row_arcs(row)[i]).0 < (
            #[trigger] row_arcs(row)[j]).0,
    decreases row.len(),
{
    if row.len() > 0 {
        lemma_row_arcs_sound(row.drop_last());
    }
}

/// Every filled cell of a row has its arc.
pub proof fn lemma_row_arcs_complete<E>(row: Seq<Option<E>>, col: int)
    requires
        row.len() <= usize::MAX,
        0 <= col < row.len(),
        row[col] is Some,
    ensures
        exists|i: int|
            0 <= i < row_arcs(row).len() && #[trigger] row_arcs(row)[i] == (
                col as usize,
                row[col]->Some_0,
            ),
    decreases row.len(),
{
    let rest = row_arcs(row.drop_last());
    if col == row.len() - 1 {
        assert(row_arcs(row)[rest.len() as int] == (col as usize, row[col]->Some_0));
    } else {
        lemma_row_arcs_complete(row.drop_last(), col);
        let i = choose|i: int|
            0 <= i < rest.len() && #[trigger] rest[i] == (col as usize, row[col]->Some_0);
        assert(row_arcs(row)[i] == rest[i]);
    }
}

/// Filling an empty cell adds its arc at one place and leaves the others as they are.
pub proof fn lemma_row_arcs_fill<E>(row: Seq<Option<E>>, col: int, e: E)
    requires
        row.len() <= usize::MAX,
        0 <= col < row.len(),
        row[col] is None,
    ensures
        exists|k: int|
            0 <= k <= row_arcs(row).len() && row_arcs(row.update(col, Some(e))) == #[trigger] row_arcs(
                row,
            ).insert(k, (col as usize, e)),
    decreases row.len(),
{
    let after = row.update(col, Some(e));
    let rest = row_arcs(row.drop_last());
    if col == row.len() - 1 {
        assert(after.drop_last() =~= row.drop_last());
        assert(rest.push((col as usize, e)) =~= rest.insert(rest.len() as int, (col as usize, e)));
        assert(row_arcs(after) == row_arcs(row).insert(rest.len() as int, (col as usize, e)));
    } else {
        lemma_row_arcs_fill(row.drop_last(), col, e);
        assert(after.drop_last() =~= row.drop_last().update(col, Some(e)));
        let k = choose|k: int|
            0 <= k <= rest.len() && row_arcs(row.drop_last().update(col, Some(e)))
                == #[trigger] rest.insert(k, (col as usize, e));
        match row.last() {
            Some(last) => {
                let arc = ((row.len() - 1) as usize, last);
                assert(rest.insert(k, (col as usize, e)).push(arc) =~= rest.push(arc).insert(
                    k,
                    (col as usize, e),
                ));
            },
            None => {},
        }
        assert(row_arcs(after) == row_arcs(row).insert(k, (col as usize, e)));
    }
}

/// Another payload in a filled cell changes the payload of its arc and nothing else.
pub proof fn lemma_row_arcs_replace<E>(row: Seq<Option<E>>, col: int, e: E)
    requires
        row.len() <= usize::MAX,
        0 <= col < row.len(),
        row[col] is Some,
    ensures
        row_arcs(row.update(col, Some(e))).len() == row_arcs(row).len(),
        forall|i: int|
            0 <= i < row_arcs(row).len() ==> #[trigger] row_arcs(row.update(col, Some(e)))[i] == (
                row_arcs(row)[i].0,
                if row_arcs(row)[i].0 == col {
                    e
                } else {
                    row_arcs(row)[i].1
                },
            ),
    decreases row.len(),
{
    let after = row.update(col, Some(e));
    lemma_row_arcs_sound(row);
    if col == row.len() - 1 {
        assert(after.drop_last() =~= row.drop_last());
        lemma_row_arcs_sound(row.drop_last());
    } else {
        lemma_row_arcs_replace(row.drop_last(), col, e);
        assert(after.drop_last() =~= row.drop_last().update(col, Some(e)));
    }
}

/// A row without filled cells has no arcs.
pub proof fn lemma_row_arcs_none<E>(row: Seq<Option<E>>)
    requires
        forall|i: int| 0 <= i < row.len() ==> row[i] is None,
    ensures
        row_arcs(row) == Seq::<(usize, E)>::empty(),
    decreases row.len(),
{
    if row.len() > 0 {
        lemma_row_arcs_none(row.drop_last());
    }
}

/// The graph that a vertex list and a matrix of cells stand for.
pub open spec fn matrix_model<V: WithID, E>(
    vertices: Seq<V>,
    matrix: Seq<Seq<Option<E>>>,
    directed: bool,
) -> GraphModel<V, E> {
    GraphModel {
        vertices: Map::new(|id: usize| id < vertices.len(), |id: usize| vertices[id as int]),
        arcs: Map::new(|id: usize| id < vertices.len(), |id: usize| row_arcs(matrix[id as int])),
        directed,
    }
}

/// The shape that the cells of a graph with these vertices have.
pub open spec fn matrix_shape<V: WithID, E>(
    vertices: Seq<V>,
    matrix: Seq<Seq<Option<E>>>,
    directed: bool,
) -> bool {
    &&& vertices.len() <= usize::MAX
    &&& matrix.len() == vertices.len()
    &&& forall|i: int| 0 <= i < matrix.len() ==> (#[trigger] matrix[i]).len() == vertices.len()
    &&& forall|i: int| 0 <= i < vertices.len() ==> (#[trigger] vertices[i]).spec_id() == i
    &&& !directed ==> forall|i: int, j: int|
        0 <= i < matrix.len() && 0 <= j < matrix.len() ==> (#[trigger] matrix[i][j]) == matrix[j][i]
            && (i == j ==> matrix[i][j] is None)
}

/// The arc `from -> to` exists exactly where the cell in row `from` and column `to`
/// is filled, and its payload is what the cell holds.
pub proof fn lemma_matrix_cells<V: WithID, E>(
    vertices: Seq<V>,
    matrix: Seq<Seq<Option<E>>>,
    directed: bool,
    from: usize,
    to: usize,
)
    requires
        matrix_shape(vertices, matrix, directed),
    ensures
        ({
            let m = matrix_model(vertices, matrix, directed);
            let filled = from < vertices.len() && to < vertices.len() && matrix[from as int][to as int] is Some;
            &&& m.has_arc(from, to) <==> filled
            &&& filled ==> m.edge(from, to) == matrix[from as int][to as int]
        }),
{
    let m = matrix_model(vertices, matrix, directed);
    if from < vertices.len() {
        let row = matrix[from as int];
        lemma_row_arcs_sound(row);
        if to < vertices.len() && row[to as int] is Some {
            lemma_row_arcs_complete(row, to as int);
            let i = choose|i: int|
                0 <= i < row_arcs(row).len() && #[trigger] row_arcs(row)[i] == (
                    to,
                    row[to as int]->Some_0,
                );
            assert(m.arc_at(from, i, to));
            let c = m.arc_index(from, to);
            assert(m.arc_at(from, c, to));
        }
        if m.has_arc(from, to) {
            let c = m.arc_index(from, to);
            assert(m.arc_at(from, c, to));
        }
    } else {
        assert(m.out(from) =~= Seq::empty());
    }
}

/// The model of well-shaped cells is a valid graph, but for the count of its edges.
pub proof fn lemma_matrix_valid<V: WithID, E>(
    vertices: Seq<V>,
    matrix: Seq<Seq<Option<E>>>,
    directed: bool,
)
    requires
        matrix_shape(vertices, matrix, directed),
        matrix_model(vertices, matrix, directed).canonical_arcs().finite(),
    ensures
        matrix_model(vertices, matrix, directed).valid(),
        matrix_model(vertices, matrix, directed).vertices.dom().len() == vertices.len(),
{
    let m = matrix_model(vertices, matrix, directed);
    lemma_ids_below(vertices.len() as usize);
    assert(m.vertices.dom() =~= Set::new(|id: usize| id < vertices.len() as usize));
    assert forall|from: usize, i: int| 0 <= i < m.out(from).len() implies m.has_vertex(
        #[trigger] m.out(from)[i].0,
    ) by {
        lemma_row_arcs_sound(matrix[from as int]);
    }
    assert forall|from: usize, i: int, j: int|
        0 <= i < j < out_of(m.arcs, from).len() implies #[trigger] out_of(m.arcs, from)[i].0
        != #[trigger] out_of(m.arcs, from)[j].0 by {
        lemma_row_arcs_sound(matrix[from as int]);
    }
    if !directed {
        assert forall|from: usize, i: int| 0 <= i < m.out(from).len() implies {
            let arc = #[trigger] m.out(from)[i];
            arc.0 != from && m.edge(arc.0, from) == Some(arc.1)
        } by {
            lemma_row_arcs_sound(matrix[from as int]);
            let arc = m.out(from)[i];
            assert(matrix[from as int][arc.0 as int] == matrix[arc.0 as int][from as int]);
            lemma_matrix_cells(vertices, matrix, directed, arc.0, from);
        }
    }
}

/// Another payload for a vertex, under the same id, changes nothing else.
pub proof fn lemma_matrix_payload<V: WithID, E>(
    vertices: Seq<V>,
    matrix: Seq<Seq<Option<E>>>,
    directed: bool,
    id: usize,
    v: V,
)
    requires
        matrix_shape(vertices, matrix, directed),
        id < vertices.len(),
    ensures
        matrix_model(vertices.update(id as int, v), matrix, directed) == matrix_model(
            vertices,
            matrix,
            directed,
        ).with_payload(id, v),
        v.spec_id() == id ==> matrix_shape(vertices.update(id as int, v), matrix, directed),
        matrix_model(vertices.update(id as int, v), matrix, directed).canonical_arcs()
            == matrix_model(vertices, matrix, directed).canonical_arcs(),
{
    let a = matrix_model(vertices.update(id as int, v), matrix, directed);
    let b = matrix_model(vertices, matrix, directed).with_payload(id, v);
    assert(a.vertices =~= b.vertices);
    assert(a.arcs =~= b.arcs);
}

/// The cell `(a, b)` comes before the cell `(i, j)`, row by row.
pub open spec fn comes_before(a: usize, b: usize, i: usize, j: usize) -> bool {
    a < i || (a == i && b < j)
}

/// The `k`-th entry of `r` is the edge from `a` to `b`.
pub open spec fn lists_pair<E>(r: Seq<(usize, usize, &E)>, k: int, a: usize, b: usize) -> bool {
    0 <= k < r.len() && r[k].0 == a && r[k].1 == b
}

/// `r` lists, each once, the edges in the cells before `(i, j)`.
pub open spec fn listed_until<E>(
    r: Seq<(usize, usize, &E)>,
    cells: Seq<Seq<Option<E>>>,
    directed: bool,
    n: usize,
    i: usize,
    j: usize,
) -> bool {
    &&& forall|k: int|
        0 <= k < r.len() ==> {
            let t = #[trigger] r[k];
            &&& t.0 < n
            &&& t.1 < n
            &&& cells[t.0 as int][t.1 as int] == Some(*t.2)
            &&& (directed || t.0 <= t.1)
            &&& comes_before(t.0, t.1, i, j)
        }
    &&& forall|a: usize, b: usize|
        a < n && b < n && cells[a as int][b as int] is Some && (directed || a <= b)
            && #[trigger] comes_before(a, b, i, j) ==> exists|k: int| lists_pair(r, k, a, b)
    &&& forall|k: int, l: int|
        0 <= k < l < r.len() ==> ((#[trigger] r[k]).0, r[k].1) != ((#[trigger] r[l]).0, r[l].1)
}

/// A cell that holds no edge to list can be passed over.
pub proof fn lemma_listed_skip<E>(
    r: Seq<(usize, usize, &E)>,
    cells: Seq<Seq<Option<E>>>,
    directed: bool,
    n: usize,
    i: usize,
    j: usize,
)
    requires
        listed_until(r, cells, directed, n, i, j),
        i < n,
        j < n,
        !(cells[i as int][j as int] is Some && (directed || i <= j)),
    ensures
        listed_until(r, cells, directed, n, i, (j + 1) as usize),
{
    let j1 = (j + 1) as usize;
    assert forall|a: usize, b: usize|
        a < n && b < n && cells[a as int][b as int] is Some && (directed || a <= b)
            && #[trigger] comes_before(a, b, i, j1) implies exists|k: int| lists_pair(r, k, a, b) by {
        assert(comes_before(a, b, i, j));
    }
}

/// After the last cell of a row comes the first cell of the next.
pub proof fn lemma_listed_row<E>(
    r: Seq<(usize, usize, &E)>,
    cells: Seq<Seq<Option<E>>>,
    directed: bool,
    n: usize,
    i: usize,
)
    requires
        listed_until(r, cells, directed, n, i, n),
        i < n,
    ensures
        listed_until(r, cells, directed, n, (i + 1) as usize, 0),
{
    let i1 = (i + 1) as usize;
    assert forall|a: usize, b: usize|
        a < n && b < n && cells[a as int][b as int] is Some && (directed || a <= b)
            && #[trigger] comes_before(a, b, i1, 0) implies exists|k: int| lists_pair(r, k, a, b) by {
        assert(comes_before(a, b, i, n));
    }
}

/// The edge of the cell that is reached joins the list.
pub proof fn lemma_listed_push<E>(
    r: Seq<(usize, usize, &E)>,
    cells: Seq<Seq<Option<E>>>,
    directed: bool,
    n: usize,
    i: usize,
    j: usize,
    e: &E,
)
    requires
        listed_until(r, cells, directed, n, i, j),
        i < n,
        j < n,
        cells[i as int][j as int] == Some(*e),
        directed || i <= j,
    ensures
        listed_until(r.push((i, j, e)), cells, directed, n, i, (j + 1) as usize),
{
    let j1 = (j + 1) as usize;
    let after = r.push((i, j, e));
    assert(lists_pair(after, r.len() as int, i, j));
    assert forall|a: usize, b: usize|
        a < n && b < n && cells[a as int][b as int] is Some && (directed || a <= b)
            && #[trigger] comes_before(a, b, i, j1) implies exists|k: int|
        lists_pair(after, k, a, b) by {
        if comes_before(a, b, i, j) {
            let k = choose|k: int| lists_pair(r, k, a, b);
            assert(lists_pair(after, k, a, b));
        }
    }
    assert forall|k: int| 0 <= k < after.len() implies {
        let t = #[trigger] after[k];
        &&& t.0 < n
        &&& t.1 < n
        &&& cells[t.0 as int][t.1 as int] == Some(*t.2)
        &&& (directed || t.0 <= t.1)
        &&& comes_before(t.0, t.1, i, j1)
    } by {
        if k < r.len() {
            assert(after[k] == r[k]);
        }
    }
    assert forall|k: int, l: int| 0 <= k < l < after.len() implies ((#[trigger] after[k]).0, after[k].1)
        != ((#[trigger] after[l]).0, after[l].1) by {
        assert(after[k] == r[k]);
        if l < r.len() {
            assert(after[l] == r[l]);
        }
    }
}

/// A graph as a square matrix of cells, each empty or holding the payload of the arc
/// from its row's vertex to its column's vertex. The id of a vertex is its index:
/// vertices come in with the ids 0, 1, 2, ... in this order.
#[derive(Debug)]
pub struct AdjacencyMatrixGraph<Vertex: WithID, Edge, Dir: Direction> {
    vertices: Vec<Vertex>,
    matrix: Vec<Vec<Option<Edge>>>,
    edge_total: usize,
    _phantom: PhantomData<Dir>,
}

/// What the matrix says of a vertex whose id is not the number of its vertices.
pub open spec fn sequence_message(expected: nat, got: nat) -> Seq<char> {
    "Vertex ID must be sequential in AdjacencyMatrixGraph and equal to the current number of vertices (expected "@
        + decimal_text(expected) + ", got "@ + decimal_text(got) + ")"@
}

/// The text of `sequence_message`.
fn sequence_text(expected: usize, got: usize) -> (s: String)
    ensures
        s@ == sequence_message(expected as nat, got as nat),
{
    let mut s = String::from_str(
        "Vertex ID must be sequential in AdjacencyMatrixGraph and equal to the current number of vertices (expected ",
    );
    s.append(decimal(expected).as_str());
    s.append(", got ");
    s.append(decimal(got).as_str());
    s.append(")");
    s
}

impl<Vertex: WithID, Edge: Copy, Dir: Direction> AdjacencyMatrixGraph<Vertex, Edge, Dir> {
    /// The cells, row by row.
    pub closed spec fn cells(&self) -> Seq<Seq<Option<Edge>>> {
        Seq::new(self.matrix.len() as nat, |i: int| self.matrix[i]@)
    }

    /// The graph that this value stands for.
    pub closed spec fn spec_model(&self) -> GraphModel<Vertex, Edge> {
        matrix_model(self.vertices@, self.cells(), Dir::directed())
    }

    /// The representation invariant.
    pub closed spec fn spec_wf(&self) -> bool {
        &&& matrix_shape(self.vertices@, self.cells(), Dir::directed())
        &&& self.spec_model().canonical_arcs().finite()
        &&& self.edge_total == self.spec_model().canonical_arcs().len()
    }

    /// The vertices have the ids `0..n`, and a new vertex must have the id `n`.
    pub proof fn lemma_ids(&self)
        requires
            self.spec_wf(),
        ensures
            self.spec_model().valid(),
            self.spec_model().directed == Dir::directed(),
            forall|id: usize|
                self.spec_model().has_vertex(id) <==> id < self.spec_model().vertices.dom().len(),
    {
        assert(self.spec_model().directed == Dir::directed());
        lemma_matrix_valid(self.vertices@, self.cells(), Dir::directed());
    }

    /// Create a new, empty graph with an adjacency matrix representation.
    pub fn new() -> (g: Self)
        ensures
            g.spec_wf(),
            g.spec_model() == GraphModel::<Vertex, Edge>::empty(Dir::directed()),
    {
        let g = AdjacencyMatrixGraph {
            vertices: Vec::new(),
            matrix: Vec::new(),
            edge_total: 0,
            _phantom: PhantomData,
        };
        proof {
            let m = g.spec_model();
            assert(m.vertices =~= Map::empty());
            assert(m.arcs =~= Map::empty());
            assert(m.canonical_arcs() =~= Set::empty()) by {
                assert forall|a: (usize, usize)| !m.has_arc(a.0, a.1) by {
                    assert(m.out(a.0) =~= Seq::empty());
                }
            }
        }
        g
    }

    fn new_with_size(n_vertices: usize) -> (g: Self)
        ensures
            g.spec_wf(),
            g.spec_model() == GraphModel::<Vertex, Edge>::empty(Dir::directed()),
    {
        let g = AdjacencyMatrixGraph {
            vertices: Vec::with_capacity(n_vertices),
            matrix: Vec::with_capacity(n_vertices),
            edge_total: 0,
            _phantom: PhantomData,
        };
        proof {
            let m = g.spec_model();
            assert(m.vertices =~= Map::empty());
            assert(m.arcs =~= Map::empty());
            assert(m.canonical_arcs() =~= Set::empty()) by {
                assert forall|a: (usize, usize)| !m.has_arc(a.0, a.1) by {
                    assert(m.out(a.0) =~= Seq::empty());
                }
            }
        }
        g
    }

    /// The model with another payload for the vertex `id`.
    fn get_vertex_by_id_mut_internal(&mut self, vertex_id: usize) -> (r: Option<&mut Vertex>)
        requires
            old(self).spec_wf(),
        ensures
            r is Some <==> old(self).spec_model().has_vertex(vertex_id),
            match r {
                Some(v) => {
                    &&& *v == old(self).spec_model().vertices[vertex_id]
                    &&& final(self).spec_model() == old(self).spec_model().with_payload(
                        vertex_id,
                        *final(v),
                    )
                    &&& final(v).spec_id() == vertex_id ==> final(self).spec_wf()
                },
                None => *final(self) == *old(self),
            },
    {
        if vertex_id < self.vertices.len() {
            proof {
                assert forall|v: Vertex|
                    #[trigger] matrix_model(
                        self.vertices@.update(vertex_id as int, v),
                        self.cells(),
                        Dir::directed(),
                    ) == self.spec_model().with_payload(vertex_id, v) && matrix_model(
                        self.vertices@.update(vertex_id as int, v),
                        self.cells(),
                        Dir::directed(),
                    ).canonical_arcs() == self.spec_model().canonical_arcs() && (v.spec_id()
                        == vertex_id
                        ==> matrix_shape(
                        self.vertices@.update(vertex_id as int, v),
                        self.cells(),
                        Dir::directed(),
                    )) by {
                    lemma_matrix_payload(
                        self.vertices@,
                        self.cells(),
                        Dir::directed(),
                        vertex_id,
                        v,
                    );
                }
            }
            Some(&mut self.vertices[vertex_id])
        } else {
            None
        }
    }

    fn push_vertex_internal(&mut self, vertex: Vertex) -> (r: Result<(), GraphError>)
        requires
            old(self).spec_wf(),
        ensures
            final(self).spec_wf(),
            r is Ok <==> vertex.spec_id() == old(self).spec_model().vertices.dom().len(),
            r is Ok ==> final(self).spec_model() == old(self).spec_model().with_vertex(vertex),
            r is Err ==> final(self).spec_model() == old(self).spec_model(),
            old(self).spec_model().has_vertex(vertex.spec_id()) ==> r == Err::<(), GraphError>(
                GraphError::DuplicateVertex(vertex.spec_id()),
            ),
            r is Err && !old(self).spec_model().has_vertex(vertex.spec_id()) ==> r->Err_0 is OperationFailed
                && r->Err_0->OperationFailed_0@ == sequence_message(
                old(self).spec_model().vertices.dom().len(),
                vertex.spec_id() as nat,
            ),
    {
        proof {
            lemma_matrix_valid(self.vertices@, self.cells(), Dir::directed());
        }
        let expected = self.vertices.len();
        let idx = vertex.get_id();
        if idx > expected {
            return Err(GraphError::OperationFailed(sequence_text(expected, idx)));
        }
        if idx < expected {
            return Err(GraphError::DuplicateVertex(idx));
        }
        let ghost before = self.cells();
        self.vertices.push(vertex);
        // Grow each existing row by one column.
        let mut i: usize = 0;
        while i < expected
            invariant
                0 <= i <= expected,
                self.matrix.len() == expected,
                self.vertices@ == old(self).vertices@.push(vertex),
                self.edge_total == old(self).edge_total,
                before == old(self).cells(),
                before.len() == expected,
                forall|k: int| 0 <= k < i ==> (#[trigger] self.matrix[k])@ == before[k].push(None),
                forall|k: int| i <= k < expected ==> (#[trigger] self.matrix[k])@ == before[k],
            decreases expected - i,
        {
            self.matrix[i].push(None);
            i += 1;
        }
        // Add the row of the new vertex.
        let mut row: Vec<Option<Edge>> = Vec::new();
        let width = self.vertices.len();
        let mut j: usize = 0;
        while j < width
            invariant
                0 <= j <= width,
                row.len() == j,
                forall|k: int| 0 <= k < j ==> (#[trigger] row[k]) is None,
            decreases width - j,
        {
            row.push(None);
            j += 1;
        }
        self.matrix.push(row);
        proof {
            let dir = Dir::directed();
            let vs0 = old(self).vertices@;
            let m0 = matrix_model(vs0, before, dir);
            let m1 = self.spec_model();
            let cells = self.cells();
            assert forall|k: int| 0 <= k < expected implies row_arcs(#[trigger] cells[k]) == row_arcs(
                before[k],
            ) by {
                assert(cells[k] == before[k].push(None));
                assert(cells[k].drop_last() =~= before[k]);
            }
            lemma_row_arcs_none(cells[expected as int]);
            assert(m1.vertices =~= m0.with_vertex(vertex).vertices);
            assert(m1.arcs =~= m0.with_vertex(vertex).arcs);
            assert(m1 == m0.with_vertex(vertex));
            assert forall|u: usize| #[trigger] out_of(m1.arcs, u) == out_of(m0.arcs, u) by {}
            lemma_same_out(m1.arcs, m0.arcs, dir);
            assert(matrix_shape(self.vertices@, cells, dir));
        }
        Ok(())
    }

    /// The cells are the matrix, and the matrix is square.
    proof fn lemma_dims(&self)
        requires
            self.spec_wf(),
        ensures
            self.matrix.len() == self.vertices.len(),
            forall|i: int|
                0 <= i < self.matrix.len() ==> (#[trigger] self.matrix[i]).len() == self.vertices.len()
                    && self.matrix[i]@ == self.cells()[i],
    {
        assert forall|i: int| 0 <= i < self.matrix.len() implies (#[trigger] self.matrix[i]).len()
            == self.vertices.len() && self.matrix[i]@ == self.cells()[i] by {
            assert(self.cells()[i] == self.matrix[i]@);
        }
    }

    /// Fills one cell.
    fn fill(&mut self, from: usize, to: usize, edge: Edge)
        requires
            from < old(self).matrix.len(),
            to < old(self).matrix[from as int].len(),
        ensures
            final(self).vertices == old(self).vertices,
            final(self).edge_total == old(self).edge_total,
            final(self).matrix.len() == old(self).matrix.len(),
            forall|i: int|
                0 <= i < final(self).matrix.len() ==> (#[trigger] final(self).matrix[i]).len() == old(
                    self,
                ).matrix[i].len(),
            final(self).cells() == old(self).cells().update(
                from as int,
                old(self).cells()[from as int].update(to as int, Some(edge)),
            ),
    {
        self.matrix[from][to] = Some(edge);
        proof {
            assert(self.cells() =~= old(self).cells().update(
                from as int,
                old(self).cells()[from as int].update(to as int, Some(edge)),
            ));
        }
    }

    /// Gives the edge `from -> to` another payload; with `symmetric`, its reverse
    /// as well.
    fn set_edge_internal(&mut self, from: usize, to: usize, edge: Edge, symmetric: bool) -> (done:
        bool)
        requires
            old(self).spec_wf(),
            symmetric == !Dir::directed(),
        ensures
            final(self).spec_wf(),
            done == old(self).spec_model().has_arc(from, to),
            done ==> final(self).spec_model() == old(self).spec_model().with_edge_payload(
                from,
                to,
                edge,
            ),
            !done ==> final(self).spec_model() == old(self).spec_model(),
    {
        let ghost dir = Dir::directed();
        let ghost vs = self.vertices@;
        let ghost c0 = self.cells();
        let ghost m0 = self.spec_model();
        proof {
            self.lemma_dims();
            lemma_matrix_cells(vs, c0, dir, from, to);
            lemma_matrix_cells(vs, c0, dir, to, from);
            lemma_matrix_valid(vs, c0, dir);
        }
        let n = self.vertices.len();
        if from >= n || to >= n {
            return false;
        }
        if self.matrix[from][to].is_none() {
            return false;
        }
        self.fill(from, to, edge);
        if symmetric {
            self.fill(to, from, edge);
        }
        proof {
            let cf = self.cells();
            let mf = self.spec_model();
            let want = m0.with_edge_payload(from, to, edge);
            m0.lemma_with_edge_payload(from, to, edge);
            assert(matrix_shape(vs, cf, dir));
            assert(mf.vertices =~= want.vertices);
            assert forall|u: usize| mf.arcs.dom().contains(u) implies #[trigger] mf.arcs[u]
                == want.arcs[u] by {
                lemma_row_arcs_sound(c0[u as int]);
                if u == from {
                    lemma_row_arcs_replace(c0[u as int], to as int, edge);
                    if symmetric && u == to {
                    }
                } else if symmetric && u == to {
                    lemma_row_arcs_replace(c0[u as int], from as int, edge);
                } else {
                    assert(cf[u as int] == c0[u as int]);
                }
                assert(mf.arcs[u] =~= want.arcs[u]);
            }
            assert(mf.arcs =~= want.arcs);
            assert(mf == want);
        }
        true
    }

    /// Adds the edge `from -> to`; with `symmetric`, its reverse as well.
    fn push_edge_internal(&mut self, from: usize, to: usize, edge: Edge, symmetric: bool) -> (r:
        Result<(), GraphError>)
        requires
            old(self).spec_wf(),
            symmetric == !Dir::directed(),
        ensures
            final(self).spec_wf(),
            r is Ok <==> old(self).spec_model().accepts_edge(from, to),
            r is Ok ==> final(self).spec_model().adds_edge(old(self).spec_model(), from, to, edge),
            r is Ok ==> final(self).spec_model().out(from) == old(self).spec_model().out(from).insert(
                heads_below(old(self).spec_model().out(from), to),
                (to, edge),
            ),
            r is Ok && symmetric ==> final(self).spec_model().out(to) == old(self).spec_model().out(
                to,
            ).insert(heads_below(old(self).spec_model().out(to), from), (from, edge)),
            r is Err ==> final(self).spec_model() == old(self).spec_model(),
            !old(self).spec_model().has_vertex(from) ==> r == Err::<(), GraphError>(
                GraphError::VertexNotFound(from),
            ),
            old(self).spec_model().has_vertex(from) && !old(self).spec_model().has_vertex(to) ==> r
                == Err::<(), GraphError>(GraphError::VertexNotFound(to)),
            old(self).spec_model().has_vertex(from) && old(self).spec_model().has_vertex(to) && (old(
                self,
            ).spec_model().has_arc(from, to) || (from == to && !old(self).spec_model().directed))
                ==> r == Err::<(), GraphError>(GraphError::DuplicateEdge(from, to)),
            r is Err && old(self).spec_model().has_vertex(from) && old(self).spec_model().has_vertex(
                to,
            ) && !old(self).spec_model().has_arc(from, to) && (from != to || old(
                self,
            ).spec_model().directed) ==> r->Err_0 is OperationFailed,
    {
        let ghost dir = Dir::directed();
        let ghost vs = self.vertices@;
        let ghost c0 = self.cells();
        let ghost m0 = self.spec_model();
        proof {
            self.lemma_dims();
            lemma_matrix_cells(vs, c0, dir, from, to);
            lemma_matrix_cells(vs, c0, dir, to, from);
        }
        let n = self.vertices.len();
        if from >= n {
            return Err(GraphError::VertexNotFound(from));
        }
        if to >= n {
            return Err(GraphError::VertexNotFound(to));
        }
        if self.matrix[from][to].is_some() || (symmetric && from == to) {
            return Err(GraphError::DuplicateEdge(from, to));
        }
        if self.edge_total == usize::MAX {
            return Err(GraphError::OperationFailed("The graph cannot hold more edges".to_string()));
        }
        self.fill(from, to, edge);
        let ghost c1 = self.cells();
        if symmetric {
            self.fill(to, from, edge);
        }
        self.edge_total += 1;
        proof {
            let cf = self.cells();
            let mid = matrix_model(vs, c1, dir);
            let mf = self.spec_model();
            assert(matrix_shape(vs, cf, dir));
            // The arcs that leave `from` gain one arc.
            lemma_row_arcs_fill(c0[from as int], to as int, edge);
            let k = choose|k: int|
                0 <= k <= row_arcs(c0[from as int]).len() && row_arcs(
                    c0[from as int].update(to as int, Some(edge)),
                ) == #[trigger] row_arcs(c0[from as int]).insert(k, (to, edge));
            assert(mid.out(from) == m0.out(from).insert(k, (to, edge)));
            assert(inserts_arc(mid.arcs, m0.arcs, from, k, to, edge));
            assert(mid.adds_arc(m0, from, to, edge));
            lemma_row_arcs_sound(c0[from as int].update(to as int, Some(edge)));
            lemma_sorted_place(m0.out(from), k, to, edge);
            if symmetric {
                lemma_row_arcs_fill(c1[to as int], from as int, edge);
                let k2 = choose|k: int|
                    0 <= k <= row_arcs(c1[to as int]).len() && row_arcs(
                        c1[to as int].update(from as int, Some(edge)),
                    ) == #[trigger] row_arcs(c1[to as int]).insert(k, (from, edge));
                assert(mf.out(to) == mid.out(to).insert(k2, (from, edge)));
                assert(inserts_arc(mf.arcs, mid.arcs, to, k2, from, edge));
                assert(mf.adds_arc(mid, to, from, edge));
                lemma_row_arcs_sound(c1[to as int].update(from as int, Some(edge)));
                lemma_sorted_place(mid.out(to), k2, from, edge);
                assert(mid.out(to) == m0.out(to));
                assert(mf.out(from) == mid.out(from));
            } else {
                assert(mf == mid);
            }
            // The edges gain the one that came in.
            let key = if dir || from <= to {
                (from, to)
            } else {
                (to, from)
            };
            assert forall|a: (usize, usize)|
                mf.canonical_arcs().contains(a) <==> m0.canonical_arcs().insert(key).contains(
                    a,
                ) by {
                lemma_matrix_cells(vs, c0, dir, a.0, a.1);
                lemma_matrix_cells(vs, cf, dir, a.0, a.1);
            }
            assert(mf.canonical_arcs() =~= m0.canonical_arcs().insert(key));
            lemma_matrix_cells(vs, c0, dir, key.0, key.1);
        }
        Ok(())
    }

    fn get_all_vertices_internal(&self) -> (r: Vec<&Vertex>)
        requires
            self.spec_wf(),
        ensures
            lists_vertices(r@, self.spec_model()),
            forall|i: int| 0 <= i < r.len() ==> (#[trigger] r[i]).spec_id() == i,
    {
        proof {
            lemma_matrix_valid(self.vertices@, self.cells(), Dir::directed());
        }
        let mut r: Vec<&Vertex> = Vec::new();
        let mut i: usize = 0;
        while i < self.vertices.len()
            invariant
                0 <= i <= self.vertices.len(),
                r.len() == i,
                forall|k: int| 0 <= k < i ==> *(#[trigger] r[k]) == self.vertices[k],
            decreases self.vertices.len() - i,
        {
            r.push(&self.vertices[i]);
            i += 1;
        }
        r
    }

    fn get_adjacent_vertices_internal(&self, vertex_id: usize) -> (r: Vec<&Vertex>)
        requires
            self.spec_wf(),
        ensures
            r.len() == self.spec_model().out(vertex_id).len(),
            forall|i: int|
                0 <= i < r.len() ==> *(#[trigger] r[i]) == self.spec_model().vertices[self.spec_model().out(
                    vertex_id,
                )[i].0],
    {
        let mut r: Vec<&Vertex> = Vec::new();
        let n = self.vertices.len();
        if vertex_id >= n {
            return r;
        }
        let ghost row = self.cells()[vertex_id as int];
        let mut j: usize = 0;
        while j < n
            invariant
                0 <= j <= n,
                n == self.vertices.len(),
                vertex_id < n,
                self.spec_wf(),
                row == self.cells()[vertex_id as int],
                r.len() == row_arcs(row.take(j as int)).len(),
                forall|k: int|
                    0 <= k < r.len() ==> *(#[trigger] r[k]) == self.vertices[row_arcs(
                        row.take(j as int),
                    )[k].0 as int],
            decreases n - j,
        {
            proof {
                assert(row.take(j + 1).drop_last() =~= row.take(j as int));
                lemma_row_arcs_sound(row.take(j as int));
            }
            if self.matrix[vertex_id][j].is_some() {
                r.push(&self.vertices[j]);
            }
            j += 1;
        }
        proof {
            assert(row.take(n as int) =~= row);
            lemma_row_arcs_sound(row);
        }
        r
    }

    fn get_adjacent_vertices_with_edges_internal(&self, vertex_id: usize) -> (r: Vec<
        (&Vertex, &Edge),
    >)
        requires
            self.spec_wf(),
        ensures
            r.len() == self.spec_model().out(vertex_id).len(),
            forall|i: int|
                0 <= i < r.len() ==> {
                    let arc = self.spec_model().out(vertex_id)[i];
                    *(#[trigger] r[i]).0 == self.spec_model().vertices[arc.0] && *r[i].1 == arc.1
                },
    {
        let mut r: Vec<(&Vertex, &Edge)> = Vec::new();
        let n = self.vertices.len();
        if vertex_id >= n {
            return r;
        }
        let ghost row = self.cells()[vertex_id as int];
        let mut j: usize = 0;
        while j < n
            invariant
                0 <= j <= n,
                n == self.vertices.len(),
                vertex_id < n,
                self.spec_wf(),
                row == self.cells()[vertex_id as int],
                r.len() == row_arcs(row.take(j as int)).len(),
                forall|k: int|
                    0 <= k < r.len() ==> {
                        let arc = row_arcs(row.take(j as int))[k];
                        *(#[trigger] r[k]).0 == self.vertices[arc.0 as int] && *r[k].1 == arc.1
                    },
            decreases n - j,
        {
            proof {
                assert(row.take(j + 1).drop_last() =~= row.take(j as int));
                lemma_row_arcs_sound(row.take(j as int));
            }
            match &self.matrix[vertex_id][j] {
                Some(edge) => {
                    r.push((&self.vertices[j], edge));
                },
                None => {},
            }
            j += 1;
        }
        proof {
            assert(row.take(n as int) =~= row);
            lemma_row_arcs_sound(row);
        }
        r
    }

    /// The edges by row and column; of an undirected graph the upper triangle.
    fn get_all_edges_internal(&self, directed: bool) -> (r: Vec<(usize, usize, &Edge)>)
        requires
            self.spec_wf(),
            directed == Dir::directed(),
        ensures
            lists_edges(r@, self.spec_model()),
    {
        let mut r: Vec<(usize, usize, &Edge)> = Vec::new();
        let n = self.vertices.len();
        let ghost cells = self.cells();
        let mut i: usize = 0;
        while i < n
            invariant
                0 <= i <= n,
                n == self.vertices.len(),
                self.spec_wf(),
                directed == Dir::directed(),
                cells == self.cells(),
                listed_until(r@, cells, directed, n, i, 0),
            decreases n - i,
        {
            let mut j: usize = 0;
            while j < n
                invariant
                    0 <= j <= n,
                    i < n,
                    n == self.vertices.len(),
                    self.spec_wf(),
                    directed == Dir::directed(),
                    cells == self.cells(),
                    listed_until(r@, cells, directed, n, i, j),
                decreases n - j,
            {
                proof {
                    self.lemma_dims();
                }
                let mut taken = false;
                if directed || i <= j {
                    match &self.matrix[i][j] {
                        Some(edge) => {
                            proof {
                                lemma_listed_push(r@, cells, directed, n, i, j, edge);
                            }
                            r.push((i, j, edge));
                            taken = true;
                        },
                        None => {},
                    }
                }
                proof {
                    if !taken {
                        lemma_listed_skip(r@, cells, directed, n, i, j);
                    }
                }
                j += 1;
            }
            proof {
                lemma_listed_row(r@, cells, directed, n, i);
            }
            i += 1;
        }
        proof {
            let m = self.spec_model();
            let pairs = r@.map_values(|t: (usize, usize, &Edge)| (t.0, t.1));
            assert forall|p: (usize, usize)| m.canonical_arcs().contains(p) implies pairs.contains(
                p,
            ) by {
                lemma_matrix_cells(self.vertices@, cells, directed, p.0, p.1);
                assert(comes_before(p.0, p.1, n, 0));
                let k = choose|k: int| lists_pair(r@, k, p.0, p.1);
                assert(pairs[k] == p);
            }
            assert forall|k: int| 0 <= k < r.len() implies {
                let t = #[trigger] r[k];
                m.canonical_arcs().contains((t.0, t.1)) && m.edge(t.0, t.1) == Some(*t.2)
            } by {
                lemma_matrix_cells(self.vertices@, cells, directed, r[k].0, r[k].1);
            }
            assert forall|k: int| 0 <= k < pairs.len() implies m.canonical_arcs().contains(
                #[trigger] pairs[k],
            ) by {
                assert(pairs[k] == (r[k].0, r[k].1));
            }
            lemma_listing_len(pairs, m.canonical_arcs());
        }
        r
    }

    fn edge_count_internal(&self) -> (n: usize)
        requires
            self.spec_wf(),
        ensures
            n == self.spec_model().edge_count(),
    {
        self.edge_total
    }

    fn vertex_count_internal(&self) -> (n: usize)
        requires
            self.spec_wf(),
        ensures
            n == self.spec_model().vertices.dom().len(),
    {
        proof {
            lemma_matrix_valid(self.vertices@, self.cells(), Dir::directed());
        }
        self.vertices.len()
    }

    fn get_vertex_by_id_internal(&self, vertex_id: usize) -> (r: Option<&Vertex>)
        requires
            self.spec_wf(),
        ensures
            r is Some <==> self.spec_model().has_vertex(vertex_id),
            r is Some ==> *r->Some_0 == self.spec_model().vertices[vertex_id],
    {
        if vertex_id < self.vertices.len() {
            Some(&self.vertices[vertex_id])
        } else {
            None
        }
    }

    fn get_edge_internal(&self, from_id: usize, to_id: usize) -> (r: Option<&Edge>)
        requires
            self.spec_wf(),
        ensures
            r is Some <==> self.spec_model().has_arc(from_id, to_id),
            r is Some ==> Some(*r->Some_0) == self.spec_model().edge(from_id, to_id),
    {
        proof {
            lemma_matrix_cells(self.vertices@, self.cells(), Dir::directed(), from_id, to_id);
        }
        if from_id < self.vertices.len() && to_id < self.vertices.len() {
            self.matrix[from_id][to_id].as_ref()
        } else {
            None
        }
    }
}


impl<Vertex: WithID, Edge: Copy> GraphBase for AdjacencyMatrixGraph<Vertex, Edge, Undirected> {
    type Vertex = Vertex;

    type Edge = Edge;

    type Direction = Undirected;

    open spec fn model(&self) -> GraphModel<Vertex, Edge> {
        self.spec_model()
    }

    open spec fn wf(&self) -> bool {
        self.spec_wf()
    }

    open spec fn accepts(m: GraphModel<Vertex, Edge>, id: usize) -> bool {
        id == m.vertices.dom().len()
    }

    open spec fn place(m: GraphModel<Vertex, Edge>, from: usize, to: usize) -> int {
        heads_below(m.out(from), to)
    }

    proof fn lemma_wf(&self) {
        self.lemma_ids();
    }

    fn new() -> (g: Self) {
        AdjacencyMatrixGraph::new()
    }

    fn new_with_size(n_vertices: usize) -> (g: Self) {
        AdjacencyMatrixGraph::new_with_size(n_vertices)
    }

    fn push_vertex(&mut self, vertex: Vertex) -> (r: Result<(), GraphError>) {
        proof {
            self.lemma_ids();
        }
        self.push_vertex_internal(vertex)
    }

    fn push_edge(&mut self, from: usize, to: usize, edge: Edge) -> (r: Result<(), GraphError>) {
        self.push_edge_internal(from, to, edge, true)
    }

    fn is_directed(&self) -> (b: bool) {
        false
    }

    fn get_vertex_by_id(&self, vertex_id: usize) -> (r: Option<&Vertex>) {
        self.get_vertex_by_id_internal(vertex_id)
    }

    fn get_vertex_by_id_mut(&mut self, vertex_id: usize) -> (r: Option<&mut Vertex>) {
        self.get_vertex_by_id_mut_internal(vertex_id)
    }

    fn get_edge(&self, from_id: usize, to_id: usize) -> (r: Option<&Edge>) {
        self.get_edge_internal(from_id, to_id)
    }

    fn set_edge(&mut self, from: usize, to: usize, edge: Edge) -> (done: bool) {
        self.set_edge_internal(from, to, edge, true)
    }

    fn get_all_vertices(&self) -> (r: Vec<&Vertex>)
        ensures
            forall|i: int| 0 <= i < r.len() ==> (#[trigger] r[i]).spec_id() == i,
    {
        self.get_all_vertices_internal()
    }

    fn get_all_edges(&self) -> (r: Vec<(usize, usize, &Edge)>) {
        self.get_all_edges_internal(false)
    }

    fn get_adjacent_vertices(&self, vertex_id: usize) -> (r: Vec<&Vertex>) {
        self.get_adjacent_vertices_internal(vertex_id)
    }

    fn get_adjacent_vertices_with_edges(&self, vertex_id: usize) -> (r: Vec<(&Vertex, &Edge)>) {
        self.get_adjacent_vertices_with_edges_internal(vertex_id)
    }

    fn vertex_count(&self) -> (n: usize) {
        self.vertex_count_internal()
    }

    fn edge_count(&self) -> (n: usize) {
        self.edge_count_internal()
    }

    fn get_total_weight(&self) -> (w: i128) where Edge: WeightedEdge {
        proof {
            self.lemma_ids();
        }
        let edges = self.get_all_edges_internal(false);
        weight_of_listing::<Vertex, Edge>(&edges, Ghost(self.spec_model()))
    }
}

impl<Vertex: WithID, Edge: Copy> GraphBase for AdjacencyMatrixGraph<Vertex, Edge, Directed> {
    type Vertex = Vertex;

    type Edge = Edge;

    type Direction = Directed;

    open spec fn model(&self) -> GraphModel<Vertex, Edge> {
        self.spec_model()
    }

    open spec fn wf(&self) -> bool {
        self.spec_wf()
    }

    open spec fn accepts(m: GraphModel<Vertex, Edge>, id: usize) -> bool {
        id == m.vertices.dom().len()
    }

    open spec fn place(m: GraphModel<Vertex, Edge>, from: usize, to: usize) -> int {
        heads_below(m.out(from), to)
    }

    proof fn lemma_wf(&self) {
        self.lemma_ids();
    }

    fn new() -> (g: Self) {
        AdjacencyMatrixGraph::new()
    }

    fn new_with_size(n_vertices: usize) -> (g: Self) {
        AdjacencyMatrixGraph::new_with_size(n_vertices)
    }

    fn push_vertex(&mut self, vertex: Vertex) -> (r: Result<(), GraphError>) {
        proof {
            self.lemma_ids();
        }
        self.push_vertex_internal(vertex)
    }

    fn push_edge(&mut self, from: usize, to: usize, edge: Edge) -> (r: Result<(), GraphError>) {
        self.push_edge_internal(from, to, edge, false)
    }

    fn is_directed(&self) -> (b: bool) {
        true
    }

    fn get_vertex_by_id(&self, vertex_id: usize) -> (r: Option<&Vertex>) {
        self.get_vertex_by_id_internal(vertex_id)
    }

    fn get_vertex_by_id_mut(&mut self, vertex_id: usize) -> (r: Option<&mut Vertex>) {
        self.get_vertex_by_id_mut_internal(vertex_id)
    }

    fn get_edge(&self, from_id: usize, to_id: usize) -> (r: Option<&Edge>) {
        self.get_edge_internal(from_id, to_id)
    }

    fn set_edge(&mut self, from: usize, to: usize, edge: Edge) -> (done: bool) {
        self.set_edge_internal(from, to, edge, false)
    }

    fn get_all_vertices(&self) -> (r: Vec<&Vertex>)
        ensures
            forall|i: int| 0 <= i < r.len() ==> (#[trigger] r[i]).spec_id() == i,
    {
        self.get_all_vertices_internal()
    }

    fn get_all_edges(&self) -> (r: Vec<(usize, usize, &Edge)>) {
        self.get_all_edges_internal(true)
    }

    fn get_adjacent_vertices(&self, vertex_id: usize) -> (r: Vec<&Vertex>) {
        self.get_adjacent_vertices_internal(vertex_id)
    }

    fn get_adjacent_vertices_with_edges(&self, vertex_id: usize) -> (r: Vec<(&Vertex, &Edge)>) {
        self.get_adjacent_vertices_with_edges_internal(vertex_id)
    }

    fn vertex_count(&self) -> (n: usize) {
        self.vertex_count_internal()
    }

    fn edge_count(&self) -> (n: usize) {
        self.edge_count_internal()
    }

    fn get_total_weight(&self) -> (w: i128) where Edge: WeightedEdge {
        proof {
            self.lemma_ids();
        }
        let edges = self.get_all_edges_internal(true);
        weight_of_listing::<Vertex, Edge>(&edges, Ghost(self.spec_model()))
    }
}

} // verus!
