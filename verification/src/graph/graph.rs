use vstd::prelude::*;
use super::adjacency_list::AdjacencyListGraph;
use super::adjacency_matrix::AdjacencyMatrixGraph;
use super::error::GraphError;
use super::model::GraphModel;
use super::traits::{GraphBase, WeightedEdge};

verus! {

/// A graph over a storage backend. Every operation goes to the backend unchanged.
#[derive(Debug)]
pub struct Graph<Backend> {
    backend: Backend,
}

pub type ListGraph<Vertex, Edge, Dir> = Graph<AdjacencyListGraph<Vertex, Edge, Dir>>;

pub type ListGraphBackend<Vertex, Edge, Dir> = AdjacencyListGraph<Vertex, Edge, Dir>;

pub type MatrixGraph<Vertex, Edge, Dir> = Graph<AdjacencyMatrixGraph<Vertex, Edge, Dir>>;

pub type MatrixGraphBackend<Vertex, Edge, Dir> = AdjacencyMatrixGraph<Vertex, Edge, Dir>;

impl<Backend: GraphBase> GraphBase for Graph<Backend> {
    type Vertex = Backend::Vertex;

    type Edge = Backend::Edge;

    type Direction = Backend::Direction;

    closed spec fn model(&self) -> GraphModel<Self::Vertex, Self::Edge> {
        self.backend.model()
    }

    closed spec fn wf(&self) -> bool {
        self.backend.wf()
    }

    open spec fn accepts(m: GraphModel<Self::Vertex, Self::Edge>, id: usize) -> bool {
        Backend::accepts(m, id)
    }

    open spec fn place(m: GraphModel<Self::Vertex, Self::Edge>, from: usize, to: usize) -> int {
        Backend::place(m, from, to)
    }

    proof fn lemma_wf(&self) {
        self.backend.lemma_wf();
    }

    fn new() -> (g: Self) {
        Graph { backend: Backend::new() }
    }

    fn new_with_size(n_vertices: usize) -> (g: Self) {
        Graph { backend: Backend::new_with_size(n_vertices) }
    }

    fn push_vertex(&mut self, vertex: Self::Vertex) -> (r: Result<(), GraphError>) {
        self.backend.push_vertex(vertex)
    }

    fn push_edge(&mut self, from: usize, to: usize, edge: Self::Edge) -> (r: Result<
        (),
        GraphError,
    >) {
        self.backend.push_edge(from, to, edge)
    }

    fn is_directed(&self) -> (b: bool) {
        self.backend.is_directed()
    }

    fn get_vertex_by_id(&self, vertex_id: usize) -> (r: Option<&Self::Vertex>) {
        self.backend.get_vertex_by_id(vertex_id)
    }

    fn get_vertex_by_id_mut(&mut self, vertex_id: usize) -> (r: Option<&mut Self::Vertex>) {
        self.backend.get_vertex_by_id_mut(vertex_id)
    }

    fn get_edge(&self, from_id: usize, to_id: usize) -> (r: Option<&Self::Edge>) {
        self.backend.get_edge(from_id, to_id)
    }

    fn set_edge(&mut self, from: usize, to: usize, edge: Self::Edge) -> (done: bool) {
        self.backend.set_edge(from, to, edge)
    }

    fn get_all_vertices(&self) -> (r: Vec<&Self::Vertex>) {
        self.backend.get_all_vertices()
    }

    fn get_all_edges(&self) -> (r: Vec<(usize, usize, &Self::Edge)>) {
        self.backend.get_all_edges()
    }

    fn get_adjacent_vertices(&self, vertex_id: usize) -> (r: Vec<&Self::Vertex>) {
        self.backend.get_adjacent_vertices(vertex_id)
    }

    fn get_adjacent_vertices_with_edges(&self, vertex_id: usize) -> (r: Vec<
        (&Self::Vertex, &Self::Edge),
    >) {
        self.backend.get_adjacent_vertices_with_edges(vertex_id)
    }

    fn vertex_count(&self) -> (n: usize) {
        self.backend.vertex_count()
    }

    fn edge_count(&self) -> (n: usize) {
        self.backend.edge_count()
    }

    fn get_total_weight(&self) -> (w: i128) where Self::Edge: WeightedEdge {
        self.backend.get_total_weight()
    }
}

} // verus!
