mod adjacency_list;
mod adjacency_matrix;
pub mod batch;
mod direction;
#[allow(clippy::module_inception)]
mod graph;
pub mod error;
pub mod from_file;
mod graph_structs;
pub mod laws;
pub mod model;
mod path;
mod traits;

pub use adjacency_list::AdjacencyListGraph;
pub use adjacency_matrix::AdjacencyMatrixGraph;
pub use direction::{Directed, Direction, Undirected};
pub use graph::{Graph, ListGraph, ListGraphBackend, MatrixGraph, MatrixGraphBackend};
pub use graph_structs::{EdgeWeight, EdgeWithWeight, Vertex, VertexIDType};
pub use model::GraphModel;
pub use path::{lemma_path_cost_bound, path_cost, path_nodes, Path};
pub use traits::{
    lemma_edges_cover, lemma_listing_covers, lists_edges, lists_vertices, EdgeTuple, GraphBase, WeightedEdge, WithID,
};
