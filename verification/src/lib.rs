//! An in-memory graph with two storage backends and a set of classical graph
//! algorithms, each stated against a mathematical model of the graph.

pub mod algorithms;
mod fx;
pub mod graph;
pub mod text;

pub use crate::graph::error::GraphError;
pub use crate::graph::{Directed, Direction, Graph, ListGraph, Undirected};
