pub mod bfs_iter;
pub mod breadth;
pub mod count_connected_subgraphs;
pub mod dfs_iter;
pub mod iter;
pub mod maximum_flow;
pub mod mst;
pub mod queue;
pub mod reach;
pub mod shortest_path;
pub mod tsp;
pub mod utils;
