pub mod bellman_ford;
pub mod dijkstra;
pub mod single_source_shortest_paths;
pub mod walks;
