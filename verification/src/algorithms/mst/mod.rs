pub mod forest;
pub mod kruskal;
pub mod lightest;
pub mod prim;
pub mod union_find;
