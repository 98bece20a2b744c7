pub mod conservation;
pub mod edmonds_karp;
