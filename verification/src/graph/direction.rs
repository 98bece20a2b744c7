use vstd::prelude::*;

verus! {

/// The tag that tells a directed graph from an undirected one at the type level.
pub trait Direction: Sized {
    /// Whether graphs that carry this tag are directed.
    spec fn directed() -> bool;
}

/// An edge `(u, v)` is one arc from `u` to `v`.
#[derive(Debug)]
pub struct Directed;

/// An edge `(u, v)` is stored as two arcs, `u -> v` and `v -> u`, with the same payload.
#[derive(Debug)]
pub struct Undirected;

impl Direction for Directed {
    open spec fn directed() -> bool {
        true
    }
}

impl Direction for Undirected {
    open spec fn directed() -> bool {
        false
    }
}

} // verus!
