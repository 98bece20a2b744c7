use vstd::prelude::*;
use super::traits::{WeightedEdge, WithID};

verus! {

pub type VertexIDType = usize;

pub type EdgeWeight = i64;

/// A vertex that carries nothing but its id.
#[derive(Debug, Clone, Copy)]
pub struct Vertex {
    pub id: VertexIDType,
}

impl WithID for Vertex {
    open spec fn spec_id(&self) -> usize {
        self.id
    }

    fn get_id(&self) -> (id: usize) {
        self.id
    }
}

/// An edge that carries nothing but its weight.
#[derive(Debug, Clone, Copy)]
pub struct EdgeWithWeight {
    pub weight: EdgeWeight,
}

impl EdgeWithWeight {
    pub fn new(weight: EdgeWeight) -> (e: Self)
        ensures
            e.weight == weight,
    {
        EdgeWithWeight { weight }
    }
}

impl WeightedEdge for EdgeWithWeight {
    open spec fn spec_weight(&self) -> i64 {
        self.weight
    }

    fn get_weight(&self) -> (w: i64) {
        self.weight
    }
}

} // verus!
