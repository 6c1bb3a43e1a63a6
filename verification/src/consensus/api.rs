//! Data exchanged with users of the consensus process
use crate::consensus::vertex::{spec_vertex_hash, Vertex, VertexHash};
use vstd::prelude::*;

verus! {

/// Metadata of a vertex: its hash and height
#[derive(Clone, Copy, Debug, PartialEq, Eq)]
pub struct VertexMeta {
    pub hash: VertexHash,
    pub height: u64,
}

impl<'a> From<&'a Vertex> for VertexMeta {
    fn from(vx: &'a Vertex) -> (m: VertexMeta) {
        VertexMeta { hash: vx.hash(), height: vx.height }
    }
}

impl<'a> vstd::std_specs::convert::FromSpecImpl<&'a Vertex> for VertexMeta {
    open spec fn obeys_from_spec() -> bool {
        true
    }

    open spec fn from_spec(vx: &'a Vertex) -> VertexMeta {
        VertexMeta { hash: spec_vertex_hash(vx@), height: vx.height }
    }
}

} // verus!
