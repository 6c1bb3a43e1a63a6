pub mod collections;
pub mod consensus;
pub mod handler;
pub mod hash;
pub mod p2p;
pub mod params;

pub use consensus::{Vertex, VertexHash};
