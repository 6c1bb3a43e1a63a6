pub mod api;
pub mod constraint_graph;
pub mod dag;
pub mod namespace;
pub mod task;
pub mod transaction;
pub mod vertex;
pub mod wire;

pub use vertex::{Vertex, VertexHash};
