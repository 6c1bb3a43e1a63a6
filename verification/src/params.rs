//! Protocol parameters
use crate::consensus::vertex::VertexHash;
use vstd::prelude::*;

verus! {

/// If a vertex receives this many consecutive votes, it will be accepted.
pub const AVALANCHE_COUNTER_THRESHOLD: usize = 9;

/// If a vertex reaches this confidence level, it will be accepted.
pub const AVALANCHE_CONFIDENCE_THRESHOLD: usize = 9;

/// Number of peers to query in each Avalanche query round
pub const AVALANCHE_QUERY_COUNT: usize = 16;

/// The default genesis hash to use when instantiating consensus modules: all zeros
pub fn default_genesis_hash() -> (h: VertexHash)
    ensures
        h@ == Seq::new(32, |i: int| 0u8),
{
    VertexHash::with_bytes([0u8; 32])
}

} // verus!
