//! Decisions of the p2p task
use vstd::prelude::*;

verus! {

/// Event channel capacity. Old events will be dropped if channel exceeds capacity.
pub const P2P_EVENT_CHAN_CAPACITY: usize = 32;

/// The port to try next after the listener could not bind to `port`: the following one, while
/// port search is enabled and ports remain; `None` when the listener gives up
pub fn next_listen_port(port: u16, search_port: bool) -> (r: Option<u16>)
    ensures
        r == (if search_port && port < u16::MAX {
            Some((port + 1) as u16)
        } else {
            None::<u16>
        }),
{
    if search_port && port < u16::MAX {
        Some(port + 1)
    } else {
        None
    }
}

} // verus!
