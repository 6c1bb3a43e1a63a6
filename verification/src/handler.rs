//! Decisions of the event handler that connects the p2p network and the consensus process: how
//! to treat a broadcast vertex, and how to answer a peer's request
use crate::consensus::dag;
use crate::consensus::task;
use crate::consensus::vertex::{Vertex, VertexHash};
use crate::p2p::broadcast::Acceptance;
use crate::p2p::request::{ErrorCode, Response};
use std::sync::Arc;
use vstd::prelude::*;

verus! {

/// How to treat a broadcast vertex, given the answer of the consensus process to its submission
/// (`None` when no answer came): accept it when it was inserted, or when only parents are
/// missing (they can be fetched); reject it, penalizing its sender, when it has a bad height,
/// conflicting parents or fails the sanity checks; otherwise ignore it
pub open spec fn verdict_spec(answer: Option<Result<Vec<VertexHash>, task::Error>>) -> Acceptance {
    match answer {
        Some(Ok(_)) => Acceptance::Accept,
        Some(Err(task::Error::DAG(e))) => match e {
            dag::Error::MissingParents(_) => Acceptance::Accept,
            dag::Error::BadHeight(_, _) => Acceptance::Reject,
            dag::Error::ConflictingParents => Acceptance::Reject,
            dag::Error::Vertex(_) => Acceptance::Reject,
            _ => Acceptance::Ignore,
        },
        None => Acceptance::Ignore,
    }
}

/// How to treat a broadcast vertex, given the answer of the consensus process to its submission
pub fn gossip_verdict(answer: &Option<Result<Vec<VertexHash>, task::Error>>) -> (a: Acceptance)
    ensures
        a == verdict_spec(*answer),
{
    match answer {
        Some(Ok(_)) => Acceptance::Accept,
        Some(Err(task::Error::DAG(e))) => match e {
            dag::Error::MissingParents(_) => Acceptance::Accept,
            dag::Error::BadHeight(_, _) => Acceptance::Reject,
            dag::Error::ConflictingParents => Acceptance::Reject,
            dag::Error::Vertex(_) => Acceptance::Reject,
            _ => Acceptance::Ignore,
        },
        None => Acceptance::Ignore,
    }
}

/// Answer to a peer asking for a vertex, given the answer of the consensus process (`None` when
/// no answer came)
pub fn vertex_response(answer: Option<Option<Arc<Vertex>>>) -> (r: Response)
    ensures
        match answer {
            Some(Some(vx)) => r == Response::Vertex(vx),
            Some(None) => r == Response::Error(ErrorCode::NotFound),
            None => r == Response::Error(ErrorCode::Unknown),
        },
{
    match answer {
        Some(Some(vx)) => Response::Vertex(vx),
        Some(None) => Response::Error(ErrorCode::NotFound),
        None => Response::Error(ErrorCode::Unknown),
    }
}

/// Answer to a peer asking for the preference of a vertex, given the answer of the consensus
/// process (`None` when no answer came)
pub fn preference_response(answer: Option<Option<bool>>) -> (r: Response)
    ensures
        match answer {
            Some(Some(p)) => r == Response::Preference(p),
            Some(None) => r == Response::Error(ErrorCode::NotFound),
            None => r == Response::Error(ErrorCode::Unknown),
        },
{
    match answer {
        Some(Some(p)) => Response::Preference(p),
        Some(None) => Response::Error(ErrorCode::NotFound),
        None => Response::Error(ErrorCode::Unknown),
    }
}

} // verus!
