use libtaurus::consensus::dag;
use libtaurus::consensus::task;
use libtaurus::consensus::vertex::{self, Vertex, VertexHash};
use libtaurus::handler::{gossip_verdict, preference_response, vertex_response};
use libtaurus::p2p::broadcast::Acceptance;
use libtaurus::p2p::request::{ErrorCode, Response};
use std::sync::Arc;

fn refused(e: dag::Error) -> Option<Result<Vec<VertexHash>, task::Error>> {
    Some(Err(task::Error::DAG(e)))
}

#[test]
fn gossip_verdicts() {
    assert_eq!(gossip_verdict(&Some(Ok(vec![]))), Acceptance::Accept);
    assert_eq!(
        gossip_verdict(&refused(dag::Error::MissingParents(vec![VertexHash::default()]))),
        Acceptance::Accept
    );
    assert_eq!(gossip_verdict(&refused(dag::Error::BadHeight(1, 2))), Acceptance::Reject);
    assert_eq!(gossip_verdict(&refused(dag::Error::ConflictingParents)), Acceptance::Reject);
    assert_eq!(
        gossip_verdict(&refused(dag::Error::Vertex(vertex::Error::DuplicateParents))),
        Acceptance::Reject
    );
    assert_eq!(gossip_verdict(&refused(dag::Error::AlreadyInserted)), Acceptance::Ignore);
    assert_eq!(
        gossip_verdict(&refused(dag::Error::WaitingOnParents(vec![]))),
        Acceptance::Ignore
    );
    assert_eq!(gossip_verdict(&None), Acceptance::Ignore);
}

#[test]
fn request_answers() {
    let vx = Arc::new(Vertex::empty());
    match vertex_response(Some(Some(vx.clone()))) {
        Response::Vertex(v) => assert_eq!(v.hash(), vx.hash()),
        _ => panic!("expected a vertex"),
    }
    assert!(matches!(vertex_response(Some(None)), Response::Error(ErrorCode::NotFound)));
    assert!(matches!(vertex_response(None), Response::Error(ErrorCode::Unknown)));
    assert!(matches!(preference_response(Some(Some(true))), Response::Preference(true)));
    assert!(matches!(preference_response(Some(None)), Response::Error(ErrorCode::NotFound)));
    assert!(matches!(preference_response(None), Response::Error(ErrorCode::Unknown)));
}
