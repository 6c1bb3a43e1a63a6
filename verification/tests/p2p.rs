use libp2p::gossipsub::Sha256Topic;
use libp2p::multihash::Multihash;
use libp2p::PeerId;
use libtaurus::consensus::vertex::{Vertex, VertexHash};
use libtaurus::p2p::broadcast::{Acceptance, Broadcast, BroadcastData};
use libtaurus::p2p::request::{self, ErrorCode, Protocol, Request, Response, PROTOCOL_NAME};
use libtaurus::p2p::task::next_listen_port;
use std::sync::Arc;

fn message() -> Broadcast {
    Broadcast {
        id: b"hello".to_vec(),
        src: PeerId::from_multihash(Multihash::default()).unwrap(),
        data: BroadcastData::Vertex(Arc::new(Vertex::default())),
        topic: Sha256Topic::new("test/topic").hash(),
    }
}

#[test]
fn message_accept() {
    let m = message();
    let response = m.accept();
    assert!(matches!(response.acceptance, Acceptance::Accept));
    assert_eq!(response.msg_id, m.id);
    assert_eq!(response.propagation_source, m.src);
}

#[test]
fn message_ignore() {
    let m = message();
    let response = m.ignore();
    assert!(matches!(response.acceptance, Acceptance::Ignore));
}

#[test]
fn message_reject() {
    let m = message();
    let response = m.reject();
    assert!(matches!(response.acceptance, Acceptance::Reject));
}

#[test]
fn broadcast_data_kind() {
    let data: BroadcastData = Arc::new(Vertex::default()).into();
    assert_eq!(data.kind(), "Vertex");
}

#[test]
fn error_codes_on_the_wire() {
    assert_eq!(i32::from(&ErrorCode::Unknown), 0);
    assert_eq!(i32::from(&ErrorCode::NotFound), 1);
    assert_eq!(ErrorCode::NotFound.number(), 1);
    assert_eq!(ErrorCode::from_number(0), Ok(ErrorCode::Unknown));
    assert_eq!(ErrorCode::from_number(1), Ok(ErrorCode::NotFound));
    assert_eq!(ErrorCode::from_number(2), Err(request::Error::InvalidErrorCode(2)));
    assert_eq!(ErrorCode::from_number(-1), Err(request::Error::InvalidErrorCode(-1)));
    assert_eq!(ErrorCode::default(), ErrorCode::Unknown);
}

#[test]
fn protocol_name() {
    assert_eq!(Protocol::default().name(), PROTOCOL_NAME);
    assert_eq!(PROTOCOL_NAME, "/taurus_request/0.1.0");
}

#[test]
fn listen_port_search() {
    assert_eq!(next_listen_port(9000, true), Some(9001));
    assert_eq!(next_listen_port(9000, false), None);
    assert_eq!(next_listen_port(u16::MAX, true), None);
}

#[test]
fn request_wire_roundtrip() {
    let h = VertexHash::with_bytes([7u8; 32]);
    for r in [Request::GetVertex(h), Request::GetPreference(h)] {
        let bytes = r.to_wire();
        assert_eq!(bytes.len(), 33);
        assert_eq!(Request::from_wire(&bytes), Ok(r));
    }
    assert_eq!(Request::GetVertex(h).to_wire()[0], 0);
    assert_eq!(Request::GetPreference(h).to_wire()[0], 1);
    assert_eq!(Request::from_wire(&[]), Err(request::Error::IncompleteRequest));
    assert_eq!(Request::from_wire(&[2; 33]), Err(request::Error::IncompleteRequest));
    assert_eq!(
        Request::from_wire(&[0; 10]),
        Err(request::Error::Hash(libtaurus::hash::Error::TryFromSlice))
    );
}

#[test]
fn response_wire_roundtrip() {
    for code in [ErrorCode::Unknown, ErrorCode::NotFound] {
        let bytes = Response::Error(code).to_wire(true).unwrap();
        assert_eq!(bytes, vec![0, code.number() as u8, 0, 0, 0]);
        match Response::from_wire(&bytes, true) {
            Ok(Response::Error(c)) => assert_eq!(c, code),
            _ => panic!("expected an error response"),
        }
    }
    for p in [true, false] {
        let bytes = Response::Preference(p).to_wire(true).unwrap();
        assert_eq!(bytes, vec![2, p as u8]);
        match Response::from_wire(&bytes, true) {
            Ok(Response::Preference(b)) => assert_eq!(b, p),
            _ => panic!("expected a preference response"),
        }
    }
    let parent = Arc::new(Vertex::empty());
    let vx = Arc::new(Vertex::empty().with_parents(&[&parent]).unwrap());
    let bytes = Response::Vertex(vx.clone()).to_wire(true).unwrap();
    assert_eq!(bytes[0], 1);
    assert_eq!(&bytes[1..], vx.encode().as_slice());
    match Response::from_wire(&bytes, true) {
        Ok(Response::Vertex(v)) => assert_eq!(v.hash(), vx.hash()),
        _ => panic!("expected a vertex response"),
    }
    // Refusals
    assert!(matches!(Response::from_wire(&[], true), Err(request::Error::IncompleteResponse)));
    assert!(matches!(Response::from_wire(&[3], true), Err(request::Error::IncompleteResponse)));
    assert!(matches!(Response::from_wire(&[0, 1], true), Err(request::Error::Decode)));
    assert!(matches!(
        Response::from_wire(&[0, 2, 0, 0, 0], true),
        Err(request::Error::InvalidErrorCode(2))
    ));
    assert!(matches!(
        Response::from_wire(&[0, 255, 255, 255, 255], true),
        Err(request::Error::InvalidErrorCode(-1))
    ));
    assert!(matches!(Response::from_wire(&[2, 2], true), Err(request::Error::Decode)));
    assert!(matches!(
        Response::from_wire(&[1, 0], true),
        Err(request::Error::Vertex(libtaurus::consensus::vertex::Error::Decode))
    ));
    let insane = Response::Vertex(Arc::new(Vertex::empty()));
    assert!(matches!(
        insane.to_wire(true),
        Err(request::Error::Vertex(libtaurus::consensus::vertex::Error::MissingField(_)))
    ));
    let bytes = insane.to_wire(false).unwrap();
    assert!(matches!(
        Response::from_wire(&bytes, true),
        Err(request::Error::Vertex(libtaurus::consensus::vertex::Error::MissingField(_)))
    ));
}
