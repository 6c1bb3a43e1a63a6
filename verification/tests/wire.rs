use libtaurus::consensus::namespace::Namespace;
use libtaurus::consensus::vertex::{self, Vertex};
use libtaurus::p2p::broadcast::{self, BroadcastData};
use std::sync::Arc;

fn sample() -> Vertex {
    let mut p1 = Vertex::empty();
    p1.height = 4;
    let p2 = Vertex::empty();
    Vertex::empty()
        .with_parents(&[&Arc::new(p1), &Arc::new(p2)])
        .unwrap()
        .in_namespace(Namespace::new("wire"))
        .unwrap()
}

#[test]
fn wire_layout() {
    let bytes = Vertex::empty().encode();
    assert_eq!(bytes.len(), 84);
    assert_eq!(&bytes[0..4], &[1, 0, 0, 0]);
    assert_eq!(&bytes[4..12], &[0; 8]);
    assert_eq!(&bytes[12..20], &[0; 8]);
    let v = sample();
    let bytes = v.encode();
    assert_eq!(bytes.len(), 84 + 2 * 32);
    assert_eq!(&bytes[4..12], &[5, 0, 0, 0, 0, 0, 0, 0]);
    assert_eq!(&bytes[12..20], &[2, 0, 0, 0, 0, 0, 0, 0]);
    assert_eq!(&bytes[20..52], v.parents[0].as_slice());
    assert_eq!(&bytes[84..116], v.namespace_id.as_slice());
}

#[test]
fn vertex_wire_roundtrip() {
    let v = sample();
    let bytes = v.to_wire(true).unwrap();
    let back = Vertex::from_wire(&bytes, true).unwrap();
    assert_eq!(back.version, v.version);
    assert_eq!(back.height, v.height);
    assert_eq!(back.parents, v.parents);
    assert_eq!(back.namespace_id, v.namespace_id);
    assert_eq!(back.root, v.root);
    assert_eq!(back.hash(), v.hash());
    assert_eq!(back.encode(), bytes);
}

#[test]
fn from_wire_rejects_bad_lengths() {
    let bytes = sample().encode();
    assert_eq!(Vertex::from_wire(&bytes[..bytes.len() - 1], false), Err(vertex::Error::Decode));
    let mut long = bytes.clone();
    long.push(0);
    assert_eq!(Vertex::from_wire(&long, false), Err(vertex::Error::Decode));
    assert_eq!(Vertex::from_wire(&bytes[..83], false), Err(vertex::Error::Decode));
    // A header announcing one parent more than the bytes hold
    let mut wrong = bytes.clone();
    wrong[12] = 3;
    assert_eq!(Vertex::from_wire(&wrong, false), Err(vertex::Error::Decode));
}

#[test]
fn from_wire_checks_sanity() {
    let bytes = Vertex::empty().encode();
    assert_eq!(
        Vertex::from_wire(&bytes, true),
        Err(vertex::Error::MissingField("parents".to_string()))
    );
    assert!(Vertex::from_wire(&bytes, false).is_ok());
    assert_eq!(
        Vertex::empty().to_wire(true),
        Err(vertex::Error::MissingField("parents".to_string()))
    );
}

#[test]
fn broadcast_wire() {
    assert!(matches!(
        BroadcastData::from_wire(&[], true),
        Err(broadcast::Error::EmptyBroadcast)
    ));
    let v = Arc::new(sample());
    let data = BroadcastData::Vertex(v.clone());
    let bytes = data.to_wire(true).unwrap();
    match BroadcastData::from_wire(&bytes, true).unwrap() {
        BroadcastData::Vertex(back) => assert_eq!(back.hash(), v.hash()),
    }
    assert!(matches!(
        BroadcastData::from_wire(&bytes[1..], true),
        Err(broadcast::Error::Vertex(vertex::Error::Decode))
    ));
}
