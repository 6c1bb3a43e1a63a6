use libtaurus::consensus::namespace::{nullspace_id, Namespace, NamespaceId};
use libtaurus::consensus::transaction::TxRoot;
use libtaurus::consensus::vertex::{self, Constraint, Constraints, Vertex, VertexHash, VERSION};
use std::sync::Arc;

// Some reusable dummy hashes
fn h1() -> VertexHash {
    VertexHash::with_bytes([
        0, 1, 2, 3, 4, 5, 6, 7, 8, 9, 10, 11, 12, 13, 14, 15, 16, 17, 18, 19, 20, 21, 22, 23, 24,
        25, 26, 27, 28, 29, 30, 31,
    ])
}
fn h2() -> VertexHash {
    VertexHash::with_bytes([
        10, 11, 12, 13, 14, 15, 16, 17, 18, 19, 110, 111, 112, 113, 114, 115, 116, 117, 118, 119,
        120, 121, 122, 123, 124, 125, 126, 127, 128, 129, 130, 131,
    ])
}
fn h3() -> VertexHash {
    VertexHash::with_bytes([
        11, 11, 12, 13, 14, 15, 16, 17, 18, 19, 110, 111, 112, 113, 114, 115, 116, 117, 118, 119,
        120, 121, 122, 123, 124, 125, 126, 127, 128, 129, 130, 131,
    ])
}
fn h4() -> VertexHash {
    VertexHash::with_bytes([
        12, 11, 12, 13, 14, 15, 16, 17, 18, 19, 110, 111, 112, 113, 114, 115, 116, 117, 118, 119,
        120, 121, 122, 123, 124, 125, 126, 127, 128, 129, 130, 131,
    ])
}

#[test]
fn empty() {
    assert_eq!(Vertex::empty().version, vertex::VERSION, "unexpected version number");
    assert!(Vertex::empty().parents.is_empty(), "unexpected parents");
    assert_eq!(Vertex::empty().namespace_id, NamespaceId::default(), "unexpected namespace_id");
    assert_eq!(Vertex::empty().root, TxRoot::default(), "unexpected tx_root");
}

#[test]
fn with_parents() {
    let mut p1 = Vertex::empty();
    let mut p2 = Vertex::empty();
    let mut p3 = Vertex::empty();
    p1.height = 0;
    p2.height = 1;
    p3.height = 100;
    let p1 = Arc::new(p1);
    let p2 = Arc::new(p2);
    let p3 = Arc::new(p3);
    match Vertex::empty().with_parents(&[]) {
        Err(vertex::Error::MissingField(field)) => assert_eq!(field, "parents".to_string()),
        _ => panic!("expected error"),
    }
    assert!(
        matches!(
            Vertex::empty().with_parents(&[&p1, &p2, &p2]),
            Err(vertex::Error::DuplicateParents)
        ),
        "should error if duplicate parents provided"
    );
    assert_eq!(Vertex::empty().with_parents(&[&p1, &p2]).unwrap().height, 2);
    assert_eq!(Vertex::empty().with_parents(&[&p1, &p2, &p3]).unwrap().height, 101);
    assert_eq!(Vertex::empty().with_parents(&[&p3]).unwrap().height, 101);
    assert_eq!(Vertex::empty().with_parents(&[&p1, &p2, &p3]).unwrap().height, 101);
    assert_eq!(
        Vertex::empty().with_parents(&[&p1, &p2, &p3]).unwrap().parents,
        [p1.hash(), p2.hash(), p3.hash()]
    );
    assert_eq!(
        Vertex::empty().with_parents(&[&p3, &p1, &p2]).unwrap().parents,
        [p3.hash(), p1.hash(), p2.hash()]
    );
}

#[test]
fn in_namespace() {
    assert_eq!(
        Vertex::empty().in_namespace(Namespace::default()).unwrap().namespace_id,
        nullspace_id(),
        "unexpected default namespace_id"
    );
    assert_eq!(
        Vertex::empty().in_namespace(Namespace::new("helloworld")).unwrap().namespace_id,
        Namespace::new("helloworld").id(),
        "unexpected namespace_id for helloworld"
    );
}

#[test]
fn sanity_checks() {
    let mut vx = Vertex::default();
    assert!(matches!(&vx.sanity_checks(), Err(vertex::Error::BadVersion(VERSION, 0))));
    vx.version = vertex::VERSION;
    match vx.sanity_checks() {
        Err(vertex::Error::MissingField(field)) => assert_eq!(field, "parents".to_string()),
        _ => panic!("expected error"),
    }
    vx.parents = vec![VertexHash::default(), VertexHash::default()];
    assert!(matches!(&vx.sanity_checks(), Err(vertex::Error::DuplicateParents)));
    vx.parents = vec![VertexHash::default()];
    let vx = vx.with_parents(&[&Arc::new(Vertex::default())]).unwrap();
    assert!(matches!(&vx.sanity_checks(), Ok(())));
}

#[test]
fn parent_constraints() {
    let mut p1 = Vertex::empty();
    let mut p2 = Vertex::empty();
    let mut p3 = Vertex::empty();
    // Give each some unique data to result in unique parent hashes
    p1.height = 1;
    p2.height = 2;
    p3.height = 3;
    let p1 = Arc::new(p1);
    let p2 = Arc::new(p2);
    let p3 = Arc::new(p3);
    assert_eq!(
        Vertex::empty().with_parents(&[&p1]).unwrap().parent_constraints().to_vec(),
        vec![Constraint(p1.hash(), p1.hash())]
    );
    assert_eq!(
        Vertex::empty().with_parents(&[&p1, &p2]).unwrap().parent_constraints().to_vec(),
        vec![
            Constraint(p1.hash(), p2.hash()),
            Constraint(p2.hash(), p2.hash()),
            Constraint(p1.hash(), p1.hash()),
        ]
    );
    assert_eq!(
        Vertex::empty().with_parents(&[&p1, &p2, &p3]).unwrap().parent_constraints().to_vec(),
        vec![
            Constraint(p1.hash(), p2.hash()),
            Constraint(p1.hash(), p3.hash()),
            Constraint(p2.hash(), p3.hash()),
            Constraint(p3.hash(), p3.hash()),
            Constraint(p2.hash(), p2.hash()),
            Constraint(p1.hash(), p1.hash()),
        ]
    );
}

#[test]
fn constraint_conflict_set_key() {
    assert_eq!(
        Constraint(h1(), h2()).conflict_set_key(),
        Constraint(h2(), h1()).conflict_set_key()
    );
    assert_eq!(
        Constraint(h3(), h4()).conflict_set_key(),
        Constraint(h4(), h3()).conflict_set_key()
    );
}

#[test]
fn constraint_conflict() {
    assert_eq!(Constraint(h1(), h2()), Constraint(h1(), h2()));
    assert_ne!(Constraint(h1(), h2()), Constraint(h2(), h1()));
    assert_eq!(Constraint(h1(), h1()).conflict(), None);
    assert_eq!(Constraint(h1(), h2()).conflict(), Some(Constraint(h2(), h1())));
    assert_eq!(Constraint(h3(), h4()).conflict(), Some(Constraint(h4(), h3())));
}

#[test]
fn unity_constraint() {
    assert_eq!(Constraint(h1(), h1()).is_unity(), true);
    assert_eq!(Constraint(h2(), h1()).is_unity(), false);
}

#[test]
fn new_constraint_iter() {
    assert_eq!(Constraints::new(vec![h1()]).to_vec(), vec![Constraint(h1(), h1())]);
    assert_eq!(
        Constraints::new(vec![h1(), h2()]).to_vec(),
        vec![Constraint(h1(), h2()), Constraint(h2(), h2()), Constraint(h1(), h1())]
    );
    assert_eq!(
        Constraints::new(vec![h3(), h2()]).to_vec(),
        vec![Constraint(h3(), h2()), Constraint(h2(), h2()), Constraint(h3(), h3())]
    );
    assert_eq!(
        Constraints::new(vec![h1(), h2(), h3()]).to_vec(),
        vec![
            Constraint(h1(), h2()),
            Constraint(h1(), h3()),
            Constraint(h2(), h3()),
            Constraint(h3(), h3()),
            Constraint(h2(), h2()),
            Constraint(h1(), h1()),
        ]
    );
    assert_eq!(
        Constraints::new(vec![h1(), h2(), h3(), h4()]).to_vec(),
        vec![
            Constraint(h1(), h2()),
            Constraint(h1(), h3()),
            Constraint(h1(), h4()),
            Constraint(h2(), h3()),
            Constraint(h2(), h4()),
            Constraint(h3(), h4()),
            Constraint(h4(), h4()),
            Constraint(h3(), h3()),
            Constraint(h2(), h2()),
            Constraint(h1(), h1()),
        ]
    );
}

#[test]
fn constraints_next_yields_in_order() {
    let mut cs = Constraints::new(vec![h1(), h2()]);
    assert_eq!(cs.next(), Some(Constraint(h1(), h2())));
    assert_eq!(cs.next(), Some(Constraint(h2(), h2())));
    assert_eq!(cs.next(), Some(Constraint(h1(), h1())));
    assert_eq!(cs.next(), None);
    assert_eq!(cs.next(), None);
}

#[test]
fn conflict_set_key_orders_smaller_hash_first() {
    let k = Constraint(h2(), h1()).conflict_set_key();
    let mut expected = Vec::new();
    expected.extend_from_slice(h1().as_slice());
    expected.extend_from_slice(h2().as_slice());
    assert_eq!(k.as_bytes().to_vec(), expected);
}

#[test]
fn vertex_hash_is_blake3_of_encoding() {
    let vx = Vertex::empty();
    let expected = blake3::hash(&vx.encode());
    assert_eq!(vx.hash().as_slice(), expected.as_bytes());
    // The timestamp is not part of the encoding
    let mut later = vx.clone();
    later.timestamp += 1;
    assert_eq!(later.hash(), vx.hash());
    // The height is
    let mut taller = vx.clone();
    taller.height += 1;
    assert_ne!(taller.hash(), vx.hash());
}

#[test]
fn namespace_id_is_blake3_of_name() {
    assert_eq!(
        Namespace::new("helloworld").id().as_slice(),
        blake3::hash(b"helloworld").as_bytes()
    );
    assert_eq!(Namespace::default().id(), nullspace_id());
}
