use libtaurus::consensus::dag::{self, Config as DagConfig};
use libtaurus::consensus::namespace::Namespace;
use libtaurus::consensus::task::{self, Config, GenesisConfig, Reply, Request, Task};
use libtaurus::consensus::vertex::Vertex;
use std::sync::Arc;

fn config() -> Config {
    Config { genesis: GenesisConfig {}, datadir: String::from("/tmp"), dag: DagConfig::default() }
}

fn child_of(parents: &[&Arc<Vertex>], name: &str) -> Arc<Vertex> {
    Arc::new(
        Vertex::empty()
            .with_parents(parents)
            .unwrap()
            .in_namespace(Namespace::new(name))
            .unwrap(),
    )
}

#[test]
fn genesis_vertex() {
    let gen = GenesisConfig {}.to_vertex().unwrap();
    assert_eq!(gen.version, 1);
    assert_eq!(gen.height, 0);
    assert!(gen.parents.is_empty());
    assert_eq!(gen.timestamp, 1_424_301_369_000_000);
    assert_eq!(GenesisConfig {}.to_vertex_at(7).timestamp, 7);
}

#[test]
fn task_starts_with_accepted_genesis() {
    let gen = GenesisConfig {}.to_vertex().unwrap();
    let mut t = Task::new(&config(), &gen).unwrap();
    match t.handle(Request::GetPreference(gen.hash())) {
        (Reply::Preference(p), None) => assert_eq!(p, Some((true, true))),
        _ => panic!("unexpected reply"),
    }
    match t.handle(Request::GetVertex(gen.hash())) {
        (Reply::Vertex(Some(v)), None) => assert_eq!(v.hash(), gen.hash()),
        _ => panic!("unexpected reply"),
    }
    match t.handle(Request::GetAcceptedFrontier) {
        (Reply::Frontier(f), None) => {
            assert_eq!(f.len(), 1);
            assert_eq!(f[0].hash(), gen.hash());
        }
        _ => panic!("unexpected reply"),
    }
}

#[test]
fn task_submits_and_records() {
    let gen = GenesisConfig {}.to_vertex().unwrap();
    let mut t = Task::new(&config(), &gen).unwrap();
    let v0 = child_of(&[&gen], "a");
    let v1 = child_of(&[&v0], "b");

    // A vertex with a missing parent is refused, but becomes known
    match t.handle(Request::SubmitVertex(v1.clone())) {
        (Reply::Submitted(Err(task::Error::DAG(dag::Error::MissingParents(m)))), None) => {
            assert_eq!(m, vec![v0.hash()])
        }
        _ => panic!("unexpected reply"),
    }
    // Inserting its parent reports it as waiting, and announces the new frontier
    match t.handle(Request::SubmitVertex(v0.clone())) {
        (Reply::Submitted(Ok(w)), Some(f)) => {
            assert_eq!(w, vec![v1.hash()]);
            assert_eq!(f.len(), 1);
            assert_eq!(f[0].hash(), v0.hash());
        }
        _ => panic!("unexpected reply"),
    }
    match t.handle(Request::GetPreference(v0.hash())) {
        (Reply::Preference(p), None) => assert_eq!(p, Some((true, false))),
        _ => panic!("unexpected reply"),
    }
    match t.handle(Request::RecordPeerPreference { vhash: v0.hash(), preference: true }) {
        (Reply::Recorded, None) => {}
        _ => panic!("unexpected reply"),
    }
    match t.handle(Request::GetVertex(v1.hash())) {
        (Reply::Vertex(Some(v)), None) => assert_eq!(v.hash(), v1.hash()),
        _ => panic!("unexpected reply"),
    }
    match t.handle(Request::GetPreference(v1.hash())) {
        (Reply::Preference(None), None) => {}
        _ => panic!("unexpected reply"),
    }
}
