use libtaurus::collections::VecSet;
use libtaurus::consensus::dag::{self, Config, ConflictSet, DAG};
use libtaurus::consensus::namespace::Namespace;
use libtaurus::consensus::vertex::{Constraint, Vertex, VertexHash};
use libtaurus::params;
use rand::{distributions::Alphanumeric, Rng};
use std::collections::HashSet;
use std::sync::Arc;

// Helper to build test vertices with unique hashes
fn make_rand_vertex(parents: &[&Arc<Vertex>]) -> Arc<Vertex> {
    let name: String = rand::thread_rng()
        .sample_iter(&Alphanumeric)
        .take(30)
        .map(char::from)
        .collect();
    Arc::new(
        Vertex::empty()
            .with_parents(parents)
            .unwrap()
            .in_namespace(Namespace::new(&name))
            .unwrap(),
    )
}

fn n(dag: &DAG, h: &VertexHash) -> usize {
    dag.get_known_children(h).unwrap().len()
}

fn set<T: std::hash::Hash + Eq>(v: Vec<T>) -> HashSet<T> {
    v.into_iter().collect()
}

#[test]
fn default_config() {
    let dflt = Config::default();
    assert_eq!(dflt.max_count, params::AVALANCHE_COUNTER_THRESHOLD);
    assert_eq!(dflt.max_confidence, params::AVALANCHE_CONFIDENCE_THRESHOLD);
}

#[test]
fn new_dag() {
    let dag = DAG::new(Config::default());
    assert_eq!(dag.config(), Config::default());
    assert!(dag.known_vertices().is_empty());
    assert!(dag.graph_vertices().is_empty());
    assert!(dag.pending_queries().is_empty());
    assert_eq!(dag.children_entries(), 0);
    assert_eq!(dag.conflict_set_count(), 0);
    assert!(dag.frontier_hashes().is_empty());
}

#[test]
fn new_dag_with_init() {
    let gen = Arc::new(Vertex::empty());
    let v0 = make_rand_vertex(&[&gen]);
    let v1 = make_rand_vertex(&[&gen]);
    let v2 = make_rand_vertex(&[&gen]);
    let v3 = make_rand_vertex(&[&v1, &v2]);
    let v4 = make_rand_vertex(&[&v3]);

    // Basic test -- genesis vertex should be accepted
    let dag = DAG::with_initial_vertices(Config::default(), &[&gen]).unwrap();
    assert!(dag.pending_queries().is_empty());
    assert_eq!(dag.query(&gen.hash()).unwrap(), (true, true));

    // Confirm each initial vertex is recognized as preferred and decided
    let mut dag = DAG::with_initial_vertices(
        {
            let mut cfg = Config::default();
            cfg.genesis = gen.hash();
            cfg
        },
        &[&gen, &v0, &v1, &v2, &v3],
    )
    .unwrap();
    assert!(dag.pending_queries().is_empty());
    assert!(matches!(dag.query(&gen.hash()), Ok((true, true))));
    assert!(matches!(dag.query(&v0.hash()), Ok((true, true))));
    assert!(matches!(dag.query(&v1.hash()), Ok((true, true))));
    assert!(matches!(dag.query(&v2.hash()), Ok((true, true))));
    assert!(matches!(dag.query(&v3.hash()), Ok((true, true))));

    // Check that we are able to insert a vertex which extends the initial set
    assert!(matches!(dag.query(&v4.hash()), Err(dag::Error::NotFound)));
    dag.try_insert(&v4).unwrap();
}

#[test]
fn check_vertex() {
    let gen = Arc::new(Vertex::empty());
    let v0 = make_rand_vertex(&[&gen]);
    let v1 = make_rand_vertex(&[&gen]);
    let v2 = make_rand_vertex(&[&gen]);
    let v3 = make_rand_vertex(&[&v1, &v2]);
    let x3 = make_rand_vertex(&[&v2, &v1]); // conflicts with v3
    let b4 = make_rand_vertex(&[&v3, &x3]); // illegal! references conflicting parents
    let mut dag = DAG::new(Config::default());

    // Test for missing/waiting parents
    dag.insert_unchecked(&gen);
    dag.insert_unchecked(&v0);
    assert!(matches!(dag.check_vertex(&v0), Err(dag::Error::AlreadyInserted)));
    match dag.check_vertex(&v3) {
        Err(dag::Error::MissingParents(missing)) => {
            assert_eq!(missing, [v1.hash(), v2.hash()])
        }
        _ => panic!("Expected Error::MissingParents"),
    }
    dag.learn_vertex(&v1); // v1 is known but not processed
    match dag.check_vertex(&v3) {
        Err(dag::Error::MissingParents(missing)) => {
            assert_eq!(missing, [v2.hash()])
        }
        _ => panic!("Expected Error::MissingParents"),
    }
    dag.learn_vertex(&v2); // v2 is known but not processed
    match dag.check_vertex(&v3) {
        Err(dag::Error::WaitingOnParents(waiting)) => {
            assert_eq!(waiting, [v1.hash(), v2.hash()])
        }
        _ => panic!("Expected Error::WaitingOnParents"),
    }
    dag.insert_unchecked(&v1); // v1 is "processed"
    match dag.check_vertex(&v3) {
        Err(dag::Error::WaitingOnParents(waiting)) => {
            assert_eq!(waiting, [v2.hash()])
        }
        _ => panic!("Expected Error::WaitingOnParents"),
    }
    dag.insert_unchecked(&v2); // v2 is "processed"
    assert!(matches!(dag.check_vertex(&v3), Ok(())));

    // Test parent heights
    let c4 = make_rand_vertex(&[&gen, &v1]); // Parents have mismatched height
    assert!(matches!(dag.check_vertex(&c4), Err(dag::Error::BadParentHeight)));
    dag.insert_unchecked(&v3); // v3 is "processed"
    let mut c5 = Vertex::empty().with_parents(&[&v3]).unwrap();
    c5.height = 2; // Should have height 3
    match dag.check_vertex(&Arc::new(c5)) {
        Err(dag::Error::BadHeight(actual, expected)) => {
            assert_eq!(actual, 2);
            assert_eq!(expected, 3);
        }
        _ => panic!("Expected Error::BadHeight"),
    }

    // Catch conflicting parents
    dag.insert_unchecked(&x3); // x3 is "processed"
    assert!(matches!(dag.check_vertex(&b4), Err(dag::Error::ConflictingParents)));
}

#[test]
fn map_child() {
    let gen = Arc::new(Vertex::empty());
    let v0 = make_rand_vertex(&[&gen]);
    let v1 = make_rand_vertex(&[&gen]);
    let v2 = make_rand_vertex(&[&v0, &v1]);
    let mut dag = DAG::new(Config::default());
    dag.expect_children(&gen.hash());
    dag.expect_children(&v0.hash());
    dag.expect_children(&v1.hash());
    dag.expect_children(&v2.hash());
    assert_eq!(n(&dag, &gen.hash()), 0);
    assert_eq!(n(&dag, &v0.hash()), 0);
    assert_eq!(n(&dag, &v1.hash()), 0);
    assert_eq!(n(&dag, &v2.hash()), 0);
    dag.map_child(&v0.hash(), &v0.parents);
    assert_eq!(n(&dag, &gen.hash()), 1);
    assert_eq!(n(&dag, &v0.hash()), 0);
    assert_eq!(n(&dag, &v1.hash()), 0);
    assert_eq!(n(&dag, &v2.hash()), 0);
    dag.map_child(&v1.hash(), &v1.parents);
    assert_eq!(n(&dag, &gen.hash()), 2);
    assert_eq!(n(&dag, &v0.hash()), 0);
    assert_eq!(n(&dag, &v1.hash()), 0);
    assert_eq!(n(&dag, &v2.hash()), 0);
    dag.map_child(&v2.hash(), &v2.parents);
    assert_eq!(n(&dag, &gen.hash()), 2);
    assert_eq!(n(&dag, &v0.hash()), 1);
    assert_eq!(n(&dag, &v1.hash()), 1);
    assert_eq!(n(&dag, &v2.hash()), 0);
}

#[test]
fn try_insert() {
    let gen = Arc::new(Vertex::empty());
    let v0 = make_rand_vertex(&[&gen]);
    let v1 = make_rand_vertex(&[&gen]);
    let v2 = make_rand_vertex(&[&v0, &v1]);
    let x2 = make_rand_vertex(&[&v1, &v0]); // conflicts with v2
    let v3 = make_rand_vertex(&[&v2]);
    let b3 = make_rand_vertex(&[&v2, &x2]); // illegal to reference conflicting parents
    let mut dag = DAG::new(Config::default());

    // Initialize graph with genesis vertex
    dag.insert_unchecked(&gen);

    // Test for missing parents, waiting parents, and preference after insertions
    match dag.try_insert(&v2) {
        Err(dag::Error::MissingParents(missing)) => {
            assert_eq!(missing, [v0.hash(), v1.hash()])
        }
        e @ _ => panic!("unexpected result: {e:?}"),
    }
    assert_eq!(set(dag.try_insert(&v0).unwrap()), [v2.hash()].into());
    assert!(dag.is_preferred(&v0.hash()).unwrap());
    match dag.try_insert(&v2) {
        Err(dag::Error::MissingParents(missing)) => {
            assert_eq!(missing, [v1.hash()])
        }
        e @ _ => panic!("unexpected result: {e:?}"),
    }
    match dag.try_insert(&x2) {
        Err(dag::Error::MissingParents(missing)) => {
            assert_eq!(missing, [v1.hash()])
        }
        e @ _ => panic!("unexpected result: {e:?}"),
    }
    assert_eq!(set(dag.try_insert(&v1).unwrap()), [v2.hash(), x2.hash()].into());
    assert!(dag.is_preferred(&v1.hash()).unwrap());
    match dag.try_insert(&v3) {
        Err(dag::Error::WaitingOnParents(waiting)) => {
            assert_eq!(waiting, [v2.hash()])
        }
        e @ _ => panic!("unexpected result: {e:?}"),
    }
    assert_eq!(set(dag.try_insert(&v2).unwrap()), [v3.hash()].into());
    assert!(dag.is_preferred(&v2.hash()).unwrap());
    assert_eq!(set(dag.try_insert(&v3).unwrap()), [].into());
    assert!(dag.is_preferred(&v3.hash()).unwrap());
    assert_eq!(set(dag.try_insert(&x2).unwrap()), [].into());
    // x2 should not be preferred, due to conflict
    assert!(dag.is_preferred(&x2.hash()).unwrap() == false);
    // b3 should fail due to illegal parent combination
    assert!(matches!(dag.try_insert(&b3), Err(dag::Error::ConflictingParents)));
}

#[test]
fn get_ancestors() {
    let gen = Arc::new(Vertex::empty());
    let v0 = make_rand_vertex(&[&gen]);
    let v1 = make_rand_vertex(&[&gen]);
    let v2 = make_rand_vertex(&[&v0, &v1]);
    let v3 = make_rand_vertex(&[&v2]);
    let mut dag = DAG::with_initial_vertices(Config::default(), &[&gen]).unwrap();
    dag.try_insert(&v0).unwrap();
    dag.try_insert(&v1).unwrap();
    dag.try_insert(&v2).unwrap();

    // Constraints of vertices outside the graph have no ancestors to look up
    assert!(matches!(
        dag.get_ancestors(&Constraint(v3.hash(), v3.hash())),
        Err(dag::Error::NotFound)
    ));

    // The genesis vertex has no parents, so no ancestors
    assert!(dag.get_ancestors(&Constraint(gen.hash(), gen.hash())).unwrap().is_empty());

    // A vertex's unity constraint descends from the unity constraints of its parents, which
    // descend from that of the genesis vertex
    let anc = dag.get_ancestors(&Constraint(v0.hash(), v0.hash())).unwrap();
    assert_eq!(anc, vec![Constraint(gen.hash(), gen.hash())]);

    // Every parent constraint of a vertex, and their ancestors, each once
    let anc = dag.get_ancestors(&Constraint(v2.hash(), v2.hash())).unwrap();
    assert_eq!(anc.len(), set(anc.clone()).len());
    assert_eq!(
        set(anc),
        [
            Constraint(v0.hash(), v1.hash()),
            Constraint(v1.hash(), v1.hash()),
            Constraint(v0.hash(), v0.hash()),
            Constraint(gen.hash(), gen.hash()),
        ]
        .into()
    );

    // The walk stops at constraints which have been accepted
    let mut dag = DAG::with_initial_vertices(
        Config { max_count: 0, ..Config::default() },
        &[&gen],
    )
    .unwrap();
    dag.try_insert(&v0).unwrap();
    dag.try_insert(&v1).unwrap();
    dag.try_insert(&v2).unwrap();
    // With a zero counter threshold, only unity constraints (whose confidence is still below
    // its threshold) are walked past
    let anc = dag.get_ancestors(&Constraint(v2.hash(), v2.hash())).unwrap();
    assert_eq!(
        set(anc),
        [
            Constraint(v0.hash(), v1.hash()),
            Constraint(v1.hash(), v1.hash()),
            Constraint(v0.hash(), v0.hash()),
            Constraint(gen.hash(), gen.hash()),
        ]
        .into()
    );
    let anc = dag.get_ancestors(&Constraint(v0.hash(), v1.hash())).unwrap();
    assert!(anc.is_empty());
}

#[test]
fn record_query_result() {
    let gen = Arc::new(Vertex::empty());
    let v0 = make_rand_vertex(&[&gen]);
    let v1 = make_rand_vertex(&[&gen]);
    let v2 = make_rand_vertex(&[&v0, &v1]);
    let v3 = make_rand_vertex(&[&v2]);
    let mut dag = DAG::with_initial_vertices(Config::default(), &[&gen]).unwrap();
    dag.try_insert(&v0).unwrap();
    dag.try_insert(&v1).unwrap();

    // Basic success
    dag.record_query_result(&v0.hash(), true).unwrap();
    dag.record_query_result(&v1.hash(), false).unwrap();

    // Error cases
    assert!(matches!(
        dag.record_query_result(&v0.hash(), true),
        Err(dag::Error::AlreadyQueried)
    ));
    assert!(matches!(
        dag.record_query_result(&v3.hash(), true),
        Err(dag::Error::NotFound)
    ));
    // will fail, but makes v3 known
    dag.try_insert(&v3).unwrap_err();
    // v2 still has not been inserted
    assert!(matches!(
        dag.record_query_result(&v3.hash(), true),
        Err(dag::Error::WaitingOnParents(_))
    ));
    dag.try_insert(&v2).unwrap();
    // v2 still has not been queried
    assert!(matches!(
        dag.record_query_result(&v3.hash(), true),
        Err(dag::Error::WaitingOnParents(_))
    ));
    dag.record_query_result(&v2.hash(), true).unwrap();
    assert!(matches!(
        dag.record_query_result(&v3.hash(), true),
        Err(dag::Error::WaitingOnVertex)
    ));
    dag.try_insert(&v3).unwrap();
    dag.record_query_result(&v3.hash(), true).unwrap();
}

#[test]
fn record_query_result_updates_counters() {
    let gen = Arc::new(Vertex::empty());
    let v0 = make_rand_vertex(&[&gen]);
    let v1 = make_rand_vertex(&[&v0]);
    let mut dag = DAG::with_initial_vertices(Config::default(), &[&gen]).unwrap();
    dag.try_insert(&v0).unwrap();
    dag.try_insert(&v1).unwrap();
    let u0 = Constraint(v0.hash(), v0.hash());
    let u1 = Constraint(v1.hash(), v1.hash());
    let ug = Constraint(gen.hash(), gen.hash());

    // A strongly preferred result gives the vertex a chit, and votes for each ancestor
    dag.record_query_result(&v0.hash(), true).unwrap();
    let cs = dag.conflict_set(&u0).unwrap();
    assert_eq!(cs.chit(&u0), Some(true));
    assert_eq!(dag.conflict_set(&ug).unwrap().count(&ug), Some(1));
    assert_eq!(dag.conflict_set(&ug).unwrap().last(), ug);
    // The genesis vertex has the chit of v0 in its progeny
    assert_eq!(dag.conflict_set(&ug).unwrap().confidence(&ug), Some(1));

    // The next result reaches both ancestors of v1
    dag.record_query_result(&v1.hash(), true).unwrap();
    assert_eq!(dag.conflict_set(&u1).unwrap().chit(&u1), Some(true));
    assert_eq!(dag.conflict_set(&u0).unwrap().count(&u0), Some(1));
    assert_eq!(dag.conflict_set(&u0).unwrap().confidence(&u0), Some(2));
    assert_eq!(dag.conflict_set(&ug).unwrap().count(&ug), Some(2));
    assert_eq!(dag.conflict_set(&ug).unwrap().confidence(&ug), Some(2));
}

#[test]
fn record_query_result_rejection_resets_counters() {
    let gen = Arc::new(Vertex::empty());
    let v0 = make_rand_vertex(&[&gen]);
    let v1 = make_rand_vertex(&[&v0]);
    let mut dag = DAG::with_initial_vertices(Config::default(), &[&gen]).unwrap();
    dag.try_insert(&v0).unwrap();
    dag.try_insert(&v1).unwrap();
    let ug = Constraint(gen.hash(), gen.hash());
    dag.record_query_result(&v0.hash(), true).unwrap();
    assert_eq!(dag.conflict_set(&ug).unwrap().count(&ug), Some(1));
    dag.record_query_result(&v1.hash(), false).unwrap();
    assert_eq!(dag.conflict_set(&ug).unwrap().count(&ug), Some(0));
}

#[test]
fn is_preferred() {
    let gen = Arc::new(Vertex::empty());
    let v0 = make_rand_vertex(&[&gen]);
    let v1 = make_rand_vertex(&[&gen]);
    let v2 = make_rand_vertex(&[&v0, &v1]);
    let x2 = make_rand_vertex(&[&v1, &v0]); // Conflicts with v2
    let mut dag = DAG::new(Config::default());

    assert!(matches!(dag.is_preferred(&v2.hash()), Err(dag::Error::NotFound)));
    let _ = dag.try_insert(&v2); // V2 is known now, but still waiting on parents to process
    assert!(matches!(dag.is_preferred(&v2.hash()), Err(dag::Error::WaitingOnVertex)));

    // Insert all parents of v2 and x2, so they will insert successfully now
    dag.insert_unchecked(&gen);
    dag.insert_unchecked(&v0);
    dag.insert_unchecked(&v1);

    dag.insert_unchecked(&v2);
    assert!(matches!(dag.is_preferred(&v2.hash()), Ok(true)));
    dag.insert_unchecked(&x2);
    assert!(matches!(dag.is_preferred(&x2.hash()), Ok(false)));
}

#[test]
fn query() {
    let gen = Arc::new(Vertex::empty());
    let v0 = make_rand_vertex(&[&gen]);
    let v1 = make_rand_vertex(&[&gen]);
    let v2 = make_rand_vertex(&[&v0, &v1]);
    let mut dag = DAG::with_initial_vertices(Config::default(), &[&gen]).unwrap();
    dag.try_insert(&v0).unwrap();
    dag.try_insert(&v1).unwrap();
    assert!(matches!(dag.query(&v2.hash()), Err(dag::Error::NotFound)));

    dag.try_insert(&v2).unwrap();

    // Test initial state of the dag after all inserted
    assert!(matches!(dag.query(&gen.hash()), Ok((true, true))));
    assert!(matches!(dag.query(&v0.hash()), Ok((true, false))));
    assert!(matches!(dag.query(&v1.hash()), Ok((true, false))));
    assert!(matches!(dag.query(&v2.hash()), Ok((true, false))));

    let c_v0v0 = Constraint(v0.hash(), v0.hash());
    let c_v1v1 = Constraint(v1.hash(), v1.hash());
    let c_v0v1 = Constraint(v0.hash(), v1.hash());
    let c_v2v2 = Constraint(v2.hash(), v2.hash());

    // helpers to set the state of a constraint
    let set_decision = |dag: &mut DAG, c: Constraint, d: Option<bool>| dag.set_decision(&c, d);
    let set_preferred = |dag: &mut DAG, c: Constraint, p: bool| dag.set_preference(&c, p);

    // Test with all "accepted"
    set_decision(&mut dag, c_v0v0, Some(true));
    set_decision(&mut dag, c_v1v1, Some(true));
    set_decision(&mut dag, c_v0v1, Some(true));
    set_decision(&mut dag, c_v2v2, Some(true));
    assert!(matches!(dag.query(&v2.hash()), Ok((true, true))));

    // Should still be "accepted" even if all others are rejected or undecided
    set_decision(&mut dag, c_v0v0, Some(false));
    set_decision(&mut dag, c_v1v1, Some(false));
    set_decision(&mut dag, c_v0v1, Some(false));
    set_decision(&mut dag, c_v2v2, Some(true));
    assert!(matches!(dag.query(&v2.hash()), Ok((true, true))));
    set_decision(&mut dag, c_v0v0, None);
    set_decision(&mut dag, c_v1v1, Some(false));
    set_decision(&mut dag, c_v0v1, None);
    set_preferred(&mut dag, c_v0v1, false);
    set_decision(&mut dag, c_v2v2, Some(true));
    assert!(matches!(dag.query(&v2.hash()), Ok((true, true))));

    // Should be rejected even if all others are accepted or undecided
    set_decision(&mut dag, c_v0v0, Some(true));
    set_decision(&mut dag, c_v1v1, Some(true));
    set_decision(&mut dag, c_v0v1, Some(true));
    set_decision(&mut dag, c_v2v2, Some(false));
    assert!(matches!(dag.query(&v2.hash()), Ok((false, true))));
    set_decision(&mut dag, c_v0v0, Some(true));
    set_decision(&mut dag, c_v1v1, None);
    set_decision(&mut dag, c_v0v1, Some(true));
    set_decision(&mut dag, c_v2v2, Some(false));
    assert!(matches!(dag.query(&v2.hash()), Ok((false, true))));

    // Should be undecided, but strongly preferred, if all ancesters are preferred
    set_decision(&mut dag, c_v0v0, Some(true));
    set_decision(&mut dag, c_v1v1, Some(true));
    set_decision(&mut dag, c_v0v1, Some(true));
    set_preferred(&mut dag, c_v0v1, true);
    set_decision(&mut dag, c_v2v2, None);
    assert!(matches!(dag.query(&v2.hash()), Ok((true, false))));
    set_decision(&mut dag, c_v0v0, None);
    set_decision(&mut dag, c_v1v1, None);
    set_decision(&mut dag, c_v0v1, None);
    set_preferred(&mut dag, c_v0v1, true);
    set_decision(&mut dag, c_v2v2, None);
    assert!(matches!(dag.query(&v2.hash()), Ok((true, false))));
    set_decision(&mut dag, c_v0v0, None);
    set_decision(&mut dag, c_v1v1, None);
    set_decision(&mut dag, c_v0v1, None);
    set_preferred(&mut dag, c_v0v1, false);
    set_decision(&mut dag, c_v2v2, None);
    assert!(matches!(dag.query(&v2.hash()), Ok((false, false))));
}

#[test]
fn get_frontier() {
    // Vertices observed ten milliseconds apart
    let observed = |vx: Arc<Vertex>, t: i64| {
        let mut v = (*vx).clone();
        v.timestamp = t;
        Arc::new(v)
    };
    let base = Vertex::empty().timestamp;
    let gen = observed(Arc::new(Vertex::empty()), base);
    let v0 = observed(make_rand_vertex(&[&gen]), base + 10_000);
    let v1 = observed(make_rand_vertex(&[&gen]), base + 20_000);
    let v2 = observed(make_rand_vertex(&[&v0, &v1]), base + 30_000);
    let mut dag = DAG::new(Config::default());
    dag.learn_vertex(&gen);
    dag.learn_vertex(&v0);
    dag.learn_vertex(&v1);
    dag.learn_vertex(&v2);

    // Confirm that frontier is always sorted by timestamp
    dag.add_to_frontier(&v0.hash());
    dag.add_to_frontier(&v2.hash());
    assert_eq!(dag.get_frontier(), vec![v0.hash(), v2.hash()]);
    dag.add_to_frontier(&v1.hash()); // comes before v2
    assert_eq!(dag.get_frontier(), vec![v0.hash(), v1.hash(), v2.hash()]);
}

#[test]
fn get_known_children() {
    let gen = Arc::new(Vertex::empty());
    let v10 = make_rand_vertex(&[&gen]);
    let v11 = make_rand_vertex(&[&gen]);
    let mut dag = DAG::new(Config::default());
    assert!(matches!(dag.get_known_children(&gen.hash()), Err(dag::Error::NotFound)));
    dag.insert_unchecked(&gen);
    assert_eq!(set(dag.get_known_children(&gen.hash()).unwrap()), HashSet::new());
    dag.insert_unchecked(&v10);
    assert!(dag.get_known_children(&gen.hash()).unwrap().into_iter().eq([v10.hash()]));
    dag.insert_unchecked(&v11);
    let mut children = dag.get_known_children(&gen.hash()).unwrap();
    children.sort();
    let mut expected = vec![v10.hash(), v11.hash()];
    expected.sort();
    assert_eq!(children, expected);
}

#[test]
fn new_conflict_set() {
    let gen = Arc::new(Vertex::empty());
    let v0 = make_rand_vertex(&[&gen]);
    let v1 = make_rand_vertex(&[&gen]);
    let v2 = make_rand_vertex(&[&v0, &v1]);
    let sorted = |mut v: Vec<Constraint>| {
        v.sort();
        v
    };

    // New conflict set for binary constraint
    let constraint = Constraint(v2.hash(), v1.hash()); // Binary constraint between v2 & v1
    let mut c_parents = VecSet::new();
    c_parents.insert_all(&v2.parent_constraints().to_vec());
    let cs = ConflictSet::new(constraint, c_parents.clone());
    let opposite = constraint.opposite().unwrap();
    let (chits, confidences, counts, parents, children, decisions) = cs.entry_counts();
    assert_eq!(cs.preferred(), constraint);
    assert_eq!(cs.last(), constraint);
    assert_eq!(chits, 2);
    assert_eq!(cs.chit(&constraint), Some(false));
    assert_eq!(cs.chit(&opposite), Some(false));
    assert_eq!(confidences, 2);
    assert_eq!(cs.confidence(&constraint), Some(0));
    assert_eq!(cs.confidence(&opposite), Some(0));
    assert_eq!(counts, 2);
    assert_eq!(cs.count(&constraint), Some(0));
    assert_eq!(cs.count(&opposite), Some(0));
    assert_eq!(parents, 2);
    assert_eq!(
        sorted(cs.parents_of(&constraint).unwrap()),
        sorted(v2.parent_constraints().to_vec())
    );
    assert_eq!(cs.parents_of(&opposite).unwrap().len(), 0);
    assert_eq!(children, 2);
    assert_eq!(cs.children_of(&constraint).unwrap().len(), 0);
    assert_eq!(cs.children_of(&opposite).unwrap().len(), 0);
    assert_eq!(decisions, 0); // Decision is intentionally empty

    // New conflict set for unity constraint
    let constraint = Constraint(v2.hash(), v2.hash()); // Unity contraint on v2
    let cs = ConflictSet::new(constraint, c_parents.clone());
    let (chits, confidences, counts, parents, children, decisions) = cs.entry_counts();
    assert_eq!(cs.preferred(), constraint);
    assert_eq!(cs.last(), constraint);
    assert_eq!(chits, 1);
    assert_eq!(cs.chit(&constraint), Some(false));
    assert_eq!(confidences, 1);
    assert_eq!(cs.confidence(&constraint), Some(0));
    assert_eq!(counts, 1);
    assert_eq!(cs.count(&constraint), Some(0));
    assert_eq!(parents, 1);
    assert_eq!(
        sorted(cs.parents_of(&constraint).unwrap()),
        sorted(v2.parent_constraints().to_vec())
    );
    assert_eq!(children, 1);
    assert_eq!(cs.children_of(&constraint).unwrap().len(), 0);
    assert_eq!(decisions, 0); // Decision is intentionally empty
}

#[test]
fn frontier_of_genesis() {
    let gen = Arc::new(Vertex::empty());
    let mut dag = DAG::with_initial_vertices(Config::default(), &[&gen]).unwrap();
    assert_eq!(dag.get_frontier(), vec![gen.hash()]);
}

#[test]
fn frontier_follows_inserts() {
    let gen = Arc::new(Vertex::empty());
    let mut dag = DAG::with_initial_vertices(Config::default(), &[&gen]).unwrap();
    let v0 = make_rand_vertex(&[&gen]);
    let v1 = make_rand_vertex(&[&gen]);
    let v2 = make_rand_vertex(&[&v0, &v1]);
    dag.try_insert(&v0).unwrap();
    assert_eq!(dag.get_frontier(), vec![v0.hash()]);
    dag.try_insert(&v1).unwrap();
    assert_eq!(set(dag.get_frontier()), set(vec![v0.hash(), v1.hash()]));
    // A vertex whose parents are not all in the graph does not reach the frontier
    let v3 = make_rand_vertex(&[&v2]);
    assert!(dag.try_insert(&v3).is_err());
    assert_eq!(set(dag.get_frontier()), set(vec![v0.hash(), v1.hash()]));
    dag.try_insert(&v2).unwrap();
    assert_eq!(dag.get_frontier(), vec![v2.hash()]);
}

#[test]
fn initial_vertex_given_twice() {
    let gen = Arc::new(Vertex::empty());
    let v0 = make_rand_vertex(&[&gen]);
    let mut dag = DAG::with_initial_vertices(Config::default(), &[&gen, &v0, &gen]).unwrap();
    assert!(dag.pending_queries().is_empty());
    assert_eq!(dag.query(&gen.hash()).unwrap(), (true, true));
    assert_eq!(dag.query(&v0.hash()).unwrap(), (true, true));
    assert_eq!(dag.get_frontier(), vec![v0.hash()]);
}

#[test]
fn decisions_are_final() {
    let gen = Arc::new(Vertex::empty());
    let mut dag = DAG::with_initial_vertices(Config::default(), &[&gen]).unwrap();
    let v0 = make_rand_vertex(&[&gen]);
    let v1 = make_rand_vertex(&[&v0]);
    dag.try_insert(&v0).unwrap();
    dag.try_insert(&v1).unwrap();
    // Refused and recorded results alike leave the accepted genesis accepted
    assert!(dag.record_query_result(&v1.hash(), true).is_err());
    assert_eq!(dag.query(&gen.hash()).unwrap(), (true, true));
    dag.record_query_result(&v0.hash(), false).unwrap();
    assert_eq!(dag.query(&gen.hash()).unwrap(), (true, true));
    dag.record_query_result(&v1.hash(), true).unwrap();
    assert_eq!(dag.query(&gen.hash()).unwrap(), (true, true));
    assert!(dag.record_query_result(&gen.hash(), false).is_err());
    assert_eq!(dag.query(&gen.hash()).unwrap(), (true, true));
}
