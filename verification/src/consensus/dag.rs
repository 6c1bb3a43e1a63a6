use crate::collections::{distinct, seq_insert, seq_insert_all, MapKey, VecMap, VecSet};
use crate::consensus::constraint_graph::{
    accept_all, cparents_of, cs_add_child, dag_inv, decide, enter_all, enter_constraint,
    accepted_in, insert_states, lemma_accept_all_keeps, lemma_cs_facts, lemma_decide_inv,
    lemma_frontier_inv, lemma_insert_states_keeps, lemma_insert_inv, lemma_learn_inv,
    lemma_reinsert_inv, lemma_walk_closed,
    lemma_update_cs_inv, lemma_walk_keys, new_cs_view, pcs_of, pcs_set, progeny_chits,
    progeny_list, rank_of, register_all, register_child, undecided, walk, walk_list,
    ConflictSetView,
};
use crate::consensus::vertex::{
    self, constraint_seq, key_of, lemma_key_of, spec_is_unity, spec_opposite, ConflictSetKey,
    Constraint, Vertex, VertexHash, VertexView,
};
use crate::hash::lemma_hash_view;
use crate::params::{default_genesis_hash, AVALANCHE_CONFIDENCE_THRESHOLD, AVALANCHE_COUNTER_THRESHOLD};
use std::sync::Arc;
use vstd::prelude::*;

verus! {


/// Error type for DAG errors
#[derive(Debug, PartialEq, Eq)]
pub enum Error {
    AlreadyInserted,
    AlreadyQueried,
    BadHeight(u64, u64),
    BadParentHeight,
    ConflictingParents,
    Hash(crate::hash::Error),
    MissingParents(Vec<VertexHash>),
    NoParents,
    NotFound,
    Vertex(vertex::Error),
    WaitingOnVertex,
    WaitingOnParents(Vec<VertexHash>),
}

/// Configuration parameters for a [`DAG`] instance
#[derive(Clone, Copy, Debug, PartialEq, Eq)]
pub struct Config {
    /// Hash of the graph's genesis vertex
    pub genesis: VertexHash,
    /// Counter value at which a constraint will be accepted, according to Avalanche consensus
    pub max_count: usize,
    /// Confidence value at which a constraint will be accepted under the "safe early commitment"
    /// criteria in the Avalanche specification
    pub max_confidence: usize,
}

impl Default for Config {
    fn default() -> (c: Config)
        ensures
            c.genesis@ == Seq::new(32, |i: int| 0u8),
            c.max_count == AVALANCHE_COUNTER_THRESHOLD,
            c.max_confidence == AVALANCHE_CONFIDENCE_THRESHOLD,
    {
        Config {
            genesis: default_genesis_hash(),
            max_count: AVALANCHE_COUNTER_THRESHOLD,
            max_confidence: AVALANCHE_CONFIDENCE_THRESHOLD,
        }
    }
}

/// State variables used in Avalanche consensus, to reach agreement on the [`Constraint`] graph.
/// A conflict set holds a constraint and, unless it is a unity constraint, its opposite.
#[derive(Debug)]
pub struct ConflictSet {
    /// Which constraint of the set is currently preferred
    preferred: Constraint,
    /// Which constraint was previously voted for
    last: Constraint,
    /// Chits for each constraint in the set
    chit: VecMap<Constraint, bool>,
    /// Confidence value (sum of chits in progeny) for each constraint in the set
    confidence: VecMap<Constraint, usize>,
    /// Vote counters for each constraint in the set
    count: VecMap<Constraint, usize>,
    /// Parents in the constraint graph for each constraint in the conflict set
    parents: VecMap<Constraint, VecSet<Constraint>>,
    /// Known children in the constraint graph for each constraint in the conflict set
    children: VecMap<Constraint, VecSet<Constraint>>,
    /// If a decision has been made for the associated constraints (accepted or rejected), that
    /// decision is recorded here
    decision: VecMap<Constraint, bool>,
}

impl View for ConflictSet {
    type V = ConflictSetView;

    closed spec fn view(&self) -> ConflictSetView {
        ConflictSetView {
            preferred: self.preferred,
            last: self.last,
            chit: self.chit@,
            confidence: self.confidence@,
            count: self.count@,
            parents: self.parents@.map_values(|s: VecSet<Constraint>| s@),
            children: self.children@.map_values(|s: VecSet<Constraint>| s@),
            decision: self.decision@,
        }
    }
}

impl ConflictSet {
    pub closed spec fn wf(&self) -> bool {
        &&& self.chit.wf()
        &&& self.confidence.wf()
        &&& self.count.wf()
        &&& self.parents.wf()
        &&& self.children.wf()
        &&& self.decision.wf()
        &&& forall|c: Constraint| #[trigger]
            self.parents@.dom().contains(c) ==> self.parents@[c].wf()
        &&& forall|c: Constraint| #[trigger]
            self.children@.dom().contains(c) ==> self.children@[c].wf()
    }

    /// A fresh conflict set for `initial`, whose parents in the constraint graph are `parents`
    pub fn new(initial: Constraint, parents: VecSet<Constraint>) -> (cs: ConflictSet)
        requires
            parents.wf(),
        ensures
            cs.wf(),
            cs@ == new_cs_view(initial, parents@),
    {
        let mut cs = ConflictSet {
            preferred: initial,
            last: initial,
            chit: VecMap::new(),
            confidence: VecMap::new(),
            count: VecMap::new(),
            parents: VecMap::new(),
            children: VecMap::new(),
            decision: VecMap::new(),
        };
        cs.chit.insert(initial, false);
        cs.confidence.insert(initial, 0);
        cs.count.insert(initial, 0);
        cs.parents.insert(initial, parents);
        cs.children.insert(initial, VecSet::new());
        match initial.opposite() {
            Some(opposite) => {
                cs.chit.insert(opposite, false);
                cs.confidence.insert(opposite, 0);
                cs.count.insert(opposite, 0);
                cs.parents.insert(opposite, VecSet::new());
                cs.children.insert(opposite, VecSet::new());
            },
            None => {},
        }
        proof {
            let v = new_cs_view(initial, parents@);
            assert(cs@.chit =~= v.chit);
            assert(cs@.confidence =~= v.confidence);
            assert(cs@.count =~= v.count);
            assert(cs@.parents =~= v.parents);
            assert(Seq::<Constraint>::empty().to_set() =~= Set::<Constraint>::empty());
            assert(cs@.children =~= v.children);
            assert(cs@.decision =~= v.decision);
        }
        cs
    }

    /// Register `c` as a known child of the member `p`
    fn add_child(&mut self, p: Constraint, c: Constraint)
        requires
            old(self).wf(),
        ensures
            final(self).wf(),
            final(self)@ == cs_add_child(old(self)@, p, c),
    {
        let ghost v0 = self@;
        let ghost m0 = self.children@;
        let mut ch = match self.children.get(&p) {
            Some(s) => s.clone(),
            None => VecSet::new(),
        };
        assert(ch@ == (if v0.children.dom().contains(p) {
            v0.children[p]
        } else {
            Seq::empty()
        }));
        ch.insert(c);
        self.children.insert(p, ch);
        assert forall|q: Constraint| #[trigger] self.children@.dom().contains(q) implies self.children@[q].wf() by {
            if q != p {
                assert(m0.dom().contains(q));
            }
        }
        assert(self@.children =~= cs_add_child(v0, p, c).children);
    }

    /// The constraint of this set which is currently preferred
    pub fn preferred(&self) -> (r: Constraint)
        ensures
            r == self@.preferred,
    {
        self.preferred
    }

    /// The constraint of this set which was last voted for
    pub fn last(&self) -> (r: Constraint)
        ensures
            r == self@.last,
    {
        self.last
    }

    /// Whether `c` holds a chit, if it is a member of the set
    pub fn chit(&self, c: &Constraint) -> (r: Option<bool>)
        requires
            self.wf(),
        ensures
            r == (if self@.chit.dom().contains(*c) {
                Some(self@.chit[*c])
            } else {
                None::<bool>
            }),
    {
        match self.chit.get(c) {
            Some(b) => Some(*b),
            None => None,
        }
    }

    /// Confidence in `c`, if it is a member of the set
    pub fn confidence(&self, c: &Constraint) -> (r: Option<usize>)
        requires
            self.wf(),
        ensures
            r == (if self@.confidence.dom().contains(*c) {
                Some(self@.confidence[*c])
            } else {
                None::<usize>
            }),
    {
        match self.confidence.get(c) {
            Some(n) => Some(*n),
            None => None,
        }
    }

    /// Vote counter of `c`, if it is a member of the set
    pub fn count(&self, c: &Constraint) -> (r: Option<usize>)
        requires
            self.wf(),
        ensures
            r == (if self@.count.dom().contains(*c) {
                Some(self@.count[*c])
            } else {
                None::<usize>
            }),
    {
        match self.count.get(c) {
            Some(n) => Some(*n),
            None => None,
        }
    }

    /// Decision on `c`, if one was made
    pub fn decision(&self, c: &Constraint) -> (r: Option<bool>)
        requires
            self.wf(),
        ensures
            r == (if self@.decision.dom().contains(*c) {
                Some(self@.decision[*c])
            } else {
                None::<bool>
            }),
    {
        match self.decision.get(c) {
            Some(b) => Some(*b),
            None => None,
        }
    }

    /// Parents of `c` in the constraint graph, if it is a member of the set
    pub fn parents_of(&self, c: &Constraint) -> (r: Option<Vec<Constraint>>)
        requires
            self.wf(),
        ensures
            match r {
                Some(v) => self@.parents.dom().contains(*c) && v@ == self@.parents[*c],
                None => !self@.parents.dom().contains(*c),
            },
    {
        match self.parents.get(c) {
            Some(ps) => Some(ps.to_vec()),
            None => None,
        }
    }

    /// Known children of `c` in the constraint graph, if it is a member of the set
    pub fn children_of(&self, c: &Constraint) -> (r: Option<Vec<Constraint>>)
        requires
            self.wf(),
        ensures
            match r {
                Some(v) => self@.children.dom().contains(*c) && v@ == self@.children[*c],
                None => !self@.children.dom().contains(*c),
            },
    {
        match self.children.get(c) {
            Some(ds) => Some(ds.to_vec()),
            None => None,
        }
    }

    /// Number of entries for chits, confidences, counters, parents, children and decisions
    pub fn entry_counts(&self) -> (r: (usize, usize, usize, usize, usize, usize))
        requires
            self.wf(),
        ensures
            r.0 == self@.chit.len(),
            r.1 == self@.confidence.len(),
            r.2 == self@.count.len(),
            r.3 == self@.parents.len(),
            r.4 == self@.children.len(),
            r.5 == self@.decision.len(),
    {
        proof {
            assert(self@.parents.dom() =~= self.parents@.dom());
            assert(self@.children.dom() =~= self.children@.dom());
        }
        (
            self.chit.len(),
            self.confidence.len(),
            self.count.len(),
            self.parents.len(),
            self.children.len(),
            self.decision.len(),
        )
    }

    /// Award a chit to `c`
    fn set_chit(&mut self, c: Constraint)
        requires
            old(self).wf(),
        ensures
            final(self).wf(),
            final(self)@ == (ConflictSetView { chit: old(self)@.chit.insert(c, true), ..old(self)@ }),
    {
        self.chit.insert(c, true);
    }

    /// Record a vote for `c`, whose confidence is `conf` and that of its conflict `opp_conf`.
    /// Returns the vote counter of `c`.
    fn record_vote(&mut self, c: Constraint, conf: usize, opp_conf: usize) -> (n: usize)
        requires
            old(self).wf(),
            old(self)@.count.dom().contains(c),
        ensures
            final(self).wf(),
            final(self)@ == vote_cs(old(self)@, c, conf, opp_conf),
            n == final(self)@.count[c],
    {
        // Update the confidence score
        self.confidence.insert(c, conf);
        // Set this constraint as preferred if it has the higher confidence
        if conf > opp_conf {
            self.preferred = c;
        }
        // Increment the counter, if this vote is the same as the previous vote in this conflict set
        let n = if !self.last.key_eq(&c) {
            self.last = c;
            1
        } else {
            let old_count = *self.count.get(&c).unwrap();
            old_count.saturating_add(1)
        };
        self.count.insert(c, n);
        n
    }

    /// Accept `c`, and reject its conflict, if any
    fn accept(&mut self, c: Constraint)
        requires
            old(self).wf(),
        ensures
            final(self).wf(),
            final(self)@ == accept_cs(old(self)@, c),
    {
        self.decision.insert(c, true);
        self.preferred = c;
        match c.opposite() {
            Some(opp) => {
                self.decision.insert(opp, false);
            },
            None => {},
        }
    }

    /// Reset the vote counter of `c`
    fn reset_count(&mut self, c: Constraint)
        requires
            old(self).wf(),
        ensures
            final(self).wf(),
            final(self)@ == (ConflictSetView { count: old(self)@.count.insert(c, 0), ..old(self)@ }),
    {
        self.count.insert(c, 0);
    }
}

/// Mathematical model of a [`DAG`]
pub ghost struct DagView {
    pub config: Config,
    /// Every known vertex, by hash
    pub vertex: Map<VertexHash, VertexView>,
    /// Vertices in the active region of the graph
    pub graph: Set<VertexHash>,
    /// Vertices waiting for the results of a query
    pub pending_query: Set<VertexHash>,
    /// Known children of each vertex, in the order they became known
    pub children: Map<VertexHash, Seq<VertexHash>>,
    /// Avalanche state of each conflict set
    pub state: Map<ConflictSetKey, ConflictSetView>,
    /// Vertices at the frontier of the graph
    pub frontier: Set<VertexHash>,
    /// Position of each vertex of the graph in the order of insertion
    pub order: Map<VertexHash, nat>,
    /// Number of vertices inserted into the graph so far
    pub next: nat,
}

/// Parents of a vertex that are not known at all, in order
pub open spec fn missing_of(vx: Map<VertexHash, VertexView>, ps: Seq<VertexHash>) -> Seq<VertexHash>
    decreases ps.len(),
{
    if ps.len() == 0 {
        Seq::empty()
    } else {
        let m = missing_of(vx, ps.drop_last());
        if !vx.dom().contains(ps.last()) {
            m.push(ps.last())
        } else {
            m
        }
    }
}

/// Parents of a vertex that are known but not yet in the graph, in order
pub open spec fn waiting_of(
    vx: Map<VertexHash, VertexView>,
    graph: Set<VertexHash>,
    ps: Seq<VertexHash>,
) -> Seq<VertexHash>
    decreases ps.len(),
{
    if ps.len() == 0 {
        Seq::empty()
    } else {
        let w = waiting_of(vx, graph, ps.drop_last());
        if vx.dom().contains(ps.last()) && !graph.contains(ps.last()) {
            w.push(ps.last())
        } else {
            w
        }
    }
}

/// No parent is missing exactly when every parent is known
pub proof fn lemma_missing_empty(vx: Map<VertexHash, VertexView>, ps: Seq<VertexHash>)
    ensures
        missing_of(vx, ps).len() == 0 <==> forall|i: int|
            0 <= i < ps.len() ==> #[trigger] vx.dom().contains(ps[i]),
    decreases ps.len(),
{
    if ps.len() > 0 {
        lemma_missing_empty(vx, ps.drop_last());
        if missing_of(vx, ps).len() == 0 {
            assert forall|i: int| 0 <= i < ps.len() implies #[trigger] vx.dom().contains(ps[i]) by {
                if i < ps.len() - 1 {
                    assert(ps.drop_last()[i] == ps[i]);
                }
            }
        }
        if forall|i: int| 0 <= i < ps.len() ==> #[trigger] vx.dom().contains(ps[i]) {
            assert forall|i: int| 0 <= i < ps.drop_last().len() implies #[trigger] vx.dom().contains(
                ps.drop_last()[i],
            ) by {
                assert(ps.drop_last()[i] == ps[i]);
            }
            assert(vx.dom().contains(ps[ps.len() - 1]));
        }
    }
}

/// When every parent is known, none is waiting exactly when every parent is in the graph
pub proof fn lemma_waiting_empty(
    vx: Map<VertexHash, VertexView>,
    graph: Set<VertexHash>,
    ps: Seq<VertexHash>,
)
    requires
        forall|i: int| 0 <= i < ps.len() ==> #[trigger] vx.dom().contains(ps[i]),
    ensures
        waiting_of(vx, graph, ps).len() == 0 <==> forall|i: int|
            0 <= i < ps.len() ==> #[trigger] graph.contains(ps[i]),
    decreases ps.len(),
{
    if ps.len() > 0 {
        assert forall|i: int| 0 <= i < ps.drop_last().len() implies #[trigger] vx.dom().contains(
            ps.drop_last()[i],
        ) by {
            assert(ps.drop_last()[i] == ps[i]);
        }
        lemma_waiting_empty(vx, graph, ps.drop_last());
        assert(vx.dom().contains(ps[ps.len() - 1]));
        if waiting_of(vx, graph, ps).len() == 0 {
            assert forall|i: int| 0 <= i < ps.len() implies #[trigger] graph.contains(ps[i]) by {
                if i < ps.len() - 1 {
                    assert(ps.drop_last()[i] == ps[i]);
                }
            }
        }
        if forall|i: int| 0 <= i < ps.len() ==> #[trigger] graph.contains(ps[i]) {
            assert forall|i: int| 0 <= i < ps.drop_last().len() implies #[trigger] graph.contains(
                ps.drop_last()[i],
            ) by {
                assert(ps.drop_last()[i] == ps[i]);
            }
            assert(graph.contains(ps[ps.len() - 1]));
        }
    }
}

/// Every parent ordering constraint of the given vertices
pub open spec fn constraints_of_all(vx: Map<VertexHash, VertexView>, ps: Seq<VertexHash>) -> Set<
    Constraint,
> {
    Set::new(
        |c: Constraint|
            exists|i: int, j: int|
                0 <= i < ps.len() && 0 <= j < pcs_of(vx, ps[i]).len() && #[trigger] pcs_of(
                    vx,
                    ps[i],
                )[j] == c,
    )
}

/// Some constraint of the given vertices has its opposite among them too
pub open spec fn conflicting(vx: Map<VertexHash, VertexView>, ps: Seq<VertexHash>) -> bool {
    exists|c: Constraint|
        #![trigger constraints_of_all(vx, ps).contains(c)]
        constraints_of_all(vx, ps).contains(c) && !spec_is_unity(c) && constraints_of_all(
            vx,
            ps,
        ).contains(spec_opposite(c))
}

/// Outcome of the checks a vertex must pass before insertion
pub ghost enum CheckOutcome {
    Passed,
    Sanity,
    AlreadyInserted,
    Missing(Seq<VertexHash>),
    Waiting(Seq<VertexHash>),
    BadParentHeight,
    BadHeight(u64, u64),
    ConflictingParents,
}

/// The error that reports a check outcome
pub open spec fn reports(e: Error, o: CheckOutcome, v: VertexView) -> bool {
    match o {
        CheckOutcome::Passed => false,
        CheckOutcome::Sanity => e matches Error::Vertex(ve) && v.sanity_error(ve),
        CheckOutcome::AlreadyInserted => e == Error::AlreadyInserted,
        CheckOutcome::Missing(s) => e matches Error::MissingParents(x) && x@ == s,
        CheckOutcome::Waiting(s) => e matches Error::WaitingOnParents(x) && x@ == s,
        CheckOutcome::BadParentHeight => e == Error::BadParentHeight,
        CheckOutcome::BadHeight(a, b) => e == Error::BadHeight(a, b),
        CheckOutcome::ConflictingParents => e == Error::ConflictingParents,
    }
}

/// One more vertex's constraints in the union of constraints
proof fn lemma_union_step(
    vxm: Map<VertexHash, VertexView>,
    ps: Seq<VertexHash>,
    k: int,
    before: Seq<Constraint>,
    pcs: Seq<Constraint>,
    after: Seq<Constraint>,
)
    requires
        0 <= k < ps.len(),
        distinct(before),
        before.to_set() == constraints_of_all(vxm, ps.take(k)),
        pcs == pcs_of(vxm, ps[k]),
        after == seq_insert_all(before, pcs),
    ensures
        after.to_set() == constraints_of_all(vxm, ps.take(k + 1)),
{
    crate::collections::lemma_seq_insert_all(before, pcs);
    let t = ps.take(k + 1);
    let t0 = ps.take(k);
    assert forall|c: Constraint| #[trigger] after.to_set().contains(c) == constraints_of_all(
        vxm,
        t,
    ).contains(c) by {
        if constraints_of_all(vxm, t).contains(c) {
            let (a, b) = choose|a: int, b: int|
                0 <= a < t.len() && 0 <= b < pcs_of(vxm, t[a]).len() && #[trigger] pcs_of(
                    vxm,
                    t[a],
                )[b] == c;
            if a < k {
                assert(t0[a] == t[a]);
                assert(constraints_of_all(vxm, t0).contains(c));
                assert(before.to_set().contains(c));
            } else {
                assert(pcs[b] == c);
            }
        }
        if after.to_set().contains(c) {
            if before.contains(c) {
                assert(before.to_set().contains(c));
                let (a, b) = choose|a: int, b: int|
                    0 <= a < t0.len() && 0 <= b < pcs_of(vxm, t0[a]).len() && #[trigger] pcs_of(
                        vxm,
                        t0[a],
                    )[b] == c;
                assert(t[a] == t0[a]);
                assert(pcs_of(vxm, t[a])[b] == c);
            } else {
                let b = choose|b: int| 0 <= b < pcs.len() && pcs[b] == c;
                assert(t[k] == ps[k]);
                assert(pcs_of(vxm, t[k])[b] == c);
            }
        }
    }
    assert(after.to_set() =~= constraints_of_all(vxm, t));
}

impl DagView {
    /// The checks a vertex must pass before it may be inserted: sanity checks, not yet in the
    /// graph, every parent known and in the graph, all parents at the same height, the vertex one
    /// higher, and no two parents committing to opposite constraints.
    pub open spec fn check(self, v: VertexView) -> CheckOutcome {
        let ps = v.parents;
        if !v.sane() {
            CheckOutcome::Sanity
        } else if self.graph.contains(vertex::spec_vertex_hash(v)) {
            CheckOutcome::AlreadyInserted
        } else if missing_of(self.vertex, ps).len() > 0 {
            CheckOutcome::Missing(missing_of(self.vertex, ps))
        } else if waiting_of(self.vertex, self.graph, ps).len() > 0 {
            CheckOutcome::Waiting(waiting_of(self.vertex, self.graph, ps))
        } else if exists|i: int|
            0 <= i < ps.len() && #[trigger] self.vertex[ps[i]].height != self.vertex[ps[0]].height {
            CheckOutcome::BadParentHeight
        } else if v.height != self.vertex[ps[0]].height + 1 {
            CheckOutcome::BadHeight(v.height, (self.vertex[ps[0]].height + 1) as u64)
        } else if conflicting(self.vertex, ps) {
            CheckOutcome::ConflictingParents
        } else {
            CheckOutcome::Passed
        }
    }

    /// The invariant of the DAG
    pub open spec fn inv(self) -> bool {
        dag_inv(self.vertex, self.graph, self.order, self.next, self.state, self.frontier)
    }
}

/// Known children after adding `v` as a child of `p`
pub open spec fn add_child_spec(
    ch: Map<VertexHash, Seq<VertexHash>>,
    p: VertexHash,
    v: VertexHash,
) -> Map<VertexHash, Seq<VertexHash>> {
    ch.insert(
        p,
        if ch.dom().contains(p) {
            seq_insert(ch[p], v)
        } else {
            seq![v]
        },
    )
}

/// Known children after adding `v` as a child of each of `ps`, in order
pub open spec fn map_child_spec(
    ch: Map<VertexHash, Seq<VertexHash>>,
    v: VertexHash,
    ps: Seq<VertexHash>,
) -> Map<VertexHash, Seq<VertexHash>>
    decreases ps.len(),
{
    if ps.len() == 0 {
        ch
    } else {
        map_child_spec(add_child_spec(ch, ps[0], v), v, ps.drop_first())
    }
}

/// Noting children never forgets a vertex with known children
pub proof fn lemma_map_child_dom(ch: Map<VertexHash, Seq<VertexHash>>, v: VertexHash, ps: Seq<VertexHash>)
    ensures
        ch.dom().subset_of(map_child_spec(ch, v, ps).dom()),
    decreases ps.len(),
{
    if ps.len() > 0 {
        lemma_map_child_dom(add_child_spec(ch, ps[0], v), v, ps.drop_first());
    }
}

/// A DAG with nothing in it
pub open spec fn empty_view(config: Config) -> DagView {
    DagView {
        config,
        vertex: Map::empty(),
        graph: Set::empty(),
        pending_query: Set::empty(),
        children: Map::empty(),
        state: Map::empty(),
        frontier: Set::empty(),
        order: Map::empty(),
        next: 0,
    }
}

/// Known children after vertex `v` is noted as a child of each of its parents
pub open spec fn child_noted(
    ch: Map<VertexHash, Seq<VertexHash>>,
    v: VertexView,
) -> Map<VertexHash, Seq<VertexHash>> {
    map_child_spec(ch, vertex::spec_vertex_hash(v), v.parents)
}

/// The DAG after vertex `v` is inserted into the graph: it becomes known, gets an (empty, unless
/// already known) entry of known children, is noted as a child of its parents, its constraints
/// enter the constraint graph, its unity constraint gets a fresh conflict set, and it waits for
/// the result of a query. A vertex new to the graph takes the place of its parents at the
/// frontier and is numbered next; one already in the graph keeps its place and number.
pub open spec fn insert_spec(d: DagView, v: VertexView) -> DagView {
    let h = vertex::spec_vertex_hash(v);
    let fresh = !d.graph.contains(h);
    let vx = d.vertex.insert(h, v);
    DagView {
        vertex: vx,
        graph: d.graph.insert(h),
        pending_query: d.pending_query.insert(h),
        children: child_noted(
            if d.children.dom().contains(h) {
                d.children
            } else {
                d.children.insert(h, Seq::empty())
            },
            v,
        ),
        state: insert_states(d.state, vx, h, v),
        frontier: if fresh {
            d.frontier.difference(v.parents.to_set()).insert(h)
        } else {
            d.frontier
        },
        order: if fresh {
            d.order.insert(h, d.next)
        } else {
            d.order
        },
        next: if fresh {
            d.next + 1
        } else {
            d.next
        },
        ..d
    }
}

/// The DAG after vertex `v`, which waits on the parents `w`, becomes known: it is noted as a child
/// of its parents, and each parent of `w` waits for the result of a query
pub open spec fn learn_spec(d: DagView, v: VertexView, w: Seq<VertexHash>) -> DagView {
    DagView {
        vertex: d.vertex.insert(vertex::spec_vertex_hash(v), v),
        children: child_noted(d.children, v),
        pending_query: d.pending_query + w.to_set(),
        ..d
    }
}

/// Hashes of `ch` which are not in `graph`, in order
pub open spec fn outside_graph(ch: Seq<VertexHash>, graph: Set<VertexHash>) -> Seq<VertexHash>
    decreases ch.len(),
{
    if ch.len() == 0 {
        Seq::empty()
    } else if graph.contains(ch.last()) {
        outside_graph(ch.drop_last(), graph)
    } else {
        outside_graph(ch.drop_last(), graph).push(ch.last())
    }
}

/// The DAG after an initial vertex is inserted: its constraints are all accepted, and it does
/// not wait for a query
pub open spec fn initial_step(d: DagView, v: VertexView) -> DagView {
    let h = vertex::spec_vertex_hash(v);
    let d1 = insert_spec(d, v);
    DagView {
        pending_query: d1.pending_query.remove(h),
        state: accept_all(d1.state, pcs_set(v).push(Constraint(h, h))),
        ..d1
    }
}

/// The DAG after each of the initial vertices `vs` is inserted, in order
pub open spec fn initial_dag(d: DagView, vs: Seq<VertexView>) -> DagView
    decreases vs.len(),
{
    if vs.len() == 0 {
        d
    } else {
        initial_step(initial_dag(d, vs.drop_last()), vs.last())
    }
}

/// Distinct ancestors of `c` that a walk up the constraint graph finds, in the order found: each
/// parent of a constraint that its conflict set has not accepted yet, and that parent's ancestors
pub open spec fn ancestor_seq(d: DagView, c: Constraint) -> Seq<Constraint> {
    seq_insert_all(
        Seq::empty(),
        walk(d.state, d.config.max_count, d.config.max_confidence, (rank_of(d.order, c) + 1) as nat, c),
    )
}

/// Confidence in `c`: the number of distinct constraints of its progeny (itself included) that
/// hold a chit
pub open spec fn conf_of(
    st: Map<ConflictSetKey, ConflictSetView>,
    order: Map<VertexHash, nat>,
    next: nat,
    c: Constraint,
) -> nat {
    progeny_chits(st, (2 * next - rank_of(order, c) + 1) as nat, c).to_set().len()
}

/// Whether `c` is accepted, or else undecided but preferred in its conflict set
pub open spec fn preferred_status(st: Map<ConflictSetKey, ConflictSetView>, c: Constraint) -> bool {
    let cs = st[key_of(c)];
    if cs.decision.dom().contains(c) {
        cs.decision[c]
    } else {
        cs.preferred == c
    }
}

/// Result of querying the status of the vertex with hash `h`: whether it is strongly preferred, and
/// whether that is final. A decision on its unity constraint is final; otherwise the vertex is
/// strongly preferred when every ancestor of its unity constraint is accepted or preferred.
pub open spec fn query_spec(d: DagView, h: VertexHash) -> Result<(bool, bool), Error> {
    let u = Constraint(h, h);
    let k = key_of(u);
    if !d.state.dom().contains(k) {
        Err(Error::NotFound)
    } else if d.state[k].decision.dom().contains(u) {
        Ok((d.state[k].decision[u], true))
    } else {
        Ok(
            (
                forall|c: Constraint| #[trigger]
                    ancestor_seq(d, u).contains(c) ==> preferred_status(d.state, c),
                false,
            ),
        )
    }
}

/// A conflict set after a vote for `c`, whose confidence is `conf` and that of its conflict
/// `opp_conf`: `c` gets that confidence, becomes preferred if it beats its conflict, and its
/// counter goes up by one if the previous vote also was for `c`, else restarts at one
pub open spec fn vote_cs(cs: ConflictSetView, c: Constraint, conf: usize, opp_conf: usize) -> ConflictSetView {
    ConflictSetView {
        confidence: cs.confidence.insert(c, conf),
        preferred: if conf > opp_conf {
            c
        } else {
            cs.preferred
        },
        last: c,
        count: cs.count.insert(
            c,
            if cs.last != c {
                1
            } else if cs.count[c] == usize::MAX {
                usize::MAX
            } else {
                (cs.count[c] + 1) as usize
            },
        ),
        ..cs
    }
}

/// A conflict set after `c` is accepted: it is preferred, and its conflict, if any, is rejected
pub open spec fn accept_cs(cs: ConflictSetView, c: Constraint) -> ConflictSetView {
    ConflictSetView {
        decision: if spec_is_unity(c) {
            cs.decision.insert(c, true)
        } else {
            cs.decision.insert(c, true).insert(spec_opposite(c), false)
        },
        preferred: c,
        ..cs
    }
}

/// Constraint `p` is accepted
pub open spec fn accepted(st: Map<ConflictSetKey, ConflictSetView>, p: Constraint) -> bool {
    st[key_of(p)].decision.dom().contains(p) && st[key_of(p)].decision[p]
}

/// Every one of `ps` is accepted
pub open spec fn all_accepted(st: Map<ConflictSetKey, ConflictSetView>, ps: Seq<Constraint>) -> bool {
    forall|p: Constraint| #[trigger] ps.contains(p) ==> accepted(st, p)
}

/// Conflict sets after a query result for a vertex reaches its ancestor `c`. When the vertex was
/// strongly preferred, `c` gets a vote; it is then accepted once its counter reaches the maximum
/// count, or once all its parents are accepted and its confidence exceeds the maximum confidence.
/// Otherwise its counter is reset.
pub open spec fn vote_spec(
    config: Config,
    order: Map<VertexHash, nat>,
    next: nat,
    st: Map<ConflictSetKey, ConflictSetView>,
    c: Constraint,
    strongly_preferred: bool,
) -> Map<ConflictSetKey, ConflictSetView> {
    let k = key_of(c);
    let cs = st[k];
    if !strongly_preferred {
        st.insert(k, ConflictSetView { count: cs.count.insert(c, 0), ..cs })
    } else {
        let conf = conf_of(st, order, next, c);
        let opp_conf = if spec_is_unity(c) {
            0
        } else {
            conf_of(st, order, next, spec_opposite(c))
        };
        let cs1 = vote_cs(cs, c, conf as usize, opp_conf as usize);
        let st1 = st.insert(k, cs1);
        if cs1.count[c] >= config.max_count || (all_accepted(st1, cs.parents[c]) && conf
            > config.max_confidence) {
            st1.insert(k, accept_cs(cs1, c))
        } else {
            st1
        }
    }
}

/// Conflict sets after a query result reaches each of `cs`, in order
pub open spec fn vote_all(
    config: Config,
    order: Map<VertexHash, nat>,
    next: nat,
    st: Map<ConflictSetKey, ConflictSetView>,
    cs: Seq<Constraint>,
    strongly_preferred: bool,
) -> Map<ConflictSetKey, ConflictSetView>
    decreases cs.len(),
{
    if cs.len() == 0 {
        st
    } else {
        vote_spec(
            config,
            order,
            next,
            vote_all(config, order, next, st, cs.drop_last(), strongly_preferred),
            cs.last(),
            strongly_preferred,
        )
    }
}

/// The DAG after recording the result of a query for the vertex with hash `h`: the vertex no
/// longer waits for a query, its unity constraint gets a chit, and the result reaches every
/// ancestor of its unity constraint
pub open spec fn recorded(d: DagView, h: VertexHash, strongly_preferred: bool) -> DagView {
    let u = Constraint(h, h);
    let k = key_of(u);
    let st1 = d.state.insert(k, ConflictSetView { chit: d.state[k].chit.insert(u, true), ..d.state[k] });
    let d1 = DagView { pending_query: d.pending_query.remove(h), state: st1, ..d };
    DagView {
        state: vote_all(d.config, d.order, d.next, st1, ancestor_seq(d1, u), strongly_preferred),
        ..d1
    }
}

/// Hashes of `ps` which are in `s`, in order
pub open spec fn members_in(ps: Seq<VertexHash>, s: Set<VertexHash>) -> Seq<VertexHash>
    decreases ps.len(),
{
    if ps.len() == 0 {
        Seq::empty()
    } else if s.contains(ps.last()) {
        members_in(ps.drop_last(), s).push(ps.last())
    } else {
        members_in(ps.drop_last(), s)
    }
}

/// A query result may be recorded for the vertex with hash `h`: it is known, none of its parents
/// waits for a query, it is in the graph and it waits for a query
pub open spec fn recordable(d: DagView, h: VertexHash) -> bool {
    &&& d.vertex.dom().contains(h)
    &&& members_in(d.vertex[h].parents, d.pending_query).len() == 0
    &&& d.graph.contains(h)
    &&& d.pending_query.contains(h)
}

/// The error that refuses to record a query result for the vertex with hash `h`
pub open spec fn record_refusal(d: DagView, h: VertexHash, e: Error) -> bool {
    if !d.vertex.dom().contains(h) {
        e == Error::NotFound
    } else if members_in(d.vertex[h].parents, d.pending_query).len() > 0 {
        e matches Error::WaitingOnParents(w) && w@ == members_in(
            d.vertex[h].parents,
            d.pending_query,
        )
    } else if !d.graph.contains(h) {
        e == Error::WaitingOnVertex
    } else if !d.pending_query.contains(h) {
        e == Error::AlreadyQueried
    } else {
        false
    }
}

/// A vertex passes the checks only when it is sane, not yet in the graph, every parent is in the
/// graph, its height is exactly one more than the height of each of its parents, and no two
/// parents commit to opposite constraints
pub proof fn lemma_check_passed(d: DagView, v: VertexView)
    requires
        d.check(v) == CheckOutcome::Passed,
    ensures
        v.sane(),
        !d.graph.contains(vertex::spec_vertex_hash(v)),
        forall|i: int| 0 <= i < v.parents.len() ==> #[trigger] d.graph.contains(v.parents[i]),
        forall|i: int|
            0 <= i < v.parents.len() ==> #[trigger] d.vertex[v.parents[i]].height + 1 == v.height,
        !conflicting(d.vertex, v.parents),
{
    let ps = v.parents;
    lemma_missing_empty(d.vertex, ps);
    lemma_waiting_empty(d.vertex, d.graph, ps);
    assert forall|i: int| 0 <= i < ps.len() implies #[trigger] d.vertex[ps[i]].height + 1 == v.height by {
        assert(!(d.vertex[ps[i]].height != d.vertex[ps[0]].height));
    }
}

/// A sane vertex outside the graph, whose parents are all in the graph at one common height, and
/// whose own height is anything but one more than that, too high or too low, is refused for its
/// height, with the height it has and the height it should have
pub proof fn lemma_check_bad_height(d: DagView, v: VertexView, parent_height: u64)
    requires
        d.inv(),
        v.sane(),
        !d.graph.contains(vertex::spec_vertex_hash(v)),
        forall|i: int| 0 <= i < v.parents.len() ==> #[trigger] d.graph.contains(v.parents[i]),
        forall|i: int|
            0 <= i < v.parents.len() ==> #[trigger] d.vertex[v.parents[i]].height == parent_height,
        parent_height < u64::MAX,
        v.height != parent_height + 1,
    ensures
        d.check(v) == CheckOutcome::BadHeight(v.height, (parent_height + 1) as u64),
{
    let ps = v.parents;
    assert forall|i: int| 0 <= i < ps.len() implies #[trigger] d.vertex.dom().contains(ps[i]) by {
        reveal(dag_inv);
        assert(d.graph.contains(ps[i]));
    }
    lemma_missing_empty(d.vertex, ps);
    lemma_waiting_empty(d.vertex, d.graph, ps);
    assert(d.vertex[ps[0]].height == parent_height);
    assert(!exists|i: int|
        0 <= i < ps.len() && #[trigger] d.vertex[ps[i]].height != d.vertex[ps[0]].height);
}

/// `c` is reached from `a` in `n` steps up the constraint graph, each step going from a constraint
/// that its counter and confidence have not settled yet to one of its parents
pub open spec fn reaches(d: DagView, n: nat, a: Constraint, c: Constraint) -> bool
    decreases n,
{
    if n == 0 {
        a == c
    } else {
        &&& undecided(d.state[key_of(a)], a, d.config.max_count, d.config.max_confidence)
        &&& exists|p: Constraint|
            #[trigger] d.state[key_of(a)].parents[a].contains(p) && reaches(d, (n - 1) as nat, p, c)
    }
}

/// Whatever is reached from a constraint found walking up from `u` is found too
proof fn lemma_reaches_in_walk(d: DagView, u: Constraint, m: nat, x: Constraint, c: Constraint)
    requires
        d.inv(),
        d.state.dom().contains(key_of(u)),
        walk(d.state, d.config.max_count, d.config.max_confidence, (rank_of(d.order, u) + 1) as nat, u).contains(x),
        reaches(d, m, x, c),
    ensures
        walk(d.state, d.config.max_count, d.config.max_confidence, (rank_of(d.order, u) + 1) as nat, u).contains(c),
    decreases m,
{
    let fuel = (rank_of(d.order, u) + 1) as nat;
    let w = walk(d.state, d.config.max_count, d.config.max_confidence, fuel, u);
    if m > 0 {
        let p = choose|p: Constraint|
            #[trigger] d.state[key_of(x)].parents[x].contains(p) && reaches(d, (m - 1) as nat, p, c);
        assert(crate::consensus::constraint_graph::inv_states(d.graph, d.order, d.state)) by {
            reveal(dag_inv);
        }
        lemma_walk_closed(d.graph, d.order, d.state, d.config.max_count, d.config.max_confidence, fuel, u);
        assert(w.contains(p));
        lemma_reaches_in_walk(d, u, (m - 1) as nat, p, c);
    }
}

/// An undecided vertex is reported strongly preferred only when every constraint reached from its
/// unity constraint, up through constraints not yet settled, however far, is accepted or preferred
/// in its conflict set
pub proof fn lemma_query_preferred_ancestry(d: DagView, h: VertexHash, n: nat, c: Constraint)
    requires
        d.inv(),
        query_spec(d, h) == Ok::<(bool, bool), Error>((true, false)),
        n > 0,
        reaches(d, n, Constraint(h, h), c),
    ensures
        preferred_status(d.state, c),
{
    let u = Constraint(h, h);
    let fuel = (rank_of(d.order, u) + 1) as nat;
    let w = walk(d.state, d.config.max_count, d.config.max_confidence, fuel, u);
    assert(d.state.dom().contains(key_of(u)));
    let p = choose|p: Constraint|
        #[trigger] d.state[key_of(u)].parents[u].contains(p) && reaches(d, (n - 1) as nat, p, c);
    assert(crate::consensus::constraint_graph::inv_states(d.graph, d.order, d.state)) by {
        reveal(dag_inv);
    }
    lemma_walk_closed(d.graph, d.order, d.state, d.config.max_count, d.config.max_confidence, fuel, u);
    assert(w.contains(p));
    lemma_reaches_in_walk(d, u, (n - 1) as nat, p, c);
    crate::collections::lemma_seq_insert_all(Seq::<Constraint>::empty(), w);
    assert(ancestor_seq(d, u).contains(c));
}

/// Vote counter of `c` in its conflict set
pub open spec fn count_of(st: Map<ConflictSetKey, ConflictSetView>, c: Constraint) -> usize {
    st[key_of(c)].count[c]
}

/// The chits and known children in two families of conflict sets agree
pub open spec fn same_progeny(st: Map<ConflictSetKey, ConflictSetView>, st2: Map<ConflictSetKey, ConflictSetView>) -> bool {
    forall|k: ConflictSetKey|
        #![trigger st2[k]]
        st2[k].chit == st[k].chit && st2[k].children == st[k].children
}

/// The chits found in the progeny of a constraint depend only on chits and known children
proof fn lemma_progeny_same(
    st: Map<ConflictSetKey, ConflictSetView>,
    st2: Map<ConflictSetKey, ConflictSetView>,
    fuel: nat,
    c: Constraint,
)
    requires
        same_progeny(st, st2),
    ensures
        progeny_chits(st2, fuel, c) == progeny_chits(st, fuel, c),
    decreases fuel, 0nat,
{
    if fuel > 0 {
        assert(st2[key_of(c)].chit == st[key_of(c)].chit);
        lemma_progeny_list_same(st, st2, (fuel - 1) as nat, st[key_of(c)].children[c]);
    }
}

proof fn lemma_progeny_list_same(
    st: Map<ConflictSetKey, ConflictSetView>,
    st2: Map<ConflictSetKey, ConflictSetView>,
    fuel: nat,
    ds: Seq<Constraint>,
)
    requires
        same_progeny(st, st2),
    ensures
        progeny_list(st2, fuel, ds) == progeny_list(st, fuel, ds),
    decreases fuel, ds.len() + 1,
{
    if ds.len() > 0 {
        lemma_progeny_list_same(st, st2, fuel, ds.drop_last());
        lemma_progeny_same(st, st2, fuel, ds.last());
    }
}

/// One vote on `c`: chits and known children stay; no other constraint's counter changes, and no
/// other constraint becomes accepted; a strongly preferred result leaves `c` a counter of at least
/// one, another result resets it to zero; and `c` becomes accepted only when its counter reaches
/// the maximum count or its confidence exceeds the maximum confidence
proof fn lemma_vote_step_rule(
    config: Config,
    order: Map<VertexHash, nat>,
    next: nat,
    st: Map<ConflictSetKey, ConflictSetView>,
    c: Constraint,
    strongly_preferred: bool,
)
    requires
        st.dom().contains(key_of(c)),
    ensures
        same_progeny(st, vote_spec(config, order, next, st, c, strongly_preferred)),
        vote_spec(config, order, next, st, c, strongly_preferred).dom() == st.dom(),
        forall|x: Constraint|
            x != c ==> #[trigger] count_of(vote_spec(config, order, next, st, c, strongly_preferred), x)
                == count_of(st, x),
        forall|x: Constraint|
            x != c && #[trigger] accepted_in(vote_spec(config, order, next, st, c, strongly_preferred), x)
                ==> accepted_in(st, x),
        strongly_preferred ==> count_of(vote_spec(config, order, next, st, c, strongly_preferred), c) >= 1,
        !strongly_preferred ==> count_of(vote_spec(config, order, next, st, c, strongly_preferred), c) == 0,
        accepted_in(vote_spec(config, order, next, st, c, strongly_preferred), c) && !accepted_in(st, c)
            ==> count_of(vote_spec(config, order, next, st, c, strongly_preferred), c) >= config.max_count
            || conf_of(st, order, next, c) > config.max_confidence,
{
    let k = key_of(c);
    let r = vote_spec(config, order, next, st, c, strongly_preferred);
    let cs = st[k];
    assert(r.dom() =~= st.dom());
    if !strongly_preferred {
        assert(r == st.insert(k, ConflictSetView { count: cs.count.insert(c, 0), ..cs }));
    } else {
        let conf = conf_of(st, order, next, c);
        let opp_conf = if spec_is_unity(c) {
            0
        } else {
            conf_of(st, order, next, spec_opposite(c))
        };
        let cs1 = vote_cs(cs, c, conf as usize, opp_conf as usize);
        let st1 = st.insert(k, cs1);
        if cs1.count[c] >= config.max_count || (all_accepted(st1, cs.parents[c]) && conf
            > config.max_confidence) {
            assert(r == st1.insert(k, accept_cs(cs1, c)));
        } else {
            assert(r == st1);
        }
    }
    assert forall|x: Constraint| x != c implies #[trigger] count_of(r, x) == count_of(st, x) by {
        if key_of(x) == k {
            assert(r[k].count[x] == cs.count[x]);
        }
    }
    assert forall|x: Constraint| x != c && #[trigger] accepted_in(r, x) implies accepted_in(st, x) by {
        if key_of(x) == k {
            assert(r[k].decision.dom().contains(x));
        }
    }
}

/// Votes on distinct constraints `cs`: chits and known children stay; the counter of a constraint
/// outside `cs` stays, and none of them becomes accepted; each of `cs` is left with a counter of at
/// least one after a strongly preferred result, of zero after another; and every constraint that
/// becomes accepted has reached the maximum count, or has a confidence above the maximum confidence
proof fn lemma_vote_all_rule(
    config: Config,
    order: Map<VertexHash, nat>,
    next: nat,
    st: Map<ConflictSetKey, ConflictSetView>,
    cs: Seq<Constraint>,
    strongly_preferred: bool,
)
    requires
        distinct(cs),
        forall|i: int| 0 <= i < cs.len() ==> st.dom().contains(#[trigger] key_of(cs[i])),
    ensures
        same_progeny(st, vote_all(config, order, next, st, cs, strongly_preferred)),
        vote_all(config, order, next, st, cs, strongly_preferred).dom() == st.dom(),
        forall|x: Constraint|
            !cs.contains(x) ==> #[trigger] count_of(vote_all(config, order, next, st, cs, strongly_preferred), x)
                == count_of(st, x),
        forall|x: Constraint|
            !cs.contains(x) && #[trigger] accepted_in(vote_all(config, order, next, st, cs, strongly_preferred), x)
                ==> accepted_in(st, x),
        forall|x: Constraint|
            cs.contains(x) ==> (if strongly_preferred {
                #[trigger] count_of(vote_all(config, order, next, st, cs, strongly_preferred), x) >= 1
            } else {
                count_of(vote_all(config, order, next, st, cs, strongly_preferred), x) == 0
            }),
        forall|x: Constraint|
            #[trigger] accepted_in(vote_all(config, order, next, st, cs, strongly_preferred), x)
                && !accepted_in(st, x) ==> count_of(vote_all(config, order, next, st, cs, strongly_preferred), x)
                >= config.max_count || conf_of(st, order, next, x) > config.max_confidence,
    decreases cs.len(),
{
    let r = vote_all(config, order, next, st, cs, strongly_preferred);
    if cs.len() == 0 {
        assert(same_progeny(st, r));
    } else {
        let c0 = cs.drop_last();
        let l = cs.last();
        assert(distinct(c0)) by {
            assert forall|i: int, j: int| 0 <= i < j < c0.len() implies c0[i] != c0[j] by {
                assert(c0[i] == cs[i] && c0[j] == cs[j]);
            }
        }
        assert forall|i: int| 0 <= i < c0.len() implies st.dom().contains(#[trigger] key_of(c0[i])) by {
            assert(c0[i] == cs[i]);
        }
        lemma_vote_all_rule(config, order, next, st, c0, strongly_preferred);
        let r0 = vote_all(config, order, next, st, c0, strongly_preferred);
        assert(st.dom().contains(key_of(cs[cs.len() - 1])));
        lemma_vote_step_rule(config, order, next, r0, l, strongly_preferred);
        assert(r == vote_spec(config, order, next, r0, l, strongly_preferred));
        assert(!c0.contains(l)) by {
            if c0.contains(l) {
                let i = choose|i: int| 0 <= i < c0.len() && c0[i] == l;
                assert(cs[i] == cs[cs.len() - 1]);
            }
        }
        assert forall|k: ConflictSetKey| #![trigger r[k]] r[k].chit == st[k].chit && r[k].children == st[k].children by {
            assert(r0[k].chit == st[k].chit);
        }
        lemma_progeny_same(st, r0, (2 * next - rank_of(order, l) + 1) as nat, l);
        assert forall|x: Constraint| cs.contains(x) && x != l implies c0.contains(x) by {
            let i = choose|i: int| 0 <= i < cs.len() && cs[i] == x;
            assert(c0[i] == x);
        }
        assert forall|x: Constraint| c0.contains(x) implies cs.contains(x) by {
            let i = choose|i: int| 0 <= i < c0.len() && c0[i] == x;
            assert(cs[i] == x);
        }
        assert(cs.contains(l)) by {
            assert(cs[cs.len() - 1] == l);
        }
        assert forall|x: Constraint| !cs.contains(x) implies #[trigger] count_of(r, x) == count_of(st, x) by {
            assert(count_of(r0, x) == count_of(st, x));
        }
        assert forall|x: Constraint| !cs.contains(x) && #[trigger] accepted_in(r, x) implies accepted_in(st, x) by {
            assert(accepted_in(r0, x));
        }
        assert forall|x: Constraint| cs.contains(x) implies (if strongly_preferred {
            #[trigger] count_of(r, x) >= 1
        } else {
            count_of(r, x) == 0
        }) by {
            if x != l {
                assert(c0.contains(x));
                assert(count_of(r, x) == count_of(r0, x));
            }
        }
        assert forall|x: Constraint| #[trigger] accepted_in(r, x) && !accepted_in(st, x) implies count_of(r, x)
            >= config.max_count || conf_of(st, order, next, x) > config.max_confidence by {
            if x != l {
                assert(accepted_in(r0, x));
                assert(count_of(r, x) == count_of(r0, x));
            } else {
                if accepted_in(r0, l) {
                    assert(accepted_in(st, l));
                }
                assert(conf_of(r0, order, next, l) == conf_of(st, order, next, l));
            }
        }
    }
}

/// What recording a query result does to the votes: a constraint becomes accepted only once its
/// counter reaches the maximum count or its confidence (the number of distinct constraints holding
/// a chit in its progeny) exceeds the maximum confidence; a strongly preferred result leaves every
/// counter it changes at one or more, and gives every parent constraint of a still undecided vertex
/// a counter of at least one, while another result only ever resets counters to zero, those parent
/// constraints' included
pub proof fn lemma_record_vote_rule(d: DagView, h: VertexHash, strongly_preferred: bool)
    requires
        d.inv(),
        recordable(d, h),
    ensures
        forall|c: Constraint|
            #[trigger] accepted_in(recorded(d, h, strongly_preferred).state, c) && !accepted_in(d.state, c)
                ==> count_of(recorded(d, h, strongly_preferred).state, c) >= d.config.max_count || conf_of(
                recorded(d, h, strongly_preferred).state,
                d.order,
                d.next,
                c,
            ) > d.config.max_confidence,
        forall|c: Constraint|
            #[trigger] count_of(recorded(d, h, strongly_preferred).state, c) != count_of(d.state, c) ==> (
            if strongly_preferred {
                count_of(recorded(d, h, strongly_preferred).state, c) >= 1
            } else {
                count_of(recorded(d, h, strongly_preferred).state, c) == 0
            }),
        undecided(
            d.state[key_of(Constraint(h, h))],
            Constraint(h, h),
            d.config.max_count,
            d.config.max_confidence,
        ) ==> forall|p: Constraint| #[trigger]
            d.state[key_of(Constraint(h, h))].parents[Constraint(h, h)].contains(p) ==> (
            if strongly_preferred {
                count_of(recorded(d, h, strongly_preferred).state, p) >= 1
            } else {
                count_of(recorded(d, h, strongly_preferred).state, p) == 0
            }),
{
    let u = Constraint(h, h);
    let k = key_of(u);
    assert(d.state.dom().contains(k)) by {
        reveal(dag_inv);
    }
    let cs2 = ConflictSetView { chit: d.state[k].chit.insert(u, true), ..d.state[k] };
    let st1 = d.state.insert(k, cs2);
    let d1 = DagView { pending_query: d.pending_query.remove(h), state: st1, ..d };
    assert(crate::consensus::constraint_graph::inv_cs(d.graph, d.order, d.state.dom(), k, d.state[k])) by {
        reveal(dag_inv);
    }
    assert(cs2.chit.dom() =~= d.state[k].chit.dom());
    lemma_update_cs_inv(d.vertex, d.graph, d.order, d.next, d.state, d.frontier, k, cs2);
    assert(crate::consensus::constraint_graph::inv_states(d.graph, d.order, st1)) by {
        reveal(dag_inv);
    }
    assert(st1.dom() =~= d.state.dom());
    let fuel = (rank_of(d.order, u) + 1) as nat;
    let w = walk(st1, d.config.max_count, d.config.max_confidence, fuel, u);
    lemma_walk_keys(d.graph, d.order, st1, d.config.max_count, d.config.max_confidence, fuel, u);
    lemma_walk_closed(d.graph, d.order, st1, d.config.max_count, d.config.max_confidence, fuel, u);
    crate::collections::lemma_seq_insert_all(Seq::<Constraint>::empty(), w);
    let anc = ancestor_seq(d1, u);
    assert forall|i: int| 0 <= i < anc.len() implies st1.dom().contains(#[trigger] key_of(anc[i])) by {
        assert(anc.contains(anc[i]));
        assert(w.contains(anc[i]));
    }
    lemma_vote_all_rule(d.config, d.order, d.next, st1, anc, strongly_preferred);
    let r = vote_all(d.config, d.order, d.next, st1, anc, strongly_preferred);
    let d2 = recorded(d, h, strongly_preferred);
    assert(d2.state == r);
    assert forall|x: Constraint| #[trigger] count_of(st1, x) == count_of(d.state, x) by {}
    assert forall|x: Constraint| #[trigger] accepted_in(st1, x) == accepted_in(d.state, x) by {}
    assert forall|c: Constraint| #[trigger] accepted_in(d2.state, c) && !accepted_in(d.state, c) implies count_of(
        d2.state,
        c,
    ) >= d.config.max_count || conf_of(d2.state, d.order, d.next, c) > d.config.max_confidence by {
        lemma_progeny_same(st1, r, (2 * d.next - rank_of(d.order, c) + 1) as nat, c);
        assert(accepted_in(r, c) && !accepted_in(st1, c));
    }
    assert forall|c: Constraint| #[trigger] count_of(d2.state, c) != count_of(d.state, c) implies (
    if strongly_preferred {
        count_of(d2.state, c) >= 1
    } else {
        count_of(d2.state, c) == 0
    }) by {
        assert(count_of(r, c) != count_of(st1, c));
        assert(anc.contains(c));
    }
    if undecided(d.state[k], u, d.config.max_count, d.config.max_confidence) {
        assert(st1[k].count == d.state[k].count && st1[k].confidence == d.state[k].confidence);
        assert(undecided(st1[k], u, d.config.max_count, d.config.max_confidence));
        assert forall|p: Constraint| #[trigger] d.state[k].parents[u].contains(p) implies (
        if strongly_preferred {
            count_of(d2.state, p) >= 1
        } else {
            count_of(d2.state, p) == 0
        }) by {
            assert(st1[k].parents[u].contains(p));
            assert(w.contains(p));
            assert(anc.contains(p));
        }
    }
}

/// Every constraint found walking up from `c` is reached from `c` in one step or more
proof fn lemma_walk_reached(d: DagView, fuel: nat, c: Constraint)
    ensures
        forall|x: Constraint|
            walk(d.state, d.config.max_count, d.config.max_confidence, fuel, c).contains(x) ==> exists|n: nat|
                n > 0 && #[trigger] reaches(d, n, c, x),
    decreases fuel, 0nat,
{
    if fuel > 0 && undecided(d.state[key_of(c)], c, d.config.max_count, d.config.max_confidence) {
        let ps = d.state[key_of(c)].parents[c];
        let f = (fuel - 1) as nat;
        lemma_walk_list_reached(d, f, ps);
        assert forall|x: Constraint|
            walk(d.state, d.config.max_count, d.config.max_confidence, fuel, c).contains(x) implies exists|n: nat|
            n > 0 && #[trigger] reaches(d, n, c, x) by {
            assert(walk_list(d.state, d.config.max_count, d.config.max_confidence, f, ps).contains(x));
            let (p, n) = choose|p: Constraint, n: nat| ps.contains(p) && #[trigger] reaches(d, n, p, x);
            assert(reaches(d, n + 1, c, x));
        }
    }
}

/// Every constraint found walking up from each of `ps` is reached from one of them
proof fn lemma_walk_list_reached(d: DagView, fuel: nat, ps: Seq<Constraint>)
    ensures
        forall|x: Constraint|
            walk_list(d.state, d.config.max_count, d.config.max_confidence, fuel, ps).contains(x) ==> exists|
                p: Constraint,
                n: nat,
            | ps.contains(p) && #[trigger] reaches(d, n, p, x),
    decreases fuel, ps.len() + 1,
{
    if ps.len() > 0 {
        let ps0 = ps.drop_last();
        let l = ps.last();
        lemma_walk_list_reached(d, fuel, ps0);
        lemma_walk_reached(d, fuel, l);
        let a = walk_list(d.state, d.config.max_count, d.config.max_confidence, fuel, ps0);
        let b = walk(d.state, d.config.max_count, d.config.max_confidence, fuel, l);
        let s = a + seq![l] + b;
        assert(walk_list(d.state, d.config.max_count, d.config.max_confidence, fuel, ps) == s);
        assert(ps.contains(l)) by {
            assert(ps[ps.len() - 1] == l);
        }
        assert forall|x: Constraint| s.contains(x) implies exists|p: Constraint, n: nat|
            ps.contains(p) && #[trigger] reaches(d, n, p, x) by {
            let i = choose|i: int| 0 <= i < s.len() && s[i] == x;
            if i < a.len() {
                assert(a[i] == x);
                assert(a.contains(x));
                let (p, n) = choose|p: Constraint, n: nat| ps0.contains(p) && #[trigger] reaches(d, n, p, x);
                let j = choose|j: int| 0 <= j < ps0.len() && ps0[j] == p;
                assert(ps[j] == p);
                assert(ps.contains(p) && reaches(d, n, p, x));
            } else if i == a.len() {
                assert(x == l);
                assert(reaches(d, 0, l, x));
            } else {
                assert(b[i - a.len() - 1] == x);
                assert(b.contains(x));
                let n = choose|n: nat| n > 0 && #[trigger] reaches(d, n, l, x);
                assert(ps.contains(l) && reaches(d, n, l, x));
            }
        }
    }
}

/// An undecided vertex is reported not strongly preferred only when some constraint reached from its
/// unity constraint, up through constraints not yet settled, is neither accepted nor preferred in
/// its conflict set
pub proof fn lemma_query_not_preferred(d: DagView, h: VertexHash)
    requires
        query_spec(d, h) == Ok::<(bool, bool), Error>((false, false)),
    ensures
        exists|n: nat, c: Constraint|
            n > 0 && #[trigger] reaches(d, n, Constraint(h, h), c) && !preferred_status(d.state, c),
{
    let u = Constraint(h, h);
    let fuel = (rank_of(d.order, u) + 1) as nat;
    let w = walk(d.state, d.config.max_count, d.config.max_confidence, fuel, u);
    crate::collections::lemma_seq_insert_all(Seq::<Constraint>::empty(), w);
    let c = choose|c: Constraint| #[trigger] ancestor_seq(d, u).contains(c) && !preferred_status(d.state, c);
    assert(w.contains(c));
    lemma_walk_reached(d, fuel, u);
    let n = choose|n: nat| n > 0 && #[trigger] reaches(d, n, u, c);
    assert(reaches(d, n, u, c) && !preferred_status(d.state, c));
}

/// The unity constraint of `h` has a conflict set and a decision in it
pub open spec fn unity_decided(st: Map<ConflictSetKey, ConflictSetView>, h: VertexHash) -> bool {
    &&& st.dom().contains(key_of(Constraint(h, h)))
    &&& st[key_of(Constraint(h, h))].decision.dom().contains(Constraint(h, h))
}

/// No vertex is rejected: every decided unity constraint is accepted. Votes only ever reject the
/// opposite of an ordering constraint between two distinct vertices.
pub open spec fn unity_never_rejected(st: Map<ConflictSetKey, ConflictSetView>) -> bool {
    forall|h: VertexHash| #[trigger]
        unity_decided(st, h) ==> st[key_of(Constraint(h, h))].decision[Constraint(h, h)]
}

/// The DAG after a query result for the vertex with hash `h` is offered: recorded when it may be,
/// else unchanged
pub open spec fn after_record(d: DagView, h: VertexHash, strongly_preferred: bool) -> DagView {
    if recordable(d, h) {
        recorded(d, h, strongly_preferred)
    } else {
        d
    }
}

/// A vote keeps the decision on the unity constraint of `h`, and does not reject it
proof fn lemma_vote_spec_unity_at(
    config: Config,
    order: Map<VertexHash, nat>,
    next: nat,
    st: Map<ConflictSetKey, ConflictSetView>,
    c: Constraint,
    strongly_preferred: bool,
    h: VertexHash,
)
    requires
        unity_never_rejected(st),
        st.dom().contains(key_of(c)),
    ensures
        unity_decided(st, h) ==> unity_decided(
            vote_spec(config, order, next, st, c, strongly_preferred),
            h,
        ),
        unity_decided(vote_spec(config, order, next, st, c, strongly_preferred), h) ==> vote_spec(
            config,
            order,
            next,
            st,
            c,
            strongly_preferred,
        )[key_of(Constraint(h, h))].decision[Constraint(h, h)],
{
    let k = key_of(c);
    let u = Constraint(h, h);
    let ku = key_of(u);
    let r = vote_spec(config, order, next, st, c, strongly_preferred);
    lemma_key_of(u, c);
    let cs = st[k];
    assert(unity_decided(st, h) ==> st[ku].decision[u]);
    if !strongly_preferred {
        assert(r == st.insert(k, ConflictSetView { count: cs.count.insert(c, 0), ..cs }));
    } else {
        let conf = conf_of(st, order, next, c);
        let opp_conf = if spec_is_unity(c) {
            0
        } else {
            conf_of(st, order, next, spec_opposite(c))
        };
        let cs1 = vote_cs(cs, c, conf as usize, opp_conf as usize);
        let st1 = st.insert(k, cs1);
        if cs1.count[c] >= config.max_count || (all_accepted(st1, cs.parents[c]) && conf
            > config.max_confidence) {
            assert(r == st1.insert(k, accept_cs(cs1, c)));
            if ku == k {
                assert(c == u);
                assert(r[ku].decision == cs.decision.insert(u, true));
            }
        } else {
            assert(r == st1);
        }
    }
}

/// A vote keeps every vertex decision, and rejects no vertex
proof fn lemma_vote_spec_unity(
    config: Config,
    order: Map<VertexHash, nat>,
    next: nat,
    st: Map<ConflictSetKey, ConflictSetView>,
    c: Constraint,
    strongly_preferred: bool,
)
    requires
        unity_never_rejected(st),
        st.dom().contains(key_of(c)),
    ensures
        unity_never_rejected(vote_spec(config, order, next, st, c, strongly_preferred)),
        vote_spec(config, order, next, st, c, strongly_preferred).dom() == st.dom(),
        forall|h: VertexHash| #[trigger]
            unity_decided(st, h) ==> unity_decided(
                vote_spec(config, order, next, st, c, strongly_preferred),
                h,
            ),
{
    let r = vote_spec(config, order, next, st, c, strongly_preferred);
    assert(r.dom() =~= st.dom());
    assert forall|h: VertexHash| #[trigger] unity_decided(r, h) implies r[key_of(
        Constraint(h, h),
    )].decision[Constraint(h, h)] by {
        lemma_vote_spec_unity_at(config, order, next, st, c, strongly_preferred, h);
    }
    assert forall|h: VertexHash| #[trigger] unity_decided(st, h) implies unity_decided(r, h) by {
        lemma_vote_spec_unity_at(config, order, next, st, c, strongly_preferred, h);
    }
}

/// Votes on constraints whose conflict sets exist keep every vertex decision, and reject no vertex
proof fn lemma_vote_all_unity(
    config: Config,
    order: Map<VertexHash, nat>,
    next: nat,
    st: Map<ConflictSetKey, ConflictSetView>,
    cs: Seq<Constraint>,
    strongly_preferred: bool,
)
    requires
        unity_never_rejected(st),
        forall|i: int| 0 <= i < cs.len() ==> st.dom().contains(#[trigger] key_of(cs[i])),
    ensures
        unity_never_rejected(vote_all(config, order, next, st, cs, strongly_preferred)),
        vote_all(config, order, next, st, cs, strongly_preferred).dom() == st.dom(),
        forall|h: VertexHash| #[trigger]
            unity_decided(st, h) ==> unity_decided(
                vote_all(config, order, next, st, cs, strongly_preferred),
                h,
            ),
    decreases cs.len(),
{
    if cs.len() > 0 {
        let c0 = cs.drop_last();
        assert forall|i: int| 0 <= i < c0.len() implies st.dom().contains(#[trigger] key_of(c0[i])) by {
            assert(c0[i] == cs[i]);
        }
        lemma_vote_all_unity(config, order, next, st, c0, strongly_preferred);
        let st0 = vote_all(config, order, next, st, c0, strongly_preferred);
        assert(st.dom().contains(key_of(cs[cs.len() - 1])));
        lemma_vote_spec_unity(config, order, next, st0, cs.last(), strongly_preferred);
    }
}

/// Each conflict set of `st2` keeps the decisions it had in `st`, or has none
spec fn keeps_decisions(st: Map<ConflictSetKey, ConflictSetView>, st2: Map<ConflictSetKey, ConflictSetView>) -> bool {
    forall|k: ConflictSetKey| #[trigger]
        st2.dom().contains(k) ==> (st.dom().contains(k) && st2[k].decision == st[k].decision)
            || st2[k].decision == Map::<Constraint, bool>::empty()
}

proof fn lemma_keeps_decisions_trans(
    st: Map<ConflictSetKey, ConflictSetView>,
    st2: Map<ConflictSetKey, ConflictSetView>,
    st3: Map<ConflictSetKey, ConflictSetView>,
)
    requires
        keeps_decisions(st, st2),
        keeps_decisions(st2, st3),
    ensures
        keeps_decisions(st, st3),
{
    assert forall|k: ConflictSetKey| #[trigger] st3.dom().contains(k) implies (st.dom().contains(k)
        && st3[k].decision == st[k].decision) || st3[k].decision == Map::<Constraint, bool>::empty() by {
        if st3[k].decision != Map::<Constraint, bool>::empty() {
            assert(st2.dom().contains(k));
        }
    }
}

proof fn lemma_keeps_unity(st: Map<ConflictSetKey, ConflictSetView>, st2: Map<ConflictSetKey, ConflictSetView>)
    requires
        keeps_decisions(st, st2),
        unity_never_rejected(st),
    ensures
        unity_never_rejected(st2),
{
    assert forall|h: VertexHash| #[trigger] unity_decided(st2, h) implies st2[key_of(
        Constraint(h, h),
    )].decision[Constraint(h, h)] by {
        let k = key_of(Constraint(h, h));
        if st2[k].decision == Map::<Constraint, bool>::empty() {
            assert(!st2[k].decision.dom().contains(Constraint(h, h)));
        } else {
            assert(unity_decided(st, h));
        }
    }
}

proof fn lemma_register_all_decisions(st: Map<ConflictSetKey, ConflictSetView>, ps: Seq<Constraint>, c: Constraint)
    ensures
        keeps_decisions(st, register_all(st, ps, c)),
        register_all(st, ps, c).dom() == st.dom(),
    decreases ps.len(),
{
    if ps.len() > 0 {
        let st0 = register_all(st, ps.drop_last(), c);
        lemma_register_all_decisions(st, ps.drop_last(), c);
        let st1 = register_child(st0, ps.last(), c);
        assert(st1.dom() =~= st0.dom());
        assert(keeps_decisions(st0, st1));
        lemma_keeps_decisions_trans(st, st0, st1);
    }
}

proof fn lemma_enter_constraint_decisions(
    st: Map<ConflictSetKey, ConflictSetView>,
    vx: Map<VertexHash, VertexView>,
    c: Constraint,
)
    ensures
        keeps_decisions(st, enter_constraint(st, vx, c)),
{
    let ps = cparents_of(vx, c);
    lemma_register_all_decisions(st, ps, c);
    let st1 = register_all(st, ps, c);
    let st2 = enter_constraint(st, vx, c);
    assert(keeps_decisions(st1, st2));
    lemma_keeps_decisions_trans(st, st1, st2);
}

proof fn lemma_enter_all_decisions(
    st: Map<ConflictSetKey, ConflictSetView>,
    vx: Map<VertexHash, VertexView>,
    cs: Seq<Constraint>,
)
    ensures
        keeps_decisions(st, enter_all(st, vx, cs)),
    decreases cs.len(),
{
    if cs.len() == 0 {
        assert(keeps_decisions(st, st));
    } else {
        let st0 = enter_all(st, vx, cs.drop_last());
        lemma_enter_all_decisions(st, vx, cs.drop_last());
        let st2 = enter_constraint(st0, vx, cs.last());
        lemma_enter_constraint_decisions(st0, vx, cs.last());
        lemma_keeps_decisions_trans(st, st0, st2);
    }
}

/// Inserting a vertex rejects no vertex: the conflict sets it creates hold no decision, and those
/// it adds children to keep theirs
pub proof fn lemma_insert_keeps_unity(d: DagView, v: VertexView)
    requires
        unity_never_rejected(d.state),
    ensures
        unity_never_rejected(insert_spec(d, v).state),
{
    let h = vertex::spec_vertex_hash(v);
    let vx = d.vertex.insert(h, v);
    let uc = Constraint(h, h);
    let pcs = pcs_set(v);
    let st0 = enter_all(d.state, vx, pcs);
    lemma_enter_all_decisions(d.state, vx, pcs);
    let st1 = st0.insert(key_of(uc), new_cs_view(uc, pcs));
    assert(keeps_decisions(st0, st1));
    lemma_keeps_decisions_trans(d.state, st0, st1);
    lemma_enter_constraint_decisions(st1, vx, uc);
    lemma_keeps_decisions_trans(d.state, st1, insert_states(d.state, vx, h, v));
    lemma_keeps_unity(d.state, insert_states(d.state, vx, h, v));
}

proof fn lemma_accept_all_unity(st: Map<ConflictSetKey, ConflictSetView>, cs: Seq<Constraint>)
    requires
        unity_never_rejected(st),
    ensures
        unity_never_rejected(accept_all(st, cs)),
    decreases cs.len(),
{
    if cs.len() > 0 {
        lemma_accept_all_unity(st, cs.drop_last());
        let st0 = accept_all(st, cs.drop_last());
        let st1 = decide(st0, cs.last(), true);
        assert forall|h: VertexHash| #[trigger] unity_decided(st1, h) implies st1[key_of(
            Constraint(h, h),
        )].decision[Constraint(h, h)] by {
            if key_of(Constraint(h, h)) != key_of(cs.last()) || !st0.dom().contains(key_of(cs.last())) {
                assert(unity_decided(st0, h));
            } else if Constraint(h, h) != cs.last() {
                assert(unity_decided(st0, h));
            }
        }
    }
}

/// Inserting an initial vertex rejects no vertex: its constraints are all accepted
pub proof fn lemma_initial_keeps_unity(d: DagView, v: VertexView)
    requires
        unity_never_rejected(d.state),
    ensures
        unity_never_rejected(initial_step(d, v).state),
{
    let h = vertex::spec_vertex_hash(v);
    lemma_insert_keeps_unity(d, v);
    lemma_accept_all_unity(insert_spec(d, v).state, pcs_set(v).push(Constraint(h, h)));
}

/// Decisions are final: once the query of a vertex reports a decision (accepted or rejected), it
/// reports the same decision after any further query result is offered for any vertex, whether
/// it is recorded or refused. This holds of every DAG in which no vertex is rejected, and such a
/// DAG stays so.
pub proof fn lemma_decision_final(d: DagView, h: VertexHash, b: bool, h2: VertexHash, strongly_preferred: bool)
    requires
        d.inv(),
        unity_never_rejected(d.state),
        query_spec(d, h) == Ok::<(bool, bool), Error>((b, true)),
    ensures
        query_spec(after_record(d, h2, strongly_preferred), h) == Ok::<(bool, bool), Error>((b, true)),
        unity_never_rejected(after_record(d, h2, strongly_preferred).state),
{
    assert(unity_decided(d.state, h));
    if recordable(d, h2) {
        lemma_record_unity(d, h2, strongly_preferred);
        assert(unity_decided(recorded(d, h2, strongly_preferred).state, h));
    }
}

/// Recording a query result keeps every vertex decision, and rejects no vertex
proof fn lemma_record_unity(d: DagView, h2: VertexHash, strongly_preferred: bool)
    requires
        d.inv(),
        unity_never_rejected(d.state),
        recordable(d, h2),
    ensures
        unity_never_rejected(recorded(d, h2, strongly_preferred).state),
        forall|h: VertexHash| #[trigger]
            unity_decided(d.state, h) ==> unity_decided(recorded(d, h2, strongly_preferred).state, h),
{
    let u2 = Constraint(h2, h2);
    let k2 = key_of(u2);
    assert(d.state.dom().contains(k2)) by {
        reveal(dag_inv);
    }
    let cs2 = ConflictSetView { chit: d.state[k2].chit.insert(u2, true), ..d.state[k2] };
    let st1 = d.state.insert(k2, cs2);
    let d1 = DagView { pending_query: d.pending_query.remove(h2), state: st1, ..d };
    assert(crate::consensus::constraint_graph::inv_cs(d.graph, d.order, d.state.dom(), k2, d.state[k2])) by {
        reveal(dag_inv);
    }
    assert(cs2.chit.dom() =~= d.state[k2].chit.dom());
    lemma_update_cs_inv(d.vertex, d.graph, d.order, d.next, d.state, d.frontier, k2, cs2);
    assert(crate::consensus::constraint_graph::inv_states(d.graph, d.order, st1)) by {
        reveal(dag_inv);
    }
    assert forall|x: VertexHash| #[trigger] unity_decided(st1, x) implies st1[key_of(
        Constraint(x, x),
    )].decision[Constraint(x, x)] by {
        assert(unity_decided(d.state, x));
    }
    assert forall|x: VertexHash| #[trigger] unity_decided(d.state, x) implies unity_decided(st1, x) by {}
    let fuel = (rank_of(d1.order, u2) + 1) as nat;
    let w = walk(st1, d1.config.max_count, d1.config.max_confidence, fuel, u2);
    lemma_walk_keys(d1.graph, d1.order, st1, d1.config.max_count, d1.config.max_confidence, fuel, u2);
    crate::collections::lemma_seq_insert_all(Seq::<Constraint>::empty(), w);
    let anc = ancestor_seq(d1, u2);
    assert forall|i: int| 0 <= i < anc.len() implies st1.dom().contains(#[trigger] key_of(anc[i])) by {
        assert(anc.contains(anc[i]));
        assert(w.contains(anc[i]));
    }
    lemma_vote_all_unity(d.config, d.order, d.next, st1, anc, strongly_preferred);
}

/// Vertices in the order we observed them
pub open spec fn sorted_by_time(vx: Map<VertexHash, VertexView>, s: Seq<VertexHash>) -> bool {
    forall|i: int, j: int|
        0 <= i < j < s.len() ==> #[trigger] vx[s[i]].timestamp <= #[trigger] vx[s[j]].timestamp
}

/// A vertex that passes the checks is refused as already inserted once it has been inserted
pub proof fn lemma_insert_once(d: DagView, v: VertexView)
    requires
        d.check(v) == CheckOutcome::Passed,
    ensures
        insert_spec(d, v).check(v) == CheckOutcome::AlreadyInserted,
{
}

/// Vertices of the graph that no vertex of the graph names as a parent
pub open spec fn childless(d: DagView) -> Set<VertexHash> {
    Set::new(
        |x: VertexHash|
            d.graph.contains(x) && forall|y: VertexHash| #[trigger]
                d.graph.contains(y) ==> !d.vertex[y].parents.contains(x),
    )
}

/// When the frontier holds exactly the vertices of the graph that have no children in the graph,
/// it still does after a vertex whose parents are all in the graph is inserted: the new vertex
/// joins the frontier and its parents leave it
pub proof fn lemma_insert_frontier(d: DagView, v: VertexView)
    requires
        d.inv(),
        d.frontier == childless(d),
        !d.graph.contains(vertex::spec_vertex_hash(v)),
        forall|p: VertexHash| #[trigger] v.parents.contains(p) ==> d.graph.contains(p),
    ensures
        insert_spec(d, v).frontier == childless(insert_spec(d, v)),
{
    reveal(dag_inv);
    let h = vertex::spec_vertex_hash(v);
    let d1 = insert_spec(d, v);
    assert forall|x: VertexHash| d1.frontier.contains(x) == childless(d1).contains(x) by {
        if x == h {
            assert forall|y: VertexHash| #[trigger] d1.graph.contains(y) implies !d1.vertex[y].parents.contains(x) by {
                if y != h {
                    assert(d1.vertex[y] == d.vertex[y]);
                    assert(d.graph.contains(y));
                    if d.vertex[y].parents.contains(x) {
                        assert(d.graph.contains(x));
                    }
                } else {
                    assert(d1.vertex[y] == v);
                    if v.parents.contains(x) {
                        assert(d.graph.contains(x));
                    }
                }
            }
            assert(childless(d1).contains(x));
        } else {
            if childless(d1).contains(x) {
                assert(d.graph.contains(x));
                assert forall|y: VertexHash| #[trigger] d.graph.contains(y) implies !d.vertex[y].parents.contains(x) by {
                    assert(d1.graph.contains(y));
                    assert(d1.vertex[y] == d.vertex[y]);
                }
                assert(childless(d).contains(x));
                assert(d1.graph.contains(h));
                assert(!d1.vertex[h].parents.contains(x));
                assert(!v.parents.to_set().contains(x));
                assert(d1.frontier.contains(x));
            }
            if d1.frontier.contains(x) {
                assert(d.frontier.contains(x));
                assert(childless(d).contains(x));
                assert(!v.parents.to_set().contains(x));
                assert forall|y: VertexHash| #[trigger] d1.graph.contains(y) implies !d1.vertex[y].parents.contains(x) by {
                    if y != h {
                        assert(d.graph.contains(y));
                        assert(d1.vertex[y] == d.vertex[y]);
                    }
                }
                assert(childless(d1).contains(x));
            }
        }
    }
    assert(d1.frontier =~= childless(d1));
}

/// Inserting again a vertex of the graph, with the parents it has, leaves the frontier and the
/// vertices of the graph without children in the graph as they were
pub proof fn lemma_reinsert_frontier(d: DagView, v: VertexView)
    requires
        d.graph.contains(vertex::spec_vertex_hash(v)),
        d.vertex[vertex::spec_vertex_hash(v)].parents == v.parents,
    ensures
        insert_spec(d, v).frontier == d.frontier,
        childless(insert_spec(d, v)) == childless(d),
{
    let h = vertex::spec_vertex_hash(v);
    let d1 = insert_spec(d, v);
    assert(d1.graph =~= d.graph);
    assert forall|y: VertexHash| #[trigger] d1.vertex[y].parents == d.vertex[y].parents by {
        if y == h {
            assert(d1.vertex[y] == v);
        }
    }
    assert(childless(d1) =~= childless(d));
}

/// Making known a vertex outside the graph leaves the frontier and the vertices of the graph
/// without children in the graph as they were
pub proof fn lemma_learn_frontier(d: DagView, v: VertexView, w: Seq<VertexHash>)
    requires
        !d.graph.contains(vertex::spec_vertex_hash(v)),
    ensures
        learn_spec(d, v, w).frontier == d.frontier,
        childless(learn_spec(d, v, w)) == childless(d),
{
    let d1 = learn_spec(d, v, w);
    assert forall|x: VertexHash| childless(d1).contains(x) == childless(d).contains(x) by {
        if childless(d).contains(x) {
            assert forall|y: VertexHash| #[trigger] d1.graph.contains(y) implies !d1.vertex[y].parents.contains(x) by {
                assert(d.graph.contains(y));
                assert(d1.vertex[y] == d.vertex[y]);
            }
        }
        if childless(d1).contains(x) {
            assert forall|y: VertexHash| #[trigger] d.graph.contains(y) implies !d.vertex[y].parents.contains(x) by {
                assert(d1.graph.contains(y));
                assert(d1.vertex[y] == d.vertex[y]);
            }
        }
    }
    assert(childless(d1) =~= childless(d));
}

/// No hash of `ps` is in `s` exactly when none of them is
pub proof fn lemma_members_in_empty(ps: Seq<VertexHash>, s: Set<VertexHash>)
    ensures
        members_in(ps, s).len() == 0 <==> forall|i: int| 0 <= i < ps.len() ==> !#[trigger] s.contains(ps[i]),
    decreases ps.len(),
{
    if ps.len() > 0 {
        lemma_members_in_empty(ps.drop_last(), s);
        if members_in(ps, s).len() == 0 {
            assert forall|i: int| 0 <= i < ps.len() implies !#[trigger] s.contains(ps[i]) by {
                if i < ps.len() - 1 {
                    assert(ps.drop_last()[i] == ps[i]);
                }
            }
        }
        if forall|i: int| 0 <= i < ps.len() ==> !#[trigger] s.contains(ps[i]) {
            assert forall|i: int| 0 <= i < ps.drop_last().len() implies !#[trigger] s.contains(ps.drop_last()[i]) by {
                assert(ps.drop_last()[i] == ps[i]);
            }
            assert(!s.contains(ps[ps.len() - 1]));
        }
    }
}

/// A query result is recorded at most once for a vertex: once recorded, recording another is
/// refused because the vertex was already queried
pub proof fn lemma_record_once(d: DagView, h: VertexHash, strongly_preferred: bool)
    requires
        recordable(d, h),
    ensures
        !recordable(recorded(d, h, strongly_preferred), h),
        record_refusal(recorded(d, h, strongly_preferred), h, Error::AlreadyQueried),
{
    let d2 = recorded(d, h, strongly_preferred);
    let ps = d.vertex[h].parents;
    lemma_members_in_empty(ps, d.pending_query);
    lemma_members_in_empty(ps, d2.pending_query);
    assert forall|i: int| 0 <= i < ps.len() implies !#[trigger] d2.pending_query.contains(ps[i]) by {
        assert(!d.pending_query.contains(ps[i]));
    }
}

/// Every initial vertex of a DAG built from initial vertices stays accepted while the later ones
/// are inserted
proof fn lemma_initial_accepted_upto(config: Config, vs: Seq<VertexView>, i: int, j: int)
    requires
        0 <= i < j <= vs.len(),
    ensures
        accepted_in(
            initial_dag(empty_view(config), vs.take(j)).state,
            Constraint(vertex::spec_vertex_hash(vs[i]), vertex::spec_vertex_hash(vs[i])),
        ),
    decreases j,
{
    let e = empty_view(config);
    let hi = vertex::spec_vertex_hash(vs[i]);
    let u = Constraint(hi, hi);
    let v = vs[j - 1];
    let h = vertex::spec_vertex_hash(v);
    let uc = Constraint(h, h);
    assert(vs.take(j).drop_last() =~= vs.take(j - 1));
    assert(vs.take(j).last() == v);
    let d0 = initial_dag(e, vs.take(j - 1));
    let d1 = insert_spec(d0, v);
    let vx = d0.vertex.insert(h, v);
    let l = pcs_set(v).push(uc);
    lemma_insert_states_keeps(d0.state, vx, h, v, u);
    lemma_accept_all_keeps(d1.state, l.drop_last(), u);
    if h == hi {
        assert(l.last() == u);
        assert(l.drop_last() =~= pcs_set(v));
    } else {
        lemma_initial_accepted_upto(config, vs, i, j - 1);
        lemma_key_of(u, uc);
        lemma_accept_all_keeps(d1.state, l, u);
    }
}

/// Entering constraints gives each of them a conflict set, and removes none
proof fn lemma_enter_all_dom(st: Map<ConflictSetKey, ConflictSetView>, vx: Map<VertexHash, VertexView>, cs: Seq<Constraint>)
    ensures
        st.dom().subset_of(enter_all(st, vx, cs).dom()),
        forall|c: Constraint| #[trigger] cs.contains(c) ==> enter_all(st, vx, cs).dom().contains(key_of(c)),
    decreases cs.len(),
{
    if cs.len() > 0 {
        let cs0 = cs.drop_last();
        lemma_enter_all_dom(st, vx, cs0);
        let st0 = enter_all(st, vx, cs0);
        let l = cs.last();
        crate::consensus::constraint_graph::lemma_register_all_keeps(st0, cparents_of(vx, l), l, l);
        assert forall|c: Constraint| #[trigger] cs.contains(c) implies enter_all(st, vx, cs).dom().contains(
            key_of(c),
        ) by {
            if c != l {
                let i = choose|i: int| 0 <= i < cs.len() && cs[i] == c;
                assert(cs0[i] == c);
                assert(cs0.contains(c));
            }
        }
    }
}

/// Accepting each of `cs` accepts every one of them that has a conflict set
proof fn lemma_accept_all_accepts(st: Map<ConflictSetKey, ConflictSetView>, cs: Seq<Constraint>, c: Constraint)
    requires
        st.dom().contains(key_of(c)),
        cs.contains(c),
    ensures
        accepted_in(accept_all(st, cs), c),
    decreases cs.len(),
{
    let cs0 = cs.drop_last();
    let l = cs.last();
    lemma_accept_all_keeps(st, cs0, c);
    let st0 = accept_all(st, cs0);
    if c != l {
        let i = choose|i: int| 0 <= i < cs.len() && cs[i] == c;
        assert(cs0[i] == c);
        lemma_accept_all_accepts(st, cs0, c);
    }
    assert(accept_all(st, cs) == decide(st0, l, true));
}

/// Every constraint accepted for an earlier initial vertex, its own ordering constraints and its
/// unity constraint, stays accepted while the later ones are inserted
proof fn lemma_initial_constraints_upto(config: Config, vs: Seq<VertexView>, i: int, j: int, c: Constraint)
    requires
        0 <= i < j <= vs.len(),
        pcs_set(vs[i]).push(Constraint(vertex::spec_vertex_hash(vs[i]), vertex::spec_vertex_hash(vs[i]))).contains(c),
    ensures
        accepted_in(initial_dag(empty_view(config), vs.take(j)).state, c),
    decreases j,
{
    let e = empty_view(config);
    let v = vs[j - 1];
    let h = vertex::spec_vertex_hash(v);
    let uc = Constraint(h, h);
    assert(vs.take(j).drop_last() =~= vs.take(j - 1));
    assert(vs.take(j).last() == v);
    let d0 = initial_dag(e, vs.take(j - 1));
    let d1 = insert_spec(d0, v);
    let vx = d0.vertex.insert(h, v);
    let pcs = pcs_set(v);
    let l = pcs.push(uc);
    lemma_insert_states_keeps(d0.state, vx, h, v, c);
    if l.contains(c) {
        lemma_enter_all_dom(d0.state, vx, pcs);
        let st1 = enter_all(d0.state, vx, pcs).insert(key_of(uc), new_cs_view(uc, pcs));
        crate::consensus::constraint_graph::lemma_register_all_keeps(st1, cparents_of(vx, uc), uc, uc);
        if c != uc {
            let k = choose|k: int| 0 <= k < l.len() && l[k] == c;
            assert(pcs[k] == c);
            assert(pcs.contains(c));
        }
        assert(d1.state.dom().contains(key_of(c)));
        lemma_accept_all_accepts(d1.state, l, c);
    } else {
        if i == j - 1 {
            assert(false);
        }
        lemma_initial_constraints_upto(config, vs, i, j - 1, c);
        lemma_key_of(c, uc);
        assert(l.contains(uc)) by {
            assert(l[l.len() - 1] == uc);
        }
        assert(key_of(c) != key_of(uc));
        lemma_accept_all_keeps(d1.state, l, c);
    }
}

/// Every ordering constraint that an initial vertex commits to, not only its unity constraint, is
/// accepted in a DAG built from initial vertices
pub proof fn lemma_initial_constraints_accepted(config: Config, vs: Seq<VertexView>, i: int, c: Constraint)
    requires
        0 <= i < vs.len(),
        constraint_seq(vs[i].parents).contains(c),
    ensures
        accepted_in(initial_dag(empty_view(config), vs).state, c),
{
    let h = vertex::spec_vertex_hash(vs[i]);
    crate::collections::lemma_seq_insert_all(Seq::<Constraint>::empty(), constraint_seq(vs[i].parents));
    let pcs = pcs_set(vs[i]);
    assert(pcs.contains(c));
    let k = choose|k: int| 0 <= k < pcs.len() && pcs[k] == c;
    assert(pcs.push(Constraint(h, h))[k] == c);
    lemma_initial_constraints_upto(config, vs, i, vs.len() as int, c);
    assert(vs.take(vs.len() as int) =~= vs);
}

/// Every initial vertex of a DAG built from initial vertices is accepted, and that is final; a
/// vertex given more than once is accepted again each time
pub proof fn lemma_initial_accepted(config: Config, vs: Seq<VertexView>, i: int)
    requires
        0 <= i < vs.len(),
    ensures
        query_spec(initial_dag(empty_view(config), vs), vertex::spec_vertex_hash(vs[i])) == Ok::<
            (bool, bool),
            Error,
        >((true, true)),
{
    lemma_initial_accepted_upto(config, vs, i, vs.len() as int);
    assert(vs.take(vs.len() as int) =~= vs);
}

/// Remove each of `ks` from the set `s`
fn remove_each(s: &mut VecSet<VertexHash>, ks: &Vec<VertexHash>)
    requires
        old(s).wf(),
    ensures
        final(s).wf(),
        final(s).set() == old(s).set().difference(ks@.to_set()),
{
    let ghost s0 = s.set();
    let mut i: usize = 0;
    assert(s0.difference(ks@.take(0).to_set()) =~= s0);
    while i < ks.len()
        invariant
            i <= ks@.len(),
            s.wf(),
            s.set() == s0.difference(ks@.take(i as int).to_set()),
        decreases ks@.len() - i,
    {
        s.remove(&ks[i]);
        proof {
            let t0 = ks@.take(i as int);
            let t1 = ks@.take(i + 1);
            assert forall|x: VertexHash| #[trigger] t1.to_set().contains(x) == t0.to_set().insert(
                ks@[i as int],
            ).contains(x) by {
                if t1.contains(x) {
                    let j = choose|j: int| 0 <= j < t1.len() && t1[j] == x;
                    if j < i {
                        assert(t0[j] == x);
                    }
                }
                if t0.contains(x) {
                    let j = choose|j: int| 0 <= j < t0.len() && t0[j] == x;
                    assert(t1[j] == x);
                }
                if x == ks@[i as int] {
                    assert(t1[i as int] == x);
                }
            }
            assert(s.set() =~= s0.difference(t1.to_set()));
        }
        i += 1;
    }
    assert(ks@.take(ks@.len() as int) =~= ks@);
}

/// Inserting a vertex whose parents are in the graph, and which, when already in the graph, comes
/// with the parents it has, keeps the invariant
proof fn lemma_insert_spec_inv(d: DagView, v: VertexView)
    requires
        d.inv(),
        forall|p: VertexHash| #[trigger] v.parents.contains(p) ==> d.graph.contains(p),
        d.graph.contains(vertex::spec_vertex_hash(v)) ==> d.vertex[vertex::spec_vertex_hash(v)].parents
            == v.parents,
    ensures
        insert_spec(d, v).inv(),
{
    let h = vertex::spec_vertex_hash(v);
    let d1 = insert_spec(d, v);
    if !d.graph.contains(h) {
        lemma_insert_inv(d.vertex, d.graph, d.order, d.next, d.state, d.frontier, h, v);
        assert forall|x: VertexHash| #[trigger] d1.frontier.contains(x) implies d1.vertex.dom().contains(x) by {
            if x != h {
                reveal(dag_inv);
                assert(d.frontier.contains(x));
            }
        }
        lemma_frontier_inv(d1.vertex, d1.graph, d1.order, d1.next, d1.state, d.frontier, d1.frontier);
    } else {
        lemma_reinsert_inv(d.vertex, d.graph, d.order, d.next, d.state, d.frontier, h, v);
        assert(d1.graph =~= d.graph);
    }
}

/// Implementation of SESAME DAG. Each [`Vertex`] represents an event in the event graph. Each
/// [`Vertex`] commits to a set of ordering [`Constraint`]s for each pair of parent vertices. We
/// arrange these ordering constraints into an independent graph, and use Avalanche consensus to
/// reach agreement on the total ordering of event vertices.
pub struct DAG {
    /// Configuration parameters
    config: Config,
    /// Map of every known undecided vertex
    vertex: VecMap<VertexHash, Vertex>,
    /// Set of vertices which are in the active region of the graph
    graph: VecSet<VertexHash>,
    /// Set of vertices which are waiting for the results of a query
    pending_query: VecSet<VertexHash>,
    /// Map of known children for each vertex in the event graph
    children: VecMap<VertexHash, VecSet<VertexHash>>,
    /// Map of each ordering constraint to its corresponding Avalanche state variables
    state: VecMap<ConflictSetKey, ConflictSet>,
    /// Vertices which define the frontier of the graph
    frontier: VecSet<VertexHash>,
    /// Position of each vertex of the graph in the order of insertion
    order: Ghost<Map<VertexHash, nat>>,
    /// Number of vertices inserted into the graph so far
    next: Ghost<nat>,
}

impl View for DAG {
    type V = DagView;

    closed spec fn view(&self) -> DagView {
        DagView {
            config: self.config,
            vertex: self.vertex@.map_values(|v: Vertex| v@),
            graph: self.graph.set(),
            pending_query: self.pending_query.set(),
            children: self.children@.map_values(|s: VecSet<VertexHash>| s@),
            state: self.state@.map_values(|cs: ConflictSet| cs@),
            frontier: self.frontier.set(),
            order: self.order@,
            next: self.next@,
        }
    }
}

impl DAG {
    /// The containers behind the DAG are well formed
    pub closed spec fn wf_containers(&self) -> bool {
        &&& self.vertex.wf()
        &&& self.graph.wf()
        &&& self.pending_query.wf()
        &&& self.children.wf()
        &&& self.state.wf()
        &&& self.frontier.wf()
        &&& forall|h: VertexHash| #[trigger]
            self.children@.dom().contains(h) ==> self.children@[h].wf()
        &&& forall|k: ConflictSetKey| #[trigger]
            self.state@.dom().contains(k) ==> self.state@[k].wf()
    }

    /// The DAG is well formed
    pub closed spec fn wf(&self) -> bool {
        self.wf_containers() && self@.inv()
    }

    /// Create a new [`DAG`] with the given [`Config`]
    pub fn new(config: Config) -> (dag: DAG)
        ensures
            dag.wf(),
            dag@ == empty_view(config),
            dag@.frontier == childless(dag@),
            unity_never_rejected(dag@.state),
    {
        let dag = DAG {
            config,
            vertex: VecMap::new(),
            graph: VecSet::new(),
            pending_query: VecSet::new(),
            children: VecMap::new(),
            state: VecMap::new(),
            frontier: VecSet::new(),
            order: Ghost(Map::empty()),
            next: Ghost(0),
        };
        assert(Seq::<VertexHash>::empty().to_set() =~= Set::<VertexHash>::empty());
        reveal(dag_inv);
        assert(dag@.vertex =~= Map::empty());
        assert(dag@.children =~= Map::empty());
        assert(dag@.state =~= Map::empty());
        assert(childless(dag@) =~= Set::<VertexHash>::empty());
        dag
    }

    /// The view of a well-formed DAG satisfies the invariant of the DAG
    pub proof fn lemma_wf_inv(&self)
        requires
            self.wf(),
        ensures
            self@.inv(),
    {
    }

    /// Add `vhash` as a known child of `parent`
    fn add_child(&mut self, parent: &VertexHash, vhash: &VertexHash)
        requires
            old(self).wf_containers(),
        ensures
            final(self).wf_containers(),
            final(self)@ == (DagView {
                children: add_child_spec(old(self)@.children, *parent, *vhash),
                ..old(self)@
            }),
    {
        let ghost ch0 = self@.children;
        match self.children.get_mut(parent) {
            Some(children) => {
                children.insert(*vhash);
            },
            None => {
                let mut set = VecSet::new();
                set.insert(*vhash);
                self.children.insert(*parent, set);
            },
        }
        assert(self@.children =~= add_child_spec(ch0, *parent, *vhash));
    }

    /// Add this [`Vertex`] as a known child to each of its parents
    pub fn map_child(&mut self, vhash: &VertexHash, parents: &Vec<VertexHash>)
        requires
            old(self).wf_containers(),
        ensures
            final(self).wf_containers(),
            final(self)@ == (DagView {
                children: map_child_spec(old(self)@.children, *vhash, parents@),
                ..old(self)@
            }),
    {
        let mut i: usize = 0;
        assert(parents@.skip(0) =~= parents@);
        while i < parents.len()
            invariant
                i <= parents@.len(),
                self.wf_containers(),
                self@ == (DagView { children: self@.children, ..old(self)@ }),
                map_child_spec(self@.children, *vhash, parents@.skip(i as int)) == map_child_spec(
                    old(self)@.children,
                    *vhash,
                    parents@,
                ),
            decreases parents.len() - i,
        {
            self.add_child(&parents[i], vhash);
            assert(parents@.skip(i as int).drop_first() =~= parents@.skip(i + 1));
            i += 1;
        }
        assert(parents@.skip(i as int) =~= Seq::<VertexHash>::empty());
    }

    /// Get the known children of the specified [`Vertex`], in the order they became known
    pub fn get_known_children(&self, vhash: &VertexHash) -> (r: Result<Vec<VertexHash>, Error>)
        requires
            self.wf(),
        ensures
            match r {
                Ok(ch) => self@.children.dom().contains(*vhash) && ch@ == self@.children[*vhash],
                Err(e) => !self@.children.dom().contains(*vhash) && e == Error::NotFound,
            },
    {
        match self.children.get(vhash) {
            Some(set) => {
                let mut out: Vec<VertexHash> = Vec::new();
                let mut i: usize = 0;
                while i < set.len()
                    invariant
                        i <= set@.len(),
                        out@ == set@.take(i as int),
                    decreases set@.len() - i,
                {
                    out.push(set.get(i));
                    i += 1;
                    assert(out@ =~= set@.take(i as int));
                }
                assert(set@.take(set@.len() as int) =~= set@);
                Ok(out)
            },
            None => Err(Error::NotFound),
        }
    }

    /// Parents which are not known at all, and parents which are known but not yet in the graph
    #[verifier::loop_isolation(false)]
    fn sort_parents(&self, ps: &Vec<VertexHash>) -> (r: (Vec<VertexHash>, Vec<VertexHash>))
        requires
            self.wf(),
        ensures
            r.0@ == missing_of(self@.vertex, ps@),
            r.1@ == waiting_of(self@.vertex, self@.graph, ps@),
    {
        let mut missing: Vec<VertexHash> = Vec::new();
        let mut waiting: Vec<VertexHash> = Vec::new();
        let mut i: usize = 0;
        while i < ps.len()
            invariant
                i <= ps@.len(),
                missing@ == missing_of(self@.vertex, ps@.take(i as int)),
                waiting@ == waiting_of(self@.vertex, self@.graph, ps@.take(i as int)),
            decreases ps@.len() - i,
        {
            let vhash = &ps[i];
            assert(ps@.take(i + 1).drop_last() =~= ps@.take(i as int));
            if !self.vertex.contains_key(vhash) {
                missing.push(*vhash);
            } else if !self.graph.contains(vhash) {
                waiting.push(*vhash);
            }
            i += 1;
        }
        assert(ps@.take(ps@.len() as int) =~= ps@);
        (missing, waiting)
    }

    /// Whether every parent has the same height as the first one
    #[verifier::loop_isolation(false)]
    fn parents_level(&self, ps: &Vec<VertexHash>) -> (r: bool)
        requires
            self.wf(),
            ps@.len() > 0,
            forall|i: int| 0 <= i < ps@.len() ==> #[trigger] self@.vertex.dom().contains(ps@[i]),
        ensures
            r == !(exists|i: int|
                0 <= i < ps@.len() && #[trigger] self@.vertex[ps@[i]].height
                    != self@.vertex[ps@[0]].height),
    {
        proof {
            self.lemma_vertex_view(ps@[0]);
        }
        let parent_height = self.vertex.get(&ps[0]).unwrap().height;
        let mut j: usize = 0;
        while j < ps.len()
            invariant
                j <= ps@.len(),
                parent_height == self@.vertex[ps@[0]].height,
                forall|i: int| 0 <= i < j ==> #[trigger] self@.vertex[ps@[i]].height == parent_height,
            decreases ps@.len() - j,
        {
            proof {
                self.lemma_vertex_view(ps@[j as int]);
            }
            if self.vertex.get(&ps[j]).unwrap().height != parent_height {
                assert(self@.vertex[ps@[j as int]].height != self@.vertex[ps@[0]].height);
                return false;
            }
            j += 1;
        }
        true
    }

    /// Whether two of the parents commit to opposite constraints
    #[verifier::loop_isolation(false)]
    fn parents_conflict(&self, ps: &Vec<VertexHash>) -> (r: bool)
        requires
            self.wf(),
            forall|i: int| 0 <= i < ps@.len() ==> #[trigger] self@.vertex.dom().contains(ps@[i]),
        ensures
            r == conflicting(self@.vertex, ps@),
    {
        let ghost vxm = self@.vertex;
        let mut all: VecSet<Constraint> = VecSet::new();
        let mut k: usize = 0;
        assert(all.set() =~= constraints_of_all(vxm, ps@.take(0)));
        while k < ps.len()
            invariant
                k <= ps@.len(),
                all.wf(),
                all.set() == constraints_of_all(vxm, ps@.take(k as int)),
            decreases ps@.len() - k,
        {
            proof {
                self.lemma_vertex_view(ps@[k as int]);
            }
            let pcs = self.vertex.get(&ps[k]).unwrap().parent_constraints().to_vec();
            let ghost before = all@;
            all.insert_all(&pcs);
            proof {
                lemma_union_step(vxm, ps@, k as int, before, pcs@, all@);
            }
            k += 1;
        }
        assert(ps@.take(ps@.len() as int) =~= ps@);
        let ghost u = constraints_of_all(vxm, ps@);
        let mut m: usize = 0;
        while m < all.len()
            invariant
                all.wf(),
                all.set() == u,
                m <= all@.len(),
                forall|i: int|
                    0 <= i < m ==> !spec_is_unity(#[trigger] all@[i]) ==> !u.contains(
                        spec_opposite(all@[i]),
                    ),
            decreases all@.len() - m,
        {
            let c = all.get(m);
            match c.opposite() {
                Some(opp) => {
                    if all.contains(&opp) {
                        assert(u.contains(c));
                        return true;
                    }
                },
                None => {},
            }
            m += 1;
        }
        proof {
            if conflicting(vxm, ps@) {
                let c = choose|c: Constraint|
                    #![trigger u.contains(c)]
                    u.contains(c) && !spec_is_unity(c) && u.contains(spec_opposite(c));
                let i = choose|i: int| 0 <= i < all@.len() && all@[i] == c;
                assert(!u.contains(spec_opposite(all@[i])));
            }
        }
        false
    }

    /// Before inserting a vertex into the [`DAG`] it must pass these checks
    pub fn check_vertex(&self, vx: &Vertex) -> (r: Result<(), Error>)
        requires
            self.wf(),
        ensures
            match r {
                Ok(()) => self@.check(vx@) == CheckOutcome::Passed,
                Err(e) => self@.check(vx@) != CheckOutcome::Passed && reports(
                    e,
                    self@.check(vx@),
                    vx@,
                ),
            },
    {
        // Rule out any obviously insane vertices
        match vx.sanity_checks() {
            Ok(()) => {},
            Err(e) => {
                return Err(Error::Vertex(e));
            },
        }
        // Check that this vertex has not been inserted already
        if self.graph.contains(&vx.hash()) {
            return Err(Error::AlreadyInserted);
        }
        // Collect any parent vertices which we do not have yet, or which we are still waiting to
        // be processed
        let (missing, waiting) = self.sort_parents(&vx.parents);
        if missing.len() > 0 {
            return Err(Error::MissingParents(missing));
        }
        if waiting.len() > 0 {
            return Err(Error::WaitingOnParents(waiting));
        }
        proof {
            lemma_missing_empty(self@.vertex, vx.parents@);
            lemma_waiting_empty(self@.vertex, self@.graph, vx.parents@);
        }
        // Confirm the heights of each parent match
        if !self.parents_level(&vx.parents) {
            return Err(Error::BadParentHeight);
        }
        // Confirm vertex height is 1 + parent height
        proof {
            self.lemma_vertex_view(vx.parents@[0]);
        }
        let parent_height = self.vertex.get(&vx.parents[0]).unwrap().height;
        match parent_height.checked_add(1) {
            Some(expected_height) => {
                if expected_height != vx.height {
                    return Err(Error::BadHeight(vx.height, expected_height));
                }
            },
            None => {
                assert((parent_height + 1) as u64 == 0) by (bit_vector)
                    requires
                        parent_height == 0xffff_ffff_ffff_ffffu64,
                ;
                return Err(Error::BadHeight(vx.height, 0));
            },
        }
        // Confirm parents do not have conflicting constraints
        if self.parents_conflict(&vx.parents) {
            return Err(Error::ConflictingParents);
        }
        Ok(())
    }

    /// Register `c` as a known child of `p` in the constraint graph
    fn register_child(&mut self, p: Constraint, c: Constraint)
        requires
            old(self).wf_containers(),
        ensures
            final(self).wf_containers(),
            final(self)@ == (DagView { state: register_child(old(self)@.state, p, c), ..old(self)@ }),
    {
        let ghost d0 = self@;
        let k = p.conflict_set_key();
        match self.state.get_mut(&k) {
            Some(cs) => {
                cs.add_child(p, c);
            },
            None => {},
        }
        assert(self@.state =~= register_child(d0.state, p, c));
    }

    /// Parents of `c` in the constraint graph: the parent constraints of its two vertices
    fn cparents(&self, c: &Constraint) -> (r: VecSet<Constraint>)
        requires
            self.wf_containers(),
            self@.vertex.dom().contains(c.0),
            self@.vertex.dom().contains(c.1),
        ensures
            r.wf(),
            r@ == cparents_of(self@.vertex, *c),
    {
        proof {
            self.lemma_vertex_view(c.0);
            self.lemma_vertex_view(c.1);
        }
        let mut ps: VecSet<Constraint> = VecSet::new();
        let a = self.vertex.get(&c.0).unwrap().parent_constraints().to_vec();
        ps.insert_all(&a);
        let b = self.vertex.get(&c.1).unwrap().parent_constraints().to_vec();
        ps.insert_all(&b);
        ps
    }

    /// Let constraint `c` enter the constraint graph: register it as a known child of each of its
    /// parents, and give it a fresh conflict set unless its key already has one
    fn enter_constraint(&mut self, c: Constraint)
        requires
            old(self).wf_containers(),
            old(self)@.vertex.dom().contains(c.0),
            old(self)@.vertex.dom().contains(c.1),
        ensures
            final(self).wf_containers(),
            final(self)@ == (DagView {
                state: enter_constraint(old(self)@.state, old(self)@.vertex, c),
                ..old(self)@
            }),
    {
        let ghost d0 = self@;
        let ps = self.cparents(&c);
        let mut i: usize = 0;
        while i < ps.len()
            invariant
                i <= ps@.len(),
                ps.wf(),
                ps@ == cparents_of(d0.vertex, c),
                self.wf_containers(),
                self@ == (DagView { state: register_all(d0.state, ps@.take(i as int), c), ..d0 }),
            decreases ps@.len() - i,
        {
            self.register_child(ps.get(i), c);
            assert(ps@.take(i + 1).drop_last() =~= ps@.take(i as int));
            i += 1;
        }
        assert(ps@.take(ps@.len() as int) =~= ps@);
        let k = c.conflict_set_key();
        if !self.state.contains_key(&k) {
            let ghost s1 = self@.state;
            self.state.insert(k, ConflictSet::new(c, ps));
            assert(self@.state =~= s1.insert(key_of(c), new_cs_view(c, cparents_of(d0.vertex, c))));
        }
    }

    /// Insert a [`Vertex`] without checking DAG constraints; its parents must already be in the
    /// graph
    #[verifier::spinoff_prover]
    #[verifier::rlimit(30)]
    pub fn insert_unchecked(&mut self, vx: &Vertex)
        requires
            old(self).wf(),
            old(self)@.graph.contains(vertex::spec_vertex_hash(vx@)) ==> old(self)@.vertex[vertex::spec_vertex_hash(vx@)].parents
                == vx@.parents,
            forall|p: VertexHash| #[trigger] vx@.parents.contains(p) ==> old(self)@.graph.contains(p),
        ensures
            final(self).wf(),
            final(self)@ == insert_spec(old(self)@, vx@),
    {
        let ghost d0 = self@;
        let h = vx.hash();
        let fresh = !self.graph.contains(&h);
        // Add vertex to list of known vertices
        self.vertex.insert(h, vx.clone());
        let ghost vx2 = d0.vertex.insert(h, vx@);
        assert(self@.vertex =~= vx2);
        // Add an entry in the child map, if it doesn't already exist
        if !self.children.contains_key(&h) {
            self.children.insert(h, VecSet::new());
        }
        let ghost ch1 = self@.children;
        assert(ch1 =~= (if d0.children.dom().contains(h) {
            d0.children
        } else {
            d0.children.insert(h, Seq::empty())
        }));
        // Each parent constraint enters the constraint graph
        let all = vx.parent_constraints().to_vec();
        let mut pcs: VecSet<Constraint> = VecSet::new();
        pcs.insert_all(&all);
        assert(pcs@ == pcs_set(vx@));
        proof {
            crate::collections::lemma_seq_insert_all(Seq::<Constraint>::empty(), all@);
            reveal(dag_inv);
        }
        let mut i: usize = 0;
        while i < pcs.len()
            invariant
                i <= pcs@.len(),
                pcs.wf(),
                pcs@ == pcs_set(vx@),
                forall|c: Constraint| #[trigger]
                    pcs@.contains(c) ==> constraint_seq(vx@.parents).contains(c),
                forall|p: VertexHash| #[trigger]
                    vx@.parents.contains(p) ==> d0.graph.contains(p),
                forall|x: VertexHash| #[trigger] d0.graph.contains(x) ==> d0.vertex.dom().contains(x),
                vx2 == d0.vertex.insert(h, vx@),
                self.wf_containers(),
                self@ == (DagView {
                    vertex: vx2,
                    children: ch1,
                    state: enter_all(d0.state, vx2, pcs@.take(i as int)),
                    ..d0
                }),
            decreases pcs@.len() - i,
        {
            let c = pcs.get(i);
            proof {
                assert(pcs@.contains(c));
                crate::consensus::constraint_graph::lemma_constraint_seq_vertices(vx@.parents, c);
                assert(d0.graph.contains(c.0) && d0.graph.contains(c.1));
                assert(vx2.dom().contains(c.0) && vx2.dom().contains(c.1));
            }
            self.enter_constraint(c);
            assert(pcs@.take(i + 1).drop_last() =~= pcs@.take(i as int));
            i += 1;
        }
        assert(pcs@.take(pcs@.len() as int) =~= pcs@);
        // The unity constraint of the vertex gets a fresh conflict set, and enters the constraint
        // graph as well
        let uc = Constraint(h, h);
        let ghost s1 = self@.state;
        self.state.insert(uc.conflict_set_key(), ConflictSet::new(uc, pcs.clone()));
        assert(self@.state =~= s1.insert(key_of(uc), new_cs_view(uc, pcs@)));
        self.enter_constraint(uc);
        // Update child map
        self.map_child(&h, &vx.parents);
        // Register this vertex as part of the graph and waiting for query results
        self.graph.insert(h);
        self.pending_query.insert(h);
        if fresh {
            // The vertex takes the place of its parents at the frontier
            remove_each(&mut self.frontier, &vx.parents);
            self.frontier.insert(h);
            self.order = Ghost(self.order@.insert(h, self.next@));
            self.next = Ghost(self.next@ + 1);
        }
        proof {
            lemma_insert_spec_inv(d0, vx@);
            let d1 = insert_spec(d0, vx@);
            assert(self@.graph =~= d1.graph);
            assert(self@.frontier =~= d1.frontier);
            assert(self@.order =~= d1.order);
        }
        assert(self@ == insert_spec(d0, vx@));
    }

    /// Make a vertex which is waiting on the parents `w` known: note it as a child of its
    /// parents, and let each parent of `w` wait for the result of a query
    fn learn(&mut self, vx: &Vertex, w: &Vec<VertexHash>)
        requires
            old(self).wf(),
            !old(self)@.graph.contains(vertex::spec_vertex_hash(vx@)),
        ensures
            final(self).wf(),
            final(self)@ == learn_spec(old(self)@, vx@, w@),
    {
        let ghost d0 = self@;
        let h = vx.hash();
        self.map_child(&h, &vx.parents);
        self.vertex.insert(h, vx.clone());
        let ghost d1 = self@;
        assert(d1.vertex =~= d0.vertex.insert(h, vx@));
        let mut i: usize = 0;
        assert(w@.take(0).to_set() =~= Set::<VertexHash>::empty());
        assert(d0.pending_query + Set::<VertexHash>::empty() =~= d0.pending_query);
        while i < w.len()
            invariant
                i <= w@.len(),
                self.wf_containers(),
                self@ == (DagView {
                    pending_query: d0.pending_query + w@.take(i as int).to_set(),
                    ..d1
                }),
            decreases w@.len() - i,
        {
            self.pending_query.insert(w[i]);
            proof {
                let t0 = w@.take(i as int);
                let t1 = w@.take(i + 1);
                assert forall|x: VertexHash| #[trigger] t1.to_set().contains(x) == t0.to_set().insert(
                    w@[i as int],
                ).contains(x) by {
                    if t1.contains(x) {
                        let j = choose|j: int| 0 <= j < t1.len() && t1[j] == x;
                        if j < i {
                            assert(t0[j] == x);
                        }
                    }
                    if t0.contains(x) {
                        let j = choose|j: int| 0 <= j < t0.len() && t0[j] == x;
                        assert(t1[j] == x);
                    }
                    if x == w@[i as int] {
                        assert(t1[i as int] == x);
                    }
                }
                assert(self@.pending_query =~= d0.pending_query + t1.to_set());
            }
            i += 1;
        }
        assert(w@.take(w@.len() as int) =~= w@);
        proof {
            lemma_learn_inv(d0.vertex, d0.graph, d0.order, d0.next, d0.state, d0.frontier, h, vx@);
        }
    }

    /// Hashes of `ch` which are not in the graph, in order
    fn outside_graph(&self, ch: &Vec<VertexHash>) -> (r: Vec<VertexHash>)
        requires
            self.wf_containers(),
        ensures
            r@ == outside_graph(ch@, self@.graph),
    {
        let mut out: Vec<VertexHash> = Vec::new();
        let mut i: usize = 0;
        while i < ch.len()
            invariant
                i <= ch@.len(),
                self.wf_containers(),
                out@ == outside_graph(ch@.take(i as int), self@.graph),
            decreases ch@.len() - i,
        {
            assert(ch@.take(i + 1).drop_last() =~= ch@.take(i as int));
            if !self.graph.contains(&ch[i]) {
                out.push(ch[i]);
            }
            i += 1;
        }
        assert(ch@.take(ch@.len() as int) =~= ch@);
        out
    }

    /// Insert a vertex into the [`DAG`]. Returns the known children waiting to be inserted after
    /// this vertex. A vertex whose parents are missing or waiting is still made known.
    pub fn try_insert(&mut self, vx: &Arc<Vertex>) -> (r: Result<Vec<VertexHash>, Error>)
        requires
            old(self).wf(),
        ensures
            final(self).wf(),
            old(self)@.frontier == childless(old(self)@) ==> final(self)@.frontier == childless(
                final(self)@,
            ),
            unity_never_rejected(old(self)@.state) ==> unity_never_rejected(final(self)@.state),
            match r {
                Ok(ch) => {
                    &&& old(self)@.check(vx@) == CheckOutcome::Passed
                    &&& final(self)@ == insert_spec(old(self)@, vx@)
                    &&& ch@ == outside_graph(
                        final(self)@.children[vertex::spec_vertex_hash(vx@)],
                        final(self)@.graph,
                    )
                },
                Err(e) => {
                    &&& old(self)@.check(vx@) != CheckOutcome::Passed
                    &&& reports(e, old(self)@.check(vx@), vx@)
                    &&& final(self)@ == match old(self)@.check(vx@) {
                        CheckOutcome::Missing(w) => learn_spec(old(self)@, vx@, w),
                        CheckOutcome::Waiting(w) => learn_spec(old(self)@, vx@, w),
                        _ => old(self)@,
                    }
                },
            },
    {
        let v: &Vertex = &**vx;
        let ghost d0 = self@;
        match self.check_vertex(v) {
            Err(e) => {
                // Add vertex as known child, even if we are missing some of its parents
                match &e {
                    Error::MissingParents(waiting) => {
                        self.learn(v, waiting);
                        proof {
                            lemma_learn_frontier(d0, v@, waiting@);
                        }
                    },
                    Error::WaitingOnParents(waiting) => {
                        self.learn(v, waiting);
                        proof {
                            lemma_learn_frontier(d0, v@, waiting@);
                        }
                    },
                    _ => {},
                }
                Err(e)
            },
            Ok(()) => {
                proof {
                    lemma_missing_empty(d0.vertex, v@.parents);
                    lemma_waiting_empty(d0.vertex, d0.graph, v@.parents);
                    assert forall|p: VertexHash| #[trigger] v@.parents.contains(p) implies d0.graph.contains(p) by {
                        let i = choose|i: int| 0 <= i < v@.parents.len() && v@.parents[i] == p;
                        assert(d0.graph.contains(v@.parents[i]));
                    }
                }
                // Insert the vertex into the graph
                self.insert_unchecked(v);
                proof {
                    if d0.frontier == childless(d0) {
                        lemma_insert_frontier(d0, v@);
                    }
                    if unity_never_rejected(d0.state) {
                        lemma_insert_keeps_unity(d0, v@);
                    }
                }
                // Return any waiting children
                let h = v.hash();
                proof {
                    let ch1 = if d0.children.dom().contains(h) {
                        d0.children
                    } else {
                        d0.children.insert(h, Seq::empty())
                    };
                    lemma_map_child_dom(ch1, h, v@.parents);
                    assert(self@.children.dom().contains(h));
                }
                match self.get_known_children(&h) {
                    Ok(ch) => Ok(self.outside_graph(&ch)),
                    Err(e) => Err(e),
                }
            },
        }
    }

    /// Record the decision `d` for constraint `c`
    fn decide(&mut self, c: Constraint, d: bool)
        requires
            old(self).wf(),
        ensures
            final(self).wf(),
            final(self)@ == (DagView { state: decide(old(self)@.state, c, d), ..old(self)@ }),
    {
        let ghost d0 = self@;
        let k = c.conflict_set_key();
        match self.state.get_mut(&k) {
            Some(cs) => {
                cs.decision.insert(c, d);
            },
            None => {},
        }
        assert(self@.state =~= decide(d0.state, c, d));
        proof {
            lemma_decide_inv(d0.vertex, d0.graph, d0.order, d0.next, d0.state, d0.frontier, c, d);
        }
    }

    /// Insert an initial vertex, and accept each of its constraints
    fn insert_initial(&mut self, vx: &Vertex)
        requires
            old(self).wf(),
            old(self)@.graph.contains(vertex::spec_vertex_hash(vx@)) ==> old(self)@.vertex[vertex::spec_vertex_hash(vx@)].parents
                == vx@.parents,
            forall|p: VertexHash| #[trigger] vx@.parents.contains(p) ==> old(self)@.graph.contains(p),
        ensures
            final(self).wf(),
            final(self)@ == initial_step(old(self)@, vx@),
    {
        let ghost d0 = self@;
        self.insert_unchecked(vx);
        let h = vx.hash();
        self.pending_query.remove(&h);
        let ghost d1 = self@;
        let all = vx.parent_constraints().to_vec();
        let mut cs: VecSet<Constraint> = VecSet::new();
        cs.insert_all(&all);
        let uc = Constraint(h, h);
        let mut list = cs.to_vec();
        list.push(uc);
        assert(list@ == pcs_set(vx@).push(uc));
        let mut i: usize = 0;
        while i < list.len()
            invariant
                i <= list@.len(),
                self.wf(),
                self@ == (DagView { state: accept_all(d1.state, list@.take(i as int)), ..d1 }),
            decreases list@.len() - i,
        {
            self.decide(list[i], true);
            assert(list@.take(i + 1).drop_last() =~= list@.take(i as int));
            i += 1;
        }
        assert(list@.take(list@.len() as int) =~= list@);
    }

    /// Create a new [`DAG`] holding the given initial vertices, each inserted in turn with every
    /// one of its constraints accepted. Each vertex's parents come before it, and no vertex comes
    /// twice.
    pub fn with_initial_vertices(config: Config, vertices: &[&Arc<Vertex>]) -> (r: Result<DAG, Error>)
        requires
            forall|i: int, p: VertexHash|
                0 <= i < vertices@.len() && #[trigger] vertices@[i]@.parents.contains(p)
                    ==> exists|j: int|
                    0 <= j < i && #[trigger] vertex::spec_vertex_hash(vertices@[j]@) == p,
            forall|i: int, j: int|
                0 <= i < j < vertices@.len() && vertex::spec_vertex_hash(vertices@[i]@)
                    == vertex::spec_vertex_hash(vertices@[j]@) ==> vertices@[i]@.parents
                    == vertices@[j]@.parents,
        ensures
            match r {
                Ok(dag) => dag.wf() && dag@ == initial_dag(
                    empty_view(config),
                    vertex::views_of(vertices@),
                ) && dag@.frontier == childless(dag@) && unity_never_rejected(dag@.state),
                Err(_) => false,
            },
    {
        let ghost vs = vertex::views_of(vertices@);
        let mut dag = DAG::new(config);
        assert(childless(dag@) =~= Set::<VertexHash>::empty());
        let mut i: usize = 0;
        while i < vertices.len()
            invariant
                i <= vertices@.len(),
                vs == vertex::views_of(vertices@),
                dag.wf(),
                dag@ == initial_dag(empty_view(config), vs.take(i as int)),
                dag@.frontier == childless(dag@),
                unity_never_rejected(dag@.state),
                forall|x: VertexHash| #[trigger]
                    dag@.graph.contains(x) <==> exists|j: int|
                        0 <= j < i && #[trigger] vertex::spec_vertex_hash(vertices@[j]@) == x,
                forall|i: int, p: VertexHash|
                    0 <= i < vertices@.len() && #[trigger] vertices@[i]@.parents.contains(p)
                        ==> exists|j: int|
                        0 <= j < i && #[trigger] vertex::spec_vertex_hash(vertices@[j]@) == p,
                forall|i: int, j: int|
                    0 <= i < j < vertices@.len() && vertex::spec_vertex_hash(vertices@[i]@)
                        == vertex::spec_vertex_hash(vertices@[j]@) ==> vertices@[i]@.parents
                        == vertices@[j]@.parents,
                forall|j: int|
                    0 <= j < i ==> #[trigger] dag@.vertex[vertex::spec_vertex_hash(vertices@[j]@)].parents
                        == vertices@[j]@.parents,
            decreases vertices@.len() - i,
        {
            let v: &Vertex = &**vertices[i];
            proof {
                assert(v@ == vs[i as int]);
                assert forall|p: VertexHash| #[trigger] v@.parents.contains(p) implies dag@.graph.contains(p) by {
                    assert(vertices@[i as int]@.parents.contains(p));
                }
                if dag@.graph.contains(vertex::spec_vertex_hash(v@)) {
                    let j = choose|j: int|
                        0 <= j < i && #[trigger] vertex::spec_vertex_hash(vertices@[j]@)
                            == vertex::spec_vertex_hash(v@);
                    assert(dag@.vertex[vertex::spec_vertex_hash(vertices@[j]@)].parents
                        == vertices@[j]@.parents);
                    lemma_reinsert_frontier(dag@, v@);
                } else {
                    lemma_insert_frontier(dag@, v@);
                }
            }
            let ghost d0 = dag@;
            proof {
                lemma_initial_keeps_unity(d0, v@);
            }
            dag.insert_initial(v);
            assert(childless(dag@) =~= childless(insert_spec(d0, v@)));
            proof {
                assert(vs.take(i + 1).drop_last() =~= vs.take(i as int));
                assert forall|x: VertexHash| #[trigger]
                    dag@.graph.contains(x) <==> exists|j: int|
                        0 <= j < i + 1 && #[trigger] vertex::spec_vertex_hash(vertices@[j]@) == x by {
                    if x == vertex::spec_vertex_hash(v@) {
                        assert(vertex::spec_vertex_hash(vertices@[i as int]@) == x);
                    }
                }
                assert forall|j: int|
                    0 <= j < i + 1 implies #[trigger] dag@.vertex[vertex::spec_vertex_hash(vertices@[j]@)].parents
                        == vertices@[j]@.parents by {
                    if vertex::spec_vertex_hash(vertices@[j]@) == vertex::spec_vertex_hash(v@) {
                        assert(vertices@[i as int]@ == v@);
                    } else {
                        assert(d0.vertex[vertex::spec_vertex_hash(vertices@[j]@)].parents
                            == vertices@[j]@.parents);
                    }
                }
            }
            i += 1;
        }
        assert(vs.take(vs.len() as int) =~= vs);
        Ok(dag)
    }

    /// Every conflict set is well formed
    proof fn lemma_inv_states(&self)
        requires
            self.wf(),
        ensures
            crate::consensus::constraint_graph::inv_states(self@.graph, self@.order, self@.state),
    {
        reveal(dag_inv);
    }

    /// Facts about the conflict set of `c`, from the invariant
    proof fn lemma_cs(&self, c: Constraint)
        requires
            self.wf(),
            self@.state.dom().contains(key_of(c)),
        ensures
            self@.state[key_of(c)].chit.dom().contains(c),
            self@.state[key_of(c)].confidence.dom().contains(c),
            self@.state[key_of(c)].count.dom().contains(c),
            self@.state[key_of(c)].parents.dom().contains(c),
            self@.state[key_of(c)].children.dom().contains(c),
            key_of(self@.state[key_of(c)].preferred) == key_of(c),
            key_of(self@.state[key_of(c)].last) == key_of(c),
            forall|d: Constraint| #[trigger]
                self@.state[key_of(c)].decision.dom().contains(d) ==> key_of(d) == key_of(c),
            0 <= rank_of(self@.order, c) < 2 * self@.next,
            forall|p: Constraint| #[trigger]
                self@.state[key_of(c)].parents[c].contains(p) ==> self@.state.dom().contains(
                    key_of(p),
                ) && rank_of(self@.order, p) < rank_of(self@.order, c),
            forall|d: Constraint| #[trigger]
                self@.state[key_of(c)].children[c].contains(d) ==> self@.state.dom().contains(
                    key_of(d),
                ) && rank_of(self@.order, c) < rank_of(self@.order, d) < 2 * self@.next,
            self.state@.dom().contains(key_of(c)),
            self.state@[key_of(c)]@ == self@.state[key_of(c)],
            self.state@[key_of(c)].wf(),
    {
        let d = self@;
        lemma_cs_facts(d.vertex, d.graph, d.order, d.next, d.state, d.frontier, c);
    }

    /// Ancestors of `c`, walking up the constraint graph for at most `fuel` steps
    fn walk_ancestors(&self, c: Constraint, Ghost(fuel): Ghost<nat>) -> (r: Vec<Constraint>)
        requires
            self.wf(),
            self@.state.dom().contains(key_of(c)),
            fuel > rank_of(self@.order, c),
        ensures
            r@ == walk(self@.state, self@.config.max_count, self@.config.max_confidence, fuel, c),
        decreases fuel,
    {
        proof {
            self.lemma_cs(c);
        }
        let cs = self.state.get(&c.conflict_set_key()).unwrap();
        let count = *cs.count.get(&c).unwrap();
        let confidence = *cs.confidence.get(&c).unwrap();
        // Stop gathering ancestors once they've been accepted according to Avalanche: counter at
        // least the maximum count, or, without conflict, confidence at least the maximum
        if count < self.config.max_count || (c.is_unity() && confidence
            < self.config.max_confidence) {
            let ps = cs.parents.get(&c).unwrap();
            let ghost f1 = (fuel - 1) as nat;
            assert forall|p: Constraint| #[trigger] ps@.contains(p) implies self@.state.dom().contains(
                key_of(p),
            ) && rank_of(self@.order, p) < rank_of(self@.order, c) by {
                assert(self@.state[key_of(c)].parents[c].contains(p));
            }
            let mut out: Vec<Constraint> = Vec::new();
            let mut i: usize = 0;
            while i < ps.len()
                invariant
                    i <= ps@.len(),
                    self.wf(),
                    ps@ == self@.state[key_of(c)].parents[c],
                    forall|p: Constraint| #[trigger]
                        ps@.contains(p) ==> self@.state.dom().contains(key_of(p)) && rank_of(
                            self@.order,
                            p,
                        ) < rank_of(self@.order, c),
                    fuel > rank_of(self@.order, c),
                    f1 == fuel - 1,
                    out@ == walk_list(
                        self@.state,
                        self@.config.max_count,
                        self@.config.max_confidence,
                        f1,
                        ps@.take(i as int),
                    ),
                decreases ps@.len() - i,
            {
                let p = ps.get(i);
                assert(ps@.contains(p));
                out.push(p);
                let sub = self.walk_ancestors(p, Ghost(f1));
                let ghost before = out@;
                let mut j: usize = 0;
                while j < sub.len()
                    invariant
                        j <= sub@.len(),
                        out@ == before + sub@.take(j as int),
                    decreases sub@.len() - j,
                {
                    out.push(sub[j]);
                    j += 1;
                    assert(out@ =~= before + sub@.take(j as int));
                }
                assert(sub@.take(sub@.len() as int) =~= sub@);
                assert(ps@.take(i + 1).drop_last() =~= ps@.take(i as int));
                i += 1;
            }
            assert(ps@.take(ps@.len() as int) =~= ps@);
            out
        } else {
            Vec::new()
        }
    }

    /// Look up every distinct ancestor of the given constraint which the Avalanche consensus
    /// protocol has not accepted yet, walking up from the constraint through the undecided ones
    pub fn get_ancestors(&self, c: &Constraint) -> (r: Result<Vec<Constraint>, Error>)
        requires
            self.wf(),
        ensures
            match r {
                Ok(v) => self@.state.dom().contains(key_of(*c)) && v@ == ancestor_seq(self@, *c),
                Err(e) => !self@.state.dom().contains(key_of(*c)) && e == Error::NotFound,
            },
    {
        if !self.state.contains_key(&c.conflict_set_key()) {
            Err(Error::NotFound)
        } else {
            let all = self.walk_ancestors(*c, Ghost((rank_of(self@.order, *c) + 1) as nat));
            let mut set: VecSet<Constraint> = VecSet::new();
            set.insert_all(&all);
            Ok(set.to_vec())
        }
    }

    /// Constraints in the progeny of `c` which hold a chit, walking down the constraint graph for
    /// at most `fuel` steps
    fn chits_in_progeny(&self, c: Constraint, Ghost(fuel): Ghost<nat>) -> (r: Vec<Constraint>)
        requires
            self.wf(),
            self@.state.dom().contains(key_of(c)),
            fuel + rank_of(self@.order, c) > 2 * self@.next,
        ensures
            r@ == progeny_chits(self@.state, fuel, c),
        decreases fuel,
    {
        proof {
            self.lemma_cs(c);
        }
        let cs = self.state.get(&c.conflict_set_key()).unwrap();
        let ds = cs.children.get(&c).unwrap();
        let ghost f1 = (fuel - 1) as nat;
        assert forall|d: Constraint| #[trigger] ds@.contains(d) implies self@.state.dom().contains(
            key_of(d),
        ) && rank_of(self@.order, c) < rank_of(self@.order, d) < 2 * self@.next by {
            assert(self@.state[key_of(c)].children[c].contains(d));
        }
        let mut out: Vec<Constraint> = Vec::new();
        let mut i: usize = 0;
        while i < ds.len()
            invariant
                i <= ds@.len(),
                self.wf(),
                ds@ == self@.state[key_of(c)].children[c],
                forall|d: Constraint| #[trigger]
                    ds@.contains(d) ==> self@.state.dom().contains(key_of(d)) && rank_of(
                        self@.order,
                        c,
                    ) < rank_of(self@.order, d) < 2 * self@.next,
                fuel + rank_of(self@.order, c) > 2 * self@.next,
                f1 == fuel - 1,
                out@ == progeny_list(self@.state, f1, ds@.take(i as int)),
            decreases ds@.len() - i,
        {
            let d = ds.get(i);
            assert(ds@.contains(d));
            let sub = self.chits_in_progeny(d, Ghost(f1));
            let ghost before = out@;
            let mut j: usize = 0;
            while j < sub.len()
                invariant
                    j <= sub@.len(),
                    out@ == before + sub@.take(j as int),
                decreases sub@.len() - j,
            {
                out.push(sub[j]);
                j += 1;
                assert(out@ =~= before + sub@.take(j as int));
            }
            assert(sub@.take(sub@.len() as int) =~= sub@);
            assert(ds@.take(i + 1).drop_last() =~= ds@.take(i as int));
            i += 1;
        }
        assert(ds@.take(ds@.len() as int) =~= ds@);
        if *cs.chit.get(&c).unwrap() {
            out.push(c);
        }
        out
    }

    /// Confidence in `c`: the number of distinct constraints holding a chit in its progeny
    fn confidence_of(&self, c: &Constraint) -> (r: usize)
        requires
            self.wf(),
            self@.state.dom().contains(key_of(*c)),
        ensures
            r == conf_of(self@.state, self@.order, self@.next, *c),
    {
        proof {
            self.lemma_cs(*c);
        }
        let all = self.chits_in_progeny(*c, Ghost((2 * self@.next - rank_of(self@.order, *c) + 1) as nat));
        let mut set: VecSet<Constraint> = VecSet::new();
        set.insert_all(&all);
        proof {
            crate::collections::lemma_seq_insert_all(Seq::<Constraint>::empty(), all@);
            assert(set@.to_set() =~= all@.to_set());
            assert(set@.no_duplicates());
            set@.unique_seq_to_set();
        }
        set.len()
    }

    /// Query the status of the specified [`Vertex`]: whether it is strongly preferred, and whether
    /// that is final (accepted or rejected)
    pub fn query(&self, vhash: &VertexHash) -> (r: Result<(bool, bool), Error>)
        requires
            self.wf(),
        ensures
            r == query_spec(self@, *vhash),
    {
        let unity = Constraint(*vhash, *vhash);
        let k = unity.conflict_set_key();
        match self.state.get(&k) {
            None => {
                return Err(Error::NotFound);
            },
            Some(cs) => {
                match cs.decision.get(&unity) {
                    Some(decision) => {
                        return Ok((*decision, true));
                    },
                    None => {},
                }
            },
        }
        let ancestors = match self.get_ancestors(&unity) {
            Ok(a) => a,
            Err(e) => {
                return Err(e);
            },
        };
        let ghost d = self@;
        proof {
            crate::collections::lemma_seq_insert_all(
                Seq::<Constraint>::empty(),
                walk(d.state, d.config.max_count, d.config.max_confidence, (rank_of(d.order, unity) + 1) as nat, unity),
            );
            self.lemma_inv_states();
            lemma_walk_keys(d.graph, d.order, d.state, d.config.max_count, d.config.max_confidence, (rank_of(d.order, unity) + 1) as nat, unity);
        }
        let mut all = true;
        let mut i: usize = 0;
        while i < ancestors.len()
            invariant
                i <= ancestors@.len(),
                self.wf(),
                self@ == d,
                ancestors@ == ancestor_seq(d, unity),
                forall|c: Constraint| #[trigger]
                    ancestors@.contains(c) ==> d.state.dom().contains(key_of(c)),
                all == forall|j: int| 0 <= j < i ==> #[trigger] preferred_status(d.state, ancestors@[j]),
            decreases ancestors@.len() - i,
        {
            let c = ancestors[i];
            assert(ancestors@.contains(c));
            let cs = self.state.get(&c.conflict_set_key()).unwrap();
            let status = match cs.decision.get(&c) {
                Some(decision) => *decision,
                None => cs.preferred.key_eq(&c),
            };
            assert(status == preferred_status(d.state, ancestors@[i as int]));
            all = all && status;
            i += 1;
        }
        proof {
            if all {
                assert forall|c: Constraint| #[trigger] ancestors@.contains(c) implies preferred_status(
                    d.state,
                    c,
                ) by {
                    let j = choose|j: int| 0 <= j < ancestors@.len() && ancestors@[j] == c;
                    assert(preferred_status(d.state, ancestors@[j]));
                }
            } else {
                let j = choose|j: int| 0 <= j < ancestors@.len() && !#[trigger] preferred_status(d.state, ancestors@[j]);
                assert(ancestors@.contains(ancestors@[j]));
            }
        }
        Ok((all, false))
    }

    /// Every constraint of a vertex in the graph has a conflict set
    proof fn lemma_vertex_keys(&self, h: VertexHash)
        requires
            self.wf(),
            self@.graph.contains(h),
        ensures
            self@.vertex.dom().contains(h),
            forall|c: Constraint| #[trigger]
                pcs_of(self@.vertex, h).contains(c) ==> self@.state.dom().contains(key_of(c)),
            self@.state.dom().contains(key_of(Constraint(h, h))),
    {
        reveal(dag_inv);
    }

    /// Return true if the specified [`Vertex`] is preferred over all its conflicts: each of its
    /// parent constraints is the preferred one of its conflict set
    pub fn is_preferred(&self, vhash: &VertexHash) -> (r: Result<bool, Error>)
        requires
            self.wf(),
        ensures
            !self@.vertex.dom().contains(*vhash) ==> r == Err::<bool, Error>(Error::NotFound),
            self@.vertex.dom().contains(*vhash) && !self@.graph.contains(*vhash) ==> r == Err::<
                bool,
                Error,
            >(Error::WaitingOnVertex),
            self@.graph.contains(*vhash) ==> r == Ok::<bool, Error>(
                forall|c: Constraint| #[trigger]
                    pcs_of(self@.vertex, *vhash).contains(c) ==> self@.state[key_of(c)].preferred
                        == c,
            ),
    {
        proof {
            if self@.graph.contains(*vhash) {
                self.lemma_vertex_keys(*vhash);
            }
            self.lemma_vertex_view(*vhash);
        }
        let vx = match self.vertex.get(vhash) {
            Some(v) => v,
            None => {
                return Err(Error::NotFound);
            },
        };
        if !self.graph.contains(vhash) {
            return Err(Error::WaitingOnVertex);
        }
        proof {
            self.lemma_vertex_keys(*vhash);
        }
        let pcs = vx.parent_constraints().to_vec();
        let ghost d = self@;
        let mut i: usize = 0;
        while i < pcs.len()
            invariant
                i <= pcs@.len(),
                self.wf(),
                self@ == d,
                pcs@ == pcs_of(d.vertex, *vhash),
                d.vertex.dom().contains(*vhash),
                d.graph.contains(*vhash),
                forall|c: Constraint| #[trigger]
                    pcs@.contains(c) ==> d.state.dom().contains(key_of(c)),
                forall|j: int| 0 <= j < i ==> #[trigger] d.state[key_of(pcs@[j])].preferred == pcs@[j],
            decreases pcs@.len() - i,
        {
            let c = pcs[i];
            assert(pcs@.contains(c));
            proof {
                self.lemma_cs(c);
            }
            let cs = self.state.get(&c.conflict_set_key()).unwrap();
            if !cs.preferred.key_eq(&c) {
                assert(pcs_of(d.vertex, *vhash).contains(c) && d.state[key_of(c)].preferred != c);
                return Ok(false);
            }
            i += 1;
        }
        assert forall|c: Constraint| #[trigger] pcs@.contains(c) implies d.state[key_of(c)].preferred == c by {
            let j = choose|j: int| 0 <= j < pcs@.len() && pcs@[j] == c;
            assert(d.state[key_of(pcs@[j])].preferred == pcs@[j]);
        }
        Ok(true)
    }

    /// Whether every one of `ps` is accepted
    fn all_accepted(&self, ps: &Vec<Constraint>) -> (r: bool)
        requires
            self.wf(),
            forall|p: Constraint| #[trigger] ps@.contains(p) ==> self@.state.dom().contains(key_of(p)),
        ensures
            r == all_accepted(self@.state, ps@),
    {
        let mut i: usize = 0;
        while i < ps.len()
            invariant
                i <= ps@.len(),
                forall|p: Constraint| #[trigger] ps@.contains(p) ==> self@.state.dom().contains(key_of(p)),
                forall|j: int| 0 <= j < i ==> #[trigger] accepted(self@.state, ps@[j]),
                self.wf(),
            decreases ps@.len() - i,
        {
            let p = ps[i];
            assert(ps@.contains(p));
            proof {
                self.lemma_cs(p);
            }
            let cs = self.state.get(&p.conflict_set_key()).unwrap();
            match cs.decision.get(&p) {
                Some(d) => {
                    if !*d {
                        return false;
                    }
                    assert(cs@.decision[p]);
                    assert(accepted(self@.state, ps@[i as int]));
                },
                None => {
                    return false;
                },
            }
            i += 1;
        }
        assert forall|p: Constraint| #[trigger] ps@.contains(p) implies accepted(self@.state, p) by {
            let j = choose|j: int| 0 <= j < ps@.len() && ps@[j] == p;
            assert(accepted(self@.state, ps@[j]));
        }
        true
    }

    /// Let a query result for a vertex reach its ancestor `c`
    fn vote(&mut self, c: Constraint, strongly_preferred: bool)
        requires
            old(self).wf(),
            old(self)@.state.dom().contains(key_of(c)),
        ensures
            final(self).wf(),
            final(self)@ == (DagView {
                state: vote_spec(
                    old(self)@.config,
                    old(self)@.order,
                    old(self)@.next,
                    old(self)@.state,
                    c,
                    strongly_preferred,
                ),
                ..old(self)@
            }),
            final(self)@.state.dom() == old(self)@.state.dom(),
    {
        let ghost d0 = self@;
        proof {
            self.lemma_cs(c);
            lemma_key_of(c, spec_opposite(c));
        }
        let k = c.conflict_set_key();
        if strongly_preferred {
            // Compute the confidence of this constraint and its conflict (if any)
            let c_conf = self.confidence_of(&c);
            let opp_conf = match c.opposite() {
                Some(opp) => self.confidence_of(&opp),
                None => 0,
            };
            let ghost cs0 = d0.state[k];
            // Update state variables
            let (c_count, c_parents) = match self.state.get_mut(&k) {
                Some(cs) => {
                    let n = cs.record_vote(c, c_conf, opp_conf);
                    (n, cs.parents.get(&c).unwrap().to_vec())
                },
                None => (0, Vec::new()),
            };
            let ghost cs1 = vote_cs(cs0, c, c_conf, opp_conf);
            assert(self@.state =~= d0.state.insert(k, cs1));
            assert(cs1.confidence.dom() =~= cs0.confidence.dom());
            assert(cs1.count.dom() =~= cs0.count.dom());
            proof {
                lemma_key_of(c, cs0.preferred);
                lemma_update_cs_inv(d0.vertex, d0.graph, d0.order, d0.next, d0.state, d0.frontier, k, cs1);
                assert(c_parents@ == cs0.parents[c]);
                assert forall|p: Constraint| #[trigger] c_parents@.contains(p) implies self@.state.dom().contains(
                    key_of(p),
                ) by {
                    assert(d0.state[key_of(c)].parents[c].contains(p));
                }
            }
            // See if a decision can be made: the vote count reaches the threshold, or all parents
            // are accepted and the confidence exceeds the threshold
            let ghost d1 = self@;
            if c_count >= self.config.max_count || (self.all_accepted(&c_parents) && c_conf
                > self.config.max_confidence) {
                match self.state.get_mut(&k) {
                    Some(cs) => {
                        cs.accept(c);
                    },
                    None => {},
                }
                assert(self@.state =~= d1.state.insert(k, accept_cs(cs1, c)));
                proof {
                    lemma_update_cs_inv(d1.vertex, d1.graph, d1.order, d1.next, d1.state, d1.frontier, k, accept_cs(cs1, c));
                }
            }
        } else {
            // If not strongly preferred, reset the counter
            match self.state.get_mut(&k) {
                Some(cs) => {
                    cs.reset_count(c);
                },
                None => {},
            }
            let ghost cs0 = d0.state[k];
            let ghost cs1 = ConflictSetView { count: cs0.count.insert(c, 0), ..cs0 };
            assert(self@.state =~= d0.state.insert(k, cs1));
            assert(cs1.count.dom() =~= cs0.count.dom());
            proof {
                lemma_update_cs_inv(d0.vertex, d0.graph, d0.order, d0.next, d0.state, d0.frontier, k, cs1);
            }
        }
    }

    /// Hashes of `ps` which wait for a query, in order
    fn members_pending(&self, ps: &Vec<VertexHash>) -> (r: Vec<VertexHash>)
        requires
            self.wf_containers(),
        ensures
            r@ == members_in(ps@, self@.pending_query),
    {
        let mut out: Vec<VertexHash> = Vec::new();
        let mut i: usize = 0;
        while i < ps.len()
            invariant
                i <= ps@.len(),
                self.wf_containers(),
                out@ == members_in(ps@.take(i as int), self@.pending_query),
            decreases ps@.len() - i,
        {
            assert(ps@.take(i + 1).drop_last() =~= ps@.take(i as int));
            if self.pending_query.contains(&ps[i]) {
                out.push(ps[i]);
            }
            i += 1;
        }
        assert(ps@.take(ps@.len() as int) =~= ps@);
        out
    }

    /// Record the result of an Avalanche preference query for the specified [`Vertex`]: whether
    /// the vertex was strongly preferred by a majority of the peers queried.
    ///
    /// Every vertex is represented by a unity constraint on its own ordering, so recording a query
    /// for a vertex records it for its unity constraint: that constraint gets a chit, and the
    /// result reaches each of its ancestors that the consensus has not accepted yet.
    pub fn record_query_result(&mut self, vhash: &VertexHash, strongly_preferred: bool) -> (r: Result<(), Error>)
        requires
            old(self).wf(),
        ensures
            final(self).wf(),
            final(self)@ == after_record(old(self)@, *vhash, strongly_preferred),
            unity_never_rejected(old(self)@.state) ==> unity_never_rejected(final(self)@.state),
            unity_never_rejected(old(self)@.state) ==> forall|h: VertexHash|
                (#[trigger] query_spec(old(self)@, h) matches Ok((_, true))) ==> query_spec(
                    final(self)@,
                    h,
                ) == query_spec(old(self)@, h),
            match r {
                Ok(()) => recordable(old(self)@, *vhash) && final(self)@ == recorded(
                    old(self)@,
                    *vhash,
                    strongly_preferred,
                ),
                Err(e) => final(self)@ == old(self)@ && record_refusal(old(self)@, *vhash, e),
            },
    {
        let ghost d0 = self@;
        proof {
            self.lemma_vertex_view(*vhash);
        }
        // Check that we have the vertex, and that we are able to record a query for it
        let vx = match self.vertex.get(vhash) {
            Some(v) => v.clone(),
            None => {
                return Err(Error::NotFound);
            },
        };
        let waiting = self.members_pending(&vx.parents);
        if waiting.len() > 0 {
            return Err(Error::WaitingOnParents(waiting));
        }
        if !self.graph.contains(vhash) {
            return Err(Error::WaitingOnVertex);
        }
        if !self.pending_query.remove(vhash) {
            assert(self@.pending_query =~= d0.pending_query);
            assert(self@ == d0);
            return Err(Error::AlreadyQueried);
        }
        let ghost d1 = self@;
        assert(d1 == DagView { pending_query: d0.pending_query.remove(*vhash), ..d0 });
        // Award a chit to the unity constraint representing this vertex
        let unity = Constraint(*vhash, *vhash);
        proof {
            self.lemma_vertex_keys(*vhash);
            self.lemma_cs(unity);
        }
        let k = unity.conflict_set_key();
        match self.state.get_mut(&k) {
            Some(cs) => {
                cs.set_chit(unity);
            },
            None => {},
        }
        let ghost cs1 = ConflictSetView { chit: d1.state[k].chit.insert(unity, true), ..d1.state[k] };
        assert(self@.state =~= d1.state.insert(k, cs1));
        assert(cs1.chit.dom() =~= d1.state[k].chit.dom());
        proof {
            lemma_update_cs_inv(d1.vertex, d1.graph, d1.order, d1.next, d1.state, d1.frontier, k, cs1);
        }
        let ghost d2 = self@;
        // Look up ancestors and let the result reach each of them
        let ancestors = match self.get_ancestors(&unity) {
            Ok(a) => a,
            Err(e) => {
                return Err(e);
            },
        };
        proof {
            crate::collections::lemma_seq_insert_all(
                Seq::<Constraint>::empty(),
                walk(d2.state, d2.config.max_count, d2.config.max_confidence, (rank_of(d2.order, unity) + 1) as nat, unity),
            );
            self.lemma_inv_states();
            lemma_walk_keys(d2.graph, d2.order, d2.state, d2.config.max_count, d2.config.max_confidence, (rank_of(d2.order, unity) + 1) as nat, unity);
        }
        let mut i: usize = 0;
        while i < ancestors.len()
            invariant
                i <= ancestors@.len(),
                self.wf(),
                ancestors@ == ancestor_seq(d2, unity),
                forall|c: Constraint| #[trigger]
                    ancestors@.contains(c) ==> d2.state.dom().contains(key_of(c)),
                self@.state.dom() == d2.state.dom(),
                self@ == (DagView {
                    state: vote_all(d2.config, d2.order, d2.next, d2.state, ancestors@.take(i as int), strongly_preferred),
                    ..d2
                }),
            decreases ancestors@.len() - i,
        {
            let c = ancestors[i];
            assert(ancestors@.contains(c));
            self.vote(c, strongly_preferred);
            assert(ancestors@.take(i + 1).drop_last() =~= ancestors@.take(i as int));
            i += 1;
        }
        assert(ancestors@.take(ancestors@.len() as int) =~= ancestors@);
        proof {
            if unity_never_rejected(d0.state) {
                lemma_record_unity(d0, *vhash, strongly_preferred);
                assert forall|h: VertexHash|
                    (#[trigger] query_spec(d0, h) matches Ok((_, true))) implies query_spec(self@, h)
                    == query_spec(d0, h) by {
                    let b = query_spec(d0, h)->Ok_0.0;
                    lemma_decision_final(d0, h, b, *vhash, strongly_preferred);
                }
            }
        }
        Ok(())
    }

    /// When we first observed the known vertex `h`
    fn timestamp_of(&self, h: &VertexHash) -> (t: i64)
        requires
            self.wf(),
            self@.vertex.dom().contains(*h),
        ensures
            t == self@.vertex[*h].timestamp,
    {
        proof {
            self.lemma_vertex_view(*h);
        }
        self.vertex.get(h).unwrap().timestamp
    }

    /// The frontier only holds known vertices
    pub proof fn lemma_frontier_known(&self)
        requires
            self.wf(),
        ensures
            forall|h: VertexHash| #[trigger] self@.frontier.contains(h) ==> self@.vertex.dom().contains(h),
    {
        reveal(dag_inv);
    }

    /// Get the latest vertices which have no children, in the order we've observed them
    pub fn get_frontier(&mut self) -> (r: Vec<VertexHash>)
        requires
            old(self).wf(),
        ensures
            final(self).wf(),
            final(self)@ == old(self)@,
            r@.to_set() == old(self)@.frontier,
            distinct(r@),
            sorted_by_time(old(self)@.vertex, r@),
    {
        let ghost d = self@;
        proof {
            self.lemma_frontier_known();
        }
        let items = self.frontier.to_vec();
        let mut out: Vec<VertexHash> = Vec::new();
        let mut i: usize = 0;
        while i < items.len()
            invariant
                i <= items@.len(),
                self.wf(),
                self@ == d,
                items@ == self.frontier@,
                distinct(items@),
                items@.to_set() == d.frontier,
                forall|h: VertexHash| #[trigger] d.frontier.contains(h) ==> d.vertex.dom().contains(h),
                out@.to_set() == items@.take(i as int).to_set(),
                distinct(out@),
                sorted_by_time(d.vertex, out@),
                forall|a: int| 0 <= a < out@.len() ==> d.vertex.dom().contains(#[trigger] out@[a]),
            decreases items@.len() - i,
        {
            let x = items[i];
            assert(items@.to_set().contains(x));
            proof {
                self.lemma_vertex_view(x);
            }
            let tx = self.vertex.get(&x).unwrap().timestamp;
            // Find the first position holding a later vertex
            let mut pos: usize = 0;
            while pos < out.len() && self.timestamp_of(&out[pos]) <= tx
                invariant
                    pos <= out@.len(),
                    self.wf(),
                    self@ == d,
                    tx == d.vertex[x].timestamp,
                    forall|a: int| 0 <= a < out@.len() ==> d.vertex.dom().contains(#[trigger] out@[a]),
                    forall|a: int| 0 <= a < pos ==> #[trigger] d.vertex[out@[a]].timestamp <= tx,
                decreases out@.len() - pos,
            {
                pos += 1;
            }
            let ghost before = out@;
            proof {
                assert(forall|a: int| pos <= a < before.len() ==> #[trigger] d.vertex[before[a]].timestamp > tx) by {
                    if pos < before.len() {
                        assert forall|a: int| pos <= a < before.len() implies #[trigger] d.vertex[before[a]].timestamp > tx by {
                            if a > pos {
                                assert(d.vertex[before[pos as int]].timestamp <= d.vertex[before[a]].timestamp);
                            }
                        }
                    }
                }
            }
            out.insert(pos, x);
            proof {
                let t0 = items@.take(i as int);
                let t1 = items@.take(i + 1);
                assert(!before.contains(x)) by {
                    if before.contains(x) {
                        assert(before.to_set().contains(x));
                        let j = choose|j: int| 0 <= j < t0.len() && t0[j] == x;
                        assert(items@[j] == items@[i as int]);
                    }
                }
                assert forall|a: int, b: int| 0 <= a < b < out@.len() implies out@[a] != out@[b] by {
                    if a < pos && b < pos {
                        assert(before[a] != before[b]);
                    } else if a < pos && b == pos {
                        assert(before.contains(before[a]));
                    } else if a < pos {
                        assert(before[a] != before[b - 1]);
                    } else if a == pos {
                        assert(before.contains(before[b - 1]));
                    } else {
                        assert(before[a - 1] != before[b - 1]);
                    }
                }
                assert forall|a: int, b: int| 0 <= a < b < out@.len() implies #[trigger] d.vertex[out@[a]].timestamp
                    <= #[trigger] d.vertex[out@[b]].timestamp by {
                    if a < pos && b < pos {
                    } else if a < pos && b == pos {
                    } else if a < pos {
                        assert(d.vertex[before[a]].timestamp <= d.vertex[before[b - 1]].timestamp);
                    } else if a == pos {
                    } else {
                        assert(d.vertex[before[a - 1]].timestamp <= d.vertex[before[b - 1]].timestamp);
                    }
                }
                assert forall|h: VertexHash| #[trigger] out@.to_set().contains(h) == t1.to_set().contains(h) by {
                    if out@.contains(h) {
                        let j = choose|j: int| 0 <= j < out@.len() && out@[j] == h;
                        if j < pos {
                            assert(before[j] == h);
                            assert(before.to_set().contains(h));
                            let m = choose|m: int| 0 <= m < t0.len() && t0[m] == h;
                            assert(t1[m] == h);
                        } else if j == pos {
                            assert(t1[i as int] == h);
                        } else {
                            assert(before[j - 1] == h);
                            assert(before.to_set().contains(h));
                            let m = choose|m: int| 0 <= m < t0.len() && t0[m] == h;
                            assert(t1[m] == h);
                        }
                    }
                    if t1.contains(h) {
                        let m = choose|m: int| 0 <= m < t1.len() && t1[m] == h;
                        if m < i {
                            assert(t0[m] == h);
                            assert(t0.to_set().contains(h));
                            let j = choose|j: int| 0 <= j < before.len() && before[j] == h;
                            if j < pos {
                                assert(out@[j] == h);
                            } else {
                                assert(out@[j + 1] == h);
                            }
                        } else {
                            assert(out@[pos as int] == h);
                        }
                    }
                }
                assert(out@.to_set() =~= t1.to_set());
                assert forall|a: int| 0 <= a < out@.len() implies d.vertex.dom().contains(#[trigger] out@[a]) by {
                    if a < pos {
                        assert(out@[a] == before[a]);
                    } else if a > pos {
                        assert(out@[a] == before[a - 1]);
                    }
                }
            }
            i += 1;
        }
        assert(items@.take(items@.len() as int) =~= items@);
        out
    }

    /// Look up a known vertex
    pub fn get_vertex(&self, vhash: &VertexHash) -> (r: Option<Arc<Vertex>>)
        requires
            self.wf(),
        ensures
            match r {
                Some(v) => self@.vertex.dom().contains(*vhash) && v@ == self@.vertex[*vhash],
                None => !self@.vertex.dom().contains(*vhash),
            },
    {
        proof {
            self.lemma_vertex_view(*vhash);
        }
        match self.vertex.get(vhash) {
            Some(v) => Some(Arc::new(v.clone())),
            None => None,
        }
    }

    /// Configuration parameters
    pub fn config(&self) -> (r: Config)
        ensures
            r == self@.config,
    {
        self.config
    }

    /// Hashes of every known vertex
    pub fn known_vertices(&self) -> (r: Vec<VertexHash>)
        requires
            self.wf(),
        ensures
            distinct(r@),
            r@.to_set() == self@.vertex.dom(),
    {
        assert(self@.vertex.dom() =~= self.vertex@.dom());
        self.vertex.keys_vec()
    }

    /// Hashes of the vertices in the graph, in the order they were inserted
    pub fn graph_vertices(&self) -> (r: Vec<VertexHash>)
        requires
            self.wf(),
        ensures
            distinct(r@),
            r@.to_set() == self@.graph,
    {
        self.graph.to_vec()
    }

    /// Hashes of the vertices waiting for the result of a query
    pub fn pending_queries(&self) -> (r: Vec<VertexHash>)
        requires
            self.wf(),
        ensures
            distinct(r@),
            r@.to_set() == self@.pending_query,
    {
        self.pending_query.to_vec()
    }

    /// Hashes of the vertices at the frontier of the graph
    pub fn frontier_hashes(&self) -> (r: Vec<VertexHash>)
        requires
            self.wf(),
        ensures
            distinct(r@),
            r@.to_set() == self@.frontier,
    {
        self.frontier.to_vec()
    }

    /// Number of vertices with an entry of known children
    pub fn children_entries(&self) -> (r: usize)
        requires
            self.wf(),
        ensures
            r == self@.children.len(),
    {
        assert(self@.children.dom() =~= self.children@.dom());
        self.children.len()
    }

    /// Number of conflict sets
    pub fn conflict_set_count(&self) -> (r: usize)
        requires
            self.wf(),
        ensures
            r == self@.state.len(),
    {
        assert(self@.state.dom() =~= self.state@.dom());
        self.state.len()
    }

    /// The conflict set of `c`, if it has one
    pub fn conflict_set(&self, c: &Constraint) -> (r: Option<&ConflictSet>)
        requires
            self.wf(),
        ensures
            match r {
                Some(cs) => self@.state.dom().contains(key_of(*c)) && cs@ == self@.state[key_of(*c)]
                    && cs.wf(),
                None => !self@.state.dom().contains(key_of(*c)),
            },
    {
        self.state.get(&c.conflict_set_key())
    }

    /// Make a vertex known, outside the graph
    pub fn learn_vertex(&mut self, vx: &Arc<Vertex>)
        requires
            old(self).wf(),
            !old(self)@.graph.contains(vertex::spec_vertex_hash(vx@)),
        ensures
            final(self).wf(),
            final(self)@ == (DagView {
                vertex: old(self)@.vertex.insert(vertex::spec_vertex_hash(vx@), vx@),
                ..old(self)@
            }),
    {
        let ghost d0 = self@;
        let v: &Vertex = &**vx;
        let h = v.hash();
        self.vertex.insert(h, v.clone());
        assert(self@.vertex =~= d0.vertex.insert(h, v@));
        proof {
            lemma_learn_inv(d0.vertex, d0.graph, d0.order, d0.next, d0.state, d0.frontier, h, v@);
        }
    }

    /// Give a vertex an (empty) entry of known children, unless it has one
    pub fn expect_children(&mut self, vhash: &VertexHash)
        requires
            old(self).wf(),
        ensures
            final(self).wf(),
            final(self)@ == (DagView {
                children: if old(self)@.children.dom().contains(*vhash) {
                    old(self)@.children
                } else {
                    old(self)@.children.insert(*vhash, Seq::empty())
                },
                ..old(self)@
            }),
    {
        let ghost d0 = self@;
        if !self.children.contains_key(vhash) {
            self.children.insert(*vhash, VecSet::new());
        }
        assert(self@.children =~= (if d0.children.dom().contains(*vhash) {
            d0.children
        } else {
            d0.children.insert(*vhash, Seq::empty())
        }));
    }

    /// Add a known vertex to the frontier
    pub fn add_to_frontier(&mut self, vhash: &VertexHash)
        requires
            old(self).wf(),
            old(self)@.vertex.dom().contains(*vhash),
        ensures
            final(self).wf(),
            final(self)@ == (DagView { frontier: old(self)@.frontier.insert(*vhash), ..old(self)@ }),
    {
        let ghost d0 = self@;
        self.frontier.insert(*vhash);
        proof {
            reveal(dag_inv);
            assert forall|h: VertexHash| #[trigger] self@.frontier.contains(h) implies self@.vertex.dom().contains(h) by {
                if h != *vhash {
                    assert(d0.frontier.contains(h));
                }
            }
            assert(crate::consensus::constraint_graph::inv_graph(self@.vertex, self@.graph, self@.order, self@.next, self@.frontier));
        }
    }

    /// Record the decision `d` for constraint `c`, or forget the decision when `d` is `None`
    pub fn set_decision(&mut self, c: &Constraint, d: Option<bool>)
        requires
            old(self).wf(),
        ensures
            final(self).wf(),
            final(self)@ == (DagView {
                state: if old(self)@.state.dom().contains(key_of(*c)) {
                    old(self)@.state.insert(
                        key_of(*c),
                        ConflictSetView {
                            decision: match d {
                                Some(b) => old(self)@.state[key_of(*c)].decision.insert(*c, b),
                                None => old(self)@.state[key_of(*c)].decision.remove(*c),
                            },
                            ..old(self)@.state[key_of(*c)]
                        },
                    )
                } else {
                    old(self)@.state
                },
                ..old(self)@
            }),
    {
        let ghost d0 = self@;
        let k = c.conflict_set_key();
        if !self.state.contains_key(&k) {
            return;
        }
        proof {
            self.lemma_cs(*c);
        }
        let ghost cs0 = d0.state[k];
        let ghost cs1 = ConflictSetView {
            decision: match d {
                Some(b) => cs0.decision.insert(*c, b),
                None => cs0.decision.remove(*c),
            },
            ..cs0
        };
        match self.state.get_mut(&k) {
            Some(cs) => {
                match d {
                    Some(b) => {
                        cs.decision.insert(*c, b);
                    },
                    None => {
                        cs.decision.remove(c);
                    },
                }
            },
            None => {},
        }
        assert(self@.state =~= d0.state.insert(k, cs1));
        proof {
            lemma_update_cs_inv(d0.vertex, d0.graph, d0.order, d0.next, d0.state, d0.frontier, k, cs1);
        }
    }

    /// Make `c` the preferred constraint of its conflict set, or else its conflict
    pub fn set_preference(&mut self, c: &Constraint, preferred: bool)
        requires
            old(self).wf(),
            preferred || !spec_is_unity(*c),
        ensures
            final(self).wf(),
            final(self)@ == (DagView {
                state: if old(self)@.state.dom().contains(key_of(*c)) {
                    old(self)@.state.insert(
                        key_of(*c),
                        ConflictSetView {
                            preferred: if preferred {
                                *c
                            } else {
                                spec_opposite(*c)
                            },
                            ..old(self)@.state[key_of(*c)]
                        },
                    )
                } else {
                    old(self)@.state
                },
                ..old(self)@
            }),
    {
        let ghost d0 = self@;
        let k = c.conflict_set_key();
        if !self.state.contains_key(&k) {
            return;
        }
        proof {
            self.lemma_cs(*c);
            lemma_key_of(*c, spec_opposite(*c));
        }
        let p = if preferred {
            *c
        } else {
            Constraint(c.1, c.0)
        };
        let ghost cs0 = d0.state[k];
        let ghost cs1 = ConflictSetView { preferred: p, ..cs0 };
        match self.state.get_mut(&k) {
            Some(cs) => {
                cs.preferred = p;
            },
            None => {},
        }
        assert(self@.state =~= d0.state.insert(k, cs1));
        proof {
            lemma_update_cs_inv(d0.vertex, d0.graph, d0.order, d0.next, d0.state, d0.frontier, k, cs1);
        }
    }

    /// The model of the known vertices is that of the stored ones
    proof fn lemma_vertex_view(&self, h: VertexHash)
        ensures
            self@.vertex.dom().contains(h) == self.vertex@.dom().contains(h),
            self.vertex@.dom().contains(h) ==> self@.vertex[h] == self.vertex@[h]@,
    {
    }

}

} // verus!
