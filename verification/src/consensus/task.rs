//! Decisions of the consensus task: how each requested action changes the DAG, and what it
//! answers
use crate::consensus::dag::{self, DAG};
use crate::consensus::namespace::NamespaceId;
use crate::consensus::transaction::TxRoot;
use crate::consensus::vertex::{self, Vertex, VertexHash, VertexView};
use std::sync::Arc;
use vstd::prelude::*;

verus! {

/// Event channel capacity. Old events will be dropped if channel exceeds capacity.
pub const CONSENSUS_EVENT_CHAN_CAPACITY: usize = 32;

/// Time of the genesis vertex, in RFC 2822 format
pub const GENESIS_TIME: &'static str = "Wed, 18 Feb 2015 23:16:09 GMT";

/// Instant of an RFC 2822 date and time, in microseconds since the UNIX epoch, as
/// `chrono::DateTime::parse_from_rfc2822` reads it; `None` where chrono refuses the text
pub uninterp spec fn rfc2822_micros(s: Seq<char>) -> Option<i64>;

/// Calls `chrono::DateTime::parse_from_rfc2822` and takes the instant it reads in microseconds
/// since the UNIX epoch (`timestamp_micros`). The contract only names the result: it depends on
/// the text alone.
#[verifier::external_body]
fn parse_rfc2822_micros(s: &str) -> (r: Option<i64>)
    ensures
        r == rfc2822_micros(s@),
{
    match chrono::DateTime::parse_from_rfc2822(s) {
        Ok(t) => Some(t.timestamp_micros()),
        Err(_) => None,
    }
}

/// Errors of the consensus task
#[derive(Debug, PartialEq, Eq)]
pub enum Error {
    DAG(dag::Error),
}

/// Genesis configuration
#[derive(Debug, Clone, Copy)]
pub struct GenesisConfig {}

/// The genesis vertex, observed at `timestamp`: version 1, height 0, no parents, the default
/// (all zero) namespace and transaction root
pub open spec fn is_genesis(v: VertexView, timestamp: i64) -> bool {
    &&& v.version == 1
    &&& v.height == 0
    &&& v.parents == Seq::<VertexHash>::empty()
    &&& v.namespace_id@ == Seq::new(32, |i: int| 0u8)
    &&& v.root@ == Seq::new(32, |i: int| 0u8)
    &&& v.timestamp == timestamp
}

impl GenesisConfig {
    /// Create the genesis vertex, observed at the genesis time; `None` if that time cannot be
    /// read
    pub fn to_vertex(&self) -> (r: Option<Arc<Vertex>>)
        ensures
            match rfc2822_micros(GENESIS_TIME@) {
                Some(t) => r matches Some(v) && is_genesis(v@, t),
                None => r is None,
            },
    {
        match parse_rfc2822_micros(GENESIS_TIME) {
            Some(t) => Some(Arc::new(self.to_vertex_at(t))),
            None => None,
        }
    }

    /// Create the genesis vertex, observed at `timestamp`
    pub fn to_vertex_at(&self, timestamp: i64) -> (v: Vertex)
        ensures
            is_genesis(v@, timestamp),
    {
        Vertex {
            version: 1,
            height: 0,
            parents: Vec::new(),
            namespace_id: NamespaceId::default(),
            root: TxRoot::default(),
            timestamp,
        }
    }
}

/// Configuration details for the consensus task
#[derive(Debug, Clone)]
pub struct Config {
    /// Genesis block details
    pub genesis: GenesisConfig,
    /// Path to the consensus data directory
    pub datadir: String,
    /// DAG configuration
    pub dag: dag::Config,
}

/// Actions the consensus task can be asked to perform
pub enum Request {
    GetAcceptedFrontier,
    GetPreference(VertexHash),
    GetVertex(VertexHash),
    RecordPeerPreference { vhash: VertexHash, preference: bool },
    SubmitVertex(Arc<Vertex>),
}

/// Answers of the consensus task to requested actions
pub enum Reply {
    /// The frontier of the graph, in the order its vertices were observed
    Frontier(Vec<Arc<Vertex>>),
    /// Whether the vertex is strongly preferred, and whether that is final
    Preference(Option<(bool, bool)>),
    /// The vertex, if known
    Vertex(Option<Arc<Vertex>>),
    /// The peer preference was handed to the DAG; no answer is owed
    Recorded,
    /// The known children waiting on the inserted vertex, or why it was not inserted
    Submitted(Result<Vec<VertexHash>, Error>),
}

/// Runtime state of the consensus task
pub struct Task {
    dag: DAG,
}

impl View for Task {
    type V = dag::DagView;

    closed spec fn view(&self) -> dag::DagView {
        self.dag@
    }
}

impl Task {
    /// The task's DAG is well formed
    pub closed spec fn wf(&self) -> bool {
        self.dag.wf()
    }

    /// Construct a new task, whose DAG holds the genesis vertex
    pub fn new(config: &Config, genesis: &Arc<Vertex>) -> (r: Result<Task, Error>)
        requires
            genesis@.parents.len() == 0,
        ensures
            match r {
                Ok(t) => t.wf() && t@ == dag::initial_dag(
                    dag::empty_view(config.dag),
                    seq![genesis@],
                ),
                Err(_) => false,
            },
    {
        let vs: [&Arc<Vertex>; 1] = [genesis];
        let ghost views = vertex::views_of(vs@);
        assert(views =~= seq![genesis@]);
        match DAG::with_initial_vertices(config.dag, &vs) {
            Ok(dag) => Ok(Task { dag }),
            Err(e) => Err(Error::DAG(e)),
        }
    }

    /// The vertices of the frontier, in the order they were observed
    fn frontier(&mut self) -> (r: Vec<Arc<Vertex>>)
        requires
            old(self).wf(),
        ensures
            final(self).wf(),
            final(self)@ == old(self)@,
            frontier_reply(old(self)@, r@),
    {
        let ghost d = self@;
        proof {
            self.dag.lemma_frontier_known();
        }
        let hashes = self.dag.get_frontier();
        let mut out: Vec<Arc<Vertex>> = Vec::new();
        let mut i: usize = 0;
        while i < hashes.len()
            invariant
                i <= hashes@.len(),
                self.wf(),
                self@ == d,
                hashes@.to_set() == d.frontier,
                forall|h: VertexHash| #[trigger] d.frontier.contains(h) ==> d.vertex.dom().contains(h),
                out@.len() == i,
                forall|j: int| 0 <= j < i ==> (#[trigger] out@[j])@ == d.vertex[hashes@[j]],
            decreases hashes@.len() - i,
        {
            assert(hashes@.to_set().contains(hashes@[i as int]));
            match self.dag.get_vertex(&hashes[i]) {
                Some(v) => {
                    out.push(v);
                },
                None => {},
            }
            i += 1;
        }
        assert(frontier_reply(d, out@) ) by {
            assert(out@.len() == hashes@.len());
        }
        out
    }

    /// Perform a requested action. Returns the answer to the request, and the new frontier of the
    /// graph where a vertex was inserted.
    pub fn handle(&mut self, request: Request) -> (r: (Reply, Option<Vec<Arc<Vertex>>>))
        requires
            old(self).wf(),
        ensures
            final(self).wf(),
            handled(old(self)@, request, final(self)@, r.0, r.1),
    {
        match request {
            Request::GetAcceptedFrontier => {
                let f = self.frontier();
                (Reply::Frontier(f), None)
            },
            Request::GetPreference(vhash) => {
                let p = match self.dag.query(&vhash) {
                    Ok(p) => Some(p),
                    Err(_) => None,
                };
                (Reply::Preference(p), None)
            },
            Request::GetVertex(vhash) => (Reply::Vertex(self.dag.get_vertex(&vhash)), None),
            Request::RecordPeerPreference { vhash, preference } => {
                let _ = self.dag.record_query_result(&vhash, preference);
                (Reply::Recorded, None)
            },
            Request::SubmitVertex(vertex) => {
                match self.dag.try_insert(&vertex) {
                    Ok(waiting) => {
                        // Get the latest frontier
                        let f = self.frontier();
                        (Reply::Submitted(Ok(waiting)), Some(f))
                    },
                    Err(e) => (Reply::Submitted(Err(Error::DAG(e))), None),
                }
            },
        }
    }
}

/// A peer's preference is recorded as that very query result: handling it leaves the DAG exactly
/// as recording the result with the same preference does, so a preference for the vertex counts as
/// a strongly preferred result, and the task answers that it recorded it
pub proof fn lemma_record_peer_preference(
    d: dag::DagView,
    vhash: VertexHash,
    preference: bool,
    d2: dag::DagView,
    reply: Reply,
    event: Option<Vec<Arc<Vertex>>>,
)
    requires
        handled(d, Request::RecordPeerPreference { vhash, preference }, d2, reply, event),
    ensures
        d2 == dag::after_record(d, vhash, preference),
        reply == Reply::Recorded,
        event is None,
{
}

/// `r` holds the vertices of the frontier of `d`, in the order they were observed
pub open spec fn frontier_reply(d: dag::DagView, r: Seq<Arc<Vertex>>) -> bool {
    exists|hs: Seq<VertexHash>|
        #![trigger hs.to_set()]
        {
            &&& hs.to_set() == d.frontier
            &&& crate::collections::distinct(hs)
            &&& dag::sorted_by_time(d.vertex, hs)
            &&& r.len() == hs.len()
            &&& forall|i: int| 0 <= i < r.len() ==> (#[trigger] r[i])@ == d.vertex[hs[i]]
        }
}

/// How a requested action changes the DAG from `d` to `d2`, what it answers, and which frontier
/// it announces
pub open spec fn handled(
    d: dag::DagView,
    request: Request,
    d2: dag::DagView,
    reply: Reply,
    event: Option<Vec<Arc<Vertex>>>,
) -> bool {
    match request {
        Request::GetAcceptedFrontier => {
            &&& d2 == d
            &&& reply matches Reply::Frontier(f) && frontier_reply(d, f@)
            &&& event is None
        },
        Request::GetPreference(h) => {
            &&& d2 == d
            &&& reply == Reply::Preference(
                match dag::query_spec(d, h) {
                    Ok(p) => Some(p),
                    Err(_) => None,
                },
            )
            &&& event is None
        },
        Request::GetVertex(h) => {
            &&& d2 == d
            &&& reply matches Reply::Vertex(v) && match v {
                Some(x) => d.vertex.dom().contains(h) && x@ == d.vertex[h],
                None => !d.vertex.dom().contains(h),
            }
            &&& event is None
        },
        Request::RecordPeerPreference { vhash, preference } => {
            &&& if dag::recordable(d, vhash) {
                d2 == dag::recorded(d, vhash, preference)
            } else {
                d2 == d
            }
            &&& reply == Reply::Recorded
            &&& event is None
        },
        Request::SubmitVertex(v) => {
            let h = vertex::spec_vertex_hash(v@);
            if d.check(v@) == dag::CheckOutcome::Passed {
                &&& d2 == dag::insert_spec(d, v@)
                &&& reply matches Reply::Submitted(Ok(w)) && w@ == dag::outside_graph(
                    d2.children[h],
                    d2.graph,
                )
                &&& event matches Some(f) && frontier_reply(d2, f@)
            } else {
                &&& d2 == match d.check(v@) {
                    dag::CheckOutcome::Missing(w) => dag::learn_spec(d, v@, w),
                    dag::CheckOutcome::Waiting(w) => dag::learn_spec(d, v@, w),
                    _ => d,
                }
                &&& reply matches Reply::Submitted(Err(Error::DAG(e))) && dag::reports(
                    e,
                    d.check(v@),
                    v@,
                )
                &&& event is None
            }
        },
    }
}

} // verus!
