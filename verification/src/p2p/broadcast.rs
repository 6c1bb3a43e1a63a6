//! Broadcasts exchanged over the gossipsub network, and how their validity is reported back
use crate::consensus::vertex::{spec_wire, Error as VertexError, Vertex, VertexView};
use crate::consensus::wire::decoded;
use libp2p::gossipsub::TopicHash;
use libp2p::PeerId;
use std::sync::Arc;
use vstd::prelude::*;

verus! {

#[verifier::external_type_specification]
#[verifier::external_body]
pub struct ExPeerId(PeerId);

#[verifier::external_type_specification]
#[verifier::external_body]
pub struct ExTopicHash(TopicHash);

/// Copies a libp2p `PeerId`, which is `Copy`: the copy equals the original.
#[verifier::external_body]
fn copy_peer_id(id: &PeerId) -> (r: PeerId)
    ensures
        r == *id,
{
    *id
}

/// Errors decoding a broadcast
#[derive(Debug, PartialEq, Eq)]
pub enum Error {
    EmptyBroadcast,
    Vertex(crate::consensus::vertex::Error),
}

/// Data that can be broadcast to/from the gossipsub network
#[derive(Clone, Debug)]
pub enum BroadcastData {
    Vertex(Arc<Vertex>),
}

impl From<Arc<Vertex>> for BroadcastData {
    fn from(vx: Arc<Vertex>) -> (r: BroadcastData) {
        BroadcastData::Vertex(vx)
    }
}

impl vstd::std_specs::convert::FromSpecImpl<Arc<Vertex>> for BroadcastData {
    open spec fn obeys_from_spec() -> bool {
        true
    }

    open spec fn from_spec(vx: Arc<Vertex>) -> BroadcastData {
        BroadcastData::Vertex(vx)
    }
}

impl BroadcastData {
    /// Wire encoding of the data, optionally performing the sanity checks of the vertex first
    pub fn to_wire(&self, check: bool) -> (r: Result<Vec<u8>, Error>)
        ensures
            match self {
                BroadcastData::Vertex(vx) => match r {
                    Ok(bytes) => bytes@ == spec_wire(vx@) && (check ==> vx@.sane()),
                    Err(Error::Vertex(e)) => check && !vx@.sane() && vx@.sanity_error(e),
                    Err(_) => false,
                },
            },
    {
        match self {
            BroadcastData::Vertex(vx) => match vx.to_wire(check) {
                Ok(bytes) => Ok(bytes),
                Err(e) => Err(Error::Vertex(e)),
            },
        }
    }

    /// Read broadcast data back from its wire encoding, optionally performing the sanity checks
    /// of the vertex. Empty bytes hold no vertex.
    pub fn from_wire(bytes: &[u8], check: bool) -> (r: Result<BroadcastData, Error>)
        ensures
            bytes@.len() == 0 ==> r == Err::<BroadcastData, Error>(Error::EmptyBroadcast),
            bytes@.len() > 0 ==> match r {
                Ok(BroadcastData::Vertex(vx)) => spec_wire(vx@) == bytes@ && (check ==> vx@.sane()),
                Err(Error::Vertex(VertexError::Decode)) => forall|v: VertexView| spec_wire(v) != bytes@,
                Err(Error::Vertex(e)) => check && spec_wire(decoded(bytes@)) == bytes@
                    && !decoded(bytes@).sane() && decoded(bytes@).sanity_error(e),
                Err(Error::EmptyBroadcast) => false,
            },
    {
        if bytes.len() == 0 {
            return Err(Error::EmptyBroadcast);
        }
        match Vertex::from_wire(bytes, check) {
            Ok(vx) => Ok(BroadcastData::Vertex(Arc::new(vx))),
            Err(e) => Err(Error::Vertex(e)),
        }
    }

    /// Name of the kind of data, which names its gossipsub topic
    pub fn kind(&self) -> (r: &'static str)
        ensures
            r@ == "Vertex"@,
    {
        match self {
            BroadcastData::Vertex(_) => "Vertex",
        }
    }
}

/// What to do with a message received from the gossipsub network
#[derive(Clone, Copy, Debug, PartialEq, Eq, Structural)]
pub enum Acceptance {
    /// Deliver the message and forward it to the network
    Accept,
    /// Cease propagation, without penalty to the peer that sent it
    Ignore,
    /// Cease propagation, and penalize the peer that sent it
    Reject,
}

/// Broadcasts that can be sent to/from the gossipsub network
#[derive(Debug)]
pub struct Broadcast {
    /// Bytes of the gossipsub message id
    pub id: Vec<u8>,
    pub src: PeerId,
    pub topic: TopicHash,
    pub data: BroadcastData,
}

/// Validation report to send back to the p2p client, informing if this message should be accepted
/// and propagated to peers, ignored, or rejected and penalize the peer.
#[derive(Debug)]
pub struct BroadcastValidationReport {
    /// Bytes of the gossipsub message id
    pub msg_id: Vec<u8>,
    pub propagation_source: PeerId,
    pub acceptance: Acceptance,
}

impl Broadcast {
    /// Generate a validation report for this message with the given acceptance
    pub fn report(&self, acceptance: Acceptance) -> (r: BroadcastValidationReport)
        ensures
            r.msg_id@ == self.id@,
            r.propagation_source == self.src,
            r.acceptance == acceptance,
    {
        let msg_id = self.id.clone();
        assert(msg_id@ =~= self.id@);
        BroadcastValidationReport {
            msg_id,
            propagation_source: copy_peer_id(&self.src),
            acceptance,
        }
    }

    /// Generate a validation report to accept this message and propagate it to other peers.
    pub fn accept(&self) -> (r: BroadcastValidationReport)
        ensures
            r.msg_id@ == self.id@,
            r.propagation_source == self.src,
            r.acceptance == Acceptance::Accept,
    {
        self.report(Acceptance::Accept)
    }

    /// Generate a validation report to ignore this message and cease propagation, without
    /// penalty to the peer that sent it.
    pub fn ignore(&self) -> (r: BroadcastValidationReport)
        ensures
            r.msg_id@ == self.id@,
            r.propagation_source == self.src,
            r.acceptance == Acceptance::Ignore,
    {
        self.report(Acceptance::Ignore)
    }

    /// Generate a validation report to reject this message, cease propagation, and penalize the
    /// peer who sent it. Repeated penalization will eventually lead to that peer being banned.
    pub fn reject(&self) -> (r: BroadcastValidationReport)
        ensures
            r.msg_id@ == self.id@,
            r.propagation_source == self.src,
            r.acceptance == Acceptance::Reject,
    {
        self.report(Acceptance::Reject)
    }
}

} // verus!
