//! Message envelope and payload types exchanged with peers and clients.
//!
//! The wire framing (JSON encoding and decoding) is the transport
//! collaborator's concern; the node only constructs and inspects these
//! values.

use vstd::prelude::*;

verus! {

/// Sequence number attached to outbound messages.
pub type MessageId = usize;

/// The envelope around every payload: who sent it and to whom.
#[derive(Debug)]
pub struct Message<Req, Res> {
    pub src: String,
    pub dest: String,
    pub body: Body<Req, Res>,
}

/// The body of a message: optional sequence numbers and the payload.
#[derive(Debug)]
pub struct Body<Req, Res> {
    pub msg_id: Option<MessageId>,
    pub in_reply_to: Option<MessageId>,
    pub payload: Payload<Req, Res>,
}

/// A payload is either a request or a response.
#[derive(Debug)]
pub enum Payload<Req, Res> {
    Request(Req),
    Response(Res),
}

/// The startup input consumed once: this node's identity and the full
/// member list.
#[derive(Debug)]
pub struct Init {
    pub node_id: String,
    pub node_ids: Vec<String>,
}

/// One item of the single ordered stream the node consumes: either an
/// inbound protocol message or a signal injected by a timer.
pub enum Event<Req, Res, Inj> {
    Message(Message<Req, Res>),
    Injected(Inj),
}

/// The injected signal that triggers one gossip round.
#[derive(Debug, PartialEq, Eq, Structural, Clone, Copy)]
pub enum Injected {
    Gossip,
}

/// Requests a broadcast node accepts from clients and peers.
#[derive(Debug)]
pub enum BroadcastRequest {
    Broadcast { message: u64 },
    Read,
    /// A server-assigned topology; the payload is ignored because the
    /// node computes its own neighbour set from the member list.
    Topology,
    Gossip { messages: Vec<u64> },
}

/// Responses a broadcast node emits.
#[derive(Debug)]
pub enum BroadcastResponse {
    BroadcastOk,
    ReadOk { messages: Vec<u64> },
    TopologyOk,
}

impl<Req, Res> Payload<Req, Res> {
    /// The request inside the payload, if it is one.
    pub fn request(self) -> (r: Option<Req>)
        ensures
            r == (match self {
                Payload::Request(req) => Some(req),
                Payload::Response(_) => None::<Req>,
            }),
    {
        match self {
            Payload::Request(request) => Some(request),
            Payload::Response(_) => None,
        }
    }

    /// The response inside the payload, if it is one.
    pub fn response(self) -> (r: Option<Res>)
        ensures
            r == (match self {
                Payload::Request(_) => None::<Res>,
                Payload::Response(res) => Some(res),
            }),
    {
        match self {
            Payload::Request(_) => None,
            Payload::Response(response) => Some(response),
        }
    }
}

} // verus!
