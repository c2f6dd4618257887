//! The node state machine: consumes one ordered stream of inbound events
//! — client requests, peer gossip, and an injected tick — and drives the
//! broadcast store and the delta tracker, emitting replies and outbound
//! gossip messages.
//!
//! The node performs no I/O itself: `step` returns the messages to send,
//! and the surrounding program delivers them.

use vstd::prelude::*;

use crate::delta::{diff_seq, DeltaTracker};
use crate::protocol::{Body, BroadcastRequest, BroadcastResponse, Event, Init, Injected, Message,
    MessageId, Payload};
use crate::store::{merge_seq, to_seq, BroadcastStore};
use crate::topology::{build, build_ok, neighbours_of};

verus! {

/// An event a broadcast node consumes.
pub type BroadcastEvent = Event<BroadcastRequest, BroadcastResponse, Injected>;

/// A message a broadcast node sends or receives.
pub type BroadcastMessage = Message<BroadcastRequest, BroadcastResponse>;

/// What can go wrong inside the node. Each of these signals a bug in the
/// cluster setup or in a peer, not a transient fault; the caller should
/// treat them as fatal.
#[derive(Debug, Clone, Copy, PartialEq, Eq, Structural)]
pub enum NodeError {
    /// The member list or this node's identity is malformed, or this node
    /// is not itself a member.
    InvalidMembership,
    /// A server-assigned topology does not name this node.
    NodeNotInTopology,
    /// Gossip arrived from a node that is not a registered neighbour.
    UnknownGossipSender,
}

/// A single gossip-broadcast node: its identity, its message counter, the
/// values it has learned, and what its neighbours are known to hold.
pub struct BroadcastNode {
    pub node_id: String,
    pub msg_id: MessageId,
    pub messages: BroadcastStore,
    pub tracker: DeltaTracker,
}

/// The values an event introduces into the store: one for a client
/// broadcast, a payload's worth for inbound gossip, none otherwise.
pub open spec fn event_values(ev: BroadcastEvent) -> Set<u64> {
    match ev {
        Event::Message(m) => match m.body.payload {
            Payload::Request(BroadcastRequest::Broadcast { message }) => Set::empty().insert(
                message,
            ),
            Payload::Request(BroadcastRequest::Gossip { messages }) => messages@.to_set(),
            _ => Set::empty(),
        },
        Event::Injected(_) => Set::empty(),
    }
}

/// Whether an event is gossip from a node that is not a registered
/// neighbour: the one fatal input `step` rejects.
pub open spec fn gossip_from_stranger(pre: BroadcastNode, ev: BroadcastEvent) -> bool {
    match ev {
        Event::Message(m) => match m.body.payload {
            Payload::Request(BroadcastRequest::Gossip { .. }) => !pre.tracker.is_neighbour(
                m.src@,
            ),
            _ => false,
        },
        Event::Injected(_) => false,
    }
}

/// A well-formed reply envelope: from this node back to the sender,
/// carrying no sequence number of its own and referencing the request's.
pub open spec fn is_reply(out: BroadcastMessage, pre: BroadcastNode, m: BroadcastMessage) -> bool {
    &&& out.src@ == pre.node_id@
    &&& out.dest@ == m.src@
    &&& out.body.msg_id is None
    &&& out.body.in_reply_to == m.body.msg_id
}

/// What one gossip round emits and records: for each neighbour, one
/// message carrying exactly the values that neighbour is not yet known to
/// hold, which are then optimistically marked as known.
pub open spec fn tick_ok(pre: BroadcastNode, post: BroadcastNode, out: Seq<BroadcastMessage>) -> bool {
    let n = pre.tracker.neighbours@.len();
    &&& out.len() == n
    &&& forall|i: int|
        0 <= i < n ==> {
            let m = #[trigger] out[i];
            &&& m.src@ == pre.node_id@
            &&& m.dest@ == pre.tracker.neighbours@[i]@
            &&& m.body.msg_id == Some(pre.msg_id)
            &&& m.body.in_reply_to is None
            &&& m.body.payload matches Payload::Request(BroadcastRequest::Gossip { messages })
                && messages@ == diff_seq(pre.messages.seq(), pre.tracker.known_at(i))
        }
    &&& post.messages == pre.messages
    &&& post.msg_id == pre.msg_id
    &&& post.node_id == pre.node_id
    &&& post.tracker.neighbours@ == pre.tracker.neighbours@
    &&& post.tracker.known@.len() == pre.tracker.known@.len()
    &&& forall|i: int|
        0 <= i < n ==> post.tracker.known_at(i) == merge_seq(
            pre.tracker.known_at(i),
            diff_seq(pre.messages.seq(), pre.tracker.known_at(i)),
        )
}

/// The full step relation on accepted events: what the node becomes and
/// what it emits for each event kind.
pub open spec fn step_ok(
    pre: BroadcastNode,
    ev: BroadcastEvent,
    post: BroadcastNode,
    out: Seq<BroadcastMessage>,
) -> bool {
    match ev {
        Event::Injected(Injected::Gossip) => tick_ok(pre, post, out),
        Event::Message(m) => match m.body.payload {
            Payload::Response(_) => post == pre && out.len() == 0,
            Payload::Request(req) => match req {
                BroadcastRequest::Broadcast { message } => {
                    &&& post.messages@ == pre.messages@.insert(message)
                    &&& post.messages.seq() == (if pre.messages.seq().contains(message) {
                        pre.messages.seq()
                    } else {
                        pre.messages.seq().push(message)
                    })
                    &&& post.tracker == pre.tracker
                    &&& post.node_id == pre.node_id
                    &&& post.msg_id == pre.msg_id + 1
                    &&& out.len() == 1
                    &&& is_reply(out[0], pre, m)
                    &&& out[0].body.payload matches Payload::Response(
                        BroadcastResponse::BroadcastOk,
                    )
                },
                BroadcastRequest::Read => {
                    &&& post.messages == pre.messages
                    &&& post.tracker == pre.tracker
                    &&& post.node_id == pre.node_id
                    &&& post.msg_id == pre.msg_id + 1
                    &&& out.len() == 1
                    &&& is_reply(out[0], pre, m)
                    &&& out[0].body.payload matches Payload::Response(
                        BroadcastResponse::ReadOk { messages },
                    ) && messages@ == pre.messages.seq()
                },
                BroadcastRequest::Topology => {
                    &&& post.messages == pre.messages
                    &&& post.tracker == pre.tracker
                    &&& post.node_id == pre.node_id
                    &&& post.msg_id == pre.msg_id + 1
                    &&& out.len() == 1
                    &&& is_reply(out[0], pre, m)
                    &&& out[0].body.payload matches Payload::Response(
                        BroadcastResponse::TopologyOk,
                    )
                },
                BroadcastRequest::Gossip { messages } => {
                    let i = crate::topology::first_index_of(pre.tracker.neighbours@, m.src@);
                    &&& pre.tracker.is_neighbour(m.src@)
                    &&& post.messages.seq() == merge_seq(pre.messages.seq(), messages@)
                    &&& post.messages@ == pre.messages@ + messages@.to_set()
                    &&& post.tracker.neighbours@ == pre.tracker.neighbours@
                    &&& post.tracker.known@.len() == pre.tracker.known@.len()
                    &&& post.tracker.known_at(i) == merge_seq(
                        pre.tracker.known_at(i),
                        messages@,
                    )
                    &&& forall|j: int|
                        0 <= j < pre.tracker.known@.len() && j != i
                            ==> post.tracker.known_at(j) == pre.tracker.known_at(j)
                    &&& post.node_id == pre.node_id
                    &&& post.msg_id == pre.msg_id
                    &&& out.len() == 0
                },
            },
        },
    }
}

impl BroadcastNode {
    /// Internal consistency: the store and every known-set are free of
    /// duplicates, with one known-set per neighbour.
    pub open spec fn wf(&self) -> bool {
        &&& self.messages.wf()
        &&& self.tracker.wf()
    }

    /// A node initialised from the startup membership: an empty store and
    /// a fresh tracker for the self-computed neighbour set, with the
    /// default group size of five.
    ///
    /// Fails exactly when the membership is malformed: an identity without
    /// a usable numeric suffix, or a node that is not itself a member.
    pub fn from_init(init: Init) -> (r: Result<BroadcastNode, NodeError>)
        ensures
            r is Ok <==> build_ok(init.node_id@, init.node_ids@, 5),
            r matches Ok(node) ==> {
                &&& node.wf()
                &&& node.node_id@ == init.node_id@
                &&& node.msg_id == 1
                &&& node.messages.seq() == Seq::<u64>::empty()
                &&& node.tracker.neighbours@ == neighbours_of(init.node_id@, init.node_ids@, 5)
                &&& node.tracker.known@.len() == node.tracker.neighbours@.len()
                &&& forall|i: int|
                    0 <= i < node.tracker.neighbours@.len() ==> node.tracker.known_at(i)
                        == Seq::<u64>::empty()
            },
            r matches Err(e) ==> e == NodeError::InvalidMembership,
    {
        let neighbourhood_size: usize = 5;
        match build(&init.node_id, &init.node_ids, neighbourhood_size) {
            Some(neighbours) => Ok(
                BroadcastNode {
                    node_id: init.node_id,
                    msg_id: 1,
                    messages: BroadcastStore::new(),
                    tracker: DeltaTracker::new(neighbours),
                },
            ),
            None => Err(NodeError::InvalidMembership),
        }
    }

    /// Adopts a server-assigned neighbour list instead of the
    /// self-computed one: the list the topology associates with this node,
    /// each neighbour starting with an empty known-set.
    ///
    /// Fails exactly when the topology does not name this node, leaving
    /// the node unchanged.
    pub fn set_neighbours(&mut self, topology: &crate::topology::Topology) -> (r: Result<
        (),
        NodeError,
    >)
        ensures
            r is Ok <==> topology.has_key(old(self).node_id@),
            r matches Err(e) ==> e == NodeError::NodeNotInTopology && *final(self) == *old(self),
            r is Ok ==> ({
                let pre = *old(self);
                let post = *final(self);
                &&& post.node_id == pre.node_id
                &&& post.msg_id == pre.msg_id
                &&& post.messages == pre.messages
                &&& post.tracker.wf()
                &&& exists|i: int|
                    0 <= i < topology.topology@.len() && topology.topology@[i].0@ == pre.node_id@
                        && (forall|j: int| 0 <= j < i ==> topology.topology@[j].0@ != pre.node_id@)
                        && post.tracker.neighbours@ =~= topology.topology@[i].1@
                &&& forall|i: int|
                    0 <= i < post.tracker.neighbours@.len() ==> post.tracker.known_at(i)
                        == Seq::<u64>::empty()
            }),
    {
        let neighbours = match topology.get(&self.node_id) {
            Some(neighbours) => neighbours,
            None => {
                return Err(NodeError::NodeNotInTopology);
            },
        };
        let mut owned: Vec<String> = Vec::new();
        let mut i: usize = 0;
        while i < neighbours.len()
            invariant
                i <= neighbours@.len(),
                owned@ =~= neighbours@.take(i as int),
            decreases neighbours@.len() - i,
        {
            owned.push(neighbours[i].clone());
            proof {
                assert(neighbours@.take(i + 1) == neighbours@.take(i as int).push(
                    neighbours@[i as int],
                ));
            }
            i = i + 1;
        }
        proof {
            assert(owned@ == neighbours@) by {
                assert(neighbours@.take(neighbours@.len() as int) == neighbours@);
            }
        }
        self.tracker = DeltaTracker::new(owned);
        Ok(())
    }

    /// Consumes one event, in arrival order, and returns the messages to
    /// send: an acknowledgment for each client request, one gossip message
    /// per neighbour on a tick, nothing for inbound gossip or responses.
    ///
    /// Fails exactly on gossip from an unregistered sender — a topology
    /// bug, not a transient fault — leaving the node unchanged.
    pub fn step(&mut self, event: BroadcastEvent) -> (r: Result<Vec<BroadcastMessage>, NodeError>)
        requires
            old(self).wf(),
            old(self).msg_id < MessageId::MAX,
        ensures
            final(self).wf(),
            r matches Ok(out) ==> step_ok(*old(self), event, *final(self), out@),
            r matches Ok(out) ==> final(self).messages@ == old(self).messages@ + event_values(
                event,
            ),
            r is Err <==> gossip_from_stranger(*old(self), event),
            r matches Err(e) ==> e == NodeError::UnknownGossipSender && *final(self) == *old(
                self,
            ),
    {
        let msg = match event {
            Event::Injected(Injected::Gossip) => {
                return Ok(self.gossip());
            },
            Event::Message(msg) => msg,
        };
        let request = match msg.body.payload {
            Payload::Request(request) => request,
            Payload::Response(_) => {
                return Ok(Vec::new());
            },
        };
        let reply_payload = match request {
            BroadcastRequest::Broadcast { message } => {
                self.messages.insert(message);
                proof {
                    assert(self.messages@ =~= old(self).messages@ + event_values(event));
                }
                Payload::Response(BroadcastResponse::BroadcastOk)
            },
            BroadcastRequest::Read => {
                let snapshot = to_seq(&self.messages);
                Payload::Response(BroadcastResponse::ReadOk { messages: snapshot })
            },
            BroadcastRequest::Topology => Payload::Response(BroadcastResponse::TopologyOk),
            BroadcastRequest::Gossip { messages } => {
                if self.tracker.index_of(&msg.src).is_none() {
                    return Err(NodeError::UnknownGossipSender);
                }
                self.tracker.record_received_from(&mut self.messages, &msg.src, &messages);
                return Ok(Vec::new());
            },
        };
        self.msg_id = self.msg_id + 1;
        let reply = Message {
            src: self.node_id.clone(),
            dest: msg.src,
            body: Body { msg_id: None, in_reply_to: msg.body.msg_id, payload: reply_payload },
        };
        let mut out: Vec<BroadcastMessage> = Vec::new();
        out.push(reply);
        Ok(out)
    }

    /// One gossip round: for each neighbour, in order, the minimal payload
    /// it is not yet known to hold, which is at once marked as known.
    fn gossip(&mut self) -> (out: Vec<BroadcastMessage>)
        requires
            old(self).wf(),
        ensures
            final(self).wf(),
            tick_ok(*old(self), *final(self), out@),
            final(self).messages@ == old(self).messages@,
    {
        let ghost pre = *self;
        let mut out: Vec<BroadcastMessage> = Vec::new();
        let n = self.tracker.len();
        let mut i: usize = 0;
        while i < n
            invariant
                i <= n,
                n == pre.tracker.neighbours@.len(),
                self.messages == pre.messages,
                self.msg_id == pre.msg_id,
                self.node_id == pre.node_id,
                self.tracker.wf(),
                self.messages.wf(),
                self.tracker.neighbours@ == pre.tracker.neighbours@,
                self.tracker.known@.len() == pre.tracker.known@.len(),
                out@.len() == i,
                forall|j: int|
                    i <= j < n ==> self.tracker.known_at(j) == pre.tracker.known_at(j),
                forall|j: int|
                    0 <= j < i ==> self.tracker.known_at(j) == merge_seq(
                        pre.tracker.known_at(j),
                        diff_seq(pre.messages.seq(), pre.tracker.known_at(j)),
                    ),
                forall|j: int|
                    0 <= j < i ==> {
                        let m = #[trigger] out@[j];
                        &&& m.src@ == pre.node_id@
                        &&& m.dest@ == pre.tracker.neighbours@[j]@
                        &&& m.body.msg_id == Some(pre.msg_id)
                        &&& m.body.in_reply_to is None
                        &&& m.body.payload matches Payload::Request(
                            BroadcastRequest::Gossip { messages },
                        ) && messages@ == diff_seq(pre.messages.seq(), pre.tracker.known_at(j))
                    },
            decreases n - i,
        {
            let pending = self.tracker.pending_at(&self.messages, i);
            self.tracker.record_sent_at(i, &pending);
            let message = Message {
                src: self.node_id.clone(),
                dest: self.tracker.neighbour_at(i).clone(),
                body: Body {
                    msg_id: Some(self.msg_id),
                    in_reply_to: None,
                    payload: Payload::Request(BroadcastRequest::Gossip { messages: pending }),
                },
            };
            out.push(message);
            i = i + 1;
        }
        out
    }
}

/// The store contents after a sequence of events is absorbed, each adding
/// the values it introduces.
pub open spec fn store_after(init: Set<u64>, evs: Seq<BroadcastEvent>) -> Set<u64>
    decreases evs.len(),
{
    if evs.len() == 0 {
        init
    } else {
        store_after(init, evs.drop_last()) + event_values(evs.last())
    }
}

/// A read after any interleaving of broadcasts and gossips reflects every
/// value a prior event introduced, and everything the store already held.
pub proof fn lemma_read_reflects_events(init: Set<u64>, evs: Seq<BroadcastEvent>, i: int)
    requires
        0 <= i < evs.len(),
    ensures
        event_values(evs[i]).subset_of(store_after(init, evs)),
        init.subset_of(store_after(init, evs)),
    decreases evs.len(),
{
    if i == evs.len() - 1 {
        lemma_store_after_grows(init, evs);
    } else {
        lemma_read_reflects_events(init, evs.drop_last(), i);
        assert(evs.drop_last()[i] == evs[i]);
    }
}

/// The store never shrinks as events are absorbed.
pub proof fn lemma_store_after_grows(init: Set<u64>, evs: Seq<BroadcastEvent>)
    ensures
        init.subset_of(store_after(init, evs)),
    decreases evs.len(),
{
    if evs.len() > 0 {
        lemma_store_after_grows(init, evs.drop_last());
    }
}

} // verus!
