//! A gossip-based broadcast node for a leaderless cluster.
//!
//! The crate provides the pieces of a single node that disseminates
//! broadcast values to every other node through periodic anti-entropy
//! (gossip) rounds over a fixed hub-and-spoke topology:
//!
//! - [`topology`]: partitions the sorted member list into fixed-size
//!   groups, designates relays, and computes this node's neighbour set;
//! - [`store`]: the monotonically growing set of broadcast values a node
//!   has learned;
//! - [`delta`]: per-neighbour bookkeeping of which values a neighbour is
//!   already known to hold, used to compute minimal gossip payloads;
//! - [`node`]: the event-driven state machine that consumes client
//!   requests, inbound gossip and injected ticks, and emits replies and
//!   outbound gossip messages;
//! - [`protocol`]: the message envelope and payload types exchanged with
//!   peers and clients;
//! - [`convergence`]: a specification-level model of a whole cluster
//!   running synchronous gossip rounds, with the proof that a value known
//!   to one node reaches every node within three rounds.
//!
//! The node itself performs no I/O: a surrounding program feeds it one
//! event at a time and delivers the messages it returns.

pub mod convergence;
pub mod delta;
pub mod node;
pub mod protocol;
pub mod store;
pub mod topology;

pub use delta::DeltaTracker;
pub use node::{BroadcastEvent, BroadcastMessage, BroadcastNode, NodeError};
pub use protocol::{Body, BroadcastRequest, BroadcastResponse, Event, Init, Injected, Message,
    MessageId, Payload};
pub use store::{to_seq, BroadcastStore};
pub use topology::{build, parse_node_number, pick_neighbours, sort_by_node_number, Topology};
