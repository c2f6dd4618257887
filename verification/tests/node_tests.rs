use gossip_glomers::node::{BroadcastEvent, BroadcastNode, NodeError};
use gossip_glomers::protocol::{Body, BroadcastRequest, BroadcastResponse, Event, Init, Injected,
    Message, Payload};
use gossip_glomers::topology::Topology;

fn ids(names: &[&str]) -> Vec<String> {
    names.iter().map(|s| String::from(*s)).collect()
}

fn make_node(own: &str, all: &[&str]) -> BroadcastNode {
    BroadcastNode::from_init(Init { node_id: String::from(own), node_ids: ids(all) }).unwrap()
}

fn request(src: &str, dest: &str, req: BroadcastRequest) -> BroadcastEvent {
    Event::Message(Message {
        src: String::from(src),
        dest: String::from(dest),
        body: Body { msg_id: Some(1), in_reply_to: None, payload: Payload::Request(req) },
    })
}

#[test]
fn from_init_computes_neighbours() {
    let node = make_node("n7", &["n0", "n1", "n2", "n3", "n4", "n5", "n6", "n7", "n8", "n9"]);
    assert_eq!(node.node_id, String::from("n7"));
    assert_eq!(node.msg_id, 1);
    assert_eq!(node.tracker.neighbours, ids(&["n5"]));
}

#[test]
fn from_init_rejects_bad_membership() {
    let r = BroadcastNode::from_init(Init {
        node_id: String::from("n0"),
        node_ids: ids(&["n0", "oops"]),
    });
    assert_eq!(r.err(), Some(NodeError::InvalidMembership));
    let r = BroadcastNode::from_init(Init {
        node_id: String::from("n2"),
        node_ids: ids(&["n0", "n1"]),
    });
    assert_eq!(r.err(), Some(NodeError::InvalidMembership));
}

#[test]
fn broadcast_is_acknowledged_and_stored() {
    let mut node = make_node("n0", &["n0", "n1"]);
    let out = node.step(request("c1", "n0", BroadcastRequest::Broadcast { message: 42 })).unwrap();
    assert_eq!(out.len(), 1);
    let reply = &out[0];
    assert_eq!(reply.src, String::from("n0"));
    assert_eq!(reply.dest, String::from("c1"));
    assert_eq!(reply.body.msg_id, None);
    assert_eq!(reply.body.in_reply_to, Some(1));
    assert!(matches!(reply.body.payload, Payload::Response(BroadcastResponse::BroadcastOk)));
    assert!(node.messages.contains(42));
    assert_eq!(node.msg_id, 2);
}

#[test]
fn read_reports_all_learned_values() {
    let mut node = make_node("n0", &["n0", "n1"]);
    node.step(request("c1", "n0", BroadcastRequest::Broadcast { message: 7 })).unwrap();
    node.step(request("n1", "n0", BroadcastRequest::Gossip { messages: vec![8, 9] })).unwrap();
    let out = node.step(request("c1", "n0", BroadcastRequest::Read)).unwrap();
    assert_eq!(out.len(), 1);
    match &out[0].body.payload {
        Payload::Response(BroadcastResponse::ReadOk { messages }) => {
            assert_eq!(messages, &vec![7, 8, 9]);
        },
        _ => panic!("expected a read acknowledgment"),
    }
}

#[test]
fn topology_request_is_acknowledged_and_ignored() {
    let mut node = make_node("n0", &["n0", "n1"]);
    let before = node.tracker.neighbours.clone();
    let out = node.step(request("c1", "n0", BroadcastRequest::Topology)).unwrap();
    assert_eq!(out.len(), 1);
    assert!(matches!(out[0].body.payload, Payload::Response(BroadcastResponse::TopologyOk)));
    assert_eq!(node.tracker.neighbours, before);
}

#[test]
fn gossip_gets_no_reply() {
    let mut node = make_node("n0", &["n0", "n1"]);
    let out = node.step(request("n1", "n0", BroadcastRequest::Gossip { messages: vec![3] })).unwrap();
    assert!(out.is_empty());
    assert!(node.messages.contains(3));
}

#[test]
fn gossip_from_stranger_is_fatal() {
    let mut node = make_node("n0", &["n0", "n1"]);
    let before = gossip_glomers::store::to_seq(&node.messages);
    let r = node.step(request("n9", "n0", BroadcastRequest::Gossip { messages: vec![3] }));
    assert_eq!(r.err(), Some(NodeError::UnknownGossipSender));
    assert_eq!(gossip_glomers::store::to_seq(&node.messages), before);
}

#[test]
fn responses_are_consumed_silently() {
    let mut node = make_node("n0", &["n0", "n1"]);
    let event = Event::Message(Message {
        src: String::from("n1"),
        dest: String::from("n0"),
        body: Body {
            msg_id: None,
            in_reply_to: Some(1),
            payload: Payload::Response(BroadcastResponse::BroadcastOk),
        },
    });
    let out = node.step(event).unwrap();
    assert!(out.is_empty());
    assert_eq!(node.msg_id, 1);
}

#[test]
fn tick_gossips_the_delta_to_every_neighbour() {
    let mut node = make_node("n0", &["n0", "n1", "n2", "n3", "n4", "n5", "n6"]);
    assert_eq!(node.tracker.neighbours, ids(&["n1", "n2", "n3", "n4", "n5"]));
    node.step(request("c1", "n0", BroadcastRequest::Broadcast { message: 11 })).unwrap();
    node.step(request("n1", "n0", BroadcastRequest::Gossip { messages: vec![22] })).unwrap();
    let out = node.step(Event::Injected(Injected::Gossip)).unwrap();
    assert_eq!(out.len(), 5);
    // The neighbour that sent 22 already holds it; the others are owed
    // both values.
    for (i, m) in out.iter().enumerate() {
        assert_eq!(m.src, String::from("n0"));
        assert_eq!(&m.dest, &node.tracker.neighbours[i]);
        assert_eq!(m.body.msg_id, Some(node.msg_id));
        assert_eq!(m.body.in_reply_to, None);
        match &m.body.payload {
            Payload::Request(BroadcastRequest::Gossip { messages }) => {
                if m.dest == String::from("n1") {
                    assert_eq!(messages, &vec![11]);
                } else {
                    assert_eq!(messages, &vec![11, 22]);
                }
            },
            _ => panic!("expected gossip"),
        }
    }
    // Everything sent is now marked known: the next round owes nothing.
    let out = node.step(Event::Injected(Injected::Gossip)).unwrap();
    assert_eq!(out.len(), 5);
    for m in &out {
        match &m.body.payload {
            Payload::Request(BroadcastRequest::Gossip { messages }) => {
                assert!(messages.is_empty());
            },
            _ => panic!("expected gossip"),
        }
    }
}

#[test]
fn set_neighbours_adopts_the_assigned_list() {
    let mut node = make_node("n0", &["n0", "n1", "n2"]);
    let mut topology = Topology::new();
    topology.insert(String::from("n0"), ids(&["n2"]));
    node.set_neighbours(&topology).unwrap();
    assert_eq!(node.tracker.neighbours, ids(&["n2"]));
}

#[test]
fn set_neighbours_fails_for_absent_node() {
    let mut node = make_node("n0", &["n0", "n1"]);
    let topology = Topology::new();
    assert_eq!(node.set_neighbours(&topology).err(), Some(NodeError::NodeNotInTopology));
    assert_eq!(node.tracker.neighbours, ids(&["n1"]));
}
