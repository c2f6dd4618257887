//! Whole-cluster scenarios: every node runs the same state machine, the
//! harness plays the transport and the timer, and every gossip message is
//! delivered before the next tick.

use gossip_glomers::node::{BroadcastMessage, BroadcastNode};
use gossip_glomers::protocol::{Body, BroadcastRequest, BroadcastResponse, Event, Init, Injected,
    Message, Payload};

fn make_cluster(n: usize) -> Vec<BroadcastNode> {
    let node_ids: Vec<String> = (0..n).map(|i| format!("n{}", i)).collect();
    (0..n)
        .map(|i| {
            BroadcastNode::from_init(Init {
                node_id: format!("n{}", i),
                node_ids: node_ids.clone(),
            })
            .unwrap()
        })
        .collect()
}

fn request(src: &str, dest: &str, req: BroadcastRequest) -> Event<BroadcastRequest, BroadcastResponse, Injected> {
    Event::Message(Message {
        src: String::from(src),
        dest: String::from(dest),
        body: Body { msg_id: Some(1), in_reply_to: None, payload: Payload::Request(req) },
    })
}

fn read(node: &mut BroadcastNode) -> Vec<u64> {
    let dest = node.node_id.clone();
    let out = node.step(request("c1", dest.as_str(), BroadcastRequest::Read)).unwrap();
    match out.into_iter().next().unwrap().body.payload {
        Payload::Response(BroadcastResponse::ReadOk { messages }) => messages,
        _ => panic!("expected a read acknowledgment"),
    }
}

/// One tick interval: every node ticks, then every emitted gossip message
/// is delivered to its destination.
fn tick_round(nodes: &mut Vec<BroadcastNode>) {
    let mut in_flight: Vec<BroadcastMessage> = Vec::new();
    for node in nodes.iter_mut() {
        in_flight.extend(node.step(Event::Injected(Injected::Gossip)).unwrap());
    }
    for message in in_flight {
        let dest = nodes
            .iter_mut()
            .find(|node| node.node_id == message.dest)
            .expect("gossip addressed to a member");
        dest.step(Event::Message(message)).unwrap();
    }
}

fn who_knows(nodes: &mut Vec<BroadcastNode>, value: u64) -> Vec<usize> {
    let mut knowing = Vec::new();
    for i in 0..nodes.len() {
        if read(&mut nodes[i]).contains(&value) {
            knowing.push(i);
        }
    }
    knowing
}

#[test]
fn ten_nodes_follower_broadcast_spreads_hop_by_hop() {
    // Two groups of five; ranks 0 and 5 are relays. A broadcast lands on
    // the follower at rank 7.
    let mut nodes = make_cluster(10);
    nodes[7].step(request("c1", "n7", BroadcastRequest::Broadcast { message: 42 })).unwrap();
    assert_eq!(who_knows(&mut nodes, 42), vec![7]);
    // First tick: node 7 gossips to its relay, rank 5.
    tick_round(&mut nodes);
    assert_eq!(who_knows(&mut nodes, 42), vec![5, 7]);
    // Second tick: relay 5 gossips to relay 0 and to its own followers.
    tick_round(&mut nodes);
    assert_eq!(who_knows(&mut nodes, 42), vec![0, 5, 6, 7, 8, 9]);
    // Third tick: relay 0 reaches its followers; every node now holds 42,
    // matching the graph's diameter of three hops.
    tick_round(&mut nodes);
    assert_eq!(who_knows(&mut nodes, 42), vec![0, 1, 2, 3, 4, 5, 6, 7, 8, 9]);
}

#[test]
fn relay_broadcast_converges_in_two_ticks() {
    let mut nodes = make_cluster(10);
    nodes[0].step(request("c1", "n0", BroadcastRequest::Broadcast { message: 5 })).unwrap();
    tick_round(&mut nodes);
    assert_eq!(who_knows(&mut nodes, 5), vec![0, 1, 2, 3, 4, 5]);
    tick_round(&mut nodes);
    assert_eq!(who_knows(&mut nodes, 5), vec![0, 1, 2, 3, 4, 5, 6, 7, 8, 9]);
}

#[test]
fn every_node_converges_within_three_ticks_from_any_origin() {
    for origin in 0..10 {
        let mut nodes = make_cluster(10);
        let dest = format!("n{}", origin);
        let value = 100 + origin as u64;
        nodes[origin]
            .step(request("c1", dest.as_str(), BroadcastRequest::Broadcast { message: value }))
            .unwrap();
        tick_round(&mut nodes);
        tick_round(&mut nodes);
        tick_round(&mut nodes);
        assert_eq!(who_knows(&mut nodes, value).len(), 10, "origin {}", origin);
    }
}

#[test]
fn interleaved_broadcasts_and_gossip_all_reflected_by_read() {
    let mut nodes = make_cluster(10);
    nodes[3].step(request("c1", "n3", BroadcastRequest::Broadcast { message: 1 })).unwrap();
    tick_round(&mut nodes);
    nodes[8].step(request("c2", "n8", BroadcastRequest::Broadcast { message: 2 })).unwrap();
    tick_round(&mut nodes);
    nodes[0].step(request("c3", "n0", BroadcastRequest::Broadcast { message: 3 })).unwrap();
    tick_round(&mut nodes);
    tick_round(&mut nodes);
    for i in 0..10 {
        let values = read(&mut nodes[i]);
        assert!(values.contains(&1), "node {} misses 1", i);
        assert!(values.contains(&2), "node {} misses 2", i);
        assert!(values.contains(&3), "node {} misses 3", i);
    }
}
