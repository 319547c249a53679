use rust_distributed_sys_challenge::broadcast::{DistPayload, DistributedNode, StepError};
use rust_distributed_sys_challenge::protocol::{Body, Event, InitNodes, Message};
use rust_distributed_sys_challenge::topology::generate_small_world_topology;

fn init_n0() -> DistributedNode {
    DistributedNode::from_init(InitNodes {
        node_id: "n0".to_string(),
        node_ids: vec!["n0".to_string()],
    })
}

fn client_msg(id: u64, payload: DistPayload) -> Event<DistPayload> {
    Event::Message(Message {
        src: "c1".to_string(),
        dest: "n0".to_string(),
        body: Body {
            id: Some(id),
            in_reply_to: None,
            payload,
        },
    })
}

fn peer_msg(src: &str, payload: DistPayload) -> Event<DistPayload> {
    Event::Message(Message {
        src: src.to_string(),
        dest: "n0".to_string(),
        body: Body {
            id: None,
            in_reply_to: None,
            payload,
        },
    })
}

#[test]
fn echo_scenario() {
    let mut node = init_n0();
    let out = node
        .step(client_msg(2, DistPayload::Echo { echo: "hi".to_string() }))
        .unwrap();
    assert_eq!(out.len(), 1);
    assert_eq!(out[0].src, "n0");
    assert_eq!(out[0].dest, "c1");
    assert_eq!(out[0].body.id, Some(1));
    assert_eq!(out[0].body.in_reply_to, Some(2));
    match &out[0].body.payload {
        DistPayload::EchoOk { echo } => assert_eq!(echo, "hi"),
        _ => panic!("expected echo_ok"),
    }
}

#[test]
fn broadcast_then_read() {
    let mut node = init_n0();
    node.step(client_msg(2, DistPayload::Echo { echo: "hi".to_string() }))
        .unwrap();
    let out = node
        .step(client_msg(3, DistPayload::Broadcast { message: 42 }))
        .unwrap();
    assert_eq!(out.len(), 1);
    assert_eq!(out[0].body.id, Some(2));
    assert_eq!(out[0].body.in_reply_to, Some(3));
    assert!(matches!(out[0].body.payload, DistPayload::BroadcastOk));

    let out = node.step(client_msg(4, DistPayload::Read)).unwrap();
    assert_eq!(out.len(), 1);
    assert_eq!(out[0].body.id, Some(3));
    assert_eq!(out[0].body.in_reply_to, Some(4));
    match &out[0].body.payload {
        DistPayload::ReadOk { messages } => assert_eq!(messages, &vec![42]),
        _ => panic!("expected read_ok"),
    }
}

#[test]
fn topology_replaces_neighbors() {
    let mut node = init_n0();
    let harness_topology: Vec<(String, Vec<String>)> = (0..5)
        .map(|i| (format!("n{}", i), vec!["n0".to_string()]))
        .collect();
    let out = node
        .step(client_msg(2, DistPayload::Topology { topology: harness_topology }))
        .unwrap();
    assert_eq!(out.len(), 1);
    assert!(matches!(out[0].body.payload, DistPayload::TopologyOk));

    let derived = generate_small_world_topology(5, 4, 300);
    assert_eq!(node.neighbors, derived[0].1);
    assert!(!node.neighbors.contains(&"n0".to_string()));
    assert!(!node.neighbors.is_empty());
}

#[test]
fn topology_rejects_foreign_node_id() {
    let mut node = DistributedNode::from_init(InitNodes {
        node_id: "zz".to_string(),
        node_ids: vec!["zz".to_string()],
    });
    let r = node.step(client_msg(
        2,
        DistPayload::Topology {
            topology: vec![("n0".to_string(), Vec::new())],
        },
    ));
    assert!(matches!(r, Err(StepError::UnknownNode)));
}

#[test]
fn share_merges_and_acknowledges() {
    let mut node = init_n0();
    let out = node
        .step(peer_msg("n1", DistPayload::Share { messages: vec![1, 2] }))
        .unwrap();
    assert_eq!(out.len(), 1);
    assert_eq!(out[0].dest, "n1");
    match &out[0].body.payload {
        DistPayload::ShareOk { messages } => assert_eq!(messages, &vec![1, 2]),
        _ => panic!("expected share_ok"),
    }
    assert_eq!(node.messages, vec![1, 2]);
}

#[test]
fn share_received_twice_changes_nothing() {
    let mut node = init_n0();
    node.step(peer_msg("n1", DistPayload::Share { messages: vec![5, 6] }))
        .unwrap();
    let messages_after_first = node.messages.clone();
    let known_after_first: Vec<(String, Vec<u64>)> = node
        .known_by_node
        .iter()
        .map(|e| (e.peer.clone(), e.known.clone()))
        .collect();
    let neighbors_after_first = node.neighbors.clone();

    let out = node
        .step(peer_msg("n1", DistPayload::Share { messages: vec![5, 6] }))
        .unwrap();
    assert_eq!(out.len(), 1);
    assert_eq!(node.messages, messages_after_first);
    let known_after_second: Vec<(String, Vec<u64>)> = node
        .known_by_node
        .iter()
        .map(|e| (e.peer.clone(), e.known.clone()))
        .collect();
    assert_eq!(known_after_second, known_after_first);
    assert_eq!(node.neighbors, neighbors_after_first);
}

#[test]
fn share_elision_after_acknowledgement() {
    let mut node = init_n0();
    node.neighbors = vec!["n1".to_string()];
    node.step(client_msg(2, DistPayload::Broadcast { message: 42 }))
        .unwrap();

    let out = node.step(Event::GeneratedEvent(DistPayload::Generate)).unwrap();
    assert_eq!(out.len(), 1);
    assert_eq!(out[0].src, "n0");
    assert_eq!(out[0].dest, "n1");
    assert_eq!(out[0].body.id, None);
    assert_eq!(out[0].body.in_reply_to, None);
    match &out[0].body.payload {
        DistPayload::Share { messages } => assert_eq!(messages, &vec![42]),
        _ => panic!("expected share"),
    }

    node.step(peer_msg("n1", DistPayload::ShareOk { messages: vec![42] }))
        .unwrap();
    let out = node.step(Event::GeneratedEvent(DistPayload::Generate)).unwrap();
    assert!(out.is_empty());
}

#[test]
fn share_from_unknown_source_is_tolerated() {
    let mut node = init_n0();
    let out = node
        .step(peer_msg("c9", DistPayload::Share { messages: vec![7] }))
        .unwrap();
    assert_eq!(out.len(), 1);
    assert_eq!(node.messages, vec![7]);
    assert!(node.known_by_node.iter().any(|e| e.peer == "c9" && e.known == vec![7]));
}

#[test]
fn mirrored_acknowledgements_are_ignored() {
    let mut node = init_n0();
    let out = node
        .step(client_msg(2, DistPayload::BroadcastOk))
        .unwrap();
    assert!(out.is_empty());
    let out = node
        .step(client_msg(3, DistPayload::Echo { echo: "x".to_string() }))
        .unwrap();
    assert_eq!(out[0].body.id, Some(2));
}

#[test]
fn generate_returns_fresh_ids() {
    let mut node = init_n0();
    let out1 = node.step(client_msg(2, DistPayload::Generate)).unwrap();
    let out2 = node.step(client_msg(3, DistPayload::Generate)).unwrap();
    let g1 = match &out1[0].body.payload {
        DistPayload::GenerateOk { guid } => *guid,
        _ => panic!("expected generate_ok"),
    };
    let g2 = match &out2[0].body.payload {
        DistPayload::GenerateOk { guid } => *guid,
        _ => panic!("expected generate_ok"),
    };
    assert_ne!(g1, g2);
}

#[test]
fn end_of_messages_is_quiet() {
    let mut node = init_n0();
    let out = node.step(Event::EndOfMessages).unwrap();
    assert!(out.is_empty());
}

#[test]
fn broadcast_twice_keeps_set_semantics() {
    let mut node = init_n0();
    node.step(client_msg(2, DistPayload::Broadcast { message: 42 }))
        .unwrap();
    node.step(client_msg(3, DistPayload::Broadcast { message: 42 }))
        .unwrap();
    let out = node.step(client_msg(4, DistPayload::Read)).unwrap();
    match &out[0].body.payload {
        DistPayload::ReadOk { messages } => assert_eq!(messages, &vec![42]),
        _ => panic!("expected read_ok"),
    }
}

#[test]
fn read_on_fresh_node_is_empty() {
    let mut node = init_n0();
    let out = node.step(client_msg(2, DistPayload::Read)).unwrap();
    match &out[0].body.payload {
        DistPayload::ReadOk { messages } => assert!(messages.is_empty()),
        _ => panic!("expected read_ok"),
    }
}
