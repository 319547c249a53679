use rust_distributed_sys_challenge::counter::{CounterPayload, GlobalCounterNode};
use rust_distributed_sys_challenge::protocol::{Body, Event, InitNodes, Message};

fn msg(id: u64, payload: CounterPayload) -> Event<CounterPayload> {
    Event::Message(Message {
        src: "c1".to_string(),
        dest: "n0".to_string(),
        body: Body {
            id: Some(id),
            in_reply_to: None,
            payload,
        },
    })
}

#[test]
fn counter_workload() {
    let mut node = GlobalCounterNode::from_init(InitNodes {
        node_id: "n0".to_string(),
        node_ids: vec!["n0".to_string()],
    });
    let out = node.step(msg(1, CounterPayload::Add { delta: 5 }));
    assert_eq!(out.len(), 1);
    assert!(matches!(out[0].body.payload, CounterPayload::AddOk));
    let out = node.step(msg(2, CounterPayload::Add { delta: 3 }));
    assert!(matches!(out[0].body.payload, CounterPayload::AddOk));
    let out = node.step(msg(3, CounterPayload::Read));
    assert_eq!(out.len(), 1);
    assert_eq!(out[0].body.in_reply_to, Some(3));
    match out[0].body.payload {
        CounterPayload::ReadOk { value } => assert_eq!(value, 9),
        _ => panic!("expected read_ok"),
    }
}

#[test]
fn counter_replies_correlate() {
    let mut node = GlobalCounterNode::from_init(InitNodes {
        node_id: "n0".to_string(),
        node_ids: vec!["n0".to_string()],
    });
    let out = node.step(msg(11, CounterPayload::Read));
    assert_eq!(out[0].src, "n0");
    assert_eq!(out[0].dest, "c1");
    assert_eq!(out[0].body.id, Some(1));
    assert_eq!(out[0].body.in_reply_to, Some(11));
    let out = node.step(msg(12, CounterPayload::Read));
    assert_eq!(out[0].body.id, Some(2));
}

#[test]
fn counter_ignores_mirrored_acks() {
    let mut node = GlobalCounterNode::from_init(InitNodes {
        node_id: "n0".to_string(),
        node_ids: vec!["n0".to_string()],
    });
    let out = node.step(msg(1, CounterPayload::AddOk));
    assert!(out.is_empty());
    let out = node.step(Event::EndOfMessages);
    assert!(out.is_empty());
}
