use rust_distributed_sys_challenge::protocol::{
    handle_init, Body, InitNodes, InitPayload, Message, ProtocolError,
};

#[test]
fn init_ack() {
    let msg = Message {
        src: "c1".to_string(),
        dest: "n0".to_string(),
        body: Body {
            id: Some(1),
            in_reply_to: None,
            payload: InitPayload::Init(InitNodes {
                node_id: "n0".to_string(),
                node_ids: vec!["n0".to_string()],
            }),
        },
    };
    let (init, reply) = handle_init(msg).unwrap();
    assert_eq!(init.node_id, "n0");
    assert_eq!(init.node_ids, vec!["n0".to_string()]);
    assert_eq!(reply.src, "n0");
    assert_eq!(reply.dest, "c1");
    assert_eq!(reply.body.id, Some(0));
    assert_eq!(reply.body.in_reply_to, Some(1));
    assert!(matches!(reply.body.payload, InitPayload::InitOk));
}

#[test]
fn init_rejects_other_first_message() {
    let msg = Message {
        src: "c1".to_string(),
        dest: "n0".to_string(),
        body: Body {
            id: Some(1),
            in_reply_to: None,
            payload: InitPayload::InitOk,
        },
    };
    match handle_init(msg) {
        Err(ProtocolError::NotInit) => {}
        Ok(_) => panic!("a non-init first message must be rejected"),
    }
}

#[test]
fn reply_swaps_and_stamps() {
    let msg: Message<u8> = Message {
        src: "c1".to_string(),
        dest: "n0".to_string(),
        body: Body {
            id: Some(7),
            in_reply_to: None,
            payload: 42,
        },
    };
    let mut counter: u64 = 3;
    let reply = msg.into_reply(&mut counter);
    assert_eq!(reply.src, "n0");
    assert_eq!(reply.dest, "c1");
    assert_eq!(reply.body.id, Some(3));
    assert_eq!(reply.body.in_reply_to, Some(7));
    assert_eq!(reply.body.payload, 42);
    assert_eq!(counter, 4);
}

#[test]
fn reply_ids_strictly_increase() {
    let mut counter: u64 = 1;
    let mut last: u64 = 0;
    for k in 0..4u64 {
        let msg: Message<()> = Message {
            src: "c1".to_string(),
            dest: "n0".to_string(),
            body: Body {
                id: Some(10 + k),
                in_reply_to: None,
                payload: (),
            },
        };
        let reply = msg.into_reply(&mut counter);
        let id = reply.body.id.unwrap();
        assert!(id > last || (k == 0 && id == 1));
        assert_eq!(reply.body.in_reply_to, Some(10 + k));
        last = id;
    }
    assert_eq!(counter, 5);
}
