use challenge::message::{Body, Echo, EchoPayload, Init, InitPayload, Message};
use challenge::node::broadcast::{BroadcastNode, BroadcastPayload};
use challenge::node::combined::{StepError, Type};
use challenge::node::echo::EchoNode;
use challenge::node::unique_ids::{UniqueIdNode, UniqueIdPayload};
use challenge::node::{dispatch, handle_in_order, start, CombinedNode, Event};
use challenge::Node;

fn envelope<P>(src: &str, dst: &str, id: Option<usize>, payload: P) -> Message<P> {
    Message {
        src: src.to_string(),
        dst: dst.to_string(),
        body: Body { id, in_reply_to: None, payload },
    }
}

fn init(id: &str, roster: &[&str]) -> Init {
    Init {
        node_id: id.to_string(),
        node_ids: roster.iter().map(|s| s.to_string()).collect(),
    }
}

#[test]
fn into_reply_swaps_and_counts() {
    let m = envelope("a", "b", Some(4), 1u8);
    let mut counter: usize = 7;
    let r = m.into_reply(Some(&mut counter));
    assert_eq!(r.src, "b");
    assert_eq!(r.dst, "a");
    assert_eq!(r.body.id, Some(7));
    assert_eq!(r.body.in_reply_to, Some(4));
    assert_eq!(r.body.payload, 1u8);
    assert_eq!(counter, 8);
    let r2 = envelope("a", "b", None, 2u8).into_reply(None);
    assert_eq!(r2.body.id, None);
    assert_eq!(r2.body.in_reply_to, None);
}

#[test]
fn echo_answers_with_same_text() {
    let mut n = EchoNode::from_init(&init("n1", &["n1"]));
    let out = n.process(envelope(
        "c",
        "n1",
        Some(3),
        EchoPayload::Echo(Echo { echo: "hi".to_string() }),
    ));
    assert_eq!(out.len(), 1);
    assert_eq!(out[0].body.id, Some(0));
    assert_eq!(out[0].body.in_reply_to, Some(3));
    match &out[0].body.payload {
        EchoPayload::EchoOk(e) => assert_eq!(e.echo, "hi"),
        _ => panic!("expected echo_ok"),
    }
    assert!(n.on_timeout().is_empty());
}

#[test]
fn unique_ids_carry_node_and_counter() {
    let mut n = UniqueIdNode::from_init(&init("n3", &["n1", "n3"]));
    let a = n.process(envelope("c", "n3", Some(1), UniqueIdPayload::Generate));
    let b = n.process(envelope("c", "n3", Some(2), UniqueIdPayload::Generate));
    let ids: Vec<String> = [a, b]
        .iter()
        .map(|o| match &o[0].body.payload {
            UniqueIdPayload::GenerateOk { id } => id.clone(),
            _ => panic!("expected generate_ok"),
        })
        .collect();
    assert_eq!(ids, vec!["n3-1".to_string(), "n3-2".to_string()]);
}

#[test]
fn unique_id_of_large_counter() {
    let mut n = UniqueIdNode::from_init(&init("x", &["x"]));
    *n.id() = 1234;
    let out = n.process(envelope("c", "x", None, UniqueIdPayload::Generate));
    match &out[0].body.payload {
        UniqueIdPayload::GenerateOk { id } => assert_eq!(id, "x-1235"),
        _ => panic!("expected generate_ok"),
    }
}

#[test]
fn handshake_builds_node_and_acknowledges() {
    let m = envelope("c", "n1", Some(5), InitPayload::Init(init("n1", &["n1", "n2"])));
    let (mut node, ack): (BroadcastNode, _) = start(m).expect("init accepted");
    assert!(matches!(ack.body.payload, InitPayload::InitOk));
    assert_eq!(ack.body.id, Some(0));
    assert_eq!(ack.body.in_reply_to, Some(5));
    assert_eq!(ack.src, "n1");
    assert_eq!(ack.dst, "c");
    let out = node.process(envelope("c", "n1", Some(6), BroadcastPayload::Read));
    assert_eq!(out[0].body.id, Some(1));
}

#[test]
fn handshake_refuses_other_first_message() {
    let m = envelope("c", "n1", Some(5), InitPayload::InitOk);
    assert!(start::<BroadcastPayload, BroadcastNode>(m).is_none());
}

#[test]
fn dispatch_runs_message_tick_and_end() {
    let mut node = BroadcastNode::from_init(&init("n1", &["n1", "n2"]));
    let topo = BroadcastPayload::Topology {
        topology: vec![challenge::node::broadcast::Adjacency {
            node: "n1".to_string(),
            neighbors: vec!["n2".to_string()],
        }],
    };
    let (out, go) = dispatch(&mut node, Some(Event::Message(envelope("c", "n1", Some(1), topo))));
    assert!(go);
    assert!(matches!(out[0].body.payload, BroadcastPayload::TopologyOk));
    let b = BroadcastPayload::Broadcast { message: 2 };
    dispatch(&mut node, Some(Event::Message(envelope("c", "n1", Some(2), b))));
    let (tick, go) = dispatch(&mut node, None);
    assert!(go);
    assert_eq!(tick.len(), 1);
    let (last, go) = dispatch(&mut node, Some(Event::Eof));
    assert!(!go);
    assert_eq!(last.len(), 1);
    assert_eq!(last[0].dst, "n2");
}

#[test]
fn dispatch_stops_when_ids_run_out() {
    let mut node = UniqueIdNode::from_init(&init("n1", &["n1"]));
    *node.id() = usize::MAX;
    let (out, go) = dispatch(&mut node, Some(Event::Message(envelope("c", "n1", None, UniqueIdPayload::Generate))));
    assert!(out.is_empty());
    assert!(!go);
}

fn combined_init(n: &mut CombinedNode, id: &str, roster: &[&str]) -> Result<Vec<Message<Type>>, StepError> {
    n.step(envelope(
        "c",
        id,
        Some(1),
        Type::Init { node_id: id.to_string(), node_ids: roster.iter().map(|s| s.to_string()).collect() },
    ))
}

#[test]
fn combined_init_and_generate() {
    let mut n = CombinedNode::new();
    let out = combined_init(&mut n, "n2", &["n1", "n2", "n3"]).unwrap();
    assert!(matches!(out[0].body.payload, Type::InitOk));
    assert_eq!(out[0].body.in_reply_to, Some(1));
    let ids: Vec<usize> = (0..2)
        .map(|k| {
            let o = n.step(envelope("c", "n2", Some(10 + k), Type::Generate)).unwrap();
            match o[0].body.payload {
                Type::GenerateOk { id } => id,
                _ => panic!("expected generate_ok"),
            }
        })
        .collect();
    assert_eq!(ids, vec![5, 8]);
}

#[test]
fn combined_rejects_bad_node_ids() {
    let mut n = CombinedNode::new();
    assert_eq!(combined_init(&mut n, "n", &["n"]).unwrap_err(), StepError::BadNodeId);
    assert_eq!(combined_init(&mut n, "nx1", &["n"]).unwrap_err(), StepError::BadNodeId);
    assert_eq!(
        combined_init(&mut n, "n99999999999999999999999", &["n"]).unwrap_err(),
        StepError::BadNodeId
    );
    assert!(combined_init(&mut n, "n18446744073709551615", &["n"]).is_ok());
}

#[test]
fn combined_generate_overflow_is_refused() {
    let mut n = CombinedNode::new();
    combined_init(&mut n, "n18446744073709551615", &["a", "b"]).unwrap();
    let r = n.step(envelope("c", "n", Some(2), Type::Generate));
    assert_eq!(r.unwrap_err(), StepError::IdsExhausted);
}

#[test]
fn combined_echo_and_read() {
    let mut n = CombinedNode::new();
    let out = n.step(envelope("c", "n1", Some(4), Type::Echo { echo: "e".to_string() })).unwrap();
    match &out[0].body.payload {
        Type::EchoOk { echo } => assert_eq!(echo, "e"),
        _ => panic!("expected echo_ok"),
    }
    assert_eq!(out[0].body.id, Some(4));
    assert_eq!(out[0].body.in_reply_to, Some(4));
}

#[test]
fn combined_floods_new_values_once() {
    let mut n = CombinedNode::new();
    combined_init(&mut n, "n1", &["n1", "n2", "n3"]).unwrap();
    let topo = Type::Topology {
        topology: vec![challenge::node::broadcast::Adjacency {
            node: "n1".to_string(),
            neighbors: vec!["n2".to_string(), "n3".to_string(), "n2".to_string()],
        }],
    };
    n.step(envelope("c", "n1", Some(2), topo)).unwrap();
    let out = n.step(envelope("c", "n1", Some(3), Type::Broadcast { message: 9 })).unwrap();
    assert_eq!(out.len(), 3);
    assert!(matches!(out[0].body.payload, Type::BroadcastOk));
    let dsts: Vec<&str> = out[1..].iter().map(|m| m.dst.as_str()).collect();
    assert_eq!(dsts, vec!["n2", "n3"]);
    assert!(out[1..].iter().all(|m| m.src == "n1" && matches!(m.body.payload, Type::Broadcast { message: 9 })));
    let again = n.step(envelope("n2", "n1", Some(4), Type::Broadcast { message: 9 })).unwrap();
    assert_eq!(again.len(), 1);
    let read = n.step(envelope("c", "n1", Some(5), Type::Read)).unwrap();
    match &read[0].body.payload {
        Type::ReadOk { messages } => assert_eq!(messages, &vec![9]),
        _ => panic!("expected read_ok"),
    }
}

#[test]
fn combined_acks_change_nothing() {
    let mut n = CombinedNode::new();
    assert!(n.step(envelope("c", "n1", Some(1), Type::GenerateOk { id: 3 })).unwrap().is_empty());
    assert!(n.step(envelope("c", "n1", Some(1), Type::TopologyOk)).unwrap().is_empty());
}

#[test]
fn messages_are_answered_in_input_order() {
    let mut node = BroadcastNode::from_init(&init("n1", &["n1"]));
    let input = vec![
        envelope("c", "n1", Some(1), BroadcastPayload::Broadcast { message: 1 }),
        envelope("c", "n1", Some(2), BroadcastPayload::Read),
        envelope("c", "n1", Some(3), BroadcastPayload::Broadcast { message: 2 }),
        envelope("c", "n1", Some(4), BroadcastPayload::Read),
    ];
    let (out, handled) = handle_in_order(&mut node, input);
    assert_eq!(handled, 4);
    let answered: Vec<Option<usize>> = out.iter().map(|m| m.body.in_reply_to).collect();
    assert_eq!(answered, vec![Some(1), Some(2), Some(3), Some(4)]);
    match (&out[1].body.payload, &out[3].body.payload) {
        (BroadcastPayload::ReadOk { messages: a }, BroadcastPayload::ReadOk { messages: b }) => {
            assert_eq!(a, &vec![1]);
            assert_eq!(b, &vec![1, 2]);
        }
        _ => panic!("expected read_ok"),
    }
}

#[test]
fn in_order_handling_stops_without_room() {
    let mut node = UniqueIdNode::from_init(&init("n1", &["n1"]));
    *node.id() = usize::MAX - 1;
    let input = vec![
        envelope("c", "n1", Some(1), UniqueIdPayload::Generate),
        envelope("c", "n1", Some(2), UniqueIdPayload::Generate),
    ];
    let (out, handled) = handle_in_order(&mut node, input);
    assert_eq!(handled, 1);
    assert_eq!(out.len(), 1);
}
