use challenge::message::{Body, Init, Message};
use challenge::node::broadcast::{Adjacency, BroadcastNode, BroadcastPayload};
use challenge::Node;

fn msg(src: &str, dst: &str, id: usize, payload: BroadcastPayload) -> Message<BroadcastPayload> {
    Message {
        src: src.to_string(),
        dst: dst.to_string(),
        body: Body { id: Some(id), in_reply_to: None, payload },
    }
}

fn node(id: &str, roster: &[&str]) -> BroadcastNode {
    BroadcastNode::from_init(&Init {
        node_id: id.to_string(),
        node_ids: roster.iter().map(|s| s.to_string()).collect(),
    })
}

fn topology(me: &str, neighbors: &[&str]) -> BroadcastPayload {
    BroadcastPayload::Topology {
        topology: vec![Adjacency {
            node: me.to_string(),
            neighbors: neighbors.iter().map(|s| s.to_string()).collect(),
        }],
    }
}

fn read(n: &mut BroadcastNode) -> Vec<usize> {
    let out = n.process(msg("c", "n1", 99, BroadcastPayload::Read));
    assert_eq!(out.len(), 1);
    match &out[0].body.payload {
        BroadcastPayload::ReadOk { messages } => messages.clone(),
        _ => panic!("expected read_ok"),
    }
}

fn batches(out: &[Message<BroadcastPayload>]) -> Vec<(String, Vec<usize>)> {
    out.iter()
        .map(|m| match &m.body.payload {
            BroadcastPayload::Gossip { messages } => (m.dst.clone(), messages.clone()),
            _ => panic!("expected gossip"),
        })
        .collect()
}

#[test]
fn broadcast_read_then_gossip_to_both_neighbors() {
    let mut n = node("n1", &["n1", "n2", "n3"]);
    n.process(msg("c", "n1", 1, topology("n1", &["n2", "n3"])));
    let out = n.process(msg("c", "n1", 2, BroadcastPayload::Broadcast { message: 5 }));
    assert_eq!(out.len(), 1);
    assert!(matches!(out[0].body.payload, BroadcastPayload::BroadcastOk));
    assert_eq!(out[0].src, "n1");
    assert_eq!(out[0].dst, "c");
    assert_eq!(out[0].body.in_reply_to, Some(2));
    assert_eq!(read(&mut n), vec![5]);
    let sweep = n.on_timeout();
    assert_eq!(
        batches(&sweep),
        vec![("n2".to_string(), vec![5]), ("n3".to_string(), vec![5])]
    );
    assert!(sweep.iter().all(|m| m.src == "n1" && m.body.in_reply_to.is_none()));
}

#[test]
fn gossip_from_peer_is_not_sent_back() {
    let mut n = node("n1", &["n1", "n2"]);
    n.process(msg("c", "n1", 1, topology("n1", &["n2"])));
    let out = n.process(msg("n2", "n1", 2, BroadcastPayload::Gossip { messages: vec![5, 7] }));
    assert!(matches!(out[0].body.payload, BroadcastPayload::GossipOk));
    assert!(n.on_timeout().is_empty());
    n.process(msg("c", "n1", 3, BroadcastPayload::Broadcast { message: 9 }));
    assert_eq!(batches(&n.on_timeout()), vec![("n2".to_string(), vec![9])]);
}

#[test]
fn topology_twice_keeps_one_neighbor() {
    let mut n = node("n1", &["n1", "n2"]);
    n.process(msg("c", "n1", 1, topology("n1", &["n2"])));
    n.process(msg("c", "n1", 2, topology("n1", &["n2"])));
    n.process(msg("c", "n1", 3, BroadcastPayload::Broadcast { message: 4 }));
    assert_eq!(batches(&n.on_timeout()), vec![("n2".to_string(), vec![4])]);
}

#[test]
fn same_value_twice_is_kept_once() {
    let mut n = node("n1", &["n1", "n2"]);
    n.process(msg("c", "n1", 1, BroadcastPayload::Broadcast { message: 3 }));
    n.process(msg("n2", "n1", 2, BroadcastPayload::Gossip { messages: vec![3, 3] }));
    n.process(msg("c", "n1", 3, BroadcastPayload::Broadcast { message: 3 }));
    assert_eq!(read(&mut n), vec![3]);
}

#[test]
fn gossip_is_resent_until_evidence() {
    let mut n = node("n1", &["n1", "n2"]);
    n.process(msg("c", "n1", 1, topology("n1", &["n2"])));
    n.process(msg("c", "n1", 2, BroadcastPayload::Broadcast { message: 8 }));
    let first = n.on_timeout();
    let second = n.on_timeout();
    assert_eq!(batches(&first), vec![("n2".to_string(), vec![8])]);
    assert_eq!(batches(&second), vec![("n2".to_string(), vec![8])]);
    assert_ne!(first[0].body.id, second[0].body.id);
    n.process(msg("n2", "n1", 3, BroadcastPayload::Broadcast { message: 8 }));
    assert!(n.on_timeout().is_empty());
}

#[test]
fn client_sender_is_not_recorded() {
    let mut n = node("n1", &["n1", "n2"]);
    n.process(msg("c", "n1", 1, topology("n1", &["n2", "c"])));
    n.process(msg("c", "n1", 2, BroadcastPayload::Broadcast { message: 1 }));
    assert_eq!(
        batches(&n.on_timeout()),
        vec![("n2".to_string(), vec![1]), ("c".to_string(), vec![1])]
    );
}

#[test]
fn no_neighbors_no_gossip() {
    let mut n = node("n1", &["n1"]);
    n.process(msg("c", "n1", 1, BroadcastPayload::Broadcast { message: 2 }));
    assert!(n.on_timeout().is_empty());
    let out = n.process(msg("c", "n1", 2, topology("n9", &["n2"])));
    assert!(matches!(out[0].body.payload, BroadcastPayload::TopologyOk));
    assert!(n.on_timeout().is_empty());
}

#[test]
fn self_is_never_a_neighbor() {
    let mut n = node("n1", &["n1", "n2"]);
    n.process(msg("c", "n1", 1, topology("n1", &["n1", "n2", "n2"])));
    n.process(msg("c", "n1", 2, BroadcastPayload::Broadcast { message: 6 }));
    assert_eq!(batches(&n.on_timeout()), vec![("n2".to_string(), vec![6])]);
}

#[test]
fn acknowledgements_are_not_answered() {
    let mut n = node("n1", &["n1"]);
    assert!(n.process(msg("n2", "n1", 1, BroadcastPayload::GossipOk)).is_empty());
    assert!(n.process(msg("n2", "n1", 2, BroadcastPayload::BroadcastOk)).is_empty());
    assert!(n.process(msg("n2", "n1", 3, BroadcastPayload::TopologyOk)).is_empty());
    assert!(n
        .process(msg("n2", "n1", 4, BroadcastPayload::ReadOk { messages: vec![1] }))
        .is_empty());
    assert_eq!(read(&mut n), Vec::<usize>::new());
}

#[test]
fn reply_ids_count_up() {
    let mut n = node("n1", &["n1"]);
    let a = n.process(msg("c", "n1", 10, BroadcastPayload::Read));
    let b = n.process(msg("c", "n1", 11, BroadcastPayload::Read));
    assert_eq!(a[0].body.id, Some(0));
    assert_eq!(b[0].body.id, Some(1));
    assert_eq!(b[0].body.in_reply_to, Some(11));
}

#[test]
fn read_keeps_order_of_learning() {
    let mut n = node("n1", &["n1", "n2"]);
    n.process(msg("n2", "n1", 1, BroadcastPayload::Gossip { messages: vec![7, 5, 7] }));
    n.process(msg("c", "n1", 2, BroadcastPayload::Broadcast { message: 6 }));
    assert_eq!(read(&mut n), vec![7, 5, 6]);
}
