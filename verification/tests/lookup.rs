use dolomedes::kadem::{IpAddress, NodeContact};
use dolomedes::lookup::{SeederSearch, SeedersStep, ERR_DOESNT_OWN_FILE};
use dolomedes::messages::MessageBody;
use dolomedes::node_id::NodeId;

fn id(first: u8, last: u8) -> NodeId {
    let mut b = [0u8; 32];
    b[0] = first;
    b[31] = last;
    NodeId::from_be_bytes(b)
}

fn contact(first: u8, last: u8) -> NodeContact {
    NodeContact { port: 9, node_id: id(first, last), ip: IpAddress::V4([1, 2, 3, 4]) }
}

fn drain(s: &mut SeederSearch) -> Vec<NodeId> {
    let mut out = Vec::new();
    while let Some(c) = s.next_node() {
        out.push(c.node_id);
    }
    out
}

#[test]
fn nodes_are_asked_nearest_first() {
    let file = id(0x80, 0);
    let cands = vec![contact(0x00, 1), contact(0x80, 3), contact(0xC0, 0), contact(0x80, 1)];
    let mut s = SeederSearch::new(file, &cands);
    assert_eq!(drain(&mut s), vec![id(0x80, 1), id(0x80, 3), id(0xC0, 0), id(0x00, 1)]);
    assert!(s.next_node().is_none());
}

#[test]
fn repeated_candidates_are_asked_once() {
    let file = id(0x80, 0);
    let cands = vec![contact(0x80, 1), contact(0x80, 1), contact(0x01, 0)];
    let mut s = SeederSearch::new(file, &cands);
    assert_eq!(drain(&mut s), vec![id(0x80, 1), id(0x01, 0)]);
}

#[test]
fn closer_nodes_from_an_answer_are_queued_once() {
    let file = id(0x80, 0);
    let mut s = SeederSearch::new(file, &vec![contact(0x00, 1)]);
    assert_eq!(s.next_node().map(|c| c.node_id), Some(id(0x00, 1)));
    s.on_owners_reply(&MessageBody::Nodes {
        nodes: vec![contact(0x80, 2), contact(0x00, 1), contact(0x80, 2), contact(0x90, 0)],
    });
    assert_eq!(drain(&mut s), vec![id(0x80, 2), id(0x90, 0)]);
}

#[test]
fn other_answers_queue_nothing() {
    let file = id(0x80, 0);
    let mut s = SeederSearch::new(file, &vec![contact(0x00, 1)]);
    s.on_owners_reply(&MessageBody::PingAck);
    assert_eq!(drain(&mut s), vec![id(0x00, 1)]);
}

#[test]
fn seeders_answers_are_read() {
    match SeederSearch::seeders_step(MessageBody::Nodes { nodes: vec![contact(1, 1)] }) {
        SeedersStep::Found(n) => assert_eq!(n.len(), 1),
        other => panic!("unexpected {:?}", other),
    }
    assert!(matches!(
        SeederSearch::seeders_step(MessageBody::Error { code: ERR_DOESNT_OWN_FILE }),
        SeedersStep::AskOwners
    ));
    assert!(matches!(SeederSearch::seeders_step(MessageBody::Error { code: 7 }), SeedersStep::Refused(7)));
    assert!(matches!(SeederSearch::seeders_step(MessageBody::SeedAck), SeedersStep::AskOwners));
}
