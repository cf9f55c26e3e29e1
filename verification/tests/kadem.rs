use dolomedes::kadem::{BucketUpdate, IpAddress, Kademlia, KademliaError, NodeContact, BUCKET_SIZE};
use dolomedes::node_id::NodeId;
use std::collections::VecDeque;

fn id(first: u8, last: u8) -> NodeId {
    let mut b = [0u8; 32];
    b[0] = first;
    b[31] = last;
    NodeId::from_be_bytes(b)
}

fn contact(first: u8, last: u8, port: u16) -> NodeContact {
    NodeContact { port, node_id: id(first, last), ip: IpAddress::V4([127, 0, 0, 1]) }
}

fn ids(v: &VecDeque<NodeContact>) -> Vec<NodeId> {
    v.iter().map(|c| c.node_id).collect()
}

#[test]
fn new_table_is_empty() {
    let t = Kademlia::new(id(0, 0));
    assert_eq!(t.len(), 0);
    assert!(t.is_empty());
}

#[test]
fn routing_index_is_common_prefix_length() {
    let t = Kademlia::new(id(0, 0));
    assert_eq!(t.routing_index(id(0x80, 0)), 0);
    assert_eq!(t.routing_index(id(0x40, 0)), 1);
    assert_eq!(t.routing_index(id(0, 1)), 255);
    let t2 = Kademlia::new(id(0xFF, 0));
    assert_eq!(t2.routing_index(id(0xFE, 0)), 7);
}

#[test]
fn xor_distance_is_symmetric_and_zero_on_self() {
    let a = id(0x31, 0x07);
    let b = id(0x22, 0x70);
    assert_eq!(Kademlia::xor_distance(a, b), Kademlia::xor_distance(b, a));
    assert_eq!(Kademlia::xor_distance(a, a), id(0, 0));
    assert_eq!(Kademlia::xor_distance(a, b), id(0x13, 0x77));
}

#[test]
fn inserted_contacts_go_to_the_front_of_their_bucket() {
    let mut t = Kademlia::new(id(0, 0));
    assert!(matches!(t.try_insert(&contact(0x80, 1, 1)), BucketUpdate::Settled(true)));
    assert!(matches!(t.try_insert(&contact(0x80, 2, 2)), BucketUpdate::Settled(true)));
    assert_eq!(t.len(), 2);
    assert!(!t.is_empty());
    assert_eq!(ids(t.bucket_for(id(0x80, 9))), vec![id(0x80, 2), id(0x80, 1)]);
}

#[test]
fn known_contact_moves_to_front_with_new_address() {
    let mut t = Kademlia::new(id(0, 0));
    t.try_insert(&contact(0x80, 1, 1));
    t.try_insert(&contact(0x80, 2, 2));
    assert!(matches!(t.try_insert(&contact(0x80, 1, 99)), BucketUpdate::Settled(true)));
    let b = t.bucket_for(id(0x80, 0));
    assert_eq!(b.len(), 2);
    assert_eq!(b[0].node_id, id(0x80, 1));
    assert_eq!(b[0].port, 99);
    assert_eq!(b[1].node_id, id(0x80, 2));
}

fn full_table() -> Kademlia {
    let mut t = Kademlia::new(id(0, 0));
    for k in 1..=(BUCKET_SIZE as u8) {
        t.try_insert(&contact(0x80, k, k as u16));
    }
    t
}

#[test]
fn full_bucket_hands_back_its_oldest_contact() {
    let mut t = full_table();
    let newcomer = contact(0x80, 100, 100);
    match t.try_insert(&newcomer) {
        BucketUpdate::PingOldest(c) => assert_eq!(c.node_id, id(0x80, 1)),
        other => panic!("expected a ping request, got {:?}", other),
    }
    assert_eq!(t.bucket_for(id(0x80, 0)).len(), BUCKET_SIZE - 1);
}

#[test]
fn live_oldest_contact_is_kept() {
    let mut t = full_table();
    let newcomer = contact(0x80, 100, 100);
    let oldest = match t.try_insert(&newcomer) {
        BucketUpdate::PingOldest(c) => c,
        other => panic!("expected a ping request, got {:?}", other),
    };
    assert!(t.can_finish_insert(&oldest, &newcomer, true));
    assert!(!t.finish_insert(oldest, &newcomer, true));
    let b = t.bucket_for(id(0x80, 0));
    assert_eq!(b.len(), BUCKET_SIZE);
    assert_eq!(b[0].node_id, id(0x80, 1));
    assert!(b.iter().all(|c| c.node_id != id(0x80, 100)));
}

#[test]
fn dead_oldest_contact_is_replaced() {
    let mut t = full_table();
    let newcomer = contact(0x80, 100, 100);
    let oldest = match t.try_insert(&newcomer) {
        BucketUpdate::PingOldest(c) => c,
        other => panic!("expected a ping request, got {:?}", other),
    };
    assert!(t.finish_insert(oldest, &newcomer, false));
    let b = t.bucket_for(id(0x80, 0));
    assert_eq!(b.len(), BUCKET_SIZE);
    assert_eq!(b[0].node_id, id(0x80, 100));
    assert!(b.iter().all(|c| c.node_id != id(0x80, 1)));
}

#[test]
fn finish_insert_is_refused_when_bucket_is_full() {
    let t = full_table();
    let newcomer = contact(0x80, 100, 100);
    assert!(!t.can_finish_insert(&contact(0x80, 1, 1), &newcomer, false));
}

#[test]
fn update_bucket_and_settle_bucket_on_a_bare_bucket() {
    let mut b: VecDeque<NodeContact> = VecDeque::new();
    for k in 1..=(BUCKET_SIZE as u8) {
        assert!(matches!(Kademlia::update_bucket(&mut b, &contact(1, k, 0)), BucketUpdate::Settled(true)));
    }
    let c = contact(1, 50, 0);
    let oldest = match Kademlia::update_bucket(&mut b, &c) {
        BucketUpdate::PingOldest(o) => o,
        other => panic!("expected a ping request, got {:?}", other),
    };
    assert_eq!(oldest.node_id, id(1, 1));
    assert!(Kademlia::settle_bucket(&mut b, oldest, &c, false));
    assert_eq!(b[0].node_id, id(1, 50));
    assert_eq!(b.len(), BUCKET_SIZE);
}

#[test]
fn k_closest_of_own_id_is_an_error() {
    let t = full_table();
    assert_eq!(t.k_closest(id(0, 0)).err(), Some(KademliaError::FindingSelf));
}

#[test]
fn k_closest_returns_nearest_first() {
    let mut t = Kademlia::new(id(0, 0));
    let targets = [(0x80, 1), (0x40, 1), (0x20, 1), (0x10, 1), (0, 3), (0, 2), (0x81, 0)];
    for (f, l) in targets {
        t.try_insert(&contact(f, l, 1));
    }
    let got = t.k_closest(id(0x80, 0)).unwrap();
    let got_ids: Vec<NodeId> = got.iter().map(|c| c.node_id).collect();
    assert_eq!(
        got_ids,
        vec![id(0x80, 1), id(0x81, 0), id(0, 2), id(0, 3), id(0x10, 1), id(0x20, 1), id(0x40, 1)]
    );
}

#[test]
fn k_closest_answers_at_most_bucket_size() {
    let mut t = Kademlia::new(id(0, 0));
    for k in 1..=12u8 {
        t.try_insert(&contact(0, k, 1));
    }
    assert_eq!(t.len(), 12);
    let got = t.k_closest(id(0, 1)).unwrap();
    assert_eq!(got.len(), BUCKET_SIZE);
    assert_eq!(got[0].node_id, id(0, 1));
    for w in got.windows(2) {
        let da = Kademlia::xor_distance(w[0].node_id, id(0, 1));
        let db = Kademlia::xor_distance(w[1].node_id, id(0, 1));
        assert!(da.less_than(&db));
    }
}

#[test]
fn small_table_lookup_returns_every_contact() {
    let mut t = Kademlia::new(id(0, 0));
    for (f, l) in [(0x80, 1), (0x01, 1), (0, 9)] {
        t.try_insert(&contact(f, l, 1));
    }
    let got = t.k_closest(id(0xFF, 0xFF)).unwrap();
    assert_eq!(got.len(), 3);
}

#[test]
fn lookup_finds_nearer_contacts_in_higher_buckets() {
    // Bucket 0 is empty, bucket 1 is full and a nearer contact sits in
    // bucket 2: the answer ranks every known contact.
    let mut t = Kademlia::new(id(0, 0));
    for k in 0..8u8 {
        t.try_insert(&contact(0x40, k, 1));
    }
    t.try_insert(&contact(0x20, 0, 1));
    let got = t.k_closest(id(0x80, 0)).unwrap();
    let got_ids: Vec<NodeId> = got.iter().map(|c| c.node_id).collect();
    let mut want = vec![id(0x20, 0)];
    for k in 0..7u8 {
        want.push(id(0x40, k));
    }
    assert_eq!(got_ids, want);
}

#[test]
fn lookup_answers_distinct_contacts_in_strict_order() {
    let mut t = Kademlia::new(id(0, 0));
    for f in [0x80u8, 0x40, 0x20, 0x10, 0x08, 0x04] {
        for k in 1..=3u8 {
            t.try_insert(&contact(f, k, 1));
        }
    }
    let target = id(0x11, 0x22);
    let got = t.k_closest(target).unwrap();
    assert_eq!(got.len(), 8);
    for i in 0..got.len() {
        for j in (i + 1)..got.len() {
            assert_ne!(got[i].node_id, got[j].node_id);
            let di = Kademlia::xor_distance(got[i].node_id, target);
            let dj = Kademlia::xor_distance(got[j].node_id, target);
            assert!(di.less_than(&dj));
        }
    }
}

#[test]
fn lookup_of_the_own_identifier_is_refused() {
    let mut t = Kademlia::new(id(0, 0));
    t.try_insert(&contact(0, 5, 1));
    assert_eq!(t.k_closest(id(0, 0)).err(), Some(KademliaError::FindingSelf));
}
