use dolomedes::messages::{take_bytes, Message, MessageBody, MessageError};
use dolomedes::node_id::NodeId;
use ed25519_dalek::Signer;

fn id(last: u8) -> NodeId {
    let mut b = [0u8; 32];
    b[31] = last;
    NodeId::from_be_bytes(b)
}

fn public_of(secret: &[u8; 32]) -> [u8; 32] {
    ed25519_dalek::SigningKey::from_bytes(secret).verifying_key().to_bytes()
}

#[test]
fn discriminants_match_the_protocol() {
    assert_eq!(MessageBody::Ping.discriminant(), 0x00);
    assert_eq!(MessageBody::PingAck.discriminant(), 0x01);
    assert_eq!(MessageBody::DeclareSeed { file_id: id(1) }.discriminant(), 0x02);
    assert_eq!(MessageBody::SeedAck.discriminant(), 0x03);
    assert_eq!(MessageBody::GetNode { node: id(1) }.discriminant(), 0x04);
    assert_eq!(MessageBody::GetOwners { file_id: id(1) }.discriminant(), 0x05);
    assert_eq!(MessageBody::Nodes { nodes: vec![] }.discriminant(), 0x06);
    assert_eq!(
        MessageBody::JoinNetwork { port: 1, nonce: id(2), verifying_key: [0u8; 32] }.discriminant(),
        0x07
    );
    assert_eq!(MessageBody::JoinAck.discriminant(), 0x08);
    assert_eq!(MessageBody::GetFileMetadata { file_id: id(1) }.discriminant(), 0x09);
    assert_eq!(
        MessageBody::FileMetadata { file_id: id(1), file_size: 3, file_name: "a".to_string() }
            .discriminant(),
        0x0A
    );
    assert_eq!(
        MessageBody::GetChunk { chunk_index: 0, chunk_size: 65536, file_id: id(1) }.discriminant(),
        0x0B
    );
    assert_eq!(
        MessageBody::Chunk { chunk_index: 0, chunk_size: 1, file_id: id(1), data: vec![1] }
            .discriminant(),
        0x0C
    );
    assert_eq!(MessageBody::GetSeeders { file_id: id(1) }.discriminant(), 0x0D);
    assert_eq!(MessageBody::InvalidMessage.discriminant(), 0xFE);
    assert_eq!(MessageBody::Error { code: -3 }.discriminant(), 0xFF);
}

#[test]
fn new_message_keeps_its_fields_and_signs_payload_and_time() {
    let secret = [9u8; 32];
    let m = Message::new(vec![1, 2, 3], id(5), &secret, 0x0102030405060708);
    assert_eq!(m.node_id, id(5));
    assert_eq!(m.payload(), &[1u8, 2, 3][..]);
    assert_eq!(m.timestamp(), 0x0102030405060708);
    let mut signed = vec![1u8, 2, 3];
    signed.extend_from_slice(&0x0102030405060708u64.to_le_bytes());
    let expected = ed25519_dalek::SigningKey::from_bytes(&secret).sign(&signed).to_bytes();
    assert_eq!(m.signature(), expected);
}

#[test]
fn signable_payload_appends_little_endian_time() {
    let v = Message::signable_payload(&[0xAA], 1);
    assert_eq!(v, vec![0xAA, 1, 0, 0, 0, 0, 0, 0, 0]);
}

#[test]
fn wire_form_is_payload_time_signature() {
    let secret = [3u8; 32];
    let m = Message::new(vec![7, 7], id(1), &secret, 42);
    let wire = m.to_payload();
    assert_eq!(wire.len(), 2 + 8 + 64);
    assert_eq!(&wire[..2], &[7u8, 7][..]);
    assert_eq!(&wire[2..10], &42u64.to_le_bytes()[..]);
    assert_eq!(&wire[10..], &m.signature()[..]);
}

#[test]
fn message_verifies_under_the_senders_key_only() {
    let secret = [11u8; 32];
    let m = Message::new(vec![9, 8, 7], id(2), &secret, 1000);
    assert!(m.verify(&public_of(&secret)));
    assert!(!m.verify(&public_of(&[12u8; 32])));
}

#[test]
fn altered_time_does_not_verify() {
    let secret = [11u8; 32];
    let m = Message::new(vec![9], id(2), &secret, 1000);
    let other = Message::new(vec![9], id(2), &secret, 1001);
    assert_ne!(m.signature(), other.signature());
    assert!(other.verify(&public_of(&secret)));
}

#[test]
fn take_bytes_splits_off_the_front() {
    let data = [1u8, 2, 3, 4, 5];
    let mut buf: &[u8] = &data;
    let head = take_bytes(&mut buf, 2).unwrap();
    assert_eq!(head, &[1u8, 2][..]);
    assert_eq!(buf, &[3u8, 4, 5][..]);
    let all = take_bytes(&mut buf, 3).unwrap();
    assert_eq!(all, &[3u8, 4, 5][..]);
    assert!(buf.is_empty());
}

#[test]
fn take_bytes_past_the_end_fails_and_leaves_buffer() {
    let data = [1u8, 2];
    let mut buf: &[u8] = &data;
    assert_eq!(take_bytes(&mut buf, 3), Err(MessageError::UnexpectedEnd));
    assert_eq!(buf, &[1u8, 2][..]);
    assert_eq!(take_bytes(&mut buf, 0), Ok(&[][..]));
}

#[test]
fn wire_form_reads_back_with_take_bytes() {
    let secret = [5u8; 32];
    let m = Message::new(vec![1, 2, 3, 4], id(3), &secret, 987654321);
    let wire = m.to_payload();
    let mut buf: &[u8] = &wire;
    let payload = take_bytes(&mut buf, 4).unwrap();
    assert_eq!(payload, m.payload());
    let time = take_bytes(&mut buf, 8).unwrap();
    assert_eq!(u64::from_le_bytes(time.try_into().unwrap()), 987654321);
    let signature = take_bytes(&mut buf, 64).unwrap();
    assert_eq!(signature, &m.signature()[..]);
    assert!(buf.is_empty());
}
