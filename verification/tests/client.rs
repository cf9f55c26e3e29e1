use dolomedes::client::{
    check_chunk_reply, check_metadata, chunk_offset, order_nodes_by_xor_distance, ping_answered,
    plan_request, serve, stored_file_name, ChunkDownload, DolomedesClient, DownloadStep,
    FileShareError, RequestAction, CHUNK_SIZE_BYTES, DEFAULT_CONFIG_PATH, DEFAULT_DATA_DIR,
    DEFAULT_PORT, MAX_CONCURRENT_CHUNK_REQUESTS,
};
use dolomedes::kadem::{IpAddress, NodeContact};
use dolomedes::messages::MessageBody;
use dolomedes::node_id::NodeId;
use dolomedes::setup::{ConfigError, ConfigValues};
use std::cmp::Ordering;

fn id(first: u8, last: u8) -> NodeId {
    let mut b = [0u8; 32];
    b[0] = first;
    b[31] = last;
    NodeId::from_be_bytes(b)
}

fn contact(first: u8, last: u8) -> NodeContact {
    NodeContact { port: 1, node_id: id(first, last), ip: IpAddress::V6([0u8; 16]) }
}

fn client() -> DolomedesClient {
    DolomedesClient::with_config(ConfigValues {
        port: 4000,
        datadir: "/data".to_string(),
        signing_key: [1u8; 32],
        node_id: id(0, 0),
    })
}

#[test]
fn constants_have_their_values() {
    assert_eq!(DEFAULT_PORT, 31460);
    assert_eq!(DEFAULT_CONFIG_PATH, "dolomedes.cfg");
    assert_eq!(DEFAULT_DATA_DIR, "dolomedes/data");
    assert_eq!(CHUNK_SIZE_BYTES, 65536);
    assert_eq!(MAX_CONCURRENT_CHUNK_REQUESTS, 5);
}

#[test]
fn client_starts_from_its_config() {
    let c = client();
    assert_eq!(c.port, 4000);
    assert_eq!(c.datadir, "/data");
    assert_eq!(c.signing_key, [1u8; 32]);
    assert_eq!(c.node_id, id(0, 0));
    assert!(c.routing_table.is_empty());
    assert!(c.seeders.is_empty());
}

#[test]
fn acknowledged_seeders_are_recorded_in_order() {
    let mut c = client();
    let f = id(9, 9);
    assert!(matches!(c.acknowledge_seed(id(1, 1), f), MessageBody::SeedAck));
    assert!(matches!(c.acknowledge_seed(id(2, 2), f), MessageBody::SeedAck));
    assert!(matches!(c.acknowledge_seed(id(3, 3), id(8, 8)), MessageBody::SeedAck));
    assert_eq!(c.seeders_of(f), vec![id(1, 1), id(2, 2)]);
    assert_eq!(c.seeders_of(id(8, 8)), vec![id(3, 3)]);
    assert!(c.seeders_of(id(7, 7)).is_empty());
    assert_eq!(c.seeders.len(), 2);
}

#[test]
fn serve_nodes_answers_closest_known() {
    let mut c = client();
    c.routing_table.try_insert(&contact(0x80, 1));
    c.routing_table.try_insert(&contact(0x01, 1));
    match c.serve_nodes(id(0x80, 0)) {
        MessageBody::Nodes { nodes } => {
            assert_eq!(nodes.len(), 2);
            assert_eq!(nodes[0].node_id, id(0x80, 1));
            assert_eq!(nodes[1].node_id, id(0x01, 1));
        }
        other => panic!("unexpected {:?}", other),
    }
}

#[test]
fn serve_reports_an_unreadable_config() {
    match serve("") {
        Err(e) => assert!(matches!(e, ConfigError::MissingSecretKey)),
        Ok(never) => match never {},
    }
    match serve("# comment") {
        Err(e) => assert!(matches!(e, ConfigError::MissingEquals { line: 1 })),
        Ok(never) => match never {},
    }
}

#[test]
fn ping_counts_only_an_acknowledgement() {
    assert!(!ping_answered(&None));
    assert!(ping_answered(&Some(MessageBody::PingAck)));
    assert!(!ping_answered(&Some(MessageBody::Ping)));
    assert!(!ping_answered(&Some(MessageBody::Error { code: 1 })));
}

#[test]
fn stored_file_name_is_little_endian_hex() {
    let mut b = [0u8; 32];
    b[0] = 0xAB;
    b[31] = 0x01;
    let name = stored_file_name(&NodeId::from_be_bytes(b));
    assert_eq!(name.len(), 64);
    assert!(name.starts_with("01"));
    assert!(name.ends_with("ab"));
    assert_eq!(name, format!("01{}ab", "00".repeat(30)));
}

#[test]
fn requests_are_planned() {
    let s = id(4, 4);
    let f = id(5, 5);
    assert!(matches!(plan_request(s, MessageBody::Ping), RequestAction::Reply(MessageBody::PingAck)));
    assert!(matches!(plan_request(s, MessageBody::GetNode { node: f }), RequestAction::ServeNodes(n) if n == f));
    assert!(matches!(plan_request(s, MessageBody::GetOwners { file_id: f }), RequestAction::ServeNodes(n) if n == f));
    assert!(matches!(plan_request(s, MessageBody::GetSeeders { file_id: f }), RequestAction::ServeNodes(n) if n == f));
    assert!(matches!(
        plan_request(s, MessageBody::DeclareSeed { file_id: f }),
        RequestAction::AcknowledgeSeed { sender, file_id } if sender == s && file_id == f
    ));
    match plan_request(s, MessageBody::GetFileMetadata { file_id: f }) {
        RequestAction::ServeFileMetadata { file_id, file_name } => {
            assert_eq!(file_id, f);
            assert_eq!(file_name, stored_file_name(&f));
        }
        other => panic!("unexpected {:?}", other),
    }
    match plan_request(s, MessageBody::GetChunk { chunk_index: 3, chunk_size: 65536, file_id: f }) {
        RequestAction::ServeChunk { chunk_index, chunk_size, file_id, file_name } => {
            assert_eq!((chunk_index, chunk_size, file_id), (3, 65536, f));
            assert_eq!(file_name, stored_file_name(&f));
        }
        other => panic!("unexpected {:?}", other),
    }
    assert!(matches!(plan_request(s, MessageBody::SeedAck), RequestAction::Reply(MessageBody::InvalidMessage)));
    assert!(matches!(plan_request(s, MessageBody::Error { code: 2 }), RequestAction::Reply(MessageBody::InvalidMessage)));
}

#[test]
fn nearer_contact_orders_greater() {
    let file = id(0x80, 0);
    let near = contact(0x80, 1);
    let far = contact(0x00, 1);
    assert_eq!(order_nodes_by_xor_distance(file, &near, &far), Ordering::Greater);
    assert_eq!(order_nodes_by_xor_distance(file, &far, &near), Ordering::Less);
    assert_eq!(order_nodes_by_xor_distance(file, &near, &near), Ordering::Equal);
}

#[test]
fn metadata_answers_are_checked() {
    let f = id(1, 2);
    let ok = check_metadata(f, MessageBody::FileMetadata { file_id: f, file_size: 77, file_name: "x.bin".to_string() });
    assert_eq!(ok, Ok((77, "x.bin".to_string())));
    let wrong = check_metadata(f, MessageBody::FileMetadata { file_id: id(1, 3), file_size: 7, file_name: String::new() });
    assert_eq!(wrong, Err(FileShareError::MetadataFileMismatch));
    assert_eq!(check_metadata(f, MessageBody::SeedAck), Err(FileShareError::InvalidMetadata));
}

#[test]
fn chunk_answers_are_checked() {
    let f = id(1, 2);
    let ok = check_chunk_reply(f, MessageBody::Chunk { chunk_index: 4, chunk_size: 65536, file_id: f, data: vec![1, 2] });
    assert_eq!(ok, Ok((4, vec![1, 2])));
    let size = check_chunk_reply(f, MessageBody::Chunk { chunk_index: 4, chunk_size: 100, file_id: f, data: vec![] });
    assert_eq!(size, Err(FileShareError::ChunkSizeMismatch));
    let file = check_chunk_reply(f, MessageBody::Chunk { chunk_index: 4, chunk_size: 65536, file_id: id(0, 0), data: vec![] });
    assert_eq!(file, Err(FileShareError::ChunkFileMismatch));
    assert_eq!(check_chunk_reply(f, MessageBody::PingAck), Err(FileShareError::InvalidChunkResponse));
}

#[test]
fn chunk_offset_is_index_times_size() {
    assert_eq!(chunk_offset(3, 65536), 196608);
    assert_eq!(chunk_offset(0, 65536), 0);
}

fn expect_request(d: &mut ChunkDownload, index: u32, seeder: NodeId, file: NodeId) {
    match d.step() {
        DownloadStep::Request { seeder: s, request } => {
            assert_eq!(s.node_id, seeder);
            match request {
                MessageBody::GetChunk { chunk_index, chunk_size, file_id } => {
                    assert_eq!((chunk_index, chunk_size, file_id), (index, 65536, file));
                }
                other => panic!("unexpected {:?}", other),
            }
        }
        other => panic!("unexpected {:?}", other),
    }
}

#[test]
fn download_requests_chunks_from_seeders_in_turn() {
    let f = id(7, 7);
    let seeders = vec![contact(1, 1), contact(2, 2)];
    let mut d = ChunkDownload::new(f, 6 * 65536 + 100, seeders);
    for k in 0..5u32 {
        expect_request(&mut d, k, if k % 2 == 0 { id(1, 1) } else { id(2, 2) }, f);
    }
    assert!(matches!(d.step(), DownloadStep::AwaitChunk));
    assert_eq!(d.on_chunk(0, 100), Err(FileShareError::ExtraFinalChunk));
    expect_request(&mut d, 5, id(2, 2), f);
    assert_eq!(d.on_chunk(1, 65536), Ok(65536));
    expect_request(&mut d, 6, id(1, 1), f);
    assert!(matches!(d.step(), DownloadStep::AwaitChunk));
    // the final chunk is accepted only while it is the last one requested
    assert_eq!(d.on_chunk(6, 100), Err(FileShareError::ExtraFinalChunk));
    assert!(matches!(d.step(), DownloadStep::Idle));
}

#[test]
fn final_chunk_accepted_while_last_requested() {
    let f = id(7, 7);
    let mut d = ChunkDownload::new(f, 5 * 65536 + 1, vec![contact(1, 1)]);
    for k in 0..5u32 {
        expect_request(&mut d, k, id(1, 1), f);
    }
    assert_eq!(d.on_chunk(5, 1), Ok(5 * 65536));
}

#[test]
fn download_rejects_odd_chunk_sizes() {
    let f = id(7, 7);
    let mut d = ChunkDownload::new(f, 10 * 65536, vec![contact(1, 1)]);
    for k in 0..5u32 {
        expect_request(&mut d, k, id(1, 1), f);
    }
    assert_eq!(d.on_chunk(2, 12), Err(FileShareError::InvalidChunkSize));
}

#[test]
fn empty_file_download_finishes_at_once() {
    let mut d = ChunkDownload::new(id(7, 7), 0, vec![contact(1, 1)]);
    assert!(matches!(d.step(), DownloadStep::Finished));
}

#[test]
fn download_needs_a_seeder() {
    assert_eq!(ChunkDownload::start(id(7, 7), 10, vec![]).err(), Some(FileShareError::NoSeeders));
    let mut d = ChunkDownload::start(id(7, 7), 10, vec![contact(1, 1)]).unwrap();
    expect_request(&mut d, 0, id(1, 1), id(7, 7));
}
