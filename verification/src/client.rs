//! The decisions of a node's network client: how it answers requests, what
//! it records, and how it downloads a file in chunks. Sending and
//! receiving are left to the caller.

use crate::encoding::{hex_encode, hex_encode_spec};
use crate::kadem::{closest_selection, distance, flatten, Kademlia, NodeContact};
use crate::messages::{FileId, MessageBody};
use crate::node_id::{lex_lt, NodeId};
use crate::setup::{ConfigValues, ConfigError, config_outcome, parse_config};
use std::cmp::Ordering;
use std::convert::Infallible;
use vstd::prelude::*;

verus! {

/// The UDP port a node listens on unless configured otherwise.
pub const DEFAULT_PORT: u16 = 31460;

/// Where the configuration file is written by default.
pub const DEFAULT_CONFIG_PATH: &'static str = "dolomedes.cfg";

/// Where shared files are kept by default.
pub const DEFAULT_DATA_DIR: &'static str = "dolomedes/data";

/// Leading zero bits the proof of work of a joining node must have.
pub const POW_LEADING_ZEROES: usize = 24;

/// Size of a file chunk, in bytes.
pub const CHUNK_SIZE_BYTES: i64 = 1024 * 64;

/// Most chunk requests a download keeps in flight.
pub const MAX_CONCURRENT_CHUNK_REQUESTS: usize = 5;

/// A node's state: its port, data directory, Ed25519 secret key,
/// identifier, routing table, and the nodes that declared they seed each
/// file.
pub struct DolomedesClient {
    pub port: u16,
    pub datadir: String,
    pub signing_key: [u8; 32],
    pub node_id: NodeId,
    pub routing_table: Kademlia,
    /// The seeders of each file, one entry per file.
    pub seeders: Vec<(FileId, Vec<NodeId>)>,
}

/// The seeders recorded in a list of `(file, seeders)` pairs.
pub open spec fn seeders_view(s: Seq<(FileId, Vec<NodeId>)>) -> Map<FileId, Seq<NodeId>>
    decreases s.len(),
{
    if s.len() == 0 {
        Map::empty()
    } else {
        seeders_view(s.drop_last()).insert(s.last().0, s.last().1@)
    }
}

impl DolomedesClient {
    /// The seeders recorded for each file.
    pub open spec fn seeders_map(&self) -> Map<FileId, Seq<NodeId>> {
        seeders_view(self.seeders@)
    }

    /// The routing table is well formed and belongs to this node, and each
    /// file has at most one entry in the seeder list.
    pub open spec fn wf(&self) -> bool {
        &&& self.routing_table.wf()
        &&& self.routing_table.own_id() == self.node_id
        &&& forall|i: int, j: int|
            0 <= i < j < self.seeders@.len() ==> #[trigger] self.seeders@[i].0 != #[trigger] self.seeders@[j].0
    }

    /// A node set up from its configuration, with an empty routing table
    /// and no recorded seeders.
    pub fn with_config(config: ConfigValues) -> (r: DolomedesClient)
        ensures
            r.wf(),
            r.port == config.port,
            r.datadir@ == config.datadir@,
            r.signing_key == config.signing_key,
            r.node_id == config.node_id,
            r.routing_table.own_id() == config.node_id,
            r.routing_table.buckets() == Seq::new(256, |i: int| Seq::<NodeContact>::empty()),
            r.seeders_map() == Map::<FileId, Seq<NodeId>>::empty(),
    {
        let routing_table = Kademlia::new(config.node_id);
        DolomedesClient {
            port: config.port,
            datadir: config.datadir,
            signing_key: config.signing_key,
            node_id: config.node_id,
            routing_table,
            seeders: Vec::new(),
        }
    }

    /// Records that `requester` seeds `file_id` and answers with an
    /// acknowledgement.
    pub fn acknowledge_seed(&mut self, requester: NodeId, file_id: FileId) -> (r: MessageBody)
        requires
            old(self).wf(),
        ensures
            final(self).wf(),
            final(self).port == old(self).port,
            final(self).node_id == old(self).node_id,
            final(self).routing_table == old(self).routing_table,
            final(self).seeders_map() == old(self).seeders_map().insert(
                file_id,
                if old(self).seeders_map().contains_key(file_id) {
                    old(self).seeders_map()[file_id]
                } else {
                    Seq::empty()
                }.push(requester),
            ),
            r == MessageBody::SeedAck,
    {
        let n = self.seeders.len();
        let mut i: usize = 0;
        while i < n
            invariant
                n == self.seeders@.len(),
                i <= n,
                *self == *old(self),
                old(self).wf(),
                forall|k: int| 0 <= k < i ==> self.seeders@[k].0 != file_id,
            decreases n - i,
        {
            if self.seeders[i].0 == file_id {
                let ghost before = self.seeders@;
                proof {
                    lemma_seeders_lookup(before, i as int);
                }
                let mut entry = self.seeders.remove(i);
                entry.1.push(requester);
                self.seeders.insert(i, entry);
                proof {
                    assert forall|k: int| 0 <= k < before.len() && k != i implies self.seeders@[k]
                        == before[k] by {}
                    lemma_seeders_update(before, self.seeders@, i as int, before[i as int].1@.push(requester));
                    assert forall|a: int, b: int|
                        0 <= a < b < self.seeders@.len() implies #[trigger] self.seeders@[a].0
                        != #[trigger] self.seeders@[b].0 by {
                        assert(self.seeders@[a].0 == before[a].0);
                        assert(self.seeders@[b].0 == before[b].0);
                    }
                }
                return MessageBody::SeedAck;
            }
            i = i + 1;
        }
        let ghost before = self.seeders@;
        let mut list: Vec<NodeId> = Vec::new();
        list.push(requester);
        self.seeders.push((file_id, list));
        proof {
            lemma_seeders_absent(before, file_id);
            assert(self.seeders@.drop_last() == before);
            assert(Seq::<NodeId>::empty().push(requester) =~= seq![requester]);
        }
        MessageBody::SeedAck
    }

    /// The seeders recorded for `file_id`, in the order they declared.
    pub fn seeders_of(&self, file_id: FileId) -> (r: Vec<NodeId>)
        requires
            self.wf(),
        ensures
            r@ == if self.seeders_map().contains_key(file_id) {
                self.seeders_map()[file_id]
            } else {
                Seq::empty()
            },
    {
        let n = self.seeders.len();
        let mut i: usize = 0;
        while i < n
            invariant
                n == self.seeders@.len(),
                i <= n,
                self.wf(),
                forall|k: int| 0 <= k < i ==> self.seeders@[k].0 != file_id,
            decreases n - i,
        {
            if self.seeders[i].0 == file_id {
                proof {
                    lemma_seeders_lookup(self.seeders@, i as int);
                }
                return self.seeders[i].1.clone();
            }
            i = i + 1;
        }
        proof {
            lemma_seeders_absent(self.seeders@, file_id);
        }
        Vec::new()
    }

    /// The answer to a request for the nodes closest to `target`: this
    /// node's `BUCKET_SIZE` known contacts nearest to it.
    pub fn serve_nodes(&self, target: NodeId) -> (r: MessageBody)
        requires
            self.wf(),
            target != self.node_id,
        ensures
            r matches MessageBody::Nodes { nodes } && closest_selection(
                nodes@,
                flatten(self.routing_table.buckets()),
                target,
            ),
    {
        match self.routing_table.k_closest(target) {
            Ok(nodes) => MessageBody::Nodes { nodes },
            Err(_) => MessageBody::Nodes { nodes: Vec::new() },
        }
    }
}

proof fn lemma_seeders_absent(s: Seq<(FileId, Vec<NodeId>)>, f: FileId)
    requires
        forall|k: int| 0 <= k < s.len() ==> s[k].0 != f,
    ensures
        !seeders_view(s).contains_key(f),
    decreases s.len(),
{
    if s.len() > 0 {
        lemma_seeders_absent(s.drop_last(), f);
    }
}

proof fn lemma_seeders_lookup(s: Seq<(FileId, Vec<NodeId>)>, i: int)
    requires
        0 <= i < s.len(),
        forall|a: int, b: int| 0 <= a < b < s.len() ==> #[trigger] s[a].0 != #[trigger] s[b].0,
    ensures
        seeders_view(s).contains_key(s[i].0),
        seeders_view(s)[s[i].0] == s[i].1@,
    decreases s.len(),
{
    if i < s.len() - 1 {
        lemma_seeders_lookup(s.drop_last(), i);
    }
}

proof fn lemma_seeders_update(
    s: Seq<(FileId, Vec<NodeId>)>,
    t: Seq<(FileId, Vec<NodeId>)>,
    i: int,
    v: Seq<NodeId>,
)
    requires
        0 <= i < s.len(),
        t.len() == s.len(),
        t[i].0 == s[i].0,
        t[i].1@ == v,
        forall|k: int| 0 <= k < s.len() && k != i ==> t[k] == s[k],
        forall|a: int, b: int| 0 <= a < b < s.len() ==> #[trigger] s[a].0 != #[trigger] s[b].0,
    ensures
        seeders_view(t) == seeders_view(s).insert(s[i].0, v),
    decreases s.len(),
{
    if i == s.len() - 1 {
        assert(t.drop_last() =~= s.drop_last());
        assert(seeders_view(t) =~= seeders_view(s).insert(s[i].0, v));
    } else {
        lemma_seeders_update(s.drop_last(), t.drop_last(), i, v);
        assert(t.last() == s.last());
        assert(s.last().0 != s[i].0);
        assert(seeders_view(t) =~= seeders_view(s).insert(s[i].0, v));
    }
}

/// Reads the configuration text `content` for serving, comment lines not
/// allowed. Serving itself needs the network, which the library leaves to
/// its caller, so this is for configurations that do not read: it answers
/// with the error of reading them.
pub fn serve(content: &str) -> (r: Result<Infallible, ConfigError>)
    requires
        crate::setup::config_spec(content@, false) is Err,
    ensures
        r matches Err(e) && crate::setup::config_spec(content@, false)
            == Err::<crate::setup::ConfigValuesView, crate::setup::ConfigErrorView>(e@),
{
    let parsed = parse_config(content, false);
    match parsed {
        Err(e) => Err(e),
        Ok(_) => {
            assert(false);
            Err(ConfigError::MissingPort)
        },
    }
}

/// Whether a pinged node is alive, from its answer (`None` when sending or
/// receiving failed): it is alive exactly when it answered with a ping
/// acknowledgement.
pub fn ping_answered(response: &Option<MessageBody>) -> (r: bool)
    ensures
        r == (response matches Some(b) && b is PingAck),
{
    match response {
        Some(MessageBody::PingAck) => true,
        _ => false,
    }
}

/// Name of the file in the data directory that holds the shared file
/// `file_id`: its identifier's little-endian bytes in lower-case
/// hexadecimal.
pub fn stored_file_name(file_id: &FileId) -> (r: String)
    ensures
        r@ == hex_encode_spec(file_id@.reverse()),
{
    let bytes = file_id.to_le_bytes();
    hex_encode(bytes.as_slice())
}

/// What the node does with a request.
#[derive(Debug)]
pub enum RequestAction {
    /// Answer with this body.
    Reply(MessageBody),
    /// Answer with the nodes closest to this identifier.
    ServeNodes(NodeId),
    /// Record the sender as a seeder of the file and acknowledge.
    AcknowledgeSeed { sender: NodeId, file_id: FileId },
    /// Answer with the size and name of the stored file `file_name`.
    ServeFileMetadata { file_id: FileId, file_name: String },
    /// Answer with a chunk of the stored file `file_name`.
    ServeChunk { chunk_index: u32, chunk_size: u64, file_id: FileId, file_name: String },
}

/// How the node handles a request from `sender`. A request to join the
/// network has no handling and is outside this function's domain.
pub fn plan_request(sender: NodeId, body: MessageBody) -> (r: RequestAction)
    requires
        !(body is JoinNetwork),
    ensures
        match body {
            MessageBody::Ping => r == RequestAction::Reply(MessageBody::PingAck),
            MessageBody::GetNode { node } => r == RequestAction::ServeNodes(node),
            MessageBody::GetOwners { file_id } => r == RequestAction::ServeNodes(file_id),
            MessageBody::GetSeeders { file_id } => r == RequestAction::ServeNodes(file_id),
            MessageBody::DeclareSeed { file_id } => r == (RequestAction::AcknowledgeSeed {
                sender,
                file_id,
            }),
            MessageBody::GetFileMetadata { file_id } => r matches RequestAction::ServeFileMetadata {
                file_id: f,
                file_name,
            } && f == file_id && file_name@ == hex_encode_spec(file_id@.reverse()),
            MessageBody::GetChunk { chunk_index, chunk_size, file_id } => r matches RequestAction::ServeChunk {
                chunk_index: ci,
                chunk_size: cs,
                file_id: f,
                file_name,
            } && ci == chunk_index && cs == chunk_size && f == file_id && file_name@
                == hex_encode_spec(file_id@.reverse()),
            _ => r == RequestAction::Reply(MessageBody::InvalidMessage),
        },
{
    match body {
        MessageBody::Ping => RequestAction::Reply(MessageBody::PingAck),
        MessageBody::GetNode { node } => RequestAction::ServeNodes(node),
        MessageBody::GetOwners { file_id } => RequestAction::ServeNodes(file_id),
        MessageBody::DeclareSeed { file_id } => RequestAction::AcknowledgeSeed { sender, file_id },
        MessageBody::GetSeeders { file_id } => RequestAction::ServeNodes(file_id),
        MessageBody::GetFileMetadata { file_id } => {
            let file_name = stored_file_name(&file_id);
            RequestAction::ServeFileMetadata { file_id, file_name }
        },
        MessageBody::GetChunk { chunk_index, chunk_size, file_id } => {
            let file_name = stored_file_name(&file_id);
            RequestAction::ServeChunk { chunk_index, chunk_size, file_id, file_name }
        },
        _ => RequestAction::Reply(MessageBody::InvalidMessage),
    }
}

/// Orders two contacts for the seeder search's max-heap, which pops the
/// greatest: the contact nearer to `file` is the greater, and of two at
/// the same distance the one with the smaller identifier.
pub fn order_nodes_by_xor_distance(file: FileId, a: &NodeContact, b: &NodeContact) -> (r: Ordering)
    ensures
        r == Ordering::Less <==> lex_lt(distance(file, b.node_id), distance(file, a.node_id)) || (
        distance(file, b.node_id) == distance(file, a.node_id) && lex_lt(b.node_id@, a.node_id@)),
        r == Ordering::Greater <==> lex_lt(distance(file, a.node_id), distance(file, b.node_id)) || (
        distance(file, b.node_id) == distance(file, a.node_id) && lex_lt(a.node_id@, b.node_id@)),
        r == Ordering::Equal <==> distance(file, b.node_id) == distance(file, a.node_id)
            && a.node_id@ == b.node_id@,
{
    let da = Kademlia::xor_distance(file, a.node_id);
    let db = Kademlia::xor_distance(file, b.node_id);
    proof {
        crate::node_id::lemma_lex_lt_total(da@, db@);
        crate::node_id::lemma_lex_lt_asymmetric(da@, db@);
        crate::node_id::lemma_lex_lt_total(a.node_id@, b.node_id@);
        crate::node_id::lemma_lex_lt_asymmetric(a.node_id@, b.node_id@);
    }
    if db.less_than(&da) {
        Ordering::Less
    } else if da.less_than(&db) {
        Ordering::Greater
    } else if b.node_id.less_than(&a.node_id) {
        Ordering::Less
    } else if a.node_id.less_than(&b.node_id) {
        Ordering::Greater
    } else {
        Ordering::Equal
    }
}

/// Errors of fetching a file.
#[derive(Clone, Copy, Debug, PartialEq, Eq, Structural)]
pub enum FileShareError {
    /// The seeder search found no seeder.
    NoSeeders,
    /// A metadata answer was about another file.
    MetadataFileMismatch,
    /// An answer to a metadata request that is not metadata.
    InvalidMetadata,
    /// A chunk answer of another chunk size than requested.
    ChunkSizeMismatch,
    /// A chunk answer about another file.
    ChunkFileMismatch,
    /// An answer to a chunk request that is not a chunk.
    InvalidChunkResponse,
    /// A chunk of the final chunk's size that is not the last one requested.
    ExtraFinalChunk,
    /// A chunk that is neither a full chunk nor the final chunk's size.
    InvalidChunkSize,
}

/// Checks a metadata answer about `file_id`, giving the file's size and
/// name.
pub fn check_metadata(file_id: FileId, reply: MessageBody) -> (r: Result<(u64, String), FileShareError>)
    ensures
        match reply {
            MessageBody::FileMetadata { file_id: f, file_size, file_name } => if f == file_id {
                r matches Ok((size, name)) && size == file_size && name == file_name
            } else {
                r == Err::<(u64, String), FileShareError>(FileShareError::MetadataFileMismatch)
            },
            _ => r == Err::<(u64, String), FileShareError>(FileShareError::InvalidMetadata),
        },
{
    match reply {
        MessageBody::FileMetadata { file_id: f, file_size, file_name } => {
            if f == file_id {
                Ok((file_size, file_name))
            } else {
                Err(FileShareError::MetadataFileMismatch)
            }
        },
        _ => Err(FileShareError::InvalidMetadata),
    }
}

/// Checks an answer to a request for a chunk of `file_id`, giving the
/// chunk's index and data.
pub fn check_chunk_reply(file_id: FileId, reply: MessageBody) -> (r: Result<(usize, Vec<u8>), FileShareError>)
    requires
        reply matches MessageBody::Chunk { chunk_size, .. } ==> chunk_size <= usize::MAX,
    ensures
        match reply {
            MessageBody::Chunk { chunk_index, chunk_size, file_id: f, data } => if chunk_size
                != CHUNK_SIZE_BYTES {
                r == Err::<(usize, Vec<u8>), FileShareError>(FileShareError::ChunkSizeMismatch)
            } else if f != file_id {
                r == Err::<(usize, Vec<u8>), FileShareError>(FileShareError::ChunkFileMismatch)
            } else {
                r matches Ok((i, d)) && i == chunk_index && d == data
            },
            _ => r == Err::<(usize, Vec<u8>), FileShareError>(FileShareError::InvalidChunkResponse),
        },
{
    match reply {
        MessageBody::Chunk { chunk_index, chunk_size, file_id: f, data } => {
            let size = chunk_size as usize;
            if size != 65536 {
                return Err(FileShareError::ChunkSizeMismatch);
            }
            if f != file_id {
                return Err(FileShareError::ChunkFileMismatch);
            }
            Ok((chunk_index as usize, data))
        },
        _ => Err(FileShareError::InvalidChunkResponse),
    }
}

/// Byte offset of chunk `chunk_index` of a file cut in chunks of
/// `chunk_size` bytes.
pub fn chunk_offset(chunk_index: u32, chunk_size: u64) -> (r: u64)
    requires
        chunk_size * chunk_index <= u64::MAX,
    ensures
        r == chunk_size * chunk_index,
{
    chunk_size * (chunk_index as u64)
}

/// What a download does next.
#[derive(Debug)]
pub enum DownloadStep {
    /// Wait for one of the requests in flight to complete.
    AwaitChunk,
    /// Send `request` to `seeder`.
    Request { seeder: NodeContact, request: MessageBody },
    /// Every chunk was requested and written.
    Finished,
    /// Nothing to do: every chunk was requested, some are still in flight,
    /// and fewer than the maximum, so none is awaited.
    Idle,
}

/// State of a chunked download: chunks are requested in order from the
/// seeders in turn, with at most `MAX_CONCURRENT_CHUNK_REQUESTS` in flight.
pub struct ChunkDownload {
    file_id: FileId,
    total_chunks: usize,
    final_chunk_size: usize,
    chunk: usize,
    in_flight: usize,
    seeders: Vec<NodeContact>,
    next_seeder: usize,
}

impl ChunkDownload {
    /// The file downloaded.
    pub closed spec fn file(&self) -> FileId {
        self.file_id
    }

    /// Number of chunks of the file.
    pub closed spec fn total(&self) -> nat {
        self.total_chunks as nat
    }

    /// Size of the last chunk (zero when the size is a multiple of the
    /// chunk size).
    pub closed spec fn final_size(&self) -> nat {
        self.final_chunk_size as nat
    }

    /// Number of chunks requested so far.
    pub closed spec fn requested(&self) -> nat {
        self.chunk as nat
    }

    /// Number of requests in flight.
    pub closed spec fn pending(&self) -> nat {
        self.in_flight as nat
    }

    /// The seeders asked in turn.
    pub closed spec fn seeder_list(&self) -> Seq<NodeContact> {
        self.seeders@
    }

    /// Position of the seeder asked next.
    pub closed spec fn turn(&self) -> nat {
        self.next_seeder as nat
    }

    /// The download state is consistent.
    pub closed spec fn wf(&self) -> bool {
        &&& self.chunk <= self.total_chunks
        &&& self.total_chunks <= 0x1_0000_0000
        &&& self.in_flight <= self.chunk
        &&& self.in_flight <= MAX_CONCURRENT_CHUNK_REQUESTS
        &&& self.seeders@.len() > 0
        &&& self.next_seeder < self.seeders@.len()
        &&& self.final_chunk_size < 65536
    }

    /// A download of `file_id`, `file_size` bytes long, from `seeders`.
    pub fn new(file_id: FileId, file_size: u64, seeders: Vec<NodeContact>) -> (r: ChunkDownload)
        requires
            seeders@.len() > 0,
            file_size <= usize::MAX,
            file_size <= 0x1_0000_0000 * 65536,
        ensures
            r.wf(),
            r.file() == file_id,
            r.total() == (file_size + 65535) / 65536,
            r.final_size() == file_size % 65536,
            r.requested() == 0,
            r.pending() == 0,
            r.seeder_list() == seeders@,
            r.turn() == 0,
    {
        let size = file_size as usize;
        let chunk_size_bytes: usize = 65536;
        let whole = size / chunk_size_bytes;
        let rest = size % chunk_size_bytes;
        let total_chunks = if rest == 0 {
            whole
        } else {
            whole + 1
        };
        ChunkDownload {
            file_id,
            total_chunks,
            final_chunk_size: rest,
            chunk: 0,
            in_flight: 0,
            seeders,
            next_seeder: 0,
        }
    }

    /// Starts a download of `file_id`, `file_size` bytes long, from the
    /// seeders found for it; an error when none was found.
    pub fn start(file_id: FileId, file_size: u64, seeders: Vec<NodeContact>) -> (r: Result<
        ChunkDownload,
        FileShareError,
    >)
        requires
            file_size <= usize::MAX,
            file_size <= 0x1_0000_0000 * 65536,
        ensures
            seeders@.len() == 0 <==> r is Err,
            r matches Err(e) ==> e == FileShareError::NoSeeders,
            r matches Ok(d) ==> {
                &&& d.wf()
                &&& d.file() == file_id
                &&& d.total() == (file_size + 65535) / 65536
                &&& d.final_size() == file_size % 65536
                &&& d.requested() == 0
                &&& d.pending() == 0
                &&& d.seeder_list() == seeders@
                &&& d.turn() == 0
            },
    {
        if seeders.len() == 0 {
            return Err(FileShareError::NoSeeders);
        }
        Ok(ChunkDownload::new(file_id, file_size, seeders))
    }

    /// The next thing to do.
    pub fn step(&mut self) -> (r: DownloadStep)
        requires
            old(self).wf(),
        ensures
            final(self).wf(),
            final(self).file() == old(self).file(),
            final(self).total() == old(self).total(),
            final(self).final_size() == old(self).final_size(),
            final(self).seeder_list() == old(self).seeder_list(),
            old(self).pending() == MAX_CONCURRENT_CHUNK_REQUESTS ==> r is AwaitChunk && *final(self)
                == *old(self),
            old(self).pending() < MAX_CONCURRENT_CHUNK_REQUESTS && old(self).requested()
                == old(self).total() ==> *final(self) == *old(self) && if old(self).pending() == 0 {
                r is Finished
            } else {
                r is Idle
            },
            old(self).pending() < MAX_CONCURRENT_CHUNK_REQUESTS && old(self).requested() < old(
                self,
            ).total() ==> {
                &&& r matches DownloadStep::Request { seeder, request } && seeder == old(
                    self,
                ).seeder_list()[old(self).turn() as int] && request == (MessageBody::GetChunk {
                    chunk_index: old(self).requested() as u32,
                    chunk_size: 65536,
                    file_id: old(self).file(),
                })
                &&& final(self).requested() == old(self).requested() + 1
                &&& final(self).pending() == old(self).pending() + 1
                &&& final(self).turn() == (old(self).turn() + 1) % old(self).seeder_list().len()
            },
    {
        if self.in_flight == MAX_CONCURRENT_CHUNK_REQUESTS {
            return DownloadStep::AwaitChunk;
        }
        if self.chunk == self.total_chunks {
            if self.in_flight == 0 {
                return DownloadStep::Finished;
            } else {
                return DownloadStep::Idle;
            }
        }
        let seeder = self.seeders[self.next_seeder];
        let request = MessageBody::GetChunk {
            chunk_index: self.chunk as u32,
            chunk_size: 65536,
            file_id: self.file_id,
        };
        let n = self.seeders.len();
        proof {
            let t = self.next_seeder as int;
            if t + 1 < n {
                vstd::arithmetic::div_mod::lemma_small_mod((t + 1) as nat, n as nat);
            } else {
                vstd::arithmetic::div_mod::lemma_mod_self_0(n as int);
            }
        }
        self.next_seeder = if self.next_seeder + 1 == n {
            0
        } else {
            self.next_seeder + 1
        };
        self.chunk = self.chunk + 1;
        self.in_flight = self.in_flight + 1;
        DownloadStep::Request { seeder, request }
    }

    /// Takes in a completed chunk request, answered with chunk
    /// `chunk_index` holding `data_len` bytes: the offset to write it at,
    /// or why it is refused.
    pub fn on_chunk(&mut self, chunk_index: usize, data_len: usize) -> (r: Result<u64, FileShareError>)
        requires
            old(self).wf(),
            old(self).pending() == MAX_CONCURRENT_CHUNK_REQUESTS,
            chunk_index * 65536 <= usize::MAX,
        ensures
            final(self).wf(),
            final(self).file() == old(self).file(),
            final(self).total() == old(self).total(),
            final(self).final_size() == old(self).final_size(),
            final(self).requested() == old(self).requested(),
            final(self).seeder_list() == old(self).seeder_list(),
            final(self).turn() == old(self).turn(),
            final(self).pending() == old(self).pending() - 1,
            if data_len == 65536 {
                r == Ok::<u64, FileShareError>((chunk_index * 65536) as u64)
            } else if data_len == old(self).final_size() {
                if old(self).requested() == old(self).total() - 1 {
                    r == Ok::<u64, FileShareError>((chunk_index * 65536) as u64)
                } else {
                    r == Err::<u64, FileShareError>(FileShareError::ExtraFinalChunk)
                }
            } else {
                r == Err::<u64, FileShareError>(FileShareError::InvalidChunkSize)
            },
    {
        self.in_flight = self.in_flight - 1;
        let offset = (chunk_index * 65536) as u64;
        if data_len == 65536 {
            Ok(offset)
        } else if data_len == self.final_chunk_size {
            if self.chunk == self.total_chunks - 1 {
                Ok(offset)
            } else {
                Err(FileShareError::ExtraFinalChunk)
            }
        } else {
            Err(FileShareError::InvalidChunkSize)
        }
    }
}

} // verus!
