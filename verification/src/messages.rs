//! Signed protocol messages and the bodies they carry.

use crate::crypto::{ed25519_signature, ed25519_verifies, sign, verify_strict};
use crate::kadem::NodeContact;
use crate::node_id::NodeId;
use vstd::bytes::{
    lemma_auto_spec_u64_to_from_le_bytes, spec_u64_from_le_bytes, spec_u64_to_le_bytes,
    u64_to_le_bytes,
};
use vstd::prelude::*;

verus! {

/// Identifier of a shared file: a 256-bit key in the node identifier space.
pub type FileId = NodeId;

/// What a message says. All file sizes are in bytes.
#[allow(inconsistent_fields)]
#[derive(Debug)]
pub enum MessageBody {
    Ping,
    PingAck,
    DeclareSeed { file_id: FileId },
    SeedAck,
    GetNode { node: NodeId },
    GetOwners { file_id: NodeId },
    Nodes { nodes: Vec<NodeContact> },
    JoinNetwork { port: u16, nonce: NodeId, verifying_key: [u8; 32] },
    JoinAck,
    GetFileMetadata { file_id: FileId },
    FileMetadata { file_id: FileId, file_size: u64, file_name: String },
    GetChunk { chunk_index: u32, chunk_size: u64, file_id: FileId },
    Chunk { chunk_index: u32, chunk_size: u64, file_id: FileId, data: Vec<u8> },
    GetSeeders { file_id: FileId },
    InvalidMessage,
    Error { code: i64 },
}

/// The tag byte of each kind of message body.
pub open spec fn body_tag(b: MessageBody) -> u8 {
    match b {
        MessageBody::Ping => 0x00,
        MessageBody::PingAck => 0x01,
        MessageBody::DeclareSeed { .. } => 0x02,
        MessageBody::SeedAck => 0x03,
        MessageBody::GetNode { .. } => 0x04,
        MessageBody::GetOwners { .. } => 0x05,
        MessageBody::Nodes { .. } => 0x06,
        MessageBody::JoinNetwork { .. } => 0x07,
        MessageBody::JoinAck => 0x08,
        MessageBody::GetFileMetadata { .. } => 0x09,
        MessageBody::FileMetadata { .. } => 0x0A,
        MessageBody::GetChunk { .. } => 0x0B,
        MessageBody::Chunk { .. } => 0x0C,
        MessageBody::GetSeeders { .. } => 0x0D,
        MessageBody::InvalidMessage => 0xFE,
        MessageBody::Error { .. } => 0xFF,
    }
}

/// Index of the variant of `b`, in declaration order.
pub open spec fn body_kind(b: MessageBody) -> int {
    match b {
        MessageBody::Ping => 0,
        MessageBody::PingAck => 1,
        MessageBody::DeclareSeed { .. } => 2,
        MessageBody::SeedAck => 3,
        MessageBody::GetNode { .. } => 4,
        MessageBody::GetOwners { .. } => 5,
        MessageBody::Nodes { .. } => 6,
        MessageBody::JoinNetwork { .. } => 7,
        MessageBody::JoinAck => 8,
        MessageBody::GetFileMetadata { .. } => 9,
        MessageBody::FileMetadata { .. } => 10,
        MessageBody::GetChunk { .. } => 11,
        MessageBody::Chunk { .. } => 12,
        MessageBody::GetSeeders { .. } => 13,
        MessageBody::InvalidMessage => 14,
        MessageBody::Error { .. } => 15,
    }
}

/// Two bodies share a tag exactly when they are of the same kind, so the
/// tag identifies the kind of a message.
pub proof fn lemma_tag_identifies_kind(a: MessageBody, b: MessageBody)
    ensures
        body_tag(a) == body_tag(b) <==> body_kind(a) == body_kind(b),
{
}

// tag bytes of the message kinds
const PING: u8 = 0x00;
const PING_ACK: u8 = 0x01;
const DECLARE_SEED: u8 = 0x02;
const SEED_ACK: u8 = 0x03;
const GET_NODE: u8 = 0x04;
const GET_OWNERS: u8 = 0x05;
const NODES: u8 = 0x06;
const JOIN_NETWORK: u8 = 0x07;
const JOIN_ACK: u8 = 0x08;
const GET_FILE_METADATA: u8 = 0x09;
const FILE_METADATA: u8 = 0x0A;
const GET_CHUNK: u8 = 0x0B;
const CHUNK: u8 = 0x0C;
const GET_SEEDERS: u8 = 0x0D;
const INVALID_MESSAGE: u8 = 0xFE;
const ERROR: u8 = 0xFF;

impl MessageBody {
    /// The tag byte of this body (see [`body_tag`]).
    pub fn discriminant(&self) -> (r: u8)
        ensures
            r == body_tag(*self),
    {
        match self {
            Self::Ping => PING,
            Self::PingAck => PING_ACK,
            Self::DeclareSeed { .. } => DECLARE_SEED,
            Self::SeedAck => SEED_ACK,
            Self::GetNode { .. } => GET_NODE,
            Self::GetOwners { .. } => GET_OWNERS,
            Self::Nodes { .. } => NODES,
            Self::JoinNetwork { .. } => JOIN_NETWORK,
            Self::JoinAck => JOIN_ACK,
            Self::GetFileMetadata { .. } => GET_FILE_METADATA,
            Self::FileMetadata { .. } => FILE_METADATA,
            Self::GetChunk { .. } => GET_CHUNK,
            Self::Chunk { .. } => CHUNK,
            Self::GetSeeders { .. } => GET_SEEDERS,
            Self::InvalidMessage => INVALID_MESSAGE,
            Self::Error { .. } => ERROR,
        }
    }
}

/// Errors of reading a message.
#[derive(Clone, Copy, Debug, PartialEq, Eq, Structural)]
pub enum MessageError {
    /// The message ended before a field did.
    UnexpectedEnd,
}

/// What a signature covers: the payload followed by the timestamp in
/// little-endian order.
pub open spec fn signable(payload: Seq<u8>, timestamp: u64) -> Seq<u8> {
    payload + spec_u64_to_le_bytes(timestamp)
}

/// A signature covers the whole payload and then the time: the signed
/// bytes are 8 longer than the payload, begin with every byte of the
/// payload, and end with the 8 little-endian bytes of the time, which read
/// back as the time.
pub proof fn lemma_signable_covers_payload_and_time(payload: Seq<u8>, timestamp: u64)
    ensures
        ({
            let s = signable(payload, timestamp);
            let n = payload.len() as int;
            &&& s.len() == payload.len() + 8
            &&& forall|i: int| 0 <= i < n ==> s[i] == payload[i]
            &&& s.take(n) == payload
            &&& s.skip(n) == spec_u64_to_le_bytes(timestamp)
            &&& spec_u64_from_le_bytes(s.skip(n)) == timestamp
        }),
{
    lemma_auto_spec_u64_to_from_le_bytes();
    let s = signable(payload, timestamp);
    let n = payload.len() as int;
    assert(s.take(n) =~= payload);
    assert(s.skip(n) =~= spec_u64_to_le_bytes(timestamp));
}

/// A signed message: the encoded body, the sender's identifier, the time
/// of sending in seconds since the Unix epoch, and the sender's Ed25519
/// signature of the body and the time.
pub struct Message {
    pub node_id: NodeId,
    payload: Vec<u8>,
    signature: [u8; 64],
    timestamp: u64,
}

impl Message {
    /// The sender's identifier.
    pub closed spec fn sender(&self) -> NodeId {
        self.node_id
    }

    /// The encoded body.
    pub closed spec fn payload_spec(&self) -> Seq<u8> {
        self.payload@
    }

    /// The signature.
    pub closed spec fn signature_spec(&self) -> Seq<u8> {
        self.signature@
    }

    /// The time of sending.
    pub closed spec fn timestamp_spec(&self) -> u64 {
        self.timestamp
    }

    /// A message from `node_id` carrying `payload` (an encoded body), sent
    /// at `timestamp` and signed with `signing_key`.
    pub fn new(payload: Vec<u8>, node_id: NodeId, signing_key: &[u8; 32], timestamp: u64) -> (r:
        Message)
        ensures
            r.sender() == node_id,
            r.payload_spec() == payload@,
            r.timestamp_spec() == timestamp,
            r.signature_spec() == ed25519_signature(signing_key@, signable(payload@, timestamp)),
    {
        let to_sign = Self::signable_payload(payload.as_slice(), timestamp);
        let signature = sign(signing_key, to_sign.as_slice());
        Message { node_id, payload, signature, timestamp }
    }

    /// The encoded body.
    pub fn payload(&self) -> (r: &[u8])
        ensures
            r@ == self.payload_spec(),
    {
        self.payload.as_slice()
    }

    /// The signature.
    pub fn signature(&self) -> (r: [u8; 64])
        ensures
            r@ == self.signature_spec(),
    {
        self.signature
    }

    /// The time of sending.
    pub fn timestamp(&self) -> (r: u64)
        ensures
            r == self.timestamp_spec(),
    {
        self.timestamp
    }

    /// The wire form: payload, timestamp (little-endian) and signature.
    pub fn to_payload(&self) -> (r: Vec<u8>)
        ensures
            r@ == self.payload_spec() + spec_u64_to_le_bytes(self.timestamp_spec())
                + self.signature_spec(),
    {
        let mut buf: Vec<u8> = Vec::new();
        buf.extend_from_slice(self.payload.as_slice());
        let ts = u64_to_le_bytes(self.timestamp);
        buf.extend_from_slice(ts.as_slice());
        buf.extend_from_slice(self.signature.as_slice());
        buf
    }

    /// Whether the signature is a valid strict Ed25519 signature of the
    /// payload and timestamp under `verifying_key`.
    pub fn verify(&self, verifying_key: &[u8; 32]) -> (r: bool)
        ensures
            r == ed25519_verifies(
                verifying_key@,
                signable(self.payload_spec(), self.timestamp_spec()),
                self.signature_spec(),
            ),
    {
        let to_verify = Self::signable_payload(self.payload.as_slice(), self.timestamp);
        verify_strict(verifying_key, to_verify.as_slice(), &self.signature)
    }

    /// The bytes a signature covers (see [`signable`]).
    pub fn signable_payload(payload: &[u8], timestamp: u64) -> (r: Vec<u8>)
        ensures
            r@ == signable(payload@, timestamp),
    {
        let mut buf: Vec<u8> = Vec::new();
        buf.extend_from_slice(payload);
        let ts = u64_to_le_bytes(timestamp);
        buf.extend_from_slice(ts.as_slice());
        buf
    }
}

/// The wire form of a message reads back field by field: taking the
/// payload's length of bytes off the front gives the payload, the next 8
/// bytes hold the time in little-endian order, and the 64 bytes left are the
/// signature.
pub proof fn lemma_wire_form_fields(m: Message)
    ensures
        ({
            let w = m.payload_spec() + spec_u64_to_le_bytes(m.timestamp_spec())
                + m.signature_spec();
            let n = m.payload_spec().len() as int;
            &&& w.take(n) == m.payload_spec()
            &&& spec_u64_from_le_bytes(w.skip(n).take(8)) == m.timestamp_spec()
            &&& w.skip(n).skip(8) == m.signature_spec()
            &&& m.signature_spec().len() == 64
        }),
{
    lemma_auto_spec_u64_to_from_le_bytes();
    let t = spec_u64_to_le_bytes(m.timestamp_spec());
    let w = m.payload_spec() + t + m.signature_spec();
    let n = m.payload_spec().len() as int;
    assert(w.take(n) =~= m.payload_spec());
    assert(w.skip(n).take(8) =~= t);
    assert(w.skip(n).skip(8) =~= m.signature_spec());
}

/// Takes the first `n` bytes off the front of `buf`; an error, leaving
/// `buf` as it is, when fewer than `n` remain.
pub fn take_bytes<'a>(buf: &mut &'a [u8], n: usize) -> (r: Result<&'a [u8], MessageError>)
    ensures
        match r {
            Ok(head) => {
                &&& n <= old(buf)@.len()
                &&& head@ == old(buf)@.take(n as int)
                &&& final(buf)@ == old(buf)@.skip(n as int)
            },
            Err(e) => {
                &&& n > old(buf)@.len()
                &&& e == MessageError::UnexpectedEnd
                &&& final(buf)@ == old(buf)@
            },
        },
{
    if buf.len() < n {
        return Err(MessageError::UnexpectedEnd);
    }
    let (head, tail) = buf.split_at(n);
    *buf = tail;
    Ok(head)
}

} // verus!
