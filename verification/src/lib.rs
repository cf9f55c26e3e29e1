//! A Kademlia distributed hash table whose node and key identifiers are
//! SHA-256 digests, with its routing table, message framing and the
//! decisions of its network client stated and proved in Verus.

pub mod node_id;
pub mod kadem;
pub mod text;
pub mod crypto;
pub mod encoding;
pub mod messages;
pub mod setup;
pub mod lookup;
pub mod client;
pub mod terminal;
pub mod cli;
