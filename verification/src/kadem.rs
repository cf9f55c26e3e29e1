//! The Kademlia routing table: 256 k-buckets indexed by the length of the
//! common prefix between a contact's identifier and our own.

use crate::node_id::{
    leading_zero_bits, lemma_leading_zero_bits_bound, lemma_lex_lt_total, lemma_lex_lt_transitive,
    lemma_xor_zero_iff_equal, lex_le, lex_lt, xor_seq, NodeId, ID_BITS, all_zero,
    lemma_xor_commutative, lemma_prefix_ultrametric, lemma_more_leading_zeros_is_smaller,
    lemma_xor_injective,
};
use std::collections::VecDeque;
use vstd::prelude::*;

verus! {

/// The "K" of K-buckets: the most contacts a bucket holds, and the number
/// of contacts a lookup answers with.
pub const BUCKET_SIZE: usize = 8;

/// Number of buckets: one per possible common-prefix length below 256.
pub const NUM_BUCKETS: usize = 256;

/// An IP address, version 4 or 6, as its network-order bytes.
#[derive(Clone, Copy, Debug)]
pub enum IpAddress {
    V4([u8; 4]),
    V6([u8; 16]),
}

/// How to reach a node: its identifier, IP address and UDP port.
#[derive(Clone, Copy, Debug)]
pub struct NodeContact {
    pub port: u16,
    pub node_id: NodeId,
    pub ip: IpAddress,
}

impl PartialEq for IpAddress {
    fn eq(&self, other: &Self) -> (r: bool) {
        match self {
            IpAddress::V4(a) => match other {
                IpAddress::V4(b) => {
                    let r = bytes_equal(a.as_slice(), b.as_slice());
                    proof {
                        if r {
                            assert(*a =~= *b);
                        }
                    }
                    r
                },
                IpAddress::V6(_) => false,
            },
            IpAddress::V6(a) => match other {
                IpAddress::V6(b) => {
                    let r = bytes_equal(a.as_slice(), b.as_slice());
                    proof {
                        if r {
                            assert(*a =~= *b);
                        }
                    }
                    r
                },
                IpAddress::V4(_) => false,
            },
        }
    }
}

/// Whether two byte strings are equal.
pub fn bytes_equal(a: &[u8], b: &[u8]) -> (r: bool)
    ensures
        r == (a@ == b@),
{
    if a.len() != b.len() {
        return false;
    }
    let mut i: usize = 0;
    while i < a.len()
        invariant
            i <= a@.len(),
            a@.len() == b@.len(),
            forall|j: int| 0 <= j < i ==> a@[j] == b@[j],
        decreases a@.len() - i,
    {
        if a[i] != b[i] {
            assert(a@[i as int] != b@[i as int]);
            return false;
        }
        i = i + 1;
    }
    assert(a@ =~= b@);
    true
}

impl Eq for IpAddress {}

impl vstd::std_specs::cmp::PartialEqSpecImpl for IpAddress {
    open spec fn obeys_eq_spec() -> bool {
        true
    }

    open spec fn eq_spec(&self, other: &Self) -> bool {
        *self == *other
    }
}

impl PartialEq for NodeContact {
    fn eq(&self, other: &Self) -> (r: bool) {
        self.port == other.port && self.node_id == other.node_id && self.ip == other.ip
    }
}

impl Eq for NodeContact {}

impl vstd::std_specs::cmp::PartialEqSpecImpl for NodeContact {
    open spec fn obeys_eq_spec() -> bool {
        true
    }

    open spec fn eq_spec(&self, other: &Self) -> bool {
        *self == *other
    }
}

/// XOR distance between two identifiers, as a big-endian byte sequence.
pub open spec fn distance(a: NodeId, b: NodeId) -> Seq<u8> {
    xor_seq(a@, b@)
}

/// Bucket of `id` in the table of the node `own`: the number of leading
/// bits the two identifiers share.
pub open spec fn routing_index_of(own: NodeId, id: NodeId) -> nat {
    leading_zero_bits(distance(id, own))
}

/// Position of the first contact in `b` with identifier `id`, or -1.
pub open spec fn index_of_id(b: Seq<NodeContact>, id: NodeId) -> int
    decreases b.len(),
{
    if b.len() == 0 {
        -1
    } else if b[0].node_id == id {
        0
    } else {
        let r = index_of_id(b.drop_first(), id);
        if r < 0 {
            -1
        } else {
            r + 1
        }
    }
}

/// Some contact of `b` has identifier `id`.
pub open spec fn has_id(b: Seq<NodeContact>, id: NodeId) -> bool {
    exists|j: int| 0 <= j < b.len() && b[j].node_id == id
}

/// Bucket `i` of the table of `own` is well formed: it holds at most
/// `BUCKET_SIZE` contacts, each of which belongs in bucket `i`, and no
/// identifier occurs twice.
pub open spec fn bucket_wf(own: NodeId, i: int, b: Seq<NodeContact>) -> bool {
    &&& b.len() <= BUCKET_SIZE
    &&& forall|j: int| 0 <= j < b.len() ==> #[trigger] b[j].node_id != own
    &&& forall|j: int| 0 <= j < b.len() ==> routing_index_of(own, #[trigger] b[j].node_id) == i
    &&& forall|j: int, k: int|
        0 <= j < k < b.len() ==> #[trigger] b[j].node_id != #[trigger] b[k].node_id
}

/// A routing table of `own` is well formed: it has one well-formed bucket
/// per prefix length.
pub open spec fn table_wf(own: NodeId, bs: Seq<Seq<NodeContact>>) -> bool {
    &&& bs.len() == NUM_BUCKETS
    &&& forall|i: int| 0 <= i < NUM_BUCKETS ==> bucket_wf(own, i, #[trigger] bs[i])
}

/// What a bucket holds after `contact` was offered to it, before any ping:
/// a known identifier is refreshed and moved to the front, a new contact
/// goes to the front of a bucket with room, and a full bucket gives up its
/// oldest (last) contact for a liveness check.
pub open spec fn bucket_after_update(b: Seq<NodeContact>, contact: NodeContact) -> Seq<
    NodeContact,
> {
    let p = index_of_id(b, contact.node_id);
    if p >= 0 {
        seq![contact] + b.remove(p)
    } else if b.len() < BUCKET_SIZE {
        seq![contact] + b
    } else {
        b.drop_last()
    }
}

/// Refreshing a known contact: when the offered contact's identifier is in
/// the bucket at position `p`, the bucket afterwards has the same length,
/// starts with the offered contact, and holds every other old contact in
/// its old order (those before `p` shifted back by one, those after `p`
/// in place).
pub proof fn lemma_refresh_keeps_other_contacts(b: Seq<NodeContact>, contact: NodeContact, p: int)
    requires
        0 <= p < b.len(),
        b[p].node_id == contact.node_id,
        forall|k: int| 0 <= k < p ==> b[k].node_id != contact.node_id,
    ensures
        ({
            let r = bucket_after_update(b, contact);
            &&& r.len() == b.len()
            &&& r[0] == contact
            &&& forall|k: int| 0 <= k < p ==> r[k + 1] == #[trigger] b[k]
            &&& forall|k: int| p < k < b.len() ==> r[k] == #[trigger] b[k]
        }),
{
    lemma_index_of_id(b, contact.node_id, p);
}

/// Outcome of offering `contact` to bucket `b`.
pub open spec fn update_outcome(b: Seq<NodeContact>, contact: NodeContact) -> BucketUpdate {
    if index_of_id(b, contact.node_id) >= 0 || b.len() < BUCKET_SIZE {
        BucketUpdate::Settled(true)
    } else {
        BucketUpdate::PingOldest(b.last())
    }
}

/// What a bucket holds once the liveness check of `candidate` is answered:
/// a live candidate returns to the front, otherwise `contact` takes the
/// freed place.
pub open spec fn bucket_after_settle(
    b: Seq<NodeContact>,
    candidate: NodeContact,
    contact: NodeContact,
    candidate_alive: bool,
) -> Seq<NodeContact> {
    seq![if candidate_alive { candidate } else { contact }] + b
}

/// The two steps of offering a contact to a bucket.
#[derive(Clone, Copy, Debug)]
pub enum BucketUpdate {
    /// The offer is settled; the flag says whether the contact is now in
    /// the bucket.
    Settled(bool),
    /// The bucket was full: its oldest contact was taken out and must be
    /// pinged before the offer can be settled.
    PingOldest(NodeContact),
}

/// Sum of the lengths of the buckets.
pub open spec fn total_len(bs: Seq<Seq<NodeContact>>) -> nat
    decreases bs.len(),
{
    if bs.len() == 0 {
        0
    } else {
        total_len(bs.drop_last()) + bs.last().len()
    }
}

/// The contacts of the buckets, bucket after bucket.
pub open spec fn flatten(bs: Seq<Seq<NodeContact>>) -> Seq<NodeContact>
    decreases bs.len(),
{
    if bs.len() == 0 {
        Seq::empty()
    } else {
        flatten(bs.drop_last()) + bs.last()
    }
}

proof fn lemma_index_of_id(b: Seq<NodeContact>, id: NodeId, i: int)
    requires
        0 <= i <= b.len(),
        forall|k: int| 0 <= k < i ==> b[k].node_id != id,
    ensures
        i < b.len() && b[i].node_id == id ==> index_of_id(b, id) == i,
        i == b.len() ==> index_of_id(b, id) == -1,
    decreases i,
{
    if i > 0 {
        lemma_index_of_id(b.drop_first(), id, i - 1);
    }
}

proof fn lemma_index_of_id_bounds(b: Seq<NodeContact>, id: NodeId)
    ensures
        -1 <= index_of_id(b, id) < b.len(),
        index_of_id(b, id) >= 0 ==> b[index_of_id(b, id)].node_id == id,
        index_of_id(b, id) < 0 <==> !has_id(b, id),
    decreases b.len(),
{
    if b.len() > 0 {
        lemma_index_of_id_bounds(b.drop_first(), id);
        if has_id(b, id) && b[0].node_id != id {
            let j = choose|j: int| 0 <= j < b.len() && b[j].node_id == id;
            assert(b.drop_first()[j - 1].node_id == id);
        }
        if has_id(b.drop_first(), id) {
            let j = choose|j: int| 0 <= j < b.len() - 1 && b.drop_first()[j].node_id == id;
            assert(b[j + 1].node_id == id);
        }
    }
}

impl Kademlia {
    /// Offers `contact` to `bucket`. A contact whose identifier is known
    /// replaces the old entry and moves to the front; a new contact goes
    /// to the front when there is room. Either way the answer is
    /// `Settled(true)`. When the bucket is full its oldest contact is taken
    /// out and handed back to be pinged; [`Kademlia::settle_bucket`] then
    /// completes the offer.
    pub fn update_bucket(bucket: &mut VecDeque<NodeContact>, contact: &NodeContact) -> (r:
        BucketUpdate)
        ensures
            final(bucket)@ == bucket_after_update(old(bucket)@, *contact),
            r == update_outcome(old(bucket)@, *contact),
    {
        let n = bucket.len();
        let mut i: usize = 0;
        while i < n
            invariant
                n == bucket@.len(),
                i <= n,
                bucket@ == old(bucket)@,
                forall|k: int| 0 <= k < i ==> bucket@[k].node_id != contact.node_id,
            decreases n - i,
        {
            if bucket[i].node_id == contact.node_id {
                proof {
                    lemma_index_of_id(bucket@, contact.node_id, i as int);
                }
                let _ = bucket.remove(i);
                bucket.push_front(*contact);
                return BucketUpdate::Settled(true);
            }
            i = i + 1;
        }
        proof {
            lemma_index_of_id(bucket@, contact.node_id, i as int);
        }
        if bucket.len() < BUCKET_SIZE {
            bucket.push_front(*contact);
            BucketUpdate::Settled(true)
        } else {
            let oldest = bucket.pop_back();
            match oldest {
                Some(c) => BucketUpdate::PingOldest(c),
                None => BucketUpdate::Settled(true),
            }
        }
    }

    /// Completes an offer that [`Kademlia::update_bucket`] left waiting on
    /// a ping of `evict_candidate`: a live candidate goes back to the front
    /// and the offer is refused (`false`); otherwise `contact` takes its
    /// place at the front (`true`).
    pub fn settle_bucket(
        bucket: &mut VecDeque<NodeContact>,
        evict_candidate: NodeContact,
        contact: &NodeContact,
        candidate_alive: bool,
    ) -> (r: bool)
        ensures
            final(bucket)@ == bucket_after_settle(
                old(bucket)@,
                evict_candidate,
                *contact,
                candidate_alive,
            ),
            r == !candidate_alive,
    {
        if candidate_alive {
            bucket.push_front(evict_candidate);
            false
        } else {
            bucket.push_front(*contact);
            true
        }
    }
}

/// Errors of routing-table queries.
#[derive(Clone, Copy, Debug, PartialEq, Eq, Structural)]
pub enum KademliaError {
    /// The lookup target is this node's own identifier.
    FindingSelf,
}

/// A node's routing table.
pub struct Kademlia {
    // bucket i holds contacts sharing exactly i leading bits with node_id
    routing_table: Vec<VecDeque<NodeContact>>,
    node_id: NodeId,
}

impl Kademlia {
    /// This node's identifier.
    pub closed spec fn own_id(&self) -> NodeId {
        self.node_id
    }

    /// The contacts of each bucket, newest first.
    pub closed spec fn buckets(&self) -> Seq<Seq<NodeContact>> {
        self.routing_table@.map_values(|b: VecDeque<NodeContact>| b@)
    }

    /// The table is well formed (see [`table_wf`]).
    pub open spec fn wf(&self) -> bool {
        table_wf(self.own_id(), self.buckets())
    }

    /// An empty routing table for the node `node_id`.
    pub fn new(node_id: NodeId) -> (r: Kademlia)
        ensures
            r.wf(),
            r.own_id() == node_id,
            r.buckets() == Seq::new(NUM_BUCKETS as nat, |i: int| Seq::<NodeContact>::empty()),
    {
        let mut routing_table: Vec<VecDeque<NodeContact>> = Vec::with_capacity(NUM_BUCKETS);
        let mut i: usize = 0;
        while i < NUM_BUCKETS
            invariant
                i <= NUM_BUCKETS,
                routing_table@.len() == i,
                forall|j: int| 0 <= j < i ==> (#[trigger] routing_table@[j])@.len() == 0,
            decreases NUM_BUCKETS - i,
        {
            routing_table.push(VecDeque::with_capacity(BUCKET_SIZE));
            i = i + 1;
        }
        let r = Kademlia { routing_table, node_id };
        assert forall|j: int| 0 <= j < NUM_BUCKETS implies #[trigger] r.buckets()[j]
            =~= Seq::<NodeContact>::empty() by {
            assert(r.routing_table@[j]@.len() == 0);
        }
        assert(r.buckets() =~= Seq::new(NUM_BUCKETS as nat, |i: int| Seq::<NodeContact>::empty()));
        r
    }

    /// XOR distance between two identifiers.
    pub fn xor_distance(a: NodeId, b: NodeId) -> (r: NodeId)
        ensures
            r@ == distance(a, b),
    {
        a.xor(&b)
    }

    /// The number of leading bits `id` shares with this node's identifier,
    /// which is the index of the bucket `id` belongs in.
    pub fn routing_index(&self, id: NodeId) -> (r: usize)
        requires
            id != self.own_id(),
        ensures
            r == routing_index_of(self.own_id(), id),
            r < NUM_BUCKETS,
    {
        let d = Self::xor_distance(id, self.node_id);
        proof {
            lemma_leading_zero_bits_bound(d@);
            lemma_xor_zero_iff_equal(id@, self.node_id@);
            assert(id@ != self.node_id@) by {
                if id@ == self.node_id@ {
                    assert(id.bytes =~= self.node_id.bytes);
                }
            }
        }
        d.leading_zeros() as usize
    }

    /// The bucket that `node_id` belongs in.
    pub fn bucket_for(&self, node_id: NodeId) -> (r: &VecDeque<NodeContact>)
        requires
            self.wf(),
            node_id != self.own_id(),
        ensures
            r@ == self.buckets()[routing_index_of(self.own_id(), node_id) as int],
    {
        let i = self.routing_index(node_id);
        &self.routing_table[i]
    }

    /// Number of contacts in the table.
    pub fn len(&self) -> (r: usize)
        requires
            self.wf(),
        ensures
            r == total_len(self.buckets()),
    {
        let mut sum: usize = 0;
        let mut i: usize = 0;
        while i < NUM_BUCKETS
            invariant
                self.wf(),
                i <= NUM_BUCKETS,
                sum == total_len(self.buckets().take(i as int)),
                sum <= BUCKET_SIZE * i,
            decreases NUM_BUCKETS - i,
        {
            assert(self.buckets().take(i + 1).drop_last() =~= self.buckets().take(i as int));
            assert(self.buckets()[i as int].len() <= BUCKET_SIZE);
            sum = sum + self.routing_table[i].len();
            i = i + 1;
        }
        assert(self.buckets().take(NUM_BUCKETS as int) =~= self.buckets());
        sum
    }

    /// Whether the table holds no contact.
    pub fn is_empty(&self) -> (r: bool)
        requires
            self.wf(),
        ensures
            r == (total_len(self.buckets()) == 0),
    {
        self.len() == 0
    }
}

proof fn lemma_update_preserves_bucket_wf(own: NodeId, i: int, b: Seq<NodeContact>, contact: NodeContact)
    requires
        bucket_wf(own, i, b),
        contact.node_id != own,
        routing_index_of(own, contact.node_id) == i,
    ensures
        bucket_wf(own, i, bucket_after_update(b, contact)),
        update_outcome(b, contact) matches BucketUpdate::PingOldest(c) ==> {
            &&& b.len() == BUCKET_SIZE
            &&& c == b.last()
            &&& bucket_after_update(b, contact) == b.drop_last()
            &&& c.node_id != own
            &&& routing_index_of(own, c.node_id) == i
            &&& !has_id(b.drop_last(), c.node_id)
            &&& !has_id(b.drop_last(), contact.node_id)
        },
{
    lemma_index_of_id_bounds(b, contact.node_id);
    let p = index_of_id(b, contact.node_id);
    let nb = bucket_after_update(b, contact);
    if p >= 0 {
        let rest = b.remove(p);
        assert forall|j: int| 0 <= j < rest.len() implies #[trigger] rest[j].node_id
            != contact.node_id by {
            if j < p {
                assert(rest[j] == b[j]);
            } else {
                assert(rest[j] == b[j + 1]);
            }
        }
        assert forall|j: int, k: int| 0 <= j < k < nb.len() implies #[trigger] nb[j].node_id
            != #[trigger] nb[k].node_id by {
            if j > 0 {
                let jj = if j - 1 < p { j - 1 } else { j };
                let kk = if k - 1 < p { k - 1 } else { k };
                assert(nb[j] == b[jj]);
                assert(nb[k] == b[kk]);
            } else {
                assert(nb[k] == rest[k - 1]);
            }
        }
        assert forall|j: int| 0 <= j < nb.len() implies #[trigger] nb[j].node_id != own
            && routing_index_of(own, nb[j].node_id) == i by {
            if j > 0 {
                let jj = if j - 1 < p { j - 1 } else { j };
                assert(nb[j] == b[jj]);
            }
        }
    } else if b.len() < BUCKET_SIZE {
        assert forall|j: int, k: int| 0 <= j < k < nb.len() implies #[trigger] nb[j].node_id
            != #[trigger] nb[k].node_id by {
            if j > 0 {
                assert(nb[j] == b[j - 1]);
                assert(nb[k] == b[k - 1]);
            } else {
                assert(nb[k] == b[k - 1]);
            }
        }
        assert forall|j: int| 0 <= j < nb.len() implies #[trigger] nb[j].node_id != own
            && routing_index_of(own, nb[j].node_id) == i by {
            if j > 0 {
                assert(nb[j] == b[j - 1]);
            }
        }
    } else {
        let d = b.drop_last();
        assert forall|j: int, k: int| 0 <= j < k < d.len() implies #[trigger] d[j].node_id
            != #[trigger] d[k].node_id by {
            assert(d[j] == b[j]);
            assert(d[k] == b[k]);
        }
        assert forall|j: int| 0 <= j < d.len() implies #[trigger] d[j].node_id != own
            && routing_index_of(own, d[j].node_id) == i by {
            assert(d[j] == b[j]);
        }
        if has_id(d, b.last().node_id) {
            let j = choose|j: int| 0 <= j < d.len() && d[j].node_id == b.last().node_id;
            assert(d[j] == b[j]);
            assert(b[j].node_id != b[b.len() - 1].node_id);
        }
        if has_id(d, contact.node_id) {
            let j = choose|j: int| 0 <= j < d.len() && d[j].node_id == contact.node_id;
            assert(d[j] == b[j]);
        }
        assert(b.last() == b[b.len() - 1]);
    }
}

impl Kademlia {
    /// The contact that a pending offer puts back into its bucket, the
    /// pinged candidate when it answered and the offered contact otherwise,
    /// fits that bucket: there is room, it belongs there, and its identifier
    /// is not there yet.
    pub open spec fn settle_allowed(
        &self,
        evict_candidate: NodeContact,
        contact: NodeContact,
        candidate_alive: bool,
    ) -> bool {
        let i = routing_index_of(self.own_id(), contact.node_id) as int;
        let pushed = if candidate_alive {
            evict_candidate
        } else {
            contact
        };
        &&& self.buckets()[i].len() < BUCKET_SIZE
        &&& pushed.node_id != self.own_id()
        &&& routing_index_of(self.own_id(), pushed.node_id) == i
        &&& !has_id(self.buckets()[i], pushed.node_id)
    }

    /// Offers `contact` to the bucket it belongs in (see
    /// [`Kademlia::update_bucket`]).
    pub fn try_insert(&mut self, contact: &NodeContact) -> (r: BucketUpdate)
        requires
            old(self).wf(),
            contact.node_id != old(self).own_id(),
        ensures
            final(self).wf(),
            final(self).own_id() == old(self).own_id(),
            final(self).buckets() == old(self).buckets().update(
                routing_index_of(old(self).own_id(), contact.node_id) as int,
                bucket_after_update(
                    old(self).buckets()[routing_index_of(old(self).own_id(), contact.node_id) as int],
                    *contact,
                ),
            ),
            r == update_outcome(
                old(self).buckets()[routing_index_of(old(self).own_id(), contact.node_id) as int],
                *contact,
            ),
            r matches BucketUpdate::PingOldest(c) ==> final(self).settle_allowed(c, *contact, true)
                && final(self).settle_allowed(c, *contact, false),
    {
        let i = self.routing_index(contact.node_id);
        proof {
            lemma_update_preserves_bucket_wf(
                self.node_id,
                i as int,
                self.buckets()[i as int],
                *contact,
            );
        }
        let r = Self::update_bucket(&mut self.routing_table[i], contact);
        assert(self.buckets() =~= old(self).buckets().update(
            i as int,
            bucket_after_update(old(self).buckets()[i as int], *contact),
        ));
        r
    }

    /// Whether [`Kademlia::finish_insert`] may be called with these
    /// arguments (see [`Kademlia::settle_allowed`]).
    pub fn can_finish_insert(
        &self,
        evict_candidate: &NodeContact,
        contact: &NodeContact,
        candidate_alive: bool,
    ) -> (r: bool)
        requires
            self.wf(),
            contact.node_id != self.own_id(),
        ensures
            r == self.settle_allowed(*evict_candidate, *contact, candidate_alive),
    {
        let i = self.routing_index(contact.node_id);
        let pushed = if candidate_alive {
            evict_candidate
        } else {
            contact
        };
        if self.routing_table[i].len() >= BUCKET_SIZE || pushed.node_id == self.node_id {
            return false;
        }
        if self.routing_index(pushed.node_id) != i {
            return false;
        }
        let bucket = &self.routing_table[i];
        assert(bucket@ == self.buckets()[i as int]);
        let n = bucket.len();
        let mut j: usize = 0;
        while j < n
            invariant
                n == bucket@.len(),
                j <= n,
                bucket@ == self.buckets()[i as int],
                i == routing_index_of(self.own_id(), contact.node_id),
                *pushed == (if candidate_alive {
                    *evict_candidate
                } else {
                    *contact
                }),
                forall|k: int| 0 <= k < j ==> bucket@[k].node_id != pushed.node_id,
            decreases n - j,
        {
            if bucket[j].node_id == pushed.node_id {
                assert(has_id(bucket@, pushed.node_id)) by {
                    assert(bucket@[j as int].node_id == pushed.node_id);
                }
                return false;
            }
            j = j + 1;
        }
        true
    }

    /// Completes an offer left waiting by [`Kademlia::try_insert`] on a
    /// ping of `evict_candidate` (see [`Kademlia::settle_bucket`]).
    pub fn finish_insert(
        &mut self,
        evict_candidate: NodeContact,
        contact: &NodeContact,
        candidate_alive: bool,
    ) -> (r: bool)
        requires
            old(self).wf(),
            contact.node_id != old(self).own_id(),
            old(self).settle_allowed(evict_candidate, *contact, candidate_alive),
        ensures
            final(self).wf(),
            final(self).own_id() == old(self).own_id(),
            final(self).buckets() == old(self).buckets().update(
                routing_index_of(old(self).own_id(), contact.node_id) as int,
                bucket_after_settle(
                    old(self).buckets()[routing_index_of(old(self).own_id(), contact.node_id) as int],
                    evict_candidate,
                    *contact,
                    candidate_alive,
                ),
            ),
            r == !candidate_alive,
    {
        let i = self.routing_index(contact.node_id);
        let ghost b = self.buckets()[i as int];
        let r = Self::settle_bucket(&mut self.routing_table[i], evict_candidate, contact, candidate_alive);
        assert(self.buckets() =~= old(self).buckets().update(
            i as int,
            bucket_after_settle(b, evict_candidate, *contact, candidate_alive),
        ));
        proof {
            let nb = bucket_after_settle(b, evict_candidate, *contact, candidate_alive);
            let pushed = if candidate_alive {
                evict_candidate
            } else {
                *contact
            };
            assert(bucket_wf(self.node_id, i as int, b));
            assert forall|j: int, k: int| 0 <= j < k < nb.len() implies #[trigger] nb[j].node_id
                != #[trigger] nb[k].node_id by {
                assert(nb[k] == b[k - 1]);
                if j > 0 {
                    assert(nb[j] == b[j - 1]);
                }
            }
            assert forall|j: int| 0 <= j < nb.len() implies #[trigger] nb[j].node_id
                != self.node_id && routing_index_of(self.node_id, nb[j].node_id) == i by {
                if j > 0 {
                    assert(nb[j] == b[j - 1]);
                }
            }
            assert(bucket_wf(self.node_id, i as int, nb));
        }
        r
    }
}

/// No identifier occurs twice in `s`.
pub open spec fn distinct_ids(s: Seq<NodeContact>) -> bool {
    forall|i: int, j: int|
        0 <= i < j < s.len() ==> #[trigger] s[i].node_id != #[trigger] s[j].node_id
}

/// `r` is the answer to a lookup of `target` among `cands`: the
/// `BUCKET_SIZE` candidates nearest to `target` (all of them when there are
/// fewer), each once, in strictly increasing XOR distance, every candidate
/// left out being strictly farther than every one taken.
pub open spec fn closest_selection(
    r: Seq<NodeContact>,
    cands: Seq<NodeContact>,
    target: NodeId,
) -> bool {
    &&& r.len() == if cands.len() < BUCKET_SIZE {
        cands.len()
    } else {
        BUCKET_SIZE as nat
    }
    &&& forall|i: int| 0 <= i < r.len() ==> cands.contains(#[trigger] r[i])
    &&& distinct_ids(r)
    &&& forall|i: int, j: int|
        0 <= i < j < r.len() ==> lex_lt(
            distance(#[trigger] r[i].node_id, target),
            distance(#[trigger] r[j].node_id, target),
        )
    &&& forall|c: NodeContact|
        #![trigger cands.contains(c), r.contains(c)]
        cands.contains(c) && !r.contains(c) ==> forall|i: int|
            0 <= i < r.len() ==> lex_lt(
                distance(#[trigger] r[i].node_id, target),
                distance(c.node_id, target),
            )
    &&& r.len() == cands.len() ==> forall|c: NodeContact| #[trigger]
        cands.contains(c) ==> r.contains(c)
}

proof fn lemma_lex_le_trans(a: Seq<u8>, b: Seq<u8>, c: Seq<u8>)
    requires
        lex_le(a, b),
        lex_le(b, c),
    ensures
        lex_le(a, c),
{
    if lex_lt(a, b) && lex_lt(b, c) {
        lemma_lex_lt_transitive(a, b, c);
    }
}

proof fn lemma_lex_not_lt(a: Seq<u8>, b: Seq<u8>)
    requires
        a.len() == b.len(),
        !lex_lt(a, b),
    ensures
        lex_le(b, a),
{
    lemma_lex_lt_total(a, b);
}

/// Of two contacts with different identifiers, one no farther from
/// `target` than the other is strictly nearer.
proof fn lemma_strictly_nearer(a: NodeContact, b: NodeContact, target: NodeId)
    requires
        a.node_id != b.node_id,
        lex_le(distance(a.node_id, target), distance(b.node_id, target)),
    ensures
        lex_lt(distance(a.node_id, target), distance(b.node_id, target)),
{
    lemma_distance_metric(a.node_id, b.node_id, target);
}

/// The `BUCKET_SIZE` candidates nearest to `target`, nearest first.
fn select_closest(cands: Vec<NodeContact>, target: NodeId) -> (r: Vec<NodeContact>)
    requires
        distinct_ids(cands@),
    ensures
        closest_selection(r@, cands@, target),
{
    let ghost all = cands@;
    let mut remaining = cands;
    let mut result: Vec<NodeContact> = Vec::new();
    while result.len() < BUCKET_SIZE && remaining.len() > 0
        invariant
            result@.len() <= BUCKET_SIZE,
            result@.len() + remaining@.len() == all.len(),
            forall|i: int| 0 <= i < result@.len() ==> all.contains(#[trigger] result@[i]),
            forall|i: int| 0 <= i < remaining@.len() ==> all.contains(#[trigger] remaining@[i]),
            forall|c: NodeContact| #[trigger]
                all.contains(c) ==> result@.contains(c) || remaining@.contains(c),
            distinct_ids(result@),
            distinct_ids(remaining@),
            forall|i: int, k: int|
                0 <= i < result@.len() && 0 <= k < remaining@.len() ==> #[trigger] result@[i].node_id
                    != #[trigger] remaining@[k].node_id,
            forall|i: int, j: int|
                0 <= i < j < result@.len() ==> lex_le(
                    distance(#[trigger] result@[i].node_id, target),
                    distance(#[trigger] result@[j].node_id, target),
                ),
            forall|i: int, k: int|
                0 <= i < result@.len() && 0 <= k < remaining@.len() ==> lex_le(
                    distance(#[trigger] result@[i].node_id, target),
                    distance(#[trigger] remaining@[k].node_id, target),
                ),
        decreases remaining@.len(),
    {
        let n = remaining.len();
        let mut m: usize = 0;
        let mut best = Kademlia::xor_distance(remaining[0].node_id, target);
        let mut k: usize = 1;
        while k < n
            invariant
                n == remaining@.len(),
                1 <= k <= n,
                m < k,
                best@ == distance(remaining@[m as int].node_id, target),
                forall|k2: int| 0 <= k2 < k ==> lex_le(
                    distance(remaining@[m as int].node_id, target),
                    distance(#[trigger] remaining@[k2].node_id, target),
                ),
            decreases n - k,
        {
            let d = Kademlia::xor_distance(remaining[k].node_id, target);
            if d.less_than(&best) {
                proof {
                    assert forall|k2: int| 0 <= k2 < k + 1 implies lex_le(
                        distance(remaining@[k as int].node_id, target),
                        distance(#[trigger] remaining@[k2].node_id, target),
                    ) by {
                        if k2 < k {
                            lemma_lex_le_trans(
                                d@,
                                best@,
                                distance(remaining@[k2].node_id, target),
                            );
                        }
                    }
                }
                m = k;
                best = d;
            } else {
                proof {
                    lemma_lex_not_lt(d@, best@);
                }
            }
            k = k + 1;
        }
        let ghost old_result = result@;
        let ghost old_rem = remaining@;
        let c = remaining.remove(m);
        result.push(c);
        proof {
            assert(c == old_rem[m as int]);
            assert forall|i: int| 0 <= i < remaining@.len() implies #[trigger] remaining@[i] == (
            if i < m {
                old_rem[i]
            } else {
                old_rem[i + 1]
            }) by {}
            assert forall|i: int| 0 <= i < result@.len() implies all.contains(
                #[trigger] result@[i],
            ) by {
                if i < old_result.len() {
                    assert(result@[i] == old_result[i]);
                }
            }
            assert forall|i: int| 0 <= i < remaining@.len() implies all.contains(
                #[trigger] remaining@[i],
            ) by {
                if i < m {
                    assert(remaining@[i] == old_rem[i]);
                } else {
                    assert(remaining@[i] == old_rem[i + 1]);
                }
            }
            assert forall|x: NodeContact| #[trigger]
                all.contains(x) implies result@.contains(x) || remaining@.contains(x) by {
                if old_result.contains(x) {
                    let i = choose|i: int| 0 <= i < old_result.len() && old_result[i] == x;
                    assert(result@[i] == x);
                } else {
                    let k2 = choose|k2: int| 0 <= k2 < old_rem.len() && old_rem[k2] == x;
                    if k2 == m {
                        assert(result@[old_result.len() as int] == x);
                    } else if k2 < m {
                        assert(remaining@[k2] == x);
                    } else {
                        assert(remaining@[k2 - 1] == x);
                    }
                }
            }
            assert forall|i: int, j: int| 0 <= i < j < result@.len() implies #[trigger] result@[i].node_id
                != #[trigger] result@[j].node_id by {
                assert(result@[i] == old_result[i]);
                if j == old_result.len() {
                    assert(result@[j] == old_rem[m as int]);
                } else {
                    assert(result@[j] == old_result[j]);
                }
            }
            assert forall|a: int, b: int| 0 <= a < b < remaining@.len() implies #[trigger] remaining@[a].node_id
                != #[trigger] remaining@[b].node_id by {
                let aa = if a < m {
                    a
                } else {
                    a + 1
                };
                let bb = if b < m {
                    b
                } else {
                    b + 1
                };
                assert(remaining@[a] == old_rem[aa]);
                assert(remaining@[b] == old_rem[bb]);
            }
            assert forall|i: int, k2: int|
                0 <= i < result@.len() && 0 <= k2 < remaining@.len() implies #[trigger] result@[i].node_id
                != #[trigger] remaining@[k2].node_id by {
                let kk = if k2 < m {
                    k2
                } else {
                    k2 + 1
                };
                assert(remaining@[k2] == old_rem[kk]);
                if i < old_result.len() {
                    assert(result@[i] == old_result[i]);
                } else {
                    assert(result@[i] == old_rem[m as int]);
                }
            }
            assert forall|i: int, j: int| 0 <= i < j < result@.len() implies lex_le(
                distance(#[trigger] result@[i].node_id, target),
                distance(#[trigger] result@[j].node_id, target),
            ) by {
                if j == old_result.len() {
                    assert(result@[i] == old_result[i]);
                    assert(result@[j] == old_rem[m as int]);
                } else {
                    assert(result@[i] == old_result[i]);
                    assert(result@[j] == old_result[j]);
                }
            }
            assert forall|i: int, k2: int|
                0 <= i < result@.len() && 0 <= k2 < remaining@.len() implies lex_le(
                distance(#[trigger] result@[i].node_id, target),
                distance(#[trigger] remaining@[k2].node_id, target),
            ) by {
                let kk = if k2 < m {
                    k2
                } else {
                    k2 + 1
                };
                assert(remaining@[k2] == old_rem[kk]);
                if i < old_result.len() {
                    assert(result@[i] == old_result[i]);
                } else {
                    assert(result@[i] == old_rem[m as int]);
                }
            }
        }
    }
    proof {
        assert forall|i: int, j: int| 0 <= i < j < result@.len() implies lex_lt(
            distance(#[trigger] result@[i].node_id, target),
            distance(#[trigger] result@[j].node_id, target),
        ) by {
            lemma_strictly_nearer(result@[i], result@[j], target);
        }
        assert forall|x: NodeContact|
            #![trigger all.contains(x), result@.contains(x)]
            all.contains(x) && !result@.contains(x) implies forall|i: int|
            0 <= i < result@.len() ==> lex_lt(
                distance(#[trigger] result@[i].node_id, target),
                distance(x.node_id, target),
            ) by {
            assert(remaining@.contains(x));
            let k2 = choose|k2: int| 0 <= k2 < remaining@.len() && remaining@[k2] == x;
            assert forall|i: int| 0 <= i < result@.len() implies lex_lt(
                distance(#[trigger] result@[i].node_id, target),
                distance(x.node_id, target),
            ) by {
                assert(remaining@[k2] == x);
                lemma_strictly_nearer(result@[i], x, target);
            }
        }
    }
    result
}

/// Identifiers are distinct across the buckets of a well-formed table:
/// within a bucket by the bucket's invariant, and between buckets because
/// each identifier belongs in one bucket only.
proof fn lemma_flatten_distinct(own: NodeId, bs: Seq<Seq<NodeContact>>)
    requires
        forall|i: int| 0 <= i < bs.len() ==> bucket_wf(own, i, #[trigger] bs[i]),
    ensures
        distinct_ids(flatten(bs)),
    decreases bs.len(),
{
    if bs.len() > 0 {
        let p = bs.drop_last();
        assert forall|i: int| 0 <= i < p.len() implies bucket_wf(own, i, #[trigger] p[i]) by {
            assert(p[i] == bs[i]);
        }
        lemma_flatten_distinct(own, p);
        lemma_flatten_len(p);
        let f = flatten(bs);
        let fp = flatten(p);
        let last = bs.last();
        assert(bucket_wf(own, bs.len() - 1, bs[bs.len() - 1]));
        assert(f == fp + last);
        assert forall|a: int, b: int| 0 <= a < b < f.len() implies #[trigger] f[a].node_id
            != #[trigger] f[b].node_id by {
            if b < fp.len() {
                assert(f[a] == fp[a]);
                assert(f[b] == fp[b]);
            } else if a >= fp.len() {
                assert(f[a] == last[a - fp.len()]);
                assert(f[b] == last[b - fp.len()]);
            } else {
                assert(f[a] == fp[a]);
                assert(f[b] == last[b - fp.len()]);
                assert(fp.contains(fp[a]));
                lemma_flatten_member(p, fp[a]);
                let (i, j) = choose|i: int, j: int|
                    0 <= i < p.len() && 0 <= j < p[i].len() && p[i][j] == fp[a];
                assert(bucket_wf(own, i, p[i]));
                assert(routing_index_of(own, p[i][j].node_id) == i);
                assert(routing_index_of(own, last[b - fp.len()].node_id) == bs.len() - 1);
            }
        }
    }
}

impl Kademlia {
    /// Every contact of the table, bucket after bucket.
    fn all_contacts(&self) -> (r: Vec<NodeContact>)
        requires
            self.wf(),
        ensures
            r@ == flatten(self.buckets()),
    {
        let ghost bs = self.buckets();
        let mut out: Vec<NodeContact> = Vec::new();
        let mut k: usize = 0;
        assert(bs.take(0) =~= Seq::<Seq<NodeContact>>::empty());
        while k < NUM_BUCKETS
            invariant
                self.wf(),
                bs == self.buckets(),
                k <= NUM_BUCKETS,
                out@ == flatten(bs.take(k as int)),
            decreases NUM_BUCKETS - k,
        {
            let bucket = &self.routing_table[k];
            assert(bs[k as int] == bucket@);
            let n = bucket.len();
            let mut j: usize = 0;
            assert(flatten(bs.take(k as int)) + bucket@.take(0) =~= flatten(bs.take(k as int)));
            while j < n
                invariant
                    n == bucket@.len(),
                    j <= n,
                    out@ == flatten(bs.take(k as int)) + bucket@.take(j as int),
                decreases n - j,
            {
                let c = bucket[j];
                out.push(c);
                assert(flatten(bs.take(k as int)) + bucket@.take(j + 1) =~= (flatten(
                    bs.take(k as int),
                ) + bucket@.take(j as int)).push(c));
                j = j + 1;
            }
            proof {
                assert(bs.take(k + 1).drop_last() =~= bs.take(k as int));
                assert(bucket@.take(n as int) =~= bucket@);
                assert(bs.take(k + 1).last() == bucket@);
            }
            k = k + 1;
        }
        assert(bs.take(NUM_BUCKETS as int) =~= bs);
        out
    }

    /// The `BUCKET_SIZE` known contacts nearest to `target` (all of them
    /// when there are fewer), nearest first.
    fn closest_known_contacts(&self, target: NodeId) -> (r: Vec<NodeContact>)
        requires
            self.wf(),
        ensures
            closest_selection(r@, flatten(self.buckets()), target),
    {
        let contacts = self.all_contacts();
        proof {
            lemma_flatten_distinct(self.own_id(), self.buckets());
        }
        select_closest(contacts, target)
    }

    /// The `BUCKET_SIZE` known contacts nearest to `node_id`, nearest first
    /// (all known contacts when there are fewer); an error when `node_id`
    /// is this node's own identifier.
    pub fn k_closest(&self, node_id: NodeId) -> (r: Result<Vec<NodeContact>, KademliaError>)
        requires
            self.wf(),
        ensures
            r is Err <==> node_id == self.own_id(),
            r matches Err(e) ==> e == KademliaError::FindingSelf,
            r matches Ok(v) ==> closest_selection(v@, flatten(self.buckets()), node_id),
    {
        if node_id == self.node_id {
            return Err(KademliaError::FindingSelf);
        }
        Ok(self.closest_known_contacts(node_id))
    }
}

/// Kademlia's bucket order. Let `rb`, `rt`, `ra` be the buckets of `b`,
/// `target` and `a` in the table of `own`. When `rb` is below both `rt` and
/// `ra`, then `a` is strictly closer to `target` than `b`. So every contact
/// in a bucket at or above the target's bucket is closer to the target
/// than every contact in a bucket below it, and among the buckets below,
/// a higher bucket holds closer contacts.
pub proof fn lemma_lower_bucket_is_farther(own: NodeId, target: NodeId, a: NodeId, b: NodeId)
    requires
        routing_index_of(own, b) < routing_index_of(own, target),
        routing_index_of(own, b) < routing_index_of(own, a),
    ensures
        lex_lt(distance(a, target), distance(b, target)),
{
    lemma_xor_commutative(own@, target@);
    lemma_prefix_ultrametric(a@, own@, target@);
    lemma_prefix_ultrametric(b@, own@, target@);
    lemma_more_leading_zeros_is_smaller(distance(a, target), distance(b, target));
}

/// The XOR distance is symmetric, is zero exactly between equal
/// identifiers, and from a fixed target no two identifiers are at the same
/// distance.
pub proof fn lemma_distance_metric(a: NodeId, b: NodeId, t: NodeId)
    ensures
        distance(a, b) == distance(b, a),
        all_zero(distance(a, b)) <==> a == b,
        distance(a, t) == distance(b, t) ==> a == b,
{
    lemma_xor_commutative(a@, b@);
    lemma_xor_zero_iff_equal(a@, b@);
    if distance(a, t) == distance(b, t) {
        lemma_xor_injective(a@, b@, t@);
    }
    if a@ == b@ {
        assert(a.bytes =~= b.bytes);
    }
}

/// Offering a contact to a bucket with room, or one that already knows its
/// identifier, puts the contact at the front of the bucket.
pub proof fn lemma_offer_puts_contact_first(b: Seq<NodeContact>, contact: NodeContact)
    ensures
        update_outcome(b, contact) == BucketUpdate::Settled(true) ==> bucket_after_update(
            b,
            contact,
        )[0] == contact,
        update_outcome(b, contact) == BucketUpdate::Settled(true) || update_outcome(b, contact)
            == BucketUpdate::PingOldest(b.last()),
{
}

/// Least-recently-seen eviction: when a full bucket is offered a new
/// contact, its oldest contact is pinged; if it answers it moves to the
/// front and the new contact is refused, otherwise it is dropped and the
/// new contact takes the front. Either way the bucket stays full.
pub proof fn lemma_full_bucket_eviction(
    b: Seq<NodeContact>,
    contact: NodeContact,
    candidate_alive: bool,
)
    requires
        b.len() == BUCKET_SIZE,
        !has_id(b, contact.node_id),
    ensures
        update_outcome(b, contact) == BucketUpdate::PingOldest(b.last()),
        candidate_alive ==> bucket_after_settle(
            bucket_after_update(b, contact),
            b.last(),
            contact,
            candidate_alive,
        ) == seq![b.last()] + b.drop_last(),
        !candidate_alive ==> bucket_after_settle(
            bucket_after_update(b, contact),
            b.last(),
            contact,
            candidate_alive,
        ) == seq![contact] + b.drop_last(),
        bucket_after_settle(
            bucket_after_update(b, contact),
            b.last(),
            contact,
            candidate_alive,
        ).len() == BUCKET_SIZE,
{
    lemma_index_of_id_bounds(b, contact.node_id);
}

proof fn lemma_flatten_len(x: Seq<Seq<NodeContact>>)
    ensures
        flatten(x).len() == total_len(x),
    decreases x.len(),
{
    if x.len() > 0 {
        lemma_flatten_len(x.drop_last());
    }
}

proof fn lemma_flatten_contains(x: Seq<Seq<NodeContact>>, i: int, j: int)
    requires
        0 <= i < x.len(),
        0 <= j < x[i].len(),
    ensures
        flatten(x).contains(x[i][j]),
    decreases x.len(),
{
    lemma_flatten_len(x.drop_last());
    if i == x.len() - 1 {
        assert(flatten(x)[flatten(x.drop_last()).len() + j] == x[i][j]);
    } else {
        lemma_flatten_contains(x.drop_last(), i, j);
        let k = choose|k: int|
            0 <= k < flatten(x.drop_last()).len() && flatten(x.drop_last())[k] == x[i][j];
        assert(flatten(x)[k] == x[i][j]);
    }
}

proof fn lemma_flatten_member(x: Seq<Seq<NodeContact>>, c: NodeContact)
    requires
        flatten(x).contains(c),
    ensures
        exists|i: int, j: int| 0 <= i < x.len() && 0 <= j < x[i].len() && x[i][j] == c,
    decreases x.len(),
{
    lemma_flatten_len(x.drop_last());
    let k = choose|k: int| 0 <= k < flatten(x).len() && flatten(x)[k] == c;
    let n = flatten(x.drop_last()).len();
    if k < n {
        assert(flatten(x.drop_last())[k] == c);
        lemma_flatten_member(x.drop_last(), c);
        let (i, j) = choose|i: int, j: int|
            0 <= i < x.drop_last().len() && 0 <= j < x.drop_last()[i].len() && x.drop_last()[i][j]
                == c;
        assert(x[i][j] == c);
    } else {
        assert(x[x.len() - 1][k - n] == c);
    }
}

/// Some bucket of `bs` holds `c`.
pub open spec fn in_table(bs: Seq<Seq<NodeContact>>, c: NodeContact) -> bool {
    exists|i: int, j: int| 0 <= i < bs.len() && 0 <= j < bs[i].len() && bs[i][j] == c
}

/// A lookup answers with the known contacts nearest to the target: as
/// many as the table holds up to `BUCKET_SIZE`, each a contact of the
/// table, and every contact of the table left out strictly farther from
/// the target than every one in the answer.
pub proof fn lemma_lookup_answers_nearest_known(
    own: NodeId,
    bs: Seq<Seq<NodeContact>>,
    target: NodeId,
    r: Seq<NodeContact>,
)
    requires
        table_wf(own, bs),
        closest_selection(r, flatten(bs), target),
    ensures
        r.len() == if total_len(bs) < BUCKET_SIZE {
            total_len(bs)
        } else {
            BUCKET_SIZE as nat
        },
        forall|k: int| 0 <= k < r.len() ==> in_table(bs, #[trigger] r[k]),
        forall|c: NodeContact|
            #![trigger in_table(bs, c)]
            in_table(bs, c) && !r.contains(c) ==> forall|k: int|
                0 <= k < r.len() ==> lex_lt(
                    distance(#[trigger] r[k].node_id, target),
                    distance(c.node_id, target),
                ),
{
    lemma_flatten_len(bs);
    assert forall|k: int| 0 <= k < r.len() implies in_table(bs, #[trigger] r[k]) by {
        lemma_flatten_member(bs, r[k]);
    }
    assert forall|c: NodeContact| #[trigger] in_table(bs, c) && !r.contains(c) implies forall|k: int|
        0 <= k < r.len() ==> lex_lt(
            distance(#[trigger] r[k].node_id, target),
            distance(c.node_id, target),
        ) by {
        let (i, j) = choose|i: int, j: int|
            0 <= i < bs.len() && 0 <= j < bs[i].len() && bs[i][j] == c;
        lemma_flatten_contains(bs, i, j);
    }
}

/// When the routing table holds at most `BUCKET_SIZE` contacts, a lookup
/// answers with all of them.
pub proof fn lemma_small_table_lookup_returns_all(
    own: NodeId,
    bs: Seq<Seq<NodeContact>>,
    target: NodeId,
    r: Seq<NodeContact>,
)
    requires
        table_wf(own, bs),
        total_len(bs) <= BUCKET_SIZE,
        closest_selection(r, flatten(bs), target),
    ensures
        r.len() == total_len(bs),
        forall|i: int, j: int|
            0 <= i < bs.len() && 0 <= j < bs[i].len() ==> r.contains(#[trigger] bs[i][j]),
{
    lemma_flatten_len(bs);
    assert forall|i: int, j: int|
        0 <= i < bs.len() && 0 <= j < bs[i].len() implies r.contains(#[trigger] bs[i][j]) by {
        lemma_flatten_contains(bs, i, j);
    }
}

} // verus!
