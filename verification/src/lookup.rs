//! The iterative search for the seeders of a file: nodes are asked in
//! increasing XOR distance from the file, each answer possibly naming
//! nodes closer to it. The pending nodes wait in a `binary_heap_plus`
//! min-heap keyed by their distance.

use crate::kadem::{distance, distinct_ids, has_id, Kademlia, NodeContact};
use crate::messages::{FileId, MessageBody};
use crate::node_id::{lemma_words_order, lex_le, lex_lt, words_lt, words_of, NodeId, lemma_lex_lt_total};
use binary_heap_plus::{BinaryHeap, MinComparator};
use vstd::multiset::Multiset;
use vstd::prelude::*;

verus! {

/// Error code of a node that does not know the seeders of a file.
pub const ERR_DOESNT_OWN_FILE: i64 = 1;

/// Heap key of a pending node: the four words of its distance to the file,
/// then its position in the list of known nodes.
pub type SearchKey = (u64, u64, u64, u64, usize);

#[verifier::external_type_specification]
#[verifier::external_body]
#[verifier::reject_recursive_types(T)]
#[verifier::reject_recursive_types(C)]
pub struct ExBinaryHeap<T, C>(BinaryHeap<T, C>);

#[verifier::external_type_specification]
#[verifier::external_body]
pub struct ExMinComparator(MinComparator);

/// The keys held by a min-heap of search keys.
pub uninterp spec fn queued_keys(h: BinaryHeap<SearchKey, MinComparator>) -> Multiset<SearchKey>;

/// The order `Ord` gives search keys: lexicographic on the tuple.
pub open spec fn key_lt(a: SearchKey, b: SearchKey) -> bool {
    words_lt((a.0, a.1, a.2, a.3), (b.0, b.1, b.2, b.3)) || ((a.0, a.1, a.2, a.3) == (
        b.0,
        b.1,
        b.2,
        b.3,
    ) && a.4 < b.4)
}

/// `BinaryHeap::new_min`: an empty min-heap.
#[verifier::external_body]
fn heap_new() -> (r: BinaryHeap<SearchKey, MinComparator>)
    ensures
        queued_keys(r) =~= Multiset::empty(),
{
    BinaryHeap::new_min()
}

/// `BinaryHeap::push`: adds one key.
#[verifier::external_body]
fn heap_push(h: &mut BinaryHeap<SearchKey, MinComparator>, key: SearchKey)
    ensures
        queued_keys(*final(h)) =~= queued_keys(*old(h)).insert(key),
{
    h.push(key)
}

/// `BinaryHeap::pop` on a min-heap: removes and returns a smallest key, or
/// `None` when the heap is empty.
#[verifier::external_body]
fn heap_pop(h: &mut BinaryHeap<SearchKey, MinComparator>) -> (r: Option<SearchKey>)
    ensures
        match r {
            None => queued_keys(*old(h)).len() == 0 && queued_keys(*final(h)) =~= queued_keys(
                *old(h),
            ),
            Some(k) => {
                &&& queued_keys(*old(h)).contains(k)
                &&& forall|j: SearchKey| #[trigger]
                    queued_keys(*old(h)).contains(j) ==> !key_lt(j, k)
                &&& queued_keys(*final(h)) =~= queued_keys(*old(h)).remove(k)
            },
        },
{
    h.pop()
}

/// `known` extended with the contacts of `add` whose identifiers it does
/// not hold yet, in order (a later duplicate is ignored).
pub open spec fn extend_known(known: Seq<NodeContact>, add: Seq<NodeContact>) -> Seq<NodeContact>
    decreases add.len(),
{
    if add.len() == 0 {
        known
    } else {
        let k = extend_known(known, add.drop_last());
        if has_id(k, add.last().node_id) {
            k
        } else {
            k.push(add.last())
        }
    }
}

/// State of a seeder search.
pub struct SeederSearch {
    file: FileId,
    // every node ever queued, in the order first seen; the ids seen so far
    known: Vec<NodeContact>,
    queue: BinaryHeap<SearchKey, MinComparator>,
}

/// What a node's answer to a seeders request means.
#[derive(Debug)]
pub enum SeedersStep {
    /// The node named the seeders.
    Found(Vec<NodeContact>),
    /// The node answered with an error other than not knowing the file.
    Refused(i64),
    /// Ask the node for nodes closer to the file.
    AskOwners,
}

impl SeederSearch {
    /// The file searched for.
    pub closed spec fn file_spec(&self) -> FileId {
        self.file
    }

    /// Every node seen so far, in the order first seen.
    pub closed spec fn known_spec(&self) -> Seq<NodeContact> {
        self.known@
    }

    /// Positions in [`SeederSearch::known_spec`] of the nodes still to ask.
    pub closed spec fn pending(&self) -> Set<int> {
        Set::new(|i: int| exists|k: SearchKey| queued_keys(self.queue).contains(k) && k.4 == i)
    }

    /// Key of the node at position `i`.
    pub closed spec fn key_of(&self, i: int) -> SearchKey {
        let w = words_of(distance(self.known@[i].node_id, self.file));
        (w.0, w.1, w.2, w.3, i as usize)
    }

    /// The search state is consistent.
    pub closed spec fn wf(&self) -> bool {
        &&& distinct_ids(self.known@)
        &&& forall|k: SearchKey| #[trigger]
            queued_keys(self.queue).contains(k) ==> {
                &&& k.4 < self.known@.len()
                &&& k == self.key_of(k.4 as int)
                &&& queued_keys(self.queue).count(k) == 1
            }
    }

    /// Whether some known node has identifier `id`.
    fn knows(&self, id: NodeId) -> (r: bool)
        ensures
            r == has_id(self.known@, id),
    {
        let n = self.known.len();
        let mut i: usize = 0;
        while i < n
            invariant
                n == self.known@.len(),
                i <= n,
                forall|k: int| 0 <= k < i ==> self.known@[k].node_id != id,
            decreases n - i,
        {
            if self.known[i].node_id == id {
                assert(self.known@[i as int].node_id == id);
                return true;
            }
            i = i + 1;
        }
        false
    }

    /// Queues the nodes of `nodes` not seen yet.
    fn add_nodes(&mut self, nodes: &Vec<NodeContact>)
        requires
            old(self).wf(),
        ensures
            final(self).wf(),
            final(self).file_spec() == old(self).file_spec(),
            final(self).known_spec() == extend_known(old(self).known_spec(), nodes@),
            final(self).pending() == old(self).pending().union(
                Set::new(
                    |i: int|
                        old(self).known_spec().len() <= i < final(self).known_spec().len(),
                ),
            ),
    {
        let ghost k0 = self.known@;
        let ghost p0 = self.pending();
        let n = nodes.len();
        let mut i: usize = 0;
        assert(nodes@.take(0) =~= Seq::<NodeContact>::empty());
        while i < n
            invariant
                n == nodes@.len(),
                i <= n,
                self.wf(),
                self.file == old(self).file,
                self.known@ == extend_known(k0, nodes@.take(i as int)),
                k0.len() <= self.known@.len(),
                self.pending() == p0.union(
                    Set::new(|j: int| k0.len() <= j < self.known@.len()),
                ),
            decreases n - i,
        {
            let c = nodes[i];
            assert(nodes@.take(i + 1).drop_last() =~= nodes@.take(i as int));
            assert(nodes@.take(i + 1).last() == c);
            if !self.knows(c.node_id) {
                let idx = self.known.len();
                let w = Kademlia::xor_distance(c.node_id, self.file).to_words();
                let key: SearchKey = (w.0, w.1, w.2, w.3, idx);
                let ghost old_keys = queued_keys(self.queue);
                let ghost old_pending = self.pending();
                let ghost old_known = self.known@;
                self.known.push(c);
                heap_push(&mut self.queue, key);
                proof {
                    assert(key == self.key_of(idx as int));
                    assert forall|k: SearchKey| #[trigger]
                        queued_keys(self.queue).contains(k) implies {
                        &&& k.4 < self.known@.len()
                        &&& k == self.key_of(k.4 as int)
                        &&& queued_keys(self.queue).count(k) == 1
                    } by {
                        if k != key {
                            assert(old_keys.contains(k));
                            assert(self.known@[k.4 as int] == old_known[k.4 as int]);
                        } else {
                            if old_keys.contains(k) {
                                assert(k.4 < idx);
                            }
                        }
                    }
                    assert forall|a: int, b: int| 0 <= a < b < self.known@.len() implies #[trigger] self.known@[a].node_id != #[trigger] self.known@[b].node_id by {
                        if b == idx {
                            if self.known@[a].node_id == c.node_id {
                                assert(has_id(self.known@.drop_last(), c.node_id));
                            }
                        }
                    }
                    assert forall|j: int| #[trigger] self.pending().contains(j) <==> old_pending.insert(
                        idx as int,
                    ).contains(j) by {
                        if old_pending.contains(j) {
                            let k = choose|k: SearchKey| old_keys.contains(k) && k.4 == j;
                            assert(queued_keys(self.queue).contains(k));
                        }
                        if j == idx {
                            assert(queued_keys(self.queue).contains(key));
                        }
                        if self.pending().contains(j) {
                            let k = choose|k: SearchKey|
                                queued_keys(self.queue).contains(k) && k.4 == j;
                            if k != key {
                                assert(old_keys.contains(k));
                            }
                        }
                    }
                    assert(self.pending() =~= old_pending.insert(idx as int));
                    assert(self.pending() =~= p0.union(
                        Set::new(|j: int| k0.len() <= j < self.known@.len()),
                    ));
                }
            }
            i = i + 1;
        }
        assert(nodes@.take(n as int) =~= nodes@);
    }
}

impl SeederSearch {
    /// Starts a search for the seeders of `file` from `candidates`, a node
    /// whose identifier occurs again being taken once.
    pub fn new(file: FileId, candidates: &Vec<NodeContact>) -> (r: SeederSearch)
        ensures
            r.wf(),
            r.file_spec() == file,
            r.known_spec() == extend_known(Seq::empty(), candidates@),
            r.pending() == Set::new(|i: int| 0 <= i < r.known_spec().len()),
    {
        let mut r = SeederSearch { file, known: Vec::new(), queue: heap_new() };
        assert(r.pending() =~= Set::<int>::empty()) by {
            assert forall|i: int| !r.pending().contains(i) by {
                if r.pending().contains(i) {
                    let k = choose|k: SearchKey| queued_keys(r.queue).contains(k) && k.4 == i;
                    assert(queued_keys(r.queue).count(k) == 0);
                }
            }
        }
        r.add_nodes(candidates);
        assert(r.pending() =~= Set::new(|i: int| 0 <= i < r.known_spec().len()));
        r
    }

    /// Takes the pending node closest to the file off the queue; `None`
    /// when no node is left to ask.
    pub fn next_node(&mut self) -> (r: Option<NodeContact>)
        requires
            old(self).wf(),
        ensures
            final(self).wf(),
            final(self).file_spec() == old(self).file_spec(),
            final(self).known_spec() == old(self).known_spec(),
            r is None ==> old(self).pending() == Set::<int>::empty() && final(self).pending()
                == old(self).pending(),
            r matches Some(c) ==> exists|i: int|
                {
                    &&& old(self).pending().contains(i)
                    &&& c == old(self).known_spec()[i]
                    &&& forall|j: int| #[trigger]
                        old(self).pending().contains(j) ==> lex_le(
                            distance(c.node_id, old(self).file_spec()),
                            distance(old(self).known_spec()[j].node_id, old(self).file_spec()),
                        )
                    &&& final(self).pending() == old(self).pending().remove(i)
                },
    {
        let ghost old_keys = queued_keys(self.queue);
        let ghost old_pending = self.pending();
        match heap_pop(&mut self.queue) {
            None => {
                assert(old_pending =~= Set::<int>::empty()) by {
                    assert forall|i: int| !old_pending.contains(i) by {
                        if old_pending.contains(i) {
                            let k = choose|k: SearchKey| old_keys.contains(k) && k.4 == i;
                            assert(old_keys.count(k) > 0);
                        }
                    }
                }
                None
            },
            Some(m) => {
                let i = m.4;
                let c = self.known[i];
                proof {
                    let file = self.file;
                    assert(old_pending.contains(i as int));
                    assert forall|j: int| #[trigger] old_pending.contains(j) implies lex_le(
                        distance(c.node_id, file),
                        distance(self.known@[j].node_id, file),
                    ) by {
                        let kj = choose|k: SearchKey| old_keys.contains(k) && k.4 == j;
                        assert(!key_lt(kj, m));
                        let dj = distance(self.known@[j].node_id, file);
                        let di = distance(c.node_id, file);
                        lemma_words_order(di, dj);
                        lemma_words_order(dj, di);
                        if j != i {
                            if words_of(di) == words_of(dj) {
                                crate::kadem::lemma_distance_metric(
                                    c.node_id,
                                    self.known@[j].node_id,
                                    file,
                                );
                                assert(self.known@[i as int].node_id == self.known@[j].node_id);
                                assert(false);
                            }
                        }
                    }
                    assert forall|k: SearchKey| #[trigger]
                        queued_keys(self.queue).contains(k) implies {
                        &&& k.4 < self.known@.len()
                        &&& k == self.key_of(k.4 as int)
                        &&& queued_keys(self.queue).count(k) == 1
                    } by {
                        assert(old_keys.contains(k));
                    }
                    assert forall|j: int| #[trigger] self.pending().contains(j) <==> old_pending.remove(
                        i as int,
                    ).contains(j) by {
                        if self.pending().contains(j) {
                            let k = choose|k: SearchKey|
                                queued_keys(self.queue).contains(k) && k.4 == j;
                            assert(old_keys.contains(k));
                            if j == i {
                                assert(k == m);
                            }
                        }
                        if old_pending.contains(j) && j != i {
                            let k = choose|k: SearchKey| old_keys.contains(k) && k.4 == j;
                            assert(k != m);
                            assert(queued_keys(self.queue).contains(k));
                        }
                    }
                    assert(self.pending() =~= old_pending.remove(i as int));
                }
                Some(c)
            },
        }
    }

    /// Takes in a node's answer to a request for nodes closer to the file:
    /// the nodes it names that were not seen yet are queued; any other
    /// answer changes nothing.
    pub fn on_owners_reply(&mut self, reply: &MessageBody)
        requires
            old(self).wf(),
        ensures
            final(self).wf(),
            final(self).file_spec() == old(self).file_spec(),
            match reply {
                MessageBody::Nodes { nodes } => {
                    &&& final(self).known_spec() == extend_known(old(self).known_spec(), nodes@)
                    &&& final(self).pending() == old(self).pending().union(
                        Set::new(
                            |i: int|
                                old(self).known_spec().len() <= i < final(self).known_spec().len(),
                        ),
                    )
                },
                _ => final(self).known_spec() == old(self).known_spec() && final(self).pending()
                    == old(self).pending(),
            },
    {
        match reply {
            MessageBody::Nodes { nodes } => self.add_nodes(nodes),
            _ => {},
        }
    }

    /// What a node's answer to a request for the seeders of the file means:
    /// a list of nodes names the seeders, the error "does not own the
    /// file" or any other answer sends the search on to ask the node for
    /// closer nodes, and any other error ends the search.
    pub fn seeders_step(reply: MessageBody) -> (r: SeedersStep)
        ensures
            match reply {
                MessageBody::Nodes { nodes } => r == SeedersStep::Found(nodes),
                MessageBody::Error { code } => if code == ERR_DOESNT_OWN_FILE {
                    r == SeedersStep::AskOwners
                } else {
                    r == SeedersStep::Refused(code)
                },
                _ => r == SeedersStep::AskOwners,
            },
    {
        match reply {
            MessageBody::Nodes { nodes } => SeedersStep::Found(nodes),
            MessageBody::Error { code } => if code == ERR_DOESNT_OWN_FILE {
                SeedersStep::AskOwners
            } else {
                SeedersStep::Refused(code)
            },
            _ => SeedersStep::AskOwners,
        }
    }
}

} // verus!
