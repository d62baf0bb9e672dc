//! The tombstones of one transaction: the nodes it has removed.
use crate::elements::{FileSegment, Node};
use crate::errors::DiskStructError;
use crate::wire::{bincode_ranges, deserialize_ranges, ranges_encoding, serialize_ranges};
use std::collections::HashSet;
use vstd::prelude::*;
use vstd::set_lib::lemma_map_size;
use vstd::std_specs::iter::IteratorSpec;

verus! {

broadcast use vstd::std_specs::hash::group_hash_axioms;

/// The node that the byte range `range` stands for.
pub open spec fn node_of_range(range: (u64, u64)) -> Node {
    Node { vector: FileSegment { start: range.0, end: range.1 } }
}

/// The nodes that a list of byte ranges names.
pub open spec fn nodes_of_ranges(ranges: Seq<(u64, u64)>) -> Set<Node> {
    Set::new(|n: Node| ranges.contains((n.vector.start, n.vector.end)))
}

/// The set of nodes that one transaction has removed. Nodes are added to it
/// and never taken out.
pub struct DeleteLog {
    log: HashSet<u128>,
}

impl View for DeleteLog {
    type V = Set<Node>;

    /// The removed nodes.
    closed spec fn view(&self) -> Set<Node> {
        Set::new(|n: Node| self.log@.contains(n.key()))
    }
}

impl DeleteLog {
    /// The tombstones that `bytes` hold, if they hold any list of them.
    pub open spec fn decoded(bytes: Seq<u8>) -> Option<Set<Node>> {
        match bincode_ranges(bytes) {
            None => None,
            Some(ranges) => Some(nodes_of_ranges(ranges)),
        }
    }

    /// A log holds finitely many nodes.
    pub proof fn lemma_finite(&self)
        ensures
            self@.finite(),
    {
        self.lemma_len();
    }

    proof fn lemma_len(&self)
        ensures
            self@.finite(),
            self@.len() == self.log@.len(),
    {
        Node::lemma_key_bijective();
        let keys = self.log.iter().remaining().unref();
        vstd::seq_lib::seq_to_set_is_finite(keys);
        assert(keys.to_set() == self.log@);
        let f = |k: u128| Node::of_key(k);
        assert(self.log@.map(f) =~= self@) by {
            assert forall|n: Node| self@.contains(n) implies self.log@.map(f).contains(n) by {
                assert(self.log@.contains(n.key()));
                assert(f(n.key()) == n);
            }
        }
        lemma_map_size(self.log@, self@, f);
    }

    /// The log of a transaction that has removed nothing.
    pub fn new() -> (log: DeleteLog)
        ensures
            log@ == Set::<Node>::empty(),
    {
        let log = DeleteLog { log: HashSet::new() };
        assert(log@ =~= Set::<Node>::empty());
        log
    }

    /// Records `node` as removed, and says whether it was not yet.
    pub fn insert(&mut self, node: Node) -> (fresh: bool)
        ensures
            final(self)@ == old(self)@.insert(node),
            fresh == !old(self)@.contains(node),
    {
        let k = node.packed();
        let fresh = self.log.insert(k);
        proof {
            Node::lemma_key_bijective();
            assert(self@ =~= old(self)@.insert(node));
        }
        fresh
    }

    /// Whether `node` is recorded as removed.
    pub fn contains(&self, node: Node) -> (r: bool)
        ensures
            r == self@.contains(node),
    {
        let k = node.packed();
        self.log.contains(&k)
    }

    /// The number of removed nodes.
    pub fn len(&self) -> (r: usize)
        ensures
            r == self@.len(),
    {
        proof {
            self.lemma_len();
        }
        self.log.len()
    }

    pub fn is_empty(&self) -> (r: bool)
        ensures
            r == (self@ == Set::<Node>::empty()),
    {
        proof {
            self.lemma_len();
            if self@.len() == 0 {
                assert(self@ =~= Set::<Node>::empty());
            }
        }
        self.log.len() == 0
    }

    /// The byte ranges of the removed nodes, each once, in no particular
    /// order.
    pub fn ranges(&self) -> (ranges: Vec<(u64, u64)>)
        ensures
            ranges@.no_duplicates(),
            nodes_of_ranges(ranges@) == self@,
            ranges@.len() == self@.len(),
    {
        let mut ranges: Vec<(u64, u64)> = Vec::new();
        let ghost all = self.log.iter().remaining();
        proof {
            Node::lemma_key_bijective();
            self.lemma_len();
        }
        for k in it: self.log.iter()
            invariant
                it.seq() == all,
                ranges@.len() == it.index(),
                forall|i: int|
                    0 <= i < ranges@.len() ==> node_of_range(#[trigger] ranges@[i]) == Node::of_key(
                        *all[i],
                    ),
        {
            let n = Node::unpacked(*k);
            ranges.push((n.vector.start, n.vector.end));
        }
        proof {
            assert(all.no_duplicates());
            assert(all.unref().to_set() == self.log@);
            assert forall|i: int, j: int| 0 <= i < ranges@.len() && 0 <= j < ranges@.len() && i
                != j implies ranges@[i] != ranges@[j] by {
                if ranges@[i] == ranges@[j] {
                    assert(node_of_range(ranges@[i]) == node_of_range(ranges@[j]));
                    assert(Node::of_key(*all[i]).key() == Node::of_key(*all[j]).key());
                    assert(all[i] == all[j]);
                }
            }
            assert forall|n: Node| nodes_of_ranges(ranges@).contains(n) <==> self@.contains(n) by {
                if nodes_of_ranges(ranges@).contains(n) {
                    let i = choose|i: int|
                        0 <= i < ranges@.len() && ranges@[i] == (n.vector.start, n.vector.end);
                    assert(node_of_range(ranges@[i]) == n);
                    assert(all.unref()[i] == n.key());
                    assert(all.unref().to_set().contains(all.unref()[i]));
                }
                if self@.contains(n) {
                    assert(all.unref().to_set().contains(n.key()));
                    let i = choose|i: int| 0 <= i < all.unref().len() && all.unref()[i] == n.key();
                    assert(node_of_range(ranges@[i]) == n);
                    assert(ranges@[i] == (n.vector.start, n.vector.end));
                }
            }
            assert(nodes_of_ranges(ranges@) =~= self@);
        }
        ranges
    }

    /// The log that holds the nodes named by `ranges`.
    pub fn from_ranges(ranges: &Vec<(u64, u64)>) -> (log: DeleteLog)
        ensures
            log@ == nodes_of_ranges(ranges@),
    {
        let mut log = DeleteLog::new();
        let n = ranges.len();
        let mut i: usize = 0;
        while i < n
            invariant
                n == ranges@.len(),
                0 <= i <= n,
                log@ == nodes_of_ranges(ranges@.take(i as int)),
            decreases n - i,
        {
            let range = ranges[i];
            let node = Node { vector: FileSegment { start: range.0, end: range.1 } };
            log.insert(node);
            proof {
                let before = ranges@.take(i as int);
                let after = ranges@.take(i + 1);
                assert(after == before.push(ranges@[i as int]));
                assert forall|m: Node| nodes_of_ranges(after).contains(m) <==> nodes_of_ranges(
                    before,
                ).insert(node).contains(m) by {
                    let r = (m.vector.start, m.vector.end);
                    if after.contains(r) {
                        let j = choose|j: int| 0 <= j < after.len() && after[j] == r;
                        if j < i {
                            assert(before[j] == r);
                        }
                    }
                    if before.contains(r) {
                        let j = choose|j: int| 0 <= j < before.len() && before[j] == r;
                        assert(after[j] == r);
                    }
                    if m == node {
                        assert(after[i as int] == r);
                    }
                }
                assert(log@ =~= nodes_of_ranges(after));
            }
            i += 1;
        }
        proof {
            assert(ranges@.take(n as int) == ranges@);
            assert(nodes_of_ranges(ranges@.take(0)) =~= Set::<Node>::empty()) by {
                assert(ranges@.take(0).len() == 0);
            }
        }
        log
    }

    /// The stored form of the log. Every log has one: the bytes are the
    /// fixed-width form of a list that names each removed node once, and
    /// reading them gives the same set of nodes again.
    pub fn to_bytes(&self) -> (r: Result<Vec<u8>, DiskStructError>)
        ensures
            match r {
                Ok(bytes) => DeleteLog::decoded(bytes@) == Some(self@) && exists|
                    ranges: Seq<(u64, u64)>,
                |
                    ranges.no_duplicates() && nodes_of_ranges(ranges) == self@ && bytes@
                        == #[trigger] ranges_encoding(ranges),
                Err(_) => false,
            },
    {
        let ranges = self.ranges();
        match serialize_ranges(&ranges) {
            Ok(bytes) => Ok(bytes),
            Err(_) => Err(DiskStructError::Serialization),
        }
    }

    /// Reads a log from its stored form, and fails with `Serialization`
    /// exactly where the bytes hold none.
    pub fn from_bytes(bytes: &[u8]) -> (r: Result<DeleteLog, DiskStructError>)
        ensures
            match r {
                Ok(log) => DeleteLog::decoded(bytes@) == Some(log@),
                Err(e) => e == DiskStructError::Serialization && DeleteLog::decoded(bytes@) is None,
            },
    {
        match deserialize_ranges(bytes) {
            Ok(ranges) => Ok(DeleteLog::from_ranges(&ranges)),
            Err(_) => Err(DiskStructError::Serialization),
        }
    }
}

} // verus!
