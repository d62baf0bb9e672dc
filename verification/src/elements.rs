//! The plain values the graph is made of: handles, nodes, edges and the
//! entry point.
use vstd::prelude::*;
use vstd::std_specs::convert::FromSpecImpl;

verus! {

/// The directory, below an index's base directory, that holds the vector data.
pub const VECTORS_DIR: &'static str = "vectors";

/// The fields of the graph log, in the order in which they are stored.
#[derive(Clone, Copy, Debug, PartialEq, Eq, Structural)]
pub enum LogField {
    VersionNumber,
    EntryPoint,
    NoLayers,
}

/// The byte range `[start, end)` of one vector inside a vector-data file.
///
/// This is the stable handle of a vector: two handles are the same handle
/// exactly when both bounds agree.
#[derive(Clone, Copy, Debug, PartialEq, Eq, PartialOrd, Ord, Hash, Structural)]
pub struct FileSegment {
    pub start: u64,
    pub end: u64,
}

/// The identity of a stored vector inside the graph: its handle and nothing else.
#[derive(Clone, Copy, Debug, PartialEq, Eq, PartialOrd, Ord, Hash, Structural)]
pub struct Node {
    pub vector: FileSegment,
}

/// A directed relation `from -> to` with the distance measured when it was made.
///
/// `dist` holds the bit pattern of a non-negative single-precision number. On
/// such numbers the order of the patterns is the order of the numbers, so
/// distances are compared as integers.
#[derive(Clone, Copy, Debug, PartialEq, Eq, Structural)]
pub struct Edge {
    pub from: Node,
    pub to: Node,
    pub dist: u32,
}

/// The node at which a search starts, with the highest layer that holds it.
#[derive(Clone, Copy, Debug, PartialEq, Eq, PartialOrd, Ord, Structural)]
pub struct EntryPoint {
    pub node: Node,
    pub layer: u64,
}

impl From<(Node, usize)> for EntryPoint {
    fn from(pair: (Node, usize)) -> (r: EntryPoint) {
        EntryPoint { node: pair.0, layer: pair.1 as u64 }
    }
}

impl FromSpecImpl<(Node, usize)> for EntryPoint {
    open spec fn obeys_from_spec() -> bool {
        true
    }

    open spec fn from_spec(pair: (Node, usize)) -> EntryPoint {
        EntryPoint { node: pair.0, layer: pair.1 as u64 }
    }
}

impl Node {
    /// The node as one number: the start of its range in the high half, the
    /// end in the low half. Different nodes have different numbers.
    pub open spec fn key(self) -> u128 {
        (self.vector.start as u128 * 0x1_0000_0000_0000_0000u128 + self.vector.end as u128) as u128
    }

    /// The node whose number is `k`.
    pub open spec fn of_key(k: u128) -> Node {
        Node {
            vector: FileSegment {
                start: (k / 0x1_0000_0000_0000_0000u128) as u64,
                end: (k % 0x1_0000_0000_0000_0000u128) as u64,
            },
        }
    }

    /// `key` and `of_key` are inverse to each other.
    pub proof fn lemma_key_bijective()
        ensures
            forall|n: Node| #[trigger] Node::of_key(n.key()) == n,
            forall|k: u128| #[trigger] Node::of_key(k).key() == k,
            forall|a: Node, b: Node| #[trigger] a.key() == #[trigger] b.key() ==> a == b,
    {
        assert forall|a: Node, b: Node| #[trigger] a.key() == #[trigger] b.key() implies a == b by {
            assert(Node::of_key(a.key()) == a);
            assert(Node::of_key(b.key()) == b);
        }
    }

    pub fn packed(&self) -> (k: u128)
        ensures
            k == self.key(),
    {
        (self.vector.start as u128) * 0x1_0000_0000_0000_0000u128 + (self.vector.end as u128)
    }

    pub fn unpacked(k: u128) -> (n: Node)
        ensures
            n == Node::of_key(k),
            n.key() == k,
    {
        Node {
            vector: FileSegment {
                start: (k / 0x1_0000_0000_0000_0000u128) as u64,
                end: (k % 0x1_0000_0000_0000_0000u128) as u64,
            },
        }
    }
}

} // verus!
