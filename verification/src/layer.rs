//! One level of the graph: for every node it holds, the edges that leave it.
use crate::elements::{Edge, Node};
use std::collections::HashMap;
use vstd::prelude::*;
use vstd::set_lib::lemma_map_size;
use vstd::std_specs::iter::IteratorSpec;

verus! {

broadcast use vstd::std_specs::hash::group_hash_axioms;

/// The edges of one bucket, told apart by the node they lead to.
pub open spec fn adjacency(m: Map<u128, Edge>) -> Map<Node, Edge> {
    Map::new(|t: Node| m.contains_key(t.key()), |t: Node| m[t.key()])
}

/// What `add_node` makes of a layer: a missing node gets an empty bucket, a
/// node that is there keeps the bucket it has.
pub open spec fn with_node(g: Map<Node, Map<Node, Edge>>, node: Node) -> Map<Node, Map<Node, Edge>> {
    if g.contains_key(node) {
        g
    } else {
        g.insert(node, Map::empty())
    }
}

/// What `add_edge` makes of a layer: `edge` stands in the bucket of `node`,
/// under the node it leads to, in place of what stood there.
pub open spec fn with_edge(g: Map<Node, Map<Node, Edge>>, node: Node, edge: Edge) -> Map<
    Node,
    Map<Node, Edge>,
> {
    with_node(g, node).insert(node, with_node(g, node)[node].insert(edge.to, edge))
}

/// Every edge of `g` leads to a node of `g`.
pub open spec fn no_dangling(g: Map<Node, Map<Node, Edge>>) -> bool {
    forall|a: Node, b: Node| #[trigger]
        g.contains_key(a) && #[trigger] g[a].contains_key(b) ==> g.contains_key(b)
}

/// Adding a node that is there changes nothing, and adding a node leaves
/// every bucket that was there as it was.
pub proof fn lemma_with_node_idempotent(g: Map<Node, Map<Node, Edge>>, node: Node)
    ensures
        with_node(with_node(g, node), node) == with_node(g, node),
        g.contains_key(node) ==> with_node(g, node) == g,
        forall|a: Node| #[trigger] g.contains_key(a) ==> with_node(g, node)[a] == g[a],
        with_node(g, node).contains_key(node),
{
}

/// One level of the graph.
pub struct GraphLayer {
    cnx: HashMap<u128, HashMap<u128, Edge>>,
}

impl View for GraphLayer {
    type V = Map<Node, Map<Node, Edge>>;

    /// The layer as a map from each node to its bucket, and from there from
    /// each neighbour to the edge that leads to it.
    closed spec fn view(&self) -> Map<Node, Map<Node, Edge>> {
        Map::new(
            |n: Node| self.cnx@.contains_key(n.key()),
            |n: Node| adjacency(self.cnx@[n.key()]@),
        )
    }
}

impl Clone for GraphLayer {
    fn clone(&self) -> (g: GraphLayer)
        ensures
            g@ == self@,
            self.wf() ==> g.wf(),
    {
        GraphLayer { cnx: self.cnx.clone() }
    }
}

impl Default for GraphLayer {
    fn default() -> (g: GraphLayer)
        ensures
            g.wf(),
            g@ == Map::<Node, Map<Node, Edge>>::empty(),
    {
        GraphLayer::new()
    }
}

impl GraphLayer {
    /// Every edge is filed under the node it leads to.
    pub closed spec fn wf(&self) -> bool {
        forall|k: u128, t: u128| #[trigger]
            self.cnx@.contains_key(k) && #[trigger] self.cnx@[k]@.contains_key(t)
                ==> self.cnx@[k]@[t].to.key() == t
    }

    /// What well-formedness means for the view: the layer and its buckets are
    /// finite, and the key of an edge in a bucket is the edge's target.
    pub proof fn lemma_wf(&self)
        requires
            self.wf(),
        ensures
            self@.dom().finite(),
            forall|a: Node| #[trigger] self@.contains_key(a) ==> self@[a].dom().finite(),
            forall|a: Node, b: Node| #[trigger]
                self@.contains_key(a) && #[trigger] self@[a].contains_key(b) ==> self@[a][b].to
                    == b,
    {
        Node::lemma_key_bijective();
        let f = |k: u128| Node::of_key(k);
        assert(self.cnx@.dom().map(f) =~= self@.dom()) by {
            assert forall|n: Node| self@.dom().contains(n) implies self.cnx@.dom().map(f).contains(
                n,
            ) by {
                assert(self.cnx@.dom().contains(n.key()));
                assert(f(n.key()) == n);
            }
        }
        self.cnx@.dom().lemma_map_finite(f);
        assert forall|a: Node| #[trigger] self@.contains_key(a) implies self@[a].dom().finite() by {
            let m = self.cnx@[a.key()]@;
            assert(m.dom().map(f) =~= adjacency(m).dom()) by {
                assert forall|n: Node| adjacency(m).dom().contains(n) implies m.dom().map(
                    f,
                ).contains(n) by {
                    assert(m.dom().contains(n.key()));
                    assert(f(n.key()) == n);
                }
            }
            m.dom().lemma_map_finite(f);
        }
    }

    pub fn new() -> (g: GraphLayer)
        ensures
            g.wf(),
            g@ == Map::<Node, Map<Node, Edge>>::empty(),
    {
        let g = GraphLayer { cnx: HashMap::new() };
        assert(g@ =~= Map::<Node, Map<Node, Edge>>::empty());
        g
    }

    pub fn has_node(&self, node: Node) -> (r: bool)
        ensures
            r == self@.contains_key(node),
    {
        let k = node.packed();
        self.cnx.contains_key(&k)
    }

    /// Makes `node` a node of the layer. A node that is there already keeps
    /// its edges.
    pub fn add_node(&mut self, node: Node)
        requires
            old(self).wf(),
        ensures
            final(self).wf(),
            final(self)@ == with_node(old(self)@, node),
            no_dangling(old(self)@) ==> no_dangling(final(self)@),
    {
        let k = node.packed();
        if !self.cnx.contains_key(&k) {
            self.cnx.insert(k, HashMap::new());
        }
        proof {
            Node::lemma_key_bijective();
            assert(self@ =~~= with_node(old(self)@, node));
        }
    }

    /// Files `edge` in the bucket of `node`, under the node it leads to, and
    /// makes `node` a node of the layer if it was none. The target of the edge
    /// is not made a node, and no edge back is added.
    pub fn add_edge(&mut self, node: Node, edge: Edge)
        requires
            old(self).wf(),
        ensures
            final(self).wf(),
            final(self)@ == with_edge(old(self)@, node, edge),
            no_dangling(old(self)@) && (old(self)@.contains_key(edge.to) || edge.to == node)
                ==> no_dangling(final(self)@),
    {
        let k = node.packed();
        let t = edge.to.packed();
        let mut edges = match self.cnx.remove(&k) {
            Some(e) => e,
            None => HashMap::new(),
        };
        edges.insert(t, edge);
        self.cnx.insert(k, edges);
        proof {
            Node::lemma_key_bijective();
            assert(self@ =~~= with_edge(old(self)@, node, edge));
        }
    }

    /// Joins `a` and `b` in both directions: files the edge from `a` to `b`
    /// and the edge from `b` to `a`, both with distance `dist`, and makes
    /// both nodes of the layer.
    pub fn add_undirected_edge(&mut self, a: Node, b: Node, dist: u32)
        requires
            old(self).wf(),
        ensures
            final(self).wf(),
            final(self)@ == with_edge(
                with_edge(old(self)@, a, Edge { from: a, to: b, dist }),
                b,
                Edge { from: b, to: a, dist },
            ),
            final(self)@.contains_key(a) && final(self)@.contains_key(b),
            final(self)@[a].contains_key(b) && final(self)@[b].contains_key(a),
            no_dangling(old(self)@) ==> no_dangling(final(self)@),
    {
        self.add_edge(a, Edge { from: a, to: b, dist });
        proof {
            let g1 = self@;
            assert(g1.contains_key(a) && g1[a].contains_key(b));
            if no_dangling(old(self)@) {
                assert forall|x: Node, y: Node| #[trigger]
                    g1.contains_key(x) && #[trigger] g1[x].contains_key(y) && y != b implies g1.contains_key(
                    y,
                ) by {
                    if x != a {
                        assert(old(self)@.contains_key(x) && old(self)@[x].contains_key(y));
                    } else if old(self)@.contains_key(a) {
                        assert(old(self)@[a].contains_key(y));
                    }
                }
            }
        }
        let ghost g1 = self@;
        self.add_edge(b, Edge { from: b, to: a, dist });
        proof {
            let g2 = self@;
            if no_dangling(old(self)@) {
                assert forall|x: Node, y: Node| #[trigger]
                    g2.contains_key(x) && #[trigger] g2[x].contains_key(y) implies g2.contains_key(
                    y,
                ) by {
                    if x == b {
                        if y != a && g1.contains_key(b) {
                            assert(g1[b].contains_key(y));
                        }
                    } else {
                        assert(g1.contains_key(x) && g1[x].contains_key(y));
                    }
                }
            }
        }
    }

    /// Takes `node` and the edges that leave it out of the layer. Edges that
    /// lead to `node` from other nodes stay where they are.
    pub fn remove_node(&mut self, node: Node)
        requires
            old(self).wf(),
        ensures
            final(self).wf(),
            final(self)@ == old(self)@.remove(node),
            no_dangling(old(self)@) && (forall|a: Node| #[trigger]
                old(self)@.contains_key(a) && a != node ==> !old(self)@[a].contains_key(node))
                ==> no_dangling(final(self)@),
    {
        let k = node.packed();
        self.cnx.remove(&k);
        proof {
            Node::lemma_key_bijective();
            assert(self@ =~~= old(self)@.remove(node));
        }
    }

    /// Takes the edge that leads from `from` to `to` out of the layer.
    pub fn remove_edge(&mut self, from: Node, to: Node)
        requires
            old(self).wf(),
            old(self)@.contains_key(from),
        ensures
            final(self).wf(),
            final(self)@ == old(self)@.insert(from, old(self)@[from].remove(to)),
            no_dangling(old(self)@) ==> no_dangling(final(self)@),
    {
        let k = from.packed();
        let t = to.packed();
        let taken = self.cnx.remove(&k);
        let mut edges = taken.unwrap();
        edges.remove(&t);
        self.cnx.insert(k, edges);
        proof {
            Node::lemma_key_bijective();
            assert(self@ =~~= old(self)@.insert(from, old(self)@[from].remove(to)));
        }
    }

    /// The number of edges that leave `node`; none for a node that the layer
    /// does not hold.
    pub fn no_edges(&self, node: Node) -> (r: usize)
        requires
            self.wf(),
        ensures
            r == (if self@.contains_key(node) {
                self@[node].len()
            } else {
                0
            }),
    {
        let k = node.packed();
        match self.cnx.get(&k) {
            Some(edges) => {
                proof {
                    lemma_adjacency_len(edges@);
                }
                edges.len()
            },
            None => 0,
        }
    }

    /// The number of nodes in the layer.
    pub fn no_nodes(&self) -> (r: usize)
        requires
            self.wf(),
        ensures
            r == self@.len(),
    {
        proof {
            self.lemma_len();
        }
        self.cnx.len()
    }

    pub fn is_empty(&self) -> (r: bool)
        requires
            self.wf(),
        ensures
            r == (self@.len() == 0),
            r == (self@ == Map::<Node, Map<Node, Edge>>::empty()),
    {
        proof {
            self.lemma_len();
            self.lemma_wf();
            if self@.len() == 0 {
                assert(self@ =~= Map::<Node, Map<Node, Edge>>::empty());
            }
        }
        self.cnx.len() == 0
    }

    /// The edge that leads from `from` to `to`.
    pub fn index(&self, from: Node, to: Node) -> (e: &Edge)
        requires
            self.wf(),
            self@.contains_key(from),
            self@[from].contains_key(to),
        ensures
            *e == self@[from][to],
    {
        let k = from.packed();
        let t = to.packed();
        let edges = self.cnx.get(&k).unwrap();
        edges.get(&t).unwrap()
    }

    /// Takes every edge that leaves `from` out of the layer and hands them
    /// over. `from` stays a node of the layer, with no edge.
    pub fn full_disconnexion(&mut self, from: Node) -> (taken: Connexions)
        requires
            old(self).wf(),
            old(self)@.contains_key(from),
        ensures
            final(self).wf(),
            taken.wf(),
            taken@ == old(self)@[from],
            final(self)@ == old(self)@.insert(from, Map::empty()),
            no_dangling(old(self)@) ==> no_dangling(final(self)@),
    {
        let k = from.packed();
        let edges = self.cnx.remove(&k).unwrap();
        self.cnx.insert(k, HashMap::new());
        proof {
            Node::lemma_key_bijective();
            assert(self@ =~~= old(self)@.insert(from, Map::empty()));
        }
        Connexions(edges)
    }

    /// The edges that leave `from`, each once, in no particular order.
    pub fn get_edges(&self, from: Node) -> (edges: Vec<Edge>)
        requires
            self.wf(),
            self@.contains_key(from),
        ensures
            lists_bucket(edges@, self@[from]),
    {
        let k = from.packed();
        let bucket = self.cnx.get(&k).unwrap();
        edges_of(bucket)
    }

    /// The nodes of the layer, each once, in no particular order.
    pub fn nodes(&self) -> (nodes: Vec<Node>)
        requires
            self.wf(),
        ensures
            nodes@.no_duplicates(),
            nodes@.len() == self@.len(),
            forall|n: Node| nodes@.contains(n) <==> self@.contains_key(n),
    {
        let mut nodes: Vec<Node> = Vec::new();
        let ghost all = self.cnx.keys().remaining();
        proof {
            Node::lemma_key_bijective();
            self.lemma_len();
        }
        for k in it: self.cnx.keys()
            invariant
                it.seq() == all,
                nodes@.len() == it.index(),
                forall|i: int| 0 <= i < nodes@.len() ==> #[trigger] nodes@[i] == Node::of_key(*all[i]),
        {
            nodes.push(Node::unpacked(*k));
        }
        proof {
            assert(all.no_duplicates());
            assert(all.unref().to_set() == self.cnx@.dom());
            assert forall|i: int, j: int|
                0 <= i < nodes@.len() && 0 <= j < nodes@.len() && i != j implies nodes@[i]
                != nodes@[j] by {
                if nodes@[i] == nodes@[j] {
                    assert(Node::of_key(*all[i]).key() == Node::of_key(*all[j]).key());
                    assert(all[i] == all[j]);
                }
            }
            assert forall|n: Node| nodes@.contains(n) <==> self@.contains_key(n) by {
                if nodes@.contains(n) {
                    let i = choose|i: int| 0 <= i < nodes@.len() && nodes@[i] == n;
                    assert(all.unref()[i] == n.key());
                    assert(all.unref().to_set().contains(all.unref()[i]));
                }
                if self@.contains_key(n) {
                    assert(all.unref().to_set().contains(n.key()));
                    let i = choose|i: int| 0 <= i < all.unref().len() && all.unref()[i] == n.key();
                    assert(nodes@[i] == n);
                }
            }
        }
        nodes
    }

    /// Some node of the layer, if it has one.
    pub fn some_node(&self) -> (r: Option<Node>)
        requires
            self.wf(),
        ensures
            r is None <==> self@.len() == 0,
            r matches Some(n) ==> self@.contains_key(n),
    {
        proof {
            self.lemma_len();
        }
        let ghost all = self.cnx.keys().remaining();
        for k in it: self.cnx.keys()
            invariant
                it.seq() == all,
                it.index() == 0,
                self@.len() == self.cnx@.len(),
        {
            proof {
                assert(all.unref().to_set().contains(all.unref()[0]));
                assert(self.cnx@.dom().contains(*k));
                vstd::set::axiom_set_contains_len(self.cnx@.dom(), *k);
            }
            return Some(Node::unpacked(*k));
        }
        None
    }

    proof fn lemma_len(&self)
        ensures
            self@.len() == self.cnx@.len(),
    {
        Node::lemma_key_bijective();
        let f = |k: u128| Node::of_key(k);
        assert(self.cnx@.dom().map(f) =~= self@.dom()) by {
            assert forall|n: Node| self@.dom().contains(n) implies self.cnx@.dom().map(f).contains(
                n,
            ) by {
                assert(self.cnx@.dom().contains(n.key()));
                assert(f(n.key()) == n);
            }
        }
        lemma_map_size(self.cnx@.dom(), self@.dom(), f);
    }
}

/// A bucket has as many edges under nodes as it has under their numbers.
proof fn lemma_adjacency_len(m: Map<u128, Edge>)
    requires
        m.dom().finite(),
    ensures
        adjacency(m).len() == m.len(),
        adjacency(m).dom().finite(),
{
    Node::lemma_key_bijective();
    let f = |k: u128| Node::of_key(k);
    assert(m.dom().map(f) =~= adjacency(m).dom()) by {
        assert forall|n: Node| adjacency(m).dom().contains(n) implies m.dom().map(f).contains(
            n,
        ) by {
            assert(m.dom().contains(n.key()));
            assert(f(n.key()) == n);
        }
    }
    lemma_map_size(m.dom(), adjacency(m).dom(), f);
}

/// `edges` lists the edges of `bucket`, each once.
pub open spec fn lists_bucket(edges: Seq<Edge>, bucket: Map<Node, Edge>) -> bool {
    &&& edges.len() == bucket.len()
    &&& forall|i: int|
        0 <= i < edges.len() ==> bucket.contains_key(#[trigger] edges[i].to) && bucket[edges[i].to]
            == edges[i]
    &&& forall|i: int, j: int|
        0 <= i < j < edges.len() ==> (#[trigger] edges[i]).to != (#[trigger] edges[j]).to
    &&& forall|t: Node| #[trigger]
        bucket.contains_key(t) ==> exists|i: int| 0 <= i < edges.len() && edges[i] == bucket[t]
}

/// The edges of one bucket as a vector.
fn edges_of(bucket: &HashMap<u128, Edge>) -> (edges: Vec<Edge>)
    requires
        forall|t: u128| #[trigger] bucket@.contains_key(t) ==> bucket@[t].to.key() == t,
    ensures
        lists_bucket(edges@, adjacency(bucket@)),
{
    let mut edges: Vec<Edge> = Vec::new();
    proof {
        Node::lemma_key_bijective();
        lemma_adjacency_len(bucket@);
    }
    let ghost all = bucket.iter().remaining();
    for pair in it: bucket.iter()
        invariant
            it.seq() == all,
            edges@.len() == it.index(),
            forall|i: int| 0 <= i < edges@.len() ==> #[trigger] edges@[i] == *all[i].1,
    {
        edges.push(*pair.1);
    }
    proof {
        let bk = adjacency(bucket@);
        assert(all.len() == bucket@.len());
        assert(all.no_duplicates());
        assert forall|i: int, j: int| 0 <= i < j < edges@.len() implies (#[trigger] edges@[i]).to
            != (#[trigger] edges@[j]).to by {
            assert(bucket@.contains_key(*all[i].0));
            assert(bucket@.contains_key(*all[j].0));
            if edges@[i].to == edges@[j].to {
                assert(*all[i].0 == *all[j].0);
                assert(all[i] == all[j]);
            }
        }
        assert forall|i: int| 0 <= i < edges@.len() implies bk.contains_key(
            #[trigger] edges@[i].to,
        ) && bk[edges@[i].to] == edges@[i] by {
            assert(bucket@.contains_key(*all[i].0));
        }
        assert forall|t: Node| #[trigger] bk.contains_key(t) implies exists|i: int|
            0 <= i < edges@.len() && edges@[i] == bk[t] by {
            let k = t.key();
            assert(bucket@.contains_key(k));
            assert(all.contains((&k, &bucket@[k])));
            let i = choose|i: int| 0 <= i < all.len() && all[i] == (&k, &bucket@[k]);
            assert(edges@[i] == bk[t]);
        }
    }
    edges
}

/// The edges that left one node when it was disconnected, to be looked at
/// once.
pub struct Connexions(HashMap<u128, Edge>);

impl View for Connexions {
    type V = Map<Node, Edge>;

    /// The edges, each under the node it leads to.
    closed spec fn view(&self) -> Map<Node, Edge> {
        adjacency(self.0@)
    }
}

impl Connexions {
    /// Every edge is filed under the node it leads to.
    pub closed spec fn wf(&self) -> bool {
        forall|t: u128| #[trigger] self.0@.contains_key(t) ==> self.0@[t].to.key() == t
    }

    /// The edges, each once, in no particular order.
    pub fn into_iter(self) -> (edges: Vec<Edge>)
        requires
            self.wf(),
        ensures
            lists_bucket(edges@, self@),
    {
        edges_of(&self.0)
    }
}

} // verus!
