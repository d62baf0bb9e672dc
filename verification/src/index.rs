//! The layered graph: a stack of layers, the log that says where a search
//! starts, and the three operations on them.
use crate::audit::{is_knit, is_nested, is_tidy};
use crate::delete_log::DeleteLog;
use crate::elements::{Edge, EntryPoint, Node};
use crate::graph_log::GraphLog;
use crate::hnsw_params::{ef_construction, m, m_max};
use crate::layer::GraphLayer;
use crate::linking::{connect, knit, lemma_linked_knit, linked, tidy, LayerMap};
use crate::traversal::{
    among, ascending, beam, covers, distinct_nodes, greedy, measured, ranked, reachable, settled,
    tombstoned, total, walk,
};
use vstd::prelude::*;

verus! {

/// What an index holds: its layers, the bottom one first, and its log.
pub struct IndexView {
    pub layers: Seq<LayerMap>,
    pub log: GraphLog,
}

/// The views of a stack of layers, the bottom one first.
pub open spec fn views(layers: Seq<GraphLayer>) -> Seq<LayerMap> {
    Seq::new(layers.len(), |i: int| layers[i]@)
}

/// Every layer is tidy, a small layer is knit, and every node of a layer is
/// a node of the layer below.
pub open spec fn stacked(layers: Seq<LayerMap>) -> bool {
    &&& forall|i: int|
        0 <= i < layers.len() ==> tidy(#[trigger] layers[i], m_max() as nat) && knit(
            layers[i],
            m_max() as nat,
        )
    &&& forall|i: int, n: Node|
        0 < i < layers.len() && #[trigger] layers[i].contains_key(n) ==> layers[i - 1].contains_key(
            n,
        )
}

/// The shape that every index has.
///
/// An index without an entry point has no layer. Otherwise it has the layers
/// `0..=max_layer`, the entry point is a node of the highest one, and every
/// node of a layer is a node of the layer below. In every layer each edge
/// leads to a node of that layer, and no node has more than `m_max` edges.
/// In a layer of no more than `m_max + 1` nodes a walk leads from every node
/// to every node.
pub open spec fn well_shaped(v: IndexView) -> bool {
    &&& match v.log.entry_point {
        None => v.layers.len() == 0 && v.log.max_layer == 0,
        Some(ep) => v.layers.len() == v.log.max_layer + 1 && ep.layer == v.log.max_layer
            && v.layers[v.log.max_layer as int].contains_key(ep.node),
    }
    &&& stacked(v.layers)
}

/// A layer that holds `node` and nothing else.
pub open spec fn lone(node: Node) -> LayerMap {
    Map::<Node, Map<Node, Edge>>::empty().insert(node, Map::empty())
}

/// `b` is a node of `g` that every search in `g` can get to: `g` has no
/// more than `m_max + 1` nodes, or a walk leads to `b` from every node.
pub open spec fn within_reach(g: LayerMap, b: Node) -> bool {
    g.contains_key(b) && (g.len() <= m_max() + 1 || forall|s: Node| #[trigger]
        g.contains_key(s) ==> reachable(g, s, b))
}

/// `p` is what a search for neighbours may find in `g`: nodes of `g`, at
/// least one and no more than the search is broad, no node twice, each with
/// a distance that `dist` gives for it, the nearest first. The list is
/// settled, and where `g` has fewer nodes than the search is broad, every
/// node within reach is in it.
pub open spec fn fits<F: Fn(Node) -> u32>(p: Seq<(Node, u32)>, g: LayerMap, dist: &F) -> bool {
    &&& 1 <= p.len() <= ef_construction()
    &&& ascending(p)
    &&& distinct_nodes(p)
    &&& forall|i: int|
        0 <= i < p.len() ==> g.contains_key((#[trigger] p[i]).0) && measured(dist, p[i].0, p[i].1)
    &&& settled(g, p, ef_construction() as nat, dist, Seq::<DeleteLog>::empty())
    &&& g.len() < ef_construction() ==> forall|b: Node| within_reach(g, b) ==> #[trigger] among(p, b)
}

/// The first `m` entries of `p`, or all of them where they are fewer.
pub open spec fn chosen(p: Seq<(Node, u32)>) -> Seq<(Node, u32)> {
    p.take(if p.len() < m() { p.len() as int } else { m() as int })
}

/// `after` is `before` with `node` taken in and tied to the nearest nodes
/// that a search for neighbours found: to the first `m` of its list, each at
/// the distance listed.
pub open spec fn joined<F: Fn(Node) -> u32>(
    before: LayerMap,
    after: LayerMap,
    node: Node,
    dist: &F,
) -> bool {
    exists|p: Seq<(Node, u32)>|
        fits(p, before, dist) && #[trigger] linked(before, after, node, chosen(p), m_max() as nat)
}

/// What `insert` makes of an index that does not hold `node` yet.
///
/// The version rises by one. The first node of an index makes the one layer
/// it has and is its entry point at layer 0, whatever `layer` says. Any
/// other node joins the layers up to `layer`, or up to the highest one where
/// `layer` lies above; layers above `layer` stay as they are. Where `layer`
/// lies above the highest layer, the layers up to it are made with `node`
/// alone in them, `node` becomes the entry point, and the highest layer is
/// `layer`.
pub open spec fn inserted<F: Fn(Node) -> u32>(
    before: IndexView,
    after: IndexView,
    node: Node,
    layer: nat,
    dist: &F,
) -> bool {
    &&& after.log.version_number == before.log.version_number + 1
    &&& if before.layers.len() == 0 {
        &&& after.layers == seq![lone(node)]
        &&& after.log.max_layer == 0
        &&& after.log.entry_point == Some(EntryPoint { node, layer: 0 })
    } else {
        let top = (before.layers.len() - 1) as nat;
        let low = if layer < top { layer } else { top };
        let high = if layer < top { top } else { layer };
        &&& after.layers.len() == high + 1
        &&& after.log.max_layer == high
        &&& after.log.entry_point == (if layer > top {
            Some(EntryPoint { node, layer: layer as u64 })
        } else {
            before.log.entry_point
        })
        &&& forall|i: int|
            0 <= i <= low ==> joined(before.layers[i], #[trigger] after.layers[i], node, dist)
        &&& forall|i: int| low < i <= top ==> #[trigger] after.layers[i] == before.layers[i]
        &&& forall|i: int| top < i <= layer ==> #[trigger] after.layers[i] == lone(node)
    }
}

/// What a search may hand back: at most `k` nodes of the bottom layer, none
/// of them marked as removed, no node twice, each with a distance that
/// `dist` gives for it, the nearest first.
pub open spec fn answers<F: Fn(Node) -> u32>(
    v: IndexView,
    dist: &F,
    k: nat,
    visible: Seq<DeleteLog>,
    r: Seq<(Node, u32)>,
) -> bool {
    &&& r.len() <= k
    &&& v.layers.len() == 0 ==> r.len() == 0
    &&& ascending(r)
    &&& distinct_nodes(r)
    &&& forall|i: int|
        0 <= i < r.len() ==> v.layers[0].contains_key((#[trigger] r[i]).0) && !tombstoned(
            visible,
            r[i].0,
        ) && measured(dist, r[i].0, r[i].1)
}

/// Where the list of a search is broader than the bottom layer has nodes,
/// the answer `r` gives its due to every node of the bottom layer that is
/// not marked as removed and can be reached from every node of that layer.
/// In a bottom layer of no more than `m_max + 1` nodes that is every node
/// that is not marked as removed.
pub open spec fn thorough<F: Fn(Node) -> u32>(
    v: IndexView,
    dist: &F,
    k: nat,
    width: nat,
    visible: Seq<DeleteLog>,
    r: Seq<(Node, u32)>,
) -> bool {
    v.layers.len() > 0 && width > v.layers[0].len() ==> forall|n: Node|
        within_reach(v.layers[0], n) && !tombstoned(visible, n) ==> #[trigger] ranked(
            r,
            n,
            k,
            dist,
        )
}

/// The layered graph.
pub struct Index {
    layers: Vec<GraphLayer>,
    log: GraphLog,
}

impl View for Index {
    type V = IndexView;

    closed spec fn view(&self) -> IndexView {
        IndexView { layers: views(self.layers@), log: self.log }
    }
}

impl Index {
    /// The index is in the shape that every index has.
    pub closed spec fn wf(&self) -> bool {
        &&& forall|i: int| 0 <= i < self.layers@.len() ==> (#[trigger] self.layers@[i]).wf()
        &&& well_shaped(self@)
    }

    /// What well-formedness gives a reader of the view.
    pub proof fn lemma_wf(&self)
        requires
            self.wf(),
        ensures
            well_shaped(self@),
    {
    }

    /// An index that holds nothing.
    pub fn new() -> (index: Index)
        ensures
            index.wf(),
            index@.layers.len() == 0,
            index@.log == (GraphLog { version_number: 0, max_layer: 0, entry_point: None }),
    {
        Index { layers: Vec::new(), log: GraphLog::new() }
    }

    /// Puts an index together from its layers, the bottom one first, and
    /// its log, as they may have been read back from disk. There is an index
    /// exactly where the parts have the shape that every index has.
    pub fn from_parts(layers: Vec<GraphLayer>, log: GraphLog) -> (r: Option<Index>)
        requires
            forall|i: int| 0 <= i < layers@.len() ==> (#[trigger] layers@[i]).wf(),
        ensures
            r is Some <==> well_shaped(IndexView { layers: views(layers@), log }),
            r matches Some(index) ==> index.wf() && index@ == (IndexView {
                layers: views(layers@),
                log,
            }),
    {
        let n = layers.len();
        let ghost v = IndexView { layers: views(layers@), log };
        match log.entry_point {
            None => {
                if n != 0 || log.max_layer != 0 {
                    return None;
                }
            },
            Some(ep) => {
                if n == 0 || (n - 1) as u64 != log.max_layer || ep.layer != log.max_layer {
                    return None;
                }
                if !layers[n - 1].has_node(ep.node) {
                    return None;
                }
            },
        }
        let mut i: usize = 0;
        while i < n
            invariant
                n == layers@.len(),
                0 <= i <= n,
                v == (IndexView { layers: views(layers@), log }),
                forall|j: int| 0 <= j < layers@.len() ==> (#[trigger] layers@[j]).wf(),
                forall|j: int|
                    0 <= j < i ==> tidy(#[trigger] v.layers[j], m_max() as nat) && knit(
                        v.layers[j],
                        m_max() as nat,
                    ),
                forall|j: int, x: Node|
                    0 < j < i && #[trigger] v.layers[j].contains_key(x) ==> v.layers[j
                        - 1].contains_key(x),
            decreases n - i,
        {
            if !is_tidy(&layers[i], m_max()) {
                proof {
                    assert(!tidy(v.layers[i as int], m_max() as nat));
                }
                return None;
            }
            if !is_knit(&layers[i], m_max()) {
                proof {
                    assert(!knit(v.layers[i as int], m_max() as nat));
                }
                return None;
            }
            if i > 0 && !is_nested(&layers[i - 1], &layers[i]) {
                proof {
                    let x = choose|x: Node|
                        (#[trigger] layers@[i as int]@.contains_key(x)) && !layers@[i
                            - 1]@.contains_key(x);
                    assert(v.layers[i as int].contains_key(x));
                    assert(!v.layers[i - 1].contains_key(x));
                }
                return None;
            }
            i += 1;
        }
        Some(Index { layers, log })
    }

    /// Takes the index apart into its layers, the bottom one first, and its
    /// log.
    pub fn into_parts(self) -> (parts: (Vec<GraphLayer>, GraphLog))
        requires
            self.wf(),
        ensures
            views(parts.0@) == self@.layers,
            parts.1 == self@.log,
            forall|i: int| 0 <= i < parts.0@.len() ==> (#[trigger] parts.0@[i]).wf(),
    {
        (self.layers, self.log)
    }

    /// The log as it stands.
    pub fn graph_log(&self) -> (log: GraphLog)
        ensures
            log == self@.log,
    {
        self.log
    }

    /// The version of the index; every change of the index raises it.
    pub fn current_version(&self) -> (v: u128)
        ensures
            v == self@.log.version_number,
    {
        self.log.version_number
    }

    /// The number of layers.
    pub fn no_layers(&self) -> (n: usize)
        ensures
            n == self@.layers.len(),
    {
        self.layers.len()
    }

    /// The layer `i`, counted from the bottom.
    pub fn layer(&self, i: usize) -> (g: &GraphLayer)
        requires
            self.wf(),
            i < self@.layers.len(),
        ensures
            g.wf(),
            g@ == self@.layers[i as int],
    {
        &self.layers[i]
    }

    /// Whether `node` is a node of the index, that is, of its bottom layer.
    pub fn contains(&self, node: Node) -> (r: bool)
        requires
            self.wf(),
        ensures
            r == (self@.layers.len() > 0 && self@.layers[0].contains_key(node)),
    {
        if self.layers.len() == 0 {
            false
        } else {
            self.layers[0].has_node(node)
        }
    }
}

impl Index {
    /// Searches the index for the nodes nearest to a query, with the breadth
    /// that is used while the graph is built.
    ///
    /// `dist` gives the distance from the query to a node. `visible` are the
    /// delete logs that the searching transaction sees.
    pub fn search<F: Fn(Node) -> u32>(&self, dist: &F, k: usize, visible: &[DeleteLog]) -> (r: Vec<
        (Node, u32),
    >)
        requires
            self.wf(),
            total(dist),
        ensures
            answers(self@, dist, k as nat, visible@, r@),
            k >= 1 && self@.layers.len() > 0 && (forall|n: Node| #[trigger]
                self@.layers[0].contains_key(n) ==> !tombstoned(visible@, n)) ==> r@.len() >= 1
                && exists|d: u32| #[trigger]
                measured(dist, self@.log.entry_point->0.node, d) && r@[0].1 <= d,
            thorough(
                self@,
                dist,
                k as nat,
                (if ef_construction() < k { k } else { ef_construction() }) as nat,
                visible@,
                r@,
            ),
            self@.layers.len() > 0 ==> settled(self@.layers[0], r@, k as nat, dist, visible@),
    {
        self.search_with(dist, k, ef_construction(), visible)
    }

    /// Searches the index for the nodes nearest to a query.
    ///
    /// The search starts at the entry point, walks in every layer above the
    /// bottom one to a node that has no nearer neighbour, and goes on from
    /// that node one layer down. In the bottom layer it keeps a list of the
    /// nearest nodes met, as broad as the larger of `ef` and `k`, and hands
    /// back the `k` nearest of them. An index that holds nothing gives an
    /// empty answer.
    ///
    /// The search is approximate. What it owes is this: the answer is
    /// settled, so that no node in it has a neighbour that should have stood
    /// in its place; it is not empty where nothing is marked as removed, and
    /// then begins no farther than the entry point; and in a bottom layer of
    /// fewer nodes than the list is broad it is the exact answer among the
    /// nodes within reach.
    #[verifier::rlimit(40)]
    pub fn search_with<F: Fn(Node) -> u32>(
        &self,
        dist: &F,
        k: usize,
        ef: usize,
        visible: &[DeleteLog],
    ) -> (r: Vec<(Node, u32)>)
        requires
            self.wf(),
            total(dist),
        ensures
            answers(self@, dist, k as nat, visible@, r@),
            k >= 1 && self@.layers.len() > 0 && (forall|n: Node| #[trigger]
                self@.layers[0].contains_key(n) ==> !tombstoned(visible@, n)) ==> r@.len() >= 1
                && exists|d: u32| #[trigger]
                measured(dist, self@.log.entry_point->0.node, d) && r@[0].1 <= d,
            thorough(self@, dist, k as nat, (if ef < k { k } else { ef }) as nat, visible@, r@),
            self@.layers.len() > 0 ==> settled(self@.layers[0], r@, k as nat, dist, visible@),
    {
        match self.log.entry_point {
            None => Vec::new(),
            Some(ep) => {
                let top = self.layers.len() - 1;
                let d0 = dist(ep.node);
                let near = descend(&self.layers, top, 0, ep.node, d0, dist);
                proof {
                    assert(measured(dist, ep.node, d0));
                }
                let width = if ef < k {
                    k
                } else {
                    ef
                };
                proof {
                    assert(tidy(views(self.layers@)[0], m_max() as nat));
                    assert(self@.layers[0].contains_key(near.0));
                }
                let mut found = beam(&self.layers[0], near.0, near.1, dist, width, visible);
                let ghost all = found@;
                found.truncate(k);
                proof {
                    assert forall|i: int| 0 <= i < found@.len() implies found@[i] == all[i] by {}
                    let g = self@.layers[0];
                    assert forall|i: int, b: Node|
                        0 <= i < found@.len() && #[trigger] g[found@[i].0].contains_key(b)
                            && !tombstoned(visible@, b) implies ranked(
                        found@,
                        b,
                        k as nat,
                        dist,
                    ) by {
                        assert(found@[i] == all[i]);
                        assert(g[all[i].0].contains_key(b));
                        assert(ranked(all, b, width as nat, dist));
                        if among(all, b) {
                            let x = choose|x: int| 0 <= x < all.len() && (#[trigger] all[x]).0 == b;
                            if x < k {
                                assert(found@[x].0 == b);
                            } else {
                                assert(measured(dist, b, all[x].1));
                                assert forall|y: int| 0 <= y < found@.len() implies (
                                #[trigger] found@[y]).1 <= all[x].1 by {
                                    assert(found@[y] == all[y]);
                                }
                                assert(covers(found@, all[x].1));
                            }
                        } else {
                            let d = choose|d: u32| #[trigger] measured(dist, b, d) && covers(all, d);
                            assert forall|y: int| 0 <= y < found@.len() implies (
                            #[trigger] found@[y]).1 <= d by {
                                assert(found@[y] == all[y]);
                            }
                            assert(measured(dist, b, d) && covers(found@, d));
                        }
                    }
                    if width > g.len() {
                        assert(knit(g, m_max() as nat));
                        assert forall|n: Node|
                            within_reach(g, n) && !tombstoned(visible@, n) implies #[trigger] ranked(
                            found@,
                            n,
                            k as nat,
                            dist,
                        ) by {
                            assert(g.contains_key(near.0));
                            assert(reachable(g, near.0, n));
                            assert(among(all, n));
                            let j = choose|j: int| 0 <= j < all.len() && (#[trigger] all[j]).0 == n;
                            if j < k {
                                assert(found@[j].0 == n);
                            } else {
                                assert(measured(dist, n, all[j].1));
                                assert forall|i: int| 0 <= i < found@.len() implies (
                                #[trigger] found@[i]).1 <= all[j].1 by {
                                    assert(found@[i] == all[i]);
                                }
                            }
                        }
                    }
                }
                found
            },
        }
    }

    /// Takes `node` into the index, up to the layer `layer` that was drawn
    /// for it, and says whether the index did not hold it yet. A node that
    /// the index holds already changes nothing.
    ///
    /// `dist` gives the distance from the new vector to a node.
    #[verifier::rlimit(40)]
    pub fn insert<F: Fn(Node) -> u32>(&mut self, node: Node, layer: usize, dist: &F) -> (fresh:
        bool)
        requires
            old(self).wf(),
            total(dist),
            layer < usize::MAX,
            old(self)@.log.version_number < u128::MAX,
        ensures
            final(self).wf(),
            fresh == !(old(self)@.layers.len() > 0 && old(self)@.layers[0].contains_key(node)),
            !fresh ==> final(self)@ == old(self)@,
            fresh ==> inserted(old(self)@, final(self)@, node, layer as nat, dist),
    {
        if self.contains(node) {
            return false;
        }
        let ghost before = self@;
        let version = self.log.version_number + 1;
        if self.layers.len() == 0 {
            self.layers.push(lone_layer(node));
            self.log = GraphLog {
                version_number: version,
                max_layer: 0,
                entry_point: Some(EntryPoint { node, layer: 0 }),
            };
            proof {
                assert(self@.layers =~= seq![lone(node)]);
                lemma_lone_knit(node);
            }
            return true;
        }
        let top = self.layers.len() - 1;
        let low = if layer < top {
            layer
        } else {
            top
        };
        let ep = self.log.entry_point.unwrap();
        let d0 = dist(ep.node);
        let near = descend(&self.layers, top, low, ep.node, d0, dist);
        let plans = survey(&self.layers, low, near.0, near.1, dist);
        link_all(&mut self.layers, node, &plans, low, dist);
        let ghost mid = views(self.layers@);
        proof {
            assert(mid[top as int].contains_key(ep.node)) by {
                if top > low {
                    assert(mid[top as int] == before.layers[top as int]);
                }
            }
            if layer > top {
                assert(mid[top as int].contains_key(node));
            }
        }
        raise(&mut self.layers, node, layer);
        let high = if layer < top {
            top
        } else {
            layer
        };
        let entry_point = if layer > top {
            Some(EntryPoint { node, layer: layer as u64 })
        } else {
            self.log.entry_point
        };
        self.log = GraphLog { version_number: version, max_layer: high as u64, entry_point };
        proof {
            let after = self@;
            assert(after.layers == views(self.layers@));
            assert(after.layers[high as int].contains_key(entry_point->0.node)) by {
                if layer > top {
                    assert(after.layers[layer as int] == lone(node));
                } else {
                    assert(after.layers[top as int] == mid[top as int]);
                }
            }
            assert forall|i: int| 0 <= i <= low implies joined(
                before.layers[i],
                #[trigger] after.layers[i],
                node,
                dist,
            ) by {
                assert(after.layers[i] == mid[i]);
            }
            assert forall|i: int| low < i <= top implies #[trigger] after.layers[i]
                == before.layers[i] by {
                assert(after.layers[i] == mid[i]);
            }
        }
        true
    }

    /// Marks `node` as removed in the log of the acting transaction. The
    /// graph stays as it is: a search that sees the log leaves the node out.
    pub fn delete(&self, node: Node, log: &mut DeleteLog)
        ensures
            final(log)@ == old(log)@.insert(node),
    {
        log.insert(node);
    }
}

/// Walks from `start` in layer `top` down to layer `low`: in every layer
/// above `low` to a node without a nearer neighbour, and from there on in the
/// layer below.
fn descend<F: Fn(Node) -> u32>(
    layers: &Vec<GraphLayer>,
    top: usize,
    low: usize,
    start: Node,
    start_d: u32,
    dist: &F,
) -> (r: (Node, u32))
    requires
        forall|i: int| 0 <= i < layers@.len() ==> (#[trigger] layers@[i]).wf(),
        stacked(views(layers@)),
        low <= top < layers@.len(),
        layers@[top as int]@.contains_key(start),
        measured(dist, start, start_d),
        total(dist),
    ensures
        layers@[low as int]@.contains_key(r.0),
        measured(dist, r.0, r.1),
        r.1 <= start_d,
{
    let mut l = top;
    let mut cur = start;
    let mut cur_d = start_d;
    while l > low
        invariant
            forall|i: int| 0 <= i < layers@.len() ==> (#[trigger] layers@[i]).wf(),
            stacked(views(layers@)),
            low <= l <= top < layers@.len(),
            layers@[l as int]@.contains_key(cur),
            measured(dist, cur, cur_d),
            total(dist),
            cur_d <= start_d,
        decreases l,
    {
        proof {
            assert(tidy(views(layers@)[l as int], m_max() as nat));
        }
        let r = greedy(&layers[l], cur, cur_d, dist);
        proof {
            assert(views(layers@)[l as int].contains_key(r.0));
            assert(views(layers@)[l - 1].contains_key(r.0));
        }
        cur = r.0;
        cur_d = r.1;
        l -= 1;
    }
    (cur, cur_d)
}

/// Searches the layers `low`, `low - 1`, down to the bottom one, each from
/// the nearest node found in the layer above it, and hands back what it
/// found: first for layer `low`, last for the bottom layer.
fn survey<F: Fn(Node) -> u32>(
    layers: &Vec<GraphLayer>,
    low: usize,
    start: Node,
    start_d: u32,
    dist: &F,
) -> (plans: Vec<Vec<(Node, u32)>>)
    requires
        forall|i: int| 0 <= i < layers@.len() ==> (#[trigger] layers@[i]).wf(),
        stacked(views(layers@)),
        low < layers@.len(),
        layers@[low as int]@.contains_key(start),
        measured(dist, start, start_d),
        total(dist),
    ensures
        plans@.len() == low + 1,
        forall|j: int|
            0 <= j <= low ==> fits((#[trigger] plans@[j])@, views(layers@)[low - j], dist),
{
    let mut plans: Vec<Vec<(Node, u32)>> = Vec::new();
    let none: Vec<DeleteLog> = Vec::new();
    let mut cur = start;
    let mut cur_d = start_d;
    let n = layers.len();
    let mut l = low + 1;
    while l > 0
        invariant
            forall|i: int| 0 <= i < layers@.len() ==> (#[trigger] layers@[i]).wf(),
            stacked(views(layers@)),
            low < layers@.len(),
            0 <= l <= low + 1,
            l > 0 ==> layers@[l - 1]@.contains_key(cur),
            measured(dist, cur, cur_d),
            total(dist),
            none@.len() == 0,
            plans@.len() == low + 1 - l,
            forall|j: int|
                0 <= j < plans@.len() ==> fits((#[trigger] plans@[j])@, views(layers@)[low - j], dist),
        decreases l,
    {
        l -= 1;
        proof {
            assert(tidy(views(layers@)[l as int], m_max() as nat));
            assert(!tombstoned(none@, cur));
        }
        let found = beam(&layers[l], cur, cur_d, dist, ef_construction(), none.as_slice());
        proof {
            assert forall|i: int| 0 <= i < found@.len() implies views(layers@)[l as int].contains_key(
                (#[trigger] found@[i]).0,
            ) && measured(dist, found@[i].0, found@[i].1) by {}
            let g = views(layers@)[l as int];
            assert(knit(g, m_max() as nat));
            if g.len() < ef_construction() {
                assert forall|b: Node| within_reach(g, b) implies #[trigger] among(found@, b) by {
                    assert(g.contains_key(cur));
                    assert(reachable(g, cur, b));
                    assert(!tombstoned(none@, b));
                }
            }
            assert(settled(g, found@, ef_construction() as nat, dist, Seq::<DeleteLog>::empty())) by {
                assert(none@ =~= Seq::<DeleteLog>::empty());
            }
            assert(fits(found@, g, dist));
            if l > 0 {
                assert(views(layers@)[l as int].contains_key(found@[0].0));
                assert(views(layers@)[l - 1].contains_key(found@[0].0));
            }
        }
        cur = found[0].0;
        cur_d = found[0].1;
        let ghost prior = plans@;
        plans.push(found);
        proof {
            assert forall|j: int| 0 <= j < plans@.len() implies fits(
                (#[trigger] plans@[j])@,
                views(layers@)[low - j],
                dist,
            ) by {
                if j < prior.len() {
                    assert(plans@[j] == prior[j]);
                }
            }
        }
    }
    plans
}

/// The nodes that a node is tied to when it joins a layer: at least one and
/// at most `m`, nodes of the layer, no node twice, each with a distance that
/// `dist` gives for it. In a layer of fewer nodes than the search for
/// neighbours is broad they are the nearest: every node within reach has its
/// due among them.
pub proof fn lemma_neighbours<F: Fn(Node) -> u32>(
    g0: LayerMap,
    g1: LayerMap,
    node: Node,
    dist: &F,
) -> (nbrs: Seq<(Node, u32)>)
    requires
        joined(g0, g1, node, dist),
    ensures
        linked(g0, g1, node, nbrs, m_max() as nat),
        1 <= nbrs.len() <= m(),
        ascending(nbrs),
        distinct_nodes(nbrs),
        forall|i: int|
            0 <= i < nbrs.len() ==> g0.contains_key((#[trigger] nbrs[i]).0) && measured(
                dist,
                nbrs[i].0,
                nbrs[i].1,
            ),
        g0.len() < ef_construction() ==> forall|b: Node|
            within_reach(g0, b) ==> #[trigger] ranked(nbrs, b, m() as nat, dist),
{
    let p = choose|p: Seq<(Node, u32)>|
        fits(p, g0, dist) && #[trigger] linked(g0, g1, node, chosen(p), m_max() as nat);
    let nbrs = chosen(p);
    assert forall|x: int| 0 <= x < nbrs.len() implies g0.contains_key((#[trigger] nbrs[x]).0)
        && measured(dist, nbrs[x].0, nbrs[x].1) by {
        assert(nbrs[x] == p[x]);
    }
    assert(distinct_nodes(nbrs)) by {
        assert forall|x: int, y: int| 0 <= x < y < nbrs.len() implies (#[trigger] nbrs[x]).0 != (
        #[trigger] nbrs[y]).0 by {
            assert(nbrs[x] == p[x] && nbrs[y] == p[y]);
        }
    }
    assert(ascending(nbrs)) by {
        assert forall|x: int, y: int| 0 <= x <= y < nbrs.len() implies (#[trigger] nbrs[x]).1 <= (
        #[trigger] nbrs[y]).1 by {
            assert(nbrs[x] == p[x] && nbrs[y] == p[y]);
        }
    }
    if g0.len() < ef_construction() {
        assert forall|b: Node| within_reach(g0, b) implies #[trigger] ranked(
            nbrs,
            b,
            m() as nat,
            dist,
        ) by {
            assert(among(p, b));
            let x = choose|x: int| 0 <= x < p.len() && (#[trigger] p[x]).0 == b;
            if x < nbrs.len() {
                assert(nbrs[x].0 == b);
            } else {
                assert(measured(dist, b, p[x].1));
                assert forall|y: int| 0 <= y < nbrs.len() implies (#[trigger] nbrs[y]).1
                    <= p[x].1 by {
                    assert(nbrs[y] == p[y]);
                }
                assert(covers(nbrs, p[x].1));
            }
        }
    }
    nbrs
}

/// A stack of layers stays a stack when a node that is in none of them is
/// tied into one of them, provided it is in every layer below already.
proof fn lemma_stays_stacked<F: Fn(Node) -> u32>(
    before: Seq<LayerMap>,
    mid: Seq<LayerMap>,
    now: Seq<LayerMap>,
    j: int,
    node: Node,
    p: Seq<(Node, u32)>,
    dist: &F,
)
    requires
        stacked(before),
        stacked(mid),
        0 <= j < before.len(),
        mid.len() == before.len(),
        now.len() == before.len(),
        forall|i: int| 0 <= i < before.len() ==> !(#[trigger] before[i]).contains_key(node),
        forall|i: int| j <= i < mid.len() ==> #[trigger] mid[i] == before[i],
        forall|i: int| 0 <= i < j ==> (#[trigger] mid[i]).dom() == before[i].dom().insert(node),
        forall|i: int| 0 <= i < now.len() && i != j ==> #[trigger] now[i] == mid[i],
        fits(p, before[j], dist),
        tidy(now[j], m_max() as nat),
        linked(before[j], now[j], node, chosen(p), m_max() as nat),
    ensures
        stacked(now),
{
    let nbrs = chosen(p);
    assert forall|i: int| 0 <= i < now.len() implies tidy(#[trigger] now[i], m_max() as nat)
        && knit(now[i], m_max() as nat) by {
        if i != j {
            assert(tidy(mid[i], m_max() as nat));
        } else {
            assert(tidy(before[i], m_max() as nat) && knit(before[i], m_max() as nat));
            assert forall|x: int| 0 <= x < nbrs.len() implies before[i].contains_key(
                (#[trigger] nbrs[x]).0,
            ) by {
                assert(nbrs[x] == p[x]);
            }
            lemma_linked_knit(before[i], now[i], node, nbrs, m_max() as nat);
        }
    }
    assert forall|i: int, n: Node|
        0 < i < now.len() && #[trigger] now[i].contains_key(n) implies now[i - 1].contains_key(
        n,
    ) by {
        if i == j {
            if n != node {
                assert(before[i].contains_key(n));
                assert(before[i - 1].contains_key(n));
                assert(mid[i - 1].dom().contains(n));
            } else {
                assert(mid[i - 1].dom().contains(node));
            }
        } else if i == j + 1 {
            assert(mid[i].contains_key(n));
            assert(before[i].contains_key(n));
            assert(before[i - 1].contains_key(n));
        } else {
            assert(mid[i].contains_key(n));
            assert(mid[i - 1].contains_key(n));
        }
    }
}

/// Takes `node` into the layers from the bottom one up to `low`, and ties it
/// in each to the nearest nodes that `plans` lists for that layer.
#[verifier::rlimit(40)]
fn link_all<F: Fn(Node) -> u32>(
    layers: &mut Vec<GraphLayer>,
    node: Node,
    plans: &Vec<Vec<(Node, u32)>>,
    low: usize,
    dist: &F,
)
    requires
        forall|i: int| 0 <= i < old(layers)@.len() ==> (#[trigger] old(layers)@[i]).wf(),
        stacked(views(old(layers)@)),
        low < old(layers)@.len(),
        !old(layers)@[0]@.contains_key(node),
        plans@.len() == low + 1,
        forall|j: int|
            0 <= j <= low ==> fits((#[trigger] plans@[j])@, views(old(layers)@)[low - j], dist),
    ensures
        final(layers)@.len() == old(layers)@.len(),
        forall|i: int| 0 <= i < final(layers)@.len() ==> (#[trigger] final(layers)@[i]).wf(),
        stacked(views(final(layers)@)),
        forall|i: int|
            0 <= i <= low ==> joined(
                views(old(layers)@)[i],
                #[trigger] views(final(layers)@)[i],
                node,
                dist,
            ),
        forall|i: int|
            0 <= i <= low ==> (#[trigger] views(final(layers)@)[i]).dom() == views(
                old(layers)@,
            )[i].dom().insert(node),
        forall|i: int|
            low < i < final(layers)@.len() ==> #[trigger] views(final(layers)@)[i] == views(
                old(layers)@,
            )[i],
{
    let ghost before = views(layers@);
    let n = layers.len();
    let mut j: usize = 0;
    proof {
        assert forall|i: int| 0 <= i < before.len() implies !(#[trigger] before[i]).contains_key(
            node,
        ) by {
            lemma_absent_above(before, node, i);
        }
    }
    while j <= low
        invariant
            0 <= j <= low + 1,
            low < before.len(),
            layers@.len() == before.len(),
            n == before.len(),
            stacked(before),
            forall|i: int| 0 <= i < before.len() ==> !(#[trigger] before[i]).contains_key(node),
            plans@.len() == low + 1,
            forall|j: int| 0 <= j <= low ==> fits((#[trigger] plans@[j])@, before[low - j], dist),
            forall|i: int| 0 <= i < layers@.len() ==> (#[trigger] layers@[i]).wf(),
            stacked(views(layers@)),
            forall|i: int|
                0 <= i < j ==> joined(before[i], #[trigger] views(layers@)[i], node, dist),
            forall|i: int|
                0 <= i < j ==> (#[trigger] views(layers@)[i]).dom() == before[i].dom().insert(node),
            forall|i: int| j <= i < layers@.len() ==> #[trigger] views(layers@)[i] == before[i],
        decreases low + 1 - j,
    {
        let ghost held = layers@;
        let ghost mid = views(layers@);
        let plan = &plans[low - j];
        proof {
            assert(mid[j as int] == before[j as int]);
            assert(tidy(mid[j as int], m_max() as nat));
            let jj = low - j;
            assert(fits(plans@[jj]@, before[low - jj], dist));
            assert(held[j as int].wf());
        }
        let mut g = layers.remove(j);
        connect(&mut g, node, plan, m(), m_max());
        let ghost new_g = g@;
        layers.insert(j, g);
        proof {
            assert(layers@ =~= held.update(j as int, layers@[j as int]));
            let now = views(layers@);
            assert(now[j as int] == new_g);
            assert forall|i: int| 0 <= i < now.len() && i != j implies #[trigger] now[i] == mid[i] by {
                assert(layers@[i] == held[i]);
            }
            assert forall|i: int| 0 <= i < layers@.len() implies (#[trigger] layers@[i]).wf() by {
                if i != j {
                    assert(layers@[i] == held[i]);
                }
            }
            lemma_stays_stacked(before, mid, now, j as int, node, plans@[low - j]@, dist);
            assert forall|i: int| 0 <= i < j + 1 implies joined(
                before[i],
                #[trigger] now[i],
                node,
                dist,
            ) && now[i].dom() == before[i].dom().insert(node) by {
                if i < j {
                    assert(now[i] == mid[i]);
                }
            }
            assert forall|i: int| j + 1 <= i < layers@.len() implies #[trigger] now[i]
                == before[i] by {
                assert(now[i] == mid[i]);
            }
        }
        j += 1;
    }
}

/// A layer that holds `node` and nothing else.
fn lone_layer(node: Node) -> (g: GraphLayer)
    ensures
        g.wf(),
        g@ == lone(node),
        tidy(g@, m_max() as nat),
        knit(g@, m_max() as nat),
{
    let mut g = GraphLayer::new();
    g.add_node(node);
    proof {
        g.lemma_wf();
        assert(g@ =~= lone(node));
        assert(g@[node].len() == 0);
        lemma_lone_knit(node);
    }
    g
}

/// Adds layers that hold `node` alone until there is a layer `layer`.
fn raise(layers: &mut Vec<GraphLayer>, node: Node, layer: usize)
    requires
        forall|i: int| 0 <= i < old(layers)@.len() ==> (#[trigger] old(layers)@[i]).wf(),
        stacked(views(old(layers)@)),
        old(layers)@.len() >= 1,
        layer < usize::MAX,
        layer >= old(layers)@.len() ==> views(old(layers)@)[old(layers)@.len() - 1].contains_key(
            node,
        ),
    ensures
        forall|i: int| 0 <= i < final(layers)@.len() ==> (#[trigger] final(layers)@[i]).wf(),
        stacked(views(final(layers)@)),
        final(layers)@.len() == (if layer < old(layers)@.len() {
            old(layers)@.len()
        } else {
            (layer + 1) as nat
        }),
        forall|i: int|
            0 <= i < old(layers)@.len() ==> #[trigger] views(final(layers)@)[i] == views(
                old(layers)@,
            )[i],
        forall|i: int|
            old(layers)@.len() <= i < final(layers)@.len() ==> #[trigger] views(final(layers)@)[i]
                == lone(node),
{
    let ghost first = views(layers@);
    while layers.len() <= layer
        invariant
            layer < usize::MAX,
            first.len() >= 1,
            first.len() <= layers@.len(),
            layers@.len() <= layer + 1 || layers@.len() == first.len(),
            forall|i: int| 0 <= i < layers@.len() ==> (#[trigger] layers@[i]).wf(),
            stacked(views(layers@)),
            forall|i: int| 0 <= i < first.len() ==> #[trigger] views(layers@)[i] == first[i],
            forall|i: int|
                first.len() <= i < layers@.len() ==> #[trigger] views(layers@)[i] == lone(node),
            layer >= first.len() ==> first[first.len() - 1].contains_key(node),
        decreases layer + 1 - layers@.len(),
    {
        let ghost held = layers@;
        let g = lone_layer(node);
        layers.push(g);
        proof {
            let now = views(layers@);
            let was = views(held);
            let t = held.len() as int;
            assert forall|i: int| 0 <= i < t implies #[trigger] now[i] == was[i] by {
                assert(layers@[i] == held[i]);
            }
            assert forall|i: int| 0 <= i < now.len() implies tidy(
                #[trigger] now[i],
                m_max() as nat,
            ) && knit(now[i], m_max() as nat) by {
                if i < t {
                    assert(tidy(was[i], m_max() as nat));
                }
            }
            assert forall|i: int, n: Node|
                0 < i < now.len() && #[trigger] now[i].contains_key(n) implies now[i
                - 1].contains_key(n) by {
                if i < t {
                    assert(was[i].contains_key(n));
                    assert(was[i - 1].contains_key(n));
                } else {
                    assert(n == node);
                    if t == first.len() {
                        assert(was[t - 1] == first[t - 1]);
                    } else {
                        assert(was[t - 1] == lone(node));
                    }
                }
            }
            assert forall|i: int| 0 <= i < layers@.len() implies (#[trigger] layers@[i]).wf() by {
                if i < t {
                    assert(layers@[i] == held[i]);
                }
            }
        }
    }
}

/// In an index, every edge of every layer joins two nodes of that layer.
pub proof fn lemma_edges_stay_inside(v: IndexView, i: int, a: Node, b: Node)
    requires
        well_shaped(v),
        0 <= i < v.layers.len(),
        v.layers[i].contains_key(a),
        v.layers[i][a].contains_key(b),
    ensures
        v.layers[i].contains_key(b),
        v.layers[i][a][b].from == a,
        v.layers[i][a][b].to == b,
{
    assert(tidy(v.layers[i], m_max() as nat));
}

/// A node whose layer lies above the highest layer of an index that is not
/// empty becomes the entry point, and the highest layer rises by what the
/// node's layer lay above it.
pub proof fn lemma_promotion<F: Fn(Node) -> u32>(
    before: IndexView,
    after: IndexView,
    node: Node,
    layer: nat,
    dist: &F,
)
    requires
        well_shaped(before),
        before.layers.len() > 0,
        layer > before.log.max_layer,
        layer <= u64::MAX,
        inserted(before, after, node, layer, dist),
    ensures
        after.log.entry_point == Some(EntryPoint { node, layer: layer as u64 }),
        after.log.max_layer == before.log.max_layer + (layer - before.log.max_layer),
        after.log.version_number == before.log.version_number + 1,
{
}

/// A node whose layer does not lie above the highest layer leaves the entry
/// point and the highest layer as they are.
pub proof fn lemma_no_promotion<F: Fn(Node) -> u32>(
    before: IndexView,
    after: IndexView,
    node: Node,
    layer: nat,
    dist: &F,
)
    requires
        well_shaped(before),
        before.layers.len() > 0,
        layer <= before.log.max_layer,
        inserted(before, after, node, layer, dist),
    ensures
        after.log.entry_point == before.log.entry_point,
        after.log.max_layer == before.log.max_layer,
        after.log.version_number == before.log.version_number + 1,
{
}

/// A node that is marked as removed in a log that the search sees is not in
/// the answer.
pub proof fn lemma_removed_stay_out<F: Fn(Node) -> u32>(
    v: IndexView,
    dist: &F,
    k: nat,
    visible: Seq<DeleteLog>,
    r: Seq<(Node, u32)>,
    node: Node,
    j: int,
)
    requires
        answers(v, dist, k, visible, r),
        0 <= j < visible.len(),
        visible[j]@.contains(node),
    ensures
        !among(r, node),
{
    if among(r, node) {
        let i = choose|i: int| 0 <= i < r.len() && (#[trigger] r[i]).0 == node;
        assert(tombstoned(visible, r[i].0));
    }
}

/// An inserted node is a node of the bottom layer.
pub proof fn lemma_inserted_is_held<F: Fn(Node) -> u32>(
    before: IndexView,
    after: IndexView,
    node: Node,
    layer: nat,
    dist: &F,
)
    requires
        inserted(before, after, node, layer, dist),
    ensures
        after.layers.len() > 0,
        after.layers[0].contains_key(node),
        before.layers.len() > 0 ==> after.layers[0].dom() == before.layers[0].dom().insert(node),
{
    if before.layers.len() > 0 {
        assert(joined(before.layers[0], after.layers[0], node, dist));
        let nbrs = lemma_neighbours(before.layers[0], after.layers[0], node, dist);
    } else {
        assert(after.layers[0] == lone(node));
    }
}

/// A search in an index of no more than `m_max + 1` nodes, with a list
/// broader than that, finds a node that was inserted and is not marked as
/// removed when it is asked for the vector of that node: the node is in the
/// answer, or the answer is full of nodes at distance zero.
pub proof fn lemma_inserted_node_is_found<F: Fn(Node) -> u32, G: Fn(Node) -> u32>(
    before: IndexView,
    after: IndexView,
    node: Node,
    layer: nat,
    dist: &F,
    query: &G,
    k: nat,
    width: nat,
    visible: Seq<DeleteLog>,
    r: Seq<(Node, u32)>,
)
    requires
        inserted(before, after, node, layer, dist),
        after.layers[0].len() <= m_max() + 1,
        width > after.layers[0].len(),
        !tombstoned(visible, node),
        forall|d: u32| measured(query, node, d) ==> d == 0,
        thorough(after, query, k, width, visible, r),
    ensures
        among(r, node) || (r.len() == k && forall|i: int|
            0 <= i < r.len() ==> (#[trigger] r[i]).1 == 0),
{
    lemma_inserted_is_held(before, after, node, layer, dist);
    assert(ranked(r, node, k, query));
}

/// In a layer of one node every node can be reached from every node.
proof fn lemma_lone_knit(node: Node)
    ensures
        knit(lone(node), m_max() as nat),
{
    let g = lone(node);
    assert forall|a: Node, b: Node| #[trigger]
        g.contains_key(a) && #[trigger] g.contains_key(b) implies reachable(g, a, b) by {
        let q = seq![node];
        assert(walk(g, q) && q[0] == a && q.last() == b);
    }
}

/// A node that the bottom layer does not hold is in no layer.
proof fn lemma_absent_above(layers: Seq<LayerMap>, node: Node, i: int)
    requires
        stacked(layers),
        0 <= i < layers.len(),
        !layers[0].contains_key(node),
    ensures
        !layers[i].contains_key(node),
    decreases i,
{
    if i > 0 {
        lemma_absent_above(layers, node, i - 1);
    }
}

} // verus!
