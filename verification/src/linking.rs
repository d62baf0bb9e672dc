//! Taking a new node into one layer: the edges to its neighbours, the edges
//! back, and the cut that keeps every bucket within its limit.
use crate::elements::{Edge, Node};
use crate::layer::{no_dangling, GraphLayer};
use crate::traversal::{among, distinct_nodes, follows, reachable, walk};
use vstd::set_lib::lemma_len_subset;
use vstd::prelude::*;

verus! {

/// A layer as a map from each node to its bucket of edges.
pub type LayerMap = Map<Node, Map<Node, Edge>>;

/// Every edge of `g` is filed under the node it leaves and the node it leads
/// to, every edge leads to a node of `g` other than the one it leaves, and no
/// node has more than `cap` edges.
pub open spec fn tidy(g: LayerMap, cap: nat) -> bool {
    &&& g.dom().finite()
    &&& no_dangling(g)
    &&& forall|a: Node| #[trigger] g.contains_key(a) ==> g[a].dom().finite() && g[a].len() <= cap
    &&& forall|a: Node, b: Node| #[trigger]
        g.contains_key(a) && #[trigger] g[a].contains_key(b) ==> g[a][b].from == a && g[a][b].to
            == b && a != b
}

/// Where `g` has no more than `cap + 1` nodes, a walk leads from each of its
/// nodes to each of its nodes.
pub open spec fn knit(g: LayerMap, cap: nat) -> bool {
    g.len() <= cap + 1 ==> forall|a: Node, b: Node| #[trigger]
        g.contains_key(a) && #[trigger] g.contains_key(b) ==> reachable(g, a, b)
}

/// The edge from `a` to `b` with distance `d`.
pub open spec fn link(a: Node, b: Node, d: u32) -> Edge {
    Edge { from: a, to: b, dist: d }
}

/// What becomes of a bucket that is handed the edge `e`: it takes the edge,
/// and where it then holds more than `cap` edges it gives up one that no
/// other of its edges exceeds in distance.
pub open spec fn relinked(before: Map<Node, Edge>, after: Map<Node, Edge>, e: Edge, cap: nat) -> bool {
    let full = before.insert(e.to, e);
    if full.len() <= cap {
        after == full
    } else {
        exists|x: Node| #[trigger]
            full.contains_key(x) && after == full.remove(x) && forall|y: Node| #[trigger]
                full.contains_key(y) ==> full[y].dist <= full[x].dist
    }
}

/// `after` is `before` with `node` taken in and tied to the nodes of `nbrs`.
///
/// The new node has one edge to each of them, with the distance listed. Each
/// of them was handed the edge back. Every other bucket is as it was.
pub open spec fn linked(
    before: LayerMap,
    after: LayerMap,
    node: Node,
    nbrs: Seq<(Node, u32)>,
    cap: nat,
) -> bool {
    &&& after.dom() == before.dom().insert(node)
    &&& forall|b: Node| #[trigger] after[node].contains_key(b) <==> among(nbrs, b)
    &&& forall|i: int|
        0 <= i < nbrs.len() ==> after[node][(#[trigger] nbrs[i]).0] == link(
            node,
            nbrs[i].0,
            nbrs[i].1,
        )
    &&& forall|i: int|
        0 <= i < nbrs.len() ==> relinked(
            before[(#[trigger] nbrs[i]).0],
            after[nbrs[i].0],
            link(nbrs[i].0, node, nbrs[i].1),
            cap,
        )
    &&& forall|a: Node| #[trigger] before.contains_key(a) && !among(nbrs, a) ==> after[a] == before[a]
}

/// The place of an edge that no edge of the list exceeds in distance.
fn furthest(edges: &Vec<Edge>) -> (at: usize)
    requires
        edges@.len() > 0,
    ensures
        at < edges@.len(),
        forall|j: int| 0 <= j < edges@.len() ==> (#[trigger] edges@[j]).dist <= edges@[at as int].dist,
{
    let mut at: usize = 0;
    let mut i: usize = 1;
    while i < edges.len()
        invariant
            at < i <= edges@.len(),
            forall|j: int| 0 <= j < i ==> (#[trigger] edges@[j]).dist <= edges@[at as int].dist,
        decreases edges@.len() - i,
    {
        if edges[i].dist > edges[at].dist {
            at = i;
        }
        i += 1;
    }
    at
}

/// Hands the bucket of `nb` the edge to `node`, and cuts the bucket back to
/// `cap` edges where it has grown beyond.
fn tie_back(layer: &mut GraphLayer, nb: Node, node: Node, d: u32, cap: usize)
    requires
        old(layer).wf(),
        old(layer)@.contains_key(nb),
        old(layer)@.contains_key(node),
        old(layer)@[nb].dom().finite(),
        !old(layer)@[nb].contains_key(node),
        forall|b: Node| #[trigger] old(layer)@[nb].contains_key(b) ==> old(layer)@[nb][b].to == b,
    ensures
        final(layer).wf(),
        final(layer)@.dom() == old(layer)@.dom(),
        forall|a: Node| #[trigger]
            old(layer)@.contains_key(a) && a != nb ==> final(layer)@[a] == old(layer)@[a],
        relinked(old(layer)@[nb], final(layer)@[nb], link(nb, node, d), cap as nat),
        final(layer)@[nb].dom().subset_of(old(layer)@[nb].dom().insert(node)),
        forall|b: Node| #[trigger]
            final(layer)@[nb].contains_key(b) ==> final(layer)@[nb][b] == old(layer)@[nb].insert(
                node,
                link(nb, node, d),
            )[b],
        final(layer)@[nb].dom().finite(),
        old(layer)@[nb].len() <= cap ==> final(layer)@[nb].len() <= cap,
{
    let ghost before = layer@;
    let ghost full = before[nb].insert(node, link(nb, node, d));
    layer.add_edge(nb, Edge { from: nb, to: node, dist: d });
    assert(layer@[nb] == full);
    assert(layer@.dom() =~= before.dom());
    assert(full.dom() =~= before[nb].dom().insert(node));
    assert(full.len() == before[nb].len() + 1);
    if layer.no_edges(nb) > cap {
        let edges = layer.get_edges(nb);
        let at = furthest(&edges);
        let x = edges[at].to;
        layer.remove_edge(nb, x);
        proof {
            assert(full.contains_key(x));
            assert(layer@[nb] == full.remove(x));
            assert(full.remove(x).dom() =~= full.dom().remove(x));
            assert(full.remove(x).len() == full.len() - 1);
            assert forall|y: Node| #[trigger] full.contains_key(y) implies full[y].dist
                <= full[x].dist by {
                let j = choose|j: int| 0 <= j < edges@.len() && edges@[j] == full[y];
                assert(edges@[j].dist <= edges@[at as int].dist);
            }
            assert(layer@.dom() =~= before.dom());
        }
    }
}

/// Takes `node` into `layer` and ties it to the first `links` nodes of
/// `found`, or to all of them where they are fewer.
#[verifier::rlimit(40)]
pub fn connect(
    layer: &mut GraphLayer,
    node: Node,
    found: &Vec<(Node, u32)>,
    links: usize,
    cap: usize,
)
    requires
        old(layer).wf(),
        tidy(old(layer)@, cap as nat),
        !old(layer)@.contains_key(node),
        distinct_nodes(found@),
        forall|i: int| 0 <= i < found@.len() ==> old(layer)@.contains_key((#[trigger] found@[i]).0),
        links <= cap,
    ensures
        final(layer).wf(),
        tidy(final(layer)@, cap as nat),
        linked(
            old(layer)@,
            final(layer)@,
            node,
            found@.take(if found@.len() < links { found@.len() as int } else { links as int }),
            cap as nat,
        ),
{
    let ghost g0 = layer@;
    layer.add_node(node);
    let n = if found.len() < links {
        found.len()
    } else {
        links
    };
    proof {
        layer.lemma_wf();
        assert(layer@.dom() =~= g0.dom().insert(node));
        assert(layer@[node].len() == 0);
        assert forall|a: Node| #[trigger] layer@.contains_key(a) implies layer@[a].dom().finite()
            && layer@[a].len() <= cap as nat by {
            if a != node {
                assert(g0.contains_key(a));
            }
        }
    }
    let mut i: usize = 0;
    while i < n
        invariant
            layer.wf(),
            0 <= i <= n,
            n <= found@.len(),
            n <= links <= cap,
            tidy(g0, cap as nat),
            !g0.contains_key(node),
            distinct_nodes(found@),
            forall|j: int| 0 <= j < found@.len() ==> g0.contains_key((#[trigger] found@[j]).0),
            tidy(layer@, cap as nat),
            linked(g0, layer@, node, found@.take(i as int), cap as nat),
            layer@[node].len() == i,
        decreases n - i,
    {
        let nb = found[i].0;
        let d = found[i].1;
        let ghost g = layer@;
        let ghost done = found@.take(i as int);
        let ghost next = found@.take(i + 1);
        proof {
            assert(g0.contains_key(found@[i as int].0));
            assert(!among(done, nb)) by {
                if among(done, nb) {
                    let j = choose|j: int| 0 <= j < done.len() && (#[trigger] done[j]).0 == nb;
                    assert(found@[j].0 == found@[i as int].0);
                }
            }
            assert(g[nb] == g0[nb]);
            assert(!g0[nb].contains_key(node));
            assert(!g[node].contains_key(nb));
        }
        layer.add_edge(node, Edge { from: node, to: nb, dist: d });
        let ghost g1 = layer@;
        proof {
            assert(g1.dom() =~= g.dom());
            assert(g1[node] == g[node].insert(nb, link(node, nb, d)));
            assert(g1[nb] == g[nb]);
        }
        tie_back(layer, nb, node, d, cap);
        proof {
            let g2 = layer@;
            layer.lemma_wf();
            assert(g2[node] == g1[node]);
            assert(next.len() == i + 1);
            assert(next[i as int] == found@[i as int]);
            assert forall|j: int| 0 <= j < i implies next[j] == done[j] by {}
            assert forall|b: Node| #[trigger] g2[node].contains_key(b) <==> among(next, b) by {
                if g2[node].contains_key(b) {
                    if b == nb {
                        assert(next[i as int].0 == b);
                    } else {
                        assert(g[node].contains_key(b));
                        assert(among(done, b));
                        let j = choose|j: int| 0 <= j < done.len() && (#[trigger] done[j]).0 == b;
                        assert(next[j].0 == b);
                    }
                }
                if among(next, b) {
                    let j = choose|j: int| 0 <= j < next.len() && (#[trigger] next[j]).0 == b;
                    if j < i {
                        assert(done[j].0 == b);
                        assert(among(done, b));
                    }
                }
            }
            assert forall|j: int| 0 <= j < next.len() implies g2[node][(#[trigger] next[j]).0]
                == link(node, next[j].0, next[j].1) by {
                if j < i {
                    assert(done[j] == next[j]);
                    assert(found@[j].0 != found@[i as int].0);
                }
            }
            assert forall|j: int| 0 <= j < next.len() implies relinked(
                g0[(#[trigger] next[j]).0],
                g2[next[j].0],
                link(next[j].0, node, next[j].1),
                cap as nat,
            ) by {
                if j < i {
                    assert(done[j] == next[j]);
                    assert(found@[j].0 != found@[i as int].0);
                    assert(g0.contains_key(found@[j].0));
                    assert(g1.contains_key(next[j].0));
                    assert(g1[next[j].0] == g[next[j].0]);
                    assert(g2[next[j].0] == g[next[j].0]);
                }
            }
            assert forall|a: Node| #[trigger] g0.contains_key(a) && !among(next, a) implies g2[a]
                == g0[a] by {
                if among(done, a) {
                    let j = choose|j: int| 0 <= j < done.len() && (#[trigger] done[j]).0 == a;
                    assert(next[j].0 == a);
                }
                if a == nb {
                    assert(next[i as int].0 == a);
                }
                assert(g1.contains_key(a));
                assert(g1[a] == g[a]);
                assert(g2[a] == g[a]);
            }
            assert(g2.dom() =~= g0.dom().insert(node));
            assert(g2[node].len() == i + 1);
            assert(no_dangling(g2)) by {
                assert forall|a: Node, b: Node| #[trigger]
                    g2.contains_key(a) && #[trigger] g2[a].contains_key(b) implies g2.contains_key(
                    b,
                ) by {
                    if a == node {
                        if b != nb {
                            assert(g[a].contains_key(b));
                        }
                    } else if a == nb {
                        if b != node {
                            assert(g[a].contains_key(b));
                        }
                    } else {
                        assert(g[a].contains_key(b));
                    }
                }
            }
            assert forall|a: Node, b: Node| #[trigger]
                g2.contains_key(a) && #[trigger] g2[a].contains_key(b) implies g2[a][b].from == a
                && g2[a][b].to == b && a != b by {
                if a == node {
                    if b != nb {
                        assert(g[a].contains_key(b));
                    }
                } else if a == nb {
                    if b != node {
                        assert(g[a].contains_key(b));
                    }
                } else {
                    assert(g[a].contains_key(b));
                }
            }
            assert forall|a: Node| #[trigger] g2.contains_key(a) implies g2[a].dom().finite()
                && g2[a].len() <= cap as nat by {
                if a != node && a != nb {
                    assert(g.contains_key(a));
                }
            }
        }
        i += 1;
    }
}

/// A walk in a layer is a walk in every layer that has all its nodes and
/// all its edges.
pub proof fn lemma_walk_lifts(g0: LayerMap, g1: LayerMap, path: Seq<Node>)
    requires
        walk(g0, path),
        forall|a: Node| #[trigger] g0.contains_key(a) ==> g1.contains_key(a),
        forall|a: Node, b: Node| #[trigger]
            g0.contains_key(a) && #[trigger] g0[a].contains_key(b) ==> g1[a].contains_key(b),
    ensures
        walk(g1, path),
{
    assert forall|i: int| 0 <= i < path.len() - 1 implies #[trigger] follows(g1, path, i) by {
        assert(follows(g0, path, i));
        assert(g0.contains_key(path[i]));
    }
}

/// A small layer in which every node can be reached from every node stays
/// so when a node is tied into it: while a layer has no more than `cap + 1`
/// nodes no bucket is cut, so that every edge stays and the new node has
/// edges to and from its neighbours.
pub proof fn lemma_linked_knit(
    g0: LayerMap,
    g1: LayerMap,
    node: Node,
    nbrs: Seq<(Node, u32)>,
    cap: nat,
)
    requires
        tidy(g0, cap),
        knit(g0, cap),
        !g0.contains_key(node),
        nbrs.len() >= 1,
        forall|i: int| 0 <= i < nbrs.len() ==> g0.contains_key((#[trigger] nbrs[i]).0),
        linked(g0, g1, node, nbrs, cap),
    ensures
        knit(g1, cap),
{
    if g1.len() <= cap + 1 {
        assert(g0.len() <= cap);
        assert forall|a: Node, b: Node| #[trigger]
            g0.contains_key(a) && #[trigger] g0[a].contains_key(b) implies g1[a].contains_key(
            b,
        ) by {
            if among(nbrs, a) {
                let i = choose|i: int| 0 <= i < nbrs.len() && (#[trigger] nbrs[i]).0 == a;
                let e = link(a, node, nbrs[i].1);
                let full = g0[a].insert(node, e);
                assert(relinked(g0[a], g1[a], e, cap));
                assert(g0[a].dom().subset_of(g0.dom().remove(a))) by {
                    assert forall|x: Node| g0[a].dom().contains(x) implies g0.dom().remove(
                        a,
                    ).contains(x) by {
                        assert(g0[a].contains_key(x));
                    }
                }
                lemma_len_subset(g0[a].dom(), g0.dom().remove(a));
                assert(!g0[a].contains_key(node));
                assert(full.dom() =~= g0[a].dom().insert(node));
                assert(full.len() <= cap);
                assert(g1[a] == full);
            } else {
                assert(g1[a] == g0[a]);
            }
        }
        let nb = nbrs[0].0;
        assert(among(nbrs, nb));
        assert(g1[node].contains_key(nb));
        assert(g1[nb].contains_key(node)) by {
            let e = link(nb, node, nbrs[0].1);
            let full = g0[nb].insert(node, e);
            assert(relinked(g0[nb], g1[nb], e, cap));
            assert(g0[nb].dom().subset_of(g0.dom().remove(nb))) by {
                assert forall|x: Node| g0[nb].dom().contains(x) implies g0.dom().remove(
                    nb,
                ).contains(x) by {
                    assert(g0[nb].contains_key(x));
                }
            }
            lemma_len_subset(g0[nb].dom(), g0.dom().remove(nb));
            assert(!g0[nb].contains_key(node));
            assert(full.dom() =~= g0[nb].dom().insert(node));
            assert(full.len() <= cap);
            assert(g1[nb] == full);
        }
        assert forall|a: Node, b: Node| #[trigger]
            g1.contains_key(a) && #[trigger] g1.contains_key(b) implies reachable(g1, a, b) by {
            if a != node && b != node {
                assert(g0.contains_key(a) && g0.contains_key(b));
                let p = choose|p: Seq<Node>| #[trigger] walk(g0, p) && p[0] == a && p.last() == b;
                lemma_walk_lifts(g0, g1, p);
            } else if a != node {
                assert(g0.contains_key(a) && g0.contains_key(nb));
                let p = choose|p: Seq<Node>| #[trigger] walk(g0, p) && p[0] == a && p.last() == nb;
                lemma_walk_lifts(g0, g1, p);
                let q = p.push(node);
                assert forall|i: int| 0 <= i < q.len() implies g1.contains_key(
                    #[trigger] q[i],
                ) by {
                    if i < p.len() {
                        assert(q[i] == p[i]);
                    }
                }
                assert forall|i: int| 0 <= i < q.len() - 1 implies #[trigger] follows(
                    g1,
                    q,
                    i,
                ) by {
                    if i < p.len() - 1 {
                        assert(follows(g1, p, i));
                        assert(q[i] == p[i] && q[i + 1] == p[i + 1]);
                    } else {
                        assert(q[i] == nb && q[i + 1] == node);
                    }
                }
                assert(walk(g1, q) && q[0] == a && q.last() == b);
            } else if b != node {
                assert(g0.contains_key(nb) && g0.contains_key(b));
                let p = choose|p: Seq<Node>| #[trigger] walk(g0, p) && p[0] == nb && p.last() == b;
                lemma_walk_lifts(g0, g1, p);
                let q = seq![node] + p;
                assert forall|i: int| 0 <= i < q.len() implies g1.contains_key(
                    #[trigger] q[i],
                ) by {
                    if i > 0 {
                        assert(q[i] == p[i - 1]);
                    }
                }
                assert forall|i: int| 0 <= i < q.len() - 1 implies #[trigger] follows(
                    g1,
                    q,
                    i,
                ) by {
                    if i > 0 {
                        assert(follows(g1, p, i - 1));
                        assert(q[i] == p[i - 1] && q[i + 1] == p[i]);
                    } else {
                        assert(q[0] == node && q[1] == p[0]);
                    }
                }
                assert(walk(g1, q) && q[0] == a && q.last() == b);
            } else {
                let q = seq![node];
                assert(walk(g1, q) && q[0] == a && q.last() == b);
            }
        }
    }
}

} // verus!
