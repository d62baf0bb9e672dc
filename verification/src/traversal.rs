//! Searching one layer: the walk to a nearest node, and the wider search
//! that keeps a bounded list of the nearest nodes met.
use crate::delete_log::DeleteLog;
use crate::elements::{Edge, Node};
use crate::layer::{lists_bucket, no_dangling, GraphLayer};
use std::collections::HashSet;
use vstd::prelude::*;
use vstd::set_lib::{lemma_len_subset, lemma_map_size};
use vstd::std_specs::iter::IteratorSpec;

verus! {

broadcast use vstd::std_specs::hash::group_hash_axioms;

/// `d` is a distance that `dist` gives for `n`.
pub open spec fn measured<F: Fn(Node) -> u32>(dist: &F, n: Node, d: u32) -> bool {
    dist.ensures((n,), d)
}

/// `dist` gives for `n` a distance of `bound` or more.
pub open spec fn no_nearer<F: Fn(Node) -> u32>(dist: &F, n: Node, bound: u32) -> bool {
    exists|d: u32| #[trigger] measured(dist, n, d) && bound <= d
}

/// `dist` can be asked for every node.
pub open spec fn total<F: Fn(Node) -> u32>(dist: &F) -> bool {
    forall|n: Node| #[trigger] dist.requires((n,))
}

/// `n` is marked as removed in one of the logs `visible`.
pub open spec fn tombstoned(visible: Seq<DeleteLog>, n: Node) -> bool {
    exists|i: int| 0 <= i < visible.len() && (#[trigger] visible[i])@.contains(n)
}

/// The distances of `s` never fall from one entry to the next.
pub open spec fn ascending(s: Seq<(Node, u32)>) -> bool {
    forall|i: int, j: int| 0 <= i <= j < s.len() ==> (#[trigger] s[i]).1 <= (#[trigger] s[j]).1
}

/// No node stands twice in `s`.
pub open spec fn distinct_nodes(s: Seq<(Node, u32)>) -> bool {
    forall|i: int, j: int| 0 <= i < j < s.len() ==> (#[trigger] s[i]).0 != (#[trigger] s[j]).0
}

/// `b` is one of the nodes of `list`.
pub open spec fn among(list: Seq<(Node, u32)>, b: Node) -> bool {
    exists|i: int| 0 <= i < list.len() && (#[trigger] list[i]).0 == b
}

/// The step of `path` that leaves its node `i` follows an edge of `g`.
pub open spec fn follows(g: Map<Node, Map<Node, Edge>>, path: Seq<Node>, i: int) -> bool {
    g[path[i]].contains_key(path[i + 1])
}

/// `path` is a walk in `g`: it has a first node, all its nodes are nodes of
/// `g`, and every step follows an edge.
pub open spec fn walk(g: Map<Node, Map<Node, Edge>>, path: Seq<Node>) -> bool {
    &&& path.len() >= 1
    &&& forall|i: int| 0 <= i < path.len() ==> g.contains_key(#[trigger] path[i])
    &&& forall|i: int| 0 <= i < path.len() - 1 ==> #[trigger] follows(g, path, i)
}

/// A walk in `g` leads from `a` to `b`.
pub open spec fn reachable(g: Map<Node, Map<Node, Edge>>, a: Node, b: Node) -> bool {
    exists|path: Seq<Node>| #[trigger] walk(g, path) && path[0] == a && path.last() == b
}

/// A set that holds the first node of a walk, and with a node every node
/// that an edge leads to from it, holds every node of the walk.
pub proof fn lemma_closed_holds_walk(
    g: Map<Node, Map<Node, Edge>>,
    met: Set<Node>,
    path: Seq<Node>,
    i: int,
)
    requires
        walk(g, path),
        met.contains(path[0]),
        forall|a: Node, b: Node|
            met.contains(a) && g.contains_key(a) && #[trigger] g[a].contains_key(b)
                ==> met.contains(b),
        0 <= i < path.len(),
    ensures
        met.contains(path[i]),
    decreases i,
{
    if i > 0 {
        lemma_closed_holds_walk(g, met, path, i - 1);
        assert(follows(g, path, i - 1));
    }
}

/// Whether `n` is marked as removed in one of the logs `visible`.
pub fn is_tombstoned(visible: &[DeleteLog], n: Node) -> (r: bool)
    ensures
        r == tombstoned(visible@, n),
{
    let mut i: usize = 0;
    while i < visible.len()
        invariant
            0 <= i <= visible@.len(),
            forall|j: int| 0 <= j < i ==> !(#[trigger] visible@[j])@.contains(n),
        decreases visible@.len() - i,
    {
        if visible[i].contains(n) {
            return true;
        }
        i += 1;
    }
    false
}

/// Puts `(node, d)` into a list that is in ascending order, behind every
/// entry that is not farther, and says where it stands.
pub fn place(list: &mut Vec<(Node, u32)>, node: Node, d: u32) -> (p: usize)
    requires
        ascending(old(list)@),
    ensures
        p <= old(list)@.len(),
        final(list)@ == old(list)@.insert(p as int, (node, d)),
        final(list)@.len() == old(list)@.len() + 1,
        final(list)@[p as int] == (node, d),
        forall|j: int| 0 <= j < p ==> final(list)@[j] == old(list)@[j] && old(list)@[j].1 <= d,
        forall|j: int|
            p < j < final(list)@.len() ==> final(list)@[j] == old(list)@[j - 1] && old(list)@[j
                - 1].1 > d,
        ascending(final(list)@),
{
    let mut p = list.len();
    while p > 0 && list[p - 1].1 > d
        invariant
            p <= list@.len(),
            list@ == old(list)@,
            forall|j: int| p <= j < list@.len() ==> (#[trigger] list@[j]).1 > d,
        decreases p,
    {
        p -= 1;
    }
    proof {
        if p > 0 {
            assert forall|j: int| 0 <= j < p implies (#[trigger] list@[j]).1 <= d by {
                assert(list@[j].1 <= list@[p - 1].1);
            }
        }
    }
    list.insert(p, (node, d));
    p
}

/// The place of a nearest entry of a list that is not empty.
fn nearest_index(list: &Vec<(Node, u32)>) -> (best: usize)
    requires
        list@.len() > 0,
    ensures
        best < list@.len(),
        forall|j: int| 0 <= j < list@.len() ==> list@[best as int].1 <= (#[trigger] list@[j]).1,
{
    let mut best: usize = 0;
    let mut i: usize = 1;
    while i < list.len()
        invariant
            best < i <= list@.len(),
            forall|j: int| 0 <= j < i ==> list@[best as int].1 <= (#[trigger] list@[j]).1,
        decreases list@.len() - i,
    {
        if list[i].1 < list[best].1 {
            best = i;
        }
        i += 1;
    }
    best
}

/// Walks from `start` to ever nearer neighbours until no neighbour is nearer.
pub fn greedy<F: Fn(Node) -> u32>(layer: &GraphLayer, start: Node, start_d: u32, dist: &F) -> (r: (
    Node,
    u32,
))
    requires
        layer.wf(),
        no_dangling(layer@),
        layer@.contains_key(start),
        measured(dist, start, start_d),
        total(dist),
    ensures
        layer@.contains_key(r.0),
        measured(dist, r.0, r.1),
        r.1 <= start_d,
        reachable(layer@, start, r.0),
        forall|b: Node| #[trigger] layer@[r.0].contains_key(b) ==> no_nearer(dist, b, r.1),
{
    proof {
        lemma_reaches_itself(layer@, start);
    }
    let mut cur = start;
    let mut cur_d = start_d;
    loop
        invariant
            layer.wf(),
            no_dangling(layer@),
            layer@.contains_key(cur),
            measured(dist, cur, cur_d),
            total(dist),
            cur_d <= start_d,
            reachable(layer@, start, cur),
        decreases cur_d,
    {
        let edges = layer.get_edges(cur);
        let mut best = cur;
        let mut best_d = cur_d;
        let mut i: usize = 0;
        while i < edges.len()
            invariant
                layer.wf(),
                lists_bucket(edges@, layer@[cur]),
                no_dangling(layer@),
                layer@.contains_key(cur),
                layer@.contains_key(best),
                measured(dist, best, best_d),
                total(dist),
                best_d <= cur_d,
                0 <= i <= edges.len(),
                best_d < cur_d ==> layer@[cur].contains_key(best),
                forall|j: int| 0 <= j < i ==> no_nearer(dist, (#[trigger] edges@[j]).to, best_d),
            decreases edges.len() - i,
        {
            let to = edges[i].to;
            let d = dist(to);
            let ghost least = best_d;
            if d < best_d {
                best = to;
                best_d = d;
            }
            proof {
                assert(layer@[cur].contains_key(edges@[i as int].to));
                assert forall|j: int| 0 <= j < i + 1 implies no_nearer(
                    dist,
                    (#[trigger] edges@[j]).to,
                    best_d,
                ) by {
                    if j < i {
                        assert(no_nearer(dist, edges@[j].to, least));
                        let w = choose|w: u32| #[trigger]
                            measured(dist, edges@[j].to, w) && least <= w;
                        assert(measured(dist, edges@[j].to, w) && best_d <= w);
                    } else {
                        assert(measured(dist, edges@[j].to, d) && best_d <= d);
                    }
                }
            }
            i += 1;
        }
        if best_d < cur_d {
            proof {
                lemma_reaches_on(layer@, start, cur, best);
            }
            cur = best;
            cur_d = best_d;
        } else {
            proof {
                layer.lemma_wf();
                assert forall|b: Node| #[trigger] layer@[cur].contains_key(b) implies no_nearer(
                    dist,
                    b,
                    cur_d,
                ) by {
                    let j = choose|j: int| 0 <= j < edges@.len() && edges@[j] == layer@[cur][b];
                    assert(edges@[j].to == b);
                    assert(no_nearer(dist, edges@[j].to, best_d));
                }
            }
            return (cur, cur_d);
        }
    }
}


/// A walk of one node leads from every node to itself.
pub proof fn lemma_reaches_itself(g: Map<Node, Map<Node, Edge>>, a: Node)
    requires
        g.contains_key(a),
    ensures
        reachable(g, a, a),
{
    let q = seq![a];
    assert(walk(g, q) && q[0] == a && q.last() == a);
}

/// A walk that leads to `b` leads on to every node that an edge leads to
/// from `b`.
pub proof fn lemma_reaches_on(g: Map<Node, Map<Node, Edge>>, a: Node, b: Node, c: Node)
    requires
        reachable(g, a, b),
        g[b].contains_key(c),
        g.contains_key(c),
    ensures
        reachable(g, a, c),
{
    let p = choose|p: Seq<Node>| #[trigger] walk(g, p) && p[0] == a && p.last() == b;
    let q = p.push(c);
    assert forall|i: int| 0 <= i < q.len() implies g.contains_key(#[trigger] q[i]) by {
        if i < p.len() {
            assert(q[i] == p[i]);
        }
    }
    assert forall|i: int| 0 <= i < q.len() - 1 implies #[trigger] follows(g, q, i) by {
        if i < p.len() - 1 {
            assert(follows(g, p, i));
            assert(q[i] == p[i] && q[i + 1] == p[i + 1]);
        } else {
            assert(q[i] == b && q[i + 1] == c);
        }
    }
    assert(walk(g, q) && q[0] == a && q.last() == c);
}

/// A set of numbers whose nodes all belong to `g` is no larger than `g`.
proof fn lemma_seen_bounded(seen: Set<u128>, g: Map<Node, Map<Node, Edge>>)
    requires
        seen.finite(),
        g.dom().finite(),
        forall|k: u128| seen.contains(k) ==> g.contains_key(#[trigger] Node::of_key(k)),
    ensures
        seen.len() <= g.len(),
{
    Node::lemma_key_bijective();
    let f = |k: u128| Node::of_key(k);
    lemma_map_size(seen, seen.map(f), f);
    assert(seen.map(f).subset_of(g.dom()));
    lemma_len_subset(seen.map(f), g.dom());
}

/// A hash set holds finitely many numbers.
proof fn lemma_seen_finite(seen: &HashSet<u128>)
    ensures
        seen@.finite(),
{
    let keys = seen.iter().remaining().unref();
    vstd::seq_lib::seq_to_set_is_finite(keys);
    assert(keys.to_set() == seen@);
}

/// `p` is an entry of `list`.
pub open spec fn holds(list: Seq<(Node, u32)>, p: (Node, u32)) -> bool {
    exists|i: int| 0 <= i < list.len() && #[trigger] list[i] == p
}

/// No entry of `list` is farther than `d`.
pub open spec fn covers(list: Seq<(Node, u32)>, d: u32) -> bool {
    forall|i: int| 0 <= i < list.len() ==> (#[trigger] list[i]).1 <= d
}

/// `n` has its due in a list `r` of at most `k` nodes: it is in the list,
/// or the list is full and `n` is no nearer than any node in it.
pub open spec fn ranked<F: Fn(Node) -> u32>(r: Seq<(Node, u32)>, n: Node, k: nat, dist: &F) -> bool {
    among(r, n) || (r.len() == k && exists|d: u32| #[trigger] measured(dist, n, d) && covers(r, d))
}

/// A list of at most `k` nodes is settled in `g`: every node that an edge
/// leads to from a node of the list, and that is not marked as removed, has
/// its due in the list.
pub open spec fn settled<F: Fn(Node) -> u32>(
    g: Map<Node, Map<Node, Edge>>,
    r: Seq<(Node, u32)>,
    k: nat,
    dist: &F,
    visible: Seq<DeleteLog>,
) -> bool {
    forall|i: int, b: Node|
        0 <= i < r.len() && #[trigger] g[r[i].0].contains_key(b) && !tombstoned(visible, b)
            ==> ranked(r, b, k, dist)
}

/// Takes `(node, d)` into a list of the nearest nodes that has room for it
/// or holds a farther node, and drops the farthest entry where the list then
/// has more than `ef` entries.
pub fn take_in(found: &mut Vec<(Node, u32)>, node: Node, d: u32, ef: usize)
    requires
        ef >= 1,
        old(found)@.len() <= ef,
        ascending(old(found)@),
        distinct_nodes(old(found)@),
        !among(old(found)@, node),
        old(found)@.len() < ef || d < old(found)@.last().1,
    ensures
        1 <= final(found)@.len() <= ef,
        final(found)@.len() == (if old(found)@.len() < ef {
            old(found)@.len() + 1
        } else {
            ef as nat
        }),
        ascending(final(found)@),
        distinct_nodes(final(found)@),
        forall|p: (Node, u32)| #[trigger]
            holds(final(found)@, p) ==> holds(old(found)@, p) || p == (node, d),
        forall|p: (Node, u32)|
            #![trigger holds(old(found)@, p)]
            #![trigger holds(final(found)@, p)]
            holds(old(found)@, p) || p == (node, d) ==> holds(final(found)@, p) || (covers(
                final(found)@,
                p.1,
            ) && final(found)@.len() == ef),
        old(found)@.len() >= 1 ==> final(found)@[0].1 <= old(found)@[0].1,
        final(found)@[0].1 <= d,
{
    let ghost prior = found@;
    let p = place(found, node, d);
    let ghost grown = found@;
    proof {
        assert forall|a: int, b: int| 0 <= a < b < grown.len() implies (#[trigger] grown[a]).0 != (
        #[trigger] grown[b]).0 by {
            if a != p && b != p {
                let a0 = if a < p { a } else { a - 1 };
                let b0 = if b < p { b } else { b - 1 };
                assert(prior[a0].0 != prior[b0].0);
            } else if a == p {
                assert(prior[b - 1].0 != node);
            } else {
                assert(prior[a].0 != node);
            }
        }
        assert forall|q: (Node, u32)| holds(prior, q) || q == (node, d) implies holds(grown, q) by {
            if q == (node, d) {
                assert(grown[p as int] == q);
            } else {
                let w = choose|w: int| 0 <= w < prior.len() && #[trigger] prior[w] == q;
                if w < p {
                    assert(grown[w] == q);
                } else {
                    assert(grown[w + 1] == q);
                }
            }
        }
        assert forall|q: (Node, u32)| holds(grown, q) implies holds(prior, q) || q == (node, d) by {
            let w = choose|w: int| 0 <= w < grown.len() && #[trigger] grown[w] == q;
            if w < p {
                assert(prior[w] == q);
            } else if w > p {
                assert(prior[w - 1] == q);
            }
        }
        if prior.len() >= 1 {
            if p == 0 {
                assert(grown[1] == prior[0]);
            } else {
                assert(grown[0] == prior[0]);
            }
        }
        assert(grown[0].1 <= grown[p as int].1);
    }
    if found.len() > ef {
        found.pop();
        proof {
            let kept = found@;
            assert(kept =~= grown.drop_last());
            assert forall|q: (Node, u32)| holds(grown, q) implies holds(kept, q) || (kept.len()
                == ef && covers(kept, q.1)) by {
                let w = choose|w: int| 0 <= w < grown.len() && #[trigger] grown[w] == q;
                if w < kept.len() {
                    assert(kept[w] == q);
                } else {
                    assert forall|x: int| 0 <= x < kept.len() implies (#[trigger] kept[x]).1
                        <= q.1 by {
                        assert(grown[x].1 <= grown[w].1);
                    }
                }
            }
            assert forall|q: (Node, u32)| holds(kept, q) implies holds(grown, q) by {
                let w = choose|w: int| 0 <= w < kept.len() && #[trigger] kept[w] == q;
                assert(grown[w] == q);
            }
            assert(kept[0] == grown[0]);
        }
    }
}

/// Searches `layer` from `start` outwards and keeps the `ef` nearest nodes it
/// meets that are not marked as removed, the nearest first.
///
/// The search goes through removed nodes as through any other; it keeps them
/// out of what it hands back. It ends when no node that is still to be looked
/// at is as near as the farthest node kept; the list is then settled. Where
/// `ef` exceeds the number of nodes of the layer, nothing is ever dropped
/// from the list, and the search meets every node that can be reached from
/// `start`.
#[verifier::rlimit(40)]
pub fn beam<F: Fn(Node) -> u32>(
    layer: &GraphLayer,
    start: Node,
    start_d: u32,
    dist: &F,
    ef: usize,
    visible: &[DeleteLog],
) -> (found: Vec<(Node, u32)>)
    requires
        layer.wf(),
        no_dangling(layer@),
        layer@.contains_key(start),
        measured(dist, start, start_d),
        total(dist),
    ensures
        found@.len() <= ef,
        ascending(found@),
        distinct_nodes(found@),
        forall|i: int|
            0 <= i < found@.len() ==> layer@.contains_key((#[trigger] found@[i]).0) && !tombstoned(
                visible@,
                found@[i].0,
            ) && measured(dist, found@[i].0, found@[i].1),
        forall|i: int| 0 <= i < found@.len() ==> reachable(layer@, start, (#[trigger] found@[i]).0),
        ef >= 1 && !tombstoned(visible@, start) ==> found@.len() >= 1 && found@[0].1 <= start_d,
        settled(layer@, found@, ef as nat, dist, visible@),
        ef > layer@.len() ==> forall|n: Node|
            reachable(layer@, start, n) && !tombstoned(visible@, n) ==> #[trigger] among(found@, n),
{
    let mut found: Vec<(Node, u32)> = Vec::new();
    if ef == 0 {
        return found;
    }
    let mut visited: HashSet<u128> = HashSet::new();
    let mut cands: Vec<(Node, u32)> = Vec::new();
    let ghost mut done: Set<Node> = Set::empty();
    visited.insert(start.packed());
    cands.push((start, start_d));
    if !is_tombstoned(visible, start) {
        found.push((start, start_d));
    }
    proof {
        Node::lemma_key_bijective();
        layer.lemma_wf();
        lemma_seen_finite(&visited);
        assert(cands@[0] == (start, start_d));
        if !tombstoned(visible@, start) {
            assert(found@[0] == (start, start_d));
        }
        lemma_reaches_itself(layer@, start);
        assert forall|n: Node| visited@.contains(n.key()) implies n == start by {}
    }
    while cands.len() > 0
        invariant
            ef >= 1,
            layer.wf(),
            no_dangling(layer@),
            total(dist),
            layer@.dom().finite(),
            visited@.contains(start.key()),
            forall|k: u128| visited@.contains(k) ==> layer@.contains_key(#[trigger] Node::of_key(k)),
            forall|k: u128|
                visited@.contains(k) ==> reachable(layer@, start, #[trigger] Node::of_key(k)),
            forall|i: int|
                0 <= i < cands@.len() ==> visited@.contains((#[trigger] cands@[i]).0.key())
                    && layer@.contains_key(cands@[i].0),
            found@.len() <= ef,
            found@.len() <= visited@.len(),
            ascending(found@),
            distinct_nodes(found@),
            forall|i: int|
                0 <= i < found@.len() ==> visited@.contains((#[trigger] found@[i]).0.key())
                    && layer@.contains_key(found@[i].0) && !tombstoned(visible@, found@[i].0)
                    && measured(dist, found@[i].0, found@[i].1),
            !tombstoned(visible@, start) ==> found@.len() >= 1 && found@[0].1 <= start_d,
            forall|a: Node, b: Node|
                done.contains(a) && layer@.contains_key(a) && #[trigger] layer@[a].contains_key(b)
                    ==> visited@.contains(b.key()),
            forall|i: int|
                0 <= i < found@.len() ==> done.contains((#[trigger] found@[i]).0) || holds(
                    cands@,
                    found@[i],
                ),
            forall|n: Node|
                visited@.contains(n.key()) && !tombstoned(visible@, n) ==> #[trigger] ranked(
                    found@,
                    n,
                    ef as nat,
                    dist,
                ),
            ef > layer@.len() ==> forall|n: Node|
                visited@.contains(n.key()) ==> done.contains(n) || #[trigger] among(cands@, n),
        decreases 2 * (layer@.len() - visited@.len()) + cands@.len(),
    {
        proof {
            lemma_seen_finite(&visited);
            lemma_seen_bounded(visited@, layer@);
        }
        let ghost before = 2 * (layer@.len() - visited@.len()) + cands@.len();
        let ghost waiting = cands@;
        let at = nearest_index(&cands);
        let (c, c_d) = cands.swap_remove(at);
        proof {
            assert(waiting[at as int] == (c, c_d));
            assert forall|p: (Node, u32)| holds(waiting, p) implies holds(cands@, p) || p == (
                c,
                c_d,
            ) by {
                let w = choose|w: int| 0 <= w < waiting.len() && #[trigger] waiting[w] == p;
                if w == at {
                } else if w == waiting.len() - 1 {
                    assert(cands@[at as int] == p);
                } else {
                    assert(cands@[w] == p);
                }
            }
            assert forall|n: Node| among(waiting, n) && n != c implies among(cands@, n) by {
                let w = choose|w: int| 0 <= w < waiting.len() && (#[trigger] waiting[w]).0 == n;
                assert(holds(waiting, waiting[w]));
                let x = choose|x: int| 0 <= x < cands@.len() && #[trigger] cands@[x] == waiting[w];
                assert(cands@[x].0 == n);
            }
        }
        if found.len() >= ef && c_d > found[found.len() - 1].1 {
            proof {
                assert forall|i: int| 0 <= i < found@.len() implies done.contains(
                    (#[trigger] found@[i]).0,
                ) by {
                    if holds(waiting, found@[i]) {
                        let w = choose|w: int|
                            0 <= w < waiting.len() && #[trigger] waiting[w] == found@[i];
                        assert(waiting[at as int].1 <= waiting[w].1);
                        assert(found@[i].1 <= found@[found@.len() - 1].1);
                    }
                }
                lemma_settled(layer@, found@, ef as nat, dist, visible@, done, visited@);
                assert forall|i: int| 0 <= i < found@.len() implies reachable(
                    layer@,
                    start,
                    (#[trigger] found@[i]).0,
                ) by {
                    Node::lemma_key_bijective();
                    let n = found@[i].0;
                    assert(visited@.contains(n.key()));
                    assert(Node::of_key(n.key()) == n);
                }
            }
            return found;
        }
        let edges = layer.get_edges(c);
        let mut i: usize = 0;
        proof {
            assert forall|x: int| 0 <= x < found@.len() implies done.contains(
                (#[trigger] found@[x]).0,
            ) || found@[x] == (c, c_d) || holds(cands@, found@[x]) by {
                if !done.contains(found@[x].0) {
                    assert(holds(waiting, found@[x]));
                }
            }
            if ef > layer@.len() {
                assert forall|n: Node| visited@.contains(n.key()) implies done.contains(n) || n
                    == c || among(cands@, n) by {
                    if !done.contains(n) && n != c {
                        assert(among(waiting, n));
                    }
                }
            }
        }
        while i < edges.len()
            invariant
                ef >= 1,
                layer.wf(),
                no_dangling(layer@),
                total(dist),
                layer@.dom().finite(),
                layer@.contains_key(c),
                lists_bucket(edges@, layer@[c]),
                0 <= i <= edges@.len(),
                visited@.finite(),
                visited@.len() <= layer@.len(),
                visited@.contains(start.key()),
                visited@.contains(c.key()),
                forall|k: u128|
                    visited@.contains(k) ==> reachable(layer@, start, #[trigger] Node::of_key(k)),
                2 * (layer@.len() - visited@.len()) + cands@.len() < before,
                forall|k: u128|
                    visited@.contains(k) ==> layer@.contains_key(#[trigger] Node::of_key(k)),
                forall|i: int|
                    0 <= i < cands@.len() ==> visited@.contains((#[trigger] cands@[i]).0.key())
                        && layer@.contains_key(cands@[i].0),
                found@.len() <= ef,
                found@.len() <= visited@.len(),
                ascending(found@),
                distinct_nodes(found@),
                forall|i: int|
                    0 <= i < found@.len() ==> visited@.contains((#[trigger] found@[i]).0.key())
                        && layer@.contains_key(found@[i].0) && !tombstoned(visible@, found@[i].0)
                        && measured(dist, found@[i].0, found@[i].1),
                !tombstoned(visible@, start) ==> found@.len() >= 1 && found@[0].1 <= start_d,
                forall|a: Node, b: Node|
                    done.contains(a) && layer@.contains_key(a) && #[trigger] layer@[a].contains_key(
                        b,
                    ) ==> visited@.contains(b.key()),
                forall|j: int| 0 <= j < i ==> visited@.contains((#[trigger] edges@[j]).to.key()),
                forall|x: int|
                    0 <= x < found@.len() ==> done.contains((#[trigger] found@[x]).0) || found@[x]
                        == (c, c_d) || holds(cands@, found@[x]),
                forall|n: Node|
                    visited@.contains(n.key()) && !tombstoned(visible@, n) ==> #[trigger] ranked(
                        found@,
                        n,
                        ef as nat,
                        dist,
                    ),
                ef > layer@.len() ==> forall|n: Node|
                    visited@.contains(n.key()) ==> done.contains(n) || n == c || #[trigger] among(
                        cands@,
                        n,
                    ),
            decreases edges@.len() - i,
        {
            let to = edges[i].to;
            let k = to.packed();
            if !visited.contains(&k) {
                proof {
                    Node::lemma_key_bijective();
                    assert(layer@[c].contains_key(edges@[i as int].to));
                }
                let ghost seen = visited@;
                visited.insert(k);
                proof {
                    lemma_seen_finite(&visited);
                    lemma_seen_bounded(visited@, layer@);
                    assert(visited@.len() == seen.len() + 1);
                    assert(reachable(layer@, start, Node::of_key(c.key())));
                    lemma_reaches_on(layer@, start, c, to);
                }
                let d = dist(to);
                let ghost queued = cands@;
                let ghost prior = found@;
                let live = !is_tombstoned(visible, to);
                let accepted = found.len() < ef || d < found[found.len() - 1].1;
                if accepted {
                    cands.push((to, d));
                    proof {
                        assert(cands@[queued.len() as int] == (to, d));
                        assert forall|p: (Node, u32)| holds(queued, p) implies holds(cands@, p) by {
                            let w = choose|w: int| 0 <= w < queued.len() && #[trigger] queued[w] == p;
                            assert(cands@[w] == p);
                        }
                        assert forall|n: Node| among(queued, n) implies among(cands@, n) by {
                            let w = choose|w: int|
                                0 <= w < queued.len() && (#[trigger] queued[w]).0 == n;
                            assert(cands@[w].0 == n);
                        }
                    }
                    if live {
                        proof {
                            if among(prior, to) {
                                let w = choose|w: int|
                                    0 <= w < prior.len() && (#[trigger] prior[w]).0 == to;
                                assert(seen.contains(prior[w].0.key()));
                            }
                        }
                        take_in(&mut found, to, d, ef);
                    }
                }
                proof {
                    let kept = found@;
                    assert forall|x: int| 0 <= x < kept.len() implies visited@.contains(
                        (#[trigger] kept[x]).0.key(),
                    ) && layer@.contains_key(kept[x].0) && !tombstoned(visible@, kept[x].0)
                        && measured(dist, kept[x].0, kept[x].1) && (done.contains(kept[x].0)
                        || kept[x] == (c, c_d) || holds(cands@, kept[x])) by {
                        assert(holds(kept, kept[x]));
                        if kept[x] != (to, d) || !(accepted && live) {
                            assert(holds(prior, kept[x]));
                            let w = choose|w: int|
                                0 <= w < prior.len() && #[trigger] prior[w] == kept[x];
                            if !done.contains(prior[w].0) && prior[w] != (c, c_d) {
                                assert(holds(queued, prior[w]));
                            }
                        } else {
                            assert(holds(cands@, (to, d)));
                        }
                    }
                    if !tombstoned(visible@, start) {
                        assert(kept.len() >= 1 && kept[0].1 <= start_d);
                    }
                    assert forall|n: Node|
                        visited@.contains(n.key()) && !tombstoned(visible@, n) implies #[trigger] ranked(
                        kept,
                        n,
                        ef as nat,
                        dist,
                    ) by {
                        lemma_still_ranked(
                            prior,
                            kept,
                            n,
                            to,
                            d,
                            ef as nat,
                            dist,
                            accepted && live,
                            seen.contains(n.key()),
                        );
                    }
                    if ef > layer@.len() {
                        assert(accepted);
                        assert(among(cands@, to));
                        assert forall|n: Node| visited@.contains(n.key()) implies done.contains(n)
                            || n == c || among(cands@, n) by {
                            if n != to {
                                assert(seen.contains(n.key()));
                                if !done.contains(n) && n != c {
                                    assert(among(queued, n));
                                }
                            }
                        }
                    }
                }
            }
            i += 1;
        }
        proof {
            let grown = done.insert(c);
            layer.lemma_wf();
            assert forall|a: Node, b: Node|
                grown.contains(a) && layer@.contains_key(a) && #[trigger] layer@[a].contains_key(
                    b,
                ) implies visited@.contains(b.key()) by {
                if a == c && !done.contains(a) {
                    let j = choose|j: int| 0 <= j < edges@.len() && edges@[j] == layer@[c][b];
                    assert(edges@[j].to == b);
                }
            }
            done = grown;
        }
    }
    proof {
        assert forall|i: int| 0 <= i < found@.len() implies done.contains(
            (#[trigger] found@[i]).0,
        ) by {
            if holds(cands@, found@[i]) {
                let w = choose|w: int| 0 <= w < cands@.len() && #[trigger] cands@[w] == found@[i];
            }
        }
        lemma_settled(layer@, found@, ef as nat, dist, visible@, done, visited@);
        assert forall|i: int| 0 <= i < found@.len() implies reachable(
            layer@,
            start,
            (#[trigger] found@[i]).0,
        ) by {
            Node::lemma_key_bijective();
            let n = found@[i].0;
            assert(visited@.contains(n.key()));
            assert(Node::of_key(n.key()) == n);
        }
        if ef > layer@.len() {
            assert forall|n: Node|
                reachable(layer@, start, n) && !tombstoned(visible@, n) implies #[trigger] among(
                found@,
                n,
            ) by {
                let path = choose|path: Seq<Node>|
                    #[trigger] walk(layer@, path) && path[0] == start && path.last() == n;
                let met = Set::new(|x: Node| visited@.contains(x.key()));
                assert forall|a: Node, b: Node|
                    met.contains(a) && layer@.contains_key(a) && #[trigger] layer@[a].contains_key(
                        b,
                    ) implies met.contains(b) by {
                    assert(done.contains(a) || among(cands@, a));
                    if among(cands@, a) {
                        let w = choose|w: int| 0 <= w < cands@.len() && (#[trigger] cands@[w]).0 == a;
                    }
                }
                lemma_closed_holds_walk(layer@, met, path, path.len() - 1);
                assert(met.contains(n));
                assert(ranked(found@, n, ef as nat, dist));
                lemma_seen_finite(&visited);
                lemma_seen_bounded(visited@, layer@);
            }
        }
    }
    found
}

/// A list whose nodes have all been looked at, in a search that gave every
/// node it met its due in the list, is settled.
proof fn lemma_settled<F: Fn(Node) -> u32>(
    g: Map<Node, Map<Node, Edge>>,
    found: Seq<(Node, u32)>,
    ef: nat,
    dist: &F,
    visible: Seq<DeleteLog>,
    done: Set<Node>,
    visited: Set<u128>,
)
    requires
        forall|i: int| 0 <= i < found.len() ==> done.contains((#[trigger] found[i]).0) && g.contains_key(
            found[i].0,
        ),
        forall|a: Node, b: Node|
            done.contains(a) && g.contains_key(a) && #[trigger] g[a].contains_key(b)
                ==> visited.contains(b.key()),
        forall|n: Node|
            visited.contains(n.key()) && !tombstoned(visible, n) ==> #[trigger] ranked(
                found,
                n,
                ef,
                dist,
            ),
    ensures
        settled(g, found, ef, dist, visible),
{
    assert forall|i: int, b: Node|
        0 <= i < found.len() && #[trigger] g[found[i].0].contains_key(b) && !tombstoned(
            visible,
            b,
        ) implies ranked(found, b, ef, dist) by {
        assert(done.contains(found[i].0));
        assert(visited.contains(b.key()));
    }
}

/// A node that had its due in the list before a node was met has its due in
/// the list after, and so has the node that was met.
proof fn lemma_still_ranked<F: Fn(Node) -> u32>(
    prior: Seq<(Node, u32)>,
    kept: Seq<(Node, u32)>,
    n: Node,
    to: Node,
    d: u32,
    ef: nat,
    dist: &F,
    taken: bool,
    old_node: bool,
)
    requires
        ef >= 1,
        prior.len() <= ef,
        ascending(prior),
        measured(dist, to, d),
        forall|i: int| 0 <= i < prior.len() ==> measured(dist, (#[trigger] prior[i]).0, prior[i].1),
        old_node ==> ranked(prior, n, ef, dist),
        !old_node ==> n == to,
        taken ==> prior.len() < ef || d < prior.last().1,
        !taken ==> kept == prior,
        !taken && !old_node ==> prior.len() >= ef && d >= prior.last().1,
        taken ==> kept.len() == (if prior.len() < ef { prior.len() + 1 } else { ef }),
        taken ==> forall|p: (Node, u32)| #[trigger] holds(kept, p) ==> holds(prior, p) || p == (to, d),
        taken ==> forall|p: (Node, u32)|
            #![trigger holds(prior, p)]
            #![trigger holds(kept, p)]
            holds(prior, p) || p == (to, d) ==> holds(kept, p) || (kept.len() == ef && covers(
                kept,
                p.1,
            )),
    ensures
        ranked(kept, n, ef, dist),
{
    if !old_node {
        if taken {
            assert(holds(kept, (to, d)) || (kept.len() == ef && covers(kept, d)));
            if holds(kept, (to, d)) {
                let w = choose|w: int| 0 <= w < kept.len() && #[trigger] kept[w] == (to, d);
                assert(kept[w].0 == to);
            }
        } else {
            assert forall|i: int| 0 <= i < prior.len() implies (#[trigger] prior[i]).1 <= d by {
                assert(prior[i].1 <= prior[prior.len() - 1].1);
            }
        }
    } else if taken {
        if among(prior, n) {
            let w = choose|w: int| 0 <= w < prior.len() && (#[trigger] prior[w]).0 == n;
            let p = prior[w];
            assert(holds(prior, p));
            assert(holds(kept, p) || (kept.len() == ef && covers(kept, p.1)));
            if holds(kept, p) {
                let x = choose|x: int| 0 <= x < kept.len() && #[trigger] kept[x] == p;
                assert(kept[x].0 == n);
            } else {
                assert(measured(dist, n, p.1));
            }
        } else {
            let dn = choose|dn: u32| #[trigger] measured(dist, n, dn) && covers(prior, dn);
            assert(prior.len() == ef);
            assert(prior[prior.len() - 1].1 <= dn);
            assert forall|i: int| 0 <= i < kept.len() implies (#[trigger] kept[i]).1 <= dn by {
                assert(holds(kept, kept[i]));
                if kept[i] != (to, d) {
                    assert(holds(prior, kept[i]));
                    let w = choose|w: int| 0 <= w < prior.len() && #[trigger] prior[w] == kept[i];
                }
            }
            assert(measured(dist, n, dn) && covers(kept, dn));
        }
    }
}

} // verus!
