//! Looking a layer over: whether it has the shape that the layers of an
//! index have.
use crate::delete_log::DeleteLog;
use crate::elements::Node;
use crate::layer::{lists_bucket, no_dangling, GraphLayer};
use crate::linking::{knit, tidy, LayerMap};
use crate::traversal::{among, beam, distinct_nodes, reachable, tombstoned};
use vstd::prelude::*;
use vstd::set_lib::{lemma_len_subset, lemma_subset_equality};

verus! {

/// The bucket of `a` is in order: every edge in it is filed under the node
/// it leaves and the node it leads to, leads to a node of `g` other than
/// `a`, and there are no more than `cap` of them.
pub open spec fn bucket_tidy(g: LayerMap, a: Node, cap: nat) -> bool {
    &&& g[a].dom().finite()
    &&& g[a].len() <= cap
    &&& forall|b: Node| #[trigger]
        g[a].contains_key(b) ==> g.contains_key(b) && g[a][b].from == a && g[a][b].to == b && a
            != b
}

/// A layer is tidy exactly when it is finite and each of its buckets is in
/// order.
pub proof fn lemma_tidy_by_buckets(g: LayerMap, cap: nat)
    ensures
        tidy(g, cap) <==> g.dom().finite() && forall|a: Node| #[trigger]
            g.contains_key(a) ==> bucket_tidy(g, a, cap),
{
    if tidy(g, cap) {
        assert forall|a: Node| #[trigger] g.contains_key(a) implies bucket_tidy(g, a, cap) by {
            assert forall|b: Node| #[trigger] g[a].contains_key(b) implies g.contains_key(b)
                && g[a][b].from == a && g[a][b].to == b && a != b by {}
        }
    }
    if g.dom().finite() && forall|a: Node| #[trigger] g.contains_key(a) ==> bucket_tidy(g, a, cap) {
        assert forall|a: Node, b: Node| #[trigger]
            g.contains_key(a) && #[trigger] g[a].contains_key(b) implies g.contains_key(b)
            && g[a][b].from == a && g[a][b].to == b && a != b by {
            assert(bucket_tidy(g, a, cap));
        }
        assert forall|a: Node| #[trigger] g.contains_key(a) implies g[a].dom().finite()
            && g[a].len() <= cap by {
            assert(bucket_tidy(g, a, cap));
        }
    }
}

/// A list without a node twice, of nodes of a layer, is no longer than the
/// layer has nodes, and as long exactly when it holds every node.
pub proof fn lemma_full_list(found: Seq<(Node, u32)>, g: LayerMap)
    requires
        g.dom().finite(),
        distinct_nodes(found),
        forall|i: int| 0 <= i < found.len() ==> g.contains_key((#[trigger] found[i]).0),
    ensures
        found.len() <= g.len(),
        found.len() == g.len() <==> forall|b: Node| g.contains_key(b) ==> #[trigger] among(found, b),
{
    let names = found.map_values(|p: (Node, u32)| p.0);
    assert(names.no_duplicates()) by {
        assert forall|i: int, j: int| 0 <= i < names.len() && 0 <= j < names.len() && i
            != j implies names[i] != names[j] by {
            if i < j {
                assert(found[i].0 != found[j].0);
            } else {
                assert(found[j].0 != found[i].0);
            }
        }
    }
    names.unique_seq_to_set();
    let s = names.to_set();
    assert(s.subset_of(g.dom())) by {
        assert forall|b: Node| s.contains(b) implies g.dom().contains(b) by {
            let i = choose|i: int| 0 <= i < names.len() && names[i] == b;
            assert(found[i].0 == b);
        }
    }
    lemma_len_subset(s, g.dom());
    if found.len() == g.len() {
        lemma_subset_equality(s, g.dom());
        assert forall|b: Node| g.contains_key(b) implies #[trigger] among(found, b) by {
            assert(s.contains(b));
            let i = choose|i: int| 0 <= i < names.len() && names[i] == b;
            assert(found[i].0 == b);
        }
    }
    if forall|b: Node| g.contains_key(b) ==> #[trigger] among(found, b) {
        assert(g.dom().subset_of(s)) by {
            assert forall|b: Node| g.dom().contains(b) implies s.contains(b) by {
                assert(among(found, b));
                let i = choose|i: int| 0 <= i < found.len() && (#[trigger] found[i]).0 == b;
                assert(names[i] == b);
            }
        }
        lemma_len_subset(g.dom(), s);
    }
}

/// Whether `layer` is tidy with buckets of no more than `cap` edges.
pub fn is_tidy(layer: &GraphLayer, cap: usize) -> (r: bool)
    requires
        layer.wf(),
    ensures
        r == tidy(layer@, cap as nat),
{
    let nodes = layer.nodes();
    proof {
        layer.lemma_wf();
        lemma_tidy_by_buckets(layer@, cap as nat);
    }
    let mut i: usize = 0;
    while i < nodes.len()
        invariant
            layer.wf(),
            0 <= i <= nodes@.len(),
            layer@.dom().finite(),
            forall|n: Node| nodes@.contains(n) <==> layer@.contains_key(n),
            forall|j: int| 0 <= j < i ==> bucket_tidy(layer@, #[trigger] nodes@[j], cap as nat),
            tidy(layer@, cap as nat) <==> layer@.dom().finite() && forall|a: Node| #[trigger]
                layer@.contains_key(a) ==> bucket_tidy(layer@, a, cap as nat),
        decreases nodes@.len() - i,
    {
        let a = nodes[i];
        proof {
            assert(nodes@.contains(nodes@[i as int]));
            layer.lemma_wf();
        }
        let edges = layer.get_edges(a);
        if edges.len() > cap {
            proof {
                assert(!bucket_tidy(layer@, a, cap as nat));
            }
            return false;
        }
        let mut j: usize = 0;
        while j < edges.len()
            invariant
                layer.wf(),
                layer@.contains_key(a),
                lists_bucket(edges@, layer@[a]),
                0 <= j <= edges@.len(),
                forall|x: int|
                    0 <= x < j ==> layer@.contains_key((#[trigger] edges@[x]).to) && edges@[x].from
                        == a && edges@[x].to != a,
                tidy(layer@, cap as nat) <==> layer@.dom().finite() && forall|a: Node| #[trigger]
                    layer@.contains_key(a) ==> bucket_tidy(layer@, a, cap as nat),
            decreases edges@.len() - j,
        {
            let e = edges[j];
            if !layer.has_node(e.to) || e.from != a || e.to == a {
                proof {
                    assert(layer@[a].contains_key(edges@[j as int].to));
                    assert(!bucket_tidy(layer@, a, cap as nat));
                }
                return false;
            }
            j += 1;
        }
        proof {
            assert forall|b: Node| #[trigger] layer@[a].contains_key(b) implies layer@.contains_key(
                b,
            ) && layer@[a][b].from == a && layer@[a][b].to == b && a != b by {
                let x = choose|x: int| 0 <= x < edges@.len() && edges@[x] == layer@[a][b];
                assert(layer@.contains_key(edges@[x].to));
            }
        }
        i += 1;
    }
    proof {
        assert forall|a: Node| #[trigger] layer@.contains_key(a) implies bucket_tidy(
            layer@,
            a,
            cap as nat,
        ) by {
            assert(nodes@.contains(a));
            let j = choose|j: int| 0 <= j < nodes@.len() && nodes@[j] == a;
            assert(bucket_tidy(layer@, nodes@[j], cap as nat));
        }
    }
    true
}

/// Whether every node of `upper` is a node of `lower`.
pub fn is_nested(lower: &GraphLayer, upper: &GraphLayer) -> (r: bool)
    requires
        lower.wf(),
        upper.wf(),
    ensures
        r == forall|n: Node| #[trigger] upper@.contains_key(n) ==> lower@.contains_key(n),
{
    let nodes = upper.nodes();
    let mut i: usize = 0;
    while i < nodes.len()
        invariant
            0 <= i <= nodes@.len(),
            forall|n: Node| nodes@.contains(n) <==> upper@.contains_key(n),
            forall|j: int| 0 <= j < i ==> lower@.contains_key(#[trigger] nodes@[j]),
        decreases nodes@.len() - i,
    {
        if !lower.has_node(nodes[i]) {
            proof {
                assert(nodes@.contains(nodes@[i as int]));
            }
            return false;
        }
        i += 1;
    }
    proof {
        assert forall|n: Node| #[trigger] upper@.contains_key(n) implies lower@.contains_key(n) by {
            assert(nodes@.contains(n));
            let j = choose|j: int| 0 <= j < nodes@.len() && nodes@[j] == n;
            assert(lower@.contains_key(nodes@[j]));
        }
    }
    true
}

/// Whether `layer` is knit: whether, where it has no more than `cap + 1`
/// nodes, a walk leads from each of its nodes to each of its nodes.
pub fn is_knit(layer: &GraphLayer, cap: usize) -> (r: bool)
    requires
        layer.wf(),
        no_dangling(layer@),
        cap < usize::MAX - 1,
    ensures
        r == knit(layer@, cap as nat),
{
    let n = layer.no_nodes();
    if n > cap + 1 {
        return true;
    }
    let nodes = layer.nodes();
    let zero = |x: Node| -> (d: u32) { 0u32 };
    let none: Vec<DeleteLog> = Vec::new();
    proof {
        layer.lemma_wf();
    }
    let mut i: usize = 0;
    while i < nodes.len()
        invariant
            layer.wf(),
            no_dangling(layer@),
            layer@.dom().finite(),
            n == layer@.len(),
            n <= cap + 1,
            cap < usize::MAX - 1,
            none@.len() == 0,
            forall|x: Node| #[trigger] zero.requires((x,)),
            0 <= i <= nodes@.len(),
            forall|x: Node| nodes@.contains(x) <==> layer@.contains_key(x),
            forall|j: int, b: Node|
                0 <= j < i && layer@.contains_key(b) ==> #[trigger] reachable(
                    layer@,
                    nodes@[j],
                    b,
                ),
        decreases nodes@.len() - i,
    {
        let s = nodes[i];
        proof {
            assert(nodes@.contains(nodes@[i as int]));
        }
        let d = zero(s);
        let found = beam(layer, s, d, &zero, n + 1, none.as_slice());
        proof {
            lemma_full_list(found@, layer@);
        }
        if found.len() != n {
            proof {
                let b = choose|b: Node| layer@.contains_key(b) && !among(found@, b);
                assert(!tombstoned(none@, b));
                assert(!reachable(layer@, s, b));
            }
            return false;
        }
        proof {
            assert forall|b: Node| layer@.contains_key(b) implies reachable(layer@, s, b) by {
                assert(among(found@, b));
                let x = choose|x: int| 0 <= x < found@.len() && (#[trigger] found@[x]).0 == b;
                assert(reachable(layer@, s, found@[x].0));
            }
        }
        i += 1;
    }
    proof {
        assert forall|a: Node, b: Node| #[trigger]
            layer@.contains_key(a) && #[trigger] layer@.contains_key(b) implies reachable(
            layer@,
            a,
            b,
        ) by {
            assert(nodes@.contains(a));
            let j = choose|j: int| 0 <= j < nodes@.len() && nodes@[j] == a;
            assert(reachable(layer@, nodes@[j], b));
        }
    }
    true
}

} // verus!
