use nucliadb_vectors::elements::{Edge, EntryPoint, FileSegment, Node};
use nucliadb_vectors::hnsw_params::{ef_construction, k_neighbours, m, m_max};
use nucliadb_vectors::layer::GraphLayer;

fn node(i: u64) -> Node {
    Node { vector: FileSegment { start: i * 8, end: i * 8 + 8 } }
}

fn edge(a: u64, b: u64, dist: u32) -> Edge {
    Edge { from: node(a), to: node(b), dist }
}

#[test]
fn params_have_their_values() {
    assert_eq!(m(), 30);
    assert_eq!(m_max(), 30);
    assert_eq!(ef_construction(), 100);
    assert_eq!(k_neighbours(), 10);
}

#[test]
fn entry_point_from_pair() {
    let ep = EntryPoint::from((node(3), 7usize));
    assert_eq!(ep, EntryPoint { node: node(3), layer: 7 });
}

#[test]
fn node_number_round_trip() {
    let n = Node { vector: FileSegment { start: 5, end: u64::MAX } };
    let k = n.packed();
    assert_eq!(k, (5u128 << 64) + u64::MAX as u128);
    assert_eq!(Node::unpacked(k), n);
    let other = Node { vector: FileSegment { start: u64::MAX, end: 5 } };
    assert_ne!(other.packed(), k);
}

#[test]
fn new_layer_is_empty() {
    let g = GraphLayer::new();
    assert!(g.is_empty());
    assert_eq!(g.no_nodes(), 0);
    assert_eq!(g.some_node(), None);
    assert!(!g.has_node(node(0)));
    assert_eq!(g.no_edges(node(0)), 0);
}

#[test]
fn add_node_twice_keeps_edges() {
    let mut g = GraphLayer::new();
    g.add_node(node(1));
    g.add_node(node(2));
    g.add_edge(node(1), edge(1, 2, 40));
    g.add_node(node(1));
    assert_eq!(g.no_nodes(), 2);
    assert_eq!(g.no_edges(node(1)), 1);
    assert_eq!(*g.index(node(1), node(2)), edge(1, 2, 40));
    g.add_node(node(1));
    assert_eq!(g.no_edges(node(1)), 1);
}

#[test]
fn add_edge_makes_the_bucket_and_no_edge_back() {
    let mut g = GraphLayer::new();
    g.add_edge(node(1), edge(1, 2, 9));
    assert!(g.has_node(node(1)));
    assert!(!g.has_node(node(2)));
    assert_eq!(g.no_edges(node(1)), 1);
    assert_eq!(g.no_edges(node(2)), 0);
    assert_eq!(g.no_nodes(), 1);
}

#[test]
fn add_edge_overwrites_the_edge_to_the_same_node() {
    let mut g = GraphLayer::new();
    g.add_edge(node(1), edge(1, 2, 9));
    g.add_edge(node(1), edge(1, 2, 11));
    assert_eq!(g.no_edges(node(1)), 1);
    assert_eq!(g.index(node(1), node(2)).dist, 11);
}

#[test]
fn remove_edge_takes_one_edge() {
    let mut g = GraphLayer::new();
    g.add_edge(node(1), edge(1, 2, 9));
    g.add_edge(node(1), edge(1, 3, 10));
    g.remove_edge(node(1), node(2));
    assert_eq!(g.no_edges(node(1)), 1);
    assert_eq!(g.get_edges(node(1)), vec![edge(1, 3, 10)]);
    g.remove_edge(node(1), node(7));
    assert_eq!(g.no_edges(node(1)), 1);
}

#[test]
fn remove_node_leaves_incoming_edges() {
    let mut g = GraphLayer::new();
    g.add_node(node(1));
    g.add_node(node(2));
    g.add_edge(node(1), edge(1, 2, 9));
    g.add_edge(node(2), edge(2, 1, 9));
    g.remove_node(node(2));
    assert!(!g.has_node(node(2)));
    assert_eq!(g.no_nodes(), 1);
    assert_eq!(g.no_edges(node(1)), 1);
    assert_eq!(g.index(node(1), node(2)).to, node(2));
}

#[test]
fn full_disconnexion_hands_the_edges_over() {
    let mut g = GraphLayer::new();
    g.add_edge(node(1), edge(1, 2, 9));
    g.add_edge(node(1), edge(1, 3, 4));
    g.add_edge(node(2), edge(2, 1, 9));
    let taken = g.full_disconnexion(node(1));
    let mut edges = taken.into_iter();
    edges.sort_by_key(|e| e.dist);
    assert_eq!(edges, vec![edge(1, 3, 4), edge(1, 2, 9)]);
    assert!(g.has_node(node(1)));
    assert_eq!(g.no_edges(node(1)), 0);
    assert_eq!(g.no_edges(node(2)), 1);
    assert!(g.get_edges(node(1)).is_empty());
}

#[test]
fn get_edges_lists_each_edge_once() {
    let mut g = GraphLayer::new();
    for t in 2..12u64 {
        g.add_edge(node(1), edge(1, t, t as u32));
    }
    let mut edges = g.get_edges(node(1));
    edges.sort_by_key(|e| e.dist);
    assert_eq!(edges.len(), 10);
    for (i, e) in edges.iter().enumerate() {
        assert_eq!(*e, edge(1, i as u64 + 2, i as u32 + 2));
    }
}

#[test]
fn some_node_is_a_node_of_the_layer() {
    let mut g = GraphLayer::new();
    g.add_node(node(4));
    g.add_node(node(5));
    let n = g.some_node().unwrap();
    assert!(g.has_node(n));
    assert!(!g.is_empty());
}
