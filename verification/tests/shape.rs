use nucliadb_vectors::audit::{is_knit, is_nested, is_tidy};
use nucliadb_vectors::elements::{Edge, EntryPoint, FileSegment, Node};
use nucliadb_vectors::graph_log::GraphLog;
use nucliadb_vectors::hnsw_params::m_max;
use nucliadb_vectors::index::Index;
use nucliadb_vectors::layer::GraphLayer;

fn node(i: u64) -> Node {
    Node { vector: FileSegment { start: i * 8, end: i * 8 + 8 } }
}

fn edge(a: u64, b: u64, dist: u32) -> Edge {
    Edge { from: node(a), to: node(b), dist }
}

fn pair(a: u64, b: u64, dist: u32) -> GraphLayer {
    let mut g = GraphLayer::new();
    g.add_edge(node(a), edge(a, b, dist));
    g.add_edge(node(b), edge(b, a, dist));
    g
}

fn log(max_layer: u64, entry: Option<(u64, u64)>) -> GraphLog {
    GraphLog {
        version_number: 9,
        max_layer,
        entry_point: entry.map(|(n, layer)| EntryPoint { node: node(n), layer }),
    }
}

fn built(count: u64) -> Index {
    let mut index = Index::new();
    for i in 0..count {
        let layer = if i % 4 == 3 { 1 } else { 0 };
        let at = i as u32 * 10;
        let dist = move |n: Node| ((n.vector.start / 8) as u32 * 10).abs_diff(at);
        assert!(index.insert(node(i), layer, &dist));
    }
    index
}

#[test]
fn nodes_lists_each_node_once() {
    let mut g = GraphLayer::new();
    for i in 0..9u64 {
        g.add_node(node(i));
    }
    g.add_node(node(4));
    let mut nodes = g.nodes();
    nodes.sort();
    assert_eq!(nodes, (0..9u64).map(node).collect::<Vec<Node>>());
    assert!(GraphLayer::new().nodes().is_empty());
}

#[test]
fn clone_and_default_of_a_layer() {
    let g = pair(1, 2, 5);
    let h = g.clone();
    assert_eq!(h.no_nodes(), 2);
    assert_eq!(*h.index(node(1), node(2)), edge(1, 2, 5));
    assert!(GraphLayer::default().is_empty());
}

#[test]
fn a_tidy_layer_is_told_from_an_untidy_one() {
    assert!(is_tidy(&GraphLayer::new(), 30));
    assert!(is_tidy(&pair(1, 2, 5), 30));
    assert!(is_tidy(&pair(1, 2, 5), 1));
    assert!(!is_tidy(&pair(1, 2, 5), 0));
    let mut dangling = GraphLayer::new();
    dangling.add_edge(node(1), edge(1, 2, 5));
    assert!(!is_tidy(&dangling, 30));
    let mut misfiled = pair(1, 2, 5);
    misfiled.add_edge(node(1), edge(3, 2, 5));
    assert!(!is_tidy(&misfiled, 30));
    let mut to_itself = pair(1, 2, 5);
    to_itself.add_edge(node(1), edge(1, 1, 0));
    assert!(!is_tidy(&to_itself, 30));
}

#[test]
fn a_knit_layer_is_told_from_a_torn_one() {
    assert!(is_knit(&GraphLayer::new(), 30));
    assert!(is_knit(&pair(1, 2, 5), 30));
    let mut torn = pair(1, 2, 5);
    torn.add_node(node(3));
    assert!(!is_knit(&torn, 30));
    assert!(is_knit(&torn, 1));
    let mut one_way = GraphLayer::new();
    one_way.add_node(node(2));
    one_way.add_edge(node(1), edge(1, 2, 5));
    assert!(!is_knit(&one_way, 30));
}

#[test]
fn nesting_of_two_layers() {
    let lower = pair(1, 2, 5);
    let mut upper = GraphLayer::new();
    assert!(is_nested(&lower, &upper));
    upper.add_node(node(2));
    assert!(is_nested(&lower, &upper));
    upper.add_node(node(3));
    assert!(!is_nested(&lower, &upper));
}

#[test]
fn an_index_taken_apart_goes_together_again() {
    let index = built(40);
    let log = index.graph_log();
    let (layers, same_log) = index.into_parts();
    assert_eq!(same_log, log);
    assert_eq!(layers.len(), 2);
    let again = Index::from_parts(layers, log).unwrap();
    assert_eq!(again.graph_log(), log);
    assert_eq!(again.no_layers(), 2);
    for i in 0..40u64 {
        assert!(again.contains(node(i)));
    }
    let empty = Index::from_parts(Vec::new(), GraphLog::new()).unwrap();
    assert_eq!(empty.no_layers(), 0);
}

#[test]
fn parts_out_of_shape_make_no_index() {
    assert!(Index::from_parts(vec![pair(1, 2, 5)], log(0, Some((1, 0)))).is_some());
    assert!(Index::from_parts(vec![pair(1, 2, 5)], log(0, None)).is_none());
    assert!(Index::from_parts(Vec::new(), log(1, None)).is_none());
    assert!(Index::from_parts(Vec::new(), log(0, Some((1, 0)))).is_none());
    assert!(Index::from_parts(vec![pair(1, 2, 5)], log(1, Some((1, 1)))).is_none());
    assert!(Index::from_parts(vec![pair(1, 2, 5)], log(0, Some((1, 1)))).is_none());
    assert!(Index::from_parts(vec![pair(1, 2, 5)], log(0, Some((3, 0)))).is_none());
    let mut dangling = pair(1, 2, 5);
    dangling.add_edge(node(1), edge(1, 7, 5));
    assert!(Index::from_parts(vec![dangling], log(0, Some((1, 0)))).is_none());
    let mut torn = pair(1, 2, 5);
    torn.add_node(node(3));
    assert!(Index::from_parts(vec![torn], log(0, Some((1, 0)))).is_none());
    let mut upper = GraphLayer::new();
    upper.add_node(node(9));
    assert!(Index::from_parts(vec![pair(1, 2, 5), upper], log(1, Some((9, 1)))).is_none());
    let mut upper = GraphLayer::new();
    upper.add_node(node(2));
    assert!(Index::from_parts(vec![pair(1, 2, 5), upper], log(1, Some((2, 1)))).is_some());
}

#[test]
fn every_edge_of_a_built_index_joins_two_nodes_of_its_layer() {
    let index = built(120);
    for l in 0..index.no_layers() {
        let g = index.layer(l);
        let nodes = g.nodes();
        assert!(!nodes.is_empty());
        for a in nodes {
            let edges = g.get_edges(a);
            assert!(edges.len() <= m_max());
            assert!(!edges.is_empty());
            for e in edges {
                assert_eq!(e.from, a);
                assert!(e.to != a);
                assert!(g.has_node(e.to));
                assert!(g.has_node(e.from));
                let at = (a.vector.start / 8) as u32 * 10;
                let to = (e.to.vector.start / 8) as u32 * 10;
                assert_eq!(e.dist, at.abs_diff(to));
            }
            if l > 0 {
                assert!(index.layer(l - 1).has_node(a));
            }
        }
        assert!(is_tidy(g, m_max()));
    }
    assert_eq!(index.layer(0).no_nodes(), 120);
    assert_eq!(index.layer(1).no_nodes(), 30);
}

#[test]
fn a_bucket_is_cut_back_to_its_limit() {
    let mut index = Index::new();
    let centre = node(0);
    assert!(index.insert(centre, 0, &|_n: Node| 0u32));
    for i in 1..=40u64 {
        let dist = move |n: Node| if n == centre { i as u32 } else { 1000 + i as u32 };
        assert!(index.insert(node(i), 0, &dist));
    }
    let g = index.layer(0);
    let mut edges = g.get_edges(centre);
    assert_eq!(edges.len(), m_max());
    edges.sort_by_key(|e| e.dist);
    for (i, e) in edges.iter().enumerate() {
        assert_eq!(*e, Edge { from: centre, to: node(i as u64 + 1), dist: i as u32 + 1 });
    }
    assert_eq!(g.index(node(40), centre).dist, 40);
}

#[test]
fn a_new_node_is_tied_to_its_nearest_neighbours() {
    let index = built(50);
    let g = index.layer(0);
    let mut edges = g.get_edges(node(49));
    edges.sort_by_key(|e| e.dist);
    assert_eq!(edges.len(), 30);
    for (i, e) in edges.iter().enumerate() {
        assert_eq!(e.to, node(48 - i as u64));
        assert_eq!(e.dist, (i as u32 + 1) * 10);
    }
}
