use nucliadb_vectors::delete_log::DeleteLog;
use nucliadb_vectors::elements::{Edge, FileSegment, Node};
use nucliadb_vectors::index::Index;
use nucliadb_vectors::layer::GraphLayer;
use nucliadb_vectors::linking::connect;
use nucliadb_vectors::traversal::{beam, greedy, is_tombstoned, place, take_in};

fn node(i: u64) -> Node {
    Node { vector: FileSegment { start: i * 8, end: i * 8 + 8 } }
}

fn at(n: Node) -> u32 {
    (n.vector.start / 8) as u32
}

/// The nodes `0..count` in a row, each joined to the next.
fn row(count: u64) -> GraphLayer {
    let mut g = GraphLayer::new();
    g.add_node(node(0));
    for i in 1..count {
        g.add_undirected_edge(node(i - 1), node(i), 1);
    }
    g
}

#[test]
fn undirected_edge_is_filed_both_ways() {
    let mut g = GraphLayer::new();
    g.add_undirected_edge(node(1), node(2), 7);
    assert_eq!(*g.index(node(1), node(2)), Edge { from: node(1), to: node(2), dist: 7 });
    assert_eq!(*g.index(node(2), node(1)), Edge { from: node(2), to: node(1), dist: 7 });
    assert_eq!(g.no_nodes(), 2);
}

#[test]
fn tombstones_of_all_visible_logs_count() {
    let mut first = DeleteLog::new();
    first.insert(node(1));
    let mut second = DeleteLog::new();
    second.insert(node(2));
    let logs = [first, second];
    assert!(is_tombstoned(&logs, node(1)));
    assert!(is_tombstoned(&logs, node(2)));
    assert!(!is_tombstoned(&logs, node(3)));
    assert!(!is_tombstoned(&logs[..1], node(2)));
    assert!(!is_tombstoned(&[], node(1)));
}

#[test]
fn place_keeps_the_order_and_puts_equals_behind() {
    let mut list = vec![(node(1), 10), (node(2), 20), (node(3), 20), (node(4), 30)];
    assert_eq!(place(&mut list, node(5), 20), 3);
    assert_eq!(
        list,
        vec![(node(1), 10), (node(2), 20), (node(3), 20), (node(5), 20), (node(4), 30)]
    );
    assert_eq!(place(&mut list, node(6), 5), 0);
    assert_eq!(place(&mut list, node(7), 99), 6);
    assert_eq!(list[0], (node(6), 5));
    assert_eq!(list[6], (node(7), 99));
    let mut empty: Vec<(Node, u32)> = Vec::new();
    assert_eq!(place(&mut empty, node(1), 3), 0);
    assert_eq!(empty, vec![(node(1), 3)]);
}

#[test]
fn take_in_drops_the_farthest_of_a_full_list() {
    let mut list = vec![(node(1), 10), (node(2), 20)];
    take_in(&mut list, node(3), 15, 3);
    assert_eq!(list, vec![(node(1), 10), (node(3), 15), (node(2), 20)]);
    take_in(&mut list, node(4), 12, 3);
    assert_eq!(list, vec![(node(1), 10), (node(4), 12), (node(3), 15)]);
    take_in(&mut list, node(5), 1, 3);
    assert_eq!(list, vec![(node(5), 1), (node(1), 10), (node(4), 12)]);
}

#[test]
fn greedy_walks_to_a_node_without_a_nearer_neighbour() {
    let g = row(10);
    let dist = |n: Node| at(n).abs_diff(7);
    assert_eq!(greedy(&g, node(0), 7, &dist), (node(7), 0));
    assert_eq!(greedy(&g, node(9), 2, &dist), (node(7), 0));
    assert_eq!(greedy(&g, node(7), 0, &dist), (node(7), 0));
    let two_valleys = |n: Node| [5u32, 4, 6, 7, 1, 0][at(n) as usize];
    assert_eq!(greedy(&row(6), node(0), 5, &two_valleys), (node(1), 4));
    let mut alone = GraphLayer::new();
    alone.add_node(node(3));
    assert_eq!(greedy(&alone, node(3), 4, &dist), (node(3), 4));
}

#[test]
fn beam_keeps_the_nearest_in_order() {
    let g = row(10);
    let dist = |n: Node| at(n).abs_diff(7) * 2 + (at(n) > 7) as u32;
    let found = beam(&g, node(0), dist(node(0)), &dist, 11, &[]);
    let nodes: Vec<u64> = found.iter().map(|p| at(p.0) as u64).collect();
    assert_eq!(nodes, vec![7, 6, 8, 5, 9, 4, 3, 2, 1, 0]);
    for p in found.iter() {
        assert_eq!(p.1, dist(p.0));
    }
    let found = beam(&g, node(0), dist(node(0)), &dist, 3, &[]);
    assert_eq!(found, vec![(node(7), 0), (node(6), 2), (node(8), 3)]);
    assert!(beam(&g, node(0), dist(node(0)), &dist, 0, &[]).is_empty());
}

#[test]
fn beam_goes_through_removed_nodes_and_leaves_them_out() {
    let g = row(10);
    let dist = |n: Node| at(n).abs_diff(7) * 2 + (at(n) > 7) as u32;
    let mut log = DeleteLog::new();
    log.insert(node(0));
    log.insert(node(6));
    log.insert(node(7));
    let logs = [log];
    let found = beam(&g, node(0), dist(node(0)), &dist, 3, &logs);
    assert_eq!(found, vec![(node(8), 3), (node(5), 4), (node(9), 5)]);
}

#[test]
fn beam_stays_in_what_can_be_reached() {
    let mut g = row(4);
    g.add_undirected_edge(node(10), node(11), 1);
    let dist = |n: Node| at(n);
    let found = beam(&g, node(10), 10, &dist, 20, &[]);
    assert_eq!(found, vec![(node(10), 10), (node(11), 11)]);
}

#[test]
fn connect_ties_a_node_to_the_first_of_the_list() {
    let mut g = row(5);
    let found = vec![(node(2), 3), (node(0), 4), (node(4), 9)];
    connect(&mut g, node(7), &found, 2, 2);
    assert!(g.has_node(node(7)));
    let mut mine = g.get_edges(node(7));
    mine.sort_by_key(|e| e.dist);
    assert_eq!(
        mine,
        vec![
            Edge { from: node(7), to: node(2), dist: 3 },
            Edge { from: node(7), to: node(0), dist: 4 },
        ]
    );
    assert_eq!(g.no_edges(node(4)), 1);
    assert_eq!(*g.index(node(0), node(7)), Edge { from: node(0), to: node(7), dist: 4 });
    let mut cut = g.get_edges(node(2));
    cut.sort_by_key(|e| e.to);
    assert_eq!(cut.len(), 2);
    assert!(cut.iter().all(|e| e.dist == 1));
}

#[test]
fn answers_of_a_large_index_are_settled() {
    let count = 300u64;
    let spot = |i: u64| ((i * 7919) % 1009) as u32;
    let mut index = Index::new();
    for i in 0..count {
        let here = spot(i);
        let layer = if i % 29 == 0 { 2 } else if i % 6 == 0 { 1 } else { 0 };
        assert!(index.insert(node(i), layer, &move |n: Node| spot(at(n) as u64).abs_diff(here)));
    }
    let mut log = DeleteLog::new();
    for i in (0..count).step_by(3) {
        index.delete(node(i), &mut log);
    }
    let logs = [log];
    let bottom = index.layer(0);
    for q in 0..40u32 {
        let target = q * 25;
        let dist = move |n: Node| spot(at(n) as u64).abs_diff(target);
        let r = index.search_with(&dist, 5, 8, &logs);
        assert_eq!(r.len(), 5);
        for p in r.iter() {
            assert!(!logs[0].contains(p.0));
            assert_eq!(p.1, dist(p.0));
            for e in bottom.get_edges(p.0) {
                if !logs[0].contains(e.to) {
                    let inside = r.iter().any(|x| x.0 == e.to);
                    assert!(inside || r.iter().all(|x| x.1 <= dist(e.to)));
                }
            }
        }
    }
}
