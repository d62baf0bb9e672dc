use nucliadb_vectors::delete_log::DeleteLog;
use nucliadb_vectors::elements::{EntryPoint, FileSegment, Node};
use nucliadb_vectors::graph_log::GraphLog;
use nucliadb_vectors::index::Index;

fn node(i: usize) -> Node {
    Node { vector: FileSegment { start: i as u64 * 8, end: i as u64 * 8 + 8 } }
}

fn place(n: Node) -> usize {
    (n.vector.start / 8) as usize
}

/// The cosine distance as the bit pattern of a non-negative number.
fn cosine(a: &[f32], b: &[f32]) -> u32 {
    let dot: f32 = a.iter().zip(b.iter()).map(|(x, y)| x * y).sum();
    let na: f32 = a.iter().map(|x| x * x).sum::<f32>().sqrt();
    let nb: f32 = b.iter().map(|x| x * x).sum::<f32>().sqrt();
    let d = 1.0 - dot / (na * nb);
    if d > 0.0 {
        d.to_bits()
    } else {
        0
    }
}

fn insert_all(index: &mut Index, vectors: &[Vec<f32>], layers: &[usize]) {
    for i in 0..vectors.len() {
        let fresh = index.insert(node(i), layers[i], &|n: Node| cosine(&vectors[i], &vectors[place(n)]));
        assert!(fresh);
    }
}

#[test]
fn empty_index_answers_nothing() {
    let index = Index::new();
    assert_eq!(index.current_version(), 0);
    assert_eq!(index.no_layers(), 0);
    assert_eq!(index.graph_log(), GraphLog { version_number: 0, max_layer: 0, entry_point: None });
    let r = index.search(&|_n: Node| 0u32, 10, &[]);
    assert!(r.is_empty());
}

#[test]
fn first_node_is_the_entry_point_at_layer_zero() {
    let mut index = Index::new();
    assert!(index.insert(node(0), 5, &|_n: Node| 0u32));
    assert_eq!(
        index.graph_log(),
        GraphLog {
            version_number: 1,
            max_layer: 0,
            entry_point: Some(EntryPoint { node: node(0), layer: 0 }),
        }
    );
    assert_eq!(index.no_layers(), 1);
    assert!(index.contains(node(0)));
}

#[test]
fn three_vectors_and_the_two_nearest() {
    let vectors = vec![vec![1.0f32, 0.0], vec![0.0f32, 1.0], vec![1.0f32, 0.001]];
    let mut index = Index::new();
    insert_all(&mut index, &vectors, &[0, 0, 0]);
    let r = index.search(&|n: Node| cosine(&vectors[0], &vectors[place(n)]), 2, &[]);
    assert_eq!(r.len(), 2);
    assert_eq!(r[0], (node(0), 0));
    assert_eq!(r[1].0, node(2));
    assert!(f32::from_bits(r[1].1) > 0.0);
    assert!(f32::from_bits(r[1].1) < 0.001);
    assert!(r[0].1 <= r[1].1);
}

#[test]
fn tombstoned_node_is_hidden_only_from_who_sees_the_log() {
    let vectors = vec![vec![1.0f32, 0.0], vec![0.0f32, 1.0], vec![1.0f32, 0.001]];
    let mut index = Index::new();
    insert_all(&mut index, &vectors, &[0, 0, 0]);
    let version = index.current_version();
    let mut log = DeleteLog::new();
    index.delete(node(0), &mut log);
    assert!(log.contains(node(0)));
    assert_eq!(index.current_version(), version);
    assert!(index.contains(node(0)));
    let seen = [log];
    let dist = |n: Node| cosine(&vectors[0], &vectors[place(n)]);
    let with_log = index.search(&dist, 3, &seen);
    assert_eq!(with_log.iter().map(|p| p.0).collect::<Vec<Node>>(), vec![node(2), node(1)]);
    let without_log = index.search(&dist, 3, &[]);
    assert_eq!(
        without_log.iter().map(|p| p.0).collect::<Vec<Node>>(),
        vec![node(0), node(2), node(1)]
    );
}

#[test]
fn a_higher_layer_moves_the_entry_point() {
    let vectors = vec![vec![1.0f32, 0.0], vec![0.0f32, 1.0], vec![1.0f32, 1.0], vec![2.0f32, 1.0]];
    let mut index = Index::new();
    insert_all(&mut index, &vectors[..2], &[0, 0]);
    let before = index.graph_log();
    assert_eq!(before.max_layer, 0);
    assert_eq!(before.entry_point, Some(EntryPoint { node: node(0), layer: 0 }));
    let v2 = vectors[2].clone();
    assert!(index.insert(node(2), 3, &|n: Node| cosine(&v2, &vectors[place(n)])));
    let after = index.graph_log();
    assert_eq!(after.max_layer, before.max_layer + 3);
    assert_eq!(after.entry_point, Some(EntryPoint { node: node(2), layer: 3 }));
    assert_eq!(after.version_number, before.version_number + 1);
    assert_eq!(index.no_layers(), 4);
    let v3 = vectors[3].clone();
    assert!(index.insert(node(3), 1, &|n: Node| cosine(&v3, &vectors[place(n)])));
    let last = index.graph_log();
    assert_eq!(last.max_layer, 3);
    assert_eq!(last.entry_point, after.entry_point);
    assert_eq!(last.version_number, after.version_number + 1);
}

#[test]
fn inserting_a_node_twice_changes_nothing() {
    let vectors = vec![vec![1.0f32, 0.0], vec![0.0f32, 1.0]];
    let mut index = Index::new();
    insert_all(&mut index, &vectors, &[0, 2]);
    let log = index.graph_log();
    assert!(!index.insert(node(1), 4, &|n: Node| cosine(&vectors[1], &vectors[place(n)])));
    assert_eq!(index.graph_log(), log);
}

#[test]
fn every_inserted_vector_finds_itself() {
    let mut vectors: Vec<Vec<f32>> = Vec::new();
    let mut layers: Vec<usize> = Vec::new();
    for i in 0..30usize {
        let a = (i as f32) * 0.2;
        vectors.push(vec![a.cos(), a.sin(), 0.25 + (i % 7) as f32]);
        layers.push(if i % 11 == 0 { 2 } else if i % 5 == 0 { 1 } else { 0 });
    }
    let mut index = Index::new();
    insert_all(&mut index, &vectors, &layers);
    assert_eq!(index.current_version(), 30);
    for i in 0..30usize {
        let r = index.search(&|n: Node| cosine(&vectors[i], &vectors[place(n)]), 10, &[]);
        assert_eq!(r.len(), 10);
        assert_eq!(r[0].0, node(i));
        assert!(f32::from_bits(r[0].1) < 0.000001);
    }
}

#[test]
fn answers_of_a_large_index_are_in_order_and_measured() {
    let mut vectors: Vec<Vec<f32>> = Vec::new();
    let mut layers: Vec<usize> = Vec::new();
    for i in 0..200usize {
        let a = (i as f32) * 0.03;
        vectors.push(vec![a.cos(), a.sin(), 0.25 + (i % 7) as f32]);
        layers.push(if i % 31 == 0 { 2 } else if i % 5 == 0 { 1 } else { 0 });
    }
    let mut index = Index::new();
    insert_all(&mut index, &vectors, &layers);
    assert_eq!(index.current_version(), 200);
    assert_eq!(index.no_layers(), 3);
    for i in 0..200usize {
        let dist = |n: Node| cosine(&vectors[i], &vectors[place(n)]);
        let r = index.search(&dist, 10, &[]);
        assert_eq!(r.len(), 10);
        for w in r.windows(2) {
            assert!(w[0].1 <= w[1].1);
            assert!(w[0].0 != w[1].0);
        }
        for p in r.iter() {
            assert!(index.contains(p.0));
            assert_eq!(p.1, dist(p.0));
        }
    }
}

#[test]
fn search_hands_back_at_most_k() {
    let vectors = vec![vec![1.0f32, 0.0], vec![0.0f32, 1.0], vec![1.0f32, 0.001]];
    let mut index = Index::new();
    insert_all(&mut index, &vectors, &[0, 1, 0]);
    let dist = |n: Node| cosine(&vectors[1], &vectors[place(n)]);
    assert!(index.search(&dist, 0, &[]).is_empty());
    assert_eq!(index.search(&dist, 1, &[]), vec![(node(1), 0)]);
    assert_eq!(index.search_with(&dist, 2, 1, &[]).len(), 2);
    assert_eq!(index.search(&dist, 10, &[]).len(), 3);
}
