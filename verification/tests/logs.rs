use nucliadb_vectors::delete_log::DeleteLog;
use nucliadb_vectors::elements::{EntryPoint, FileSegment, Node};
use nucliadb_vectors::errors::DiskStructError;
use nucliadb_vectors::graph_log::GraphLog;
use nucliadb_vectors::txn_entity::TxnEntity;

fn node(i: u64) -> Node {
    Node { vector: FileSegment { start: i * 8, end: i * 8 + 8 } }
}

#[test]
fn empty_graph_log_round_trip() {
    let log = GraphLog::new();
    assert_eq!(log, GraphLog { version_number: 0, max_layer: 0, entry_point: None });
    let bytes = log.to_bytes().unwrap();
    assert_eq!(bytes.len(), 25);
    assert!(bytes.iter().all(|b| *b == 0));
    assert_eq!(GraphLog::from_bytes(&bytes), Ok(log));
}

#[test]
fn graph_log_round_trip() {
    let log = GraphLog {
        version_number: (7u128 << 100) + 3,
        max_layer: 4,
        entry_point: Some(EntryPoint { node: node(9), layer: 4 }),
    };
    let bytes = log.to_bytes().unwrap();
    assert_eq!(GraphLog::from_bytes(&bytes), Ok(log));
}

#[test]
fn graph_log_bytes_are_fixed_width_little_endian() {
    let log = GraphLog {
        version_number: 0x0102,
        max_layer: 3,
        entry_point: Some(EntryPoint {
            node: Node { vector: FileSegment { start: 16, end: 0x0100 } },
            layer: 3,
        }),
    };
    let mut expected: Vec<u8> = Vec::new();
    expected.extend_from_slice(&[2, 1, 0, 0, 0, 0, 0, 0, 0, 0, 0, 0, 0, 0, 0, 0]);
    expected.extend_from_slice(&[3, 0, 0, 0, 0, 0, 0, 0]);
    expected.push(1);
    expected.extend_from_slice(&[16, 0, 0, 0, 0, 0, 0, 0]);
    expected.extend_from_slice(&[0, 1, 0, 0, 0, 0, 0, 0]);
    expected.extend_from_slice(&[3, 0, 0, 0, 0, 0, 0, 0]);
    assert_eq!(log.to_bytes().unwrap(), expected);
}

#[test]
fn graph_log_record_round_trip() {
    let log = GraphLog {
        version_number: 12,
        max_layer: 1,
        entry_point: Some(EntryPoint { node: node(2), layer: 1 }),
    };
    assert_eq!(log.to_record(), (12, 1, Some((16, 24, 1))));
    assert_eq!(GraphLog::from_record(log.to_record()), log);
}

#[test]
fn truncated_graph_log_is_a_serialization_error() {
    let log = GraphLog::new();
    let bytes = log.to_bytes().unwrap();
    assert_eq!(GraphLog::from_bytes(&bytes[..10]), Err(DiskStructError::Serialization));
    assert_eq!(GraphLog::from_bytes(&[]), Err(DiskStructError::Serialization));
}

#[test]
fn graph_log_with_a_wrong_option_tag_is_a_serialization_error() {
    let mut bytes = GraphLog::new().to_bytes().unwrap();
    bytes[24] = 2;
    assert_eq!(GraphLog::from_bytes(&bytes), Err(DiskStructError::Serialization));
}

#[test]
fn empty_delete_log_round_trip() {
    let log = DeleteLog::new();
    assert!(log.is_empty());
    let bytes = log.to_bytes().unwrap();
    assert_eq!(bytes, vec![0u8; 8]);
    let back = DeleteLog::from_bytes(&bytes).unwrap();
    assert!(back.is_empty());
    assert_eq!(back.len(), 0);
}

#[test]
fn delete_log_round_trip() {
    let mut log = DeleteLog::new();
    for i in 0..20u64 {
        assert!(log.insert(node(i)));
    }
    assert!(!log.insert(node(3)));
    assert_eq!(log.len(), 20);
    let bytes = log.to_bytes().unwrap();
    assert_eq!(bytes.len(), 8 + 20 * 16);
    let back = DeleteLog::from_bytes(&bytes).unwrap();
    assert_eq!(back.len(), 20);
    for i in 0..20u64 {
        assert!(back.contains(node(i)));
    }
    assert!(!back.contains(node(20)));
}

#[test]
fn delete_log_of_one_node_has_its_bytes() {
    let mut log = DeleteLog::new();
    log.insert(Node { vector: FileSegment { start: 1, end: 0x0203 } });
    let mut expected: Vec<u8> = vec![1, 0, 0, 0, 0, 0, 0, 0];
    expected.extend_from_slice(&[1, 0, 0, 0, 0, 0, 0, 0]);
    expected.extend_from_slice(&[3, 2, 0, 0, 0, 0, 0, 0]);
    assert_eq!(log.to_bytes().unwrap(), expected);
}

#[test]
fn delete_log_ranges_name_each_node_once() {
    let mut log = DeleteLog::new();
    log.insert(node(1));
    log.insert(node(2));
    log.insert(node(1));
    let mut ranges = log.ranges();
    ranges.sort();
    assert_eq!(ranges, vec![(8, 16), (16, 24)]);
    let again = DeleteLog::from_ranges(&vec![(8, 16), (16, 24), (8, 16)]);
    assert_eq!(again.len(), 2);
    assert!(again.contains(node(1)) && again.contains(node(2)));
}

#[test]
fn truncated_delete_log_is_a_serialization_error() {
    let mut log = DeleteLog::new();
    log.insert(node(1));
    let bytes = log.to_bytes().unwrap();
    assert!(matches!(
        DeleteLog::from_bytes(&bytes[..bytes.len() - 1]),
        Err(DiskStructError::Serialization)
    ));
}

#[test]
fn create_twice_succeeds() {
    assert_eq!(TxnEntity::create(5), Ok(()));
    assert_eq!(TxnEntity::create(5), Ok(()));
}

#[test]
fn transaction_names_are_decimal() {
    let t = TxnEntity { base_path: "base".to_string(), txn_id: 0 };
    assert_eq!(t.name(), "txn_0");
    let t = TxnEntity { base_path: "base".to_string(), txn_id: 1203 };
    assert_eq!(t.name(), "txn_1203");
    let t = TxnEntity { base_path: "base".to_string(), txn_id: usize::MAX };
    assert_eq!(t.name(), format!("txn_{}", usize::MAX));
}

#[test]
fn transaction_paths_have_three_parts() {
    let t = TxnEntity { base_path: "/data/index".to_string(), txn_id: 42 };
    assert_eq!(t.segment_path(), vec!["/data/index", "segment", "txn_42"]);
    assert_eq!(t.delete_log_path(), vec!["/data/index", "delete_log", "txn_42"]);
}
