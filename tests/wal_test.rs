use vectordb::wal::check_entry_with;
use vectordb::codec::{push_config, push_operation, push_vector, read_config, read_operation, read_vector, Vector, WALOperation};
use vectordb::recovery::validate_operations;
use vectordb::types::{CollectionConfig, DistanceMetric, IndexConfig, VectorType};
use vectordb::wal::{buffer_append, check_entry, encode_entry, push_frame, replay, FLUSH_THRESHOLD, WAL_ENTRY_MAGIC};

fn config(name: &str, dim: usize) -> CollectionConfig {
    CollectionConfig {
        name: name.to_string(),
        dimension: dim,
        distance_metric: DistanceMetric::Cosine,
        vector_type: VectorType::Float32,
        index_config: IndexConfig::default(),
    }
}

fn vector(id: u128, data: &[f32], meta: Option<&str>) -> Vector {
    Vector { id, data: data.iter().map(|x| x.to_bits()).collect(), metadata: meta.map(|m| m.to_string()) }
}

fn same_vector(a: &Vector, b: &Vector) -> bool {
    a.id == b.id && a.data == b.data && a.metadata == b.metadata
}

#[test]
fn test_wal_operations() {
    let mut buffer = Vec::new();
    let op = WALOperation::CreateCollection(config("test", 128));
    buffer_append(&mut buffer, 7, 1_700_000_000, &op).unwrap();
    let operations = replay(&buffer);
    assert_eq!(operations.len(), 1);
    match &operations[0] {
        WALOperation::CreateCollection(c) => {
            assert_eq!(c.name, "test");
            assert_eq!(c.dimension, 128);
        }
        _ => panic!("Unexpected operation type"),
    }
}

#[test]
fn vector_record_round_trip() {
    let v = vector(0x0123_4567_89ab_cdef_0011_2233_4455_6677, &[1.0, -0.5, 3.25], Some("{\"category\":\"a\"}"));
    let mut bytes = Vec::new();
    push_vector(&mut bytes, &v);
    assert_eq!(bytes.len(), 16 + 8 + 12 + 1 + 8 + 16);
    let (back, end) = read_vector(&bytes, 0).unwrap();
    assert_eq!(end, bytes.len());
    assert!(same_vector(&v, &back));
    let plain = vector(5, &[], None);
    let mut bytes = Vec::new();
    push_vector(&mut bytes, &plain);
    let (back, _) = read_vector(&bytes, 0).unwrap();
    assert!(same_vector(&plain, &back));
}

#[test]
fn truncated_vector_record_is_refused() {
    let v = vector(9, &[1.0, 2.0], Some("{}"));
    let mut bytes = Vec::new();
    push_vector(&mut bytes, &v);
    bytes.truncate(bytes.len() - 1);
    assert!(read_vector(&bytes, 0).is_none());
}

#[test]
fn config_round_trip() {
    let mut c = config("docs", 384);
    c.distance_metric = DistanceMetric::Manhattan;
    c.vector_type = VectorType::Int8;
    c.index_config.ef_search = 77;
    let mut bytes = Vec::new();
    push_config(&mut bytes, &c);
    let (back, end) = read_config(&bytes, 0).unwrap();
    assert_eq!(end, bytes.len());
    assert_eq!(back.name, "docs");
    assert_eq!(back.dimension, 384);
    assert_eq!(back.distance_metric, DistanceMetric::Manhattan);
    assert_eq!(back.vector_type, VectorType::Int8);
    assert_eq!(back.index_config, IndexConfig { max_connections: 16, ef_construction: 200, ef_search: 77, max_layer: 16 });
}

#[test]
fn operation_round_trip() {
    let ops = vec![
        WALOperation::DeleteCollection("old".to_string()),
        WALOperation::InsertVector { collection: "c".to_string(), vector: vector(1, &[0.5], None) },
        WALOperation::BatchInsert { collection: "c".to_string(), vectors: vec![vector(2, &[1.0], None), vector(3, &[2.0], Some("{}"))] },
        WALOperation::DeleteVector { collection: "c".to_string(), id: 42 },
    ];
    for op in &ops {
        let mut bytes = Vec::new();
        push_operation(&mut bytes, op);
        let (back, end) = read_operation(&bytes, 0).unwrap();
        assert_eq!(end, bytes.len());
        match (op, &back) {
            (WALOperation::DeleteCollection(a), WALOperation::DeleteCollection(b)) => assert_eq!(a, b),
            (WALOperation::InsertVector { collection: a, vector: x }, WALOperation::InsertVector { collection: b, vector: y }) => {
                assert_eq!(a, b);
                assert!(same_vector(x, y));
            }
            (WALOperation::BatchInsert { collection: a, vectors: x }, WALOperation::BatchInsert { collection: b, vectors: y }) => {
                assert_eq!(a, b);
                assert_eq!(x.len(), y.len());
                assert!(x.iter().zip(y.iter()).all(|(p, q)| same_vector(p, q)));
            }
            (WALOperation::DeleteVector { collection: a, id: x }, WALOperation::DeleteVector { collection: b, id: y }) => {
                assert_eq!(a, b);
                assert_eq!(x, y);
            }
            _ => panic!("operation changed kind"),
        }
    }
}

#[test]
fn unknown_operation_tag_is_refused() {
    assert!(read_operation(&vec![9u8, 0, 0], 0).is_none());
}

#[test]
fn entry_checksum_is_crc32_of_operation_bytes() {
    let op = WALOperation::DeleteCollection("c".to_string());
    let entry = encode_entry(1, 2, &op);
    let mut op_bytes = Vec::new();
    push_operation(&mut op_bytes, &op);
    let crc = u32::from_le_bytes([entry[24], entry[25], entry[26], entry[27]]);
    assert_eq!(crc, crc32fast::hash(&op_bytes));
    assert_ne!(crc, 0);
    assert!(check_entry(&entry).is_some());
}

#[test]
fn corrupted_checksum_is_skipped() {
    let mut buffer = Vec::new();
    buffer_append(&mut buffer, 1, 10, &WALOperation::DeleteCollection("a".to_string())).unwrap();
    buffer_append(&mut buffer, 2, 11, &WALOperation::DeleteCollection("b".to_string())).unwrap();
    // flip a byte of the first entry's operation
    let last_of_first = 8 + 28 + 1 + 8;
    buffer[last_of_first] ^= 0xff;
    let ops = replay(&buffer);
    assert_eq!(ops.len(), 1);
    match &ops[0] {
        WALOperation::DeleteCollection(n) => assert_eq!(n, "b"),
        _ => panic!("unexpected operation"),
    }
}

#[test]
fn oversized_frame_is_skipped() {
    let mut buffer = Vec::new();
    buffer.extend_from_slice(&WAL_ENTRY_MAGIC.to_le_bytes());
    buffer.extend_from_slice(&(100u32 * 1024 * 1024 + 1).to_le_bytes());
    buffer_append(&mut buffer, 3, 12, &WALOperation::DeleteCollection("z".to_string())).unwrap();
    let ops = replay(&buffer);
    assert_eq!(ops.len(), 1);
}

#[test]
fn bad_magic_skips_four_bytes() {
    let mut buffer = vec![0u8; 4];
    buffer_append(&mut buffer, 3, 12, &WALOperation::DeleteCollection("z".to_string())).unwrap();
    assert_eq!(replay(&buffer).len(), 1);
}

#[test]
fn zeroed_tail_keeps_intact_entries() {
    let mut buffer = Vec::new();
    buffer_append(&mut buffer, 1, 1, &WALOperation::CreateCollection(config("c", 8))).unwrap();
    for i in 0..10u128 {
        let op = WALOperation::InsertVector { collection: "c".to_string(), vector: vector(i, &[i as f32; 8], None) };
        buffer_append(&mut buffer, 100 + i, 2, &op).unwrap();
    }
    let n = buffer.len();
    for b in &mut buffer[n - 50..] {
        *b = 0;
    }
    let ops = replay(&buffer);
    assert!(ops.len() >= 10);
}

#[test]
fn truncated_frame_ends_replay() {
    let mut buffer = Vec::new();
    buffer_append(&mut buffer, 1, 1, &WALOperation::DeleteCollection("a".to_string())).unwrap();
    let keep = buffer.len();
    buffer_append(&mut buffer, 2, 1, &WALOperation::DeleteCollection("b".to_string())).unwrap();
    buffer.truncate(keep + 10);
    assert_eq!(replay(&buffer).len(), 1);
}

#[test]
fn flush_is_requested_past_threshold() {
    let mut buffer = vec![0u8; FLUSH_THRESHOLD - 10];
    let flush = buffer_append(&mut buffer, 1, 1, &WALOperation::DeleteCollection("a".to_string())).unwrap();
    assert!(flush);
    let mut small = Vec::new();
    assert!(!buffer_append(&mut small, 1, 1, &WALOperation::DeleteCollection("a".to_string())).unwrap());
}

#[test]
fn frame_layout() {
    let mut out = Vec::new();
    push_frame(&mut out, &vec![1, 2, 3]);
    assert_eq!(out, vec![0xEF, 0xBE, 0xAD, 0xDE, 3, 0, 0, 0, 1, 2, 3]);
}

#[test]
fn recovery_drops_invalid_operations() {
    let ops = vec![
        WALOperation::InsertVector { collection: "missing".to_string(), vector: vector(1, &[1.0], None) },
        WALOperation::CreateCollection(config("c", 1)),
        WALOperation::CreateCollection(config("c", 1)),
        WALOperation::BatchInsert { collection: "c".to_string(), vectors: vec![vector(2, &[], None)] },
        WALOperation::InsertVector { collection: "c".to_string(), vector: vector(3, &[1.0], None) },
        WALOperation::DeleteCollection("c".to_string()),
        WALOperation::DeleteVector { collection: "c".to_string(), id: 3 },
        WALOperation::DeleteVector { collection: "disk".to_string(), id: 3 },
    ];
    let kept = validate_operations(&vec!["disk".to_string()], ops);
    let kinds: Vec<&str> = kept
        .iter()
        .map(|op| match op {
            WALOperation::CreateCollection(_) => "create",
            WALOperation::DeleteCollection(_) => "drop",
            WALOperation::InsertVector { .. } => "insert",
            WALOperation::BatchInsert { .. } => "batch",
            WALOperation::DeleteVector { .. } => "delete",
        })
        .collect();
    assert_eq!(kinds, vec!["create", "insert", "drop", "delete"]);
}

#[test]
fn entry_checked_against_given_checksum() {
    let op = WALOperation::DeleteCollection("c".to_string());
    let entry = encode_entry(1, 2, &op);
    let crc = u32::from_le_bytes([entry[24], entry[25], entry[26], entry[27]]);
    assert!(check_entry_with(&entry, crc).is_some());
    assert!(check_entry_with(&entry, crc ^ 1).is_none());
    assert!(check_entry_with(&entry[..27].to_vec(), crc).is_none());
}
