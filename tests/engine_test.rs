use vectordb::codec::{Vector, WALOperation};
use vectordb::engine::Catalog;
use vectordb::query::{scroll_page, candidate_limit, count_matching, offset_text, page_bounds, parse_usize, select_results};
use vectordb::recovery::{is_collection_dir, restore_name, retention_dir_name};
use vectordb::text::numeral_string;
use vectordb::filter::{Condition, FieldCondition, FieldValue, Filter, IsNull, MetadataEntry};
use vectordb::types::{CollectionConfig, DistanceMetric, IndexConfig, VectorDbError, VectorType};

fn config(name: &str) -> CollectionConfig {
    CollectionConfig {
        name: name.to_string(),
        dimension: 3,
        distance_metric: DistanceMetric::Cosine,
        vector_type: VectorType::Float32,
        index_config: IndexConfig::default(),
    }
}

#[test]
fn catalog_create_and_delete() {
    let mut cat = Catalog::new();
    assert!(matches!(cat.create(config("c")), Ok(WALOperation::CreateCollection(_))));
    match cat.create(config("c")) {
        Err(VectorDbError::CollectionAlreadyExists { name }) => assert_eq!(name, "c"),
        _ => panic!("expected CollectionAlreadyExists"),
    }
    assert_eq!(cat.config_of("c").unwrap().dimension, 3);
    assert_eq!(cat.list(), vec!["c".to_string()]);
    assert!(matches!(cat.delete("c"), Ok(WALOperation::DeleteCollection(_))));
    assert!(cat.list().is_empty());
    match cat.delete("c") {
        Err(VectorDbError::CollectionNotFound { name }) => assert_eq!(name, "c"),
        _ => panic!("expected CollectionNotFound"),
    }
}

#[test]
fn replaying_twice_gives_same_catalog() {
    let ops = || vec![
        WALOperation::CreateCollection(config("a")),
        WALOperation::CreateCollection(config("b")),
        WALOperation::DeleteCollection("a".to_string()),
        WALOperation::DeleteCollection("zzz".to_string()),
    ];
    let mut cat = Catalog::new();
    for op in ops() {
        cat.apply_replayed(op);
    }
    let once = cat.list();
    for op in ops() {
        cat.apply_replayed(op);
    }
    assert_eq!(cat.list(), once);
    assert_eq!(once, vec!["b".to_string()]);
}

#[test]
fn soft_delete_and_restore_names() {
    let dir = retention_dir_name("c", "20240101_120000");
    assert_eq!(dir, "c_20240101_120000");
    assert_eq!(restore_name(&dir, None), "c");
    assert_eq!(restore_name(&dir, Some("other")), "other");
    assert_eq!(restore_name("plain", None), "plain");
    assert_eq!(restore_name("my_coll_20240101_120000", None), "my_coll");
    assert_eq!(restore_name("x_2024_1", None), "x_2024_1");
    assert_eq!(restore_name("a_2024010x_120000", None), "a_2024010x_120000");
}

#[test]
fn collection_dirs() {
    assert!(is_collection_dir("docs"));
    assert!(!is_collection_dir("wal"));
    assert!(!is_collection_dir(".deleted"));
    assert!(!is_collection_dir(".backups"));
    assert!(is_collection_dir("wallet"));
}

#[test]
fn candidate_limits() {
    assert_eq!(candidate_limit(10, true), 30);
    assert_eq!(candidate_limit(10, false), 10);
    assert_eq!(candidate_limit(usize::MAX, true), usize::MAX);
}

#[test]
fn offsets_parse_like_std() {
    for s in ["0", "15", "+7", "", "-1", "1a", "18446744073709551615", "18446744073709551616", "+"] {
        assert_eq!(parse_usize(s), s.parse::<usize>().ok(), "{}", s);
    }
    assert_eq!(offset_text(40), "40");
    assert_eq!(numeral_string(255, 16), "ff");
}

#[test]
fn pages() {
    assert_eq!(page_bounds(25, 0, 10), (0, 10, Some(10)));
    assert_eq!(page_bounds(25, 20, 10), (20, 25, None));
    assert_eq!(page_bounds(25, 30, 10), (25, 25, None));
    assert_eq!(page_bounds(0, 0, 10), (0, 0, None));
}

#[test]
fn select_and_count() {
    let null = |b: bool| {
        Some(vec![MetadataEntry { key: "x".to_string(), value: if b { FieldValue::Null } else { FieldValue::Bool(true) } }])
    };
    let metas = vec![null(false), null(true), None, null(true), null(true)];
    let f = Filter::Must(vec![Condition::Match(FieldCondition::IsNull(IsNull { key: "x".to_string() }))]);
    assert_eq!(select_results(&metas, Some(&f), 2), vec![1, 3]);
    assert_eq!(select_results(&metas, None, 2), vec![0, 1]);
    assert_eq!(count_matching(&metas, &f), 3);
}

#[test]
fn prepared_writes_check_collection_and_dimension() {
    let mut cat = Catalog::new();
    cat.create(config("c")).unwrap();
    let v = |id: u128, n: usize| Vector { id, data: vec![0u32; n], metadata: None };
    assert!(matches!(cat.prepare_insert("x", v(1, 3)), Err(VectorDbError::CollectionNotFound { .. })));
    assert!(matches!(cat.prepare_insert("c", v(1, 2)), Err(VectorDbError::InvalidDimension { expected: 3, actual: 2 })));
    assert!(matches!(cat.prepare_insert("c", v(1, 3)), Ok(WALOperation::InsertVector { .. })));
    let (bytes, op) = cat.prepare_batch("c", vec![v(1, 3), v(2, 3)]).unwrap().unwrap();
    assert_eq!(bytes.len(), 2 * (4 + 16 + 8 + 12 + 1));
    assert!(matches!(op, WALOperation::BatchInsert { .. }));
    assert!(cat.prepare_batch("c", Vec::new()).unwrap().is_none());
    assert!(cat.prepare_batch("absent", Vec::new()).unwrap().is_none());
    assert!(matches!(cat.prepare_batch("c", vec![v(1, 3), v(2, 4), v(3, 5)]), Err(VectorDbError::InvalidDimension { expected: 3, actual: 4 })));
    assert!(matches!(cat.prepare_batch("absent", vec![v(1, 3)]), Err(VectorDbError::CollectionNotFound { .. })));
    assert!(matches!(cat.prepare_delete_vector("c", 1), Ok(WALOperation::DeleteVector { .. })));
    assert!(matches!(cat.prepare_delete_vector("x", 1), Err(VectorDbError::CollectionNotFound { .. })));
}

#[test]
fn scroll_pages_through_matches() {
    let metas: Vec<Option<Vec<MetadataEntry>>> = (0..7)
        .map(|i| Some(vec![MetadataEntry { key: "x".to_string(), value: if i % 2 == 0 { FieldValue::Null } else { FieldValue::Bool(true) } }]))
        .collect();
    let f = Filter::Must(vec![Condition::Match(FieldCondition::IsNull(IsNull { key: "x".to_string() }))]);
    let (page, next) = scroll_page(&metas, Some(&f), None, 3);
    assert_eq!(page, vec![0, 2, 4]);
    assert_eq!(next.as_deref(), Some("3"));
    let (page, next) = scroll_page(&metas, Some(&f), next.as_deref(), 3);
    assert_eq!(page, vec![6]);
    assert_eq!(next, None);
    let (page, _) = scroll_page(&metas, None, Some("bad"), 2);
    assert_eq!(page, vec![0, 1]);
}

#[test]
fn recovery_manager_filters_log() {
    let rm = vectordb::recovery::RecoveryManager::new("/data");
    assert_eq!(rm.data_dir, "/data");
    let ops = vec![WALOperation::DeleteCollection("nope".to_string()), WALOperation::DeleteCollection("c".to_string())];
    let kept = rm.recover_operations(&vec!["c".to_string()], ops);
    assert_eq!(kept.len(), 1);
}
