use rand::rngs::StdRng;
use rand::{Rng, SeedableRng};
use vectordb::filter::{Condition, FieldCondition, FieldValue, Filter, MatchKeyword, MatchValue, MetadataEntry};
use vectordb::hnsw::{layer_from_flips, DistanceFunction, HnswIndex};
use vectordb::codec::{Vector, WALOperation};
use vectordb::engine::Catalog;
use vectordb::storage::{encode_batch, read_vectors_file};
use vectordb::types::{CollectionConfig, DistanceMetric, IndexConfig, VectorDbError, VectorType};
use vectordb::wal::{buffer_append, replay};

struct Cosine;

fn order_key(d: f32) -> u64 {
    let d = if d == 0.0 { 0.0f32 } else { d };
    let b = d.to_bits();
    (if b & 0x8000_0000 != 0 { !b } else { b | 0x8000_0000 }) as u64
}

fn floats(v: &Vec<u32>) -> Vec<f32> {
    v.iter().map(|b| f32::from_bits(*b)).collect()
}

impl DistanceFunction for Cosine {
    fn distance(&self, a: &Vec<u32>, b: &Vec<u32>) -> u64 {
        let (a, b) = (floats(a), floats(b));
        let dot: f32 = a.iter().zip(&b).map(|(x, y)| x * y).sum();
        let na: f32 = a.iter().map(|x| x * x).sum::<f32>().sqrt();
        let nb: f32 = b.iter().map(|x| x * x).sum::<f32>().sqrt();
        let d = if na == 0.0 || nb == 0.0 { 1.0 } else { 1.0 - dot / (na * nb) };
        order_key(d)
    }
}

fn bits(v: &[f32]) -> Vec<u32> {
    v.iter().map(|x| x.to_bits()).collect()
}

fn index(dim: usize) -> HnswIndex {
    HnswIndex::new(IndexConfig::default(), dim, StdRng::seed_from_u64(7))
}

#[test]
fn scenario_basic_insert_and_query() {
    let mut idx = index(3);
    idx.insert(&Cosine, 1, bits(&[1.0, 0.0, 0.0]), None).unwrap();
    idx.insert(&Cosine, 2, bits(&[0.0, 1.0, 0.0]), None).unwrap();
    idx.insert(&Cosine, 3, bits(&[0.9, 0.1, 0.0]), None).unwrap();
    let res = idx.search(&Cosine, &bits(&[1.0, 0.0, 0.0]), 2, None).unwrap();
    let ids: Vec<u128> = res.iter().map(|r| r.0).collect();
    assert_eq!(ids, vec![1, 3]);
}

#[test]
fn search_on_empty_index_is_empty() {
    let idx = index(4);
    assert!(idx.search(&Cosine, &bits(&[1.0, 0.0, 0.0, 0.0]), 5, None).unwrap().is_empty());
}

#[test]
fn wrong_dimension_is_refused() {
    let mut idx = index(3);
    match idx.insert(&Cosine, 1, bits(&[1.0, 0.0]), None) {
        Err(VectorDbError::InvalidDimension { expected, actual }) => {
            assert_eq!(expected, 3);
            assert_eq!(actual, 2);
        }
        _ => panic!("expected InvalidDimension"),
    }
    assert!(matches!(idx.search(&Cosine, &bits(&[1.0]), 1, None), Err(VectorDbError::InvalidDimension { expected: 3, actual: 1 })));
    assert_eq!(idx.len(), 0);
}

#[test]
fn empty_batch_is_a_no_op() {
    let mut idx = index(2);
    idx.batch_insert(&Cosine, Vec::new()).unwrap();
    assert_eq!(idx.stats().vector_count, 0);
}

#[test]
fn batch_of_one_equals_insert() {
    let mut a = index(2);
    let mut b = index(2);
    a.batch_insert(&Cosine, vec![(9, bits(&[0.3, 0.4]), None)]).unwrap();
    b.insert(&Cosine, 9, bits(&[0.3, 0.4]), None).unwrap();
    assert_eq!(a.stats().vector_count, b.stats().vector_count);
    assert_eq!(a.get_vector(9), b.get_vector(9));
}

#[test]
fn batch_with_bad_dimension_indexes_nothing() {
    let mut idx = index(2);
    let r = idx.batch_insert(&Cosine, vec![(1, bits(&[1.0, 0.0]), None), (2, bits(&[1.0]), None)]);
    assert!(matches!(r, Err(VectorDbError::InvalidDimension { expected: 2, actual: 1 })));
    assert_eq!(idx.len(), 0);
}

#[test]
fn count_tracks_inserts_and_deletes() {
    let mut rng = StdRng::seed_from_u64(3);
    let mut idx = index(8);
    for id in 0..100u128 {
        let v: Vec<f32> = (0..8).map(|_| rng.gen::<f32>()).collect();
        idx.insert(&Cosine, id, bits(&v), None).unwrap();
    }
    idx.insert(&Cosine, 5, bits(&[1.0; 8]), None).unwrap();
    assert_eq!(idx.stats().vector_count, 100);
    assert!(idx.delete(5));
    assert!(!idx.delete(5));
    assert!(!idx.delete(1000));
    assert_eq!(idx.stats().vector_count, 99);
    assert!(!idx.contains(5));
    for id in 0..100u128 {
        if id == 5 {
            continue;
        }
        let v = idx.get_vector(id).unwrap().clone();
        let res = idx.search(&Cosine, &v, 1, Some(64)).unwrap();
        assert_eq!(res.len(), 1);
        assert_eq!(res[0].0, id);
    }
}

#[test]
fn update_replaces_vector() {
    let mut idx = index(2);
    idx.insert(&Cosine, 1, bits(&[1.0, 0.0]), None).unwrap();
    idx.insert(&Cosine, 1, bits(&[0.0, 1.0]), None).unwrap();
    assert_eq!(idx.len(), 1);
    assert_eq!(idx.get_vector(1).unwrap(), &bits(&[0.0, 1.0]));
}

#[test]
fn results_are_sorted_and_limited() {
    let mut idx = index(2);
    for i in 0..20u128 {
        let a = i as f32 / 20.0;
        idx.insert(&Cosine, i, bits(&[1.0, a]), None).unwrap();
    }
    let res = idx.search(&Cosine, &bits(&[1.0, 0.0]), 5, None).unwrap();
    assert_eq!(res.len(), 5);
    assert!(res.windows(2).all(|w| w[0].1 <= w[1].1));
    assert_eq!(res[0].0, 0);
}

#[test]
fn layers_from_flips() {
    assert_eq!(layer_from_flips(&vec![true, true, false, true], 16), 2);
    assert_eq!(layer_from_flips(&vec![true, true, true], 2), 2);
    assert_eq!(layer_from_flips(&vec![false], 16), 0);
    assert_eq!(layer_from_flips(&vec![], 16), 0);
}

#[test]
fn scenario_filtered_search() {
    let mut rng = StdRng::seed_from_u64(11);
    let mut idx = index(16);
    let mut data = Vec::new();
    for id in 0..1000u128 {
        let v: Vec<f32> = (0..16).map(|_| rng.gen::<f32>() - 0.5).collect();
        let cat = if id % 2 == 0 { "a" } else { "b" };
        let meta = vec![MetadataEntry { key: "category".to_string(), value: FieldValue::Text(cat.to_string()) }];
        idx.insert(&Cosine, id, bits(&v), Some(meta)).unwrap();
        data.push((id, v));
    }
    let q: Vec<f32> = (0..16).map(|_| rng.gen::<f32>() - 0.5).collect();
    let filter = Filter::Must(vec![Condition::Match(FieldCondition::MatchKeyword(MatchKeyword {
        key: "category".to_string(),
        value: MatchValue::Keyword("a".to_string()),
    }))]);
    let res = idx.query(&Cosine, &bits(&q), 10, Some(200), Some(&filter)).unwrap();
    assert_eq!(res.len(), 10);
    assert!(res.iter().all(|r| r.0 % 2 == 0));
    let mut exact: Vec<(u64, u128)> = data
        .iter()
        .filter(|(id, _)| id % 2 == 0)
        .map(|(id, v)| (Cosine.distance(&bits(&q), &bits(v)), *id))
        .collect();
    exact.sort();
    let top30: Vec<u128> = exact.iter().take(30).map(|p| p.1).collect();
    assert!(res.iter().all(|r| top30.contains(&r.0)));
}

#[test]
fn scenario_restart_rebuilds_from_stored_bytes() {
    let config = CollectionConfig {
        name: "c".to_string(),
        dimension: 8,
        distance_metric: DistanceMetric::Cosine,
        vector_type: VectorType::Float32,
        index_config: IndexConfig::default(),
    };
    let mut rng = StdRng::seed_from_u64(5);
    let vectors: Vec<Vector> = (0..100u128)
        .map(|id| Vector { id, data: bits(&(0..8).map(|_| rng.gen::<f32>()).collect::<Vec<_>>()), metadata: None })
        .collect();
    let mut catalog = Catalog::new();
    let mut log = Vec::new();
    let op = catalog.create(config.clone_config()).unwrap();
    buffer_append(&mut log, 1, 1, &op).unwrap();
    let file = encode_batch(&vectors, 8).unwrap();
    buffer_append(&mut log, 2, 1, &WALOperation::BatchInsert { collection: "c".to_string(), vectors: vectors.clone() }).unwrap();

    // after a restart: the catalog from the log, the index from the vectors file
    let mut restarted = Catalog::new();
    for op in replay(&log) {
        restarted.apply_replayed(op);
    }
    assert_eq!(restarted.list(), vec!["c".to_string()]);
    let stored = read_vectors_file(&file).unwrap();
    let mut idx = index(8);
    idx.batch_insert(&Cosine, stored.into_iter().map(|v| (v.id, v.data, None)).collect()).unwrap();
    assert_eq!(idx.stats().vector_count, 100);
    for v in &vectors {
        let res = idx.search(&Cosine, &v.data, 1, Some(64)).unwrap();
        assert_eq!(res[0].0, v.id);
    }
}

fn create_test_index() -> HnswIndex {
    let config = IndexConfig { max_connections: 16, ef_construction: 200, ef_search: 50, max_layer: 16 };
    HnswIndex::new(config, 3, StdRng::from_entropy())
}

#[test]
fn test_insert_and_search() {
    let mut index = create_test_index();
    let vectors = vec![vec![1.0, 0.0, 0.0], vec![0.0, 1.0, 0.0], vec![0.0, 0.0, 1.0]];
    let ids: Vec<u128> = (0..3).map(|_| uuid::Uuid::new_v4().as_u128()).collect();
    for (i, vector) in vectors.iter().enumerate() {
        index.insert(&Cosine, ids[i], bits(vector), None).unwrap();
    }
    let query = vec![1.0, 0.0, 0.0];
    let results = index.search(&Cosine, &bits(&query), 2, None).unwrap();
    assert!(!results.is_empty());
    assert_eq!(results[0].0, ids[0]);
}

#[test]
fn test_delete() {
    let mut index = create_test_index();
    let id = uuid::Uuid::new_v4().as_u128();
    let vector = vec![1.0, 0.0, 0.0];
    index.insert(&Cosine, id, bits(&vector), None).unwrap();
    assert!(index.delete(id));
    assert!(!index.delete(id));
    let results = index.search(&Cosine, &bits(&vector), 1, None).unwrap();
    assert!(results.is_empty());
}

#[test]
fn test_layer_selection() {
    let mut index = create_test_index();
    for _ in 0..100 {
        let layer = index.select_layer();
        assert!(layer <= 16);
    }
}

#[test]
fn delete_keeps_other_vectors_searchable() {
    let mut index = index(2);
    for i in 0..30u128 {
        let a = (i as f32) * 0.1;
        index.insert(&Cosine, i, bits(&[a.cos(), a.sin()]), None).unwrap();
    }
    for i in (0..30u128).step_by(3) {
        assert!(index.delete(i));
    }
    assert_eq!(index.stats().vector_count, 20);
    for i in 0..30u128 {
        if i % 3 == 0 {
            assert!(index.get_vector(i).is_none());
            continue;
        }
        let v = index.get_vector(i).unwrap().clone();
        let res = index.search(&Cosine, &v, 3, Some(32)).unwrap();
        assert!(res.iter().all(|r| r.0 % 3 != 0));
        assert_eq!(res[0].0, i);
    }
}

#[test]
fn insert_links_new_node_and_keeps_others() {
    let mut idx = index(2);
    idx.insert(&Cosine, 1, bits(&[1.0, 0.0]), None).unwrap();
    idx.insert(&Cosine, 2, bits(&[0.0, 1.0]), None).unwrap();
    idx.insert(&Cosine, 3, bits(&[0.7, 0.7]), None).unwrap();
    assert_eq!(idx.get_vector(1).unwrap(), &bits(&[1.0, 0.0]));
    assert_eq!(idx.get_vector(2).unwrap(), &bits(&[0.0, 1.0]));
    assert!(idx.stats().total_connections > 0);
    let all = idx.search(&Cosine, &bits(&[0.0, 1.0]), 3, None).unwrap();
    assert_eq!(all.len(), 3);
}
