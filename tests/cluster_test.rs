use std::collections::hash_map::DefaultHasher;
use std::hash::{Hash, Hasher};
use uuid::Uuid;
use vectordb::auth::AccessLevel;
use vectordb::cluster::{ConsistentHashRing, ShardRouter, ShardingConfig, ShardingMethod};

#[test]
fn test_consistent_hashing() {
    let nodes = vec!["node1".to_string(), "node2".to_string(), "node3".to_string()];
    let ring = ConsistentHashRing::new(nodes, 100);

    let node1 = ring.get_node("key1").unwrap().clone();
    let _node2 = ring.get_node("key2").unwrap();

    // Same key should always map to same node
    assert_eq!(ring.get_node("key1").unwrap(), &node1);

    // Get multiple nodes for replication
    let replica_nodes = ring.get_nodes("key1", 3);
    assert_eq!(replica_nodes.len(), 3);
}

#[test]
fn test_shard_routing() {
    let config = ShardingConfig { shard_count: 4, method: ShardingMethod::Hash, replication_factor: 2 };
    let nodes = vec!["node1".to_string(), "node2".to_string()];
    let router = ShardRouter::new(config, nodes);
    let vector_id = Uuid::new_v4().as_u128();
    let shard_id = router.get_shard_id(vector_id, None);
    assert!(shard_id < 4);
    let shard_nodes = router.get_shard_nodes(shard_id).unwrap();
    assert_eq!(shard_nodes.len(), 2);
}

#[test]
fn test_custom_shard_key() {
    let config = ShardingConfig { shard_count: 4, method: ShardingMethod::Custom, replication_factor: 1 };
    let nodes = vec!["node1".to_string()];
    let router = ShardRouter::new(config, nodes);
    let vector_id = Uuid::new_v4().as_u128();
    let shard1 = router.get_shard_id(vector_id, Some("user:123"));
    let shard2 = router.get_shard_id(vector_id, Some("user:123"));
    assert_eq!(shard1, shard2);
    let shard3 = router.get_shard_id(vector_id, Some("user:456"));
    assert!(shard3 < 4);
}

#[test]
fn replicas_are_consecutive_nodes() {
    let config = ShardingConfig { shard_count: 3, method: ShardingMethod::Hash, replication_factor: 2 };
    let nodes = vec!["a".to_string(), "b".to_string(), "c".to_string()];
    let router = ShardRouter::new(config, nodes);
    assert_eq!(router.get_replica_nodes(0).unwrap(), vec!["a".to_string(), "b".to_string()]);
    assert_eq!(router.get_replica_nodes(2).unwrap(), vec!["c".to_string(), "a".to_string()]);
    assert_eq!(router.get_primary_node(1).unwrap(), "b");
    assert!(router.get_shard_nodes(3).is_none());
    assert!(!router.needs_migration(0, "a"));
    assert!(router.needs_migration(0, "c"));
    assert!(!router.needs_migration(9, "c"));
}

#[test]
fn rebalance_uses_new_nodes() {
    let config = ShardingConfig { shard_count: 2, method: ShardingMethod::Hash, replication_factor: 1 };
    let mut router = ShardRouter::new(config, vec!["a".to_string()]);
    router.rebalance(vec!["x".to_string(), "y".to_string()]);
    assert_eq!(router.get_primary_node(0).unwrap(), "x");
    assert_eq!(router.get_primary_node(1).unwrap(), "y");
}

#[test]
fn uuid_hash_matches_std_hash() {
    let id = Uuid::new_v4();
    let mut h = DefaultHasher::new();
    id.hash(&mut h);
    assert_eq!(vectordb::cluster::hash_id(id.as_u128()), h.finish());
    let mut h2 = DefaultHasher::new();
    "user:123".hash(&mut h2);
    assert_eq!(vectordb::cluster::hash_str_bytes("user:123".as_bytes()), h2.finish());
}

#[test]
fn ring_lookup_on_empty_ring() {
    let ring = ConsistentHashRing::new(Vec::new(), 10);
    assert!(ring.get_node("k").is_none());
    assert!(ring.get_nodes("k", 2).is_empty());
}

#[test]
fn ring_returns_at_most_the_distinct_nodes() {
    let ring = ConsistentHashRing::new(vec!["n1".to_string(), "n2".to_string()], 10);
    let nodes = ring.get_nodes("key", 5);
    assert_eq!(nodes.len(), 2);
    assert_ne!(nodes[0], nodes[1]);
    assert_eq!(&nodes[0], ring.get_node("key").unwrap());
}

#[test]
fn decimal_digits_are_ascii() {
    assert_eq!(vectordb::cluster::decimal_digits(0), b"0".to_vec());
    assert_eq!(vectordb::cluster::decimal_digits(1207), b"1207".to_vec());
}

#[test]
fn access_levels() {
    assert!(AccessLevel::Read.allows_read());
    assert!(!AccessLevel::Read.allows_write());
    assert!(AccessLevel::Write.allows_write());
    assert!(!AccessLevel::Write.allows_read());
    assert!(AccessLevel::ReadWrite.allows_read() && AccessLevel::ReadWrite.allows_write());
    assert!(!AccessLevel::ReadWrite.allows_admin());
    assert!(AccessLevel::Admin.allows_admin() && AccessLevel::Admin.allows_read());
}
