use vectordb::auth::{check_expiry, check_permission, AccessLevel, AuthError, Operation, Permission, RateLimit, RateLimitState};

#[test]
fn test_permission_check() {
    let permissions = vec![Permission::Collection { name: "test".to_string(), access: AccessLevel::Read }];
    assert!(check_permission(&permissions, &Operation::CollectionRead("test".to_string())).is_ok());
    assert!(check_permission(&permissions, &Operation::CollectionWrite("test".to_string())).is_err());
}

#[test]
fn cluster_permissions() {
    let admin = vec![Permission::ClusterAdmin];
    assert!(check_permission(&admin, &Operation::CollectionAdmin("x".to_string())).is_ok());
    let read = vec![Permission::ClusterRead];
    assert!(check_permission(&read, &Operation::VectorRead("x".to_string(), None)).is_ok());
    assert_eq!(check_permission(&read, &Operation::VectorWrite("x".to_string(), None)), Err(AuthError::PermissionDenied));
    let vec_write = vec![Permission::Vector { collection: "c".to_string(), filter: None, access: AccessLevel::Write }];
    assert!(check_permission(&vec_write, &Operation::VectorWrite("c".to_string(), None)).is_ok());
    assert!(check_permission(&vec_write, &Operation::VectorWrite("d".to_string(), None)).is_err());
    assert!(check_permission(&Vec::new(), &Operation::CollectionRead("c".to_string())).is_err());
}

#[test]
fn test_key_expiration() {
    assert_eq!(check_expiry(Some(100), 101), Err(AuthError::ExpiredApiKey));
    assert_eq!(check_expiry(Some(100), 100), Ok(()));
    assert_eq!(check_expiry(None, u64::MAX), Ok(()));
}

#[test]
fn requests_per_minute_are_limited() {
    let limit = RateLimit { requests_per_minute: 5, max_concurrent: 10 };
    let mut state = RateLimitState::new();
    for t in 0..5u64 {
        assert!(state.check_rate_limit(1000 + t, &limit).is_ok());
    }
    assert_eq!(state.check_rate_limit(1005, &limit), Err(AuthError::RateLimitExceeded));
    // a minute later the old requests no longer count
    assert!(state.check_rate_limit(1070, &limit).is_ok());
}

#[test]
fn concurrent_requests_are_limited() {
    let limit = RateLimit { requests_per_minute: 100, max_concurrent: 2 };
    let mut state = RateLimitState::new();
    assert!(state.check_rate_limit(1, &limit).is_ok());
    assert!(state.check_rate_limit(1, &limit).is_ok());
    assert_eq!(state.check_rate_limit(1, &limit), Err(AuthError::RateLimitExceeded));
    state.complete();
    assert!(state.check_rate_limit(2, &limit).is_ok());
}
