//! Credential issuance, verification and the authentication gate, run
//! against the real hashing backend.

use admin_sync::auth::{
    authenticate_request, extract_api_key, require_write_permission, ApiKey, AuthError,
    AuthService, IssueError, Permission,
};

fn meta_of(key: &str) -> Vec<u8> {
    key.as_bytes().to_vec()
}

#[test]
fn issued_key_authenticates() {
    let mut auth = AuthService::new();
    let raw = auth
        .generate_api_key("alice", Permission::ReadWrite, 1_000)
        .expect("issuance must succeed on a fresh owner");
    assert_eq!(raw.len(), 36);
    assert!(raw.starts_with("ADM_"));

    let meta = meta_of(&raw);
    let key = authenticate_request(Some(&meta), &mut auth, 2_000).expect("issued key must verify");
    assert_eq!(key.client_name, "alice");
    assert_eq!(key.permissions, Permission::ReadWrite);
    assert_eq!(key.created_at, 1_000);
    // The returned record is the one fetched before the refresh.
    assert_eq!(key.last_used_at, None);
    // The stored record now carries the refreshed last-use time.
    let idx = auth.find_index("alice").expect("alice holds a credential");
    assert_eq!(auth.get(idx).last_used_at, Some(2_000));
}

#[test]
fn two_issued_keys_differ_and_both_authenticate() {
    let mut auth = AuthService::new();
    let raw_a = auth.generate_api_key("alice", Permission::Read, 10).unwrap();
    let raw_b = auth.generate_api_key("bob", Permission::ReadWrite, 20).unwrap();
    assert_ne!(raw_a, raw_b);

    let meta_b = meta_of(&raw_b);
    let key_b = authenticate_request(Some(&meta_b), &mut auth, 30).unwrap();
    assert_eq!(key_b.client_name, "bob");
    let meta_a = meta_of(&raw_a);
    let key_a = authenticate_request(Some(&meta_a), &mut auth, 40).unwrap();
    assert_eq!(key_a.client_name, "alice");

    let names: Vec<&str> = auth.list().iter().map(|k| k.client_name.as_str()).collect();
    assert_eq!(names, vec!["alice", "bob"]);
}

#[test]
fn unknown_key_is_unauthenticated_never_internal() {
    let mut auth = AuthService::new();
    let _ = auth.generate_api_key("alice", Permission::Read, 10).unwrap();

    // Well-formed but never issued.
    let meta = meta_of("ADM_ffffffffffffffffffffffffffffffff");
    let r = authenticate_request(Some(&meta), &mut auth, 20);
    assert_eq!(r.err(), Some(AuthError::Unauthenticated));
}

#[test]
fn missing_or_malformed_metadata_is_unauthenticated() {
    let mut auth = AuthService::new();
    let r = authenticate_request(None, &mut auth, 20);
    assert_eq!(r.err(), Some(AuthError::Unauthenticated));

    // A control byte is not representable as text.
    let bad = vec![7u8, 65u8, 66u8];
    let r = authenticate_request(Some(&bad), &mut auth, 20);
    assert_eq!(r.err(), Some(AuthError::Unauthenticated));
}

#[test]
fn extract_api_key_validates_bytes() {
    assert_eq!(extract_api_key(None).err(), Some(AuthError::Unauthenticated));

    let good = vec![65u8, 90u8, 32u8, 126u8];
    assert_eq!(extract_api_key(Some(&good)).ok(), Some(good.clone()));

    let low = vec![65u8, 31u8];
    assert_eq!(extract_api_key(Some(&low)).err(), Some(AuthError::Unauthenticated));

    let high = vec![65u8, 127u8];
    assert_eq!(extract_api_key(Some(&high)).err(), Some(AuthError::Unauthenticated));

    let empty: Vec<u8> = Vec::new();
    assert_eq!(extract_api_key(Some(&empty)).ok(), Some(Vec::new()));
}

#[test]
fn duplicate_owner_is_refused() {
    let mut auth = AuthService::new();
    let _ = auth.generate_api_key("alice", Permission::Read, 10).unwrap();
    let r = auth.generate_api_key("alice", Permission::ReadWrite, 20);
    assert_eq!(r.err(), Some(IssueError::DuplicateOwner));
    assert_eq!(auth.len(), 1);
}

#[test]
fn revoked_key_no_longer_authenticates() {
    let mut auth = AuthService::new();
    let raw = auth.generate_api_key("alice", Permission::Read, 10).unwrap();
    assert!(auth.find_index("alice").is_some());

    assert!(auth.revoke("alice"));
    assert!(auth.find_index("alice").is_none());
    assert!(!auth.revoke("alice"));

    let meta = meta_of(&raw);
    let r = authenticate_request(Some(&meta), &mut auth, 20);
    assert_eq!(r.err(), Some(AuthError::Unauthenticated));
}

#[test]
fn loaded_record_round_trips_and_garbage_hash_is_refused() {
    let mut auth = AuthService::new();
    let raw = auth.generate_api_key("alice", Permission::ReadWrite, 10).unwrap();
    let stored = auth.get(0);

    let mut other = AuthService::new();
    other
        .load_key(ApiKey {
            key_hash: stored.key_hash.clone(),
            client_name: stored.client_name.clone(),
            permissions: stored.permissions,
            created_at: stored.created_at,
            last_used_at: stored.last_used_at,
        })
        .expect("a stored hash record must load");

    let meta = meta_of(&raw);
    let key = authenticate_request(Some(&meta), &mut other, 20).unwrap();
    assert_eq!(key.client_name, "alice");

    let r = other.load_key(ApiKey {
        key_hash: "not-a-hash-record".to_string(),
        client_name: "carol".to_string(),
        permissions: Permission::Read,
        created_at: 10,
        last_used_at: None,
    });
    assert_eq!(r.err(), Some(IssueError::HashFailure));
}

#[test]
fn write_permission_gate() {
    let read_only = ApiKey {
        key_hash: String::new(),
        client_name: "r".to_string(),
        permissions: Permission::Read,
        created_at: 0,
        last_used_at: None,
    };
    assert_eq!(require_write_permission(&read_only).err(), Some(AuthError::PermissionDenied));

    let writer = ApiKey { permissions: Permission::ReadWrite, ..read_only };
    assert!(require_write_permission(&writer).is_ok());
}

#[test]
fn clock_reports_a_time() {
    let _ = admin_sync::clock::current_time();
}
