//! Push ingestion and cursor-based export, through the service surface.

use admin_sync::auth::{AuthError, Permission};
use admin_sync::overrides::{FeatureOverride, OverrideStore};
use admin_sync::push::{push_batch, PushRecord, PushSession};
use admin_sync::server::AdminServer;

fn record(pron: &str, bits: i64, updated_at: i64) -> PushRecord {
    PushRecord {
        pronunciation: pron.to_string(),
        fixed_bits1: bits,
        fixed_bits2: bits + 1,
        fixed_burst_bits: bits + 2,
        created_at: Some(0),
        updated_at: Some(updated_at),
        note: None,
    }
}

fn prons(rows: &[FeatureOverride]) -> Vec<String> {
    rows.iter().map(|r| r.pronunciation.clone()).collect()
}

#[test]
fn push_then_pull_returns_the_set_ascending() {
    let mut store = OverrideStore::new();
    let records = vec![record("ka", 1, 30), record("ki", 2, 10), record("ku", 3, 20)];
    let out = push_batch(&mut store, records, 100);
    assert_eq!(out.items_received, 3);
    assert_eq!(out.items_created, 3);
    assert_eq!(out.items_updated, 0);
    assert!(out.errors.is_empty());

    let pulled = store.pull(None, None);
    assert_eq!(prons(&pulled), vec!["ki", "ku", "ka"]);
    assert_eq!(pulled[0].updated_at, 10);
    assert_eq!(pulled[1].updated_at, 20);
    assert_eq!(pulled[2].updated_at, 30);
}

#[test]
fn pushing_same_key_twice_updates_not_creates() {
    let mut store = OverrideStore::new();
    let first = push_batch(&mut store, vec![record("ka", 1, 10)], 100);
    assert_eq!(first.items_created, 1);

    let second = push_batch(&mut store, vec![record("ka", 9, 40)], 100);
    assert_eq!(second.items_received, 1);
    assert_eq!(second.items_created, 0);
    assert_eq!(second.items_updated, 1);

    let pulled = store.pull(None, None);
    assert_eq!(pulled.len(), 1);
    assert_eq!(pulled[0].pronunciation, "ka");
    assert_eq!(pulled[0].fixed_bits1, 9);
    assert_eq!(pulled[0].updated_at, 40);
}

#[test]
fn cursor_is_an_exclusive_lower_bound() {
    let mut store = OverrideStore::new();
    let _ = push_batch(
        &mut store,
        vec![record("a", 1, 10), record("b", 2, 20), record("c", 3, 30)],
        100,
    );

    // A record whose change time equals the cursor is excluded.
    let pulled = store.pull(Some(10), None);
    assert_eq!(prons(&pulled), vec!["b", "c"]);

    let pulled = store.pull(Some(30), None);
    assert!(pulled.is_empty());

    let pulled = store.pull(Some(9), None);
    assert_eq!(pulled.len(), 3);
}

#[test]
fn limit_truncates_the_ascending_stream() {
    let mut store = OverrideStore::new();
    let _ = push_batch(
        &mut store,
        vec![record("a", 1, 30), record("b", 2, 10), record("c", 3, 20)],
        100,
    );

    let pulled = store.pull(None, Some(2));
    assert_eq!(prons(&pulled), vec!["b", "c"]);

    let pulled = store.pull(None, Some(0));
    assert!(pulled.is_empty());

    let pulled = store.pull(None, Some(10));
    assert_eq!(pulled.len(), 3);
}

#[test]
fn missing_timestamps_take_the_current_time() {
    let mut store = OverrideStore::new();
    let rec = PushRecord {
        pronunciation: "ka".to_string(),
        fixed_bits1: 5,
        fixed_bits2: 6,
        fixed_burst_bits: 7,
        created_at: None,
        updated_at: None,
        note: Some("fresh".to_string()),
    };
    let out = push_batch(&mut store, vec![rec], 12_345);
    assert_eq!(out.items_created, 1);

    let pulled = store.pull(None, None);
    assert_eq!(pulled[0].created_at, 12_345);
    assert_eq!(pulled[0].updated_at, 12_345);
    assert_eq!(pulled[0].note.as_deref(), Some("fresh"));
}

#[test]
fn one_malformed_record_of_ten_never_aborts_the_stream() {
    let mut store = OverrideStore::new();
    let mut records = Vec::new();
    for k in 0..9i64 {
        records.push(record(&format!("p{}", k), k, 10 + k));
    }
    // Updated before created: refused per record, stream goes on.
    let mut bad = record("broken", 99, 5);
    bad.created_at = Some(50);
    records.insert(4, bad);

    let out = push_batch(&mut store, records, 100);
    assert_eq!(out.items_received, 10);
    assert_eq!(out.items_created, 9);
    assert_eq!(out.items_updated, 0);
    assert_eq!(out.errors, vec!["broken".to_string()]);
    assert_eq!(store.pull(None, None).len(), 9);
}

#[test]
fn session_tallies_record_by_record() {
    let mut store = OverrideStore::new();
    let mut session = PushSession::new();
    session.ingest(&mut store, record("ka", 1, 10), 100);
    session.ingest(&mut store, record("ka", 2, 20), 100);
    let empty_key = PushRecord { pronunciation: String::new(), ..record("x", 3, 30) };
    session.ingest(&mut store, empty_key, 100);
    let out = session.finish();
    assert_eq!(out.items_received, 3);
    assert_eq!(out.items_created, 1);
    assert_eq!(out.items_updated, 1);
    assert_eq!(out.errors, vec![String::new()]);
}

#[test]
fn negative_timestamp_is_malformed() {
    let mut store = OverrideStore::new();
    let out = push_batch(&mut store, vec![record("ka", 1, -1)], 100);
    assert_eq!(out.items_created, 0);
    assert_eq!(out.errors.len(), 1);
    assert_eq!(store.pull(None, None).len(), 0);
}

#[test]
fn read_only_credential_cannot_push_and_changes_nothing() {
    let mut server = AdminServer::new();
    let raw = server.auth.generate_api_key("reader", Permission::Read, 10).unwrap();
    let meta = raw.as_bytes().to_vec();

    let r = server.push_feature_overrides(Some(&meta), vec![record("ka", 1, 10)], 20);
    assert_eq!(r.err(), Some(AuthError::PermissionDenied));

    let pulled = server.pull_feature_overrides(Some(&meta), None, None, 30).unwrap();
    assert!(pulled.is_empty());
}

#[test]
fn unauthenticated_push_changes_nothing() {
    let mut server = AdminServer::new();
    let r = server.push_feature_overrides(None, vec![record("ka", 1, 10)], 20);
    assert_eq!(r.err(), Some(AuthError::Unauthenticated));
    assert_eq!(server.overrides.len(), 0);
}

#[test]
fn push_pull_scenario_with_cursor() {
    let mut server = AdminServer::new();
    let raw = server.auth.generate_api_key("writer", Permission::ReadWrite, 10).unwrap();
    let meta = raw.as_bytes().to_vec();

    let records = vec![record("a", 1, 100), record("b", 2, 200), record("c", 3, 300)];
    let out = server.push_feature_overrides(Some(&meta), records, 50).unwrap();
    assert_eq!(out.items_received, 3);
    assert_eq!(out.items_created, 3);
    assert!(out.errors.is_empty());

    // Cursor at the change time of "a": exactly "b" then "c" come back.
    let pulled = server.pull_feature_overrides(Some(&meta), Some(100), None, 60).unwrap();
    assert_eq!(prons(&pulled), vec!["b", "c"]);
}

#[test]
fn status_query_reports_counts_and_time() {
    let mut server = AdminServer::new();
    let raw = server.auth.generate_api_key("reader", Permission::Read, 10).unwrap();
    let meta = raw.as_bytes().to_vec();

    let _ = server.push_feature_overrides(Some(&meta), vec![record("ka", 1, 10)], 20);
    let st = server.get_sync_status(Some(&meta), 777).unwrap();
    assert_eq!(st.server_time, 777);
    // The read-tier push above was refused, so nothing is stored.
    assert_eq!(st.total_feature_overrides, 0);
    assert_eq!(st.total_confirmed_features, 0);
    assert_eq!(st.total_rule_patterns, 0);
}

#[test]
fn declared_extension_points_surface_not_implemented() {
    let server = AdminServer::new();
    assert_eq!(server.confirm_features().err(), Some(AuthError::NotImplemented));
    assert_eq!(server.get_confirmed_features().err(), Some(AuthError::NotImplemented));
    assert_eq!(server.unconfirm_feature().err(), Some(AuthError::NotImplemented));
    assert_eq!(server.push_rule_patterns().err(), Some(AuthError::NotImplemented));
    assert_eq!(server.pull_rule_patterns().err(), Some(AuthError::NotImplemented));
    assert_eq!(server.record_sync().err(), Some(AuthError::NotImplemented));
}

#[test]
fn upsert_reports_created_then_updated() {
    let mut store = OverrideStore::new();
    let row = FeatureOverride {
        pronunciation: "ka".to_string(),
        fixed_bits1: 1,
        fixed_bits2: 2,
        fixed_burst_bits: 3,
        created_at: 5,
        updated_at: 9,
        note: None,
    };
    assert!(!store.upsert(row.duplicate()));
    assert!(store.upsert(row));
    assert_eq!(store.len(), 1);
    assert_eq!(store.get(0).updated_at, 9);
}
