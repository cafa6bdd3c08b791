//! The reconciliation engine on the seed scenarios: current-state choice
//! under the live-set rule, idempotence, order-independence, crawl parity
//! and attribute carry-over.

use filemanager::event::{EventType, FlatS3EventMessage, FlatS3EventMessages, Reason};
use filemanager::json::JsonValue;
use filemanager::table::S3ObjectTable;

fn ev(version: &str, seq: &str, t: EventType, marker: bool) -> FlatS3EventMessage {
    FlatS3EventMessage::new_with_generated_id()
        .with_bucket("bucket".to_string())
        .with_key("key".to_string())
        .with_version_id(version.to_string())
        .with_sequencer(Some(seq.to_string()))
        .with_event_type(t)
        .with_is_delete_marker(marker)
}

fn ingest(table: &mut S3ObjectTable, events: Vec<FlatS3EventMessage>) {
    let batch = FlatS3EventMessages::new(events);
    table.ingest(&batch);
}

fn current_versions(table: &S3ObjectTable) -> Vec<String> {
    let mut out = Vec::new();
    for row in table.rows.iter() {
        if row.is_current_state {
            out.push(row.version_id.clone());
        }
    }
    out
}

#[test]
fn created_sequence_latest_current() {
    let mut table = S3ObjectTable::new();
    ingest(
        &mut table,
        vec![
            ev("1", "1", EventType::Created, false),
            ev("2", "2", EventType::Created, false),
            ev("3", "3", EventType::Created, false),
        ],
    );
    assert_eq!(table.rows.len(), 3);
    assert_eq!(current_versions(&table), vec!["3".to_string()]);
}

fn table_after_three_creates() -> S3ObjectTable {
    let mut table = S3ObjectTable::new();
    ingest(
        &mut table,
        vec![
            ev("1", "1", EventType::Created, false),
            ev("2", "2", EventType::Created, false),
            ev("3", "3", EventType::Created, false),
        ],
    );
    table
}

#[test]
fn permanent_delete_of_non_current_keeps_current() {
    let mut table = table_after_three_creates();
    ingest(&mut table, vec![ev("2", "4", EventType::Deleted, false)]);
    assert_eq!(table.rows.len(), 4);
    assert_eq!(current_versions(&table), vec!["3".to_string()]);
}

#[test]
fn upload_over_delete_marker_becomes_current() {
    let mut table = table_after_three_creates();
    ingest(&mut table, vec![ev("2", "4", EventType::Deleted, false)]);
    ingest(&mut table, vec![ev("4", "5", EventType::Deleted, true)]);
    ingest(&mut table, vec![ev("5", "6", EventType::Created, false)]);
    assert_eq!(table.rows.len(), 6);
    assert_eq!(current_versions(&table), vec!["5".to_string()]);
}

#[test]
fn permanent_delete_of_current_promotes_delete_marker() {
    let mut table = table_after_three_creates();
    ingest(&mut table, vec![ev("2", "4", EventType::Deleted, false)]);
    ingest(&mut table, vec![ev("4", "5", EventType::Deleted, true)]);
    ingest(&mut table, vec![ev("5", "6", EventType::Created, false)]);
    ingest(&mut table, vec![ev("5", "7", EventType::Deleted, false)]);
    assert_eq!(current_versions(&table), vec!["4".to_string()]);
}

#[test]
fn deleting_marker_and_version_promotes_oldest() {
    let mut table = table_after_three_creates();
    ingest(&mut table, vec![ev("2", "4", EventType::Deleted, false)]);
    ingest(&mut table, vec![ev("4", "5", EventType::Deleted, true)]);
    ingest(&mut table, vec![ev("5", "6", EventType::Created, false)]);
    ingest(&mut table, vec![ev("5", "7", EventType::Deleted, false)]);
    ingest(&mut table, vec![ev("4", "8", EventType::Deleted, false)]);
    assert_eq!(current_versions(&table), vec!["3".to_string()]);
    ingest(&mut table, vec![ev("3", "9", EventType::Deleted, false)]);
    assert_eq!(current_versions(&table), vec!["1".to_string()]);
}

#[test]
fn deleting_last_version_leaves_no_current() {
    let mut table = table_after_three_creates();
    ingest(&mut table, vec![ev("2", "4", EventType::Deleted, false)]);
    ingest(&mut table, vec![ev("4", "5", EventType::Deleted, true)]);
    ingest(&mut table, vec![ev("5", "6", EventType::Created, false)]);
    ingest(&mut table, vec![ev("5", "7", EventType::Deleted, false)]);
    ingest(&mut table, vec![ev("4", "8", EventType::Deleted, false)]);
    ingest(&mut table, vec![ev("3", "9", EventType::Deleted, false)]);
    ingest(&mut table, vec![ev("1", "99", EventType::Deleted, false)]);
    assert_eq!(table.rows.len(), 10);
    assert!(current_versions(&table).is_empty());
}

#[test]
fn current_unique_per_identity() {
    let mut table = S3ObjectTable::new();
    ingest(
        &mut table,
        vec![
            ev("1", "1", EventType::Created, false),
            ev("2", "2", EventType::Created, false),
            ev("1", "3", EventType::Deleted, false),
            ev("3", "4", EventType::Created, false),
        ],
    );
    assert_eq!(current_versions(&table).len(), 1);
}

fn row_fingerprint(row: &FlatS3EventMessage) -> String {
    format!(
        "{}/{}/{}/{:?}/{:?}/{}/{}/{}",
        row.bucket,
        row.key,
        row.version_id,
        row.sequencer,
        row.event_type,
        row.is_delete_marker,
        row.is_current_state,
        row.number_reordered,
    )
}

fn fingerprints(table: &S3ObjectTable) -> Vec<String> {
    let mut v: Vec<String> = table.rows.iter().map(row_fingerprint).collect();
    v.sort();
    v
}

#[test]
fn ingest_twice_is_idempotent_modulo_duplicates() {
    let batch = vec![
        ev("1", "1", EventType::Created, false),
        ev("2", "2", EventType::Created, false),
        ev("1", "3", EventType::Deleted, false),
    ];
    let copy: Vec<FlatS3EventMessage> = batch.iter().map(|e| e.duplicate()).collect();
    let mut table = S3ObjectTable::new();
    ingest(&mut table, batch);
    let first = fingerprints(&table);
    ingest(&mut table, copy);
    let second = fingerprints(&table);
    assert_eq!(first, second);
    // only the duplicate counters moved
    for row in table.rows.iter() {
        assert_eq!(row.number_duplicate_events, 1);
    }
}

#[test]
fn crawl_ingest_twice_is_idempotent_modulo_duplicates() {
    let crawl = |key: &str| {
        FlatS3EventMessage::new_with_generated_id()
            .with_bucket("bucket".to_string())
            .with_key(key.to_string())
            .with_version_id("null".to_string())
            .with_sequencer(None)
            .with_event_type(EventType::Created)
            .with_is_current_state(true)
            .with_reason(Reason::Crawl)
    };
    let mut table = S3ObjectTable::new();
    ingest(&mut table, vec![crawl("key"), crawl("key1")]);
    let first = fingerprints(&table);
    assert_eq!(table.rows.len(), 2);
    ingest(&mut table, vec![crawl("key"), crawl("key1")]);
    assert_eq!(fingerprints(&table), first);
    assert_eq!(table.rows.len(), 2);
}

#[test]
fn ingest_order_independent() {
    let make = || {
        vec![
            ev("1", "1", EventType::Created, false),
            ev("2", "2", EventType::Created, false),
            ev("2", "3", EventType::Deleted, false),
        ]
    };
    let forward = make();
    let mut backward = make();
    backward.reverse();
    let mut t1 = S3ObjectTable::new();
    let mut t2 = S3ObjectTable::new();
    ingest(&mut t1, forward);
    ingest(&mut t2, backward);
    assert_eq!(fingerprints(&t1), fingerprints(&t2));
}

#[test]
fn crawl_parity_one_current_per_key() {
    let crawl = |key: &str| {
        FlatS3EventMessage::new_with_generated_id()
            .with_bucket("bucket".to_string())
            .with_key(key.to_string())
            .with_version_id("null".to_string())
            .with_sequencer(None)
            .with_event_type(EventType::Created)
            .with_is_current_state(true)
            .with_reason(Reason::Crawl)
    };
    let mut table = S3ObjectTable::new();
    ingest(&mut table, vec![crawl("key"), crawl("key1")]);
    assert_eq!(table.rows.len(), 2);
    for row in table.rows.iter() {
        assert!(row.is_current_state);
        assert_eq!(
            row.sequencer.as_deref(),
            Some("000000000000000000000000000000-0100000000000000")
        );
    }
}

#[test]
fn crawl_sequencer_synthesized_after_live_event() {
    let mut table = S3ObjectTable::new();
    ingest(
        &mut table,
        vec![ev("1", "000000000000000000000000000000", EventType::Created, false)],
    );
    let crawl = FlatS3EventMessage::new_with_generated_id()
        .with_bucket("bucket".to_string())
        .with_key("key".to_string())
        .with_version_id("1".to_string())
        .with_sequencer(None)
        .with_event_type(EventType::Created)
        .with_is_current_state(true)
        .with_reason(Reason::Crawl);
    ingest(&mut table, vec![crawl]);
    assert_eq!(table.rows.len(), 2);
    let crawl_row = table
        .rows
        .iter()
        .find(|r| r.reason == Reason::Crawl)
        .unwrap();
    assert_eq!(
        crawl_row.sequencer.as_deref(),
        Some("000000000000000000000000000000-0100000000000000")
    );
    assert!(crawl_row.is_current_state);
    let live_row = table
        .rows
        .iter()
        .find(|r| r.reason != Reason::Crawl)
        .unwrap();
    assert!(!live_row.is_current_state);
}

#[test]
fn crawl_sequencer_follows_low_live_sequencer() {
    // an existing sequencer ordering below the zero-prefix string still
    // seeds the synthesized sequencer
    let mut table = S3ObjectTable::new();
    ingest(&mut table, vec![ev("1", "0", EventType::Created, false)]);
    let crawl = FlatS3EventMessage::new_with_generated_id()
        .with_bucket("bucket".to_string())
        .with_key("key".to_string())
        .with_version_id("1".to_string())
        .with_sequencer(None)
        .with_event_type(EventType::Created)
        .with_is_current_state(true)
        .with_reason(Reason::Crawl);
    ingest(&mut table, vec![crawl]);
    assert_eq!(table.rows.len(), 2);
    let crawl_row = table
        .rows
        .iter()
        .find(|r| r.reason == Reason::Crawl)
        .unwrap();
    assert_eq!(crawl_row.sequencer.as_deref(), Some("0-0100000000000000"));
    assert!(crawl_row.is_current_state);
}

#[test]
fn attributes_carry_over_on_recrawl() {
    let attrs = JsonValue::Object(vec![(
        "attribute".to_string(),
        JsonValue::Text("1".to_string()),
    )]);
    let mut table = S3ObjectTable::new();
    ingest(
        &mut table,
        vec![ev("1", "1", EventType::Created, false).with_attributes(Some(attrs))],
    );
    let crawl = FlatS3EventMessage::new_with_generated_id()
        .with_bucket("bucket".to_string())
        .with_key("key".to_string())
        .with_version_id("1".to_string())
        .with_sequencer(None)
        .with_event_type(EventType::Created)
        .with_is_current_state(true)
        .with_reason(Reason::Crawl);
    ingest(&mut table, vec![crawl]);
    let crawl_row = table
        .rows
        .iter()
        .find(|r| r.reason == Reason::Crawl)
        .unwrap();
    match &crawl_row.attributes {
        Some(JsonValue::Object(members)) => {
            assert_eq!(members.len(), 1);
            assert_eq!(members[0].0, "attribute");
            match &members[0].1 {
                JsonValue::Text(s) => assert_eq!(s, "1"),
                _ => panic!("expected text attribute"),
            }
        }
        _ => panic!("expected carried attributes"),
    }
}

#[test]
fn duplicate_events_collapse_and_count() {
    let e = ev("1", "1", EventType::Created, false);
    let batch = vec![e.duplicate(), e.duplicate(), e.duplicate()];
    let mut table = S3ObjectTable::new();
    ingest(&mut table, batch);
    assert_eq!(table.rows.len(), 1);
    assert_eq!(table.rows[0].number_duplicate_events, 2);
}

#[test]
fn reordered_arrival_is_counted() {
    let mut table = S3ObjectTable::new();
    ingest(&mut table, vec![ev("1", "2", EventType::Created, false)]);
    ingest(&mut table, vec![ev("1", "1", EventType::Created, false)]);
    let late = table
        .rows
        .iter()
        .find(|r| r.sequencer.as_deref() == Some("1"))
        .unwrap();
    assert_eq!(late.number_reordered, 1);
    let early = table
        .rows
        .iter()
        .find(|r| r.sequencer.as_deref() == Some("2"))
        .unwrap();
    assert_eq!(early.number_reordered, 0);
}

#[test]
fn test_select_current_by_bucket_key() {
    let mut table = S3ObjectTable::new();
    ingest(
        &mut table,
        vec![
            ev("1", "1", EventType::Created, false),
            ev("1", "2", EventType::Created, false)
                .with_key("key1".to_string()),
        ],
    );
    let buckets = vec!["bucket".to_string(), "bucket".to_string()];
    let keys = vec!["key".to_string(), "key1".to_string()];
    let version_ids = vec!["1".to_string(), "1".to_string()];
    let results = table
        .select_current_by_bucket_key(&buckets, &keys, &version_ids)
        .into_inner();
    assert_eq!(results.len(), 2);
    assert!(results.iter().all(|r| r.bucket == "bucket" && r.is_current_state));
}

#[test]
fn test_select_all_by_bucket_key() {
    let mut table = S3ObjectTable::new();
    ingest(
        &mut table,
        vec![
            ev("1", "1", EventType::Created, false),
            ev("1", "2", EventType::Deleted, false),
            ev("1", "3", EventType::Created, false)
                .with_key("key1".to_string()),
        ],
    );
    let buckets = vec!["bucket".to_string(), "bucket".to_string()];
    let keys = vec!["key".to_string(), "key1".to_string()];
    let version_ids = vec!["1".to_string(), "1".to_string()];
    let results = table
        .select_all_by_bucket_key(&buckets, &keys, &version_ids)
        .into_inner();
    assert_eq!(results.len(), 3);
}

#[test]
fn test_reset_current_state() {
    let mut table = S3ObjectTable::new();
    ingest(
        &mut table,
        vec![
            ev("1", "1", EventType::Created, false),
            ev("1", "2", EventType::Created, false)
                .with_key("key1".to_string()),
        ],
    );
    assert_eq!(current_versions(&table).len(), 2);
    let buckets = vec!["bucket".to_string()];
    let keys = vec!["key".to_string()];
    table.reset_current_state(&buckets, &keys);
    assert!(table
        .rows
        .iter()
        .filter(|r| r.key == "key")
        .all(|r| !r.is_current_state));
    assert!(table
        .rows
        .iter()
        .filter(|r| r.key == "key1")
        .any(|r| r.is_current_state));
}
