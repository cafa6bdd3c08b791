//! The normalizer, the object-store helpers, the wildcard filter and the
//! transposed form.

use filemanager::error::Error;
use filemanager::event::{EventType, FlatS3EventMessage, FlatS3EventMessages, Reason,
    TransposedS3EventMessages};
use filemanager::filter::{wildcard_match, S3ObjectsFilter};
use filemanager::json::JsonValue;
use filemanager::store::{
    apply_head, crawl_messages_from_listing, get_version_id, ingest_id_from_tags, merge_pages,
    should_continue, HeadFields, ListPage, ObjectVersionEntry, ResponseHeaders,
};
use filemanager::table::S3ObjectTable;
use filemanager::text::{default_version_id, quote_e_tag};

fn ev(key: &str, seq: Option<&str>, t: EventType) -> FlatS3EventMessage {
    FlatS3EventMessage::new_with_generated_id()
        .with_bucket("bucket".to_string())
        .with_key(key.to_string())
        .with_version_id("1".to_string())
        .with_sequencer(seq.map(|s| s.to_string()))
        .with_event_type(t)
}

#[test]
fn normalize_drops_other_events() {
    let batch = FlatS3EventMessages::new(vec![
        ev("key", Some("1"), EventType::Created),
        ev("key", Some("2"), EventType::Other),
    ]);
    let out = batch.normalize().into_inner();
    assert_eq!(out.len(), 1);
    assert_eq!(out[0].sequencer.as_deref(), Some("1"));
}

#[test]
fn normalize_collapses_duplicates() {
    let e = ev("key", Some("1"), EventType::Created);
    let batch = FlatS3EventMessages::new(vec![e.duplicate(), e.duplicate(), e.duplicate()]);
    let out = batch.normalize().into_inner();
    assert_eq!(out.len(), 1);
    assert_eq!(out[0].number_duplicate_events, 2);
}

#[test]
fn normalize_sorts_by_sequencer_then_type() {
    let batch = FlatS3EventMessages::new(vec![
        ev("key", Some("2"), EventType::Created),
        ev("key", Some("1"), EventType::Deleted),
        ev("key", Some("1"), EventType::Created),
        ev("key", None, EventType::Created),
    ]);
    let out = batch.normalize().into_inner();
    assert_eq!(out.len(), 4);
    assert_eq!(out[0].sequencer, None);
    assert_eq!(out[1].sequencer.as_deref(), Some("1"));
    assert_eq!(out[1].event_type, EventType::Created);
    assert_eq!(out[2].sequencer.as_deref(), Some("1"));
    assert_eq!(out[2].event_type, EventType::Deleted);
    assert_eq!(out[3].sequencer.as_deref(), Some("2"));
}

#[test]
fn quote_e_tag_wraps_once() {
    assert_eq!(quote_e_tag("abc".to_string()), "\"abc\"");
    assert_eq!(quote_e_tag("\"abc\"".to_string()), "\"abc\"");
    assert_eq!(quote_e_tag("".to_string()), "\"\"");
}

#[test]
fn version_id_sentinel_is_omitted_on_the_wire() {
    assert_eq!(get_version_id("null"), None);
    assert_eq!(get_version_id("abc"), Some("abc".to_string()));
    assert_eq!(default_version_id(), "null");
}

fn listing_entry(key: &str, size: i64, latest: bool) -> ObjectVersionEntry {
    ObjectVersionEntry {
        key: Some(key.to_string()),
        version_id: None,
        size: Some(size),
        e_tag: Some("etag".to_string()),
        is_latest: Some(latest),
        has_restore_expiry: false,
    }
}

#[test]
fn crawl_messages() {
    let entries = vec![
        listing_entry("key", 1, true),
        listing_entry("old", 3, false),
        listing_entry("key1", 2, true),
    ];
    let out = crawl_messages_from_listing(&entries, "bucket", &None).into_inner();
    assert_eq!(out.len(), 2);
    for record in out.iter() {
        assert_eq!(record.event_type, EventType::Created);
        assert_eq!(record.bucket, "bucket");
        assert_eq!(record.version_id, default_version_id());
        assert_eq!(record.e_tag.as_deref(), Some("\"etag\""));
        assert_eq!(record.sequencer, None);
        assert_eq!(record.storage_class, None);
        assert_eq!(record.last_modified_date, None);
        assert!(!record.is_delete_marker);
        assert!(record.is_current_state);
        assert_eq!(record.reason, Reason::Crawl);
    }
    assert_eq!(out[0].key, "key");
    assert_eq!(out[0].size, Some(1));
    assert_eq!(out[1].key, "key1");
    assert_eq!(out[1].size, Some(2));
}

#[test]
fn crawl_restored_reason() {
    let mut entry = listing_entry("key", 1, true);
    entry.has_restore_expiry = true;
    let out = crawl_messages_from_listing(&vec![entry], "bucket", &None).into_inner();
    assert_eq!(out[0].reason, Reason::CrawlRestored);
}

#[test]
fn head_enrichment_populates_fields() {
    let head = HeadFields {
        size: Some(42),
        e_tag: Some("etag".to_string()),
        storage_class: Some(filemanager::event::StorageClass::IntelligentTiering),
        last_modified_date: Some("1970-01-01 00:00:00.000000 +00:00".to_string()),
        archive_status: Some(filemanager::event::ArchiveStatus::DeepArchiveAccess),
        sha256: Some("digest".to_string()),
    };
    let out = apply_head(ev("key", Some("1"), EventType::Created), &head);
    assert_eq!(out.size, Some(42));
    assert_eq!(out.e_tag.as_deref(), Some("\"etag\""));
    assert_eq!(
        out.storage_class,
        Some(filemanager::event::StorageClass::IntelligentTiering)
    );
    assert_eq!(
        out.last_modified_date.as_deref(),
        Some("1970-01-01 00:00:00.000000 +00:00")
    );
    assert_eq!(out.sha256.as_deref(), Some("digest"));
    assert_eq!(out.key, "key");
}

#[test]
fn ingest_id_read_from_tag_set() {
    let tags = vec![
        ("other".to_string(), "x".to_string()),
        (
            "ingest_id".to_string(),
            "00000000-0000-0000-0000-000000000001".to_string(),
        ),
    ];
    assert_eq!(ingest_id_from_tags(&tags, "ingest_id"), Some(1));
    assert_eq!(ingest_id_from_tags(&tags, "missing"), None);
    let bad = vec![("ingest_id".to_string(), "not-a-uuid".to_string())];
    assert_eq!(ingest_id_from_tags(&bad, "ingest_id"), None);
}

#[test]
fn pagination_merges_pages() {
    let page = |keys: Vec<&str>, truncated: bool| ListPage {
        versions: keys.into_iter().map(|k| listing_entry(k, 1, true)).collect(),
        is_truncated: Some(truncated),
        next_key_marker: Some("marker".to_string()),
        next_version_id_marker: None,
        max_keys: Some(2),
    };
    let first = page(vec!["a", "b"], true);
    assert!(should_continue(&first));
    let second = page(vec!["c"], false);
    let merged = merge_pages(second, first);
    assert!(!should_continue(&merged));
    let keys: Vec<String> = merged
        .versions
        .iter()
        .map(|v| v.key.clone().unwrap())
        .collect();
    assert_eq!(keys, vec!["c".to_string(), "a".to_string(), "b".to_string()]);
    assert_eq!(merged.max_keys, Some(4));
}

#[test]
fn response_headers_accessors() {
    let headers = ResponseHeaders::new(
        "attachment".to_string(),
        Some("text/plain".to_string()),
        None,
    );
    assert_eq!(headers.content_disposition(), "attachment");
    assert_eq!(headers.content_type(), Some("text/plain"));
    assert_eq!(headers.content_encoding(), None);
}

#[test]
fn wildcard_matching() {
    assert!(wildcard_match("*a*", "attributeId", true));
    assert!(!wildcard_match("*A*", "attributeId", true));
    assert!(wildcard_match("*A*", "attributeId", false));
    assert!(wildcard_match("1970-01-0*", "1970-01-01 00:00:00", true));
    assert!(wildcard_match("1970-01-?*", "1970-01-01 00:00:00", true));
    assert!(!wildcard_match("1970-02-0*", "1970-01-01 00:00:00", true));
    assert!(wildcard_match("", "", true));
    assert!(wildcard_match("*", "", true));
    assert!(!wildcard_match("?", "", true));
}

fn attributed(key: &str, value: &str) -> FlatS3EventMessage {
    ev(key, Some("1"), EventType::Created).with_attributes(Some(JsonValue::Object(vec![(
        "attributeId".to_string(),
        JsonValue::Text(value.to_string()),
    )])))
}

#[test]
fn filter_by_attribute_wildcard() {
    let mut table = S3ObjectTable::new();
    table.ingest(&FlatS3EventMessages::new(vec![
        attributed("key", "attributeId"),
        attributed("key1", "other"),
    ]));
    let filter = S3ObjectsFilter {
        bucket: None,
        key: None,
        version_id: None,
        event_time: None,
        attributes: vec![("/attributeId".to_string(), "*a*".to_string())],
    };
    let hits = table.filter_all(&filter, true, None).into_inner();
    assert_eq!(hits.len(), 1);
    assert_eq!(hits[0].key, "key");

    // case-sensitive misses, case-insensitive hits
    let upper = S3ObjectsFilter {
        bucket: None,
        key: None,
        version_id: None,
        event_time: None,
        attributes: vec![("/attributeId".to_string(), "*A*".to_string())],
    };
    assert_eq!(table.filter_all(&upper, true, None).into_inner().len(), 0);
    assert_eq!(table.filter_all(&upper, false, None).into_inner().len(), 1);
}

#[test]
fn filter_by_event_time_wildcard_and_current_state() {
    let mut table = S3ObjectTable::new();
    table.ingest(&FlatS3EventMessages::new(vec![
        ev("key", Some("1"), EventType::Created)
            .with_event_time(Some("1970-01-01 00:00:00".to_string())),
        ev("key", Some("2"), EventType::Created)
            .with_event_time(Some("1980-01-01 00:00:00".to_string())),
    ]));
    let filter = S3ObjectsFilter {
        bucket: None,
        key: None,
        version_id: None,
        event_time: Some("1970-01-0*".to_string()),
        attributes: Vec::new(),
    };
    let hits = table.filter_all(&filter, true, None).into_inner();
    assert_eq!(hits.len(), 1);
    assert_eq!(hits[0].sequencer.as_deref(), Some("1"));

    let none = S3ObjectsFilter {
        bucket: None,
        key: None,
        version_id: None,
        event_time: None,
        attributes: Vec::new(),
    };
    let current = table.filter_all(&none, true, Some(true)).into_inner();
    assert_eq!(current.len(), 1);
    assert_eq!(current[0].sequencer.as_deref(), Some("2"));
}

#[test]
fn transpose_round_trip() {
    let batch = FlatS3EventMessages::new(vec![
        ev("key", Some("1"), EventType::Created).with_size(Some(1)),
        ev("key1", None, EventType::Deleted).with_is_delete_marker(true),
    ]);
    let transposed = TransposedS3EventMessages::from_flat(&batch);
    assert_eq!(transposed.buckets.len(), 2);
    assert_eq!(transposed.keys, vec!["key".to_string(), "key1".to_string()]);
    assert_eq!(transposed.sizes[0], Some(1));
    assert_eq!(transposed.is_delete_markers, vec![false, true]);
    let back = transposed.to_flat().into_inner();
    assert_eq!(back.len(), 2);
    assert_eq!(back[0].key, "key");
    assert_eq!(back[0].size, Some(1));
    assert_eq!(back[1].key, "key1");
    assert!(back[1].is_delete_marker);
    assert_eq!(back[1].event_type, EventType::Deleted);
}

#[test]
fn s3_error_message_carries_call_context() {
    let msg = filemanager::error::s3_error_message(
        &Some("AccessDenied".to_string()),
        "PutObjectTagging",
        "denied",
    );
    assert_eq!(msg, "AccessDenied for PutObjectTagging: denied");
    let unknown = filemanager::error::s3_error_message(&None, "HeadObject", "timeout");
    assert_eq!(unknown, "Unknown for HeadObject: timeout");
    let err = filemanager::error::s3_error(&None, "HeadObject", "timeout");
    assert!(matches!(err, Error::S3Error(m) if m == "Unknown for HeadObject: timeout"));
}

#[test]
fn errors_classify_client_faults() {
    assert!(Error::QueryError("bad".to_string()).is_client_error());
    assert!(Error::InvalidQuery("bad".to_string()).is_client_error());
    assert!(!Error::S3Error("fault".to_string()).is_client_error());
    assert!(!Error::OverflowError.is_client_error());
}
