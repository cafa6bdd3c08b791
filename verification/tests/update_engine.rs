//! The update engine: JSON-Patch attribute mutation, the ingest-id patch,
//! and the tag write-back decision.

use filemanager::error::Error;
use filemanager::json::JsonValue;
use filemanager::patch::{
    apply_attributes_patch, default_ingester_tag_name, ingest_tag_pair, tag_update_plan,
    HeadOutcome, Patch, PatchBody, PatchOp, TagUpdatePlan, UpdateIngestIdParams, UpdateTagKind,
};

fn obj(members: Vec<(&str, &str)>) -> JsonValue {
    JsonValue::Object(
        members
            .into_iter()
            .map(|(k, v)| (k.to_string(), JsonValue::Text(v.to_string())))
            .collect(),
    )
}

fn assert_same(a: &JsonValue, b: &JsonValue) {
    assert!(a.same_as(b));
}

#[test]
fn add_extends_attributes() {
    let doc = obj(vec![("x", "y")]);
    let ops = vec![PatchOp::Add {
        path: "/a".to_string(),
        value: JsonValue::Text("1".to_string()),
    }];
    let out = apply_attributes_patch(doc, &ops).unwrap();
    assert_same(&out, &obj(vec![("x", "y"), ("a", "1")]));
}

#[test]
fn add_replaces_existing_path() {
    let doc = obj(vec![("x", "y")]);
    let ops = vec![PatchOp::Add {
        path: "/x".to_string(),
        value: JsonValue::Text("z".to_string()),
    }];
    let out = apply_attributes_patch(doc, &ops).unwrap();
    assert_same(&out, &obj(vec![("x", "z")]));
}

#[test]
fn replace_is_rejected_for_attributes() {
    let doc = obj(vec![("x", "y")]);
    let ops = vec![PatchOp::Replace {
        path: "/x".to_string(),
        value: JsonValue::Text("y".to_string()),
    }];
    let err = apply_attributes_patch(doc, &ops).unwrap_err();
    assert!(err.is_client_error());
    assert!(matches!(err, Error::QueryError(_)));
}

#[test]
fn remove_is_rejected_for_attributes() {
    let doc = obj(vec![("x", "y")]);
    let ops = vec![PatchOp::Remove { path: "/x".to_string() }];
    assert!(apply_attributes_patch(doc, &ops).is_err());
}

#[test]
fn failing_test_aborts_whole_patch() {
    let doc = obj(vec![("attributeId", "1")]);
    let ops = vec![
        PatchOp::Test {
            path: "/attributeId".to_string(),
            value: JsonValue::Text("2".to_string()),
        },
        PatchOp::Add {
            path: "/anotherAttribute".to_string(),
            value: JsonValue::Text("anotherAttribute".to_string()),
        },
    ];
    let err = apply_attributes_patch(doc, &ops).unwrap_err();
    assert!(err.is_client_error());
}

#[test]
fn passing_test_then_add() {
    let doc = obj(vec![("attributeId", "1")]);
    let ops = vec![
        PatchOp::Test {
            path: "/attributeId".to_string(),
            value: JsonValue::Text("1".to_string()),
        },
        PatchOp::Add {
            path: "/anotherAttribute".to_string(),
            value: JsonValue::Text("anotherAttribute".to_string()),
        },
    ];
    let out = apply_attributes_patch(doc, &ops).unwrap();
    assert_same(
        &out,
        &obj(vec![("attributeId", "1"), ("anotherAttribute", "anotherAttribute")]),
    );
}

#[test]
fn copy_duplicates_a_member() {
    let doc = obj(vec![("x", "y")]);
    let ops = vec![PatchOp::CopyFrom {
        from: "/x".to_string(),
        path: "/z".to_string(),
    }];
    let out = apply_attributes_patch(doc, &ops).unwrap();
    assert_same(&out, &obj(vec![("x", "y"), ("z", "y")]));
}

#[test]
fn nested_add_through_pointer() {
    let doc = JsonValue::Object(vec![(
        "outer".to_string(),
        obj(vec![("inner", "1")]),
    )]);
    let ops = vec![PatchOp::Add {
        path: "/outer/other".to_string(),
        value: JsonValue::Text("2".to_string()),
    }];
    let out = apply_attributes_patch(doc, &ops).unwrap();
    let expect = JsonValue::Object(vec![(
        "outer".to_string(),
        obj(vec![("inner", "1"), ("other", "2")]),
    )]);
    assert_same(&out, &expect);
}

fn ingest_body(op: PatchOp) -> PatchBody {
    PatchBody::NestedIngestId { ingest_id: Patch::new(vec![op]) }
}

#[test]
fn update_ingest_id_single() {
    let body = ingest_body(PatchOp::Add {
        path: "/".to_string(),
        value: JsonValue::Text("00000000-0000-0000-0000-000000000000".to_string()),
    });
    assert_eq!(body.extract_ingest_id().unwrap(), Some(0));

    let body = ingest_body(PatchOp::Replace {
        path: "/".to_string(),
        value: JsonValue::Text("00000000-0000-0000-0000-000000000001".to_string()),
    });
    assert_eq!(body.extract_ingest_id().unwrap(), Some(1));

    let body = ingest_body(PatchOp::Remove { path: "/".to_string() });
    assert_eq!(body.extract_ingest_id().unwrap(), None);
}

#[test]
fn update_ingest_id_error() {
    // a malformed UUID
    let body = ingest_body(PatchOp::Add {
        path: "/".to_string(),
        value: JsonValue::Text("00000000-0000-0000-0000-00000000000".to_string()),
    });
    assert!(body.extract_ingest_id().is_err());

    // a path other than `/`
    let body = ingest_body(PatchOp::Add {
        path: "/ingestId".to_string(),
        value: JsonValue::Text("00000000-0000-0000-0000-000000000000".to_string()),
    });
    assert!(body.extract_ingest_id().is_err());

    // an operation that is neither add, remove nor replace
    let body = ingest_body(PatchOp::Test {
        path: "/".to_string(),
        value: JsonValue::Text("00000000-0000-0000-0000-00000000000".to_string()),
    });
    assert!(body.extract_ingest_id().is_err());

    // more than one operation
    let body = PatchBody::NestedIngestId {
        ingest_id: Patch::new(vec![
            PatchOp::Add {
                path: "/".to_string(),
                value: JsonValue::Text("00000000-0000-0000-0000-00000000000".to_string()),
            },
            PatchOp::Add {
                path: "/".to_string(),
                value: JsonValue::Text("00000000-0000-0000-0000-00000000000".to_string()),
            },
        ]),
    };
    assert!(body.extract_ingest_id().is_err());
}

#[test]
fn patch_body_accessors() {
    let ops = vec![PatchOp::Add {
        path: "/a".to_string(),
        value: JsonValue::Text("1".to_string()),
    }];
    let body = PatchBody::new(Patch::new(ops));
    assert_eq!(body.get_ref().ops().len(), 1);
    assert_eq!(body.into_inner().into_inner().len(), 1);
}

#[test]
fn update_tag_kind_modes() {
    assert!(UpdateTagKind::Current.is_current_update());
    assert!(!UpdateTagKind::Current.is_live_update());
    assert!(UpdateTagKind::Live.is_live_update());
    assert!(!UpdateTagKind::Live.is_current_update());
}

#[test]
fn tag_write_back_on_current_record() {
    // a current record under `current` mode issues exactly one tag write
    let params = UpdateIngestIdParams { update_tag: Some(UpdateTagKind::Current) };
    assert_eq!(tag_update_plan(&params, Some(7), true), TagUpdatePlan::PutTag(7));
    assert_eq!(tag_update_plan(&params, Some(7), false), TagUpdatePlan::DoNothing);
    assert_eq!(tag_update_plan(&params, None, true), TagUpdatePlan::DoNothing);

    let live = UpdateIngestIdParams { update_tag: Some(UpdateTagKind::Live) };
    assert_eq!(tag_update_plan(&live, Some(7), false), TagUpdatePlan::ProbeThenPut(7));

    let off = UpdateIngestIdParams::default();
    assert_eq!(tag_update_plan(&off, Some(7), true), TagUpdatePlan::DoNothing);
}

#[test]
fn object_exists_from_head_outcomes() {
    assert_eq!(PatchBody::object_exists(&HeadOutcome::Found).unwrap(), true);
    assert_eq!(PatchBody::object_exists(&HeadOutcome::NotFound).unwrap(), false);
    assert_eq!(
        PatchBody::object_exists(&HeadOutcome::OtherServiceError("denied".to_string())).unwrap(),
        true
    );
    let err = PatchBody::object_exists(&HeadOutcome::SendFailure("timeout".to_string()))
        .unwrap_err();
    assert!(matches!(err, Error::S3Error(_)));
}

#[test]
fn ingest_tag_round_trips_through_uuid() {
    let (name, value) = ingest_tag_pair(default_ingester_tag_name().as_str(), 0);
    assert_eq!(name, "ingest_id");
    assert_eq!(value, "00000000-0000-0000-0000-000000000000");
    let body = ingest_body(PatchOp::Add {
        path: "/".to_string(),
        value: JsonValue::Text(value),
    });
    assert_eq!(body.extract_ingest_id().unwrap(), Some(0));

    let (_, big) = ingest_tag_pair("ingest_id", u128::MAX);
    assert_eq!(big, "ffffffff-ffff-ffff-ffff-ffffffffffff");
}

#[test]
fn pointer_segments_unescape() {
    let segs = filemanager::patch::parse_pointer_exec("/a~1b/c~0d").unwrap();
    assert_eq!(segs, vec!["a/b".to_string(), "c~d".to_string()]);
    let root = filemanager::patch::parse_pointer_exec("").unwrap();
    assert!(root.is_empty());
    let slash = filemanager::patch::parse_pointer_exec("/").unwrap();
    assert_eq!(slash, vec!["".to_string()]);
    assert!(filemanager::patch::parse_pointer_exec("no-slash").is_none());
}

#[test]
fn add_through_escaped_pointer() {
    let doc = obj(vec![("a/b", "1")]);
    let ops = vec![PatchOp::Test {
        path: "/a~1b".to_string(),
        value: JsonValue::Text("1".to_string()),
    }];
    assert!(apply_attributes_patch(doc, &ops).is_ok());
}
