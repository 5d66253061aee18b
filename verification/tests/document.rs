use pandia::document::{
    clip_preview, ensure_within_edit_limit, ensure_within_max, preview_byte_budget, reads_lazily, saves_as_ndjson, DocError,
    DocState, Document, EDIT_SIZE_LIMIT, LAZY_THRESHOLD_BYTES, MAX_DOC_BYTES,
};
use pandia::scan::NodeKind;
use pandia::tree::Tree;
use serde_json::Value;

fn doc(text: &str) -> Document {
    Document::from_text(text, None).expect("valid JSON in test")
}

fn v(json: &str) -> Value {
    serde_json::from_str(json).unwrap()
}

fn tv(t: Tree) -> Value {
    serde_json::from_str(&t.to_compact().expect("writes")).unwrap()
}

#[test]
fn refuses_documents_over_max_bytes() {
    assert!(ensure_within_max(MAX_DOC_BYTES).is_ok());
    let err = ensure_within_max(MAX_DOC_BYTES + 1).unwrap_err();
    assert!(matches!(err, DocError::TooLarge { limit: MAX_DOC_BYTES, .. }));
}

#[test]
fn edit_limit_refuses_larger_texts() {
    assert!(ensure_within_edit_limit(EDIT_SIZE_LIMIT).is_ok());
    assert_eq!(
        ensure_within_edit_limit(EDIT_SIZE_LIMIT + 1),
        Err(DocError::TooLarge { actual: EDIT_SIZE_LIMIT + 1, limit: EDIT_SIZE_LIMIT })
    );
}

#[test]
fn lazy_reading_starts_at_the_threshold() {
    assert!(!reads_lazily(LAZY_THRESHOLD_BYTES - 1));
    assert!(reads_lazily(LAZY_THRESHOLD_BYTES));
    assert_eq!(LAZY_THRESHOLD_BYTES, 10 * 1024 * 1024);
}

#[test]
fn ndjson_paths_save_one_record_per_line() {
    assert!(saves_as_ndjson("/tmp/out.ndjson"));
    assert!(saves_as_ndjson("log.JSONL"));
    assert!(!saves_as_ndjson("out.json"));
    assert!(!saves_as_ndjson("config.jsonc"));
    assert!(!saves_as_ndjson("Makefile"));
}

#[test]
fn summary_reports_what_the_record_holds() {
    let st = DocState::opened(Some("orig.json".to_string()), 16, None);
    let s = st.summary(NodeKind::Object, Some(2), false, st.is_dirty(true));
    assert_eq!(s.root_kind, NodeKind::Object);
    assert_eq!(s.root_child_count, Some(2));
    assert_eq!(s.source_size, 16);
    assert!(!s.lazy);
    assert_eq!(s.version, 0);
    assert!(!s.dirty);
    assert!(!s.file_backed);
    assert_eq!(s.source_path.as_deref(), Some("orig.json"));
}

#[test]
fn state_set_file_path_binds_the_file() {
    let mut st = DocState::opened(Some("orig.json".to_string()), 8, None);
    assert!(!st.summary(NodeKind::Object, Some(1), false, false).file_backed);
    st.set_file_path("/tmp/whatever.json".to_string());
    let s = st.summary(NodeKind::Object, Some(1), false, false);
    assert!(s.file_backed, "re-attached path → file-backed");
    assert_eq!(s.source_path.as_deref(), Some("/tmp/whatever.json"));
}

#[test]
fn save_goes_to_the_given_path_else_the_bound_file() {
    let mut st = DocState::opened(None, 8, None);
    assert!(matches!(st.save_target(None), Err(DocError::Edit(_))));
    assert_eq!(st.save_target(Some("a.json".to_string())), Ok("a.json".to_string()));
    st.set_file_path("b.json".to_string());
    assert_eq!(st.save_target(None), Ok("b.json".to_string()));
    assert_eq!(st.save_target(Some("c.json".to_string())), Ok("c.json".to_string()));
}

#[test]
fn save_clears_dirty() {
    let mut st = DocState::opened(None, 8, None);
    assert!(!st.is_dirty(false));
    assert_eq!(st.bump_version(), 1);
    assert!(st.is_dirty(false));
    assert!(!st.is_dirty(true));
    let r = st.mark_saved("out.json".to_string());
    assert_eq!(r.path, "out.json");
    assert_eq!(r.version, 1);
    assert!(!st.is_dirty(false));
    assert_eq!(st.file_path.as_deref(), Some("out.json"));
}

#[test]
fn lazy_documents_past_the_save_are_dirty_whatever_the_content() {
    let mut st = DocState::opened(None, LAZY_THRESHOLD_BYTES + 1, None);
    st.bump_version();
    assert!(st.is_dirty(true));
}

#[test]
fn large_lazy_documents_are_not_turned_into_trees() {
    let big = DocState::opened(None, EDIT_SIZE_LIMIT + 1, None);
    assert_eq!(
        big.ensure_editable(true),
        Err(DocError::TooLarge { actual: EDIT_SIZE_LIMIT + 1, limit: EDIT_SIZE_LIMIT })
    );
    assert!(big.ensure_editable(false).is_ok());
    let small = DocState::opened(None, EDIT_SIZE_LIMIT, None);
    assert!(small.ensure_editable(true).is_ok());
}

#[test]
fn parse_invalid_returns_parse_error() {
    let err = Document::from_text("{not json", None).err().expect("an error");
    assert!(matches!(err, DocError::Parse(_)));
}

#[test]
fn opens_ndjson_as_an_array() {
    let d = doc("{\"a\":1}\n{\"a\":2}\n{\"a\":3}\n");
    let s = d.summary();
    assert_eq!(s.root_kind, NodeKind::Array);
    assert_eq!(s.root_child_count, Some(3));
    assert_eq!(tv(d.root_value().ok().expect("a value")), v(r#"[{"a": 1}, {"a": 2}, {"a": 3}]"#));
}

#[test]
fn opens_jsonc_with_comments_and_trailing_commas() {
    let d = doc("{\n  // count\n  \"a\": 1,\n  \"b\": [2, 3,],\n}");
    assert_eq!(tv(d.root_value().ok().expect("a value")), v(r#"{"a": 1, "b": [2, 3]}"#));
}

#[test]
fn opens_json5() {
    let d = doc("{unquoted: 'single', hex: 0xFF, trailing: .5,}");
    assert_eq!(
        tv(d.root_value().ok().expect("a value")),
        v(r#"{"unquoted": "single", "hex": 255, "trailing": 0.5}"#)
    );
}

#[test]
fn ndjson_still_reports_the_strict_error_when_truly_broken() {
    let err = Document::from_text("{\"a\":1}\n{\"a\":\n", None).err().expect("an error");
    let DocError::Parse(msg) = err else {
        panic!("expected a parse error");
    };
    assert!(msg.contains("line 2"), "{msg}");
}

#[test]
fn small_doc_uses_eager_path() {
    let d = doc(r#"{"a": 1, "b": 2}"#);
    assert!(!d.is_lazy());
    assert!(!d.summary().lazy);
}

#[test]
fn doc_above_threshold_uses_lazy_path() {
    let pad: String = std::iter::repeat('x').take(11 * 1024 * 1024).collect();
    let json = format!(r#"{{"pad": "{}"}}"#, pad);
    let d = doc(&json);
    assert!(d.is_lazy());
    let s = d.summary();
    assert!(s.lazy);
    assert_eq!(s.root_kind, NodeKind::Object);
}

#[test]
fn invalid_lazy_doc_returns_parse_error() {
    let pad: String = std::iter::repeat('x').take(11 * 1024 * 1024).collect();
    let bad = format!(r#"{{"pad": "{}"#, pad);
    let err = Document::from_text(&bad, None).err().expect("an error");
    assert!(matches!(err, DocError::Parse(_)));
}

#[test]
fn large_jsonc_doc_recovers_onto_the_lazy_path() {
    let pad = "x".repeat(11 * 1024 * 1024);
    let text = format!("// header\n{{\"pad\": \"{pad}\",}}");
    let d = doc(&text);
    assert!(d.summary().lazy);
    assert_eq!(d.summary().root_kind, NodeKind::Object);
}

#[test]
fn summary_reports_root_shape_and_size() {
    let d = doc(r#"{"a": 1, "b": 2}"#);
    let s = d.summary();
    assert_eq!(s.root_kind, NodeKind::Object);
    assert_eq!(s.root_child_count, Some(2));
    assert_eq!(s.source_size, 16);
    assert!(!s.lazy);
    assert_eq!(s.version, 0);
}

#[test]
fn child_count_is_none_for_primitive_roots() {
    for (text, kind) in [
        ("\"x\"", NodeKind::String),
        ("1", NodeKind::Number),
        ("true", NodeKind::Bool),
        ("null", NodeKind::Null),
    ] {
        let s = doc(text).summary();
        assert_eq!(s.root_kind, kind, "{text}");
        assert_eq!(s.root_child_count, None, "{text}");
    }
}

#[test]
fn set_file_path_binds_the_document() {
    let mut d = Document::from_text(r#"{"a": 1}"#, Some("orig.json".into())).unwrap();
    assert!(!d.summary().file_backed);
    d.set_file_path("/tmp/whatever.json".into());
    assert!(d.summary().file_backed, "re-attached path → file-backed");
}

#[test]
fn recovery_note_is_kept_with_the_recovered_size() {
    let d = doc("'{\"a\": 1}'");
    let s = d.summary();
    assert!(s.recovery_note.is_some());
    assert_eq!(s.source_size, 8);
    assert_eq!(tv(d.root_value().ok().expect("a value")), v(r#"{"a": 1}"#));
}

#[test]
fn unedited_ndjson_saves_records_verbatim() {
    let mut body = String::new();
    while body.len() < 11 * 1024 * 1024 {
        body.push_str("{\"id\": 12345678901234567890, \"pad\": \"");
        body.push_str(&"x".repeat(200));
        body.push_str("\"}\n");
    }
    let lines = body.lines().count();
    let d = Document::from_text(&body, Some("verbatim.ndjson".to_string())).unwrap();
    assert!(d.summary().lazy, "large NDJSON should be lazy");
    assert_eq!(d.summary().root_child_count, Some(lines as u32));

    let (target, text) = d.save_plan(Some("verbatim-out.ndjson".to_string())).unwrap();
    assert_eq!(target, "verbatim-out.ndjson");
    assert_eq!(text, body);
}

#[test]
fn save_as_json_converts_ndjson_to_an_array() {
    let d = Document::from_text("{\"a\":1}\n{\"a\":2}\n", Some("convert.ndjson".to_string()))
        .unwrap();
    let (_, written) = d.save_plan(Some("convert.json".to_string())).unwrap();
    assert_eq!(serde_json::from_str::<Value>(&written).unwrap(), v(r#"[{"a": 1}, {"a": 2}]"#));
    assert!(written.contains('\n') && written.starts_with('['), "{written}");
}

#[test]
fn ndjson_target_writes_one_record_per_line() {
    let mut d = Document::from_text("{\"a\":1}\n{\"a\":2}\n", None).unwrap();
    assert!(matches!(d.save_plan(None), Err(DocError::Edit(_))));
    d.set_file_path("out.ndjson".to_string());
    let (target, text) = d.save_plan(None).unwrap();
    assert_eq!(target, "out.ndjson");
    assert_eq!(text, "{\"a\":1}\n{\"a\":2}\n");
    let r = d.mark_saved(target);
    assert_eq!(r.path, "out.ndjson");
    assert_eq!(r.version, 0);
    assert!(!d.summary().dirty);
}

#[test]
fn ndjson_target_with_an_object_root_writes_json() {
    let d = doc(r#"{"a": 1}"#);
    let (_, text) = d.save_plan(Some("x.ndjson".to_string())).unwrap();
    assert_eq!(serde_json::from_str::<Value>(&text).unwrap(), v(r#"{"a": 1}"#));
}

#[test]
fn materialize_turns_lazy_content_into_a_tree() {
    let pad: String = std::iter::repeat('x').take(11 * 1024 * 1024).collect();
    let json = format!(r#"{{"pad": "{}"}}"#, pad);
    let mut d = doc(&json);
    assert!(d.is_lazy());
    d.materialize().unwrap();
    assert!(!d.is_lazy());
    assert!(!d.summary().lazy);
}

#[test]
fn lazy_serialize_gives_the_source_back() {
    let pad: String = std::iter::repeat('y').take(11 * 1024 * 1024).collect();
    let json = format!("[\"{}\", 1]", pad);
    let d = doc(&json);
    assert!(d.is_lazy());
    assert_eq!(d.serialize().unwrap(), json);
    assert_eq!(d.serialize_ndjson().unwrap(), format!("\"{}\"\n1\n", pad));
}

#[test]
fn documents_over_the_maximum_are_refused_before_parsing() {
    let err = ensure_within_max(MAX_DOC_BYTES + 10).unwrap_err();
    assert_eq!(err, DocError::TooLarge { actual: MAX_DOC_BYTES + 10, limit: MAX_DOC_BYTES });
}

#[test]
fn element_value_uses_the_root_index_for_an_array_top() {
    let d = doc(r#"[{"a": 1}, {"a": 2}, {"a": 3}]"#);
    assert_eq!(tv(d.element_value(1).ok().expect("an element")), v(r#"{"a": 2}"#));
    assert_eq!(d.element_value(3).err(), Some(DocError::NoElement(3)));
    let pad = "z".repeat(11 * 1024 * 1024);
    let big = doc(&format!("[{{\"a\": 1}}, \"{pad}\", [2, 3]]"));
    assert!(big.is_lazy());
    assert_eq!(tv(big.element_value(2).ok().expect("an element")), v("[2, 3]"));
    assert_eq!(tv(big.element_value(0).ok().expect("an element")), v(r#"{"a": 1}"#));
    assert_eq!(big.element_value(3).err(), Some(DocError::NoElement(3)));
    assert_eq!(doc(r#"{"a": 1}"#).element_value(0).err(), Some(DocError::NoElement(0)));
    let t = doc(r#"[1, {"b": [true, null]}]"#).element_value(1).ok().expect("an element");
    assert_eq!(t.to_compact().unwrap(), r#"{"b":[true,null]}"#);
}

#[test]
fn preview_budget_is_four_bytes_a_char_and_at_least_a_kilobyte() {
    assert_eq!(preview_byte_budget(10), 1024);
    assert_eq!(preview_byte_budget(256), 1024);
    assert_eq!(preview_byte_budget(1000), 4000);
    assert_eq!(preview_byte_budget(usize::MAX), usize::MAX);
}

#[test]
fn previews_are_clipped_by_characters() {
    assert_eq!(clip_preview("héllo wörld", 5, false), ("héllo".to_string(), true));
    assert_eq!(clip_preview("short", 5, false), ("short".to_string(), false));
    assert_eq!(clip_preview("short", 10, true), ("short".to_string(), true));
}
