use pandia::scan::{build_root_index, root_kind_of, NodeKind, ScanError, COUNT_BUDGET_BYTES};
use pandia::window::{
    array_slice, collection_preview, count_uncapped, counts_children, maybe_count, object_slice,
    root_array_slice, slice_children, ChildSpan,
};

fn pieces<'a>(raw: &'a str, v: &[(usize, usize, usize)]) -> Vec<(usize, &'a str)> {
    v.iter().map(|&(i, a, b)| (i, &raw[a..b])).collect()
}

fn root_children(raw: &str, start: usize, end: usize) -> Vec<ChildSpan> {
    slice_children(raw.as_bytes(), root_kind_of(raw), start, end).unwrap()
}

fn key_of(raw: &str, c: &ChildSpan) -> String {
    let (a, b) = c.key.expect("object member");
    serde_json::from_str(&raw[a..b]).unwrap()
}

fn value_of<'a>(raw: &'a str, c: &ChildSpan) -> &'a str {
    &raw[c.value.0..c.value.1]
}

fn preview_of(text: &str) -> (NodeKind, Option<u32>, String) {
    let kind = root_kind_of(text);
    let count = maybe_count(text, kind);
    (kind, count, collection_preview(kind == NodeKind::Object, count))
}

#[test]
fn slice_object_yields_keys_in_source_order() {
    let raw = r#"{"zeta": 1, "alpha": 2, "mu": 3}"#;
    let out = root_children(raw, 0, 10);
    let keys: Vec<String> = out.iter().map(|c| key_of(raw, c)).collect();
    assert_eq!(keys, vec!["zeta", "alpha", "mu"]);
}

#[test]
fn slice_array_indexes_match_positions() {
    let raw = r#"["a", "b", "c", "d"]"#;
    let index = build_root_index(raw.as_bytes()).unwrap();
    let out = root_array_slice(&index, 1, 3);
    assert_eq!(out.len(), 2);
    assert_eq!(out[0].0, 1);
    assert_eq!(out[1].0, 2);
}

#[test]
fn slice_clamps_overrun_range() {
    let raw = "[1, 2, 3]";
    let index = build_root_index(raw.as_bytes()).unwrap();
    let out = root_array_slice(&index, 1, 100);
    assert_eq!(out.len(), 2);
}

#[test]
fn slice_on_primitive_is_empty() {
    let out = root_children("42", 0, 10);
    assert!(out.is_empty());
}

#[test]
fn nested_windows_walk_into_members() {
    let raw = r#"{"id": 1, "events": [10, 20]}"#;
    let members = root_children(raw, 0, 10);
    let events = members.iter().find(|c| key_of(raw, c) == "events").unwrap();
    let inner = value_of(raw, events);
    let out = root_children(inner, 0, 10);
    assert_eq!(out.len(), 2);
    assert_eq!(out[0].index, 0);
    assert_eq!(out[1].index, 1);
    assert_eq!(value_of(inner, &out[1]), "20");
}

#[test]
fn preview_collections_show_counts() {
    let raw = r#"{"arr": [1, 2, 3], "obj": {"a": 1}, "empty_arr": [], "empty_obj": {}}"#;
    let out = root_children(raw, 0, 10);
    let previews: Vec<String> = out.iter().map(|c| preview_of(value_of(raw, c)).2).collect();
    assert_eq!(previews[0], "[3 items]");
    assert_eq!(previews[1], "{1 keys}");
    assert_eq!(previews[2], "[]");
    assert_eq!(previews[3], "{}");
}

#[test]
fn preview_preserves_big_number_token() {
    let raw = r#"{"id": 18446744073709551615}"#;
    let out = root_children(raw, 0, 1);
    let v = value_of(raw, &out[0]);
    assert_eq!(v, "18446744073709551615");
    assert_eq!(root_kind_of(v), NodeKind::Number);
}

#[test]
fn count_threshold_returns_none_for_huge_collection() {
    let elem = r#""xxxxxxxxxxxxxxxxxxxxxxxxxxxxxxxxxxxxxxxxxxxxxxxx","#;
    let mut body = String::from("[");
    for _ in 0..2000 {
        body.push_str(elem);
    }
    body.pop();
    body.push(']');
    let json = format!(r#"{{"big": {}}}"#, body);
    assert!(json.len() > COUNT_BUDGET_BYTES);

    let out = root_children(&json, 0, 1);
    let (kind, count, preview) = preview_of(value_of(&json, &out[0]));
    assert_eq!(kind, NodeKind::Array);
    assert!(count.is_none());
    assert_eq!(preview, "[\u{2026}]");
    assert_eq!(count_uncapped(value_of(&json, &out[0]), kind), Some(2000));
}

#[test]
fn object_window_skips_to_start_and_stops_at_end() {
    let raw = r#"{"a": 1, "b": 2, "c": 3, "d": 4}"#;
    let v = object_slice(raw.as_bytes(), 1, 3).unwrap();
    let keys: Vec<(usize, &str)> = v.iter().map(|&(i, ks, ke, _, _)| (i, &raw[ks..ke])).collect();
    assert_eq!(keys, vec![(1, "\"b\""), (2, "\"c\"")]);
}

#[test]
fn array_window_reads_positions_by_scanning() {
    let raw = r#"["a", "b", "c", "d"]"#;
    let v = array_slice(raw.as_bytes(), 1, 3).unwrap();
    assert_eq!(pieces(raw, &v), vec![(1, "\"b\""), (2, "\"c\"")]);
    let all = array_slice(b"[1, 2, 3]", 0, 100).unwrap();
    assert_eq!(all.len(), 3);
}

#[test]
fn empty_window_when_start_is_past_the_end() {
    let raw = "[1, 2, 3]";
    let index = build_root_index(raw.as_bytes()).unwrap();
    assert!(root_array_slice(&index, 10, 20).is_empty());
    assert!(array_slice(raw.as_bytes(), 10, 20).unwrap().is_empty());
    assert!(slice_children(raw.as_bytes(), NodeKind::Array, 2, 2).unwrap().is_empty());
}

#[test]
fn root_window_agrees_with_scanning() {
    let raw = r#" [ {"id": 1}, "two", [3, [4]], null, 5.5e1 ] "#;
    let index = build_root_index(raw.as_bytes()).unwrap();
    for (s, e) in [(0u32, 1u32), (1, 4), (2, 100), (4, 5), (0, 5)] {
        assert_eq!(
            root_array_slice(&index, s, e),
            array_slice(raw.as_bytes(), s as usize, e as usize).unwrap()
        );
    }
}

#[test]
fn empty_collections_have_empty_windows() {
    assert!(array_slice(b" [ ] ", 0, 5).unwrap().is_empty());
    assert!(object_slice(b"{\n}", 0, 5).unwrap().is_empty());
}

#[test]
fn window_errors_name_what_went_wrong() {
    assert_eq!(array_slice(b"{}", 0, 1), Err(ScanError::ExpectedArray));
    assert_eq!(object_slice(b"[]", 0, 1), Err(ScanError::ExpectedObject));
    assert_eq!(object_slice(b"{1: 2}", 0, 1), Err(ScanError::ExpectedKey));
    assert_eq!(object_slice(b"{\"a\" 2}", 0, 1), Err(ScanError::ExpectedColon));
    assert_eq!(object_slice(b"{\"a\": 2 \"b\": 3}", 0, 5), Err(ScanError::ExpectedObjectSeparator));
    assert_eq!(array_slice(b"[1 2]", 0, 5), Err(ScanError::ExpectedArraySeparator));
    assert_eq!(array_slice(b"[1, ", 0, 5), Err(ScanError::UnexpectedEnd));
}

#[test]
fn collection_previews_by_count() {
    assert_eq!(collection_preview(false, Some(3)), "[3 items]");
    assert_eq!(collection_preview(true, Some(1)), "{1 keys}");
    assert_eq!(collection_preview(false, Some(0)), "[]");
    assert_eq!(collection_preview(true, Some(0)), "{}");
    assert_eq!(collection_preview(true, None), "{\u{2026}}");
    assert_eq!(collection_preview(false, None), "[\u{2026}]");
    assert_eq!(collection_preview(false, Some(1234567)), "[1234567 items]");
}

#[test]
fn children_are_counted_within_one_budget() {
    assert!(counts_children(NodeKind::Array, COUNT_BUDGET_BYTES));
    assert!(!counts_children(NodeKind::Object, COUNT_BUDGET_BYTES + 1));
    assert!(!counts_children(NodeKind::String, 2));
    assert_eq!(COUNT_BUDGET_BYTES, 64 * 1024);
    assert_eq!(count_uncapped("{\"a\": 1, \"a\": 2}", NodeKind::Object), Some(2));
    assert_eq!(count_uncapped("\"s\"", NodeKind::String), None);
}
