use pandia::document::{DocError, Document};
use pandia::lookup::Slice;
use pandia::scan::{LazyDoc, NodeKind};
use pandia::search::Step;
use pandia::tree::Tree;
use pandia::window::{collection_preview, maybe_count};
use serde_json::Value;

fn lazy(s: &str) -> LazyDoc {
    LazyDoc::new(s).expect("valid JSON in test")
}

fn doc(s: &str) -> Document {
    Document::from_text(s, None).ok().expect("valid JSON in test")
}

fn v(json: &str) -> Value {
    serde_json::from_str(json).unwrap()
}

fn tv(t: Tree) -> Value {
    serde_json::from_str(&t.to_compact().expect("writes")).unwrap()
}

fn key(k: &str) -> Step {
    Step::Key(k.to_string())
}

/// The children of a slice as (key or position, raw value text).
fn children(s: &Slice, source: &str) -> Vec<(String, String)> {
    match s {
        Slice::Indexed(v) => v.iter().map(|(i, b, e)| (format!("#{i}"), source[*b..*e].to_string())).collect(),
        Slice::Scanned { raw, children } => children
            .iter()
            .map(|c| {
                let name = match c.key {
                    Some((ks, ke)) => raw[ks + 1..ke - 1].to_string(),
                    None => format!("#{}", c.index),
                };
                (name, raw[c.value.0..c.value.1].to_string())
            })
            .collect(),
    }
}

fn preview_of_raw(raw: &str) -> String {
    match raw.as_bytes()[0] {
        b'{' => collection_preview(true, maybe_count(raw, NodeKind::Object)),
        b'[' => collection_preview(false, maybe_count(raw, NodeKind::Array)),
        _ => raw.to_string(),
    }
}

#[test]
fn lazy_slice_object_yields_keys_by_path() {
    let t = r#"{"zeta": 1, "alpha": 2, "mu": 3}"#;
    let out = lazy(t).slice(&[], 0, 10).ok().expect("slice");
    let keys: Vec<String> = children(&out, t).into_iter().map(|c| c.0).collect();
    assert_eq!(keys, vec!["zeta", "alpha", "mu"]);
}

#[test]
fn lazy_slice_array_indexes_match_positions() {
    let t = r#"["a", "b", "c", "d"]"#;
    let out = lazy(t).slice(&[], 1, 3).ok().expect("slice");
    let keys: Vec<String> = children(&out, t).into_iter().map(|c| c.0).collect();
    assert_eq!(keys, vec!["#1", "#2"]);
}

#[test]
fn lazy_slice_clamps_overrun_range() {
    let t = "[1, 2, 3]";
    let out = lazy(t).slice(&[], 1, 100).ok().expect("slice");
    assert_eq!(children(&out, t).len(), 2);
}

#[test]
fn lazy_slice_on_primitive_is_empty() {
    let out = lazy("42").slice(&[], 0, 10).ok().expect("slice");
    assert!(children(&out, "42").is_empty());
}

#[test]
fn invalid_path_returns_error() {
    let d = lazy(r#"{"a": 1}"#);
    let err = d.slice(&[key("missing")], 0, 10).err().expect("an error");
    assert_eq!(err, DocError::InvalidPath(vec![key("missing")]));
}

#[test]
fn nested_slice_walks_path_via_index() {
    let t = r#"[{"id": 1, "events": [10, 20]}, {"id": 2, "events": [30]}]"#;
    let d = lazy(t);
    let out = d.slice(&[Step::Index(0), key("events")], 0, 10).ok().expect("slice");
    let got = children(&out, t);
    assert_eq!(got, vec![("#0".to_string(), "10".to_string()), ("#1".to_string(), "20".to_string())]);
    assert!(d.slice(&[Step::Index(5), key("events")], 0, 10).is_err());
}

#[test]
fn lazy_preview_collections_show_counts() {
    let t = r#"{"arr": [1, 2, 3], "obj": {"a": 1}, "empty_arr": [], "empty_obj": {}}"#;
    let out = lazy(t).slice(&[], 0, 10).ok().expect("slice");
    let previews: Vec<String> = children(&out, t).iter().map(|c| preview_of_raw(&c.1)).collect();
    assert_eq!(previews, vec!["[3 items]", "{1 keys}", "[]", "{}"]);
}

#[test]
fn lazy_slice_keeps_big_number_token() {
    let t = r#"{"id": 18446744073709551615}"#;
    let d = lazy(t);
    let out = d.slice(&[], 0, 1).ok().expect("slice");
    assert_eq!(children(&out, t)[0].1, "18446744073709551615");
    assert_eq!(d.kind_at(&[key("id")]).ok(), Some((NodeKind::Number, None)));
}

#[test]
fn lazy_kind_at_counts_within_the_budget_only() {
    let elem = r#""xxxxxxxxxxxxxxxxxxxxxxxxxxxxxxxxxxxxxxxxxxxxxxxx","#;
    let mut body = String::from("[");
    for _ in 0..2000 {
        body.push_str(elem);
    }
    body.pop();
    body.push(']');
    let json = format!(r#"{{"big": {}}}"#, body);
    let d = lazy(&json);
    assert_eq!(d.kind_at(&[key("big")]).ok(), Some((NodeKind::Array, None)));
    assert_eq!(d.child_count_uncapped(&[key("big")]).ok(), Some(Some(2000)));
}

#[test]
fn lazy_get_value_returns_subtree() {
    let d = lazy(r#"{"a": {"b": 42}}"#);
    assert_eq!(tv(d.get_value(&[key("a")]).ok().expect("a value")), v(r#"{"b": 42}"#));
}

#[test]
fn get_value_uses_root_index_for_array_top() {
    let d = lazy(r#"[{"a": 1}, {"a": 2}, {"a": 3}]"#);
    assert_eq!(tv(d.get_value(&[Step::Index(1)]).ok().expect("a value")), v(r#"{"a": 2}"#));
    assert_eq!(d.get_value(&[Step::Index(3)]).err(), Some(DocError::InvalidPath(vec![Step::Index(3)])));
    assert_eq!(tv(d.get_value(&[Step::Index(2), key("a")]).ok().expect("a value")), v("3"));
    assert_eq!(d.child_count_uncapped(&[]).ok(), Some(Some(3)));
}

#[test]
fn array_field_text_lower_extracts_lowercased_scalars() {
    let d = lazy(r#"[{"n": "Hello"}, {"n": 42}, {"n": true}, {"n": null}, {"n": {"k":1}}, {}, 99]"#);
    let cells = d.array_field_text_lower("n");
    assert_eq!(
        cells,
        vec![
            Some("hello".to_string()),
            Some("42".to_string()),
            Some("true".to_string()),
            None,
            None,
            None,
            None,
        ]
    );
}

#[test]
fn array_field_text_lower_handles_escapes() {
    let d = lazy(r#"[{"n": "Hello\nWorld"}, {"n": "Aé"}]"#);
    let cells = d.array_field_text_lower("n");
    assert_eq!(cells, vec![Some("hello\nworld".to_string()), Some("aé".to_string())]);
}

#[test]
fn slice_object_preserves_insertion_order() {
    let d = doc(r#"{"zeta": 1, "alpha": 2, "mu": 3}"#);
    let out = d.get_slice(&[], 0, 10).ok().expect("slice");
    let keys: Vec<String> = children(&out, "").into_iter().map(|c| c.0).collect();
    assert_eq!(keys, vec!["zeta", "alpha", "mu"]);
}

#[test]
fn document_slice_array_indexes_match_positions() {
    let d = doc(r#"["a", "b", "c", "d"]"#);
    let out = d.get_slice(&[], 1, 3).ok().expect("slice");
    let keys: Vec<String> = children(&out, "").into_iter().map(|c| c.0).collect();
    assert_eq!(keys, vec!["#1", "#2"]);
}

#[test]
fn document_slice_clamps_overrun_range() {
    let d = doc("[1, 2, 3]");
    assert_eq!(children(&d.get_slice(&[], 1, 100).ok().expect("slice"), "").len(), 2);
}

#[test]
fn slice_empty_when_start_past_end() {
    let d = doc("[1, 2, 3]");
    assert!(children(&d.get_slice(&[], 10, 20).ok().expect("slice"), "").is_empty());
}

#[test]
fn document_slice_on_primitive_is_empty() {
    let d = doc("42");
    assert!(children(&d.get_slice(&[], 0, 10).ok().expect("slice"), "").is_empty());
}

#[test]
fn slice_invalid_path_returns_error() {
    let d = doc(r#"{"a": 1}"#);
    let err = d.get_slice(&[key("missing")], 0, 10).err().expect("an error");
    assert!(matches!(err, DocError::InvalidPath(_)));
}

#[test]
fn nested_slice_walks_path() {
    let d = doc(r#"{"events": [{"id": 1}, {"id": 2}]}"#);
    let out = d.get_slice(&[key("events"), Step::Index(1)], 0, 10).ok().expect("slice");
    assert_eq!(children(&out, ""), vec![("id".to_string(), "2".to_string())]);
    assert_eq!(d.kind_at(&[key("events"), Step::Index(1), key("id")]).ok(), Some((NodeKind::Number, None)));
}

#[test]
fn document_preview_collections_show_counts() {
    let d = doc(r#"{"arr": [1, 2, 3], "obj": {"a": 1}, "empty_arr": [], "empty_obj": {}}"#);
    let out = d.get_slice(&[], 0, 10).ok().expect("slice");
    let previews: Vec<String> = children(&out, "").iter().map(|c| preview_of_raw(&c.1)).collect();
    assert_eq!(previews, vec!["[3 items]", "{1 keys}", "[]", "{}"]);
}

#[test]
fn child_count_is_none_for_primitives() {
    let d = doc(r#"{"s": "x", "n": 1, "b": true, "z": null}"#);
    for k in ["s", "n", "b", "z"] {
        assert_eq!(d.child_count_at(&[key(k)]).ok(), Some(None));
    }
    assert_eq!(d.child_count_at(&[]).ok(), Some(Some(4)));
}

#[test]
fn get_value_returns_clone_of_subtree() {
    let d = doc(r#"{"a": {"b": 42}}"#);
    assert_eq!(tv(d.get_value(&[key("a")]).ok().expect("a value")), v(r#"{"b": 42}"#));
    assert_eq!(tv(d.get_value(&[]).ok().expect("a value")), v(r#"{"a": {"b": 42}}"#));
}

#[test]
fn get_rows_returns_array_slice_as_values() {
    let d = doc(r#"[{"id": 1}, {"id": 2}, {"id": 3}, {"id": 4}]"#);
    let rows = d.get_rows(&[], 1, 3).ok().expect("rows");
    assert_eq!(rows.len(), 2);
    let rows: Vec<Value> = rows.into_iter().map(tv).collect();
    assert_eq!(rows, vec![v(r#"{"id": 2}"#), v(r#"{"id": 3}"#)]);
}

#[test]
fn get_rows_clamps_range_past_end() {
    let d = doc("[1, 2, 3]");
    let rows: Vec<Value> = d.get_rows(&[], 1, 100).ok().expect("rows").into_iter().map(tv).collect();
    assert_eq!(rows, vec![v("2"), v("3")]);
}

#[test]
fn get_rows_empty_when_start_past_end() {
    let d = doc("[1, 2, 3]");
    assert!(d.get_rows(&[], 10, 20).ok().expect("rows").is_empty());
}

#[test]
fn get_rows_empty_for_non_array_path() {
    let d = doc(r#"{"a": 1}"#);
    assert!(d.get_rows(&[], 0, 10).ok().expect("rows").is_empty());
}

#[test]
fn get_rows_invalid_path_errors() {
    let d = doc(r#"{"a": 1}"#);
    let err = d.get_rows(&[key("missing")], 0, 10).err().expect("an error");
    assert!(matches!(err, DocError::InvalidPath(_)));
}

#[test]
fn get_rows_at_fetches_in_order() {
    let d = doc(r#"[{"n":0},{"n":1},{"n":2},{"n":3}]"#);
    let vals: Vec<Value> = d.get_rows_at(&[], &[3, 0, 2]).ok().expect("rows").into_iter().map(tv).collect();
    assert_eq!(vals, vec![v(r#"{"n":3}"#), v(r#"{"n":0}"#), v(r#"{"n":2}"#)]);
    assert_eq!(d.get_rows_at(&[], &[1, 9]).err(), Some(DocError::InvalidPath(vec![Step::Index(9)])));
}

#[test]
fn get_rows_at_serialized_preserves_big_integers() {
    let d = doc(r#"[{"id": 123456789012345678}, {"id": 2}]"#);
    let vals = d.get_rows_at(&[], &[0]).ok().expect("rows");
    let json = vals[0].to_pretty().expect("writes");
    assert!(json.contains("123456789012345678"), "big integer kept as a literal, got: {json}");
    assert!(!json.contains("123456789012345680"), "not rounded to f64");
}

#[test]
fn get_rows_works_on_lazy_root_array() {
    let mut text = String::from("[");
    for i in 0..200_000 {
        if i > 0 {
            text.push(',');
        }
        text.push_str(&format!(r#"{{"i": {i}, "p": "xxxxxxxxxxxxxxxxxxxxxxxxxxxxxxxxxxxxxxxxxxxxxxxxxxxxxxxxxxxxx"}}"#));
    }
    text.push(']');
    assert!(text.len() > 11 * 1024 * 1024);
    let d = doc(&text);
    assert!(d.summary().lazy);
    let rows: Vec<Value> = d.get_rows(&[], 100_000, 100_005).ok().expect("rows").into_iter().map(tv).collect();
    assert_eq!(rows.len(), 5);
    assert_eq!(rows[0]["i"], v("100000"));
    assert_eq!(rows[4]["i"], v("100004"));
}
