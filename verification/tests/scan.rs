use pandia::scan::{
    build_root_index, check_literal, describe, root_kind_of, skip_balanced, skip_number, skip_string,
    skip_value, skip_ws, LazyDoc, NodeKind, ScanError,
};

fn doc(s: &str) -> LazyDoc {
    LazyDoc::new(s).expect("valid JSON in test")
}

#[test]
fn root_kind_read_from_first_byte_with_leading_whitespace() {
    assert_eq!(root_kind_of("  \n\t{\"a\":1}"), NodeKind::Object);
    assert_eq!(root_kind_of("\n[1,2,3]"), NodeKind::Array);
    assert_eq!(root_kind_of("\"hi\""), NodeKind::String);
    assert_eq!(root_kind_of("  -12.5"), NodeKind::Number);
    assert_eq!(root_kind_of("true"), NodeKind::Bool);
    assert_eq!(root_kind_of("false"), NodeKind::Bool);
    assert_eq!(root_kind_of("null"), NodeKind::Null);
}

#[test]
fn new_detects_root_kind_matching_json_type() {
    assert_eq!(doc(r#"{"a":1}"#).root_kind(), NodeKind::Object);
    assert_eq!(doc("[1,2,3]").root_kind(), NodeKind::Array);
    assert_eq!(doc("42").root_kind(), NodeKind::Number);
    assert_eq!(doc("true").root_kind(), NodeKind::Bool);
    assert_eq!(doc("null").root_kind(), NodeKind::Null);
    assert_eq!(doc("\"s\"").root_kind(), NodeKind::String);
}

#[test]
fn root_kind_and_count_for_object() {
    let d = doc(r#"{"a": 1, "b": 2}"#);
    assert_eq!(d.root_kind(), NodeKind::Object);
    assert_eq!(d.root_child_count(), Some(2));
}

#[test]
fn root_kind_and_count_for_array_via_index() {
    let d = doc(r#"[10, 20, 30, 40, 50]"#);
    assert_eq!(d.root_kind(), NodeKind::Array);
    assert_eq!(d.root_child_count(), Some(5));
}

#[test]
fn root_kind_of_blank_text_is_null() {
    assert_eq!(root_kind_of(""), NodeKind::Null);
    assert_eq!(root_kind_of(" \r\n"), NodeKind::Null);
}

#[test]
fn invalid_text_is_refused_with_the_parser_message() {
    match LazyDoc::new("{\"a\": ") {
        Err(ScanError::Invalid(m)) => assert!(!m.is_empty()),
        other => panic!("expected a parse error, got {other:?}"),
    }
}

#[test]
fn element_spans_cover_each_element_of_the_root_array() {
    let text = r#" [ 1, "two", {"x": [3]}, [4, 5], true, null ] "#;
    let d = doc(text);
    let spans = d.root_element_spans().expect("array root");
    let parts: Vec<&str> = spans.iter().map(|&(a, b)| &text[a as usize..b as usize]).collect();
    assert_eq!(parts, vec!["1", "\"two\"", "{\"x\": [3]}", "[4, 5]", "true", "null"]);
    assert_eq!(d.root_child_count(), Some(6));
    assert_eq!(d.source(), text);
}

#[test]
fn empty_root_array_has_no_elements() {
    let d = doc(" [ ] ");
    assert_eq!(d.root_element_spans(), Some(&[][..]));
    assert_eq!(d.root_child_count(), Some(0));
}

#[test]
fn primitive_root_has_no_children() {
    let d = doc("\"text\"");
    assert_eq!(d.root_element_spans(), None);
    assert_eq!(d.root_child_count(), None);
}

#[test]
fn object_root_over_the_count_budget_has_no_count() {
    let pad = "x".repeat(16 * 65536);
    let text = format!(r#"{{"pad": "{pad}"}}"#);
    let d = doc(&text);
    assert_eq!(d.root_kind(), NodeKind::Object);
    assert_eq!(d.root_child_count(), None);
}

#[test]
fn skippers_stop_right_after_the_value() {
    let b = br#"  "a\"b" rest"#;
    assert_eq!(skip_ws(b, 0), 2);
    assert_eq!(skip_string(b, 2), Ok(8));
    assert_eq!(skip_balanced(b"[1, [2], {\"]\": 3}] x", 0), Ok(18));
    assert_eq!(check_literal(b"null,", 0, b"null"), Ok(4));
    assert_eq!(skip_number(b"-1.5e+3,", 0), 7);
    assert_eq!(skip_value(b"false]", 0), Ok(5));
}

#[test]
fn skipper_errors_name_what_went_wrong() {
    assert_eq!(skip_value(b"", 0), Err(ScanError::UnexpectedEnd));
    assert_eq!(skip_value(b" x", 1), Err(ScanError::UnexpectedByte { byte: b'x', at: 1 }));
    assert_eq!(skip_string(b"\"ab\\", 0), Err(ScanError::TrailingEscape));
    assert_eq!(skip_string(b"\"ab", 0), Err(ScanError::UnterminatedString));
    assert_eq!(skip_balanced(b"[1, [2]", 0), Err(ScanError::Unbalanced));
    assert_eq!(check_literal(b"nul", 0, b"null"), Err(ScanError::ExpectedLiteral { at: 0 }));
}

#[test]
fn root_index_errors() {
    assert_eq!(build_root_index(b"{}"), Err(ScanError::ExpectedArrayRoot));
    assert_eq!(build_root_index(b"[1, 2"), Err(ScanError::UnterminatedArray));
    assert_eq!(
        build_root_index(b"[1 2]"),
        Err(ScanError::ExpectedSeparator { at: 3, found: b'2' })
    );
    assert_eq!(build_root_index(b"[1, 22 ]"), Ok(vec![(1, 2), (4, 6)]));
}

#[test]
fn element_ranges_fall_on_character_boundaries() {
    let text = "[\"é\", {\"ü\": \"✓\"}, 1, \"日本\"]";
    let d = doc(text);
    assert_eq!(d.element_text(0), Some("\"é\""));
    assert_eq!(d.element_text(1), Some("{\"ü\": \"✓\"}"));
    assert_eq!(d.element_text(3), Some("\"日本\""));
    assert_eq!(d.element_text(4), None);
    assert_eq!(
        d.ndjson_text().as_deref(),
        Some("\"é\"\n{\"ü\": \"✓\"}\n1\n\"日本\"\n")
    );
    assert_eq!(doc("{\"a\": 1}").ndjson_text(), None);
    assert_eq!(doc("{\"a\": 1}").element_text(0), None);
}

#[test]
fn scan_errors_read_as_messages() {
    assert_eq!(
        describe(&ScanError::ExpectedSeparator { at: 3, found: b'2' }, b"[1 2]"),
        "expected ',' or ']' at byte 3, found '2'"
    );
    assert_eq!(describe(&ScanError::UnexpectedByte { byte: b'x', at: 1 }, b" x"), "unexpected byte 'x' at 1");
    assert_eq!(describe(&ScanError::ExpectedLiteral { at: 0 }, b"nul"), "expected literal \"null\" at 0");
    assert_eq!(describe(&ScanError::ExpectedLiteral { at: 2 }, b"[ fals]"), "expected literal \"false\" at 2");
    assert_eq!(describe(&ScanError::UnterminatedArray, b"[1,"), "unterminated array");
    assert_eq!(describe(&ScanError::UnexpectedByte { byte: b'\n', at: 0 }, b"\n"), "unexpected byte '\\n' at 0");
}
