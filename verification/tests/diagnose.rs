use pandia::diagnose::{diagnose, DetectKind, Detected, Diagnosis, Repaired, EXCERPT_RADIUS};

fn undetected() -> Detected {
    Detected { kind: DetectKind::Unknown, json: String::new(), failed: true }
}

fn unrepaired() -> Repaired {
    Repaired { success: false, repaired_json: String::new(), warnings: Vec::new() }
}

fn d(text: &str) -> Diagnosis {
    diagnose(text, undetected(), unrepaired())
}

#[test]
fn empty_input_says_so() {
    assert_eq!(d("   \n ").title, "Nothing to load");
    assert!(d("").fix.is_none());
}

#[test]
fn valid_json_is_reported_as_valid() {
    assert_eq!(d(r#"{"a": 1}"#).title, "This is valid JSON");
}

#[test]
fn stray_quote_is_named_not_coordinates() {
    let r = d("'{\"a\": 1}");
    assert_eq!(r.title, "Unexpected ' here");
    assert!(r.detail.contains("double quotes"), "{}", r.detail);
}

#[test]
fn bare_word_quotes_the_offending_word() {
    let r = d(r#"{"a": hello}"#);
    assert_eq!(r.title, "`hello` is not a JSON value");
}

#[test]
fn truncated_document_is_named() {
    let r = d(r#"{"a": {"b": 1"#);
    assert_eq!(r.title, "The document is cut off");
}

#[test]
fn unescaped_newline_in_a_string() {
    let r = d("{\"a\": \"one\ntwo\"}");
    assert_eq!(r.title, "A line break inside a string");
}

#[test]
fn excerpt_carries_a_caret_on_the_failing_char() {
    let r = d("{\"a\": 1, \"b\": }").excerpt.expect("excerpt");
    let at = r.text.chars().nth(r.caret as usize).expect("caret in range");
    assert_eq!(at, '}', "caret should land on the offending character");
    assert!(!r.clipped_start);
}

#[test]
fn excerpt_clips_long_lines_around_the_caret() {
    let pad = "x".repeat(400);
    let r = d(&format!("{{\"a\": \"{pad}\", \"b\": }}")).excerpt.expect("excerpt");
    assert!(r.clipped_start, "start of a long line should be clipped");
    assert!(r.text.chars().count() <= EXCERPT_RADIUS * 2);
    assert_eq!(r.text.chars().nth(r.caret as usize), Some('}'));
}

#[test]
fn caret_lands_on_the_right_line_of_a_multi_line_document() {
    let r = d("{\n  \"a\": 1,\n  \"b\": ]\n}").excerpt.expect("excerpt");
    assert_eq!(r.line, 3);
    assert_eq!(r.text.chars().nth(r.caret as usize), Some(']'));
}

#[test]
fn invisible_characters_get_a_visible_stand_in() {
    let r = d("{\"a\": \u{200b}}").excerpt.expect("excerpt");
    assert!(r.text.contains('·'), "{:?}", r.text);
    assert_eq!(r.text.chars().nth(r.caret as usize), Some('·'));
}

#[test]
fn trailing_comma_is_named_as_such() {
    assert_eq!(d(r#"{"a": 1, "b": 2,}"#).title, "One comma too many");
    assert_eq!(d(r#"[1, 2,]"#).title, "One comma too many");
}

#[test]
fn missing_value_is_not_confused_with_a_trailing_comma() {
    assert_eq!(d(r#"{"a": 1, "b": }"#).title, "A property has no value");
}

#[test]
fn python_dict_is_recognised_by_its_quotes() {
    let r = d("{'a': 1, 'b': 2}");
    assert_eq!(r.title, "Property names are wrapped in '");
    assert!(r.detail.contains("Python"), "{}", r.detail);
}

#[test]
fn prose_is_not_told_to_add_quotes() {
    let r = d("sorry mate here is the data i mentioned");
    assert_eq!(r.title, "This does not look like JSON");
}

#[test]
fn a_bare_word_inside_an_object_still_names_the_word() {
    assert_eq!(d(r#"{"status": pending}"#).title, "`pending` is not a JSON value");
}

#[test]
fn a_bad_literal_names_the_whole_word_not_its_tail() {
    assert_eq!(d(r#"{"a": nope}"#).title, "`nope` is not a JSON value");
    assert_eq!(d(r#"{"a": trueish}"#).title, "`trueish` is not a JSON value");
    assert_eq!(d(r#"{"a": False}"#).title, "`False` is not a JSON value");
}

#[test]
fn unrepairable_input_offers_no_fix() {
    assert!(d("not json at all, just prose").fix.is_none());
}

#[test]
fn a_detected_conversion_is_named_and_offered() {
    let detected = Detected {
        kind: DetectKind::Yaml,
        json: r#"{"name":"pandia"}"#.to_string(),
        failed: false,
    };
    let r = diagnose("name: pandia\n", detected, unrepaired());
    assert_eq!(r.title, "This looks like YAML, not JSON");
    assert!(r.excerpt.is_none());
    let fix = r.fix.expect("conversion offered");
    assert_eq!(fix.label, "Convert from YAML");
    assert_eq!(fix.text, r#"{"name":"pandia"}"#);
}

#[test]
fn each_convertible_kind_has_its_label() {
    for (kind, title, label) in [
        (DetectKind::Xml, "This looks like XML, not JSON", "Convert from XML"),
        (DetectKind::Csv, "This looks like CSV, not JSON", "Convert from CSV"),
        (DetectKind::Curl, "This looks like a cURL command, not JSON", "Convert the request"),
    ] {
        let detected = Detected { kind, json: "{}".to_string(), failed: false };
        let r = diagnose("a,b\n1,2\n", detected, unrepaired());
        assert_eq!(r.title, title);
        assert_eq!(r.fix.expect("offered").label, label);
    }
}

#[test]
fn a_failed_conversion_falls_back_to_the_parse_error() {
    let detected = Detected { kind: DetectKind::Yaml, json: String::new(), failed: true };
    let r = diagnose(r#"{"a": hello}"#, detected, unrepaired());
    assert_eq!(r.title, "`hello` is not a JSON value");
}

#[test]
fn json_and_unknown_detections_are_not_offered() {
    for kind in [DetectKind::Json, DetectKind::Unknown] {
        let detected = Detected { kind, json: "{}".to_string(), failed: false };
        let r = diagnose(r#"{"a": hello}"#, detected, unrepaired());
        assert_eq!(r.title, "`hello` is not a JSON value");
    }
}

#[test]
fn a_successful_repair_is_offered() {
    let repaired = Repaired {
        success: true,
        repaired_json: r#"{"a": 1, "b": 2}"#.to_string(),
        warnings: vec!["quoted a key".to_string()],
    };
    let fix = diagnose(r#"{a: 1, "b": 2,}"#, undetected(), repaired).fix.expect("repairable");
    assert_eq!(fix.label, "Repair and load");
    assert_eq!(fix.text, r#"{"a": 1, "b": 2}"#);
    assert_eq!(fix.warnings, vec!["quoted a key".to_string()]);
}

#[test]
fn valid_json_is_never_offered_a_fix() {
    let repaired = Repaired { success: true, repaired_json: "{}".to_string(), warnings: Vec::new() };
    let r = diagnose("[1, 2]", undetected(), repaired);
    assert_eq!(r.title, "This is valid JSON");
    assert!(r.fix.is_none());
    assert!(r.excerpt.is_none());
}

#[test]
fn excerpt_line_and_column_follow_the_parser() {
    let r = d("[1,\n 2,\n x]").excerpt.expect("excerpt");
    assert_eq!(r.line, 3);
    assert_eq!(r.column, 2);
    assert_eq!(r.text.chars().nth(r.caret as usize), Some('x'));
}
