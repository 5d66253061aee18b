use pandia::format::relaxed::relaxed_to_json;
use pandia::format::spans::ndjson_to_array;
use pandia::format::{hint_from_path, hint_for_extension, is_supported_file, recover, InputFormat};
use serde_json::Value;

fn recovered(text: &str) -> String {
    recover(text, None).expect("recoverable").json
}

fn value(text: &str) -> Value {
    serde_json::from_str(&recovered(text)).expect("recovers to valid JSON")
}

fn v(json: &str) -> Value {
    serde_json::from_str(json).unwrap()
}

#[test]
fn hint_reads_the_extension() {
    assert_eq!(hint_from_path("/a/b/log.ndjson"), Some(InputFormat::Ndjson));
    assert_eq!(hint_from_path("log.JSONL"), Some(InputFormat::Ndjson));
    assert_eq!(hint_from_path("tsconfig.jsonc"), Some(InputFormat::Relaxed));
    assert_eq!(hint_from_path("c.json5"), Some(InputFormat::Relaxed));
    assert_eq!(hint_from_path("d.json"), None);
    assert_eq!(hint_from_path("d.geojson"), None);
    assert_eq!(hint_from_path("README.md"), None);
    assert_eq!(hint_from_path("Makefile"), None);
}

#[test]
fn hint_for_extension_ignores_ascii_case() {
    assert_eq!(hint_for_extension("NdJsOn"), Some(InputFormat::Ndjson));
    assert_eq!(hint_for_extension("JSON5"), Some(InputFormat::Relaxed));
    assert_eq!(hint_for_extension("json"), None);
    assert_eq!(hint_for_extension(""), None);
}

#[test]
fn quote_wrappers_are_unwrapped_not_read_as_strings() {
    let body = r#"{"orderId":917399,"shortSideTt":1.25}"#;
    let want = v(r#"{"orderId": 917399, "shortSideTt": 1.25}"#);
    for (name, text) in [
        ("both single", format!("'{body}'")),
        ("leading single only", format!("'{body}")),
        ("trailing single only", format!("{body}'")),
        ("both backticks", format!("`{body}`")),
        ("smart quotes", format!("\u{2018}{body}\u{2019}")),
        ("surrounded by whitespace", format!("  '{body}'  ")),
    ] {
        let r = recover(&text, None).unwrap_or_else(|| panic!("{name} should recover"));
        assert_eq!(serde_json::from_str::<Value>(&r.json).unwrap(), want, "{name}");
        assert!(r.note.is_some(), "{name} should carry a note");
    }
}

#[test]
fn double_quoted_wrapper_unescapes_its_payload() {
    let r = recover(r#""{\"a\":1,\"b\":[2,3]}""#, None).expect("recovers");
    assert_eq!(
        serde_json::from_str::<Value>(&r.json).unwrap(),
        v(r#"{"a": 1, "b": [2, 3]}"#)
    );
}

#[test]
fn quoted_ndjson_recovers_through_both_passes() {
    let r = recover("'{\"a\":1}\n{\"a\":2}'", None).expect("recovers");
    assert_eq!(
        serde_json::from_str::<Value>(&r.json).unwrap(),
        v(r#"[{"a": 1}, {"a": 2}]"#)
    );
}

#[test]
fn leading_invisible_characters_are_stripped() {
    for ch in ['\u{feff}', '\u{200b}', '\u{2060}', '\u{200e}', '\u{a0}', '\u{0}'] {
        let text = format!("{ch}{{\"a\":1}}");
        let r = recover(&text, None).unwrap_or_else(|| panic!("{ch:?} should recover"));
        assert_eq!(
            serde_json::from_str::<Value>(&r.json).unwrap(),
            v(r#"{"a": 1}"#),
            "{ch:?}"
        );
        assert!(r.note.is_some(), "{ch:?} should carry a note");
    }
}

#[test]
fn invisible_characters_inside_strings_are_left_alone() {
    let d: Value = serde_json::from_str("{\"a\":\"x\u{200b}y\"}").expect("valid as-is");
    assert_eq!(d["a"].as_str().unwrap(), "x\u{200b}y");
}

#[test]
fn dialect_recoveries_carry_no_note() {
    assert_eq!(recover("{\"a\":1}\n{\"a\":2}\n", None).unwrap().note, None);
    assert_eq!(recover("{/* c */ \"a\": 1,}", None).unwrap().note, None);
}

#[test]
fn ndjson_becomes_an_array() {
    let json = recovered("{\"a\":1}\n{\"a\":2}\n{\"a\":3}\n");
    assert_eq!(json, r#"[{"a":1},{"a":2},{"a":3}]"#);
}

#[test]
fn ndjson_tolerates_blank_lines_and_crlf() {
    let got = value("{\"a\":1}\r\n\r\n{\"a\":2}\r\n");
    assert_eq!(got, v(r#"[{"a": 1}, {"a": 2}]"#));
}

#[test]
fn ndjson_ignores_newlines_inside_strings() {
    let got = value("{\"a\":\"x\\ny\"}\n{\"a\":\"}\"}\n");
    assert_eq!(got, v(r#"[{"a": "x\ny"}, {"a": "}"}]"#));
}

#[test]
fn ndjson_accepts_pretty_printed_records() {
    let got = value("{\n  \"a\": 1\n}\n{\n  \"a\": 2\n}\n");
    assert_eq!(got, v(r#"[{"a": 1}, {"a": 2}]"#));
}

#[test]
fn ndjson_accepts_bare_scalars_and_arrays() {
    let got = value("1\n\"two\"\ntrue\nnull\n[4]\n");
    assert_eq!(got, v(r#"[1, "two", true, null, [4]]"#));
}

#[test]
fn ndjson_accepts_rfc7464_record_separators() {
    let got = value("\u{1e}{\"a\":1}\n\u{1e}{\"a\":2}\n");
    assert_eq!(got, v(r#"[{"a": 1}, {"a": 2}]"#));
}

#[test]
fn ndjson_keeps_full_integer_precision() {
    let json = recovered("{\"id\":12345678901234567890}\n{\"id\":2}\n");
    assert!(json.contains("12345678901234567890"), "{json}");
}

#[test]
fn line_comments_are_stripped() {
    let got = value("{\n  // who\n  \"a\": 1 // how many\n}");
    assert_eq!(got, v(r#"{"a": 1}"#));
}

#[test]
fn block_comments_are_stripped() {
    let got = value("{/* lead */ \"a\": /* mid */ 1}");
    assert_eq!(got, v(r#"{"a": 1}"#));
}

#[test]
fn comment_markers_inside_strings_survive() {
    let got = value("{\n  \"url\": \"https://x.dev/a\", // trailing\n}");
    assert_eq!(got, v(r#"{"url": "https://x.dev/a"}"#));
}

#[test]
fn trailing_commas_are_dropped() {
    assert_eq!(value("{\"a\": 1,}"), v(r#"{"a": 1}"#));
    assert_eq!(value("[1, 2, 3,\n]"), v("[1, 2, 3]"));
}

#[test]
fn json5_bare_keys_get_quoted() {
    let got = value("{a: 1, $b: 2, _c3: 3}");
    assert_eq!(got, v(r#"{"a": 1, "$b": 2, "_c3": 3}"#));
}

#[test]
fn json5_single_quotes_become_double() {
    let got = value(r#"{'a': 'say "hi"', 'b': 'it\'s'}"#);
    assert_eq!(got, v(r#"{"a": "say \"hi\"", "b": "it's"}"#));
}

#[test]
fn json5_numbers_are_rewritten() {
    let got = value("{a: 0xFF, b: .5, c: 5., d: +7, e: -0x10}");
    assert_eq!(got, v(r#"{"a": 255, "b": 0.5, "c": 5.0, "d": 7, "e": -16}"#));
}

#[test]
fn json5_non_finite_numbers_become_null() {
    let got = value("{a: Infinity, b: -Infinity, c: NaN, d: undefined}");
    assert_eq!(got, v(r#"{"a": null, "b": null, "c": null, "d": null}"#));
}

#[test]
fn json5_line_continuations_and_escapes() {
    let got = value("{a: 'one \\\ntwo', b: '\\x41', c: '\\0'}");
    assert_eq!(got, v(r#"{"a": "one two", "b": "A", "c": "\u0000"}"#));
}

#[test]
fn relaxed_keeps_big_integers_verbatim() {
    let json = recovered("{id: 12345678901234567890, /* c */}");
    assert!(json.contains("12345678901234567890"), "{json}");
}

#[test]
fn bom_only_failure_is_recovered_as_plain_json() {
    assert_eq!(recovered("\u{feff}{\"a\": 1}"), r#"{"a": 1}"#);
}

#[test]
fn bom_plus_ndjson_is_recovered() {
    let got = value("\u{feff}{\"a\":1}\n{\"a\":2}\n");
    assert_eq!(got, v(r#"[{"a": 1}, {"a": 2}]"#));
}

#[test]
fn commented_ndjson_needs_both_passes() {
    let got = value("// log\n{\"a\":1}\n{\"a\":2}\n");
    assert_eq!(got, v(r#"[{"a": 1}, {"a": 2}]"#));
}

#[test]
fn genuinely_broken_json_is_not_recovered() {
    assert!(recover("{\"a\": }", None).is_none());
    assert!(recover("not json at all", None).is_none());
    assert!(recover("", None).is_none());
}

#[test]
fn valid_json_needs_no_rewrite() {
    assert!(relaxed_to_json(r#"{"a": [1, 2], "b": "c"}"#).is_none());
    assert!(ndjson_to_array(r#"{"a": 1}"#).is_none());
}

#[test]
fn multi_byte_content_survives_both_passes() {
    let got = value("{né: 'café ☕', /* ☕ */}");
    assert_eq!(got, v(r#"{"né": "café ☕"}"#));
}

#[test]
fn unterminated_input_terminates_the_scan() {
    let _ = recover("{\"a\": \"unclosed", None);
    let _ = recover("{'a': 'unclosed", None);
    let _ = recover("{a: 1 /* unclosed", None);
    let _ = recover("[1, 2\\", None);
}

#[test]
fn relaxed_hint_prefers_the_relaxed_reading() {
    // Two top-level objects, each with a comment: both readings fail on their
    // own, the combined pass succeeds whatever the hint.
    let text = "{a: 1}\n{a: 2}\n";
    let plain = recover(text, None).expect("recovers");
    let hinted = recover(text, Some(InputFormat::Relaxed)).expect("recovers");
    assert_eq!(serde_json::from_str::<Value>(&plain.json).unwrap(), v(r#"[{"a":1},{"a":2}]"#));
    assert_eq!(plain.json, hinted.json);
}

#[test]
fn hex_literal_too_large_for_u128_is_kept() {
    let out = relaxed_to_json("[0x1ffffffffffffffffffffffffffffffff, 1,]").expect("changed");
    assert_eq!(out, "[0x1ffffffffffffffffffffffffffffffff, 1]");
}

#[test]
fn trailing_comma_before_unicode_space_is_dropped() {
    let out = relaxed_to_json("[1,\u{a0}]").expect("changed");
    assert_eq!(out, "[1\u{a0}]");
}

#[test]
fn single_quoted_document_note_names_the_quotes() {
    let r = recover("'[1, 2]'", None).expect("recovers");
    assert_eq!(r.json, "[1, 2]");
    assert_eq!(
        r.note,
        Some("Removed the quotes wrapping the document — it was quoted text, not JSON")
    );
}

#[test]
fn stray_trailing_quote_note() {
    let r = recover("[1, 2]\"", None).expect("recovers");
    assert_eq!(r.json, "[1, 2]");
    assert_eq!(r.note, Some("Removed a stray quote after the last value"));
}

#[test]
fn supported_files_are_named_by_their_extension() {
    for p in ["a.json", "b.JSONC", "c.json5", "/x/d.geojson", "e.jsonl", "f.NDJSON"] {
        assert!(is_supported_file(p), "{p}");
    }
    for p in ["a.txt", "Makefile", "b.json.bak", "json", ".json"] {
        assert!(!is_supported_file(p), "{p}");
    }
}

#[test]
fn bare_keys_are_quoted_as_serde_json_writes_strings() {
    assert_eq!(relaxed_to_json("{a\u{1}b: 1}").unwrap(), "{\"a\\u0001b\": 1}");
    assert_eq!(relaxed_to_json("{k\\x: 1}").unwrap(), "{\"k\\\\x\": 1}");
}

#[test]
fn hint_follows_the_last_component_only() {
    assert_eq!(hint_from_path("logs.ndjson/readme"), None);
    assert_eq!(hint_from_path("logs/data.ndjson/"), Some(InputFormat::Ndjson));
    assert_eq!(hint_from_path("logs/data.jsonl/."), Some(InputFormat::Ndjson));
    assert_eq!(hint_from_path(".ndjson"), None);
    assert_eq!(hint_from_path(".."), None);
    assert_eq!(hint_from_path("a.ndjson/.."), None);
    assert!(!is_supported_file(".json"));
    assert!(!is_supported_file("a/"));
}
