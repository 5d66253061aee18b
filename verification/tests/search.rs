use pandia::scan::NodeKind;
use pandia::search::{first_hits, key_snippet, places_of, preview_lazy, Place, Step};

fn path_of(p: &Place) -> Vec<String> {
    p.path
        .iter()
        .map(|s| match s {
            Step::Key(k) => k.clone(),
            Step::Index(i) => format!("#{i}"),
        })
        .collect()
}

#[test]
fn walk_meets_keys_before_their_values_depth_first() {
    let t = r#"{"name":"Ada","tags":["x","ada"],"n":1,"inner":{"a\u0064a":null}}"#;
    let ps = places_of(t);
    let seen: Vec<(bool, &str)> = ps.iter().map(|p| (p.is_key, p.text.as_str())).collect();
    assert_eq!(
        seen,
        vec![
            (true, "name"),
            (false, "Ada"),
            (true, "tags"),
            (false, "x"),
            (false, "ada"),
            (true, "n"),
            (true, "inner"),
            (true, "ada"),
        ]
    );
    assert_eq!(path_of(&ps[0]), vec!["name"]);
    assert_eq!(path_of(&ps[1]), vec!["name"]);
    assert_eq!(path_of(&ps[4]), vec!["tags", "#1"]);
    assert_eq!(path_of(&ps[7]), vec!["inner", "ada"]);
    assert_eq!(ps[2].kind, NodeKind::Array);
    assert_eq!(ps[2].value, r#"["x","ada"]"#);
    assert_eq!(ps[5].kind, NodeKind::Number);
    assert_eq!(ps[7].kind, NodeKind::Null);
    assert_eq!(ps[1].kind, NodeKind::String);
    assert_eq!(ps[1].value, r#""Ada""#);
}

#[test]
fn walk_of_an_array_root_uses_positions() {
    let t = r#" ["a", {"b": "c"}, 3, [true, "d\n"]] "#;
    let ps = places_of(t);
    let seen: Vec<(Vec<String>, &str)> = ps.iter().map(|p| (path_of(p), p.text.as_str())).collect();
    assert_eq!(
        seen,
        vec![
            (vec!["#0".to_string()], "a"),
            (vec!["#1".to_string(), "b".to_string()], "b"),
            (vec!["#1".to_string(), "b".to_string()], "c"),
            (vec!["#3".to_string(), "#1".to_string()], "d\n"),
        ]
    );
}

#[test]
fn walk_of_scalars_and_broken_text() {
    let ps = places_of("  \"solo\"  ");
    assert_eq!(ps.len(), 1);
    assert!(ps[0].path.is_empty());
    assert!(!ps[0].is_key);
    assert_eq!(ps[0].text, "solo");
    assert_eq!(places_of("42").len(), 0);
    assert_eq!(places_of("   ").len(), 0);
    assert_eq!(places_of(r#"{"a": "#).len(), 0);
    assert_eq!(places_of("[]").len(), 0);
}

#[test]
fn hits_are_the_first_matches_up_to_the_cap() {
    let matched = [false, true, false, false, true, false, false, true];
    assert_eq!(first_hits(&matched, 2), vec![1, 4]);
    assert_eq!(first_hits(&matched, 10), vec![1, 4, 7]);
    assert!(first_hits(&matched, 0).is_empty());
    assert!(first_hits(&[], 5).is_empty());
}

#[test]
fn search_by_case_insensitive_text() {
    let t = r#"{"name":"Ada","tags":["x","ada"],"n":1,"inner":{"ada":null}}"#;
    let ps = places_of(t);
    let matched: Vec<bool> = ps.iter().map(|p| p.text.to_lowercase().contains("ada")).collect();
    let hits = first_hits(&matched, 100);
    assert_eq!(hits, vec![1, 4, 7]);
    assert!(ps[7].is_key);
    assert_eq!(key_snippet(&ps[7].text, &ps[7].value), "ada: null");
}

#[test]
fn lazy_document_search_places() {
    let t = r#"[{"id":"a1"},{"id":"b2"}]"#;
    let d = pandia::scan::LazyDoc::new(t).expect("scans");
    let ps = d.search_places();
    let seen: Vec<&str> = ps.iter().map(|p| p.text.as_str()).collect();
    assert_eq!(seen, vec!["id", "a1", "id", "b2"]);
    assert_eq!(path_of(&ps[3]), vec!["#1", "id"]);
}

#[test]
fn previews_of_each_kind() {
    assert_eq!(preview_lazy("null"), "null");
    assert_eq!(preview_lazy("true"), "true");
    assert_eq!(preview_lazy("false"), "false");
    assert_eq!(preview_lazy("-12.5e3"), "-12.5e3");
    assert_eq!(preview_lazy(r#""hi""#), "\"hi\"");
    assert_eq!(preview_lazy(r#""a\nb\u0041""#), "\"a\nbA\"");
    assert_eq!(preview_lazy(r#"{"a":1,"b":[2,3]}"#), "{2 keys}");
    assert_eq!(preview_lazy("[1,2,3]"), "[3 items]");
    assert_eq!(preview_lazy("[]"), "[0 items]");
    assert_eq!(preview_lazy("{}"), "{0 keys}");
}

#[test]
fn long_strings_are_cut_with_an_ellipsis() {
    let long = format!("\"{}\"", "x".repeat(70));
    let p = preview_lazy(&long);
    assert_eq!(p, format!("\"{}\u{2026}\"", "x".repeat(60)));
    let exact = format!("\"{}\"", "y".repeat(60));
    assert_eq!(preview_lazy(&exact), exact);
}

#[test]
fn key_snippets_name_the_key_and_preview_the_value() {
    assert_eq!(key_snippet("name", r#""Ada""#), "name: \"Ada\"");
    assert_eq!(key_snippet("t\tab", "[1]"), "t\tab: [1 items]");
    let t = r#"{"inner":{"ada":null}}"#;
    let ps = places_of(t);
    assert_eq!(key_snippet(&ps[0].text, &ps[0].value), "inner: {1 keys}");
}
