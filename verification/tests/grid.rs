use pandia::grid::{column_values, filter_rows};

fn texts(v: &[&str]) -> Vec<Option<String>> {
    v.iter().map(|s| Some(s.to_string())).collect()
}

#[test]
fn get_rows_filtered_and_sorts() {
    // rows: a/Sindhi/6.1, b/English/2.0, c/Sindhi/1.0, d/Sindhi/9.0
    let ranks: Vec<u64> = vec![3, 2, 1, 4];
    let sindhi = [true, false, true, true];
    let r = filter_rows(&sindhi, &[], None, None, 0, 100);
    assert_eq!(r.total, 3);
    assert_eq!(r.rows, vec![0, 2, 3]);

    let r2 = filter_rows(&sindhi, &[], None, Some((&ranks, true)), 0, 100);
    assert_eq!(r2.rows, vec![3, 0, 2]);

    let sindhi_and_gt5 = [true, false, false, true];
    let r3 = filter_rows(&sindhi_and_gt5, &[], None, Some((&ranks, false)), 0, 100);
    assert_eq!(r3.total, 2);
    assert_eq!(r3.rows, vec![0, 3]);

    let english_or_gt5 = [true, true, false, true];
    let r4 = filter_rows(&english_or_gt5, &[], None, None, 0, 100);
    assert_eq!(r4.total, 3);
    assert_eq!(r4.rows, vec![0, 1, 3]);
}

#[test]
fn quick_filter_prefix_narrows_against_cached_perm() {
    let cols = vec![texts(&["item", "item-0", "item-1", "item-101", "other"])];
    let pass = [true; 5];
    let r1 = filter_rows(&pass, &cols, Some("item"), None, 0, 100);
    assert_eq!(r1.total, 4);
    let r2 = filter_rows(&pass, &cols, Some("item-1"), None, 0, 100);
    assert_eq!(r2.rows, vec![2, 3]);
}

#[test]
fn grid_quick_filter_and_column_values() {
    let cols = vec![
        texts(&["ada", "bo", "cy", "ada two"]),
        texts(&["sindhi", "english", "sindhi", "urdu"]),
    ];
    let pass = [true; 4];
    let r = filter_rows(&pass, &cols, Some("ada"), None, 0, 100);
    assert_eq!(r.rows, vec![0, 3]);
    let r = filter_rows(&pass, &cols, Some("SIND"), None, 0, 100);
    assert_eq!(r.rows, vec![0, 2]);

    // the "lang" cells, and their order: English < Sindhi < Urdu
    let lang: Vec<String> =
        ["\"Sindhi\"", "\"English\"", "\"Sindhi\"", "\"Urdu\""].iter().map(|s| s.to_string()).collect();
    let ranks: Vec<u64> = vec![1, 0, 1, 2];
    let cv = column_values(&lang, &ranks, 100);
    assert!(!cv.capped);
    assert_eq!(cv.values.len(), 3);
    assert_eq!(lang[cv.values[0].0 as usize], "\"Sindhi\"");
    assert_eq!(cv.values[0].1, 2);
}

#[test]
fn column_values_are_capped_and_ordered() {
    let cells: Vec<String> = ["1", "2", "1", "null", "3", "2", "1"].iter().map(|s| s.to_string()).collect();
    let ranks: Vec<u64> = vec![1, 2, 1, 0, 3, 2, 1];
    let cv = column_values(&cells, &ranks, 10);
    assert!(!cv.capped);
    assert_eq!(cv.values, vec![(0, 3), (1, 2), (3, 1), (4, 1)]);
    let cv = column_values(&cells, &ranks, 2);
    assert!(cv.capped);
    assert_eq!(cv.values, vec![(0, 3), (1, 2)]);
    let cv = column_values(&[], &[], 5);
    assert!(!cv.capped);
    assert!(cv.values.is_empty());
}

#[test]
fn quick_filter_is_trimmed_and_blank_means_none() {
    let cols = vec![vec![Some("alpha".to_string()), None, Some("beta".to_string())]];
    let pass = [true; 3];
    let r = filter_rows(&pass, &cols, Some("  Alp \n"), None, 0, 10);
    assert_eq!(r.total, 1);
    assert_eq!(r.rows, vec![0]);
    let r = filter_rows(&pass, &cols, Some("   "), None, 0, 10);
    assert_eq!(r.total, 3);
    let r = filter_rows(&pass, &[], Some("zzz"), None, 0, 10);
    assert_eq!(r.total, 3);
    let r = filter_rows(&pass, &cols, Some("zzz"), None, 0, 10);
    assert_eq!(r.total, 0);
    assert!(r.rows.is_empty());
}

#[test]
fn sort_keeps_array_order_among_equal_cells() {
    let ranks: Vec<u64> = vec![5, 1, 5, 1, 3];
    let pass = [true; 5];
    let asc = filter_rows(&pass, &[], None, Some((&ranks, false)), 0, 10);
    assert_eq!(asc.rows, vec![1, 3, 4, 0, 2]);
    let desc = filter_rows(&pass, &[], None, Some((&ranks, true)), 0, 10);
    assert_eq!(desc.rows, vec![0, 2, 4, 1, 3]);
}

#[test]
fn window_is_clamped_to_the_selection() {
    let pass = [true, false, true, true, true];
    let r = filter_rows(&pass, &[], None, None, 1, 3);
    assert_eq!(r.total, 4);
    assert_eq!(r.rows, vec![2, 3]);
    let r = filter_rows(&pass, &[], None, None, 2, 100);
    assert_eq!(r.rows, vec![3, 4]);
    let r = filter_rows(&pass, &[], None, None, 7, 9);
    assert!(r.rows.is_empty());
    let r = filter_rows(&pass, &[], None, None, 9, 7);
    assert_eq!(r.total, 4);
    assert!(r.rows.is_empty());
}

#[test]
fn array_field_text_lower_reads_each_element() {
    let t = r#"[{"name":"Ada","n":3},{"name":"B\u00c9 \"x\""},{"name":null},5,{"n":true,"name":[1]}]"#;
    let d = pandia::scan::LazyDoc::new(t).expect("scans");
    let names = d.array_field_text_lower("name");
    assert_eq!(
        names,
        vec![Some("ada".to_string()), Some("bé \"x\"".to_string()), None, None, None]
    );
    let ns = d.array_field_text_lower("n");
    assert_eq!(ns, vec![Some("3".to_string()), None, None, None, Some("true".to_string())]);
    let obj = pandia::scan::LazyDoc::new(r#"{"name":"x"}"#).expect("scans");
    assert!(obj.array_field_text_lower("name").is_empty());
}

#[test]
fn quick_filter_over_a_lazily_read_column() {
    let t = r#"[{"name":"Ada"},{"name":"Bo"},{"name":"ADAM"},{"id":1}]"#;
    let d = pandia::scan::LazyDoc::new(t).expect("scans");
    let col = d.array_field_text_lower("name");
    let pass = [true; 4];
    let r = filter_rows(&pass, &[col], Some("Ada"), None, 0, 10);
    assert_eq!(r.total, 2);
    assert_eq!(r.rows, vec![0, 2]);
}

#[test]
fn column_values_labels_numbers_with_lossless_literal() {
    let cells: Vec<String> = ["123456789012345678", "123456789012345678", "\"x\""]
        .iter()
        .map(|s| s.to_string())
        .collect();
    let ranks: Vec<u64> = vec![0, 0, 1];
    let cv = column_values(&cells, &ranks, 100);
    let big = cv
        .labels
        .iter()
        .position(|l| l.as_deref() == Some("123456789012345678"))
        .expect("big-int label present and exact");
    assert_eq!(cv.values[big].1, 2);
    let s = cv.values.iter().position(|v| cells[v.0 as usize] == "\"x\"").unwrap();
    assert_eq!(cv.labels[s], None);
}
