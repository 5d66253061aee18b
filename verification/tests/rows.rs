use pandia::rows::{filtered_rows_json, row_to_json, SortedRow};
use pandia::tree::Tree;

#[test]
fn row_to_json_serializes_value_as_raw_text() {
    let value = Tree::parse("123456789012345678").unwrap();
    let rj = row_to_json(SortedRow { index: 7, value });
    assert_eq!(rj.index, 7);
    assert_eq!(rj.value, "123456789012345678");
}

#[test]
fn filtered_rows_keep_order_and_total() {
    let rows = vec![
        SortedRow { index: 4, value: Tree::parse(r#"{"a":1}"#).unwrap() },
        SortedRow { index: 1, value: Tree::parse("[true,null]").unwrap() },
    ];
    let fr = filtered_rows_json(9, rows);
    assert_eq!(fr.total, 9);
    let got: Vec<(u32, &str)> = fr.rows.iter().map(|r| (r.index, r.value.as_str())).collect();
    assert_eq!(got, vec![(4, r#"{"a":1}"#), (1, "[true,null]")]);
}
