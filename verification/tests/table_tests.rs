use lib2genlib::table::{index_tokens, table_value_tokens};

#[test]
fn index_tokens_split_the_quoted_list() {
    let body = b"index_1 (\"0.01, 0.05 ,0.1\"); index_2(\"1\");";
    assert_eq!(index_tokens(body, "index_1"), vec!["0.01", "0.05", "0.1"]);
    assert_eq!(index_tokens(body, "index_2"), vec!["1"]);
}

#[test]
fn index_tokens_are_empty_when_parts_are_missing() {
    assert!(index_tokens(b"values(\"1\")", "index_1").is_empty());
    assert!(index_tokens(b"index_1 : 3;", "index_1").is_empty());
    assert!(index_tokens(b"index_1 (\"1, 2", "index_1").is_empty());
    // the match is exact: upper case does not count
    assert!(index_tokens(b"INDEX_1 (\"1\")", "index_1").is_empty());
}

#[test]
fn value_rows_follow_quoted_segments() {
    let body = b"VALUES ( \"1, 2\", \\\n \"3, 4,\" );";
    let rows = table_value_tokens(body).unwrap();
    assert_eq!(rows, vec![vec!["1".to_string(), "2".to_string()], vec!["3".to_string(), "4".to_string()]]);
}

#[test]
fn value_rows_keep_unparsable_entries() {
    let body = b"values(\"1,,x\")";
    let rows = table_value_tokens(body).unwrap();
    assert_eq!(rows, vec![vec!["1".to_string(), "".to_string(), "x".to_string()]]);
}

#[test]
fn value_rows_absent_or_cut_off() {
    assert_eq!(table_value_tokens(b"index_1(\"1\")").unwrap().len(), 0);
    assert_eq!(table_value_tokens(b"values : 1;").unwrap().len(), 0);
    assert!(table_value_tokens(b"values (").is_none());
}
