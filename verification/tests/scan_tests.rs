use lib2genlib::scan::{
    extract_group_body, for_each_group, get_attr, get_attr_bool, has_group, read_attr_value,
    skip_ws, strip_comments,
};

#[test]
fn strip_removes_block_and_line_comments() {
    let out = strip_comments(b"a /* x */b // y\nc");
    assert_eq!(out, b"a b \nc".to_vec());
}

#[test]
fn strip_unclosed_block_runs_to_end() {
    assert_eq!(strip_comments(b"ab/* never closed"), b"ab".to_vec());
    // "/*/" does not close the comment
    assert_eq!(strip_comments(b"x/*/y"), b"x".to_vec());
}

#[test]
fn strip_keeps_lone_slashes() {
    assert_eq!(strip_comments(b"a/b * c/"), b"a/b * c/".to_vec());
}

#[test]
fn strip_is_idempotent_on_example() {
    let once = strip_comments(b"p/**/ /x // z\n/* a */ q");
    let twice = strip_comments(&once);
    assert_eq!(once, twice);
    assert_eq!(once, b"p /x \n q".to_vec());
}

#[test]
fn skip_ws_stops_at_non_space() {
    assert_eq!(skip_ws(b"  \t\nx", 0), 4);
    assert_eq!(skip_ws(b"abc", 1), 1);
    assert_eq!(skip_ws(b"  ", 0), 2);
    assert_eq!(skip_ws(b"ab", 5), 5);
    // vertical tab is not ASCII whitespace for the scanner
    assert_eq!(skip_ws(b"\x0bx", 0), 0);
}

#[test]
fn read_attr_value_unquotes_and_steps_past_semicolon() {
    let data = b"  \"0.25\" ; next";
    let (v, next) = read_attr_value(data, 0);
    assert_eq!(v, "0.25");
    assert_eq!(next, 10);
    let (v2, next2) = read_attr_value(b" input }", 0);
    assert_eq!(v2, "input");
    assert_eq!(next2, 7);
}

#[test]
fn extract_group_body_matches_braces() {
    let data = b"a { b } c } d";
    let (body, end) = extract_group_body(data, 0);
    assert_eq!(body, b"a { b } c ");
    assert_eq!(end, 11);
}

#[test]
fn extract_group_body_unclosed_drops_last_byte() {
    let (body, end) = extract_group_body(b"abc { d", 0);
    assert_eq!(body, b"abc { ");
    assert_eq!(end, 7);
}

#[test]
fn for_each_group_lists_groups_in_order() {
    let data = b"pin(A) { x : 1; } PIN (\"B\") { y : 2; } my_pin(C) { } pin D { }";
    let groups = for_each_group(data, "pin");
    assert_eq!(groups.len(), 2);
    assert_eq!(groups[0].name, "A");
    assert_eq!(&data[groups[0].start..groups[0].end], b" x : 1; ");
    assert_eq!(groups[1].name, "B");
    assert_eq!(&data[groups[1].start..groups[1].end], b" y : 2; ");
}

#[test]
fn for_each_group_skips_nested_bodies() {
    let data = b"cell(X) { cell(Y) { } } cell(Z) { }";
    let groups = for_each_group(data, "cell");
    let names: Vec<&str> = groups.iter().map(|g| g.name.as_str()).collect();
    assert_eq!(names, vec!["X", "Z"]);
}

#[test]
fn get_attr_finds_whole_word_case_insensitively() {
    let data = b"rise_capacitance : 3; Capacitance : 0.5 ; area: 2;";
    assert_eq!(get_attr(data, "capacitance"), "0.5");
    assert_eq!(get_attr(data, "area"), "2");
    assert_eq!(get_attr(data, "missing"), "");
    // a word without a colon is passed over
    assert_eq!(get_attr(b"area (x) area : 7;", "area"), "7");
}

#[test]
fn get_attr_bool_reads_true() {
    assert!(get_attr_bool(b"dont_use : TRUE;", "dont_use"));
    assert!(get_attr_bool(b"dont_use : \"true\";", "dont_use"));
    assert!(!get_attr_bool(b"dont_use : false;", "dont_use"));
    assert!(!get_attr_bool(b"other : true;", "dont_use"));
}

#[test]
fn has_group_needs_parenthesis() {
    assert!(has_group(b"ff (IQ, IQN) { }", "ff"));
    assert!(!has_group(b"ff_bank : 1; my_ff(x)", "ff"));
    assert!(has_group(b"x ff_bank(a) {}", "ff_bank"));
    assert!(!has_group(b"latch : 3;", "latch"));
}

#[test]
fn values_are_trimmed_of_unicode_whitespace() {
    let data = "\u{a0}x\u{0b};".as_bytes();
    let (v, next) = read_attr_value(data, 0);
    assert_eq!(v, "x");
    assert_eq!(next, data.len());
}

#[test]
fn found_group_means_has_group() {
    let data = b"x latch (IQ) { } y";
    assert_eq!(for_each_group(data, "latch").len(), 1);
    assert!(has_group(data, "latch"));
}
