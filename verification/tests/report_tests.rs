use lib2genlib::genlib::SkipReason;
use lib2genlib::report::{genlib_lines, tally_skips};

#[test]
fn document_adds_missing_constant_gates() {
    let lines = genlib_lines("# t".to_string(), "# s".to_string(), vec!["GATE a".to_string()], false, false);
    assert_eq!(
        lines.join("\n"),
        "# t\n# s\n\nGATE _const1_             0.0000 Z=CONST1;\n\nGATE _const0_             0.0000 Z=CONST0;\n\nGATE a\n"
    );
}

#[test]
fn document_without_constant_gates() {
    let lines = genlib_lines(
        "# t".to_string(),
        "# s".to_string(),
        vec!["GATE a".to_string(), "GATE b".to_string()],
        true,
        true,
    );
    assert_eq!(lines, vec!["# t", "# s", "", "GATE a", "", "GATE b", ""]);
}

#[test]
fn tally_counts_in_first_seen_order() {
    let reasons = vec![
        SkipReason::Sequential,
        SkipReason::DontUse,
        SkipReason::Sequential,
        SkipReason::Sequential,
        SkipReason::Sequential,
        SkipReason::Sequential,
        SkipReason::Sequential,
    ];
    let names: Vec<String> = (0..7).map(|i| format!("c{i}")).collect();
    let t = tally_skips(&reasons, &names);
    assert_eq!(t.len(), 2);
    assert_eq!(t[0].reason, SkipReason::Sequential);
    assert_eq!(t[0].count, 6);
    assert_eq!(t[0].examples, vec!["c0", "c2", "c3", "c4", "c5"]);
    assert_eq!(t[1].reason, SkipReason::DontUse);
    assert_eq!(t[1].count, 1);
    assert_eq!(t[1].examples, vec!["c1"]);
}

#[test]
fn tally_of_nothing_is_empty() {
    assert!(tally_skips(&Vec::new(), &Vec::new()).is_empty());
}
