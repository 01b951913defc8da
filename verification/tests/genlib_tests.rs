use lib2genlib::genlib::{
    constant_level, infer_phase_from_function, infer_phase_from_sense, normalize_function,
};

#[test]
fn phase_from_sense() {
    assert_eq!(infer_phase_from_sense("positive_unate"), "NONINV");
    assert_eq!(infer_phase_from_sense("negative_unate"), "INV");
    assert_eq!(infer_phase_from_sense("non_unate"), "UNKNOWN");
    assert_eq!(infer_phase_from_sense(""), "UNKNOWN");
}

#[test]
fn phase_from_function_inverted() {
    assert_eq!(infer_phase_from_function("!A", "A"), "INV");
    assert_eq!(infer_phase_from_function("(A' B')", "A"), "INV");
    assert_eq!(infer_phase_from_function("~ (A & B)", "B"), "NONINV");
    assert_eq!(infer_phase_from_function("!(A&B)", "A"), "NONINV");
    assert_eq!(infer_phase_from_function("~A", "A"), "INV");
}

#[test]
fn phase_from_function_plain_and_mixed() {
    assert_eq!(infer_phase_from_function("A & B", "B"), "NONINV");
    assert_eq!(infer_phase_from_function("(A & !B) | (!A & B)", "A"), "UNKNOWN");
    assert_eq!(infer_phase_from_function("A1 & A2", "A"), "UNKNOWN");
}

#[test]
fn phase_from_function_absent_pin_is_unknown() {
    assert_eq!(infer_phase_from_function("B & C", "A"), "UNKNOWN");
}

#[test]
fn phase_from_function_empty_pin() {
    // every position is an occurrence of the empty pin; "!" follows the rule
    assert_eq!(infer_phase_from_function("(A)", ""), "NONINV");
    assert_eq!(infer_phase_from_function("A", ""), "UNKNOWN");
    assert_eq!(infer_phase_from_function("!A", ""), "UNKNOWN");
}

#[test]
fn normalize_operators() {
    assert_eq!(normalize_function("~(A & B) | C"), "!(A * B) + C");
    assert_eq!(normalize_function("A'"), "!A");
    assert_eq!(normalize_function("(A B)'"), "(A B)");
    assert_eq!(normalize_function("IN_1' + x"), "!IN_1 + x");
    assert_eq!(normalize_function("1'b0"), "!1b0");
    assert_eq!(normalize_function("A + B"), "A + B");
}

#[test]
fn normalize_keeps_other_bytes_as_latin1() {
    // each byte above 0x7F becomes the character with that code
    let f = "é";
    assert_eq!(normalize_function(f), "\u{c3}\u{a9}");
}

#[test]
fn constants() {
    assert_eq!(constant_level(" 0 "), Some(false));
    assert_eq!(constant_level("1'b0"), Some(false));
    assert_eq!(constant_level("1"), Some(true));
    assert_eq!(constant_level("1'b1"), Some(true));
    assert_eq!(constant_level("A"), None);
    assert_eq!(constant_level(""), None);
}
