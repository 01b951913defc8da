use lib2genlib::genlib::{output_constants, plan_gate, SkipReason};
use lib2genlib::liberty::{parse_liberty, CellText};

const LIB: &str = r#"
library (demo) {
  /* a comment with cell(fake) { } inside */
  cell (NAND2) {
    area : 1.5;
    pin (A) { direction : input; capacitance : 0.002; }
    pin (B) { direction : INPUT; rise_capacitance : 0.003; }
    pin (Y) {
      direction : output;
      function : "(A & B)'";
      timing () {
        related_pin : "A";
        timing_sense : negative_unate;
        cell_rise (tbl) {
          index_1 ("0.01, 0.05");
          index_2 ("0.001, 0.01");
          values ("1, 2", "3, 4");
        }
        cell_fall (tbl) { values ("5"); }
      }
    }
  }
  cell (DFF) { ff (IQ, IQN) { } pin (Q) { direction : output; function : "IQ"; } }
  cell (BUNDLED) {
    bundle (D) {
      direction : input;
      capacitance : 0.5;
      function : "X";
      pin (D0) { }
      pin (D1) { direction : output; }
    }
    bus (Q) { direction : output; pin (Q0) { function : "D0"; } }
  }
}
"#;

fn cells() -> Vec<CellText> {
    parse_liberty(LIB.as_bytes()).unwrap()
}

#[test]
fn parses_cells_and_pins() {
    let cells = cells();
    let names: Vec<&str> = cells.iter().map(|c| c.name.as_str()).collect();
    assert_eq!(names, vec!["NAND2", "DFF", "BUNDLED"]);
    let nand = &cells[0];
    assert_eq!(nand.area, "1.5");
    assert!(!nand.is_sequential);
    assert_eq!(nand.pins.len(), 3);
    assert_eq!(nand.pins[1].direction, "input");
    assert_eq!(nand.pins[1].rise_capacitance, "0.003");
    assert_eq!(nand.pins[1].capacitance, "");
    assert_eq!(nand.pins[2].function, "(A & B)'");
    let arc = &nand.pins[2].timing[0];
    assert_eq!(arc.related_pin, "A");
    assert_eq!(arc.timing_sense, "negative_unate");
    assert_eq!(arc.cell_rise.len(), 1);
    assert_eq!(arc.cell_rise[0].index_1, vec!["0.01", "0.05"]);
    assert_eq!(arc.cell_rise[0].values.len(), 2);
    assert_eq!(arc.cell_fall[0].values, vec![vec!["5".to_string()]]);
    assert_eq!(arc.rise_transition.as_ref().unwrap().len(), 0);
}

#[test]
fn sequential_cell_is_marked() {
    assert!(cells()[1].is_sequential);
}

#[test]
fn bundle_and_bus_pins_take_defaults() {
    let cells = cells();
    let b = &cells[2];
    // the pin groups inside the bundle and the bus are also found directly
    let names: Vec<&str> = b.pins.iter().map(|p| p.name.as_str()).collect();
    assert_eq!(names, vec!["D0", "D1", "Q0", "D0", "D1", "Q0"]);
    assert_eq!(b.pins[0].direction, "");
    assert_eq!(b.pins[0].group_capacitance, None);
    assert_eq!(b.pins[3].direction, "input");
    assert_eq!(b.pins[3].function, "X");
    assert_eq!(b.pins[3].group_capacitance, Some("0.5".to_string()));
    assert_eq!(b.pins[4].direction, "output");
    assert_eq!(b.pins[5].direction, "output");
    assert_eq!(b.pins[5].function, "D0");
    assert_eq!(b.pins[5].group_capacitance, None);
}

#[test]
fn truncated_library_is_refused() {
    assert!(parse_liberty(b"cell (X) {").is_none());
    assert!(parse_liberty(b"cell (X) { pin (A) {}").is_none());
}

#[test]
fn comments_are_ignored() {
    let cells = parse_liberty(b"/* cell(A) { } */ cell(B) { } // cell(C) { }\n").unwrap();
    assert_eq!(cells.len(), 1);
    assert_eq!(cells[0].name, "B");
}

#[test]
fn invalid_utf8_names_are_decoded_lossily() {
    let cells = parse_liberty(b"cell (A\xffB) { }").unwrap();
    assert_eq!(cells[0].name, "A\u{fffd}B");
}

#[test]
fn nand_becomes_a_gate() {
    let cells = cells();
    let plan = plan_gate(&cells[0]).unwrap();
    assert_eq!(plan.output, 2);
    assert_eq!(plan.function, "(A * B)");
    assert_eq!(plan.inputs.len(), 2);
    assert_eq!(plan.inputs[0].pin, 0);
    assert_eq!(plan.inputs[0].arcs, vec![0]);
    assert_eq!(plan.inputs[0].phase, "INV");
    assert_eq!(plan.inputs[1].pin, 1);
    assert!(plan.inputs[1].arcs.is_empty());
    // no arc for B: phase from the function, where B is used plainly
    assert_eq!(plan.inputs[1].phase, "NONINV");
}

fn cell_with(text: &str) -> CellText {
    let src = format!("cell (T) {{ {} }}", text);
    parse_liberty(src.as_bytes()).unwrap().remove(0)
}

#[test]
fn skip_reasons() {
    assert_eq!(plan_gate(&cell_with("dont_use : true; dont_touch : true;")).unwrap_err(), SkipReason::DontUse);
    assert_eq!(plan_gate(&cell_with("dont_touch : true;")).unwrap_err(), SkipReason::DontTouch);
    assert_eq!(plan_gate(&cell_with("latch (Q) { }")).unwrap_err(), SkipReason::Sequential);
    assert_eq!(
        plan_gate(&cell_with("clock_gating_integrated_cell : latch_posedge;")).unwrap_err(),
        SkipReason::Sequential
    );
    assert_eq!(
        plan_gate(&cell_with("pin (Y) { direction : output; function : A; three_state : EN; }")).unwrap_err(),
        SkipReason::TristateOnly
    );
    assert_eq!(
        plan_gate(&cell_with("pin (Y) { direction : output; }")).unwrap_err(),
        SkipReason::OutputNoFunction
    );
    assert_eq!(plan_gate(&cell_with("pin (Y) { direction : inout; }")).unwrap_err(), SkipReason::InoutOnly);
    assert_eq!(plan_gate(&cell_with("pin (Y) { direction : input; }")).unwrap_err(), SkipReason::NoOutputPin);
    assert_eq!(
        plan_gate(&cell_with("pin (Y) { direction : output; function : \"A\"; }")).unwrap_err(),
        SkipReason::NoInputPin
    );
    assert_eq!(
        plan_gate(&cell_with(
            "pin (A) { direction : input; } pin (Y) { direction : output; function : A; } pin (Z) { direction : output; function : A; }"
        ))
        .unwrap_err(),
        SkipReason::MultiOutput
    );
}

#[test]
fn skip_reason_names() {
    assert_eq!(SkipReason::DontUse.as_str(), "dont_use");
    assert_eq!(SkipReason::OutputNoFunction.as_str(), "output_no_function");
    assert_eq!(SkipReason::MultiOutput.as_str(), "multi_output");
}

#[test]
fn tie_cell_without_inputs_is_a_gate() {
    let c = cell_with("pin (Y) { direction : output; function : \"1'b1\"; }");
    let plan = plan_gate(&c).unwrap();
    assert_eq!(plan.function, "!1b1");
    assert!(plan.inputs.is_empty());
    assert_eq!(output_constants(&c), (false, true));
}

#[test]
fn include_dont_use_clears_the_mark() {
    let mut c = cell_with("dont_use : true; pin (A) { direction : input; } pin (Y) { direction : output; function : \"!A\"; }");
    assert_eq!(plan_gate(&c).unwrap_err(), SkipReason::DontUse);
    c.dont_use = false;
    let plan = plan_gate(&c).unwrap();
    assert_eq!(plan.inputs[0].phase, "INV");
}
