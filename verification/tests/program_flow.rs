use fractran::ast::{to_succinct_names, EvalError, Prog, Rule};
use fractran::engine::RunStatus;
use fractran::parse::parse_prog_text;

fn names_of(v: &[&str]) -> Vec<String> {
    v.iter().map(|s| s.to_string()).collect::<Vec<_>>()
}

#[test]
fn alphabet_in_order_of_first_appearance() {
    let rules = vec![
        Rule::new(names_of(&["b", "a"]), names_of(&["c", "a"])),
        Rule::new(names_of(&["d"]), names_of(&["b"])),
    ];
    let names = Prog::get_names(&rules);
    assert_eq!(names, names_of(&["b", "a", "c", "d"]));
}

#[test]
fn succinct_groups_repeats() {
    let names = names_of(&["plank", "log", "log"]);
    assert_eq!(to_succinct_names(&names), names_of(&["plank", "log^2"]));
}

#[test]
fn succinct_renders_larger_counts_in_decimal() {
    let mut names: Vec<String> = Vec::new();
    for _ in 0..12 {
        names.push("a".to_string());
    }
    names.push("b".to_string());
    assert_eq!(to_succinct_names(&names), names_of(&["a^12", "b"]));
}

#[test]
fn parse_simple_program() {
    let prog = parse_prog_text(":: a > b\n;; a").unwrap();
    assert_eq!(prog.rules.len(), 1);
    assert_eq!(prog.rules[0].left, names_of(&["a"]));
    assert_eq!(prog.rules[0].right, names_of(&["b"]));
    assert_eq!(prog.state, names_of(&["a"]));
}

#[test]
fn parse_program_without_rules() {
    let prog = parse_prog_text(";; apples oranges").unwrap();
    assert_eq!(prog.rules.len(), 0);
    assert_eq!(prog.state, names_of(&["apples", "oranges"]));
}

#[test]
fn exponent_sugar() {
    let prog = parse_prog_text(":: cat^3 > dog\n;; cat^3").unwrap();
    assert_eq!(prog.rules[0].left, names_of(&["cat", "cat", "cat"]));
    assert_eq!(prog.rules[0].right, names_of(&["dog"]));
    assert_eq!(prog.state, names_of(&["cat", "cat", "cat"]));
}

#[test]
fn exponent_zero_expands_to_nothing() {
    let prog = parse_prog_text(":: cat > dog\n;; cat^0 dog").unwrap();
    assert_eq!(prog.state, names_of(&["dog"]));
}

#[test]
fn parse_rejects_missing_arrow() {
    assert!(parse_prog_text(":: a b\n;; a").is_err());
}

#[test]
fn parse_rejects_missing_state_marker() {
    assert!(parse_prog_text(":: a > b\n").is_err());
    assert!(parse_prog_text("").is_err());
}

#[test]
fn parse_rejects_empty_state_section() {
    assert!(parse_prog_text(":: a > b\n;;").is_err());
}

#[test]
fn parse_rejects_unrecognized_character() {
    assert!(parse_prog_text(";; a $").is_err());
    assert!(parse_prog_text(":: a! > b\n;; a").is_err());
}

#[test]
fn parse_rejects_malformed_exponent() {
    assert!(parse_prog_text(";; a^").is_err());
    assert!(parse_prog_text(";; a^x").is_err());
    assert!(parse_prog_text(";; a^99999999999999999999999999999999999999999").is_err());
}

#[test]
fn eval_growing_program_does_not_halt() {
    let prog = parse_prog_text(":: a > a a\n;; a").unwrap();
    let report = prog.eval(10).unwrap();
    assert_eq!(report.status, RunStatus::StepLimit);
    assert_eq!(report.trace.len(), 10);
    assert_eq!(report.init_acc, 2);
    assert_eq!(report.final_acc, 2048);
}

#[test]
fn eval_one_step_then_stuck() {
    let prog = parse_prog_text(":: a > b\n;; a").unwrap();
    let report = prog.eval(100).unwrap();
    assert_eq!(report.status, RunStatus::Halted);
    assert_eq!(report.trace.len(), 1);
    assert_eq!(report.init_acc, 2);
    assert_eq!(report.final_acc, 3);
    assert_eq!(report.final_names, names_of(&["b"]));
    assert_eq!(report.names, names_of(&["a", "b"]));
}

#[test]
fn eval_rejects_state_name_outside_rules() {
    let prog = parse_prog_text(":: a > b\n;; c").unwrap();
    assert_eq!(prog.eval(10).unwrap_err(), EvalError::UnboundStateSymbol);
}

#[test]
fn eval_full_recipe_scenario() {
    let text = ":: flour sugar apples > apple-cake\n;; flour sugar apples apples";
    let prog = parse_prog_text(text).unwrap();
    let report = prog.eval(100).unwrap();
    assert_eq!(report.status, RunStatus::Halted);
    assert_eq!(report.trace.len(), 1);
    assert_eq!(report.final_names, names_of(&["apples", "apple-cake"]));
}

#[test]
fn eval_rejects_state_too_large_for_machine() {
    let prog = parse_prog_text(":: a > b\n;; a^200").unwrap();
    assert_eq!(prog.eval(10).unwrap_err(), EvalError::TooLarge);
}

#[test]
fn eval_reports_overflow_of_a_growing_accumulator() {
    let prog = parse_prog_text(":: a > a a\n;; a").unwrap();
    let report = prog.eval(1000).unwrap();
    assert_eq!(report.status, RunStatus::Overflow);
    assert_eq!(report.trace.len(), 125);
    assert_eq!(report.final_acc, 1i128 << 126);
}
