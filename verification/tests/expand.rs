use lsystem::axiom2lsystem::{Axiom2Lsystem, ExpandError};
use lsystem::rule::{LsystemAction, Rule};

fn fib_word_system() -> Axiom2Lsystem {
    let mut sys = Axiom2Lsystem::new("A".to_string());
    sys.add_rule(&Rule::new('A', "AB".to_string(), LsystemAction::DrawForward));
    sys.add_rule(&Rule::new('B', "A".to_string(), LsystemAction::DrawForward));
    sys
}

#[test]
fn zero_generations_returns_start_unchanged() {
    let sys = fib_word_system();
    assert_eq!(sys.build(0).unwrap(), "A");

    let empty_rules = Axiom2Lsystem::new("XYZ".to_string());
    assert_eq!(empty_rules.build(0).unwrap(), "XYZ");
}

#[test]
fn fibonacci_word_growth() {
    let sys = fib_word_system();
    assert_eq!(sys.build(1).unwrap(), "AB");
    assert_eq!(sys.build(2).unwrap(), "ABA");
    assert_eq!(sys.build(3).unwrap(), "ABAAB");
}

#[test]
fn unresolved_symbol_fails_with_the_symbol() {
    let mut sys = Axiom2Lsystem::new("A".to_string());
    sys.add_rule(&Rule::new('A', "AB".to_string(), LsystemAction::DrawForward));
    // Generation 0 rewrites "A" fine; generation 1 meets 'B', which has no rule.
    let err = sys.build(2).unwrap_err();
    assert_eq!(err, ExpandError::UnresolvedSymbol { symbol: 'B', generation: 1 });
    // One generation is still fine.
    assert_eq!(sys.build(1).unwrap(), "AB");
}

#[test]
fn unresolved_symbol_in_the_start_string() {
    let sys = Axiom2Lsystem::new("Q".to_string());
    let err = sys.build(3).unwrap_err();
    assert_eq!(err, ExpandError::UnresolvedSymbol { symbol: 'Q', generation: 0 });
}

#[test]
fn later_rule_for_same_symbol_wins() {
    let mut sys = Axiom2Lsystem::new("A".to_string());
    sys.add_rule(&Rule::new('A', "AA".to_string(), LsystemAction::DrawForward));
    sys.add_rule(&Rule::new('A', "B".to_string(), LsystemAction::DrawForward));
    sys.add_rule(&Rule::new('B', "B".to_string(), LsystemAction::DrawForward));
    assert_eq!(sys.build(1).unwrap(), "B");
    assert_eq!(sys.build(2).unwrap(), "B");
}

#[test]
fn plant_grammar_one_generation() {
    let mut sys = Axiom2Lsystem::new("X".to_string());
    let rules = vec![
        Rule::new('X', "F+[[X]-X]-F[-FX]+X".to_string(), LsystemAction::DrawForward),
        Rule::new('F', "FF".to_string(), LsystemAction::DrawForward),
        Rule::new('[', "[".to_string(), LsystemAction::BranchStart),
        Rule::new(']', "]".to_string(), LsystemAction::BranchEnd),
        Rule::new('+', "+".to_string(), LsystemAction::TurnLeft),
        Rule::new('-', "-".to_string(), LsystemAction::TurnRight),
    ];
    for rule in &rules {
        sys.add_rule(rule);
    }
    assert_eq!(sys.build(1).unwrap(), "F+[[X]-X]-F[-FX]+X");
    // Each generation rewrites every symbol; 'F' doubles.
    let g2 = sys.build(2).unwrap();
    assert!(g2.starts_with("FF+[["));
}
