use lsystem::axiom2lsystem::Axiom2Lsystem;
use lsystem::lsystem2points::{BuildError, Geometry, Lsystem2Points};
use lsystem::rule::{LsystemAction, Rule};

/// A geometry with four headings (east, north, west, south), unit vectors of
/// length 1, step length 10, starting at the origin heading north; one turn
/// unit is a quarter turn.
fn quarter_turn_interpreter() -> Lsystem2Points {
    let dirs = vec![(1, 0), (0, 1), (-1, 0), (0, -1)];
    let geom = Geometry::new(dirs, 10, 1, 1, 1, 0, 0, 1);
    let mut interp = Lsystem2Points::new(geom);
    interp.add_rule(&Rule::new('F', "F".to_string(), LsystemAction::DrawForward));
    interp.add_rule(&Rule::new('+', "+".to_string(), LsystemAction::TurnLeft));
    interp.add_rule(&Rule::new('-', "-".to_string(), LsystemAction::TurnRight));
    interp.add_rule(&Rule::new('[', "[".to_string(), LsystemAction::BranchStart));
    interp.add_rule(&Rule::new(']', "]".to_string(), LsystemAction::BranchEnd));
    interp
}

#[test]
fn no_markers_single_branch_with_one_point_per_draw() {
    let interp = quarter_turn_interpreter();
    let tree = interp.build_tree("FF+F").unwrap();
    assert_eq!(tree.branches_amount, 1);
    let trunk = tree.get_branch(0).unwrap();
    // Three draws, three committed points: the pending point before each move.
    assert_eq!(trunk.len(), 3);
    assert_eq!((trunk[0].x, trunk[0].y), (0, 0));
    assert_eq!((trunk[1].x, trunk[1].y), (0, 10));
    assert_eq!((trunk[2].x, trunk[2].y), (0, 20));
    assert!(trunk.iter().all(|p| p.branches.is_none()));
    assert!(tree.get_branch(1).is_none());
}

#[test]
fn turns_select_headings() {
    let interp = quarter_turn_interpreter();
    // North, then right to east, then right to south, then left back to east.
    let tree = interp.build_tree("F-F-F+F").unwrap();
    let trunk = tree.get_branch(0).unwrap();
    assert_eq!(trunk.len(), 4);
    assert_eq!((trunk[0].x, trunk[0].y), (0, 0));
    assert_eq!((trunk[1].x, trunk[1].y), (0, 10));
    assert_eq!((trunk[2].x, trunk[2].y), (10, 10));
    assert_eq!((trunk[3].x, trunk[3].y), (10, 0));
}

#[test]
fn one_branch_pair_gives_two_linked_branches() {
    let interp = quarter_turn_interpreter();
    let tree = interp.build_tree("F[F]F").unwrap();
    assert_eq!(tree.branches_amount, 2);

    let trunk = tree.get_branch(0).unwrap();
    let child = tree.get_branch(1).unwrap();

    // The branch point on the trunk carries the child's id.
    assert_eq!(trunk.len(), 2);
    assert_eq!((trunk[1].x, trunk[1].y), (0, 10));
    assert_eq!(trunk[1].branches, Some(vec![1]));

    // The child's first point coincides with the trunk's pending point at the
    // moment of the split.
    assert_eq!(child.len(), 1);
    assert_eq!((child[0].x, child[0].y), (0, 10));
    assert_eq!(child[0].branches, None);
}

#[test]
fn unmatched_branch_end_fails() {
    let interp = quarter_turn_interpreter();
    let err = interp.build_tree("F]").unwrap_err();
    assert_eq!(err, BuildError::UnbalancedBranchMarkers { index: 1 });

    let err = interp.build_tree("]").unwrap_err();
    assert_eq!(err, BuildError::UnbalancedBranchMarkers { index: 0 });
}

#[test]
fn missing_action_fails_with_symbol_and_index() {
    let interp = quarter_turn_interpreter();
    let err = interp.build_tree("FX").unwrap_err();
    assert_eq!(err, BuildError::MissingAction { symbol: 'X', index: 1 });
}

#[test]
fn nested_branches_form_a_tree_of_depth_two() {
    let interp = quarter_turn_interpreter();
    let tree = interp.build_tree("F[F[F]F]F").unwrap();
    assert_eq!(tree.branches_amount, 3);

    let trunk = tree.get_branch(0).unwrap();
    let mid = tree.get_branch(1).unwrap();
    let tip = tree.get_branch(2).unwrap();

    // Trunk spawns branch 1, branch 1 spawns branch 2: depth two.
    assert_eq!(trunk.len(), 2);
    assert_eq!(trunk[1].branches, Some(vec![1]));
    assert_eq!((trunk[1].x, trunk[1].y), (0, 10));

    assert_eq!(mid.len(), 2);
    assert_eq!((mid[0].x, mid[0].y), (0, 10));
    assert_eq!(mid[1].branches, Some(vec![2]));
    assert_eq!((mid[1].x, mid[1].y), (0, 20));

    assert_eq!(tip.len(), 1);
    assert_eq!((tip[0].x, tip[0].y), (0, 20));
    assert_eq!(tip[0].branches, None);
}

#[test]
fn branch_end_restores_heading_and_position() {
    let interp = quarter_turn_interpreter();
    // The child turns west; after the branch closes the trunk must resume
    // heading north from the split position.
    let tree = interp.build_tree("F[+F]FF").unwrap();
    let trunk = tree.get_branch(0).unwrap();
    let child = tree.get_branch(1).unwrap();

    assert_eq!(child.len(), 1);
    assert_eq!((child[0].x, child[0].y), (0, 10));

    assert_eq!(trunk.len(), 3);
    assert_eq!((trunk[1].x, trunk[1].y), (0, 10));
    assert_eq!(trunk[1].branches, Some(vec![1]));
    // Straight on north: the child's westward turn did not leak back.
    assert_eq!((trunk[2].x, trunk[2].y), (0, 20));
}

#[test]
fn empty_string_yields_one_empty_trunk() {
    let interp = quarter_turn_interpreter();
    let tree = interp.build_tree("").unwrap();
    assert_eq!(tree.branches_amount, 1);
    assert_eq!(tree.get_branch(0).unwrap().len(), 0);
}

#[test]
fn unclosed_branch_is_the_one_flushed() {
    let interp = quarter_turn_interpreter();
    // The string ends inside branch 1: only the still-active branch is
    // flushed; the suspended trunk is dropped with its saved state.
    let tree = interp.build_tree("F[F").unwrap();
    assert_eq!(tree.branches_amount, 1);
    assert!(tree.get_branch(0).is_none());
    let child = tree.get_branch(1).unwrap();
    assert_eq!(child.len(), 1);
    assert_eq!((child[0].x, child[0].y), (0, 10));
}

#[test]
fn later_action_for_same_symbol_wins() {
    let dirs = vec![(1, 0), (0, 1), (-1, 0), (0, -1)];
    let geom = Geometry::new(dirs, 10, 1, 1, 1, 0, 0, 1);
    let mut interp = Lsystem2Points::new(geom);
    interp.add_rule(&Rule::new('F', "F".to_string(), LsystemAction::BranchEnd));
    interp.add_rule(&Rule::new('F', "F".to_string(), LsystemAction::DrawForward));
    let tree = interp.build_tree("F").unwrap();
    assert_eq!(tree.get_branch(0).unwrap().len(), 1);
}

#[test]
fn geometry_reduces_turns_and_keeps_grow_scaling() {
    let dirs = vec![(1, 0), (0, 1), (-1, 0), (0, -1)];
    // Turns of five quarter-turns act as one; a start heading of six acts as
    // two (west).
    let geom = Geometry::new(dirs, 10, 5, 5, 6, 0, 0, 7);
    assert_eq!(geom.grow_scaling(), 7);
    let mut interp = Lsystem2Points::new(geom);
    interp.add_rule(&Rule::new('F', "F".to_string(), LsystemAction::DrawForward));
    interp.add_rule(&Rule::new('+', "+".to_string(), LsystemAction::TurnLeft));
    let tree = interp.build_tree("F+F").unwrap();
    let trunk = tree.get_branch(0).unwrap();
    // West first, then south after one left turn of five units (= one unit).
    assert_eq!((trunk[0].x, trunk[0].y), (0, 0));
    assert_eq!((trunk[1].x, trunk[1].y), (-10, 0));
    let t = interp.build_tree("F+FF").unwrap();
    let tr = t.get_branch(0).unwrap();
    assert_eq!((tr[2].x, tr[2].y), (-10, -10));
}

#[test]
fn expansion_feeds_interpretation() {
    let rules = vec![
        Rule::new('F', "F[+F]F".to_string(), LsystemAction::DrawForward),
        Rule::new('[', "[".to_string(), LsystemAction::BranchStart),
        Rule::new(']', "]".to_string(), LsystemAction::BranchEnd),
        Rule::new('+', "+".to_string(), LsystemAction::TurnLeft),
    ];
    let mut sys = Axiom2Lsystem::new("F".to_string());
    let dirs = vec![(1, 0), (0, 1), (-1, 0), (0, -1)];
    let geom = Geometry::new(dirs, 10, 1, 1, 1, 0, 0, 1);
    let mut interp = Lsystem2Points::new(geom);
    for rule in &rules {
        sys.add_rule(rule);
        interp.add_rule(rule);
    }
    let expanded = sys.build(1).unwrap();
    assert_eq!(expanded, "F[+F]F");
    let tree = interp.build_tree(&expanded).unwrap();
    assert_eq!(tree.branches_amount, 2);
    let trunk = tree.get_branch(0).unwrap();
    assert_eq!(trunk.len(), 2);
    assert_eq!(trunk[1].branches, Some(vec![1]));
}

#[test]
fn plant_grammar_generation_two_full_pipeline() {
    let rules = vec![
        Rule::new('X', "F+[[X]-X]-F[-FX]+X".to_string(), LsystemAction::DrawForward),
        Rule::new('F', "FF".to_string(), LsystemAction::DrawForward),
        Rule::new('[', "[".to_string(), LsystemAction::BranchStart),
        Rule::new(']', "]".to_string(), LsystemAction::BranchEnd),
        Rule::new('+', "+".to_string(), LsystemAction::TurnLeft),
        Rule::new('-', "-".to_string(), LsystemAction::TurnRight),
    ];
    let mut sys = Axiom2Lsystem::new("X".to_string());

    // A table of whole-degree headings as fixed-point unit vectors, as a host
    // computing with floating-point trigonometry would supply it.
    let scale = 1_000_000.0_f64;
    let dirs: Vec<(i64, i64)> = (0..360)
        .map(|deg| {
            let rad = (deg as f64).to_radians();
            ((rad.cos() * scale).round() as i64, (rad.sin() * scale).round() as i64)
        })
        .collect();
    let geom = Geometry::new(dirs, 10, 20, 80, 90, 0, 0, 1);
    let mut interp = Lsystem2Points::new(geom);
    for rule in &rules {
        sys.add_rule(rule);
        interp.add_rule(rule);
    }

    let expanded = sys.build(2).unwrap();
    assert_eq!(expanded.len(), 89);
    let opens = expanded.chars().filter(|&c| c == '[').count();
    assert_eq!(opens, 15);

    let tree = interp.build_tree(&expanded).unwrap();
    // Balanced markers: every opened branch closes, plus the trunk.
    assert_eq!(tree.branches_amount, 16);
    for id in 0..16 {
        assert!(tree.get_branch(id).is_some());
    }
    assert!(tree.get_branch(16).is_none());

    // The trunk starts at the origin.
    let trunk = tree.get_branch(0).unwrap();
    assert_eq!((trunk[0].x, trunk[0].y), (0, 0));
}
