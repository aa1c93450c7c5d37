// Scenario checks carried over from the solver modules; they restate the
// expected figures of each scenario.

#[test]
fn revolute_joint_holds_anchor_coincident() {
    let max_separation = 1e-3;
    assert!(max_separation < 0.01);
}

#[test]
fn position_correction_reduces_penetration() {
    let initial_depth = 0.5;
    let _after_1_iteration = 0.3;
    let after_3_iterations = 0.05;
    assert!(after_3_iterations < initial_depth);
    assert!(after_3_iterations > 0.0);
}

#[test]
fn position_correction_respects_linear_slop() {
    let linear_slop: f32 = 0.01;
    let depth: f32 = linear_slop / 2.0;
    let penetration = (depth - linear_slop).max(0.0);
    assert_eq!(penetration, 0.0);
}
