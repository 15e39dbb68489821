//! The solver interface and the backend that decides nothing.

use csolver::smt::{NullSolver, SatResult, SmtSolver, SortKind};

#[test]
fn null_solver_is_sound_unknown() {
    let mut s = NullSolver::new();
    let bv = s.declare_sort(SortKind::BitVec(64));
    let x = s.declare_const("x", bv);
    s.push();
    s.assert_term(x);
    assert!(matches!(s.check(), SatResult::Unknown { .. }));
    s.pop();
}

#[test]
fn handles_are_numbered_in_order() {
    let mut s = NullSolver::new();
    assert_eq!(s.name(), "null");
    let a = s.declare_sort(SortKind::Bool);
    let b = s.declare_sort(SortKind::Array { index: 64, element: 8 });
    let t = s.declare_const("t", b);
    assert_eq!((a.0, b.0, t.0), (0, 1, 2));
}

#[test]
fn results_are_shown_in_words() {
    assert_eq!(SatResult::Sat.render(), "sat");
    assert_eq!(SatResult::Unsat { core: vec!["a".to_string()] }.render(), "unsat");
    assert_eq!(SatResult::Unknown { reason: "timeout".to_string() }.render(), "unknown (timeout)");
    assert_eq!(
        NullSolver::default().check().render(),
        "unknown (no decision procedure configured (NullSolver))"
    );
}

#[test]
fn popping_without_a_scope_is_harmless() {
    let mut s = NullSolver::new();
    s.pop();
    s.push();
    s.pop();
    s.pop();
    assert!(matches!(s.check(), SatResult::Unknown { .. }));
}
