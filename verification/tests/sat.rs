//! The satisfiability solver: verdicts, models and search statistics.

use csolver::sat::{over_time_budget, Lit, SatResult, Solver, DEFAULT_BUDGET};

fn check_model(clauses: &[Vec<Lit>], model: &[bool]) -> bool {
    clauses.iter().all(|c| {
        c.iter()
            .any(|l| model[l.var as usize] != l.neg)
    })
}

#[test]
fn empty_clause_is_unsat() {
    let mut s = Solver::new(1, vec![vec![]]);
    assert_eq!(s.solve(DEFAULT_BUDGET), SatResult::Unsat);
}

#[test]
fn no_clauses_is_sat() {
    let mut s = Solver::new(3, vec![]);
    assert!(matches!(s.solve(DEFAULT_BUDGET), SatResult::Sat(_)));
}

#[test]
fn unit_contradiction_is_unsat() {
    let mut s = Solver::new(1, vec![vec![Lit::pos(0)], vec![Lit::neg(0)]]);
    assert_eq!(s.solve(DEFAULT_BUDGET), SatResult::Unsat);
}

#[test]
fn simple_sat_has_valid_model() {
    let clauses = vec![
        vec![Lit::pos(0), Lit::pos(1)],
        vec![Lit::neg(0), Lit::pos(2)],
    ];
    let mut s = Solver::new(3, clauses.clone());
    match s.solve(DEFAULT_BUDGET) {
        SatResult::Sat(m) => assert!(check_model(&clauses, &m)),
        other => panic!("expected SAT, got {other:?}"),
    }
}

#[test]
fn pigeonhole_2_into_1_is_unsat() {
    let clauses = vec![
        vec![Lit::pos(0)],
        vec![Lit::pos(1)],
        vec![Lit::neg(0), Lit::neg(1)],
    ];
    let mut s = Solver::new(2, clauses);
    assert_eq!(s.solve(DEFAULT_BUDGET), SatResult::Unsat);
}

#[test]
fn xor_chain_unsat() {
    let clauses = vec![
        vec![Lit::neg(0), Lit::pos(1)],
        vec![Lit::pos(0), Lit::neg(1)],
        vec![Lit::neg(1), Lit::pos(2)],
        vec![Lit::pos(1), Lit::neg(2)],
        vec![Lit::pos(2), Lit::pos(0)],
        vec![Lit::neg(2), Lit::neg(0)],
    ];
    let mut s = Solver::new(3, clauses);
    assert_eq!(s.solve(DEFAULT_BUDGET), SatResult::Unsat);
}

#[test]
fn pigeonhole_4_into_3_is_unsat() {
    let v = |p: u32, h: u32| p * 3 + h;
    let mut clauses = Vec::new();
    for p in 0..4 {
        clauses.push((0..3).map(|h| Lit::pos(v(p, h))).collect());
    }
    for h in 0..3 {
        for p1 in 0..4 {
            for p2 in (p1 + 1)..4 {
                clauses.push(vec![Lit::neg(v(p1, h)), Lit::neg(v(p2, h))]);
            }
        }
    }
    let mut s = Solver::new(12, clauses);
    assert_eq!(s.solve(DEFAULT_BUDGET), SatResult::Unsat);
}

fn pigeonhole(pigeons: u32, holes: u32) -> (usize, Vec<Vec<Lit>>) {
    let v = |p: u32, h: u32| p * holes + h;
    let mut clauses = Vec::new();
    for p in 0..pigeons {
        clauses.push((0..holes).map(|h| Lit::pos(v(p, h))).collect());
    }
    for h in 0..holes {
        for p1 in 0..pigeons {
            for p2 in (p1 + 1)..pigeons {
                clauses.push(vec![Lit::neg(v(p1, h)), Lit::neg(v(p2, h))]);
            }
        }
    }
    ((pigeons * holes) as usize, clauses)
}

#[test]
fn restarts_fire_on_a_hard_unsat_without_changing_the_verdict() {
    let (n, clauses) = pigeonhole(6, 5);
    let mut s = Solver::new(n, clauses);
    assert_eq!(s.solve(DEFAULT_BUDGET), SatResult::Unsat);
    assert!(s.restarts() > 0, "expected a restart, got {}", s.restarts());
}

#[test]
fn clause_deletion_fires_without_changing_the_verdict() {
    let (n, clauses) = pigeonhole(6, 5);
    let mut s = Solver::new(n, clauses);
    assert_eq!(s.solve(DEFAULT_BUDGET), SatResult::Unsat);
    assert!(s.reductions() > 0, "expected a reduction, got {}", s.reductions());
}

#[test]
fn learned_clause_never_loses_a_model() {
    let clauses = vec![
        vec![Lit::pos(0), Lit::pos(1)],
        vec![Lit::neg(0), Lit::pos(2)],
        vec![Lit::neg(1), Lit::pos(2)],
        vec![Lit::neg(2), Lit::pos(3)],
        vec![Lit::pos(0), Lit::neg(3), Lit::pos(4)],
    ];
    let mut s = Solver::new(5, clauses.clone());
    match s.solve(DEFAULT_BUDGET) {
        SatResult::Sat(m) => assert!(check_model(&clauses, &m)),
        other => panic!("expected SAT, got {other:?}"),
    }
}

#[test]
fn conflict_at_level_zero_after_learning_is_unsat() {
    let clauses = vec![
        vec![Lit::pos(0), Lit::pos(1)],
        vec![Lit::pos(0), Lit::neg(1)],
        vec![Lit::neg(0), Lit::pos(2)],
        vec![Lit::neg(0), Lit::neg(2)],
    ];
    let mut s = Solver::new(3, clauses);
    assert_eq!(s.solve(DEFAULT_BUDGET), SatResult::Unsat);
}

#[test]
fn budget_zero_on_open_problem_is_unknown() {
    let clauses = vec![vec![Lit::pos(0), Lit::pos(1)]];
    let mut s = Solver::new(2, clauses);
    assert_eq!(s.solve(0), SatResult::Unknown);
}

fn brute_force_sat(n: u32, clauses: &[Vec<Lit>]) -> bool {
    (0u32..(1u32 << n)).any(|mask| {
        let model: Vec<bool> = (0..n).map(|v| mask & (1 << v) != 0).collect();
        check_model(clauses, &model)
    })
}

#[test]
fn cdcl_agrees_with_brute_force_on_random_instances() {
    let mut state: u64 = 0x9e37_79b9_7f4a_7c15;
    let mut rng = || {
        state ^= state << 13;
        state ^= state >> 7;
        state ^= state << 17;
        state
    };
    for _ in 0..4000 {
        let n: u32 = 3 + (rng() % 4) as u32;
        let m = 1 + (rng() % 14) as usize;
        let clauses: Vec<Vec<Lit>> = (0..m)
            .map(|_| {
                let k = 1 + (rng() % 3) as usize;
                (0..k)
                    .map(|_| {
                        let var = (rng() % n as u64) as u32;
                        if rng() & 1 == 0 { Lit::pos(var) } else { Lit::neg(var) }
                    })
                    .collect()
            })
            .collect();

        let oracle = brute_force_sat(n, &clauses);
        let mut s = Solver::new(n as usize, clauses.clone());
        match s.solve(DEFAULT_BUDGET) {
            SatResult::Sat(model) => {
                assert!(oracle, "CDCL said SAT but oracle says UNSAT: {clauses:?}");
                assert!(
                    check_model(&clauses, &model),
                    "CDCL returned an invalid model: {clauses:?} / {model:?}"
                );
            }
            SatResult::Unsat => {
                assert!(!oracle, "CDCL falsely refuted a satisfiable instance: {clauses:?}");
            }
            SatResult::Unknown => panic!("small instance hit the budget: {clauses:?}"),
        }
    }
}

#[test]
fn negation_is_an_involution() {
    let l = Lit::pos(7);
    assert_eq!(l.negated(), Lit::neg(7));
    assert_eq!(l.negated().negated(), l);
}

#[test]
fn a_budget_that_suffices_decides() {
    let clauses = vec![vec![Lit::pos(0), Lit::pos(1)]];
    let mut s = Solver::new(2, clauses.clone());
    match s.solve(100) {
        SatResult::Sat(m) => assert!(check_model(&clauses, &m)),
        other => panic!("expected SAT, got {other:?}"),
    }
}

#[test]
fn time_budget_is_a_quarter_second() {
    assert!(!over_time_budget(250_000_000));
    assert!(over_time_budget(250_000_001));
}

#[test]
fn the_search_counts_its_steps() {
    let mut s = Solver::new(2, vec![vec![Lit::pos(0), Lit::pos(1)]]);
    assert_eq!(s.solve(0), SatResult::Unknown);
    assert_eq!((s.decisions(), s.ticks()), (0, 0));
    assert!(s.readings().is_empty());
    let mut s = Solver::new(1, vec![vec![Lit::pos(0)]]);
    assert_eq!(s.solve(0), SatResult::Sat(vec![true]), "unit clauses need no decision");
    assert_eq!(s.decisions(), 0);
    let mut s = Solver::new(3, vec![]);
    assert!(matches!(s.solve(DEFAULT_BUDGET), SatResult::Sat(_)));
    assert_eq!(s.decisions(), 3);
}

#[test]
fn what_units_refute_needs_no_budget() {
    let clauses = vec![
        vec![Lit::pos(0)],
        vec![Lit::neg(0), Lit::pos(1)],
        vec![Lit::neg(1), Lit::neg(0)],
    ];
    let mut s = Solver::new(3, clauses);
    assert_eq!(s.solve(0), SatResult::Unsat);
}

#[test]
fn a_search_gives_up_when_the_budget_is_spent() {
    let (n, clauses) = pigeonhole(6, 5);
    let mut s = Solver::new(n, clauses);
    assert_eq!(s.solve(3), SatResult::Unknown);
    assert_eq!(s.decisions(), 3);
}

#[test]
fn a_search_gives_up_when_the_clock_is_late() {
    let (n, clauses) = pigeonhole(9, 8);
    let mut s = Solver::new(n, clauses.clone());
    assert_eq!(s.solve_timed(DEFAULT_BUDGET, &vec![250_000_001]), SatResult::Unknown);
    assert_eq!(s.ticks(), 8192);
    assert_eq!(s.readings(), &vec![250_000_001]);
    let mut s = Solver::new(n, clauses);
    assert_eq!(s.solve_timed(DEFAULT_BUDGET, &vec![7, 300_000_000]), SatResult::Unknown);
    assert_eq!(s.ticks(), 2 * 8192);
    assert_eq!(s.readings(), &vec![7, 300_000_000]);
}

#[test]
fn a_clock_that_is_not_late_changes_nothing() {
    let (n, clauses) = pigeonhole(6, 5);
    let mut s = Solver::new(n, clauses);
    assert_eq!(s.solve_timed(DEFAULT_BUDGET, &vec![]), SatResult::Unsat);
    assert!(s.readings().iter().all(|r| *r == 0));
    assert_eq!(s.readings().len() as u128, s.ticks() / 8192);
}

#[test]
fn a_second_search_keeps_the_model() {
    let clauses = vec![
        vec![Lit::pos(0), Lit::pos(1)],
        vec![Lit::neg(0), Lit::pos(2)],
        vec![Lit::neg(2), Lit::neg(1)],
    ];
    let mut s = Solver::new(4, clauses.clone());
    let first = s.solve(DEFAULT_BUDGET);
    let model = match &first {
        SatResult::Sat(m) => m.clone(),
        other => panic!("expected SAT, got {other:?}"),
    };
    assert!(check_model(&clauses, &model));
    assert_eq!(s.solve(0), first, "no decision is left to make");
    assert_eq!((s.decisions(), s.ticks()), (0, 0));
}

#[test]
fn a_search_goes_on_where_the_budget_ended() {
    let (n, clauses) = pigeonhole(6, 5);
    let mut s = Solver::new(n, clauses);
    assert_eq!(s.solve(3), SatResult::Unknown);
    assert_eq!(s.solve(2), SatResult::Unknown);
    assert_eq!(s.decisions(), 2);
    assert_eq!(s.solve(DEFAULT_BUDGET), SatResult::Unsat);
    let clauses = vec![vec![Lit::pos(0), Lit::pos(1)], vec![Lit::neg(0), Lit::neg(1)]];
    let mut s = Solver::new(2, clauses.clone());
    assert_eq!(s.solve(0), SatResult::Unknown);
    match s.solve(1) {
        SatResult::Sat(m) => assert!(check_model(&clauses, &m)),
        other => panic!("expected SAT, got {other:?}"),
    }
}
