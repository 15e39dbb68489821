//! Exact decisions on bit-vector expressions, and the circuits behind them.

use csolver::affine::Affine;
use csolver::bitblast::Cnf;
use csolver::blast::{decide, Verdict};
use csolver::expr::{mk_bin, mk_lit, mk_rel, BvOp, CmpOp, Ex, Expr, Symbol};
use csolver::ir::{BitVector, Type};
use csolver::sat::{Lit, SatResult, Solver, DEFAULT_BUDGET};
use std::rc::Rc;

fn var(n: u64, width: u32) -> Ex {
    Rc::new(Expr::Sym { name: Symbol::Arg(n), width })
}

fn holds(premises: Vec<Ex>, goal: Ex) -> bool {
    matches!(decide(&premises, &goal, DEFAULT_BUDGET), Verdict::Holds)
}

fn fails(premises: Vec<Ex>, goal: Ex) -> bool {
    matches!(decide(&premises, &goal, DEFAULT_BUDGET), Verdict::Fails(_))
}

#[test]
fn identities_of_machine_arithmetic_hold() {
    let (x, y) = (var(0, 8), var(1, 8));
    let sum = mk_bin(BvOp::Add, &x, &y);
    let back = mk_bin(BvOp::Sub, &sum, &y);
    assert!(holds(vec![], mk_rel(CmpOp::Eq, &back, &x)));
    let twice = mk_bin(BvOp::Mul, &x, &mk_lit(8, 2));
    assert!(holds(vec![], mk_rel(CmpOp::Eq, &twice, &mk_bin(BvOp::Add, &x, &x))));
    let both = mk_bin(BvOp::And, &x, &y);
    assert!(holds(vec![], mk_rel(CmpOp::Ule, &both, &x)));
    let either = mk_bin(BvOp::Or, &x, &y);
    assert!(holds(vec![], mk_rel(CmpOp::Ule, &x, &either)));
    let gone = mk_bin(BvOp::Xor, &x, &x);
    assert!(holds(vec![], mk_rel(CmpOp::Eq, &gone, &mk_lit(8, 0))));
    let shifted = mk_bin(BvOp::Shl, &x, &mk_lit(8, 1));
    assert!(holds(vec![], mk_rel(CmpOp::Eq, &shifted, &twice)));
}

#[test]
fn overflow_is_found() {
    let x = var(0, 8);
    let next = mk_bin(BvOp::Add, &x, &mk_lit(8, 1));
    let goal = mk_rel(CmpOp::Ugt, &next, &x);
    match decide(&vec![], &goal, DEFAULT_BUDGET) {
        Verdict::Fails(m) => {
            assert_eq!(m.len(), 1);
            assert_eq!(m[0].name, Symbol::Arg(0));
            assert_eq!((m[0].width, m[0].value), (8, 255));
        }
        other => panic!("expected a counterexample, got {other:?}"),
    }
    let below = mk_rel(CmpOp::Ult, &x, &mk_lit(8, 255));
    assert!(holds(vec![below], goal));
}

#[test]
fn signed_and_unsigned_comparisons_differ() {
    let (x, zero) = (var(0, 8), mk_lit(8, 0));
    assert!(holds(vec![], mk_rel(CmpOp::Uge, &x, &zero)));
    assert!(fails(vec![], mk_rel(CmpOp::Sge, &x, &zero)));
    let minus = mk_lit(8, 255);
    assert!(holds(vec![mk_rel(CmpOp::Slt, &x, &zero)], mk_rel(CmpOp::Sle, &x, &minus)));
}

#[test]
fn what_is_evident_needs_no_search() {
    let x = Rc::new(Expr::Bin { op: BvOp::UDiv, a: var(0, 8), b: var(1, 8) });
    let odd = mk_rel(CmpOp::Eq, &x, &mk_lit(8, 3));
    assert!(matches!(decide(&vec![], &odd, DEFAULT_BUDGET), Verdict::Unknown));
    assert!(matches!(decide(&vec![odd.clone()], &odd, 0), Verdict::Holds));
    assert!(matches!(decide(&vec![Rc::new(Expr::Bool(false))], &odd, 0), Verdict::Holds));
    assert!(matches!(decide(&vec![odd], &Rc::new(Expr::Bool(true)), 0), Verdict::Holds));
}

#[test]
fn constants_are_folded() {
    let c = |op, a, b| mk_bin(op, &mk_lit(8, a), &mk_lit(8, b));
    assert_eq!(*c(BvOp::Add, 250, 10), Expr::Const(BitVector { width: 8, bits: 4 }));
    assert_eq!(*c(BvOp::Sub, 3, 5), Expr::Const(BitVector { width: 8, bits: 254 }));
    assert_eq!(*c(BvOp::Mul, 16, 17), Expr::Const(BitVector { width: 8, bits: 16 }));
}

#[test]
fn names_of_variables() {
    let names = vec!["g".to_string()];
    assert_eq!(Symbol::Arg(3).render(&names), "arg3");
    assert_eq!(Symbol::Fresh(12).render(&names), "?12");
    assert_eq!(Symbol::Global(0).render(&names), "@g");
}

fn solved(cnf: Cnf) -> Option<Vec<bool>> {
    let n = cnf.num_vars;
    match Solver::new(n, cnf.clauses).solve(DEFAULT_BUDGET) {
        SatResult::Sat(m) => Some(m),
        _ => None,
    }
}

fn value(m: &Vec<bool>, bits: &Vec<Lit>) -> u64 {
    bits.iter()
        .enumerate()
        .map(|(i, l)| if m[l.var as usize] != l.neg { 1u64 << i } else { 0 })
        .sum()
}

fn fixed(cnf: &mut Cnf, n: u64, w: usize) -> Vec<Lit> {
    let bits = cnf.fresh_bits(w);
    for (i, l) in bits.iter().enumerate() {
        cnf.require(if n >> i & 1 == 1 { *l } else { l.negated() });
    }
    bits
}

#[test]
fn circuits_compute() {
    let mut cnf = Cnf::default();
    let a = fixed(&mut cnf, 11, 4);
    let b = fixed(&mut cnf, 7, 4);
    let sum = cnf.add(&a, &b);
    let difference = cnf.sub(&b, &a);
    let product = cnf.mul(&a, &b);
    let less = cnf.ult(&b, &a);
    let m = solved(cnf).expect("satisfiable");
    assert_eq!(value(&m, &sum), 2);
    assert_eq!(value(&m, &difference), 12);
    assert_eq!(value(&m, &product), 13);
    assert_eq!(value(&m, &vec![less]), 1);
}

#[test]
fn gates_compute() {
    let mut cnf = Cnf::default();
    let t = cnf.lit_true();
    let f = cnf.lit_false();
    let x = cnf.fresh_bits(1)[0];
    cnf.require(x);
    let gates = vec![
        cnf.and2(x, t),
        cnf.and2(x, f),
        cnf.or2(x, f),
        cnf.xor2(x, t),
        cnf.mux(x, t, f),
        cnf.iff(x, f),
        cnf.big_and(&[x, t, x]),
        cnf.big_or(&[f, f]),
        cnf.big_and(&[]),
        cnf.big_or(&[]),
    ];
    let m = solved(cnf).expect("satisfiable");
    let got: Vec<bool> = gates.iter().map(|l| m[l.var as usize] != l.neg).collect();
    assert_eq!(got, vec![true, false, true, false, true, false, true, false, true, false]);
}

#[test]
fn affine_forms_add_and_scale() {
    let x = Affine::param(0);
    let f = x.scale(4).unwrap().add(&Affine::constant(3)).unwrap();
    assert_eq!(f.constant, 3);
    assert_eq!(f.terms.get(&0), Some(&4));
    let back = f.sub(&x.scale(4).unwrap()).unwrap();
    assert_eq!(back.as_const(), Some(3));
    assert_eq!(f.as_const(), None);
    assert!(Affine::constant(i128::MAX).add(&Affine::constant(1)).is_none());
    assert!(x.scale(i128::MAX).unwrap().scale(2).is_none());
    assert!(back.same(&Affine::constant(3)));
}

#[test]
fn types_have_layouts() {
    assert_eq!(Type::integer(32).size_bytes(), Some(4));
    assert_eq!(Type::integer(1).size_bytes(), Some(1));
    assert_eq!(Type::ptr(Type::integer(8)).size_bytes(), Some(8));
    assert_eq!(Type::integer(64).align_bytes(), 8);
    assert!(Type::ptr(Type::Unit).is_ptr());
    assert_eq!(BitVector::new(8, 0x1ff).unsigned(), 0xff);
    assert!(BitVector::new(8, 0x100).is_zero());
}

#[test]
fn gates_fold_constants() {
    let mut cnf = Cnf::default();
    let t = cnf.lit_true();
    let f = cnf.lit_false();
    let x = cnf.fresh_bits(1)[0];
    assert_eq!((t, f, x), (Lit::pos(0), Lit::neg(0), Lit::pos(1)));
    assert_eq!(cnf.and2(x, t), x);
    assert_eq!(cnf.and2(f, x), f);
    assert_eq!(cnf.and2(x, x), x);
    assert_eq!(cnf.and2(x, x.negated()), f);
    assert_eq!(cnf.or2(x, f), x);
    assert_eq!(cnf.or2(t, x), t);
    assert_eq!(cnf.xor2(x, f), x);
    assert_eq!(cnf.xor2(t, x), x.negated());
    assert_eq!(cnf.mux(t, x, f), x);
    assert_eq!(cnf.mux(f, x, t), t);
    assert_eq!(cnf.num_vars, 2);
    assert_eq!(cnf.clauses, vec![vec![Lit::pos(0)]]);
    let y = cnf.fresh_bits(1)[0];
    let o = cnf.and2(x, y);
    assert_eq!(o, Lit::pos(3));
    assert_eq!(cnf.clauses.len(), 4);
}

#[test]
fn a_product_with_a_power_of_two_moves_bits() {
    let mut cnf = Cnf::default();
    let t = cnf.lit_true();
    let f = cnf.lit_false();
    let a = cnf.fresh_bits(2);
    let r = cnf.mul(&a, &[f, t]);
    assert_eq!(r, vec![Lit::neg(0), Lit::pos(1)]);
    assert_eq!(cnf.num_vars, 3);
    assert_eq!(cnf.clauses, vec![vec![Lit::pos(0)]]);
}

fn unknown(premises: Vec<Ex>, goal: Ex, budget: u64) -> bool {
    matches!(decide(&premises, &goal, budget), Verdict::Unknown)
}

#[test]
fn what_has_no_circuit_is_left_open() {
    let (x, y) = (var(0, 8), var(1, 8));
    let quotient = mk_bin(BvOp::UDiv, &x, &y);
    assert!(unknown(vec![], mk_rel(CmpOp::Ule, &quotient, &x), DEFAULT_BUDGET));
    let wide = mk_rel(CmpOp::Eq, &var(0, 128), &var(1, 128));
    assert!(unknown(vec![], wide.clone(), DEFAULT_BUDGET));
    assert!(holds(vec![wide.clone()], wide), "a premise is evident all the same");
}

#[test]
fn small_questions_are_decided_and_others_may_exhaust_the_budget() {
    let (p, q) = (var(0, 1), var(1, 1));
    let either: Ex = Rc::new(Expr::Or(p.clone(), q.clone()));
    assert!(holds(vec![p.clone()], either.clone()));
    assert!(fails(vec![either], p.clone()));
    let plain = decide(&vec![], &Rc::new(Expr::Or(p, q)), 0);
    assert!(matches!(plain, Verdict::Fails(_)), "unit clauses decide without a budget");
    let (x, y) = (var(0, 8), var(1, 8));
    let sum = mk_bin(BvOp::Add, &x, &y);
    assert!(unknown(vec![], mk_rel(CmpOp::Eq, &sum, &mk_bin(BvOp::Add, &y, &x)), 0));
}
