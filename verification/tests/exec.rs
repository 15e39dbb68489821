//! The symbolic executor, driven by an exact solver with a linear fallback.

use csolver::blast::Assigned;
use csolver::exec::classify::classify_scalar_ptr_defs;
use csolver::exec::drive::{discharge_exactly, Task};
use csolver::exec::flow::{Dominated, Flow, HeaderFacts, Interval, LoopInfo};
use csolver::exec::machine::{Answer, Machine, ModelId, ProofMethod, Query, QueryKind};
use csolver::exec::report::{
    discharge_full, discharge_function, discharge_with, discharge_with_fields,
    discharge_with_summaries, ExecLimits, MemDecision, Progress, SymOutcome, SymbolicReport,
};
use csolver::exec::solver::answer;
use csolver::exec::shapes::{resolve_copy, resolve_index};
use csolver::exec::start::{referenced_symbols, FieldContract};
use csolver::exec::value::{gcd, provs_same, Prov, ScalarPtrCause};
use csolver::expr::{BvOp, CmpOp as Rel, Ex, Expr, Symbol};
use csolver::ir::{
    BasicBlock, BinOp, BlockId, Callee, CastOp, CmpOp, Condition, Const, FuncId, Function, GlobalDef, Inst,
    MemKind, Operand, PtrContract, RValue, RegId, RegionKind, SafetyProperty, SizeSpec, Terminator,
    Type,
};
use csolver::sat::DEFAULT_BUDGET;
use csolver::summary::{ProvTransfer, RetSummary, Summary};
use std::collections::{BTreeMap, HashMap, HashSet};

// ---- a linear prover over unbounded integers ----

/// A linear form: coefficients of opaque terms, and a constant.
#[derive(Clone, Debug)]
struct Form {
    terms: BTreeMap<String, i128>,
    constant: i128,
}

fn form_of(e: &Ex) -> Form {
    let opaque = || Form { terms: BTreeMap::from([(format!("{e:?}"), 1)]), constant: 0 };
    match &**e {
        Expr::Const(b) => {
            let v = b.bits as i128;
            let half = 1i128 << (b.width.clamp(1, 100) - 1);
            Form { terms: BTreeMap::new(), constant: if v >= half { v - 2 * half } else { v } }
        }
        Expr::Bin { op, a, b } => {
            let (x, y) = (form_of(a), form_of(b));
            match op {
                BvOp::Add => combine(&x, &y, 1),
                BvOp::Sub => combine(&x, &y, -1),
                BvOp::Mul if y.terms.is_empty() => scale(&x, y.constant),
                BvOp::Mul if x.terms.is_empty() => scale(&y, x.constant),
                _ => opaque(),
            }
        }
        _ => opaque(),
    }
}

fn combine(x: &Form, y: &Form, c: i128) -> Form {
    let mut r = x.clone();
    for (k, v) in &y.terms {
        *r.terms.entry(k.clone()).or_insert(0) += c * v;
    }
    r.terms.retain(|_, v| *v != 0);
    r.constant += c * y.constant;
    r
}

fn scale(x: &Form, c: i128) -> Form {
    combine(&Form { terms: BTreeMap::new(), constant: 0 }, x, c)
}

/// Forms that are at most 0 where the expression is true (or false); none of an expression
/// that is not linear.
fn constraints(e: &Ex, positive: bool, out: &mut Vec<Form>) {
    let one = Form { terms: BTreeMap::new(), constant: 1 };
    match &**e {
        Expr::Not(a) => constraints(a, !positive, out),
        Expr::And(a, b) if positive => {
            constraints(a, true, out);
            constraints(b, true, out);
        }
        Expr::Rel { op, a, b } => {
            let (x, y) = (form_of(a), form_of(b));
            let le = combine(&x, &y, -1);
            let ge = combine(&y, &x, -1);
            match (op, positive) {
                (Rel::Sle, true) | (Rel::Sgt, false) => out.push(le),
                (Rel::Sge, true) | (Rel::Slt, false) => out.push(ge),
                (Rel::Slt, true) | (Rel::Sge, false) => out.push(combine(&le, &one, 1)),
                (Rel::Sgt, true) | (Rel::Sle, false) => out.push(combine(&ge, &one, 1)),
                (Rel::Eq, true) | (Rel::Ne, false) => {
                    out.push(le);
                    out.push(ge);
                }
                _ => {}
            }
        }
        _ => {}
    }
}

/// Whether constraints have no solution, by eliminating one term after another.
fn contradictory(mut cs: Vec<Form>) -> bool {
    loop {
        if cs.iter().any(|c| c.terms.is_empty() && c.constant > 0) {
            return true;
        }
        let Some(term) = cs.iter().flat_map(|c| c.terms.keys()).next().cloned() else {
            return false;
        };
        let (mut up, mut down, mut rest) = (Vec::new(), Vec::new(), Vec::new());
        for c in cs {
            match c.terms.get(&term).copied().unwrap_or(0) {
                0 => rest.push(c),
                k if k > 0 => up.push((k, c)),
                k => down.push((-k, c)),
            }
        }
        for (k, a) in &up {
            for (j, b) in &down {
                rest.push(combine(&scale(a, *j), &scale(b, *k), 1));
            }
        }
        cs = rest;
    }
}

fn linear(q: &Query) -> bool {
    let mut cs = Vec::new();
    for p in &q.premises {
        constraints(p, true, &mut cs);
    }
    let before = cs.len();
    constraints(&q.goal, false, &mut cs);
    cs.len() > before && contradictory(cs)
}

// ---- driving an exploration ----

struct Run {
    report: SymbolicReport,
    models: Vec<Vec<Assigned>>,
    truncated: bool,
}

impl Run {
    fn outcome(&self, block: BlockId, index: usize) -> Option<SymOutcome> {
        self.report.outcome(block, index)
    }

    fn mem_decision(&self, block: BlockId, index: usize, prop: SafetyProperty) -> Option<MemDecision> {
        self.report.mem_decision(block, index, prop)
    }

    /// Whether a model gives a value to a variable.
    fn names(&self, w: ModelId, name: &str) -> bool {
        self.models[w.0 as usize].iter().any(|a| a.name.render(&Vec::new()) == name)
    }
}

fn drive(late: bool, step: &dyn Fn(&Vec<Answer>) -> Progress) -> Run {
    let mut answers: Vec<Answer> = Vec::new();
    let mut models: Vec<Vec<Assigned>> = Vec::new();
    loop {
        match step(&answers) {
            Progress::Done(report) => {
                let truncated = report.truncated;
                return Run { report, models, truncated };
            }
            Progress::Ask(q) => {
                let mut a = if q.kind == QueryKind::Method && linear(&q) && !trivial(&q) {
                    Answer::Method(Some(ProofMethod::Linear))
                } else {
                    answer(&q, DEFAULT_BUDGET, late, &mut models)
                };
                if a == Answer::Method(None) && linear(&q) {
                    a = Answer::Method(Some(ProofMethod::Linear));
                }
                answers.push(a);
            }
        }
    }
}

/// Whether a question mentions no variable, so that the exact solver is quick.
fn trivial(q: &Query) -> bool {
    !format!("{q:?}").contains("Sym")
}

/// The control flow of a function, with the given loops.
fn flow_of(f: &Function, loops: Vec<LoopInfo>, headers: Vec<HeaderFacts>) -> Flow {
    fn successors(f: &Function, b: u32) -> Vec<u32> {
        match f.blocks.iter().find(|x| x.id.0 == b).map(|x| &x.term) {
            Some(Terminator::Br { target, .. }) => vec![target.0],
            Some(Terminator::CondBr { then_blk, else_blk, .. }) => vec![then_blk.0, else_blk.0],
            Some(Terminator::Switch { cases, default, .. }) => {
                cases.iter().map(|c| (c.1).0).chain([default.0]).collect()
            }
            _ => vec![],
        }
    }
    fn post(f: &Function, b: u32, seen: &mut HashSet<u32>, out: &mut Vec<u32>) {
        if seen.insert(b) {
            for s in successors(f, b) {
                post(f, s, seen, out);
            }
            out.push(b);
        }
    }
    fn reaches(f: &Function, a: u32, without: u32, goal: u32, seen: &mut HashSet<u32>) -> bool {
        if a == without || !seen.insert(a) {
            return false;
        }
        a == goal || successors(f, a).into_iter().any(|s| reaches(f, s, without, goal, seen))
    }
    let mut order = Vec::new();
    post(f, f.entry.0, &mut HashSet::new(), &mut order);
    order.reverse();
    let dominators = order
        .iter()
        .map(|&b| Dominated {
            block: b,
            by: order
                .iter()
                .copied()
                .filter(|&a| a == b || !reaches(f, f.entry.0, a, b, &mut HashSet::new()))
                .collect(),
        })
        .collect();
    Flow { order, dominators, loops, headers }
}

/// The control flow of the counting loops below: header 1 with body 1 and 2, and a counter
/// from 0 on in register 2.
fn counting_flow(f: &Function) -> Flow {
    let facts = HeaderFacts {
        header: 1,
        preds: vec![0, 2],
        intervals: vec![Interval { reg: 2, lower: Some(0), upper: None }],
        diffs: vec![],
        exits: vec![],
        walks: vec![],
    };
    flow_of(f, vec![LoopInfo { header: 1, body: vec![1, 2] }], vec![facts])
}

fn discharge(f: &Function) -> Run {
    let flow = if f.blocks.iter().any(|b| b.id.0 == 2 && matches!(b.term, Terminator::Br { target: BlockId(1), .. })) {
        counting_flow(f)
    } else {
        flow_of(f, vec![], vec![])
    };
    drive(false, &|a| discharge_function(f, &flow, a))
}

fn discharge_limited(f: &Function, limits: ExecLimits) -> Run {
    let flow = flow_of(f, vec![], vec![]);
    drive(limits.time_budget == Some(0), &|a| discharge_with(f, limits, &flow, a))
}

fn discharge_summarized(f: &Function, sums: &HashMap<u32, Summary>) -> Run {
    let flow = flow_of(f, vec![], vec![]);
    drive(false, &|a| discharge_with_summaries(f, sums, &flow, a))
}

fn guarded() -> Function {
    let i = RegId(0);
    let len = RegId(1);
    let c = RegId(2);
    let mut bb0 = BasicBlock::new(
        BlockId(0),
        Terminator::CondBr {
            cond: Operand::Reg(c),
            then_blk: BlockId(1),
            then_args: vec![],
            else_blk: BlockId(2),
            else_args: vec![],
        },
    );
    bb0.insts.push(Inst::Assign {
        dst: c,
        ty: Type::Bool,
        value: RValue::Cmp {
            op: CmpOp::Ult,
            lhs: Operand::Reg(i),
            rhs: Operand::Reg(len),
        },
    });
    let mut bb1 = BasicBlock::new(BlockId(1), Terminator::Return(None));
    bb1.insts.push(Inst::SafetyCheck {
        property: SafetyProperty::InBounds,
        condition: Condition::Cmp {
            op: CmpOp::Ult,
            lhs: Operand::Reg(i),
            rhs: Operand::Reg(len),
        },
        note: "guard".to_string(),
    });
    let bb2 = BasicBlock::new(BlockId(2), Terminator::Return(None));
    Function {
        id: FuncId(0),
        name: "guarded".to_string(),
        params: vec![(i, Type::integer(64)), (len, Type::integer(64))],
        ret_ty: Type::Unit,
        blocks: vec![bb0, bb1, bb2],
        entry: BlockId(0),
    }
}

#[test]
fn scalar_guarded_check_still_proven() {
    let r = discharge(&guarded());
    assert_eq!(r.outcome(BlockId(1), 0), Some(SymOutcome::Proven));
}

fn masked_check() -> Function {
    let x = RegId(0);
    let j = RegId(1);
    let mut bb0 = BasicBlock::new(BlockId(0), Terminator::Return(None));
    bb0.insts.push(Inst::Assign {
        dst: j,
        ty: Type::integer(64),
        value: RValue::Bin { op: BinOp::Or, lhs: Operand::Reg(x), rhs: Operand::integer(64, 8) },
    });
    bb0.insts.push(Inst::SafetyCheck {
        property: SafetyProperty::InBounds,
        condition: Condition::Cmp { op: CmpOp::Ult, lhs: Operand::Reg(j), rhs: Operand::integer(64, 8) },
        note: "x|8 < 8".to_string(),
    });
    Function {
        id: FuncId(0),
        name: "masked".to_string(),
        params: vec![(x, Type::integer(64))],
        ret_ty: Type::Unit,
        blocks: vec![bb0],
        entry: BlockId(0),
    }
}

#[test]
fn definite_violation_is_refuted_with_model() {
    let r = discharge(&masked_check());
    match r.outcome(BlockId(0), 1) {
        Some(SymOutcome::Refuted(model)) => {
            assert!(r.names(model, "arg0"), "witness names the input");
        }
        other => panic!("expected Refuted, got {other:?}"),
    }
}

fn uninit() -> Function {
    let buf = RegId(0);
    let v = RegId(1);
    let mut bb0 = BasicBlock::new(BlockId(0), Terminator::Return(None));
    bb0.insts.push(Inst::Alloc {
        dst: buf,
        region: RegionKind::Heap,
        elem: Type::integer(32),
        count: Operand::integer(64, 4),
        align: 4,
    });
    bb0.insts.push(Inst::Load { dst: v, ty: Type::integer(32), ptr: Operand::Reg(buf), align: 4 });
    Function {
        id: FuncId(0),
        name: "uninit".to_string(),
        params: vec![],
        ret_ty: Type::Unit,
        blocks: vec![bb0],
        entry: BlockId(0),
    }
}

#[test]
fn uninitialized_read_is_refuted() {
    let r = discharge(&uninit());
    let d = r
        .mem_decision(BlockId(0), 1, SafetyProperty::ValidRead)
        .expect("ValidRead obligation for the load");
    assert!(!d.proven, "an uninitialized read must not be proven");
    assert!(d.refutation.is_some(), "it is refuted with a witness: {d:?}");
}

#[test]
fn memcpy_transfers_initialization() {
    let a = RegId(0);
    let b = RegId(1);
    let v = RegId(2);
    let mut bb0 = BasicBlock::new(BlockId(0), Terminator::Return(None));
    for dst in [a, b] {
        bb0.insts.push(Inst::Alloc {
            dst,
            region: RegionKind::Stack,
            elem: Type::integer(32),
            count: Operand::integer(64, 1),
            align: 4,
        });
    }
    bb0.insts.push(Inst::Store {
        ty: Type::integer(32),
        ptr: Operand::Reg(a),
        value: Operand::integer(32, 7),
        align: 4,
    });
    bb0.insts.push(Inst::MemIntrinsic {
        kind: MemKind::Copy,
        dst: Operand::Reg(b),
        src: Some(Operand::Reg(a)),
        len: Operand::integer(64, 4),
    });
    bb0.insts.push(Inst::Load { dst: v, ty: Type::integer(32), ptr: Operand::Reg(b), align: 4 });
    let f = Function {
        id: FuncId(0),
        name: "copy_init".to_string(),
        params: vec![],
        ret_ty: Type::Unit,
        blocks: vec![bb0],
        entry: BlockId(0),
    };
    let r = discharge(&f);
    let d = r
        .mem_decision(BlockId(0), 4, SafetyProperty::ValidRead)
        .expect("ValidRead obligation for the load");
    assert!(
        d.refutation.is_none(),
        "a load of memcpy-initialized bytes must not be refuted: {d:?}"
    );
}

fn init() -> Function {
    let buf = RegId(0);
    let v = RegId(1);
    let mut bb0 = BasicBlock::new(BlockId(0), Terminator::Return(None));
    bb0.insts.push(Inst::Alloc {
        dst: buf,
        region: RegionKind::Heap,
        elem: Type::integer(32),
        count: Operand::integer(64, 4),
        align: 4,
    });
    bb0.insts.push(Inst::Store {
        ty: Type::integer(32),
        ptr: Operand::Reg(buf),
        value: Operand::integer(32, 7),
        align: 4,
    });
    bb0.insts.push(Inst::Load { dst: v, ty: Type::integer(32), ptr: Operand::Reg(buf), align: 4 });
    Function {
        id: FuncId(0),
        name: "init".to_string(),
        params: vec![],
        ret_ty: Type::Unit,
        blocks: vec![bb0],
        entry: BlockId(0),
    }
}

#[test]
fn initialized_read_is_not_flagged() {
    let r = discharge(&init());
    let d = r
        .mem_decision(BlockId(0), 2, SafetyProperty::ValidRead)
        .expect("ValidRead obligation for the load");
    assert!(d.proven, "a read after write is proven: {d:?}");
    assert!(d.refutation.is_none(), "no refutation for an initialized read: {d:?}");
}

fn bare_check() -> Function {
    let x = RegId(0);
    let mut bb0 = BasicBlock::new(BlockId(0), Terminator::Return(None));
    bb0.insts.push(Inst::SafetyCheck {
        property: SafetyProperty::InBounds,
        condition: Condition::Cmp { op: CmpOp::Ult, lhs: Operand::Reg(x), rhs: Operand::integer(64, 8) },
        note: "x < 8".to_string(),
    });
    Function {
        id: FuncId(0),
        name: "bare".to_string(),
        params: vec![(x, Type::integer(64))],
        ret_ty: Type::Unit,
        blocks: vec![bb0],
        entry: BlockId(0),
    }
}

#[test]
fn satisfiable_but_invalid_check_stays_unknown() {
    let r = discharge(&bare_check());
    assert_eq!(r.outcome(BlockId(0), 0), Some(SymOutcome::Unknown));
}

fn unguarded_store() -> Function {
    let i = RegId(0);
    let buf = RegId(1);
    let p = RegId(2);
    let mut bb0 = BasicBlock::new(BlockId(0), Terminator::Return(None));
    bb0.insts.push(Inst::Alloc {
        dst: buf,
        region: RegionKind::Heap,
        elem: Type::integer(32),
        count: Operand::integer(64, 8),
        align: 4,
    });
    bb0.insts.push(Inst::PtrOffset {
        dst: p,
        base: Operand::Reg(buf),
        index: Operand::Reg(i),
        elem: Type::integer(32),
    });
    bb0.insts.push(Inst::Store {
        ty: Type::integer(32),
        ptr: Operand::Reg(p),
        value: Operand::integer(32, 0),
        align: 4,
    });
    Function {
        id: FuncId(0),
        name: "unguarded".to_string(),
        params: vec![(i, Type::integer(64))],
        ret_ty: Type::Unit,
        blocks: vec![bb0],
        entry: BlockId(0),
    }
}

#[test]
fn concrete_size_oob_memory_access_is_refuted() {
    let r = discharge(&unguarded_store());
    let d = r
        .mem_decision(BlockId(0), 2, SafetyProperty::InBounds)
        .expect("in-bounds obligation exists");
    assert!(!d.proven, "an unguarded OOB write is not provable");
    let model = d.refutation.expect("refuted with a counterexample");
    assert!(r.names(model, "arg0"), "witness names the index");
}

fn store_buf() -> Function {
    let i = RegId(0);
    let n = RegId(1);
    let buf = RegId(2);
    let c0 = RegId(3);
    let c1 = RegId(4);
    let p = RegId(5);

    let mut bb0 = BasicBlock::new(
        BlockId(0),
        Terminator::CondBr {
            cond: Operand::Reg(c0),
            then_blk: BlockId(1),
            then_args: vec![],
            else_blk: BlockId(3),
            else_args: vec![],
        },
    );
    bb0.insts.push(Inst::Alloc {
        dst: buf,
        region: RegionKind::Heap,
        elem: Type::integer(32),
        count: Operand::Reg(n),
        align: 4,
    });
    bb0.insts.push(Inst::Assign {
        dst: c0,
        ty: Type::Bool,
        value: RValue::Cmp {
            op: CmpOp::Sle,
            lhs: Operand::integer(64, 0),
            rhs: Operand::Reg(i),
        },
    });

    let mut bb1 = BasicBlock::new(
        BlockId(1),
        Terminator::CondBr {
            cond: Operand::Reg(c1),
            then_blk: BlockId(2),
            then_args: vec![],
            else_blk: BlockId(3),
            else_args: vec![],
        },
    );
    bb1.insts.push(Inst::Assign {
        dst: c1,
        ty: Type::Bool,
        value: RValue::Cmp {
            op: CmpOp::Slt,
            lhs: Operand::Reg(i),
            rhs: Operand::Reg(n),
        },
    });

    let mut bb2 = BasicBlock::new(BlockId(2), Terminator::Return(None));
    bb2.insts.push(Inst::PtrOffset {
        dst: p,
        base: Operand::Reg(buf),
        index: Operand::Reg(i),
        elem: Type::integer(32),
    });
    bb2.insts.push(Inst::Store {
        ty: Type::integer(32),
        ptr: Operand::Reg(p),
        value: Operand::integer(32, 0),
        align: 4,
    });

    let bb3 = BasicBlock::new(BlockId(3), Terminator::Return(None));

    Function {
        id: FuncId(0),
        name: "store_buf".to_string(),
        params: vec![(i, Type::integer(64)), (n, Type::integer(64))],
        ret_ty: Type::Unit,
        blocks: vec![bb0, bb1, bb2, bb3],
        entry: BlockId(0),
    }
}

#[test]
fn guarded_store_proves_all_memory_checks() {
    let f = store_buf();
    let r = discharge(&f);
    assert!(!r.truncated);
    for prop in [
        SafetyProperty::NoNullDeref,
        SafetyProperty::NoUseAfterFree,
        SafetyProperty::InBounds,
        SafetyProperty::Alignment,
        SafetyProperty::ValidWrite,
    ] {
        let d = r.mem_decision(BlockId(2), 1, prop).expect("decided");
        assert!(d.proven, "{prop:?} should be proven, got residual: {}", d.residual);
    }
    let arith = r
        .mem_decision(BlockId(2), 0, SafetyProperty::ValidPointerArith)
        .expect("decided");
    assert!(arith.proven, "pointer arithmetic: {}", arith.residual);
}

#[test]
fn truncated_exploration_reports_no_memory_decision() {
    let f = store_buf();
    let r = discharge_limited(&f, ExecLimits { max_visits: 1, ..Default::default() });
    assert!(r.truncated, "a 1-visit budget must truncate a 4-block function");
    for prop in [
        SafetyProperty::NoNullDeref,
        SafetyProperty::NoUseAfterFree,
        SafetyProperty::InBounds,
        SafetyProperty::Alignment,
        SafetyProperty::ValidWrite,
    ] {
        assert!(
            r.mem_decision(BlockId(2), 1, prop).is_none(),
            "{prop:?} must be undecided (Open) under truncation, never reported safe"
        );
    }
}

#[test]
fn time_budget_bail_reports_no_memory_decision() {
    let f = store_buf();
    let r = discharge_limited(
        &f,
        ExecLimits {
            max_visits: usize::MAX,
            time_budget: Some(0),
            ..Default::default()
        },
    );
    assert!(r.truncated, "a zero time budget must truncate");
    for prop in [
        SafetyProperty::NoNullDeref,
        SafetyProperty::InBounds,
        SafetyProperty::Alignment,
        SafetyProperty::ValidWrite,
    ] {
        assert!(
            r.mem_decision(BlockId(2), 1, prop).is_none(),
            "{prop:?} must be undecided (Open) under the time bail, never reported safe"
        );
    }
}

fn use_after_free() -> Function {
    let buf = RegId(0);
    let mut bb0 = BasicBlock::new(BlockId(0), Terminator::Return(None));
    bb0.insts.push(Inst::Alloc {
        dst: buf,
        region: RegionKind::Heap,
        elem: Type::integer(8),
        count: Operand::integer(64, 8),
        align: 1,
    });
    bb0.insts.push(Inst::Dealloc {
        region: RegionKind::Heap,
        ptr: Operand::Reg(buf),
    });
    bb0.insts.push(Inst::Store {
        ty: Type::integer(8),
        ptr: Operand::Reg(buf),
        value: Operand::integer(8, 0),
        align: 1,
    });
    Function {
        id: FuncId(0),
        name: "uaf".to_string(),
        params: vec![],
        ret_ty: Type::Unit,
        blocks: vec![bb0],
        entry: BlockId(0),
    }
}

#[test]
fn exec_use_after_free_is_not_proven() {
    let f = use_after_free();
    let r = discharge(&f);
    let free = r.mem_decision(BlockId(0), 1, SafetyProperty::NoDoubleFree).expect("free");
    assert!(free.proven);
    let uaf = r
        .mem_decision(BlockId(0), 2, SafetyProperty::NoUseAfterFree)
        .expect("uaf");
    assert!(!uaf.proven, "use-after-free must stay unproven");
    assert!(uaf.refutation.is_some(), "definite use-after-free is refuted");
}

fn double_free() -> Function {
    let buf = RegId(0);
    let mut bb0 = BasicBlock::new(BlockId(0), Terminator::Return(None));
    bb0.insts.push(Inst::Alloc {
        dst: buf,
        region: RegionKind::Heap,
        elem: Type::integer(8),
        count: Operand::integer(64, 8),
        align: 1,
    });
    bb0.insts.push(Inst::Dealloc { region: RegionKind::Heap, ptr: Operand::Reg(buf) });
    bb0.insts.push(Inst::Dealloc { region: RegionKind::Heap, ptr: Operand::Reg(buf) });
    Function {
        id: FuncId(0),
        name: "double_free".to_string(),
        params: vec![],
        ret_ty: Type::Unit,
        blocks: vec![bb0],
        entry: BlockId(0),
    }
}

fn branch_fixture(c_bound: u128, name: &'static str) -> Function {
    let i = RegId(0);
    let c = RegId(1);
    let d = RegId(2);
    let mut bb0 = BasicBlock::new(
        BlockId(0),
        Terminator::CondBr {
            cond: Operand::Reg(c),
            then_blk: BlockId(1),
            then_args: vec![],
            else_blk: BlockId(3),
            else_args: vec![],
        },
    );
    bb0.insts.push(Inst::Assign {
        dst: c,
        ty: Type::Bool,
        value: RValue::Cmp { op: CmpOp::Ult, lhs: Operand::Reg(i), rhs: Operand::integer(64, c_bound) },
    });
    let mut bb1 = BasicBlock::new(
        BlockId(1),
        Terminator::CondBr {
            cond: Operand::Reg(d),
            then_blk: BlockId(2),
            then_args: vec![],
            else_blk: BlockId(3),
            else_args: vec![],
        },
    );
    bb1.insts.push(Inst::Assign {
        dst: d,
        ty: Type::Bool,
        value: RValue::Cmp { op: CmpOp::Uge, lhs: Operand::Reg(i), rhs: Operand::integer(64, 1) },
    });
    let mut bb2 = BasicBlock::new(BlockId(2), Terminator::Return(None));
    bb2.insts.push(Inst::SafetyCheck {
        property: SafetyProperty::InBounds,
        condition: Condition::Cmp { op: CmpOp::Ult, lhs: Operand::Reg(i), rhs: Operand::integer(64, 8) },
        note: "inner check".to_string(),
    });
    let bb3 = BasicBlock::new(BlockId(3), Terminator::Return(None));
    Function {
        id: FuncId(0),
        name: name.to_string(),
        params: vec![(i, Type::integer(64))],
        ret_ty: Type::Unit,
        blocks: vec![bb0, bb1, bb2, bb3],
        entry: BlockId(0),
    }
}

#[test]
fn exec_infeasible_branch_is_pruned() {
    let r = discharge(&branch_fixture(1, "dead"));
    assert!(r.outcome(BlockId(2), 0).is_none(), "the dead inner check is pruned");
}

#[test]
fn exec_feasible_branch_is_explored() {
    let r = discharge(&branch_fixture(8, "live"));
    assert!(r.outcome(BlockId(2), 0).is_some(), "the reachable inner check is explored");
}

fn diamond_phi() -> Function {
    let sel = RegId(0);
    let c = RegId(1);
    let p = RegId(2);
    let mut bb0 = BasicBlock::new(
        BlockId(0),
        Terminator::CondBr {
            cond: Operand::Reg(c),
            then_blk: BlockId(1),
            then_args: vec![],
            else_blk: BlockId(2),
            else_args: vec![],
        },
    );
    bb0.insts.push(Inst::Assign {
        dst: c,
        ty: Type::Bool,
        value: RValue::Cmp { op: CmpOp::Ult, lhs: Operand::Reg(sel), rhs: Operand::integer(64, 1) },
    });
    let bb1 = BasicBlock::new(BlockId(1), Terminator::Br { target: BlockId(3), args: vec![Operand::integer(64, 3)] });
    let bb2 = BasicBlock::new(BlockId(2), Terminator::Br { target: BlockId(3), args: vec![Operand::integer(64, 5)] });
    let mut bb3 = BasicBlock::new(BlockId(3), Terminator::Return(None));
    bb3.params = vec![(p, Type::integer(64))];
    bb3.insts.push(Inst::SafetyCheck {
        property: SafetyProperty::InBounds,
        condition: Condition::Cmp { op: CmpOp::Ult, lhs: Operand::Reg(p), rhs: Operand::integer(64, 8) },
        note: "merged p < 8".to_string(),
    });
    Function {
        id: FuncId(0),
        name: "diamond_phi".to_string(),
        params: vec![(sel, Type::integer(64))],
        ret_ty: Type::Unit,
        blocks: vec![bb0, bb1, bb2, bb3],
        entry: BlockId(0),
    }
}

#[test]
fn exec_merged_phi_value_is_proven_at_the_join() {
    let r = discharge(&diamond_phi());
    assert_eq!(r.outcome(BlockId(3), 0), Some(SymOutcome::Proven));
}

fn wide_diamonds(n: usize) -> Function {
    let sel = RegId(0);
    let final_id = BlockId((4 * n) as u32);
    let mut blocks = Vec::new();
    for i in 0..n {
        let h = BlockId((4 * i) as u32);
        let t = BlockId((4 * i + 1) as u32);
        let e = BlockId((4 * i + 2) as u32);
        let m = BlockId((4 * i + 3) as u32);
        let next = if i + 1 < n { BlockId((4 * (i + 1)) as u32) } else { final_id };
        let tmask = RegId((1 + 2 * i) as u32);
        let creg = RegId((2 + 2 * i) as u32);
        let mut hb = BasicBlock::new(
            h,
            Terminator::CondBr { cond: Operand::Reg(creg), then_blk: t, then_args: vec![], else_blk: e, else_args: vec![] },
        );
        hb.insts.push(Inst::Assign {
            dst: tmask,
            ty: Type::integer(64),
            value: RValue::Bin { op: BinOp::And, lhs: Operand::Reg(sel), rhs: Operand::integer(64, 1u128 << i) },
        });
        hb.insts.push(Inst::Assign {
            dst: creg,
            ty: Type::Bool,
            value: RValue::Cmp { op: CmpOp::Ne, lhs: Operand::Reg(tmask), rhs: Operand::integer(64, 0) },
        });
        blocks.push(hb);
        blocks.push(BasicBlock::new(t, Terminator::Br { target: m, args: vec![] }));
        blocks.push(BasicBlock::new(e, Terminator::Br { target: m, args: vec![] }));
        blocks.push(BasicBlock::new(m, Terminator::Br { target: next, args: vec![] }));
    }
    let mut fb = BasicBlock::new(final_id, Terminator::Return(None));
    fb.insts.push(Inst::SafetyCheck {
        property: SafetyProperty::InBounds,
        condition: Condition::Cmp { op: CmpOp::Ult, lhs: Operand::integer(64, 3), rhs: Operand::integer(64, 8) },
        note: "final".to_string(),
    });
    blocks.push(fb);
    Function {
        id: FuncId(0),
        name: "wide".to_string(),
        params: vec![(sel, Type::integer(64))],
        ret_ty: Type::Unit,
        blocks,
        entry: BlockId(0),
    }
}

#[test]
fn exec_wide_cfg_is_processed_once_per_block_not_per_path() {
    let f = wide_diamonds(8);
    let r = discharge_limited(&f, ExecLimits { max_visits: 40, ..Default::default() });
    assert!(!r.truncated, "visits are linear in blocks");
    assert_eq!(r.outcome(BlockId(32), 0), Some(SymOutcome::Proven), "final check verified");
}

#[test]
fn exec_double_free_is_refuted() {
    let r = discharge(&double_free());
    let first = r.mem_decision(BlockId(0), 1, SafetyProperty::NoDoubleFree).expect("first free");
    assert!(first.proven);
    let second = r.mem_decision(BlockId(0), 2, SafetyProperty::NoDoubleFree).expect("second free");
    assert!(!second.proven);
    assert!(second.refutation.is_some(), "double free is refuted with a witness");
}

fn call_then_load(kind: RegionKind) -> Function {
    let buf = RegId(0);
    let v = RegId(1);
    let mut bb0 = BasicBlock::new(BlockId(0), Terminator::Return(None));
    bb0.insts.push(Inst::Alloc {
        dst: buf,
        region: kind,
        elem: Type::integer(32),
        count: Operand::integer(64, 1),
        align: 4,
    });
    bb0.insts.push(Inst::Store {
        ty: Type::integer(32),
        ptr: Operand::Reg(buf),
        value: Operand::integer(32, 7),
        align: 4,
    });
    bb0.insts.push(Inst::Call {
        dst: None,
        callee: Callee::Symbol("unknown".to_string()),
        args: vec![],
        ret_ty: Type::Unit,
        ret_ref: None,
    });
    bb0.insts.push(Inst::Load { dst: v, ty: Type::integer(32), ptr: Operand::Reg(buf), align: 4 });
    Function {
        id: FuncId(0),
        name: "call_then_load".to_string(),
        params: vec![],
        ret_ty: Type::Unit,
        blocks: vec![bb0],
        entry: BlockId(0),
    }
}

#[test]
fn stack_liveness_survives_an_opaque_call() {
    let r = discharge(&call_then_load(RegionKind::Stack));
    let d = r
        .mem_decision(BlockId(0), 3, SafetyProperty::NoUseAfterFree)
        .expect("UAF obligation for the load");
    assert!(d.proven, "a stack slot cannot be freed by a callee: {d:?}");
}

#[test]
fn heap_liveness_is_still_havocked_by_an_opaque_call() {
    let r = discharge(&call_then_load(RegionKind::Heap));
    let d = r
        .mem_decision(BlockId(0), 3, SafetyProperty::NoUseAfterFree)
        .expect("UAF obligation for the load");
    assert!(!d.proven, "owned heap liveness must not survive an opaque call: {d:?}");
}

#[test]
fn freeing_a_stack_region_is_refuted() {
    let buf = RegId(0);
    let mut bb0 = BasicBlock::new(BlockId(0), Terminator::Return(None));
    bb0.insts.push(Inst::Alloc {
        dst: buf,
        region: RegionKind::Stack,
        elem: Type::integer(8),
        count: Operand::integer(64, 8),
        align: 1,
    });
    bb0.insts.push(Inst::Dealloc { region: RegionKind::Heap, ptr: Operand::Reg(buf) });
    let f = Function {
        id: FuncId(0),
        name: "free_stack".to_string(),
        params: vec![],
        ret_ty: Type::Unit,
        blocks: vec![bb0],
        entry: BlockId(0),
    };
    let r = discharge(&f);
    let d = r.mem_decision(BlockId(0), 1, SafetyProperty::NoDoubleFree).expect("free");
    assert!(!d.proven, "freeing a stack region must never be proven");
    assert!(d.refutation.is_some(), "freeing a stack region is definite UB: {d:?}");
}

fn loop_store() -> Function {
    let n = RegId(0);
    let buf = RegId(1);
    let i = RegId(2);
    let c = RegId(3);
    let j = RegId(4);
    let p = RegId(5);
    let nj = RegId(6);

    let mut bb0 = BasicBlock::new(
        BlockId(0),
        Terminator::Br {
            target: BlockId(1),
            args: vec![Operand::integer(64, 0)],
        },
    );
    bb0.insts.push(Inst::Alloc {
        dst: buf,
        region: RegionKind::Heap,
        elem: Type::integer(32),
        count: Operand::Reg(n),
        align: 4,
    });

    let mut bb1 = BasicBlock::new(
        BlockId(1),
        Terminator::CondBr {
            cond: Operand::Reg(c),
            then_blk: BlockId(2),
            then_args: vec![Operand::Reg(i)],
            else_blk: BlockId(3),
            else_args: vec![],
        },
    );
    bb1.params = vec![(i, Type::integer(64))];
    bb1.insts.push(Inst::Assign {
        dst: c,
        ty: Type::Bool,
        value: RValue::Cmp {
            op: CmpOp::Slt,
            lhs: Operand::Reg(i),
            rhs: Operand::Reg(n),
        },
    });

    let mut bb2 = BasicBlock::new(
        BlockId(2),
        Terminator::Br {
            target: BlockId(1),
            args: vec![Operand::Reg(nj)],
        },
    );
    bb2.params = vec![(j, Type::integer(64))];
    bb2.insts.push(Inst::PtrOffset {
        dst: p,
        base: Operand::Reg(buf),
        index: Operand::Reg(j),
        elem: Type::integer(32),
    });
    bb2.insts.push(Inst::Store {
        ty: Type::integer(32),
        ptr: Operand::Reg(p),
        value: Operand::integer(32, 0),
        align: 4,
    });
    bb2.insts.push(Inst::Assign {
        dst: nj,
        ty: Type::integer(64),
        value: RValue::Bin {
            op: BinOp::Add,
            lhs: Operand::Reg(j),
            rhs: Operand::integer(64, 1),
        },
    });

    let bb3 = BasicBlock::new(BlockId(3), Terminator::Return(None));

    Function {
        id: FuncId(0),
        name: "loop_store".to_string(),
        params: vec![(n, Type::integer(64))],
        ret_ty: Type::Unit,
        blocks: vec![bb0, bb1, bb2, bb3],
        entry: BlockId(0),
    }
}

fn indirect_store() -> Function {
    let buf = RegId(0);
    let slot = RegId(1);
    let p = RegId(2);
    let mut bb0 = BasicBlock::new(BlockId(0), Terminator::Return(None));
    bb0.insts.push(Inst::Alloc {
        dst: buf,
        region: RegionKind::Heap,
        elem: Type::integer(8),
        count: Operand::integer(64, 16),
        align: 1,
    });
    bb0.insts.push(Inst::Alloc {
        dst: slot,
        region: RegionKind::Heap,
        elem: Type::ptr(Type::integer(8)),
        count: Operand::integer(64, 1),
        align: 8,
    });
    bb0.insts.push(Inst::Store {
        ty: Type::ptr(Type::integer(8)),
        ptr: Operand::Reg(slot),
        value: Operand::Reg(buf),
        align: 8,
    });
    bb0.insts.push(Inst::Load {
        dst: p,
        ty: Type::ptr(Type::integer(8)),
        ptr: Operand::Reg(slot),
        align: 8,
    });
    bb0.insts.push(Inst::Store {
        ty: Type::integer(8),
        ptr: Operand::Reg(p),
        value: Operand::integer(8, 0),
        align: 1,
    });
    Function {
        id: FuncId(0),
        name: "indirect_store".to_string(),
        params: vec![],
        ret_ty: Type::Unit,
        blocks: vec![bb0],
        entry: BlockId(0),
    }
}

#[test]
fn pointer_survives_store_load_roundtrip() {
    let f = indirect_store();
    let r = discharge(&f);
    for prop in [
        SafetyProperty::NoNullDeref,
        SafetyProperty::NoUseAfterFree,
        SafetyProperty::InBounds,
        SafetyProperty::ValidWrite,
    ] {
        let d = r.mem_decision(BlockId(0), 4, prop).expect("decided");
        assert!(d.proven, "{prop:?} should be proven via heap/alias: {}", d.residual);
    }
}

#[test]
fn free_inside_loop_is_not_proven() {
    let n = RegId(0);
    let buf = RegId(1);
    let i = RegId(2);
    let c = RegId(3);
    let j = RegId(4);
    let nj = RegId(5);

    let mut bb0 = BasicBlock::new(
        BlockId(0),
        Terminator::Br { target: BlockId(1), args: vec![Operand::integer(64, 0)] },
    );
    bb0.insts.push(Inst::Alloc {
        dst: buf,
        region: RegionKind::Heap,
        elem: Type::integer(8),
        count: Operand::integer(64, 8),
        align: 1,
    });
    let mut bb1 = BasicBlock::new(
        BlockId(1),
        Terminator::CondBr {
            cond: Operand::Reg(c),
            then_blk: BlockId(2),
            then_args: vec![Operand::Reg(i)],
            else_blk: BlockId(3),
            else_args: vec![],
        },
    );
    bb1.params = vec![(i, Type::integer(64))];
    bb1.insts.push(Inst::Assign {
        dst: c,
        ty: Type::Bool,
        value: RValue::Cmp { op: CmpOp::Slt, lhs: Operand::Reg(i), rhs: Operand::Reg(n) },
    });
    let mut bb2 = BasicBlock::new(
        BlockId(2),
        Terminator::Br { target: BlockId(1), args: vec![Operand::Reg(nj)] },
    );
    bb2.params = vec![(j, Type::integer(64))];
    bb2.insts.push(Inst::Store {
        ty: Type::integer(8),
        ptr: Operand::Reg(buf),
        value: Operand::integer(8, 0),
        align: 1,
    });
    bb2.insts.push(Inst::Dealloc { region: RegionKind::Heap, ptr: Operand::Reg(buf) });
    bb2.insts.push(Inst::Assign {
        dst: nj,
        ty: Type::integer(64),
        value: RValue::Bin { op: BinOp::Add, lhs: Operand::Reg(j), rhs: Operand::integer(64, 1) },
    });
    let bb3 = BasicBlock::new(BlockId(3), Terminator::Return(None));
    let f = Function {
        id: FuncId(0),
        name: "loop_free".to_string(),
        params: vec![(n, Type::integer(64))],
        ret_ty: Type::Unit,
        blocks: vec![bb0, bb1, bb2, bb3],
        entry: BlockId(0),
    };
    let r = discharge(&f);
    let uaf = r.mem_decision(BlockId(2), 0, SafetyProperty::NoUseAfterFree).expect("uaf");
    assert!(!uaf.proven, "store in a freeing loop must not prove temporal safety");
    let df = r.mem_decision(BlockId(2), 1, SafetyProperty::NoDoubleFree).expect("df");
    assert!(!df.proven, "free in a loop must not prove no-double-free");
}

#[test]
fn use_after_freeing_call_is_not_proven() {
        let buf = RegId(0);
    let mut bb0 = BasicBlock::new(BlockId(0), Terminator::Return(None));
    bb0.insts.push(Inst::Alloc {
        dst: buf,
        region: RegionKind::Heap,
        elem: Type::integer(8),
        count: Operand::integer(64, 8),
        align: 1,
    });
    bb0.insts.push(Inst::Call {
        dst: None,
        callee: Callee::Direct(FuncId(9)),
        args: vec![Operand::Reg(buf)],
        ret_ty: Type::Unit,
        ret_ref: None,
    });
    bb0.insts.push(Inst::Store {
        ty: Type::integer(8),
        ptr: Operand::Reg(buf),
        value: Operand::integer(8, 0),
        align: 1,
    });
    let f = Function {
        id: FuncId(0),
        name: "caller".to_string(),
        params: vec![],
        ret_ty: Type::Unit,
        blocks: vec![bb0],
        entry: BlockId(0),
    };
    let mut summaries = HashMap::new();
    summaries.insert(
        9u32,
        Summary {
            ret: RetSummary::Unknown,
            writes: false,
            frees: true,
            frees_arg: None,
            prov: ProvTransfer::default(),
            refcount_effect: Vec::new(),
        },
    );
    let r = discharge_summarized(&f, &summaries);
    let uaf = r.mem_decision(BlockId(0), 2, SafetyProperty::NoUseAfterFree).expect("uaf");
    assert!(!uaf.proven, "use after a freeing call must not prove temporal safety");
}

#[test]
fn loop_body_access_is_proven_via_invariant() {
    let f = loop_store();
    let r = discharge(&f);
    assert!(!r.truncated, "loop exploration must terminate");
    let inb = r
        .mem_decision(BlockId(2), 1, SafetyProperty::InBounds)
        .expect("in-bounds decided");
    assert!(inb.proven, "loop body access should be in bounds: {}", inb.residual);
    let arith = r
        .mem_decision(BlockId(2), 0, SafetyProperty::ValidPointerArith)
        .expect("ptr arith decided");
    assert!(arith.proven, "pointer arithmetic: {}", arith.residual);
}

#[test]
fn part_g_use_after_free_is_not_proven() {
    let f = use_after_free();
    let r = discharge(&f);
    let free = r.mem_decision(BlockId(0), 1, SafetyProperty::NoDoubleFree).expect("free");
    assert!(free.proven);
    let uaf = r
        .mem_decision(BlockId(0), 2, SafetyProperty::NoUseAfterFree)
        .expect("uaf");
    assert!(!uaf.proven, "use-after-free must stay unproven");
    assert!(uaf.refutation.is_some(), "definite use-after-free is refuted");
}

#[test]
fn part_g_infeasible_branch_is_pruned() {
    let r = discharge(&branch_fixture(1, "dead"));
    assert!(r.outcome(BlockId(2), 0).is_none(), "the dead inner check is pruned");
}

#[test]
fn part_g_feasible_branch_is_explored() {
    let r = discharge(&branch_fixture(8, "live"));
    assert!(r.outcome(BlockId(2), 0).is_some(), "the reachable inner check is explored");
}

#[test]
fn part_g_merged_phi_value_is_proven_at_the_join() {
    let r = discharge(&diamond_phi());
    assert_eq!(r.outcome(BlockId(3), 0), Some(SymOutcome::Proven));
}

#[test]
fn part_g_wide_cfg_is_processed_once_per_block_not_per_path() {
    let f = wide_diamonds(8);
    let r = discharge_limited(&f, ExecLimits { max_visits: 40, ..Default::default() });
    assert!(!r.truncated, "visits are linear in blocks");
    assert_eq!(r.outcome(BlockId(32), 0), Some(SymOutcome::Proven), "final check verified");
}

#[test]
fn part_g_double_free_is_refuted() {
    let r = discharge(&double_free());
    let first = r.mem_decision(BlockId(0), 1, SafetyProperty::NoDoubleFree).expect("first free");
    assert!(first.proven);
    let second = r.mem_decision(BlockId(0), 2, SafetyProperty::NoDoubleFree).expect("second free");
    assert!(!second.proven);
    assert!(second.refutation.is_some(), "double free is refuted with a witness");
}


// ---- contracts, fields, globals and choices ----

fn access(name: &str, params: Vec<(RegId, Type)>, insts: Vec<Inst>) -> Function {
    let mut bb0 = BasicBlock::new(BlockId(0), Terminator::Return(None));
    bb0.insts = insts;
    Function {
        id: FuncId(0),
        name: name.to_string(),
        params,
        ret_ty: Type::Unit,
        blocks: vec![bb0],
        entry: BlockId(0),
    }
}

fn load(dst: RegId, bits: u32, ptr: Operand) -> Inst {
    Inst::Load { dst, ty: Type::integer(bits), ptr, align: 1 }
}

fn offset(dst: RegId, base: Operand, index: u128) -> Inst {
    Inst::PtrOffset { dst, base, index: Operand::integer(64, index), elem: Type::integer(8) }
}

fn bytes(size: u64) -> PtrContract {
    PtrContract {
        assumption: None,
        refutable: true,
        size: SizeSpec::Bytes(size),
        align: 8,
        readable: true,
        writable: false,
        sentinel: None,
    }
}

fn discharge_contracts(
    f: &Function,
    contracts: Vec<Option<PtrContract>>,
    globals: Vec<(String, GlobalDef)>,
) -> Run {
    let flow = flow_of(f, vec![], vec![]);
    drive(false, &|a| discharge_full(f, &HashMap::new(), &contracts, &globals, &flow, a))
}

#[test]
fn a_contract_bounds_a_parameter() {
    let p = RegId(0);
    let f = access(
        "head",
        vec![(p, Type::ptr(Type::integer(8)))],
        vec![
            offset(RegId(1), Operand::Reg(p), 15),
            load(RegId(2), 8, Operand::Reg(RegId(1))),
            offset(RegId(3), Operand::Reg(p), 16),
            load(RegId(4), 8, Operand::Reg(RegId(3))),
            Inst::Store {
                ty: Type::integer(8),
                ptr: Operand::Reg(p),
                value: Operand::integer(8, 0),
                align: 1,
            },
        ],
    );
    let r = discharge_contracts(&f, vec![Some(bytes(16))], vec![]);
    let near = r.mem_decision(BlockId(0), 1, SafetyProperty::InBounds).expect("decided");
    assert!(near.proven && near.residual.is_empty(), "{near:?}");
    let far = r.mem_decision(BlockId(0), 3, SafetyProperty::InBounds).expect("decided");
    assert!(!far.proven, "{far:?}");
    let write = r.mem_decision(BlockId(0), 4, SafetyProperty::ValidWrite).expect("decided");
    assert!(!write.proven, "a read-only region is not written: {write:?}");
    assert!(!r.report.assumptions.is_empty());
    let free = discharge(&f);
    let open = free.mem_decision(BlockId(0), 1, SafetyProperty::InBounds).expect("decided");
    assert!(!open.proven, "without a contract nothing is known: {open:?}");
}

#[test]
fn a_global_has_its_size() {
    let g = || Operand::Const(Const::Symbol("table".to_string()));
    let f = access(
        "read",
        vec![],
        vec![
            offset(RegId(1), g(), 7),
            load(RegId(2), 8, Operand::Reg(RegId(1))),
            offset(RegId(3), g(), 8),
            load(RegId(4), 8, Operand::Reg(RegId(3))),
        ],
    );
    let def = GlobalDef { size: 8, align: 8, writable: false };
    let r = discharge_contracts(&f, vec![], vec![("table".to_string(), def)]);
    assert!(r.mem_decision(BlockId(0), 1, SafetyProperty::InBounds).expect("decided").proven);
    assert!(!r.mem_decision(BlockId(0), 3, SafetyProperty::InBounds).expect("decided").proven);
}

#[test]
fn a_field_holds_a_valid_pointer() {
    let p = RegId(0);
    let f = access(
        "follow",
        vec![(p, Type::ptr(Type::integer(8)))],
        vec![
            offset(RegId(1), Operand::Reg(p), 8),
            Inst::Load {
                dst: RegId(2),
                ty: Type::ptr(Type::integer(8)),
                ptr: Operand::Reg(RegId(1)),
                align: 8,
            },
            offset(RegId(3), Operand::Reg(RegId(2)), 3),
            load(RegId(4), 8, Operand::Reg(RegId(3))),
        ],
    );
    let contracts = vec![Some(bytes(16))];
    let fields = vec![vec![FieldContract { offset: 8, pointee: bytes(4) }]];
    let flow = flow_of(&f, vec![], vec![]);
    let with = drive(false, &|a| {
        discharge_with_fields(
            &f,
            &HashMap::new(),
            &contracts,
            &fields,
            &vec![],
            false,
            true,
            &flow,
            a,
        )
    });
    assert!(with.mem_decision(BlockId(0), 3, SafetyProperty::InBounds).expect("decided").proven);
    let without = discharge_contracts(&f, contracts.clone(), vec![]);
    assert!(!without.mem_decision(BlockId(0), 3, SafetyProperty::InBounds).expect("decided").proven);
}

fn chosen(index: u128) -> Function {
    let (c, k) = (RegId(0), RegId(1));
    let alloc = |dst: RegId, count: u128| Inst::Alloc {
        dst,
        region: RegionKind::Heap,
        elem: Type::integer(8),
        count: Operand::integer(64, count),
        align: 8,
    };
    access(
        "choose",
        vec![(c, Type::integer(64))],
        vec![
            Inst::Assign {
                dst: k,
                ty: Type::Bool,
                value: RValue::Cmp {
                    op: CmpOp::Ult,
                    lhs: Operand::Reg(c),
                    rhs: Operand::integer(64, 5),
                },
            },
            alloc(RegId(2), 4),
            alloc(RegId(3), 8),
            Inst::Assign {
                dst: RegId(4),
                ty: Type::ptr(Type::integer(8)),
                value: RValue::Select {
                    cond: Operand::Reg(k),
                    on_true: Operand::Reg(RegId(2)),
                    on_false: Operand::Reg(RegId(3)),
                },
            },
            offset(RegId(5), Operand::Reg(RegId(4)), index),
            Inst::Store {
                ty: Type::integer(8),
                ptr: Operand::Reg(RegId(4)),
                value: Operand::integer(8, 1),
                align: 1,
            },
        ],
    )
}

#[test]
fn a_choice_of_pointers_is_checked_for_each() {
    let f = chosen(0);
    let r = discharge(&f);
    let d = r.mem_decision(BlockId(0), 5, SafetyProperty::InBounds).expect("decided");
    assert!(d.proven, "{d:?}");
}

#[test]
fn bug_finding_reports_genuine_inputs() {
    let f = unguarded_store();
    let flow = flow_of(&f, vec![], vec![]);
    let found = drive(false, &|a| {
        discharge_with(
            &f,
            ExecLimits { bug_finding: true, ..ExecLimits::default() },
            &flow,
            a,
        )
    });
    let d = found.mem_decision(BlockId(0), 2, SafetyProperty::InBounds).expect("decided");
    assert!(d.refutation.is_some(), "{d:?}");
}

#[test]
fn an_unanswered_exploration_asks() {
    let f = guarded();
    let flow = flow_of(&f, vec![], vec![]);
    match discharge_function(&f, &flow, &vec![]) {
        Progress::Ask(q) => assert_eq!(q.kind, QueryKind::Clock),
        Progress::Done(r) => panic!("expected a question, got {r:?}"),
    }
}

#[test]
fn usual_limits() {
    let l = ExecLimits::default();
    assert_eq!((l.max_visits, l.time_budget), (200_000, Some(30_000)));
    assert!(!l.bug_finding && l.exported);
}

fn alone<'a>(
    f: &'a Function,
    flow: &'a Flow,
    limits: ExecLimits,
    none: &'a (HashMap<u32, Summary>, Vec<Option<PtrContract>>, Vec<Vec<FieldContract>>, Vec<(String, GlobalDef)>),
) -> Task<'a> {
    Task {
        f,
        limits,
        summaries: &none.0,
        contracts: &none.1,
        fields: &none.2,
        globals: &none.3,
        flow,
    }
}

#[test]
fn explorations_run_to_their_end() {
    let none = (HashMap::new(), vec![], vec![], vec![]);
    let f = unguarded_store();
    let flow = flow_of(&f, vec![], vec![]);
    let mut models = Vec::new();
    let t = alone(&f, &flow, ExecLimits::default(), &none);
    let report = discharge_exactly(&t, DEFAULT_BUDGET, 1000, &mut models).expect("finished");
    let d = report.mem_decision(BlockId(0), 2, SafetyProperty::InBounds).expect("decided");
    let w = d.refutation.expect("refuted");
    assert!((w.0 as usize) < models.len());
    assert!(discharge_exactly(&t, DEFAULT_BUDGET, 1, &mut models).is_none());
    let late = ExecLimits { time_budget: Some(0), ..ExecLimits::default() };
    let t = alone(&f, &flow, late, &none);
    let report = discharge_exactly(&t, DEFAULT_BUDGET, 1000, &mut models).expect("finished");
    assert!(report.truncated);
}

#[test]
fn divisors_are_common() {
    assert_eq!(gcd(12, 18), 6);
    assert_eq!(gcd(0, 8), 8);
    assert_eq!(gcd(8, 0), 8);
    assert_eq!(gcd(7, 9), 1);
}

#[test]
fn provenances_compare_by_region() {
    assert!(provs_same(&Prov::Region(1), &Prov::Region(1)));
    assert!(!provs_same(&Prov::Region(1), &Prov::Region(2)));
    assert!(!provs_same(&Prov::Region(1), &Prov::Null));
}

#[test]
fn copies_are_classified_by_their_source() {
    let (n, a, b, v) = (RegId(0), RegId(1), RegId(2), RegId(3));
    let copy = |dst: RegId, src: RegId| Inst::Assign {
        dst,
        ty: Type::integer(64),
        value: RValue::Use(Operand::Reg(src)),
    };
    let f = access(
        "deref",
        vec![(n, Type::integer(64))],
        vec![copy(a, n), copy(b, a), load(v, 8, Operand::Reg(b))],
    );
    let causes = classify_scalar_ptr_defs(&f);
    let of = |r: RegId| causes.iter().rev().find(|c| c.0 == r.0).map(|c| c.1);
    assert_eq!(of(b), Some(ScalarPtrCause::ScalarParam));
    assert!(causes.iter().all(|c| of(RegId(c.0)) != Some(ScalarPtrCause::Copy)));
}

#[test]
fn copies_and_extensions_are_followed() {
    let insts = vec![
        Inst::Assign {
            dst: RegId(2),
            ty: Type::integer(64),
            value: RValue::Use(Operand::Reg(RegId(1))),
        },
        Inst::Assign {
            dst: RegId(3),
            ty: Type::integer(64),
            value: RValue::Cast {
                op: CastOp::ZExt,
                operand: Operand::Reg(RegId(2)),
                to: Type::integer(64),
            },
        },
    ];
    let refs: Vec<&Inst> = insts.iter().collect();
    assert_eq!(resolve_copy(2, &refs), 1);
    assert_eq!(resolve_copy(3, &refs), 3);
    assert_eq!(resolve_index(3, &refs), 1);
}

#[test]
fn fields_lie_apart() {
    let p = RegId(0);
    let field = |dst: RegId, k: u32| Inst::FieldPtr {
        dst,
        base: Operand::Reg(p),
        field: k,
        size: 4,
        align: 4,
    };
    let store = |ptr: RegId, v: u128| Inst::Store {
        ty: Type::integer(32),
        ptr: Operand::Reg(ptr),
        value: Operand::integer(32, v),
        align: 4,
    };
    let f = access(
        "fields",
        vec![(p, Type::ptr(Type::integer(8)))],
        vec![
            field(RegId(1), 0),
            store(RegId(1), 7),
            field(RegId(2), 1),
            store(RegId(2), 9),
            Inst::Load {
                dst: RegId(3),
                ty: Type::integer(32),
                ptr: Operand::Reg(RegId(1)),
                align: 4,
            },
            Inst::SafetyCheck {
                property: SafetyProperty::InBounds,
                condition: Condition::Cmp {
                    op: CmpOp::Eq,
                    lhs: Operand::Reg(RegId(3)),
                    rhs: Operand::integer(32, 7),
                },
                note: "the first field keeps its value".to_string(),
            },
        ],
    );
    let opaque = PtrContract { size: SizeSpec::Opaque, writable: true, ..bytes(0) };
    let r = discharge_contracts(&f, vec![Some(opaque)], vec![]);
    assert_eq!(r.outcome(BlockId(0), 5), Some(SymOutcome::Proven));
    assert!(r.mem_decision(BlockId(0), 4, SafetyProperty::InBounds).expect("decided").proven);
}

#[test]
fn globals_are_numbered_in_the_order_of_their_names() {
    let g = |n: &str| Operand::Const(Const::Symbol(n.to_string()));
    let f = access(
        "read",
        vec![],
        vec![
            load(RegId(1), 8, g("beta")),
            load(RegId(2), 8, g("alphabet")),
            load(RegId(3), 8, g("alpha")),
            load(RegId(4), 8, g("beta")),
            load(RegId(5), 8, g("opaque")),
        ],
    );
    let def = |size: u64| GlobalDef { size, align: 1, writable: false };
    let globals = vec![
        ("beta".to_string(), def(1)),
        ("alpha".to_string(), def(2)),
        ("alphabet".to_string(), def(3)),
        ("unused".to_string(), def(4)),
    ];
    let names = referenced_symbols(&f);
    let answers = vec![];
    let mut m = Machine::new(&answers, false, true);
    let (s, known) = m.enter(&f, &vec![], &vec![], &globals, &names);
    let known: Vec<(&str, usize)> = known.iter().map(|(n, (r, _))| (n.as_str(), *r)).collect();
    assert_eq!(known, vec![("alpha", 0), ("alphabet", 1), ("beta", 2)]);
    assert_eq!(s.regions.len(), 3);
}

#[test]
fn an_order_within_the_visits_allowed_is_not_cut_short() {
    let f = diamond_phi();
    let flow = flow_of(&f, vec![], vec![]);
    let n = flow.order.len();
    let limits = |max_visits: usize| ExecLimits { max_visits, time_budget: None, ..ExecLimits::default() };
    assert!(!discharge_limited(&f, limits(n)).report.truncated);
    assert!(discharge_limited(&f, limits(n - 1)).report.truncated);
}

#[test]
fn nothing_is_both_proved_and_refuted() {
    for f in [guarded(), uninit(), unguarded_store(), store_buf(), use_after_free(), double_free()] {
        let r = discharge(&f);
        for (site, d) in &r.report.mem {
            assert!(!(d.proven && d.refutation.is_some()), "{site:?} {d:?}");
        }
    }
}

#[test]
fn open_questions_are_answered_so() {
    let sym = |n: u64| -> Ex { std::rc::Rc::new(Expr::Sym { name: csolver::expr::Symbol::Arg(n), width: 128 }) };
    let goal: Ex = std::rc::Rc::new(Expr::Rel { op: Rel::Eq, a: sym(0), b: sym(1) });
    let mut models = vec![];
    for (kind, a) in [
        (QueryKind::Method, Answer::Method(None)),
        (QueryKind::Exact, Answer::Exact(false)),
        (QueryKind::Witness, Answer::Witness(None)),
        (QueryKind::Clock, Answer::Clock(true)),
    ] {
        let q = Query { kind, premises: vec![], goal: goal.clone() };
        assert_eq!(answer(&q, DEFAULT_BUDGET, true, &mut models), a);
    }
    assert!(models.is_empty());
}

#[test]
fn questions_come_in_the_order_of_their_answers() {
    let none = (HashMap::new(), vec![], vec![], vec![]);
    for f in [guarded(), unguarded_store(), store_buf(), diamond_phi(), use_after_free()] {
        let flow = flow_of(&f, vec![], vec![]);
        let t = alone(&f, &flow, ExecLimits { time_budget: None, ..ExecLimits::default() }, &none);
        let mut answers: Vec<Answer> = Vec::new();
        let mut asked: Vec<String> = Vec::new();
        let mut models = Vec::new();
        while let Progress::Ask(q) = t.advance(&answers) {
            asked.push(format!("{q:?}"));
            answers.push(answer(&q, DEFAULT_BUDGET, false, &mut models));
        }
        assert!(!asked.is_empty());
        for (i, q) in asked.iter().enumerate() {
            let some: Vec<Answer> = answers[..i].to_vec();
            match t.advance(&some) {
                Progress::Ask(p) => assert_eq!(&format!("{p:?}"), q),
                Progress::Done(_) => panic!("question {i} is not asked"),
            }
        }
    }
}

#[test]
fn nothing_is_proven_without_a_proof() {
    let none = (HashMap::new(), vec![], vec![], vec![]);
    for f in [guarded(), store_buf(), diamond_phi()] {
        let flow = flow_of(&f, vec![], vec![]);
        let t = alone(&f, &flow, ExecLimits { time_budget: None, ..ExecLimits::default() }, &none);
        let mut answers: Vec<Answer> = Vec::new();
        let refused = loop {
            match t.advance(&answers) {
                Progress::Done(r) => break r,
                Progress::Ask(q) => answers.push(match q.kind {
                    QueryKind::Method => Answer::Method(None),
                    QueryKind::Exact => Answer::Exact(false),
                    QueryKind::Witness => Answer::Witness(None),
                    QueryKind::Clock => Answer::Clock(false),
                }),
            }
        };
        assert!(refused.decided.iter().all(|(_, o)| *o != SymOutcome::Proven));
        assert!(refused
            .mem
            .iter()
            .all(|(s, d)| s.prop != SafetyProperty::InBounds || !d.proven));
    }
}

#[test]
fn refutations_come_with_counterexamples() {
    let none = (HashMap::new(), vec![], vec![], vec![]);
    let limits = || ExecLimits { time_budget: None, ..ExecLimits::default() };
    let argument = |m: &Vec<Assigned>| {
        m.iter().find(|a| a.name == Symbol::Arg(0)).map_or(0, |a| a.value)
    };

    let f = unguarded_store();
    let flow = flow_of(&f, vec![], vec![]);
    let mut models = Vec::new();
    let report = discharge_exactly(&alone(&f, &flow, limits(), &none), DEFAULT_BUDGET, 1000, &mut models)
        .expect("finished");
    let d = report.mem_decision(BlockId(0), 2, SafetyProperty::InBounds).expect("decided");
    let w = d.refutation.expect("refuted");
    let offset = argument(&models[w.0 as usize]).wrapping_mul(4) as i64;
    assert!(!(0..=28).contains(&offset), "the model leaves the buffer: {offset}");

    let f = masked_check();
    let flow = flow_of(&f, vec![], vec![]);
    let report = discharge_exactly(&alone(&f, &flow, limits(), &none), DEFAULT_BUDGET, 1000, &mut models)
        .expect("finished");
    match report.outcome(BlockId(0), 1) {
        Some(SymOutcome::Refuted(w)) => assert!((w.0 as usize) < models.len()),
        other => panic!("expected a refutation, got {other:?}"),
    }

    let f = bare_check();
    let flow = flow_of(&f, vec![], vec![]);
    let report = discharge_exactly(&alone(&f, &flow, limits(), &none), DEFAULT_BUDGET, 1000, &mut models)
        .expect("finished");
    assert_eq!(
        report.outcome(BlockId(0), 0),
        Some(SymOutcome::Unknown),
        "a check that some values pass is not refuted",
    );
}

#[test]
fn a_violation_is_refuted_by_a_model_that_takes_the_path() {
    let none = (HashMap::new(), vec![], vec![], vec![]);
    for (f, index, prop) in [
        (use_after_free(), 2, SafetyProperty::NoUseAfterFree),
        (double_free(), 2, SafetyProperty::NoDoubleFree),
    ] {
        let flow = flow_of(&f, vec![], vec![]);
        let t = alone(&f, &flow, ExecLimits { time_budget: None, ..ExecLimits::default() }, &none);
        let mut models = Vec::new();
        let report = discharge_exactly(&t, DEFAULT_BUDGET, 1000, &mut models).expect("finished");
        let d = report.mem_decision(BlockId(0), index, prop).expect("decided");
        let w = d.refutation.expect("refuted");
        assert!((w.0 as usize) < models.len());
    }
}
