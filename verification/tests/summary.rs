//! Function summaries, of modules and of whole programs.

use csolver::affine::Affine;
use csolver::ir::{
    BasicBlock, BlockId, Callee, FuncId, Function, Inst, MemKind, Module, Operand, RegId,
    RegionKind, Terminator, Type,
};
use csolver::summary::perfn::summarize_fn;
use csolver::summary::program::{summarize_module, summarize_program, SummaryFacts};
use csolver::summary::ret::AbsVal;
use csolver::summary::RetSummary;
use std::collections::HashMap;

/// The linked module: functions in order, numbered from 0 on, with calls by name resolved
/// to the first external definition.
fn merge_modules(mods: Vec<Module>, name: &str) -> Module {
    let mut names: HashMap<String, u32> = HashMap::new();
    let mut next = 0u32;
    for m in &mods {
        for f in &m.functions {
            if !m.internal.contains(&f.id) {
                names.entry(f.name.clone()).or_insert(next);
            }
            next += 1;
        }
    }
    let mut linked = Module::new(name);
    let mut base = 0u32;
    for m in mods {
        let local: HashMap<FuncId, u32> =
            m.functions.iter().enumerate().map(|(i, f)| (f.id, base + i as u32)).collect();
        for mut f in m.functions {
            for inst in f.blocks.iter_mut().flat_map(|b| &mut b.insts) {
                if let Inst::Call { callee, .. } = inst {
                    let to = match callee {
                        Callee::Direct(g) => local.get(g),
                        Callee::Symbol(n) => names.get(n),
                        Callee::Indirect(_) => None,
                    };
                    if let Some(&g) = to {
                        *callee = Callee::Direct(FuncId(g));
                    }
                }
            }
            f.id = FuncId(base);
            base += 1;
            linked.functions.push(f);
        }
        base = linked.functions.len() as u32;
    }
    linked
}

#[test]
fn memcpy_to_a_parameter_is_a_visible_write_but_own_allocas_are_not() {
    let p = RegId(0);
    let buf = RegId(1);
    let make = |dst_reg: RegId| {
        let mut bb0 = BasicBlock::new(BlockId(0), Terminator::Return(None));
        bb0.insts.push(Inst::Alloc {
            dst: buf,
            region: RegionKind::Stack,
            elem: Type::integer(32),
            count: Operand::integer(64, 1),
            align: 4,
        });
        bb0.insts.push(Inst::MemIntrinsic {
            kind: MemKind::Fill,
            dst: Operand::Reg(dst_reg),
            src: None,
            len: Operand::integer(64, 4),
        });
        Function {
            id: FuncId(0),
            name: "m".into(),
            params: vec![(p, Type::ptr(Type::integer(32)))],
            ret_ty: Type::Unit,
            blocks: vec![bb0],
            entry: BlockId(0),
        }
    };
    assert!(summarize_fn(&make(p)).writes, "memset to a parameter is a visible write");
    assert!(!summarize_fn(&make(buf)).writes, "memset to an own alloca is not");
}

#[test]
fn summarize_program_equals_summarize_of_the_linked_module() {
    let p = RegId(0);
    let one_block = |insts: Vec<Inst>| {
        let mut bb = BasicBlock::new(BlockId(0), Terminator::Return(None));
        bb.insts = insts;
        vec![bb]
    };
    let func = |id: u32, name: &str, params: Vec<(RegId, Type)>, insts: Vec<Inst>| Function {
        id: FuncId(id),
        name: name.into(),
        params,
        ret_ty: Type::Unit,
        blocks: one_block(insts),
        entry: BlockId(0),
    };
    let store_p = || Inst::Store {
        ty: Type::integer(32),
        ptr: Operand::Reg(p),
        value: Operand::integer(32, 0),
        align: 4
    };
    let call = |callee: Callee, args: Vec<Operand>| Inst::Call {
        dst: None,
        callee,
        args,
        ret_ty: Type::Unit,
        ret_ref: None,
    };
    let pp = || vec![(p, Type::ptr(Type::integer(32)))];

    let mut b = Module::new("b");
    b.functions.push(func(0, "writer", pp(), vec![store_p()]));
    b.functions.push(func(
        1,
        "b_wrapper",
        pp(),
        vec![call(Callee::Direct(FuncId(0)), vec![Operand::Reg(p)])],
    ));
    let mut a = Module::new("a");
    a.functions.push(func(
        0,
        "a_wrapper",
        pp(),
        vec![call(Callee::Symbol("writer".into()), vec![Operand::Reg(p)])],
    ));
    a.functions.push(func(
        1,
        "a_opaque",
        vec![],
        vec![call(Callee::Symbol("some_undefined_ext".into()), vec![])],
    ));

    let got = summarize_program(&[&a, &b]);
    let linked = merge_modules(vec![a, b], "linked");
    let want = summarize_module(&linked);
    assert_eq!(got, want, "link-free summaries must equal the linked summaries");

    assert!(want[&0u32].writes, "a_wrapper inherits B::writer's write");
    assert!(want[&1u32].writes && want[&1u32].frees, "a_opaque is fully havoc'd");
    assert!(want[&2u32].writes, "writer writes");
    assert!(want[&3u32].writes, "b_wrapper inherits via Direct");
}

#[test]
fn summary_facts_stream_and_drop_equals_linked() {
    let p = RegId(0);
    let mk = |name: &str, insts: Vec<Inst>| {
        let mut m = Module::new("m");
        let mut bb = BasicBlock::new(BlockId(0), Terminator::Return(None));
        bb.insts = insts;
        m.functions.push(Function {
            id: FuncId(0),
            name: name.into(),
            params: vec![(p, Type::ptr(Type::integer(32)))],
            ret_ty: Type::Unit,
            blocks: vec![bb],
            entry: BlockId(0),
        });
        m
    };
    let store = || Inst::Store {
        ty: Type::integer(32),
        ptr: Operand::Reg(p),
        value: Operand::integer(32, 0),
        align: 4
    };
    let call_writer = || Inst::Call {
        dst: None,
        callee: Callee::Symbol("writer".into()),
        args: vec![Operand::Reg(p)],
        ret_ty: Type::Unit,
        ret_ref: None,
    };
    let caller = || mk("caller", vec![call_writer()]);
    let writer = || mk("writer", vec![store()]);

    let want = summarize_module(&merge_modules(vec![caller(), writer()], "l"));
    let mut facts = SummaryFacts::new();
    {
        let m0 = caller();
        facts.push_module(&m0);
    }
    {
        let m1 = writer();
        facts.push_module(&m1);
    }
    assert_eq!(facts.finalize(), want, "streamed+dropped == linked");
}

#[test]
fn summarize_program_matches_linked_on_random_programs() {
    let p = RegId(0);
    let mut state: u64 = 0x00C0_FFEE_1234_5678;
    let mut rng = || {
        state ^= state << 13;
        state ^= state >> 7;
        state ^= state << 17;
        state
    };
    let call = |callee: Callee| Inst::Call {
        dst: None,
        callee,
        args: vec![Operand::Reg(p)],
        ret_ty: Type::Unit,
        ret_ref: None,
    };
    for _ in 0..400 {
        let n_mods = 2 + (rng() % 3) as usize;
        let per = 2 + (rng() % 4) as usize;
        let total = n_mods * per;
        let name = |gi: usize| format!("f{gi}");
        let mut modules = Vec::new();
        let mut gi = 0usize;
        for _ in 0..n_mods {
            let mut m = Module::new("m");
            for local in 0..per {
                let mut insts = Vec::new();
                if rng() & 1 == 0 {
                    insts.push(Inst::Store {
                        ty: Type::integer(32),
                        ptr: Operand::Reg(p),
                        value: Operand::integer(32, 0),
                        align: 4
                    });
                }
                if rng() % 4 == 0 {
                    insts.push(Inst::Dealloc {
                        region: RegionKind::Heap,
                        ptr: Operand::Reg(p),
                    });
                }
                for _ in 0..(rng() % 3) {
                    let callee = if rng() % 5 == 0 {
                        Callee::Symbol("undefined_ext".into())
                    } else {
                        Callee::Symbol(name((rng() as usize) % total))
                    };
                    insts.push(call(callee));
                }
                m.functions.push(Function {
                    id: FuncId(local as u32),
                    name: name(gi),
                    params: vec![(p, Type::ptr(Type::integer(32)))],
                    ret_ty: Type::Unit,
                    blocks: {
                        let mut bb = BasicBlock::new(BlockId(0), Terminator::Return(None));
                        bb.insts = insts;
                        vec![bb]
                    },
                    entry: BlockId(0),
                });
                gi += 1;
            }
            modules.push(m);
        }
        let refs: Vec<&Module> = modules.iter().collect();
        let got = summarize_program(&refs);
        let want = summarize_module(&merge_modules(modules, "linked"));
        assert_eq!(got, want, "link-free != linked on a random program");
    }
}

#[test]
fn diverging_calls_do_not_contaminate_the_effect_summary() {
    let make = |term: Terminator| {
        let mut bb0 = BasicBlock::new(BlockId(0), term);
        bb0.insts.push(Inst::Call {
            dst: None,
            callee: Callee::Symbol("core::panicking::panic".into()),
            args: vec![],
            ret_ty: Type::Unit,
            ret_ref: None,
        });
        let f = Function {
            id: FuncId(0),
            name: "p".into(),
            params: vec![],
            ret_ty: Type::Unit,
            blocks: vec![bb0],
            entry: BlockId(0),
        };
        let mut m = Module::new("m");
        m.functions.push(f);
        m
    };
    let diverging = summarize_module(&make(Terminator::Unreachable));
    assert!(diverging[&0u32].is_pure(), "a diverging call's effects are unobservable");
    let returning = summarize_module(&make(Terminator::Return(None)));
    assert!(!returning[&0u32].is_pure(), "a returning opaque call must contaminate");
}

#[test]
fn pointer_wrapper_summary() {
    let b = RegId(0);
    let q = RegId(1);
    let mut bb0 = BasicBlock::new(BlockId(0), Terminator::Return(Some(Operand::Reg(q))));
    bb0.insts.push(Inst::PtrOffset {
        dst: q,
        base: Operand::Reg(b),
        index: Operand::integer(64, 0),
        elem: Type::integer(32),
    });
    let f = Function {
        id: FuncId(0),
        name: "first".into(),
        params: vec![(b, Type::ptr(Type::integer(32)))],
        ret_ty: Type::ptr(Type::integer(32)),
        blocks: vec![bb0],
        entry: BlockId(0),
    };
    let s = summarize_fn(&f);
    assert!(s.is_pure());
    assert_eq!(
        s.ret,
        RetSummary::PtrFromArg { arg: 0, offset: Affine::constant(0) }
    );
}

#[test]
fn guarded_pointer_wrapper_summary() {
    let p = RegId(0);
    let c = RegId(1);
    let q = RegId(2);
    let mut entry = BasicBlock::new(
        BlockId(0),
        Terminator::CondBr {
            cond: Operand::Reg(c),
            then_blk: BlockId(1),
            then_args: vec![],
            else_blk: BlockId(2),
            else_args: vec![],
        },
    );
    entry.insts.push(Inst::Call {
        dst: Some(c),
        callee: Callee::Symbol("check".into()),
        args: vec![],
        ret_ty: Type::Bool,
        ret_ref: None,
    });
    let panic_blk = BasicBlock::new(BlockId(1), Terminator::Unreachable);
    let mut ok = BasicBlock::new(BlockId(2), Terminator::Return(Some(Operand::Reg(q))));
    ok.insts.push(Inst::PtrOffset {
        dst: q,
        base: Operand::Reg(p),
        index: Operand::integer(64, 1),
        elem: Type::integer(32),
    });
    let f = Function {
        id: FuncId(0),
        name: "guarded".into(),
        params: vec![(p, Type::ptr(Type::integer(32)))],
        ret_ty: Type::ptr(Type::integer(32)),
        blocks: vec![entry, panic_blk, ok],
        entry: BlockId(0),
    };
    assert_eq!(
        summarize_fn(&f).ret,
        RetSummary::PtrFromArg { arg: 0, offset: Affine::constant(4) },
        "the non-returning panic block must not defeat the summary"
    );
}

#[test]
fn disagreeing_and_loop_varying_returns_are_unknown() {
    let p = RegId(0);
    let c = RegId(1);
    let q = RegId(2);
    let mut entry = BasicBlock::new(
        BlockId(0),
        Terminator::CondBr {
            cond: Operand::Reg(c),
            then_blk: BlockId(1),
            then_args: vec![],
            else_blk: BlockId(2),
            else_args: vec![],
        },
    );
    entry.insts.push(Inst::PtrOffset {
        dst: q,
        base: Operand::Reg(p),
        index: Operand::integer(64, 1),
        elem: Type::integer(32),
    });
    let a = BasicBlock::new(BlockId(1), Terminator::Return(Some(Operand::Reg(p))));
    let b = BasicBlock::new(BlockId(2), Terminator::Return(Some(Operand::Reg(q))));
    let f = Function {
        id: FuncId(0),
        name: "diverging_returns".into(),
        params: vec![(p, Type::ptr(Type::integer(32))), (c, Type::Bool)],
        ret_ty: Type::ptr(Type::integer(32)),
        blocks: vec![entry, a, b],
        entry: BlockId(0),
    };
    assert_eq!(summarize_fn(&f).ret, RetSummary::Unknown);

    let cur = RegId(3);
    let next = RegId(4);
    let done = RegId(5);
    let entry = BasicBlock::new(
        BlockId(0),
        Terminator::Br { target: BlockId(1), args: vec![Operand::Reg(p)] },
    );
    let mut head = BasicBlock::new(
        BlockId(1),
        Terminator::CondBr {
            cond: Operand::Reg(done),
            then_blk: BlockId(2),
            then_args: vec![],
            else_blk: BlockId(1),
            else_args: vec![Operand::Reg(next)],
        },
    );
    head.params.push((cur, Type::ptr(Type::integer(32))));
    head.insts.push(Inst::PtrOffset {
        dst: next,
        base: Operand::Reg(cur),
        index: Operand::integer(64, 1),
        elem: Type::integer(32),
    });
    head.insts.push(Inst::Call {
        dst: Some(done),
        callee: Callee::Symbol("check".into()),
        args: vec![],
        ret_ty: Type::Bool,
        ret_ref: None,
    });
    let exit = BasicBlock::new(BlockId(2), Terminator::Return(Some(Operand::Reg(next))));
    let g = Function {
        id: FuncId(1),
        name: "loop_advance".into(),
        params: vec![(p, Type::ptr(Type::integer(32)))],
        ret_ty: Type::ptr(Type::integer(32)),
        blocks: vec![entry, head, exit],
        entry: BlockId(0),
    };
    assert_eq!(summarize_fn(&g).ret, RetSummary::Unknown);
}

#[test]
fn index_wrapper_summary() {
    let b = RegId(0);
    let i = RegId(1);
    let q = RegId(2);
    let mut bb0 = BasicBlock::new(BlockId(0), Terminator::Return(Some(Operand::Reg(q))));
    bb0.insts.push(Inst::PtrOffset {
        dst: q,
        base: Operand::Reg(b),
        index: Operand::Reg(i),
        elem: Type::integer(32),
    });
    let f = Function {
        id: FuncId(0),
        name: "at".into(),
        params: vec![(b, Type::ptr(Type::integer(32))), (i, Type::integer(64))],
        ret_ty: Type::ptr(Type::integer(32)),
        blocks: vec![bb0],
        entry: BlockId(0),
    };
    let s = summarize_fn(&f);
    match s.ret {
        RetSummary::PtrFromArg { arg: 0, offset } => {
            assert_eq!(offset.constant, 0);
            assert_eq!(offset.terms.get(&1), Some(&4));
        }
        other => panic!("expected PtrFromArg, got {other:?}"),
    }
}

fn counting(name: &str, insts: Vec<Inst>) -> Module {
    let mut m = Module::new("m");
    let mut bb = BasicBlock::new(BlockId(0), Terminator::Return(None));
    bb.insts = insts;
    m.functions.push(Function {
        id: FuncId(0),
        name: name.into(),
        params: vec![(RegId(0), Type::ptr(Type::integer(32)))],
        ret_ty: Type::Unit,
        blocks: vec![bb],
        entry: BlockId(0),
    });
    m
}

fn calling(name: &str) -> Inst {
    Inst::Call {
        dst: None,
        callee: Callee::Symbol(name.into()),
        args: vec![Operand::Reg(RegId(0))],
        ret_ty: Type::Unit,
        ret_ref: None,
    }
}

#[test]
fn reference_counts_compose_across_modules() {
    let put = || counting("put", vec![Inst::Refcount { val: Operand::Reg(RegId(0)), protocol: 3, dec: true }]);
    let twice = || counting("twice", vec![calling("put"), calling("put")]);
    let got = summarize_program(&[&twice(), &put()]);
    assert_eq!(got[&0].refcount_effect, vec![(0, 3, -2)]);
    assert_eq!(got[&1].refcount_effect, vec![(0, 3, -1)]);
    assert_eq!(got, summarize_module(&merge_modules(vec![twice(), put()], "linked")));
}

#[test]
fn labels_follow_calls_to_the_caller() {
    let mark = || counting("mark", vec![Inst::ProvLabel { ptr: Operand::Reg(RegId(0)), label: 9 }]);
    let outer = || counting("outer", vec![calling("mark")]);
    let got = summarize_program(&[&outer(), &mark()]);
    assert_eq!(got[&0].prov.labels, vec![(0, 9)]);
    assert_eq!(got[&0].prov.transfers, vec![]);
}

#[test]
fn shards_merge_in_order() {
    let a = counting("a", vec![calling("b")]);
    let b = counting("b", vec![Inst::Dealloc { region: RegionKind::Heap, ptr: Operand::Reg(RegId(0)) }]);
    let c = counting("b", vec![]);
    let mut left = SummaryFacts::new();
    left.push_module(&a);
    let mut right = SummaryFacts::new();
    right.push_module(&b);
    right.push_module(&c);
    left.merge(right);
    assert_eq!(left.name_to_id().len(), 2);
    let got = left.finalize();
    assert_eq!(got, summarize_program(&[&a, &b, &c]));
    assert!(got[&0].frees, "the first definition of a name wins");
    assert_eq!(got[&1].frees_arg, Some(0));
    assert!(!got[&2].frees);
}

#[test]
fn internal_functions_are_not_called_by_name() {
    let mut hidden = counting("hidden", vec![]);
    hidden.internal.push(FuncId(0));
    let got = summarize_program(&[&counting("a", vec![calling("hidden")]), &hidden]);
    assert!(got[&0].writes && got[&0].frees);
    assert!(got[&1].is_pure());
}

#[test]
fn own_summaries_ignore_callees() {
    let one = counting("f", vec![calling("a")]);
    let two = counting("f", vec![calling("b")]);
    assert_eq!(summarize_fn(&one.functions[0]), summarize_fn(&two.functions[0]));
}

#[test]
fn joins_keep_what_agrees() {
    let x = || AbsVal::Scalar(Affine::constant(3));
    let y = AbsVal::PtrArg { arg: 0, off: Affine::constant(3) };
    assert!(matches!(x().join(&x()), AbsVal::Scalar(a) if a.as_const() == Some(3)));
    assert!(matches!(x().join(&y), AbsVal::Opaque));
    assert!(matches!(y.join(&x()), AbsVal::Opaque));
    assert!(matches!(AbsVal::Opaque.join(&y), AbsVal::Opaque));
}

#[test]
fn the_last_function_of_an_id_is_called_by_it() {
    let free = || Inst::Dealloc { region: RegionKind::Heap, ptr: Operand::Reg(RegId(0)) };
    let call = Inst::Call {
        dst: None,
        callee: Callee::Direct(FuncId(7)),
        args: vec![Operand::Reg(RegId(0))],
        ret_ty: Type::Unit,
        ret_ref: None,
    };
    let mut m = counting("a", vec![call]);
    for (name, body) in [("b", vec![]), ("c", vec![free()])] {
        let mut f = counting(name, body).functions.remove(0);
        f.id = FuncId(7);
        m.functions.push(f);
    }
    let mut facts = SummaryFacts::new();
    facts.push_module(&m);
    let at = |n: &str| facts.name_to_id().iter().find(|(k, _)| k == n).map(|(_, v)| *v);
    assert_eq!((at("a"), at("b"), at("c")), (Some(0), Some(2), Some(2)));
    let got = facts.finalize();
    assert!(got[&0].frees && got[&2].frees && !got[&1].frees);
}
