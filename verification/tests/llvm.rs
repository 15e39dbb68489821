//! Lowering LLVM-IR modules, given in parsed form.

use csolver::ir::{
    Assumption, BinOp, BlockId, Callee, CastOp, CmpOp, Const, Inst, MemKind, Module, Operand, RValue,
    RegionKind, SizeSpec, Terminator,
};
use csolver::llvm::ast::{
    Definitions, LBin, LBlock, LCast, LFields, LFunc, LGlobal, LInst, LParam, LPhi, LPred, LTerm,
    LType, LValue,
};
use csolver::llvm::{LlvmFrontend, LlvmInput};

fn s(text: &str) -> String {
    text.to_string()
}

fn local(name: &str) -> LValue {
    LValue::Local(s(name))
}

fn fields(types: Vec<LType>) -> LFields {
    let mut f = LFields::End;
    for ty in types.into_iter().rev() {
        f = LFields::Field { ty: Box::new(ty), rest: Box::new(f) };
    }
    f
}

fn param(name: &str, ty: LType) -> LParam {
    LParam {
        name: s(name),
        ty,
        align: None,
        deref: None,
        abi_buf: None,
        readonly: false,
        writeonly: false,
    }
}

fn aligned(name: &str, align: u32) -> LParam {
    LParam { align: Some(align), ..param(name, LType::Ptr) }
}

fn block(label: &str, insts: Vec<LInst>, term: LTerm) -> LBlock {
    LBlock { label: s(label), phis: vec![], insts, term }
}

fn func(name: &str, params: Vec<LParam>, ret: LType, blocks: Vec<LBlock>) -> LFunc {
    LFunc { name: s(name), params, ret, blocks, internal: false, dbg: None }
}

fn gep(dst: &str, elem: LType, base: &str, index: LValue) -> LInst {
    LInst::Gep { dst: s(dst), elem, base: local(base), index }
}

fn load(dst: &str, ty: LType, ptr: &str, align: u32) -> LInst {
    LInst::Load { dst: s(dst), ty, ptr: local(ptr), align, align_meta: None }
}

fn store(ty: LType, val: LValue, ptr: &str, align: u32) -> LInst {
    LInst::Store { ty, val, ptr: local(ptr), align }
}

fn call(dst: Option<&str>, ret: LType, callee: &str, args: Vec<LValue>) -> LInst {
    LInst::Call { dst: dst.map(s), ret, callee: s(callee), args }
}

fn icmp(dst: &str, pred: LPred, a: LValue, b: LValue) -> LInst {
    LInst::Icmp { dst: s(dst), pred, ty: LType::Int(64), a, b }
}

fn module(funcs: Vec<LFunc>) -> Definitions {
    Definitions { funcs, unanalyzed: vec![], globals: vec![], deref_hints: vec![] }
}

fn lower_text(source: &str, d: Definitions) -> Module {
    LlvmFrontend.lower(LlvmInput { source: s(source), name: s("m") }, d).expect("lower")
}

fn lower(d: Definitions) -> Module {
    lower_text("", d)
}

fn lowered(f: LFunc) -> Module {
    lower(module(vec![f]))
}

fn insts(m: &Module) -> Vec<&Inst> {
    m.functions.iter().flat_map(|f| &f.blocks).flat_map(|b| &b.insts).collect()
}

#[test]
fn lowers_guarded_store() {
    let m = lowered(func(
        "make_and_store",
        vec![param("i", LType::Int(64))],
        LType::Void,
        vec![
            block(
                "entry",
                vec![
                    LInst::Alloca {
                        dst: s("buf"),
                        ty: LType::Array(Box::new(LType::Int(32)), 8),
                        align: 4,
                    },
                    icmp("c0", LPred::Sle, LValue::Int(0), local("i")),
                ],
                LTerm::CondBr(local("c0"), s("check"), s("done")),
            ),
            block(
                "check",
                vec![icmp("c1", LPred::Slt, local("i"), LValue::Int(8))],
                LTerm::CondBr(local("c1"), s("body"), s("done")),
            ),
            block(
                "body",
                vec![
                    gep("p", LType::Int(32), "buf", local("i")),
                    store(LType::Int(32), LValue::Int(0), "p", 4),
                ],
                LTerm::Br(s("done")),
            ),
            block("done", vec![], LTerm::Ret(None)),
        ],
    ));
    assert_eq!(m.functions.len(), 1);
    let f = &m.functions[0];
    assert_eq!(f.name, "make_and_store");
    assert_eq!(f.blocks.len(), 4);
    let has_gep = insts(&m).iter().any(|i| matches!(i, Inst::PtrOffset { .. }));
    let has_store = insts(&m).iter().any(|i| matches!(i, Inst::Store { .. }));
    assert!(has_gep && has_store);
}

#[test]
fn wide_integer_constant_lowers_to_undef_not_panic() {
    let m = lowered(func(
        "wide",
        vec![],
        LType::Int(256),
        vec![block(
            "entry",
            vec![LInst::Bin {
                dst: s("x"),
                op: LBin::Add,
                ty: LType::Int(256),
                a: LValue::Int(5),
                b: LValue::Int(1),
            }],
            LTerm::Ret(Some(local("x"))),
        )],
    ));
    assert_eq!(m.functions.len(), 1);
    let has_undef = insts(&m).iter().any(|i| {
        matches!(
            i,
            Inst::Assign { value: RValue::Bin { lhs, rhs, .. }, .. }
                if matches!(lhs, Operand::Const(Const::Undef))
                    || matches!(rhs, Operand::Const(Const::Undef))
        )
    });
    assert!(has_undef, "a >128-bit int constant should lower to Undef");
}

#[test]
fn index_arg_is_not_mistaken_for_a_slice_length() {
    let m = lowered(func(
        "get",
        vec![aligned("a", 4), param("i", LType::Int(64))],
        LType::Int(32),
        vec![block(
            "entry",
            vec![gep("p", LType::Int(32), "a", local("i")), load("v", LType::Int(32), "p", 4)],
            LTerm::Ret(Some(local("v"))),
        )],
    ));
    assert!(
        m.param_contracts.is_empty(),
        "an index argument must not become a slice length: {:?}",
        m.param_contracts
    );
}

#[test]
fn checked_arithmetic_recovers_the_operation() {
    let m = lowered(func(
        "add_one",
        vec![param("x", LType::Int(32))],
        LType::Int(32),
        vec![
            block(
                "start",
                vec![
                    call(
                        Some("0"),
                        LType::Struct(fields(vec![LType::Int(32), LType::Int(1)])),
                        "llvm.sadd.with.overflow.i32",
                        vec![local("x"), LValue::Int(1)],
                    ),
                    LInst::ExtractValue { dst: s("s"), agg: local("0"), index: 0 },
                    LInst::ExtractValue { dst: s("o"), agg: local("0"), index: 1 },
                ],
                LTerm::CondBr(local("o"), s("panic"), s("ok")),
            ),
            block("ok", vec![], LTerm::Ret(Some(local("s")))),
            block("panic", vec![], LTerm::Ret(Some(LValue::Int(0)))),
        ],
    ));
    let has_add = insts(&m)
        .iter()
        .any(|i| matches!(i, Inst::Assign { value: RValue::Bin { op: BinOp::Add, .. }, .. }));
    assert!(has_add, "checked-add field 0 must recover the addition");
}

#[test]
fn pointer_select_lowers_to_rvalue_select() {
    let m = lowered(func(
        "pick",
        vec![param("c", LType::Int(1)), param("a", LType::Ptr), param("b", LType::Ptr)],
        LType::Ptr,
        vec![block(
            "e",
            vec![LInst::Select {
                dst: s("p"),
                ty: LType::Ptr,
                cond: local("c"),
                a: local("a"),
                b: local("b"),
            }],
            LTerm::Ret(Some(local("p"))),
        )],
    ));
    let has_select =
        insts(&m).iter().any(|i| matches!(i, Inst::Assign { value: RValue::Select { .. }, .. }));
    assert!(has_select, "select must lower to RValue::Select, not an opaque value");
}

#[test]
fn acquire_release_atomics_lower_to_barriers() {
    let m = lowered(func(
        "f",
        vec![param("p", LType::Ptr)],
        LType::Void,
        vec![block(
            "b",
            vec![
                call(None, LType::Void, "atomic_set_release", vec![local("p"), LValue::Int(1)]),
                call(Some("v"), LType::Int(32), "smp_load_acquire", vec![local("p")]),
            ],
            LTerm::Ret(None),
        )],
    ));
    let kinds: Vec<u8> = insts(&m)
        .iter()
        .filter_map(|i| match i {
            Inst::Barrier { kind } => Some(*kind),
            _ => None,
        })
        .collect();
    assert!(kinds.contains(&1), "a `*_release` call is a write barrier (kind 1): {kinds:?}");
    assert!(kinds.contains(&2), "an `*_acquire` call is a read barrier (kind 2): {kinds:?}");
    let calls = insts(&m).iter().filter(|i| matches!(i, Inst::Call { .. })).count();
    assert_eq!(calls, 2, "the calls keep their effects");
}

#[test]
fn indirect_call_lowers_to_callee_indirect() {
    let m = lowered(func(
        "dispatch",
        vec![param("ops", LType::Ptr)],
        LType::Void,
        vec![block(
            "b",
            vec![
                load("fp", LType::Ptr, "ops", 8),
                call(None, LType::Void, "<indirect via %fp>", vec![]),
            ],
            LTerm::Ret(None),
        )],
    ));
    let has_indirect = insts(&m)
        .iter()
        .any(|i| matches!(i, Inst::Call { callee: Callee::Indirect(_), .. }));
    assert!(has_indirect, "an indirect call must lower to Callee::Indirect, not an opaque Symbol");
}

#[test]
fn ops_struct_devirt_table_is_extracted_with_offsets() {
    let returning = |name: &str, v: LValue| {
        func(
            name,
            vec![param("x", LType::Int(32))],
            LType::Int(32),
            vec![block("b", vec![], LTerm::Ret(Some(v)))],
        )
    };
    let mut parsed = module(vec![
        returning("fa", local("x")),
        returning("fb", local("x")),
        returning("fc", LValue::Int(0)),
    ]);
    parsed.globals.push(LGlobal {
        name: s("MYOPS"),
        ty: LType::Struct(fields(vec![
            LType::Ptr,
            LType::Int(32),
            LType::Array(Box::new(LType::Int(8)), 4),
            LType::Ptr,
            LType::Ptr,
        ])),
        packed: false,
        align: 8,
        writable: false,
        symbols: vec![Some(s("fa")), None, None, Some(s("fb")), Some(s("fc"))],
    });
    parsed.globals.push(LGlobal {
        name: s("OTHER"),
        ty: LType::Struct(fields(vec![LType::Ptr])),
        packed: false,
        align: 8,
        writable: false,
        symbols: vec![Some(s("ext"))],
    });
    let m = lower(parsed);
    let table = &m.global_fn_ptrs.iter().find(|t| t.0 == "MYOPS").expect("MYOPS table present").1;
    let at = |off: u64| {
        table
            .iter()
            .find(|e| e.0 == off)
            .map(|e| m.function(e.1).unwrap().name.clone())
    };
    assert_eq!(at(0), Some(s("fa")));
    assert_eq!(at(16), Some(s("fb")));
    assert_eq!(at(24), Some(s("fc")));
    assert_eq!(table.len(), 3, "no phantom fields");
    assert!(m.global_fn_ptrs.iter().all(|t| t.0 != "OTHER"));
}

#[test]
fn unwind_cleanup_does_not_drop_the_function() {
    let m = lowered(func(
        "f",
        vec![param("x", LType::Int(32))],
        LType::Int(32),
        vec![
            block(
                "start",
                vec![LInst::Bin {
                    dst: s("s"),
                    op: LBin::Add,
                    ty: LType::Int(32),
                    a: local("x"),
                    b: LValue::Int(1),
                }],
                LTerm::Ret(Some(local("s"))),
            ),
            block(
                "cleanup",
                vec![LInst::Opaque { dst: s("e") }, LInst::Opaque { dst: s("a") }],
                LTerm::Unreachable,
            ),
        ],
    ));
    assert!(
        m.unanalyzed.is_empty(),
        "an unwind-cleanup path must not drop the function: {:?}",
        m.unanalyzed
    );
    assert_eq!(m.functions.len(), 1);
}

#[test]
fn invoke_and_const_expr_do_not_drop_the_function() {
    let m = lowered(func(
        "f",
        vec![param("p", LType::Ptr)],
        LType::Int(32),
        vec![
            block(
                "start",
                vec![],
                LTerm::Invoke {
                    dst: Some(s("r")),
                    ret: LType::Int(32),
                    callee: s("g"),
                    args: vec![local("p"), LValue::Int(7)],
                    ok: s("ok"),
                    cleanup: s("cleanup"),
                },
            ),
            block("ok", vec![], LTerm::Ret(Some(local("r")))),
            block("cleanup", vec![LInst::Opaque { dst: s("e") }], LTerm::Unreachable),
        ],
    ));
    assert!(
        m.unanalyzed.is_empty(),
        "invoke + const-expr must not drop the function: {:?}",
        m.unanalyzed
    );
    let f = &m.functions[0];
    let start = f.blocks.iter().find(|b| b.id == BlockId(0)).unwrap();
    assert!(
        matches!(start.term, Terminator::CondBr { .. }),
        "invoke must branch to both its normal and unwind successors"
    );
}

#[test]
fn float_types_and_ops_do_not_drop_the_function() {
    let m = lowered(func(
        "scale",
        vec![param("x", LType::Int(32))],
        LType::Int(32),
        vec![block(
            "start",
            vec![
                LInst::Alloca {
                    dst: s("u"),
                    ty: LType::Array(Box::new(LType::Int(8)), 4),
                    align: 4,
                },
                store(LType::Int(32), local("x"), "u", 4),
                load("v", LType::Int(32), "u", 4),
                LInst::Opaque { dst: s("f") },
                LInst::Opaque { dst: s("r") },
            ],
            LTerm::Ret(Some(local("r"))),
        )],
    ));
    assert!(
        m.unanalyzed.is_empty(),
        "a float-using function must not be dropped: {:?}",
        m.unanalyzed
    );
    let stores = insts(&m).iter().filter(|i| matches!(i, Inst::Store { .. })).count();
    assert_eq!(stores, 1, "the store into the alloca must be preserved");
}

#[test]
fn sret_buffer_gets_a_size_contract_not_a_slice_pairing() {
    let m = lowered(func(
        "new",
        vec![
            LParam {
                abi_buf: Some(LType::Array(Box::new(LType::Int(8)), 24)),
                ..aligned("_0", 8)
            },
            param("start1", LType::Int(64)),
            param("end", LType::Int(64)),
        ],
        LType::Void,
        vec![block(
            "start",
            vec![
                store(LType::Int(64), local("start1"), "_0", 8),
                gep("0", LType::Int(8), "_0", LValue::Int(8)),
                store(LType::Int(64), local("end"), "0", 8),
                gep("1", LType::Int(8), "_0", LValue::Int(16)),
                store(LType::Int(8), LValue::Int(0), "1", 8),
            ],
            LTerm::Ret(None),
        )],
    ));
    let contracts: Vec<_> = m.param_contracts.iter().map(|c| c.1).collect();
    assert_eq!(contracts.len(), 1, "the sret param must carry exactly one contract");
    assert!(
        matches!(contracts[0].size, SizeSpec::Bytes(24)),
        "sret([24 x i8]) must be a 24-byte contract, not a slice pairing: {:?}",
        contracts[0].size
    );
}

#[test]
fn adjacent_integer_param_is_not_a_slice_length() {
    let m = lowered(func(
        "update",
        vec![aligned("self", 4), param("skipped", LType::Int(64))],
        LType::Void,
        vec![block(
            "start",
            vec![
                load("a", LType::Int(32), "self", 4),
                gep("p", LType::Int(8), "self", LValue::Int(4)),
                store(LType::Int(32), local("a"), "p", 4),
            ],
            LTerm::Ret(None),
        )],
    ));
    assert!(
        m.param_contracts.is_empty(),
        "no length evidence - no slice contract: {:?}",
        m.param_contracts
    );

    let m = lowered(func(
        "move_next",
        vec![aligned("self", 8), param("bucket_mask", LType::Int(64))],
        LType::Void,
        vec![block(
            "start",
            vec![
                gep("f", LType::Int(8), "self", LValue::Int(8)),
                load("v", LType::Int(64), "f", 8),
                icmp("c", LPred::Ule, local("v"), local("bucket_mask")),
            ],
            LTerm::Ret(None),
        )],
    ));
    assert!(
        m.param_contracts.is_empty(),
        "a compared-but-never-indexing mask is not a length: {:?}",
        m.param_contracts
    );

    let m = lowered(func(
        "get",
        vec![aligned("s", 1), param("len", LType::Int(64)), param("i", LType::Int(64))],
        LType::Int(8),
        vec![
            block(
                "start",
                vec![icmp("c", LPred::Ult, local("i"), local("len"))],
                LTerm::CondBr(local("c"), s("ok"), s("out")),
            ),
            block(
                "ok",
                vec![gep("p", LType::Int(8), "s", local("i")), load("v", LType::Int(8), "p", 1)],
                LTerm::Ret(Some(local("v"))),
            ),
            block("out", vec![], LTerm::Ret(Some(LValue::Int(0)))),
        ],
    ));
    assert_eq!(
        m.param_contracts.len(),
        1,
        "the bounds-checked-index pattern still pairs: {:?}",
        m.param_contracts
    );
}

#[test]
fn named_struct_types_resolve_with_correct_stride() {
    let inner = LType::Struct(fields(vec![LType::Int(32), LType::Int(64)]));
    let outer = LType::Struct(fields(vec![LType::Ptr, inner]));
    let m = lowered(func(
        "nth",
        vec![param("base", LType::Ptr), param("i", LType::Int(64))],
        LType::Ptr,
        vec![block(
            "start",
            vec![gep("p", outer, "base", local("i"))],
            LTerm::Ret(Some(local("p"))),
        )],
    ));
    assert!(m.unanalyzed.is_empty(), "named types must resolve: {:?}", m.unanalyzed);
    let all = insts(&m);
    let elem = all
        .iter()
        .find_map(|i| match i {
            Inst::PtrOffset { elem, .. } => Some(elem),
            _ => None,
        })
        .expect("the gep lowers to a PtrOffset");
    assert_eq!(elem.size_bytes(), Some(24), "gep stride must be the padded struct size");
}

#[test]
fn switch_table_float_args_and_indirect_calls_parse() {
    let m = lowered(func(
        "f",
        vec![param("x", LType::Int(64)), param("fp", LType::Ptr)],
        LType::Int(32),
        vec![
            block(
                "start",
                vec![],
                LTerm::Switch {
                    value: local("x"),
                    width: 64,
                    default: s("d"),
                    cases: vec![(0, s("a")), (1, s("b"))],
                },
            ),
            block(
                "a",
                vec![call(Some("r"), LType::Int(32), "g", vec![LValue::Undef, LValue::Undef])],
                LTerm::Br(s("d")),
            ),
            block(
                "b",
                vec![call(Some("s"), LType::Int(32), "<indirect via %fp>", vec![local("x")])],
                LTerm::Ret(Some(local("s"))),
            ),
            block("d", vec![], LTerm::Ret(Some(LValue::Int(0)))),
        ],
    ));
    assert!(m.unanalyzed.is_empty(), "must all lower: {:?}", m.unanalyzed);
    let has_indirect = insts(&m)
        .iter()
        .any(|i| matches!(i, Inst::Call { callee: Callee::Indirect(_), .. }));
    assert!(has_indirect, "the indirect call lowers to Callee::Indirect on its register");
}

#[test]
fn atomic_volatile_accesses_keep_their_obligations() {
    let m = lowered(func(
        "f",
        vec![param("p", LType::Ptr), param("v", LType::Int(32))],
        LType::Int(32),
        vec![block(
            "start",
            vec![
                store(LType::Int(32), local("v"), "p", 4),
                load("a", LType::Int(32), "p", 4),
                load("b", LType::Int(32), "p", 4),
            ],
            LTerm::Ret(Some(local("b"))),
        )],
    ));
    assert!(m.unanalyzed.is_empty(), "{:?}", m.unanalyzed);
    let loads = insts(&m).iter().filter(|i| matches!(i, Inst::Load { .. })).count();
    let stores = insts(&m).iter().filter(|i| matches!(i, Inst::Store { .. })).count();
    assert_eq!((loads, stores), (2, 1), "every qualified access stays a checked access");

    let pair = || LType::PackedStruct(fields(vec![LType::Int(8), LType::Int(32)]));
    let packed = lowered(func(
        "g",
        vec![param("p", LType::Ptr)],
        LType::Void,
        vec![block("start", vec![load("v", pair(), "p", 0)], LTerm::Ret(None))],
    ));
    let dropped = !packed.unanalyzed.is_empty();
    assert!(dropped, "a packed struct must be rejected, not padded");
    assert!(packed.functions.is_empty());
    assert_eq!(packed.unanalyzed[0].0, "g");
}

// ---- further cases ----

#[test]
fn frontend_has_a_name() {
    assert_eq!(LlvmFrontend::default().name(), "llvm");
    assert_eq!(lower(module(vec![])).name, "m");
}

#[test]
fn undefined_values_and_blocks_are_reported() {
    let m = lowered(func(
        "f",
        vec![],
        LType::Void,
        vec![block("b", vec![], LTerm::Ret(Some(local("nope"))))],
    ));
    assert_eq!(m.functions.len(), 0);
    assert_eq!(m.unanalyzed, vec![(s("f"), s("parse error: use of undefined value %nope"))]);

    let m = lowered(func("f", vec![], LType::Void, vec![block("b", vec![], LTerm::Br(s("x")))]));
    assert_eq!(m.unanalyzed, vec![(s("f"), s("parse error: branch to unknown block %x"))]);
}

#[test]
fn a_function_that_fails_leaves_the_others() {
    let bad = func(
        "bad",
        vec![],
        LType::Void,
        vec![block("b", vec![], LTerm::Ret(Some(local("x"))))],
    );
    let good = func("good", vec![], LType::Void, vec![block("b", vec![], LTerm::Ret(None))]);
    let m = lower(module(vec![bad, good]));
    assert_eq!(m.functions.len(), 1);
    assert_eq!(m.functions[0].name, "good");
    assert_eq!((m.functions[0].id).0, 1);
    assert_eq!(m.unanalyzed.len(), 1);
}

#[test]
fn phis_become_block_parameters() {
    let m = lowered(func(
        "f",
        vec![param("c", LType::Int(1))],
        LType::Int(32),
        vec![
            block("e", vec![], LTerm::CondBr(local("c"), s("j"), s("k"))),
            block("k", vec![], LTerm::Br(s("j"))),
            LBlock {
                label: s("j"),
                phis: vec![LPhi {
                    dst: s("v"),
                    ty: LType::Int(32),
                    incomings: vec![(LValue::Int(1), s("e")), (LValue::Int(2), s("k"))],
                }],
                insts: vec![],
                term: LTerm::Ret(Some(local("v"))),
            },
        ],
    ));
    let f = &m.functions[0];
    assert_eq!(f.blocks[2].params.len(), 1);
    match &f.blocks[1].term {
        Terminator::Br { target, args } => {
            assert_eq!(*target, BlockId(2));
            assert_eq!(args, &vec![Operand::integer(32, 2)]);
        }
        other => panic!("expected a branch, got {other:?}"),
    }
    match &f.blocks[0].term {
        Terminator::CondBr { then_args, else_args, .. } => {
            assert_eq!(then_args, &vec![Operand::integer(32, 1)]);
            assert!(else_args.is_empty());
        }
        other => panic!("expected a branch, got {other:?}"),
    }
}

#[test]
fn allocators_and_deallocators_are_recognized() {
    let m = lowered(func(
        "f",
        vec![param("n", LType::Int(64))],
        LType::Void,
        vec![block(
            "b",
            vec![
                call(Some("p"), LType::Ptr, "malloc", vec![LValue::Int(16)]),
                call(Some("q"), LType::Ptr, "kmalloc_array", vec![local("n"), LValue::Int(8)]),
                call(None, LType::Void, "free", vec![local("p")]),
                call(Some("r"), LType::Int(64), "copy_from_user", vec![
                    local("q"),
                    LValue::Null,
                    LValue::Int(8),
                ]),
                call(None, LType::Void, "llvm.memset.p0.i64", vec![
                    local("q"),
                    LValue::Int(0),
                    LValue::Int(8),
                ]),
                call(None, LType::Void, "llvm.lifetime.end", vec![]),
            ],
            LTerm::Ret(None),
        )],
    ));
    let all = insts(&m);
    assert!(matches!(
        all[0],
        Inst::Alloc { region: RegionKind::Heap, count, .. } if *count == Operand::integer(64, 16)
    ));
    assert!(matches!(all[1], Inst::Assign { value: RValue::Bin { op: BinOp::Mul, .. }, .. }));
    assert!(matches!(all[2], Inst::Alloc { region: RegionKind::Heap, .. }));
    assert!(matches!(all[3], Inst::Dealloc { region: RegionKind::Heap, .. }));
    assert!(matches!(all[4], Inst::MemIntrinsic { kind: MemKind::UserFill, src: None, .. }));
    assert!(matches!(all[5], Inst::Assign { value: RValue::Use(Operand::Const(Const::Undef)), .. }));
    assert!(matches!(all[6], Inst::MemIntrinsic { kind: MemKind::Fill, .. }));
    assert!(matches!(all[7], Inst::Intrinsic { .. }));
    assert_eq!(all.len(), 8);
}

#[test]
fn comparisons_casts_and_atomics_lower() {
    let m = lowered(func(
        "f",
        vec![param("p", LType::Ptr), param("x", LType::Int(64))],
        LType::Void,
        vec![block(
            "b",
            vec![
                icmp("c", LPred::Uge, local("x"), LValue::Int(-1)),
                LInst::Cast { dst: s("y"), op: LCast::ZExt, val: local("x"), to: LType::Int(128) },
                LInst::AtomicRmw { dst: s("o"), ty: LType::Int(32), ptr: local("p"), tuple: false },
                LInst::AtomicRmw { dst: s("t"), ty: LType::Int(32), ptr: local("p"), tuple: true },
            ],
            LTerm::Ret(None),
        )],
    ));
    let all = insts(&m);
    assert!(matches!(
        all[0],
        Inst::Assign { value: RValue::Cmp { op: CmpOp::Uge, rhs, .. }, .. }
            if *rhs == Operand::integer(64, u64::MAX as u128)
    ));
    assert!(matches!(all[1], Inst::Assign { value: RValue::Cast { op: CastOp::ZExt, .. }, .. }));
    assert!(matches!(all[2], Inst::Load { align: 4, .. }));
    assert!(matches!(all[3], Inst::Store { align: 4, .. }));
    assert!(matches!(all[4], Inst::Load { .. }));
    assert!(matches!(all[5], Inst::Store { .. }));
    assert!(matches!(all[6], Inst::Assign { value: RValue::Use(Operand::Const(Const::Undef)), .. }));
}

#[test]
fn struct_field_chains_have_byte_offsets() {
    let pair = LType::Struct(fields(vec![LType::Int(8), LType::Int(64)]));
    let m = lowered(func(
        "f",
        vec![param("p", LType::Ptr)],
        LType::Void,
        vec![block(
            "b",
            vec![LInst::GepChain {
                dst: s("q"),
                agg_ty: pair,
                base: local("p"),
                indices: vec![LValue::Int(0), LValue::Int(1)],
                struct_name: None,
            }],
            LTerm::Ret(None),
        )],
    ));
    let all = insts(&m);
    let last = all[all.len() - 1];
    assert!(
        matches!(last, Inst::PtrOffset { index, .. } if *index == Operand::integer(64, 8)),
        "{last:?}"
    );
}

#[test]
fn globals_have_sizes() {
    let mut parsed = module(vec![]);
    parsed.globals.push(LGlobal {
        name: s("g"),
        ty: LType::Array(Box::new(LType::Int(32)), 5),
        packed: false,
        align: 16,
        writable: true,
        symbols: vec![],
    });
    let m = lower(parsed);
    assert_eq!(m.globals.len(), 1);
    assert_eq!(m.globals[0].0, "g");
    assert_eq!((m.globals[0].1.size, m.globals[0].1.align, m.globals[0].1.writable), (20, 16, true));
    assert!(m.global_fn_ptrs.is_empty());
}

#[test]
fn callbr_goes_to_every_target() {
    let m = lowered(func(
        "f",
        vec![],
        LType::Void,
        vec![
            block("b", vec![], LTerm::CallBr { dst: None, targets: vec![s("x"), s("y")] }),
            block("x", vec![], LTerm::Ret(None)),
            block("y", vec![], LTerm::Unreachable),
        ],
    ));
    assert!(m.unanalyzed.is_empty(), "{:?}", m.unanalyzed);
    match &m.functions[0].blocks[0].term {
        Terminator::Switch { cases, default, .. } => {
            assert_eq!(*default, BlockId(1));
            assert_eq!(cases.len(), 1);
            assert_eq!(cases[0].1, BlockId(2));
        }
        other => panic!("expected a switch, got {other:?}"),
    }
}

#[test]
fn debug_information_gives_contracts() {
    let text = "
!0 = distinct !DICompileUnit(language: DW_LANG_Rust)
!7 = distinct !DISubprogram(name: \"f\", type: !30)
!10 = !DILocalVariable(name: \"a\", arg: 1, scope: !7, type: !20)
!20 = !DIDerivedType(tag: DW_TAG_pointer_type, name: \"&mut T\", baseType: !40, size: 64)
!40 = !DICompositeType(tag: DW_TAG_structure_type, name: \"T\", size: 192, align: 64)
";
    let f = || {
        let mut f = func(
            "f",
            vec![param("a", LType::Ptr)],
            LType::Void,
            vec![block("b", vec![load("v", LType::Int(8), "a", 1)], LTerm::Ret(None))],
        );
        f.dbg = Some(7);
        f
    };
    let m = lower_text(text, module(vec![f()]));
    assert_eq!(m.param_contracts.len(), 1);
    let c = m.param_contracts[0].1;
    assert_eq!(c.size, SizeSpec::Bytes(24));
    assert!(c.writable);
    assert_eq!(c.assumption, Some(Assumption::DebugInfo));
    assert!(lowered(f()).param_contracts.is_empty());
}

#[test]
fn an_aligned_allocation_has_its_size_second() {
    for name in ["aligned_alloc", "memalign"] {
        let m = lowered(func(
            "f",
            vec![],
            LType::Void,
            vec![block(
                "b",
                vec![call(Some("p"), LType::Ptr, name, vec![LValue::Int(16), LValue::Int(48)])],
                LTerm::Ret(None),
            )],
        ));
        let all = insts(&m);
        assert!(
            matches!(
                all[0],
                Inst::Alloc { region: RegionKind::Heap, count, .. }
                    if *count == Operand::integer(64, 48)
            ),
            "{all:?}"
        );
    }
}

#[test]
fn uses_raise_the_size_of_a_global() {
    let sized = |hints: Vec<(String, u64)>| {
        let mut parsed = module(vec![]);
        parsed.globals.push(LGlobal {
            name: s("g"),
            ty: LType::Array(Box::new(LType::Int(32)), 5),
            packed: false,
            align: 4,
            writable: false,
            symbols: vec![],
        });
        parsed.deref_hints = hints;
        lower(parsed).globals[0].1.size
    };
    assert_eq!(sized(vec![]), 20);
    assert_eq!(sized(vec![(s("g"), 24)]), 24);
    assert_eq!(sized(vec![(s("g"), 32), (s("g"), 8)]), 32);
    assert_eq!(sized(vec![(s("g"), 8), (s("h"), 100)]), 20);
}

#[test]
fn functions_keep_their_numbers_or_are_named() {
    let good = |name: &str| func(name, vec![], LType::Void, vec![block("b", vec![], LTerm::Ret(None))]);
    let bad = func(
        "bad",
        vec![],
        LType::Void,
        vec![block("b", vec![], LTerm::Br(s("nowhere")))],
    );
    let mut parsed = module(vec![good("a"), bad, good("c")]);
    parsed.unanalyzed.push((s("early"), s("reason")));
    let m = lower(parsed);
    let kept: Vec<(u32, &str)> = m.functions.iter().map(|f| (f.id.0, f.name.as_str())).collect();
    assert_eq!(kept.len() + m.unanalyzed.len(), 4);
    assert_eq!(m.unanalyzed[0], (s("early"), s("reason")));
    assert!(kept.contains(&(0, "a")) && kept.contains(&(2, "c")), "{kept:?}");
    assert!(kept.contains(&(1, "bad")) || m.unanalyzed[1].0 == "bad");
    assert!(m.functions.iter().all(|f| f.blocks.iter().all(|b| b.inst_spans.is_empty())));
}

#[test]
fn packed_structs_are_not_stored_but_strided() {
    let pair = || LType::PackedStruct(fields(vec![LType::Int(8), LType::Int(32)]));
    let m = lowered(func(
        "g",
        vec![param("p", LType::Ptr)],
        LType::Void,
        vec![block("b", vec![store(pair(), LValue::Int(0), "p", 1)], LTerm::Ret(None))],
    ));
    assert_eq!(
        m.unanalyzed,
        vec![(s("g"), s("unsupported: access to a packed struct as a whole"))]
    );
    let m = lowered(func(
        "h",
        vec![param("p", LType::Ptr)],
        LType::Void,
        vec![block(
            "b",
            vec![LInst::Gep { dst: s("q"), elem: pair(), base: local("p"), index: LValue::Int(2) }],
            LTerm::Ret(None),
        )],
    ));
    assert!(m.unanalyzed.is_empty(), "{:?}", m.unanalyzed);
    match insts(&m)[0] {
        Inst::PtrOffset { elem, .. } => assert_eq!(elem.size_bytes(), Some(5)),
        other => panic!("expected an offset, got {other:?}"),
    }
}
