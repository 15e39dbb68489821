//! Reading MIR dumps and lowering what was read.

use csolver::error::Error;
use csolver::ir::{
    BinOp, BlockId, Callee, CmpOp, Const, FuncId, Inst, Module, Operand, RValue, RegId, SizeSpec,
    Terminator, Type,
};
use csolver::mir::ast::{
    BinKind, CalleeSpec, MBlock, MConst, MOperand, MRvalue, MStmt, MTerm, MType, MirBody, Place,
};
use csolver::mir::module::lower_module;
use csolver::mir::parser::{bb_index, bin_kind, int_type, is_bb, local_number, parse_module, ParsedModule};
use csolver::mir::tokens::Tok;
use csolver::mir::{MirFrontend, MirInput};

/// The tokens of a text: words, integers without their suffixes, arrows and single marks.
fn lex(text: &str) -> Vec<Tok> {
    let chars: Vec<char> = text.chars().collect();
    let mut toks = Vec::new();
    let mut i = 0;
    while i < chars.len() {
        let c = chars[i];
        if c.is_whitespace() {
            i += 1;
        } else if c == '-' && chars.get(i + 1) == Some(&'>') {
            toks.push(Tok::Arrow);
            i += 2;
        } else if c.is_ascii_digit() {
            let mut n: i128 = 0;
            while i < chars.len() && chars[i].is_ascii_digit() {
                n = n * 10 + chars[i].to_digit(10).unwrap() as i128;
                i += 1;
            }
            while i < chars.len() && (chars[i].is_alphanumeric() || chars[i] == '_') {
                i += 1;
            }
            toks.push(Tok::Int(n));
        } else if c.is_alphabetic() || c == '_' {
            let mut w = String::new();
            while i < chars.len() && (chars[i].is_alphanumeric() || chars[i] == '_') {
                w.push(chars[i]);
                i += 1;
            }
            toks.push(Tok::Word(w));
        } else {
            toks.push(Tok::Punct(c));
            i += 1;
        }
    }
    toks.push(Tok::Eof);
    toks
}

fn read(text: &str) -> ParsedModule {
    parse_module(lex(text))
}

fn one(text: &str) -> MirBody {
    let mut m = read(text);
    assert_eq!(m.failed, vec![]);
    assert_eq!(m.bodies.len(), 1);
    m.bodies.remove(0)
}

fn lowered(text: &str) -> Module {
    let m = read(text);
    lower_module(&m.bodies, &m.failed, "m")
}

fn stmt(text: &str) -> MStmt {
    let mut f = one(&format!("fn f() {{ bb0: {{ {text} return; }} }}"));
    assert_eq!(f.blocks[0].stmts.len(), 1);
    f.blocks[0].stmts.remove(0)
}

fn term(text: &str) -> MTerm {
    let mut f = one(&format!("fn f() {{ bb0: {{ {text} }} }}"));
    assert_eq!(f.blocks[0].stmts.len(), 0);
    f.blocks.remove(0).term
}

fn reason(text: &str) -> String {
    let m = read(text);
    assert_eq!(m.bodies.len(), 0);
    m.failed[0].1.clone()
}

const GET: &str = "
fn get(_1: &[u32; 8], _2: usize) -> u32 {
    debug a => _1;
    let mut _0: u32;
    scope 1 { }
    bb0: {
        StorageLive(_3);
        _3 = const 8_usize;
        _4 = Lt(copy _2, copy _3);
        assert(move _4, \"index out of bounds\", move _3, copy _2) -> [success: bb1, unwind continue];
    }
    bb1: {
        _0 = copy (*_1)[_2];
        return;
    }
}
";

#[test]
fn reads_a_function() {
    let f = one(GET);
    assert_eq!(f.name, "get");
    assert_eq!(f.params.len(), 2);
    assert_eq!(f.params[1], (2, MType::Int { width: 64, signed: false }));
    assert_eq!(f.ret, MType::Int { width: 32, signed: false });
    assert_eq!(f.blocks.len(), 2);
    assert_eq!(f.blocks[0].stmts.len(), 3);
    assert_eq!(f.blocks[0].stmt_spans, vec![None, None, None]);
    assert_eq!(f.blocks[0].stmts[0], MStmt::Nop);
    assert_eq!(
        f.blocks[0].term,
        MTerm::Assert {
            cond: MOperand::Move(Place::Local(4)),
            expected: true,
            target: 1,
        }
    );
    assert_eq!(f.blocks[1].term, MTerm::Return);
}

#[test]
fn reads_places() {
    assert_eq!(
        stmt("_1 = copy ((*_2).3: u8);"),
        MStmt::Assign(
            Place::Local(1),
            MRvalue::Use(MOperand::Copy(Place::Field(
                Box::new(Place::Deref(Box::new(Place::Local(2)))),
                3,
                None
            )))
        )
    );
    assert_eq!(
        stmt("(*_1)[_2] = move ((_5 as Some).0);"),
        MStmt::Assign(
            Place::Index(Box::new(Place::Deref(Box::new(Place::Local(1)))), 2),
            MRvalue::Use(MOperand::Move(Place::Field(Box::new(Place::Local(5)), 0, None)))
        )
    );
}

#[test]
fn reads_right_sides() {
    let of = |text: &str| match stmt(text) {
        MStmt::Assign(_, v) => v,
        other => panic!("expected an assignment, got {other:?}"),
    };
    assert_eq!(of("_1 = Len((*_2));"), MRvalue::Len(Place::Deref(Box::new(Place::Local(2)))));
    assert_eq!(of("_1 = PtrMetadata(copy _2);"), MRvalue::Len(Place::Local(2)));
    assert_eq!(of("_1 = PtrMetadata(const 3);"), MRvalue::Other);
    assert_eq!(of("_1 = &raw const (fake) (*_2);"), MRvalue::Ref(Place::Deref(Box::new(Place::Local(2)))));
    assert_eq!(of("_1 = &mut _2;"), MRvalue::Ref(Place::Local(2)));
    assert_eq!(
        of("_1 = copy _2 as u64 (IntToInt);"),
        MRvalue::Cast(MOperand::Copy(Place::Local(2)))
    );
    assert_eq!(
        of("_1 = Sub(copy _2, const -1_i32);"),
        MRvalue::Bin(
            BinKind::Sub,
            MOperand::Copy(Place::Local(2)),
            MOperand::Const(MConst::Int(-1))
        )
    );
    assert_eq!(
        of("_1 = Shl(copy _2, const true);"),
        MRvalue::Bin(
            BinKind::Other,
            MOperand::Copy(Place::Local(2)),
            MOperand::Const(MConst::Bool(true))
        )
    );
    assert_eq!(of("_1 = Aggregate(copy _2);"), MRvalue::Other);
    assert_eq!(of("_1 = const main;"), MRvalue::Use(MOperand::Const(MConst::Int(0))));
    assert_eq!(of("_1 = _2;"), MRvalue::Use(MOperand::Copy(Place::Local(2))));
}

#[test]
fn reads_terminators() {
    assert_eq!(term("goto -> bb7;"), MTerm::Goto(7));
    assert_eq!(term("unreachable;"), MTerm::Unreachable);
    assert_eq!(term(""), MTerm::Unreachable);
    assert_eq!(term("drop(_1) -> [return: bb1, unwind continue];"), MTerm::Unsupported);
    assert_eq!(
        term("switchInt(copy _1) -> [0: bb1, 5: bb2, otherwise: bb3];"),
        MTerm::SwitchInt(MOperand::Copy(Place::Local(1)), vec![(0, 1), (5, 2)], 3)
    );
    assert_eq!(
        term("assert(!move _1, \"overflow\") -> bb4;"),
        MTerm::Assert { cond: MOperand::Move(Place::Local(1)), expected: false, target: 4 }
    );
    assert_eq!(
        term("_0 = core::cmp::max(copy _1, const 3_u32) -> [return: bb2, unwind terminate(abi)];"),
        MTerm::Call {
            dst: Place::Local(0),
            callee: CalleeSpec::Named("max".to_string()),
            args: vec![MOperand::Copy(Place::Local(1)), MOperand::Const(MConst::Int(3))],
            target: Some(2),
            unwind: None,
        }
    );
    assert_eq!(
        term("_0 = move _5(copy _1) -> unwind;"),
        MTerm::Call {
            dst: Place::Local(0),
            callee: CalleeSpec::Indirect(5),
            args: vec![MOperand::Copy(Place::Local(1))],
            target: None,
            unwind: None,
        }
    );
}

#[test]
fn reads_types() {
    let f = one("fn f(_1: &mut [i8], _2: *const (u8, u8), _3: [bool; 4], _4: Foo, _5: ()) { }");
    assert_eq!(
        f.params,
        vec![
            (
                1,
                MType::Ref(
                    Box::new(MType::Slice(Box::new(MType::Int { width: 8, signed: true }))),
                    true
                )
            ),
            (2, MType::Ptr(Box::new(MType::Other), false)),
            (3, MType::Array(Box::new(MType::Bool), 4)),
            (4, MType::Other),
            (5, MType::Unit),
        ]
    );
    assert_eq!(f.ret, MType::Unit);
    assert_eq!(f.blocks, vec![]);
}

#[test]
fn one_failure_leaves_the_other_functions() {
    let m = read(
        "fn a() { bb0: { return; } } fn b() { bb0: { switchInt(_1) -> [0: bb1]; } } \
         fn c() { bb0: { return; } }",
    );
    assert_eq!(m.bodies.len(), 2);
    assert_eq!(m.bodies[0].name, "a");
    assert_eq!(m.bodies[1].name, "c");
    assert_eq!(
        m.failed,
        vec![("b".to_string(), "parse error: switchInt without an `otherwise`".to_string())]
    );
    let ir = lower_module(&m.bodies, &m.failed, "m");
    assert_eq!(ir.functions.len() + ir.unanalyzed.len(), 3);
}

#[test]
fn messages_name_the_token() {
    assert_eq!(reason("fn 5"), "parse error: expected a word, found Int(5)");
    assert_eq!(reason("fn f"), "parse error: expected `(`, found Eof");
    assert_eq!(reason("fn f(x: u8)"), "parse error: expected a local `_N`, found `x`");
    assert_eq!(reason("fn f(_1 u8)"), "parse error: expected `:`, found Word(\"u8\")");
    assert_eq!(reason("fn f() -> u8;"), "parse error: expected `{`, found Punct(';')");
    assert_eq!(
        reason("fn f() { bb0: { goto -> nowhere; } }"),
        "parse error: expected a block after `->`, found `nowhere`"
    );
    assert_eq!(
        reason("fn f() { bb0: { assert(_1) -> [unwind continue]; } }"),
        "parse error: assert without a success edge"
    );
    assert_eq!(reason("fn f() { bb0: { assert(_1, "), "parse error: unterminated assert(...)");
    assert_eq!(
        reason("fn f() { bb0: { _1.* = _2; } }"),
        "parse error: expected a field index, found Punct('*')"
    );
    assert_eq!(
        reason("fn f(_1: [u8; n])"),
        "parse error: expected an integer, found Word(\"n\")"
    );
    assert_eq!(
        reason("fn f() { bb0: { switchInt(_1) -> [otherwise: x]; } }"),
        "parse error: expected a block, found `x`"
    );
    assert_eq!(
        reason("fn f() { bb0: { assert(_1) -> x; } }"),
        "parse error: bad assert target `x`"
    );
    assert_eq!(
        reason("fn f() { bb99999999999999999999: { return; } }"),
        "parse error: bad block label `bb99999999999999999999`"
    );
    assert_eq!(Tok::Punct('\'').render(), "Punct('\\'')");
    assert_eq!(Tok::Int(-3).render(), "Int(-3)");
    assert_eq!(Tok::Arrow.render(), "Arrow");
}

#[test]
fn names_are_decoded() {
    assert_eq!(local_number(&"_12".to_string()), Some(12));
    assert_eq!(local_number(&"_".to_string()), None);
    assert_eq!(local_number(&"_4294967296".to_string()), None);
    assert_eq!(bb_index(&"bb3".to_string()), Some(3));
    assert_eq!(bb_index(&"b3".to_string()), None);
    assert!(is_bb(&"bb10".to_string()));
    assert!(!is_bb(&"bb".to_string()));
    assert!(!is_bb(&"bb1x".to_string()));
    assert_eq!(bin_kind(&"BitXor".to_string()), Some(BinKind::BitXor));
    assert_eq!(bin_kind(&"Offset".to_string()), Some(BinKind::Other));
    assert_eq!(bin_kind(&"AddWithOverflow".to_string()), None);
    assert_eq!(int_type(&"i128".to_string()), Some(MType::Int { width: 64, signed: true }));
    assert_eq!(int_type(&"usize".to_string()), Some(MType::Int { width: 64, signed: false }));
    assert_eq!(int_type(&"f32".to_string()), None);
}

#[test]
fn lowers_an_indexed_load() {
    let m = lowered(GET);
    assert!(m.unanalyzed.is_empty(), "{:?}", m.unanalyzed);
    let f = &m.functions[0];
    assert_eq!(f.params.len(), 2);
    assert_eq!(m.param_contracts.len(), 1);
    assert_eq!(m.param_contracts[0].0, (FuncId(0), 0));
    assert_eq!(m.param_contracts[0].1.size, SizeSpec::Bytes(32));
    assert_eq!(m.param_contracts[0].1.align, 4);
    assert!(!m.param_contracts[0].1.writable);
    assert!(matches!(
        &f.blocks[0].insts[1],
        Inst::Assign { dst: RegId(4), value: RValue::Cmp { op: CmpOp::Ult, .. }, .. }
            | Inst::Assign { dst: RegId(4), value: RValue::Cmp { op: CmpOp::Slt, .. }, .. }
    ));
    match &f.blocks[0].term {
        Terminator::CondBr { cond, then_blk, else_blk, .. } => {
            assert_eq!(*cond, Operand::Reg(RegId(4)));
            assert_eq!(*then_blk, BlockId(1));
            assert_eq!(*else_blk, BlockId(2));
        }
        other => panic!("expected a branch, got {other:?}"),
    }
    assert!(matches!(f.blocks[1].insts[0], Inst::PtrOffset { .. }));
    assert!(matches!(f.blocks[1].insts[1], Inst::Load { dst: RegId(0), align: 4, .. }));
    assert_eq!(f.blocks.len(), 3, "the landing pad of the check is added");
    assert_eq!(f.blocks[2].term, Terminator::Unreachable);
}

#[test]
fn slices_get_a_length_parameter() {
    let m = lowered(
        "fn len(_1: &mut [u16]) -> usize { bb0: { _2 = Len((*_1)); _0 = copy _2; return; } }",
    );
    let f = &m.functions[0];
    assert_eq!(f.params.len(), 2);
    assert_eq!(f.params[1].1, Type::integer(64));
    let c = m.param_contracts[0].1;
    assert_eq!(c.size, SizeSpec::ParamElements { len_param: 1, elem_size: 2 });
    assert_eq!(c.align, 2);
    assert!(c.writable);
    match &f.blocks[0].insts[0] {
        Inst::Assign { value: RValue::Use(Operand::Reg(r)), .. } => assert_eq!(*r, f.params[1].0),
        other => panic!("expected the length, got {other:?}"),
    }
}

#[test]
fn calls_are_resolved_by_name() {
    let m = lowered(
        "fn g() { bb0: { return; } } \
         fn f() { bb0: { _1 = g() -> [return: bb1]; } bb1: { _2 = ext(const 1_u8) -> bb2; } \
         bb2: { return; } }",
    );
    let f = &m.functions[1];
    assert!(matches!(
        &f.blocks[0].insts[0],
        Inst::Call { callee: Callee::Direct(FuncId(0)), dst: Some(RegId(1)), .. }
    ));
    match &f.blocks[1].insts[0] {
        Inst::Call { callee: Callee::Symbol(n), args, .. } => {
            assert_eq!(n, "ext");
            assert_eq!(args, &vec![Operand::integer(64, 1)]);
        }
        other => panic!("expected a call, got {other:?}"),
    }
    assert_eq!(f.blocks[0].term, Terminator::Br { target: BlockId(1), args: vec![] });
}

#[test]
fn unsupported_terminators_reject_the_function() {
    let m = lowered("fn f() { bb0: { resume; } }");
    assert_eq!(m.functions.len(), 0);
    assert_eq!(
        m.unanalyzed,
        vec![(
            "f".to_string(),
            "unsupported: MIR terminator outside the modelled subset".to_string()
        )]
    );
}

fn body(blocks: Vec<MBlock>) -> MirBody {
    MirBody {
        name: "{closure#0}".to_string(),
        params: vec![(1, MType::Ref(Box::new(MType::Other), false))],
        locals: vec![],
        ret: MType::Unit,
        blocks,
    }
}

fn mblock(id: usize, stmts: Vec<MStmt>, term: MTerm) -> MBlock {
    let n = stmts.len();
    MBlock { id, stmts, stmt_spans: vec![Some("x.rs:1".to_string()); n], term, term_span: None }
}

#[test]
fn fields_discriminants_and_drops_lower() {
    let deref = || Box::new(Place::Deref(Box::new(Place::Local(1))));
    let byte = || Some(MType::Int { width: 8, signed: false });
    let b = body(vec![
        mblock(
            0,
            vec![
                MStmt::Assign(Place::Local(2), MRvalue::Discriminant(Place::Deref(Box::new(Place::Local(1))))),
                MStmt::Assign(
                    Place::Local(3),
                    MRvalue::Use(MOperand::Copy(Place::Field(deref(), 1, byte()))),
                ),
                MStmt::Assign(
                    Place::Local(4),
                    MRvalue::CheckedBin(
                        BinKind::Add,
                        MOperand::Copy(Place::Local(3)),
                        MOperand::Const(MConst::Int(1)),
                    ),
                ),
                MStmt::Assign(
                    Place::Local(5),
                    MRvalue::Use(MOperand::Move(Place::Field(Box::new(Place::Local(4)), 0, None))),
                ),
            ],
            MTerm::Drop { target: Some(1), unwind: Some(2) },
        ),
        mblock(1, vec![], MTerm::Return),
        mblock(2, vec![], MTerm::Unreachable),
    ]);
    let m = lower_module(&vec![b], &vec![], "m");
    assert!(m.unanalyzed.is_empty(), "{:?}", m.unanalyzed);
    assert_eq!(m.internal, vec![FuncId(0)]);
    assert_eq!(m.param_contracts[0].1.size, SizeSpec::Opaque);
    let mut spans = vec![Some("x.rs:1".to_string()); 7];
    spans.push(None);
    assert_eq!(m.functions[0].blocks[0].inst_spans, spans);
    let insts = &m.functions[0].blocks[0].insts;
    assert!(matches!(insts[0], Inst::FieldPtr { field: 0, size: 1, .. }));
    assert!(matches!(insts[1], Inst::Load { align: 1, .. }));
    assert!(matches!(
        insts[2],
        Inst::Assign { dst: RegId(2), value: RValue::Use(Operand::Const(Const::Undef)), .. }
    ));
    assert!(matches!(insts[3], Inst::FieldPtr { field: 1, size: 1, .. }));
    assert!(matches!(insts[4], Inst::Load { dst: RegId(3), .. }));
    let sum = match &insts[5] {
        Inst::Assign { dst, value: RValue::Bin { op: BinOp::Add, .. }, .. } => *dst,
        other => panic!("expected a sum, got {other:?}"),
    };
    match &insts[6] {
        Inst::Assign { dst: RegId(5), value: RValue::Use(o), .. } => {
            assert_eq!(*o, Operand::Reg(sum));
        }
        other => panic!("expected the sum, got {other:?}"),
    }
    assert!(matches!(&insts[7], Inst::Call { callee: Callee::Symbol(n), .. } if n == "drop"));
    assert!(matches!(
        m.functions[0].blocks[0].term,
        Terminator::CondBr { then_blk: BlockId(1), else_blk: BlockId(2), .. }
    ));
}

#[test]
fn crates_are_not_read() {
    let f = MirFrontend::default();
    assert_eq!(f.name(), "mir");
    let e = f.lower(MirInput { path: "x".to_string() });
    match e {
        Err(Error::Unsupported(m)) => {
            assert_eq!(m, "MIR lowering is not implemented yet (planned milestone M5)");
        }
        other => panic!("expected an error, got {other:?}"),
    }
}

#[test]
fn nested_fields_have_their_own_numbers() {
    let deref = || Box::new(Place::Deref(Box::new(Place::Local(1))));
    let byte = || Some(MType::Int { width: 8, signed: false });
    let nested = |k: u32| {
        Place::Field(Box::new(Place::Field(deref(), 0, Some(MType::Other))), k, byte())
    };
    let read = |dst: u32, p: Place| {
        MStmt::Assign(Place::Local(dst), MRvalue::Use(MOperand::Copy(p)))
    };
    let b = body(vec![mblock(
        0,
        vec![
            read(2, nested(1)),
            read(3, nested(2)),
            read(4, nested(1)),
            read(5, Place::Field(deref(), 1, byte())),
        ],
        MTerm::Return,
    )]);
    let m = lower_module(&vec![b], &vec![], "m");
    assert!(m.unanalyzed.is_empty(), "{:?}", m.unanalyzed);
    let ids: Vec<u32> = m.functions[0].blocks[0]
        .insts
        .iter()
        .filter_map(|i| match i {
            Inst::FieldPtr { field, .. } => Some(*field),
            _ => None,
        })
        .collect();
    assert_eq!(ids.len(), 4);
    assert_ne!(ids[0], ids[1]);
    assert_eq!(ids[0], ids[2]);
    assert_eq!(ids[3], 1);
    assert!(ids[0] >= 1_000_000 && ids[1] >= 1_000_000);
}

#[test]
fn lengths_do_not_collide_with_results_of_calls() {
    let m = lowered(
        "fn f(_1: &[u8]) { bb0: { _2 = g(copy _1) -> [return: bb1]; } bb1: { return; } }",
    );
    let f = &m.functions[0];
    assert_eq!(f.params.len(), 2);
    assert_eq!(f.params[1].0, RegId(3));
    assert!(matches!(&f.blocks[0].insts[0], Inst::Call { dst: Some(RegId(2)), .. }));
    let m = lowered("fn f(_1: &[u8]) { let mut _9: usize; bb0: { _2 = Len((*_1)); return; } }");
    let f = &m.functions[0];
    assert!(f.params[1].0 .0 > 2, "{:?}", f.params);
}
