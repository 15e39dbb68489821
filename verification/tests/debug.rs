//! Debug information, metadata and the checks that contracts ask for.

use csolver::ir::{BasicBlock, BlockId, FuncId, Function, Inst, Operand, RegId, Terminator, Type};
use csolver::llvm::ast::{LBlock, LFields, LFunc, LInst, LParam, LTerm, LType, LValue};
use csolver::llvm::checks::{inject_leak_and_secret_checks, leak_states};
use csolver::llvm::debuginfo::{parse, size_align, DebugInfo};
use csolver::llvm::metadata::{scan_meta_ints, scan_meta_ranges};
use csolver::llvm::recovery::{dwarf_field_loads, reference_field_loads};
use csolver::llvm::slices::{asserted_base_aligns, detect_slice, typed_gep_pointee_sizes};

const RUST: &str = "
!0 = distinct !DICompileUnit(language: DW_LANG_Rust, file: !1)
!7 = distinct !DISubprogram(name: \"f\", type: !30)
!10 = !DILocalVariable(name: \"a\", arg: 1, scope: !7, type: !20)
!11 = !DILocalVariable(name: \"b\", arg: 2, scope: !7, type: !21)
!12 = !DILocalVariable(name: \"c\", scope: !7, type: !22)
!20 = !DIDerivedType(tag: DW_TAG_pointer_type, name: \"&mut T\", baseType: !40, size: 64)
!21 = !DIDerivedType(tag: DW_TAG_pointer_type, name: \"*const T\", baseType: !40, size: 64)
!22 = !DIDerivedType(tag: DW_TAG_pointer_type, name: \"&T\", baseType: !40, size: 64)
!40 = !DICompositeType(tag: DW_TAG_structure_type, name: \"T\", size: 192, align: 64, elements: !41)
!41 = !{!42, !43}
!42 = !DIDerivedType(tag: DW_TAG_member, name: \"x\", baseType: !50, size: 64, offset: 0)
!43 = !DIDerivedType(tag: DW_TAG_member, name: \"y\", baseType: !22, size: 64, offset: 64)
!50 = !DIBasicType(name: \"u64\", size: 64, align: 64)
";

#[test]
fn references_are_recovered() {
    let di = parse(RUST);
    let c = di.param_ref(7, 1).expect("a reference");
    assert_eq!((c.size, c.align, c.writable), (24, 8, true));
    assert!(di.param_ref(7, 3).is_none());
    assert_eq!(di.local_pointee_bytes(12), Some(24));
    let m = di.member_ref(40, 8).expect("a member");
    assert_eq!((m.size, m.writable), (24, false));
    assert!(di.member_ref(40, 0).is_none());
    assert_eq!(di.member_pointee(40, 8), Some(40));
    assert_eq!(di.composite_by_llvm_name("struct.T"), Some(40));
    assert_eq!(di.composite_by_llvm_name("struct.U"), None);
}

#[test]
fn raw_pointers_are_not_recovered() {
    let di = parse(RUST);
    assert!(di.param_ref(7, 2).is_none());
    assert_eq!(di.param_raw_ptr(7, 2).map(|p| p.0), Some(24));
    let c = parse(&RUST.replace("DW_LANG_Rust", "DW_LANG_C11"));
    assert!(c.param_ref(7, 1).is_none());
}

#[test]
fn signatures_give_parameter_types() {
    let text = "
!0 = !DICompileUnit(language: DW_LANG_C_plus_plus)
!1 = distinct !DISubprogram(name: \"g\", type: !2)
!2 = !DISubroutineType(types: !3)
!3 = !{null, !4}
!4 = !DIDerivedType(tag: DW_TAG_reference_type, baseType: !5)
!5 = !DIDerivedType(tag: DW_TAG_typedef, baseType: !6)
!6 = !DIBasicType(name: \"int\", size: 32)
";
    let di = parse(text);
    let c = di.param_ref(1, 1).expect("a reference");
    assert_eq!((c.size, c.align, c.writable), (4, 1, true));
    assert_eq!(di.param_pointee_any(1, 1), Some(5));
}

#[test]
fn sizes_give_alignments() {
    assert_eq!(size_align(1), 1);
    assert_eq!(size_align(4), 4);
    assert_eq!(size_align(24), 8);
}

#[test]
fn integers_and_ranges_are_scanned() {
    let text = "!1 = !{i64 8}\n  !2 = !{i8 0, i8 2}\n!3 = !{i8 -1, i8 2}\n!4 = !{i8 5, i8 2}\n\
                !x = !{i64 3}\n!5 = !{i64 8, i64 9, i64 10}\n!6 = !{!7}\nplain";
    let ints = scan_meta_ints(text);
    assert_eq!(ints.get(&1), Some(&8));
    assert_eq!(ints.len(), 1);
    let ranges = scan_meta_ranges(text);
    assert_eq!(ranges.get(&2), Some(&(0, 2)));
    assert_eq!(ranges.len(), 1);
}

fn checked() -> Function {
    let mut b0 = BasicBlock::new(
        BlockId(0),
        Terminator::CondBr {
            cond: Operand::Reg(RegId(3)),
            then_blk: BlockId(1),
            then_args: vec![],
            else_blk: BlockId(1),
            else_args: vec![],
        },
    );
    b0.insts.push(Inst::PtrOffset {
        dst: RegId(2),
        base: Operand::Reg(RegId(0)),
        index: Operand::Reg(RegId(1)),
        elem: Type::integer(8),
    });
    let b1 = BasicBlock::new(BlockId(1), Terminator::Return(Some(Operand::Reg(RegId(2)))));
    Function {
        id: FuncId(0),
        name: "f".to_string(),
        params: vec![],
        ret_ty: Type::Unit,
        blocks: vec![b0, b1],
        entry: BlockId(0),
    }
}

#[test]
fn checks_are_inserted_where_declared() {
    let mut f = checked();
    inject_leak_and_secret_checks(&mut f, &vec![(1, 2)], Some(9));
    let b0 = &f.blocks[0].insts;
    assert_eq!(b0.len(), 3);
    assert_eq!(b0[0], Inst::SecretCheck { val: Operand::Reg(RegId(1)), taint: 9 });
    assert_eq!(b0[2], Inst::SecretCheck { val: Operand::Reg(RegId(3)), taint: 9 });
    assert_eq!(
        f.blocks[1].insts,
        vec![Inst::TypestateLeakCheck {
            protocol: 1,
            state: 2,
            escaping: Some(Operand::Reg(RegId(2))),
        }]
    );
}

#[test]
fn nothing_declared_inserts_nothing() {
    let mut f = checked();
    inject_leak_and_secret_checks(&mut f, &vec![], None);
    assert_eq!(f, checked());
}

#[test]
fn leak_states_are_sorted_and_distinct() {
    let ds = vec![
        (Some(3), Some(1)),
        (Some(1), Some(2)),
        (None, Some(2)),
        (Some(3), Some(1)),
        (Some(1), None),
        (Some(1), Some(0)),
    ];
    assert_eq!(leak_states(&ds), vec![(1, 0), (1, 2), (3, 1)]);
}

// ---- what instructions tell of pointers ----

fn s(text: &str) -> String {
    text.to_string()
}

fn local(name: &str) -> LValue {
    LValue::Local(s(name))
}

fn func(params: Vec<(&str, LType)>, insts: Vec<LInst>, dbg: Option<u32>) -> LFunc {
    let params = params
        .into_iter()
        .map(|(name, ty)| LParam {
            name: s(name),
            ty,
            align: Some(1),
            deref: None,
            abi_buf: None,
            readonly: false,
            writeonly: false,
        })
        .collect();
    LFunc {
        name: s("f"),
        params,
        ret: LType::Void,
        blocks: vec![LBlock { label: s("b"), phis: vec![], insts, term: LTerm::Ret(None) }],
        internal: false,
        dbg,
    }
}

fn gep(dst: &str, base: &str, index: LValue) -> LInst {
    LInst::Gep { dst: s(dst), elem: LType::Int(8), base: local(base), index }
}

fn load(dst: &str, ty: LType, ptr: &str, align_meta: Option<u32>) -> LInst {
    LInst::Load { dst: s(dst), ty, ptr: local(ptr), align: 1, align_meta }
}

fn pair() -> LType {
    let last = LFields::Field { ty: Box::new(LType::Ptr), rest: Box::new(LFields::End) };
    LType::Struct(LFields::Field { ty: Box::new(LType::Int(64)), rest: Box::new(last) })
}

fn names(loads: &Vec<(String, (u64, u32, bool, bool))>) -> Vec<&str> {
    loads.iter().map(|l| l.0.as_str()).collect()
}

#[test]
fn references_in_fields_are_recovered() {
    let insts = vec![gep("p", "a", LValue::Int(8)), load("v", LType::Ptr, "p", None)];
    let f = func(vec![("a", LType::Ptr)], insts, Some(7));
    let di: DebugInfo = parse(RUST);
    let refs = reference_field_loads(&f, &di);
    assert_eq!(names(&refs), vec!["v"]);
    assert_eq!(((refs[0].1).0, (refs[0].1).2), (24, false));
    assert!(!(refs[0].1).3, "a reference rests on no assumption");
    assert_eq!(names(&dwarf_field_loads(&f, &di)), vec!["v"]);
    assert!(reference_field_loads(&f, &parse("")).is_empty());
}

#[test]
fn typed_geps_tell_the_pointee() {
    let chain = LInst::GepChain {
        dst: s("q"),
        agg_ty: pair(),
        base: local("p"),
        indices: vec![LValue::Int(0), LValue::Int(1)],
        struct_name: Some(s("struct.T")),
    };
    let f = func(vec![("p", LType::Ptr)], vec![chain], None);
    let sizes = typed_gep_pointee_sizes(&f);
    assert_eq!(sizes.len(), 1);
    assert_eq!(sizes[0].0, "p");
    assert_eq!((sizes[0].1).0, 16);
}

#[test]
fn asserted_alignments_reach_the_base() {
    let f = func(
        vec![("p", LType::Ptr)],
        vec![gep("q", "p", LValue::Int(8)), LInst::Load {
            dst: s("v"),
            ty: LType::Ptr,
            ptr: local("q"),
            align: 8,
            align_meta: Some(8),
        }],
        None,
    );
    for (_, a) in asserted_base_aligns(&f) {
        assert!(a.is_power_of_two());
    }
}

#[test]
fn an_index_bounded_by_a_parameter_is_a_slice() {
    let f = func(
        vec![("p", LType::Ptr), ("n", LType::Int(64)), ("i", LType::Int(64))],
        vec![
            LInst::Icmp {
                dst: s("c"),
                pred: csolver::llvm::ast::LPred::Ult,
                ty: LType::Int(64),
                a: local("i"),
                b: local("n"),
            },
            gep("q", "p", local("i")),
            load("v", LType::Int(8), "q", None),
        ],
        None,
    );
    assert_eq!(detect_slice(&f, 0), Some((1, 1)));
    assert_eq!(detect_slice(&f, 1), None);
}
