//! Lowering instructions, terminators and blocks.

use crate::error::{Error, ErrorView};
use crate::ir::{
    int_operand, BinOp, BitVector, BlockId, Callee, CalleeView, Const, Inst, InstView, MemKind,
    Operand, RValue, RegId, RegionKind, TermView, Terminator, Type,
};
use crate::llvm::ast::{LBlock, LInst, LPhi, LTerm, LType, LValue};
use crate::llvm::calls::{
    is_noop_intrinsic, mem_kind, mem_kind_of, no_effect, overflow_intrinsic_op, overflow_op,
};
use crate::llvm::lower::{
    align_given, align_or, bin_of, bits_of, block_of, both, callee_of, cast_of, lower_bin,
    lower_cast, lower_pred, lower_type, operand_of, operands_of, pred_of, reg_of, result_is,
    to_bits, type_of, type_width, width_of, Ctx, CtxView,
};
use crate::names::{entry, lookup};
use crate::text::joined;
use vstd::prelude::*;

verus! {

/// The unknown value.
pub open spec fn unknown() -> Operand {
    Operand::Const(Const::Undef)
}

/// An unknown value in `dst`.
pub open spec fn unknown_in(dst: RegId, ty: Type) -> InstView {
    InstView::Plain(Inst::Assign { dst, ty, value: RValue::Use(unknown()) })
}

/// A result without its register, where there is none.
pub open spec fn opt_reg_of(c: CtxView, dst: Option<String>) -> Result<Option<RegId>, ErrorView> {
    match dst {
        None => Ok(None),
        Some(d) => match reg_of(c, d@) {
            Ok(r) => Ok(Some(r)),
            Err(e) => Err(e),
        },
    }
}

/// The checked operation whose result the first field of an aggregate holds.
pub open spec fn checked_of(c: CtxView, agg: LValue, index: u32) -> Option<(BinOp, LValue, LValue)> {
    match agg {
        LValue::Local(name) => if index == 0 {
            entry(c.checked, name@)
        } else {
            None
        },
        _ => None,
    }
}

/// What a call becomes.
pub open spec fn call_inst(
    c: CtxView,
    dst: Option<String>,
    ret: LType,
    callee: String,
    args: Seq<LValue>,
) -> Result<InstView, ErrorView> {
    match opt_reg_of(c, dst) {
        Err(e) => Err(e),
        Ok(d) => if overflow_op(callee@) is Some && d is Some {
            Ok(unknown_in(d->0, Type::Int { bits: 64 }))
        } else if no_effect(callee@) {
            Ok(InstView::Plain(Inst::Intrinsic { dst: d, name: callee }))
        } else if mem_kind_of(callee@) is Some {
            let kind = mem_kind_of(callee@)->0;
            if args.len() >= 3 {
                match both(operand_of(c, args[0], 64), operand_of(c, args[2], 64)) {
                    Err(e) => Err(e),
                    Ok((to, len)) => if kind is Copy || kind is Move {
                        match operand_of(c, args[1], 64) {
                            Err(e) => Err(e),
                            Ok(s) => Ok(
                                InstView::Plain(
                                    Inst::MemIntrinsic { kind, dst: to, src: Some(s), len },
                                ),
                            ),
                        }
                    } else {
                        Ok(
                            InstView::Plain(Inst::MemIntrinsic { kind, dst: to, src: None, len }),
                        )
                    },
                }
            } else {
                Ok(
                    InstView::Call {
                        dst: None,
                        callee: CalleeView::Symbol(callee@),
                        args: Seq::empty(),
                        ret_ty: Type::Unit,
                        ret_ref: None,
                    },
                )
            }
        } else {
            match operands_of(c, args, 64) {
                Err(e) => Err(e),
                Ok(ops) => Ok(
                    InstView::Call {
                        dst: d,
                        callee: callee_of(c, callee@),
                        args: ops,
                        ret_ty: type_of(ret),
                        ret_ref: None,
                    },
                ),
            }
        },
    }
}

/// The error of an access to a packed struct as a whole.
pub open spec fn packed_access() -> ErrorView {
    ErrorView::Unsupported("access to a packed struct as a whole"@)
}

/// The instruction that a parsed one becomes, where it becomes a single one. A packed struct
/// is not loaded or stored as a whole.
pub open spec fn inst_of(c: CtxView, inst: LInst) -> Result<InstView, ErrorView> {
    match inst {
        LInst::Alloca { dst, ty, align } => match reg_of(c, dst@) {
            Err(e) => Err(e),
            Ok(d) => Ok(
                InstView::Plain(
                    Inst::Alloc {
                        dst: d,
                        region: RegionKind::Stack,
                        elem: type_of(ty),
                        count: int_operand(64, 1),
                        align: align_given(align, ty),
                    },
                ),
            ),
        },
        LInst::Load { dst, ty, ptr, align, align_meta } => if ty is PackedStruct {
            Err(packed_access())
        } else {
            match both(reg_of(c, dst@), operand_of(c, ptr, 64)) {
                Err(e) => Err(e),
                Ok((d, p)) => Ok(
                    InstView::Plain(
                        Inst::Load {
                            dst: d,
                            ty: type_of(ty),
                            ptr: p,
                            align: align_given(align, ty),
                        },
                    ),
                ),
            }
        },
        LInst::Store { ty, val, ptr, align } => if ty is PackedStruct {
            Err(packed_access())
        } else {
            match both(operand_of(c, ptr, 64), operand_of(c, val, width_of(ty))) {
                Err(e) => Err(e),
                Ok((p, v)) => Ok(
                    InstView::Plain(
                        Inst::Store {
                            ty: type_of(ty),
                            ptr: p,
                            value: v,
                            align: align_given(align, ty),
                        },
                    ),
                ),
            }
        },
        LInst::Gep { dst, elem, base, index } => match both(
            both(reg_of(c, dst@), operand_of(c, base, 64)),
            operand_of(c, index, 64),
        ) {
            Err(e) => Err(e),
            Ok(((d, b), i)) => Ok(
                InstView::Plain(
                    Inst::PtrOffset { dst: d, base: b, index: i, elem: type_of(elem) },
                ),
            ),
        },
        LInst::Bin { dst, op, ty, a, b } => match both(
            both(reg_of(c, dst@), operand_of(c, a, width_of(ty))),
            operand_of(c, b, width_of(ty)),
        ) {
            Err(e) => Err(e),
            Ok(((d, x), y)) => Ok(
                InstView::Plain(
                    Inst::Assign {
                        dst: d,
                        ty: type_of(ty),
                        value: RValue::Bin { op: bin_of(op), lhs: x, rhs: y },
                    },
                ),
            ),
        },
        LInst::Icmp { dst, pred, ty, a, b } => match both(
            both(reg_of(c, dst@), operand_of(c, a, width_of(ty))),
            operand_of(c, b, width_of(ty)),
        ) {
            Err(e) => Err(e),
            Ok(((d, x), y)) => Ok(
                InstView::Plain(
                    Inst::Assign {
                        dst: d,
                        ty: Type::Bool,
                        value: RValue::Cmp { op: pred_of(pred), lhs: x, rhs: y },
                    },
                ),
            ),
        },
        LInst::Cast { dst, op, val, to } => match both(
            reg_of(c, dst@),
            operand_of(c, val, 64),
        ) {
            Err(e) => Err(e),
            Ok((d, v)) => Ok(
                InstView::Plain(
                    Inst::Assign {
                        dst: d,
                        ty: type_of(to),
                        value: RValue::Cast { op: cast_of(op), operand: v, to: type_of(to) },
                    },
                ),
            ),
        },
        LInst::Select { dst, ty, cond, a, b } => match both(
            both(
                both(reg_of(c, dst@), operand_of(c, a, width_of(ty))),
                operand_of(c, b, width_of(ty)),
            ),
            operand_of(c, cond, 1),
        ) {
            Err(e) => Err(e),
            Ok((((d, x), y), k)) => Ok(
                InstView::Plain(
                    Inst::Assign {
                        dst: d,
                        ty: type_of(ty),
                        value: RValue::Select { cond: k, on_true: x, on_false: y },
                    },
                ),
            ),
        },
        LInst::Opaque { dst } => match reg_of(c, dst@) {
            Err(e) => Err(e),
            Ok(d) => Ok(unknown_in(d, Type::Int { bits: 64 })),
        },
        LInst::ExtractValue { dst, agg, index } => match reg_of(c, dst@) {
            Err(e) => Err(e),
            Ok(d) => match checked_of(c, agg, index) {
                Some((op, a, b)) => match both(operand_of(c, a, 64), operand_of(c, b, 64)) {
                    Err(e) => Err(e),
                    Ok((x, y)) => Ok(
                        InstView::Plain(
                            Inst::Assign {
                                dst: d,
                                ty: Type::Int { bits: 64 },
                                value: RValue::Bin { op, lhs: x, rhs: y },
                            },
                        ),
                    ),
                },
                None => Ok(unknown_in(d, Type::Int { bits: 64 })),
            },
        },
        LInst::Call { dst, ret, callee, args } => call_inst(c, dst, ret, callee, args@),
        _ => Err(
            ErrorView::Unsupported("multi-instruction lowering outside lower_block"@),
        ),
    }
}

/// The result as that of an instruction.
pub open spec fn inst_result(r: Result<Inst, Error>, s: Result<InstView, ErrorView>) -> bool {
    match r {
        Ok(i) => s == Ok::<InstView, ErrorView>(i@),
        Err(e) => s == Err::<InstView, ErrorView>(e@),
    }
}

fn undef_in(dst: RegId, ty: Type) -> (i: Inst)
    ensures
        i@ == unknown_in(dst, ty),
{
    Inst::Assign { dst, ty, value: RValue::Use(Operand::Const(Const::Undef)) }
}

fn opt_reg(ctx: &Ctx, dst: &Option<String>) -> (r: Result<Option<RegId>, Error>)
    ensures
        result_is(r, opt_reg_of(ctx@, *dst)),
{
    match dst {
        None => Ok(None),
        Some(d) => match ctx.reg(d) {
            Ok(r) => Ok(Some(r)),
            Err(e) => Err(e),
        },
    }
}

fn lower_call(
    ctx: &Ctx,
    dst: &Option<String>,
    ret: &LType,
    callee: &String,
    args: &Vec<LValue>,
) -> (r: Result<Inst, Error>)
    ensures
        inst_result(r, call_inst(ctx@, *dst, *ret, *callee, args@)),
{
    let d: Option<RegId> = match opt_reg(ctx, dst) {
        Ok(d) => d,
        Err(e) => {
            return Err(e);
        },
    };
    if overflow_intrinsic_op(callee).is_some() {
        if let Some(reg) = d {
            return Ok(undef_in(reg, Type::Int { bits: 64 }));
        }
    }
    if is_noop_intrinsic(callee) {
        return Ok(Inst::Intrinsic { dst: d, name: callee.clone() });
    }
    if let Some(kind) = mem_kind(callee) {
        if args.len() >= 3 {
            let to = match ctx.operand(&args[0], 64) {
                Ok(o) => o,
                Err(e) => {
                    return Err(e);
                },
            };
            let len = match ctx.operand(&args[2], 64) {
                Ok(o) => o,
                Err(e) => {
                    return Err(e);
                },
            };
            let copies: bool = match kind {
                MemKind::Copy => true,
                MemKind::Move => true,
                _ => false,
            };
            let src: Option<Operand> = if copies {
                match ctx.operand(&args[1], 64) {
                    Ok(o) => Some(o),
                    Err(e) => {
                        return Err(e);
                    },
                }
            } else {
                None
            };
            return Ok(Inst::MemIntrinsic { kind, dst: to, src, len });
        }
        let none: Vec<Operand> = Vec::new();
        assert(none@ =~= Seq::<Operand>::empty());
        return Ok(
            Inst::Call {
                dst: None,
                callee: Callee::Symbol(callee.clone()),
                args: none,
                ret_ty: Type::Unit,
                ret_ref: None,
            },
        );
    }
    match ctx.operands(args, 64) {
        Ok(ops) => Ok(
            Inst::Call {
                dst: d,
                callee: ctx.callee(callee),
                args: ops,
                ret_ty: lower_type(ret),
                ret_ref: None,
            },
        ),
        Err(e) => Err(e),
    }
}

fn lower_extract(ctx: &Ctx, dst: &String, agg: &LValue, index: u32) -> (r: Result<Inst, Error>)
    ensures
        inst_result(
            r,
            match reg_of(ctx@, dst@) {
                Err(e) => Err(e),
                Ok(d) => match checked_of(ctx@, *agg, index) {
                    Some((op, a, b)) => match both(
                        operand_of(ctx@, a, 64),
                        operand_of(ctx@, b, 64),
                    ) {
                        Err(e) => Err(e),
                        Ok((x, y)) => Ok(
                            InstView::Plain(
                                Inst::Assign {
                                    dst: d,
                                    ty: Type::Int { bits: 64 },
                                    value: RValue::Bin { op, lhs: x, rhs: y },
                                },
                            ),
                        ),
                    },
                    None => Ok(unknown_in(d, Type::Int { bits: 64 })),
                },
            },
        ),
{
    let d = match ctx.reg(dst) {
        Ok(d) => d,
        Err(e) => {
            return Err(e);
        },
    };
    let checked: Option<&(BinOp, LValue, LValue)> = match agg {
        LValue::Local(name) => if index == 0 {
            lookup(&ctx.checked, name)
        } else {
            None
        },
        _ => None,
    };
    match checked {
        Some(t) => {
            let x = match ctx.operand(&t.1, 64) {
                Ok(o) => o,
                Err(e) => {
                    return Err(e);
                },
            };
            let y = match ctx.operand(&t.2, 64) {
                Ok(o) => o,
                Err(e) => {
                    return Err(e);
                },
            };
            Ok(
                Inst::Assign {
                    dst: d,
                    ty: Type::Int { bits: 64 },
                    value: RValue::Bin { op: t.0, lhs: x, rhs: y },
                },
            )
        },
        None => Ok(undef_in(d, Type::Int { bits: 64 })),
    }
}

/// The register and the operand, or the first error.
fn reg_and(ctx: &Ctx, dst: &String, v: &LValue, width: u32) -> (r: Result<(RegId, Operand), Error>)
    ensures
        result_is(r, both(reg_of(ctx@, dst@), operand_of(ctx@, *v, width))),
{
    match ctx.reg(dst) {
        Ok(d) => match ctx.operand(v, width) {
            Ok(o) => Ok((d, o)),
            Err(e) => Err(e),
        },
        Err(e) => Err(e),
    }
}

/// The register and both operands, or the first error.
fn reg_and_two(
    ctx: &Ctx,
    dst: &String,
    a: &LValue,
    b: &LValue,
    width: u32,
) -> (r: Result<((RegId, Operand), Operand), Error>)
    ensures
        result_is(
            r,
            both(
                both(reg_of(ctx@, dst@), operand_of(ctx@, *a, width)),
                operand_of(ctx@, *b, width),
            ),
        ),
{
    match reg_and(ctx, dst, a, width) {
        Ok(p) => match ctx.operand(b, width) {
            Ok(o) => Ok((p, o)),
            Err(e) => Err(e),
        },
        Err(e) => Err(e),
    }
}

/// Lower an instruction that becomes a single one.
pub fn lower_inst(ctx: &Ctx, inst: &LInst) -> (r: Result<Inst, Error>)
    ensures
        inst_result(r, inst_of(ctx@, *inst)),
{
    match inst {
        LInst::Alloca { dst, ty, align } => match ctx.reg(dst) {
            Err(e) => Err(e),
            Ok(d) => Ok(
                Inst::Alloc {
                    dst: d,
                    region: RegionKind::Stack,
                    elem: lower_type(ty),
                    count: Operand::integer(64, 1),
                    align: align_or(*align, ty),
                },
            ),
        },
        LInst::Load { dst, ty, ptr, align, .. } => {
            if let LType::PackedStruct(_) = ty {
                return Err(Error::unsupported("access to a packed struct as a whole"));
            }
            match reg_and(ctx, dst, ptr, 64) {
                Err(e) => Err(e),
                Ok((d, p)) => Ok(
                    Inst::Load { dst: d, ty: lower_type(ty), ptr: p, align: align_or(*align, ty) },
                ),
            }
        },
        LInst::Store { ty, val, ptr, align } => {
            if let LType::PackedStruct(_) = ty {
                return Err(Error::unsupported("access to a packed struct as a whole"));
            }
            match ctx.operand(ptr, 64) {
                Err(e) => Err(e),
                Ok(p) => match ctx.operand(val, type_width(ty)) {
                    Err(e) => Err(e),
                    Ok(v) => Ok(
                        Inst::Store {
                            ty: lower_type(ty),
                            ptr: p,
                            value: v,
                            align: align_or(*align, ty),
                        },
                    ),
                },
            }
        },
        LInst::Gep { dst, elem, base, index } => match reg_and_two(ctx, dst, base, index, 64) {
            Err(e) => Err(e),
            Ok(((d, b), i)) => Ok(
                Inst::PtrOffset { dst: d, base: b, index: i, elem: lower_type(elem) },
            ),
        },
        LInst::Bin { dst, op, ty, a, b } => match reg_and_two(ctx, dst, a, b, type_width(ty)) {
            Err(e) => Err(e),
            Ok(((d, x), y)) => Ok(
                Inst::Assign {
                    dst: d,
                    ty: lower_type(ty),
                    value: RValue::Bin { op: lower_bin(*op), lhs: x, rhs: y },
                },
            ),
        },
        LInst::Icmp { dst, pred, ty, a, b } => match reg_and_two(ctx, dst, a, b, type_width(ty)) {
            Err(e) => Err(e),
            Ok(((d, x), y)) => Ok(
                Inst::Assign {
                    dst: d,
                    ty: Type::Bool,
                    value: RValue::Cmp { op: lower_pred(*pred), lhs: x, rhs: y },
                },
            ),
        },
        LInst::Cast { dst, op, val, to } => match reg_and(ctx, dst, val, 64) {
            Err(e) => Err(e),
            Ok((d, v)) => Ok(
                Inst::Assign {
                    dst: d,
                    ty: lower_type(to),
                    value: RValue::Cast { op: lower_cast(*op), operand: v, to: lower_type(to) },
                },
            ),
        },
        LInst::Select { dst, ty, cond, a, b } => match reg_and_two(
            ctx,
            dst,
            a,
            b,
            type_width(ty),
        ) {
            Err(e) => Err(e),
            Ok(((d, x), y)) => match ctx.operand(cond, 1) {
                Err(e) => Err(e),
                Ok(k) => Ok(
                    Inst::Assign {
                        dst: d,
                        ty: lower_type(ty),
                        value: RValue::Select { cond: k, on_true: x, on_false: y },
                    },
                ),
            },
        },
        LInst::Opaque { dst } => match ctx.reg(dst) {
            Err(e) => Err(e),
            Ok(d) => Ok(undef_in(d, Type::Int { bits: 64 })),
        },
        LInst::ExtractValue { dst, agg, index } => lower_extract(ctx, dst, agg, *index),
        LInst::Call { dst, ret, callee, args } => lower_call(ctx, dst, ret, callee, args),
        _ => Err(Error::unsupported("multi-instruction lowering outside lower_block")),
    }
}

// ---- branches ----

/// The first block with a label.
pub open spec fn labelled(blocks: Seq<LBlock>, label: Seq<char>) -> Option<LBlock>
    decreases blocks.len(),
{
    if blocks.len() == 0 {
        None
    } else if blocks[0].label@ == label {
        Some(blocks[0])
    } else {
        labelled(blocks.subrange(1, blocks.len() as int), label)
    }
}

/// The first value that comes from a block.
pub open spec fn incoming(ins: Seq<(LValue, String)>, pred: Seq<char>) -> Option<LValue>
    decreases ins.len(),
{
    if ins.len() == 0 {
        None
    } else if ins[0].1@ == pred {
        Some(ins[0].0)
    } else {
        incoming(ins.subrange(1, ins.len() as int), pred)
    }
}

/// The message for a phi node without a value for its predecessor.
pub open spec fn no_incoming(dst: Seq<char>, pred: Seq<char>) -> ErrorView {
    ErrorView::Parse("phi %"@ + dst + " has no incoming value for predecessor %"@ + pred)
}

/// What the phi nodes take over the edge from `pred`.
pub open spec fn phi_args(c: CtxView, phis: Seq<LPhi>, pred: Seq<char>) -> Result<
    Seq<Operand>,
    ErrorView,
>
    decreases phis.len(),
{
    if phis.len() == 0 {
        Ok(Seq::empty())
    } else {
        match phi_args(c, phis.drop_last(), pred) {
            Err(e) => Err(e),
            Ok(s) => match incoming(phis.last().incomings@, pred) {
                None => Err(no_incoming(phis.last().dst@, pred)),
                Some(v) => match operand_of(c, v, width_of(phis.last().ty)) {
                    Err(e) => Err(e),
                    Ok(o) => Ok(s.push(o)),
                },
            },
        }
    }
}

/// The arguments along the edge from `pred` to `to`.
pub open spec fn edge_args(c: CtxView, pred: Seq<char>, to: Seq<char>) -> Result<
    Seq<Operand>,
    ErrorView,
> {
    match labelled(c.func.blocks@, to) {
        None => Err(ErrorView::Parse("unknown block %"@ + to)),
        Some(b) => phi_args(c, b.phis@, pred),
    }
}

fn find_block<'a>(blocks: &'a Vec<LBlock>, label: &String) -> (r: Option<&'a LBlock>)
    ensures
        match r {
            Some(b) => labelled(blocks@, label@) == Some(*b),
            None => labelled(blocks@, label@) is None,
        },
{
    let mut k: usize = 0;
    assert(blocks@.subrange(0, blocks@.len() as int) =~= blocks@);
    while k < blocks.len()
        invariant
            k <= blocks@.len(),
            labelled(blocks@, label@) == labelled(
                blocks@.subrange(k as int, blocks@.len() as int),
                label@,
            ),
        decreases blocks@.len() - k,
    {
        let ghost rest = blocks@.subrange(k as int, blocks@.len() as int);
        assert(rest.subrange(1, rest.len() as int) =~= blocks@.subrange(
            k + 1,
            blocks@.len() as int,
        ));
        if blocks[k].label == *label {
            return Some(&blocks[k]);
        }
        k += 1;
    }
    None
}

fn find_incoming<'a>(ins: &'a Vec<(LValue, String)>, pred: &String) -> (r: Option<&'a LValue>)
    ensures
        match r {
            Some(v) => incoming(ins@, pred@) == Some(*v),
            None => incoming(ins@, pred@) is None,
        },
{
    let mut k: usize = 0;
    assert(ins@.subrange(0, ins@.len() as int) =~= ins@);
    while k < ins.len()
        invariant
            k <= ins@.len(),
            incoming(ins@, pred@) == incoming(
                ins@.subrange(k as int, ins@.len() as int),
                pred@,
            ),
        decreases ins@.len() - k,
    {
        let ghost rest = ins@.subrange(k as int, ins@.len() as int);
        assert(rest.subrange(1, rest.len() as int) =~= ins@.subrange(k + 1, ins@.len() as int));
        if ins[k].1 == *pred {
            return Some(&ins[k].0);
        }
        k += 1;
    }
    None
}

/// A list of operands as the specified result.
pub open spec fn list_result(
    r: Result<Vec<Operand>, Error>,
    s: Result<Seq<Operand>, ErrorView>,
) -> bool {
    match r {
        Ok(v) => s == Ok::<Seq<Operand>, ErrorView>(v@),
        Err(e) => s == Err::<Seq<Operand>, ErrorView>(e@),
    }
}

/// The arguments to pass along the edge from `pred` to `to`.
pub fn branch_args(ctx: &Ctx, pred: &String, to: &String) -> (r: Result<Vec<Operand>, Error>)
    ensures
        list_result(r, edge_args(ctx@, pred@, to@)),
{
    match find_block(&ctx.func.blocks, to) {
        None => Err(Error::Parse(joined("unknown block %", to.as_str()))),
        Some(b) => {
            let phis = &b.phis;
            let mut out: Vec<Operand> = Vec::new();
            let mut k: usize = 0;
            assert(phis@.take(0) =~= Seq::<LPhi>::empty());
            assert(out@ =~= Seq::<Operand>::empty());
            while k < phis.len()
                invariant
                    k <= phis@.len(),
                    phis@ == b.phis@,
                    edge_args(ctx@, pred@, to@) == phi_args(ctx@, b.phis@, pred@),
                    phi_args(ctx@, phis@.take(k as int), pred@) == Ok::<Seq<Operand>, ErrorView>(
                        out@,
                    ),
                decreases phis@.len() - k,
            {
                let phi = &phis[k];
                assert(phis@.take(k + 1).drop_last() =~= phis@.take(k as int));
                assert(phis@.take(k + 1).last() == phis@[k as int]);
                match find_incoming(&phi.incomings, pred) {
                    None => {
                        let head = joined("phi %", phi.dst.as_str());
                        let mid = joined(
                            head.as_str(),
                            " has no incoming value for predecessor %",
                        );
                        let e = Error::Parse(joined(mid.as_str(), pred.as_str()));
                        proof {
                            lemma_phi_stop(ctx@, phis@, pred@, k + 1);
                        }
                        return Err(e);
                    },
                    Some(v) => match ctx.operand(v, type_width(&phi.ty)) {
                        Err(e) => {
                            proof {
                                lemma_phi_stop(ctx@, phis@, pred@, k + 1);
                            }
                            return Err(e);
                        },
                        Ok(o) => {
                            out.push(o);
                        },
                    },
                }
                k += 1;
            }
            assert(phis@.take(phis@.len() as int) =~= phis@);
            Ok(out)
        },
    }
}

proof fn lemma_phi_stop(c: CtxView, phis: Seq<LPhi>, pred: Seq<char>, k: int)
    requires
        0 <= k <= phis.len(),
        phi_args(c, phis.take(k), pred) is Err,
    ensures
        phi_args(c, phis, pred) == phi_args(c, phis.take(k), pred),
    decreases phis.len(),
{
    if k == phis.len() {
        assert(phis.take(k) =~= phis);
    } else {
        assert(phis.drop_last().take(k) =~= phis.take(k));
        lemma_phi_stop(c, phis.drop_last(), pred, k);
    }
}

/// The cases of a switch, or the first unknown block.
pub open spec fn switch_cases(c: CtxView, cases: Seq<(i128, String)>, width: u32) -> Result<
    Seq<(BitVector, BlockId)>,
    ErrorView,
>
    decreases cases.len(),
{
    if cases.len() == 0 {
        Ok(Seq::empty())
    } else {
        match both(
            switch_cases(c, cases.drop_last(), width),
            block_of(c, cases.last().1@),
        ) {
            Err(e) => Err(e),
            Ok((s, b)) => Ok(
                s.push(
                    (
                        BitVector {
                            width,
                            bits: crate::ir::low_bits(width, to_bits(cases.last().0)),
                        },
                        b,
                    ),
                ),
            ),
        }
    }
}

/// How a block ends, for a terminator that adds no instruction.
pub open spec fn term_of(c: CtxView, label: Seq<char>, term: LTerm) -> Result<TermView, ErrorView> {
    match term {
        LTerm::Ret(None) => Ok(TermView::Return(None)),
        LTerm::Ret(Some(v)) => match operand_of(c, v, 64) {
            Err(e) => Err(e),
            Ok(o) => Ok(TermView::Return(Some(o))),
        },
        LTerm::Br(to) => match both(block_of(c, to@), edge_args(c, label, to@)) {
            Err(e) => Err(e),
            Ok((b, a)) => Ok(TermView::Br { target: b, args: a }),
        },
        LTerm::CondBr(cond, t, f) => match both(
            both(
                both(both(operand_of(c, cond, 1), block_of(c, t@)), edge_args(c, label, t@)),
                block_of(c, f@),
            ),
            edge_args(c, label, f@),
        ) {
            Err(e) => Err(e),
            Ok(((((o, tb), ta), fb), fa)) => Ok(
                TermView::CondBr {
                    cond: o,
                    then_blk: tb,
                    then_args: ta,
                    else_blk: fb,
                    else_args: fa,
                },
            ),
        },
        LTerm::Switch { value, width, default, cases } => match both(
            both(switch_cases(c, cases@, width), operand_of(c, value, width)),
            block_of(c, default@),
        ) {
            Err(e) => Err(e),
            Ok(((cs, v), d)) => Ok(TermView::Switch { value: v, cases: cs, default: d }),
        },
        _ => Ok(TermView::Unreachable),
    }
}

/// The result as that of a terminator.
pub open spec fn term_result(r: Result<Terminator, Error>, s: Result<TermView, ErrorView>) -> bool {
    match r {
        Ok(t) => s == Ok::<TermView, ErrorView>(t@),
        Err(e) => s == Err::<TermView, ErrorView>(e@),
    }
}

proof fn lemma_cases_stop(c: CtxView, cases: Seq<(i128, String)>, width: u32, k: int)
    requires
        0 <= k <= cases.len(),
        switch_cases(c, cases.take(k), width) is Err,
    ensures
        switch_cases(c, cases, width) == switch_cases(c, cases.take(k), width),
    decreases cases.len(),
{
    if k == cases.len() {
        assert(cases.take(k) =~= cases);
    } else {
        assert(cases.drop_last().take(k) =~= cases.take(k));
        lemma_cases_stop(c, cases.drop_last(), width, k);
    }
}

fn lower_cases(ctx: &Ctx, cases: &Vec<(i128, String)>, width: u32) -> (r: Result<
    Vec<(BitVector, BlockId)>,
    Error,
>)
    ensures
        match r {
            Ok(v) => switch_cases(ctx@, cases@, width) == Ok::<
                Seq<(BitVector, BlockId)>,
                ErrorView,
            >(v@),
            Err(e) => switch_cases(ctx@, cases@, width) == Err::<
                Seq<(BitVector, BlockId)>,
                ErrorView,
            >(e@),
        },
{
    let mut out: Vec<(BitVector, BlockId)> = Vec::new();
    let mut k: usize = 0;
    assert(cases@.take(0) =~= Seq::<(i128, String)>::empty());
    assert(out@ =~= Seq::<(BitVector, BlockId)>::empty());
    while k < cases.len()
        invariant
            k <= cases@.len(),
            switch_cases(ctx@, cases@.take(k as int), width) == Ok::<
                Seq<(BitVector, BlockId)>,
                ErrorView,
            >(out@),
        decreases cases@.len() - k,
    {
        assert(cases@.take(k + 1).drop_last() =~= cases@.take(k as int));
        assert(cases@.take(k + 1).last() == cases@[k as int]);
        match ctx.block(&cases[k].1) {
            Ok(b) => {
                out.push((BitVector::new(width, bits_of(cases[k].0)), b));
            },
            Err(e) => {
                proof {
                    lemma_cases_stop(ctx@, cases@, width, k + 1);
                }
                return Err(e);
            },
        }
        k += 1;
    }
    assert(cases@.take(cases@.len() as int) =~= cases@);
    Ok(out)
}

/// Lower a terminator that adds no instruction.
pub fn lower_term(ctx: &Ctx, label: &String, term: &LTerm) -> (r: Result<Terminator, Error>)
    ensures
        term_result(r, term_of(ctx@, label@, *term)),
{
    match term {
        LTerm::Ret(v) => match v {
            None => Ok(Terminator::Return(None)),
            Some(v) => match ctx.operand(v, 64) {
                Err(e) => Err(e),
                Ok(o) => Ok(Terminator::Return(Some(o))),
            },
        },
        LTerm::Br(to) => match ctx.block(to) {
            Err(e) => Err(e),
            Ok(b) => match branch_args(ctx, label, to) {
                Err(e) => Err(e),
                Ok(a) => Ok(Terminator::Br { target: b, args: a }),
            },
        },
        LTerm::CondBr(cond, t, f) => {
            let o = match ctx.operand(cond, 1) {
                Ok(o) => o,
                Err(e) => {
                    return Err(e);
                },
            };
            let tb = match ctx.block(t) {
                Ok(b) => b,
                Err(e) => {
                    return Err(e);
                },
            };
            let ta = match branch_args(ctx, label, t) {
                Ok(a) => a,
                Err(e) => {
                    return Err(e);
                },
            };
            let fb = match ctx.block(f) {
                Ok(b) => b,
                Err(e) => {
                    return Err(e);
                },
            };
            let fa = match branch_args(ctx, label, f) {
                Ok(a) => a,
                Err(e) => {
                    return Err(e);
                },
            };
            Ok(
                Terminator::CondBr {
                    cond: o,
                    then_blk: tb,
                    then_args: ta,
                    else_blk: fb,
                    else_args: fa,
                },
            )
        },
        LTerm::Switch { value, width, default, cases } => {
            let cs = match lower_cases(ctx, cases, *width) {
                Ok(c) => c,
                Err(e) => {
                    return Err(e);
                },
            };
            let v = match ctx.operand(value, *width) {
                Ok(o) => o,
                Err(e) => {
                    return Err(e);
                },
            };
            match ctx.block(default) {
                Ok(d) => Ok(Terminator::Switch { value: v, cases: cs, default: d }),
                Err(e) => Err(e),
            }
        },
        _ => Ok(Terminator::Unreachable),
    }
}

} // verus!
