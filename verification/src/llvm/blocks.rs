//! Lowering blocks: instructions that become several, and terminators that add one.

use crate::error::{Error, ErrorView};
use crate::ir::{
    align_of, field_offset, field_type, int_operand, inst_views, size_of_type, BasicBlock, BinOp,
    BitVector, BlockId, BlockView, Callee, CalleeView, Const, Inst, InstView, MemKind, Operand,
    RValue, RegId, RegionKind, TermView, Terminator, Type,
};
use crate::llvm::ast::{LBlock, LInst, LPhi, LTerm, LType, LValue};
use crate::llvm::calls::{
    alloc_size, alloc_size_of, dealloc_arg, dealloc_ptr_arg, helper_barrier, ordering_of,
    user_copy_arg, user_copy_kernel_arg, AllocSize,
};
use crate::llvm::insts::{
    branch_args, edge_args, inst_of, labelled, lower_inst, lower_term, opt_reg_of, phi_args,
    term_of, unknown, unknown_in,
};
use crate::llvm::lower::{
    block_of, both, callee_of, low_half, lower_type, operand_of, operands_of, reg_of, result_is,
    type_of, Ctx, CtxView,
};
use crate::names::{entry, lookup};
use vstd::prelude::*;

verus! {

/// The context with `k` more registers used.
pub open spec fn used(c: CtxView, k: int) -> CtxView {
    CtxView { next: c.next + k, ..c }
}

/// The register at a position.
pub open spec fn reg_at(n: int) -> RegId {
    RegId(n as u32)
}

/// An unsupported construct.
pub open spec fn refused<T>(message: Seq<char>) -> Result<T, ErrorView> {
    Err(ErrorView::Unsupported(message))
}

// ---- walks through aggregates ----

/// A walk in progress: the pointer so far, the type that it points to, the constant
/// offset not yet added, the context and the instructions.
pub struct Walk {
    pub cur: RegId,
    pub ty: Type,
    pub acc: u64,
    pub ctx: CtxView,
    pub out: Seq<InstView>,
}

/// A constant index.
pub open spec fn constant_index(v: LValue) -> Option<u64> {
    match v {
        LValue::Int(k) => if 0 <= k <= u64::MAX {
            Some(k as u64)
        } else {
            None
        },
        _ => None,
    }
}

/// A pointer offset by a number of bytes.
pub open spec fn byte_offset(dst: RegId, base: RegId, off: u64) -> InstView {
    InstView::Plain(
        Inst::PtrOffset {
            dst,
            base: Operand::Reg(base),
            index: int_operand(64, off as u128),
            elem: Type::Int { bits: 8 },
        },
    )
}

/// The sum, where it fits.
pub open spec fn fitting_sum(a: u64, b: int) -> Option<u64> {
    if a + b <= u64::MAX {
        Some((a + b) as u64)
    } else {
        None
    }
}

/// One step of a walk: into a struct field, to a constant element, or to a variable one.
pub open spec fn walk_step(w: Walk, idx: LValue) -> Result<Walk, ErrorView> {
    match w.ty {
        Type::Struct { fields, packed } => match constant_index(idx) {
            None => refused("variable struct-field gep index"@),
            Some(k) => match field_offset(w.ty, low_half(k)) {
                None => refused("struct-field gep with an unsizable offset"@),
                Some(off) => match fitting_sum(w.acc, off as int) {
                    None => refused("gep offset overflow"@),
                    Some(acc) => match field_type(fields, k as nat) {
                        None => refused("struct-field gep index out of range"@),
                        Some(ty) => Ok(Walk { ty, acc, ..w }),
                    },
                },
            },
        },
        Type::Array { elem, len } => match constant_index(idx) {
            Some(k) => if size_of_type(*elem) > u64::MAX {
                refused("array gep with an unsizable elem"@)
            } else {
                let scaled = if k * size_of_type(*elem) > u64::MAX {
                    u64::MAX as int
                } else {
                    k * size_of_type(*elem)
                };
                match fitting_sum(w.acc, scaled) {
                    None => refused("gep offset overflow"@),
                    Some(acc) => Ok(Walk { ty: *elem, acc, ..w }),
                }
            },
            None => {
                let flushed = if w.acc > 0 {
                    Walk {
                        cur: reg_at(w.ctx.next),
                        acc: 0,
                        ctx: used(w.ctx, 1),
                        out: w.out.push(byte_offset(reg_at(w.ctx.next), w.cur, w.acc)),
                        ..w
                    }
                } else {
                    w
                };
                match operand_of(used(flushed.ctx, 1), idx, 64) {
                    Err(e) => Err(e),
                    Ok(o) => Ok(
                        Walk {
                            cur: reg_at(flushed.ctx.next),
                            ty: *elem,
                            ctx: used(flushed.ctx, 1),
                            out: flushed.out.push(
                                InstView::Plain(
                                    Inst::PtrOffset {
                                        dst: reg_at(flushed.ctx.next),
                                        base: Operand::Reg(flushed.cur),
                                        index: o,
                                        elem: *elem,
                                    },
                                ),
                            ),
                            ..flushed
                        },
                    ),
                }
            },
        },
        _ => refused("gep navigation into a non-aggregate"@),
    }
}

/// The steps of a walk.
pub open spec fn walk_steps(w: Walk, path: Seq<LValue>) -> Result<Walk, ErrorView>
    decreases path.len(),
{
    if path.len() == 0 {
        Ok(w)
    } else {
        match walk_steps(w, path.drop_last()) {
            Err(e) => Err(e),
            Ok(x) => walk_step(x, path.last()),
        }
    }
}

/// What lowering produces: the context after it and the instructions.
pub type Lowered = (CtxView, Seq<InstView>);

/// What a walk through an aggregate becomes: an offset by whole aggregates, one for each
/// variable element, and the rest as one constant offset into the destination.
pub open spec fn chain_of(
    c: CtxView,
    dst: Seq<char>,
    agg: Type,
    base: LValue,
    indices: Seq<LValue>,
) -> Result<Lowered, ErrorView> {
    let c1 = used(c, 1);
    match both(operand_of(c1, base, 64), operand_of(c1, indices[0], 64)) {
        Err(e) => Err(e),
        Ok((b, i)) => {
            let first = InstView::Plain(
                Inst::PtrOffset { dst: reg_at(c.next), base: b, index: i, elem: agg },
            );
            let start = Walk {
                cur: reg_at(c.next),
                ty: agg,
                acc: 0,
                ctx: c1,
                out: seq![first],
            };
            match walk_steps(start, indices.subrange(1, indices.len() as int)) {
                Err(e) => Err(e),
                Ok(w) => match reg_of(w.ctx, dst) {
                    Err(e) => Err(e),
                    Ok(d) => Ok((w.ctx, w.out.push(byte_offset(d, w.cur, w.acc)))),
                },
            }
        },
    }
}

/// The value of a constant index.
pub fn const_index(v: &LValue) -> (r: Option<u64>)
    ensures
        r == constant_index(*v),
{
    match v {
        LValue::Int(k) => if 0 <= *k && *k <= 0xffff_ffff_ffff_ffff {
            Some(*k as u64)
        } else {
            None
        },
        _ => None,
    }
}

fn offset_inst(dst: RegId, base: RegId, off: u64) -> (i: Inst)
    ensures
        i@ == byte_offset(dst, base, off),
{
    Inst::PtrOffset {
        dst,
        base: Operand::Reg(base),
        index: Operand::integer(64, off as u128),
        elem: Type::Int { bits: 8 },
    }
}

proof fn lemma_views_push(s: Seq<Inst>, i: Inst)
    ensures
        inst_views(s.push(i)) == inst_views(s).push(i@),
{
    assert(inst_views(s.push(i)) =~= inst_views(s).push(i@));
}

/// Append an instruction, keeping track of the contents.
fn emit(out: &mut Vec<Inst>, i: Inst)
    ensures
        inst_views(final(out)@) == inst_views(old(out)@).push(i@),
{
    proof {
        lemma_views_push(out@, i);
    }
    out.push(i);
}

/// One step of a walk. The registers used are two at most.
fn step(
    ctx: &mut Ctx,
    cur: &mut RegId,
    ty: Type,
    acc: &mut u64,
    out: &mut Vec<Inst>,
    idx: &LValue,
) -> (r: Result<Type, Error>)
    requires
        old(ctx).next_reg + 2 <= u32::MAX,
    ensures
        final(ctx).next_reg <= old(ctx).next_reg + 2,
        ({
            let w = Walk {
                cur: *old(cur),
                ty,
                acc: *old(acc),
                ctx: old(ctx)@,
                out: inst_views(old(out)@),
            };
            match r {
                Err(e) => walk_step(w, *idx) == Err::<Walk, ErrorView>(e@),
                Ok(t) => walk_step(w, *idx) == Ok::<Walk, ErrorView>(
                    Walk {
                        cur: *final(cur),
                        ty: t,
                        acc: *final(acc),
                        ctx: final(ctx)@,
                        out: inst_views(final(out)@),
                    },
                ),
            }
        }),
{
    match &ty {
        Type::Struct { fields, .. } => {
            let k = match const_index(idx) {
                Some(k) => k,
                None => {
                    return Err(Error::unsupported("variable struct-field gep index"));
                },
            };
            let off = match ty.struct_field_offset((k % 0x1_0000_0000) as u32) {
                Some(o) => o,
                None => {
                    return Err(Error::unsupported("struct-field gep with an unsizable offset"));
                },
            };
            let sum = match (*acc).checked_add(off) {
                Some(s) => s,
                None => {
                    return Err(Error::unsupported("gep offset overflow"));
                },
            };
            match fields.get(k) {
                Some(t) => {
                    *acc = sum;
                    Ok(t)
                },
                None => Err(Error::unsupported("struct-field gep index out of range")),
            }
        },
        Type::Array { elem, .. } => {
            match const_index(idx) {
                Some(k) => {
                    let size = match elem.size_bytes() {
                        Some(s) => s,
                        None => {
                            return Err(Error::unsupported("array gep with an unsizable elem"));
                        },
                    };
                    let scaled: u64 = match k.checked_mul(size) {
                        Some(x) => x,
                        None => u64::MAX,
                    };
                    match (*acc).checked_add(scaled) {
                        Some(s) => {
                            *acc = s;
                        },
                        None => {
                            return Err(Error::unsupported("gep offset overflow"));
                        },
                    }
                },
                None => {
                    if *acc > 0 {
                        let n = ctx.fresh();
                        emit(out, offset_inst(n, *cur, *acc));
                        *cur = n;
                        *acc = 0;
                    }
                    let n = ctx.fresh();
                    match ctx.operand(idx, 64) {
                        Err(e) => {
                            return Err(e);
                        },
                        Ok(o) => {
                            emit(
                                out,
                                Inst::PtrOffset {
                                    dst: n,
                                    base: Operand::Reg(*cur),
                                    index: o,
                                    elem: elem.copy(),
                                },
                            );
                        },
                    }
                    *cur = n;
                },
            }
            Ok(elem.copy())
        },
        _ => Err(Error::unsupported("gep navigation into a non-aggregate")),
    }
}

/// Instructions as the specified result, in the context after them.
pub open spec fn lowered_result(
    r: Result<(), Error>,
    out: Seq<InstView>,
    c: CtxView,
    before: Seq<InstView>,
    s: Result<Lowered, ErrorView>,
) -> bool {
    match r {
        Err(e) => s == Err::<Lowered, ErrorView>(e@),
        Ok(_) => match s {
            Ok((c2, insts)) => c == c2 && out == before + insts,
            Err(_) => false,
        },
    }
}

proof fn lemma_walk_stop(w: Walk, path: Seq<LValue>, k: int)
    requires
        0 <= k <= path.len(),
        walk_steps(w, path.take(k)) is Err,
    ensures
        walk_steps(w, path) == walk_steps(w, path.take(k)),
    decreases path.len(),
{
    if k == path.len() {
        assert(path.take(k) =~= path);
    } else {
        assert(path.drop_last().take(k) =~= path.take(k));
        lemma_walk_stop(w, path.drop_last(), k);
    }
}

/// Lower a walk through an aggregate. The registers used are at most one more than twice
/// the number of indices.
pub fn lower_gep_chain(
    ctx: &mut Ctx,
    dst: &String,
    agg: Type,
    base: &LValue,
    indices: &Vec<LValue>,
    sink: &mut Vec<Inst>,
) -> (r: Result<(), Error>)
    requires
        indices@.len() > 0,
        old(ctx).next_reg + 1 + 2 * indices@.len() <= u32::MAX,
    ensures
        final(ctx).next_reg <= old(ctx).next_reg + 1 + 2 * indices@.len(),
        lowered_result(
            r,
            inst_views(final(sink)@),
            final(ctx)@,
            inst_views(old(sink)@),
            chain_of(old(ctx)@, dst@, agg, *base, indices@),
        ),
{
    let ghost start = ctx@;
    let mut cur = ctx.fresh();
    let b = match ctx.operand(base, 64) {
        Ok(o) => o,
        Err(e) => {
            return Err(e);
        },
    };
    let i = match ctx.operand(&indices[0], 64) {
        Ok(o) => o,
        Err(e) => {
            return Err(e);
        },
    };
    let mut out: Vec<Inst> = Vec::new();
    let first = Inst::PtrOffset { dst: cur, base: b, index: i, elem: agg.copy() };
    let ghost fv = first@;
    emit(&mut out, first);
    let mut ty = agg;
    let mut acc: u64 = 0;
    let ghost path = indices@.subrange(1, indices@.len() as int);
    let ghost w0 = Walk { cur, ty, acc, ctx: ctx@, out: inst_views(out@) };
    assert(inst_views(out@) =~= seq![fv]);
    assert(path.take(0) =~= Seq::<LValue>::empty());
    let mut k: usize = 1;
    while k < indices.len()
        invariant
            1 <= k <= indices@.len(),
            path == indices@.subrange(1, indices@.len() as int),
            start == old(ctx)@,
            w0.ty == agg,
            chain_of(start, dst@, w0.ty, *base, indices@) == match walk_steps(w0, path) {
                Err(e) => Err::<Lowered, ErrorView>(e),
                Ok(w) => match reg_of(w.ctx, dst@) {
                    Err(e) => Err(e),
                    Ok(d) => Ok((w.ctx, w.out.push(byte_offset(d, w.cur, w.acc)))),
                },
            },
            walk_steps(w0, path.take(k - 1)) == Ok::<Walk, ErrorView>(
                Walk { cur, ty, acc, ctx: ctx@, out: inst_views(out@) },
            ),
            ctx.next_reg <= old(ctx).next_reg + 1 + 2 * (k - 1),
            old(ctx).next_reg + 1 + 2 * indices@.len() <= u32::MAX,
            *sink == *old(sink),
        decreases indices@.len() - k,
    {
        assert(path.take(k as int).drop_last() =~= path.take(k - 1));
        assert(path.take(k as int).last() == indices@[k as int]);
        match step(ctx, &mut cur, ty, &mut acc, &mut out, &indices[k]) {
            Ok(t) => {
                ty = t;
            },
            Err(e) => {
                proof {
                    lemma_walk_stop(w0, path, k as int);
                }
                return Err(e);
            },
        }
        k += 1;
    }
    assert(path.take(path.len() as int) =~= path);
    match ctx.reg(dst) {
        Err(e) => Err(e),
        Ok(d) => {
            emit(&mut out, offset_inst(d, cur, acc));
            let ghost ov = inst_views(out@);
            let ghost sv = sink@;
            sink.append(&mut out);
            assert(inst_views(sink@) =~= inst_views(sv) + ov);
            Ok(())
        },
    }
}

// ---- instructions that become several ----

/// What an atomic read-modify-write becomes: a load of the old value and a store of an
/// unknown one; a tuple result is unknown.
pub open spec fn atomic_of(
    c: CtxView,
    dst: Seq<char>,
    ty: LType,
    ptr: LValue,
    tuple: bool,
) -> Result<Lowered, ErrorView> {
    let t = type_of(ty);
    let align = low_half(align_of(t) as u64);
    let c1 = if tuple {
        used(c, 1)
    } else {
        c
    };
    let old_dst = if tuple {
        Ok::<RegId, ErrorView>(reg_at(c.next))
    } else {
        reg_of(c, dst)
    };
    match both(old_dst, operand_of(c1, ptr, 64)) {
        Err(e) => Err(e),
        Ok((d, p)) => {
            let two = seq![
                InstView::Plain(Inst::Load { dst: d, ty: t, ptr: p, align }),
                InstView::Plain(Inst::Store { ty: t, ptr: p, value: unknown(), align }),
            ];
            if tuple {
                match reg_of(c1, dst) {
                    Err(e) => Err(e),
                    Ok(r) => Ok((c1, two.push(unknown_in(r, Type::Int { bits: 64 })))),
                }
            } else {
                Ok((c1, two))
            }
        },
    }
}

/// What an offset into a struct field becomes: an offset by whole structs, and one by the
/// field's bytes.
pub open spec fn field_of(
    c: CtxView,
    dst: Seq<char>,
    struct_ty: LType,
    base: LValue,
    index: LValue,
    field: u32,
) -> Result<Lowered, ErrorView> {
    let t = type_of(struct_ty);
    match field_offset(t, field) {
        None => refused("struct-field gep with an unsizable field offset"@),
        Some(off) => {
            let c1 = used(c, 1);
            match both(
                both(operand_of(c1, base, 64), operand_of(c1, index, 64)),
                reg_of(c1, dst),
            ) {
                Err(e) => Err(e),
                Ok(((b, i), d)) => Ok(
                    (
                        c1,
                        seq![
                            InstView::Plain(
                                Inst::PtrOffset {
                                    dst: reg_at(c.next),
                                    base: b,
                                    index: i,
                                    elem: t,
                                },
                            ),
                            byte_offset(d, reg_at(c.next), off),
                        ],
                    ),
                ),
            }
        },
    }
}

/// A single instruction.
pub open spec fn single(c: CtxView, r: Result<InstView, ErrorView>) -> Result<Lowered, ErrorView> {
    match r {
        Err(e) => Err(e),
        Ok(i) => Ok((c, seq![i])),
    }
}

/// A load, followed by a witness where it reads a valid reference.
pub open spec fn load_of(
    c: CtxView,
    inst: LInst,
    dst: Seq<char>,
    align_meta: Option<u32>,
) -> Result<Lowered, ErrorView> {
    match entry(c.field_loads, dst) {
        None => single(c, inst_of(c, inst)),
        Some((size, align, writable)) => match both(inst_of(c, inst), reg_of(c, dst)) {
            Err(e) => Err(e),
            Ok((i, d)) => Ok(
                (
                    c,
                    seq![
                        i,
                        InstView::Plain(
                            Inst::RefWitness {
                                dst: d,
                                size: Some(size),
                                align: match align_meta {
                                    Some(a) => if a > align {
                                        a
                                    } else {
                                        align
                                    },
                                    None => align,
                                },
                                writable,
                            },
                        ),
                    ],
                ),
            ),
        },
    }
}

/// A heap allocation of `count` bytes.
pub open spec fn heap_alloc(dst: RegId, count: Operand) -> InstView {
    InstView::Plain(
        Inst::Alloc {
            dst,
            region: RegionKind::Heap,
            elem: Type::Int { bits: 8 },
            count,
            align: 16,
        },
    )
}

/// What a call to an allocator becomes.
pub open spec fn alloc_of(
    c: CtxView,
    dst: Seq<char>,
    size: AllocSize,
    args: Seq<LValue>,
) -> Result<Lowered, ErrorView> {
    match size {
        AllocSize::Bytes(i) => match both(operand_of(c, args[i as int], 64), reg_of(c, dst)) {
            Err(e) => Err(e),
            Ok((n, d)) => Ok((c, seq![heap_alloc(d, n)])),
        },
        AllocSize::Product(a, b) => {
            let c1 = used(c, 1);
            match both(
                both(operand_of(c1, args[a as int], 64), operand_of(c1, args[b as int], 64)),
                reg_of(c1, dst),
            ) {
                Err(e) => Err(e),
                Ok(((x, y), d)) => Ok(
                    (
                        c1,
                        seq![
                            InstView::Plain(
                                Inst::Assign {
                                    dst: reg_at(c.next),
                                    ty: Type::Int { bits: 64 },
                                    value: RValue::Bin { op: BinOp::Mul, lhs: x, rhs: y },
                                },
                            ),
                            heap_alloc(d, Operand::Reg(reg_at(c.next))),
                        ],
                    ),
                ),
            }
        },
    }
}

/// What a copy from or to user memory becomes: a bounded write of the kernel buffer, with
/// an unknown result.
pub open spec fn user_copy_of(
    c: CtxView,
    dst: Option<String>,
    ret: LType,
    buf: usize,
    args: Seq<LValue>,
) -> Result<Lowered, ErrorView> {
    let last = if args.len() > 2 {
        2int
    } else {
        args.len() - 1
    };
    match both(operand_of(c, args[buf as int], 64), operand_of(c, args[last], 64)) {
        Err(e) => Err(e),
        Ok((b, n)) => {
            let copy = InstView::Plain(
                Inst::MemIntrinsic {
                    kind: if buf == 0 {
                        MemKind::UserFill
                    } else {
                        MemKind::Fill
                    },
                    dst: b,
                    src: None,
                    len: n,
                },
            );
            match dst {
                None => Ok((c, seq![copy])),
                Some(d) => match reg_of(c, d@) {
                    Err(e) => Err(e),
                    Ok(r) => Ok((c, seq![copy, unknown_in(r, type_of(ret))])),
                },
            }
        },
    }
}

/// What a call becomes, with allocators, deallocators and user copies recognized.
pub open spec fn call_of(
    c: CtxView,
    inst: LInst,
    dst: Option<String>,
    ret: LType,
    callee: Seq<char>,
    args: Seq<LValue>,
) -> Result<Lowered, ErrorView> {
    if dst is Some && alloc_size_of(callee) is Some {
        alloc_of(c, (dst->0)@, alloc_size_of(callee)->0, args)
    } else if dealloc_arg(callee, args.len()) is Some {
        match operand_of(c, args[dealloc_arg(callee, args.len())->0 as int], 64) {
            Err(e) => Err(e),
            Ok(p) => Ok(
                (
                    c,
                    seq![InstView::Plain(Inst::Dealloc { region: RegionKind::Heap, ptr: p })],
                ),
            ),
        }
    } else if user_copy_arg(callee) is Some && user_copy_arg(callee)->0 < args.len() {
        user_copy_of(c, dst, ret, user_copy_arg(callee)->0, args)
    } else {
        fenced(ordering_of(callee), single(c, inst_of(c, inst)))
    }
}

/// A barrier.
pub open spec fn barrier(kind: u8) -> InstView {
    InstView::Plain(Inst::Barrier { kind })
}

/// A call with its barrier: that of a release comes before it, that of an acquire after it.
pub open spec fn fenced(kind: Option<u8>, r: Result<Lowered, ErrorView>) -> Result<
    Lowered,
    ErrorView,
> {
    match (kind, r) {
        (Some(k), Ok((c, s))) => if k == 1 {
            Ok((c, seq![barrier(k)] + s))
        } else {
            Ok((c, s.push(barrier(k))))
        },
        (_, r) => r,
    }
}

/// What an instruction becomes.
pub open spec fn insts_of(c: CtxView, inst: LInst) -> Result<Lowered, ErrorView> {
    match inst {
        LInst::AtomicRmw { dst, ty, ptr, tuple } => atomic_of(c, dst@, ty, ptr, tuple),
        LInst::GepField { dst, struct_ty, base, index, field } => field_of(
            c,
            dst@,
            struct_ty,
            base,
            index,
            field,
        ),
        LInst::GepChain { dst, agg_ty, base, indices, .. } => chain_of(
            c,
            dst@,
            type_of(agg_ty),
            base,
            indices@,
        ),
        LInst::Load { dst, align_meta, .. } => load_of(c, inst, dst@, align_meta),
        LInst::Call { dst, ret, callee, args } => call_of(c, inst, dst, ret, callee@, args@),
        _ => single(c, inst_of(c, inst)),
    }
}

/// The call gives every argument that its allocator needs, and a walk has an index.
pub open spec fn well_formed(inst: LInst) -> bool {
    match inst {
        LInst::GepChain { indices, .. } => indices@.len() > 0,
        LInst::Call { dst, callee, args, .. } => dst is Some ==> match alloc_size_of(callee@) {
            Some(AllocSize::Bytes(i)) => i < args@.len(),
            Some(AllocSize::Product(a, b)) => a < args@.len() && b < args@.len(),
            None => true,
        },
        _ => true,
    }
}

/// A bound on the registers that lowering an instruction uses.
pub open spec fn inst_cost(inst: LInst) -> nat {
    match inst {
        LInst::GepChain { indices, .. } => 1 + 2 * indices@.len(),
        _ => 1,
    }
}

fn emit_atomic(
    ctx: &mut Ctx,
    dst: &String,
    ty: &LType,
    ptr: &LValue,
    tuple: bool,
    out: &mut Vec<Inst>,
) -> (r: Result<(), Error>)
    requires
        old(ctx).next_reg + 1 <= u32::MAX,
    ensures
        final(ctx).next_reg <= old(ctx).next_reg + 1,
        lowered_result(
            r,
            inst_views(final(out)@),
            final(ctx)@,
            inst_views(old(out)@),
            atomic_of(old(ctx)@, dst@, *ty, *ptr, tuple),
        ),
{
    let t = lower_type(ty);
    let align: u32 = (t.align_bytes() % 0x1_0000_0000) as u32;
    let old_dst: RegId = if tuple {
        ctx.fresh()
    } else {
        match ctx.reg(dst) {
            Ok(r) => r,
            Err(e) => {
                return Err(e);
            },
        }
    };
    let p = match ctx.operand(ptr, 64) {
        Ok(o) => o,
        Err(e) => {
            return Err(e);
        },
    };
    let ghost before = inst_views(out@);
    emit(out, Inst::Load { dst: old_dst, ty: t.copy(), ptr: p.copy(), align });
    emit(out, Inst::Store { ty: t, ptr: p, value: Operand::Const(Const::Undef), align });
    if tuple {
        match ctx.reg(dst) {
            Ok(r) => {
                emit(
                    out,
                    Inst::Assign {
                        dst: r,
                        ty: Type::Int { bits: 64 },
                        value: RValue::Use(Operand::Const(Const::Undef)),
                    },
                );
            },
            Err(e) => {
                return Err(e);
            },
        }
    }
    proof {
        let s = atomic_of(old(ctx)@, dst@, *ty, *ptr, tuple)->Ok_0;
        assert(inst_views(out@) =~= before + s.1);
    }
    Ok(())
}

fn emit_field(
    ctx: &mut Ctx,
    dst: &String,
    struct_ty: &LType,
    base: &LValue,
    index: &LValue,
    field: u32,
    out: &mut Vec<Inst>,
) -> (r: Result<(), Error>)
    requires
        old(ctx).next_reg + 1 <= u32::MAX,
    ensures
        final(ctx).next_reg <= old(ctx).next_reg + 1,
        lowered_result(
            r,
            inst_views(final(out)@),
            final(ctx)@,
            inst_views(old(out)@),
            field_of(old(ctx)@, dst@, *struct_ty, *base, *index, field),
        ),
{
    let t = lower_type(struct_ty);
    let off = match t.struct_field_offset(field) {
        Some(o) => o,
        None => {
            return Err(Error::unsupported("struct-field gep with an unsizable field offset"));
        },
    };
    let tmp = ctx.fresh();
    let b = match ctx.operand(base, 64) {
        Ok(o) => o,
        Err(e) => {
            return Err(e);
        },
    };
    let i = match ctx.operand(index, 64) {
        Ok(o) => o,
        Err(e) => {
            return Err(e);
        },
    };
    let d = match ctx.reg(dst) {
        Ok(r) => r,
        Err(e) => {
            return Err(e);
        },
    };
    let ghost before = inst_views(out@);
    emit(out, Inst::PtrOffset { dst: tmp, base: b, index: i, elem: t });
    emit(out, offset_inst(d, tmp, off));
    proof {
        let s = field_of(old(ctx)@, dst@, *struct_ty, *base, *index, field)->Ok_0;
        assert(inst_views(out@) =~= before + s.1);
    }
    Ok(())
}

fn emit_single(ctx: &Ctx, inst: &LInst, out: &mut Vec<Inst>) -> (r: Result<(), Error>)
    ensures
        lowered_result(
            r,
            inst_views(final(out)@),
            ctx@,
            inst_views(old(out)@),
            single(ctx@, inst_of(ctx@, *inst)),
        ),
{
    match lower_inst(ctx, inst) {
        Ok(i) => {
            let ghost before = inst_views(out@);
            let ghost iv = i@;
            emit(out, i);
            assert(inst_views(out@) =~= before + seq![iv]);
            Ok(())
        },
        Err(e) => Err(e),
    }
}

fn emit_load(
    ctx: &Ctx,
    inst: &LInst,
    dst: &String,
    align_meta: Option<u32>,
    out: &mut Vec<Inst>,
) -> (r: Result<(), Error>)
    ensures
        lowered_result(
            r,
            inst_views(final(out)@),
            ctx@,
            inst_views(old(out)@),
            load_of(ctx@, *inst, dst@, align_meta),
        ),
{
    let found: Option<(u64, u32, bool)> = match lookup(&ctx.field_loads, dst) {
        Some(t) => Some((t.0, t.1, t.2)),
        None => None,
    };
    match found {
        None => emit_single(ctx, inst, out),
        Some((size, align, writable)) => {
            let i = match lower_inst(ctx, inst) {
                Ok(i) => i,
                Err(e) => {
                    return Err(e);
                },
            };
            let d = match ctx.reg(dst) {
                Ok(r) => r,
                Err(e) => {
                    return Err(e);
                },
            };
            let ghost before = inst_views(out@);
            emit(out, i);
            let a: u32 = match align_meta {
                Some(a) => if a > align {
                    a
                } else {
                    align
                },
                None => align,
            };
            emit(out, Inst::RefWitness { dst: d, size: Some(size), align: a, writable });
            proof {
                let s = load_of(ctx@, *inst, dst@, align_meta)->Ok_0;
                assert(inst_views(out@) =~= before + s.1);
            }
            Ok(())
        },
    }
}

fn emit_alloc(
    ctx: &mut Ctx,
    dst: &String,
    size: AllocSize,
    args: &Vec<LValue>,
    out: &mut Vec<Inst>,
) -> (r: Result<(), Error>)
    requires
        old(ctx).next_reg + 1 <= u32::MAX,
        match size {
            AllocSize::Bytes(i) => i < args@.len(),
            AllocSize::Product(a, b) => a < args@.len() && b < args@.len(),
        },
    ensures
        final(ctx).next_reg <= old(ctx).next_reg + 1,
        lowered_result(
            r,
            inst_views(final(out)@),
            final(ctx)@,
            inst_views(old(out)@),
            alloc_of(old(ctx)@, dst@, size, args@),
        ),
{
    let ghost before = inst_views(out@);
    match size {
        AllocSize::Bytes(i) => {
            let n = match ctx.operand(&args[i], 64) {
                Ok(o) => o,
                Err(e) => {
                    return Err(e);
                },
            };
            let d = match ctx.reg(dst) {
                Ok(r) => r,
                Err(e) => {
                    return Err(e);
                },
            };
            emit(
                out,
                Inst::Alloc {
                    dst: d,
                    region: RegionKind::Heap,
                    elem: Type::Int { bits: 8 },
                    count: n,
                    align: 16,
                },
            );
        },
        AllocSize::Product(a, b) => {
            let tmp = ctx.fresh();
            let x = match ctx.operand(&args[a], 64) {
                Ok(o) => o,
                Err(e) => {
                    return Err(e);
                },
            };
            let y = match ctx.operand(&args[b], 64) {
                Ok(o) => o,
                Err(e) => {
                    return Err(e);
                },
            };
            let d = match ctx.reg(dst) {
                Ok(r) => r,
                Err(e) => {
                    return Err(e);
                },
            };
            emit(
                out,
                Inst::Assign {
                    dst: tmp,
                    ty: Type::Int { bits: 64 },
                    value: RValue::Bin { op: BinOp::Mul, lhs: x, rhs: y },
                },
            );
            emit(
                out,
                Inst::Alloc {
                    dst: d,
                    region: RegionKind::Heap,
                    elem: Type::Int { bits: 8 },
                    count: Operand::Reg(tmp),
                    align: 16,
                },
            );
        },
    }
    proof {
        let s = alloc_of(old(ctx)@, dst@, size, args@)->Ok_0;
        assert(inst_views(out@) =~= before + s.1);
    }
    Ok(())
}

fn emit_user_copy(
    ctx: &Ctx,
    dst: &Option<String>,
    ret: &LType,
    buf: usize,
    args: &Vec<LValue>,
    out: &mut Vec<Inst>,
) -> (r: Result<(), Error>)
    requires
        buf < args@.len(),
    ensures
        lowered_result(
            r,
            inst_views(final(out)@),
            ctx@,
            inst_views(old(out)@),
            user_copy_of(ctx@, *dst, *ret, buf, args@),
        ),
{
    let last: usize = if args.len() > 2 {
        2
    } else {
        args.len() - 1
    };
    let b = match ctx.operand(&args[buf], 64) {
        Ok(o) => o,
        Err(e) => {
            return Err(e);
        },
    };
    let n = match ctx.operand(&args[last], 64) {
        Ok(o) => o,
        Err(e) => {
            return Err(e);
        },
    };
    let kind = if buf == 0 {
        MemKind::UserFill
    } else {
        MemKind::Fill
    };
    let ghost before = inst_views(out@);
    emit(out, Inst::MemIntrinsic { kind, dst: b, src: None, len: n });
    if let Some(d) = dst {
        match ctx.reg(d) {
            Ok(r) => {
                emit(
                    out,
                    Inst::Assign {
                        dst: r,
                        ty: lower_type(ret),
                        value: RValue::Use(Operand::Const(Const::Undef)),
                    },
                );
            },
            Err(e) => {
                return Err(e);
            },
        }
    }
    proof {
        let s = user_copy_of(ctx@, *dst, *ret, buf, args@)->Ok_0;
        assert(inst_views(out@) =~= before + s.1);
    }
    Ok(())
}

fn emit_call(
    ctx: &mut Ctx,
    inst: &LInst,
    dst: &Option<String>,
    ret: &LType,
    callee: &String,
    args: &Vec<LValue>,
    out: &mut Vec<Inst>,
) -> (r: Result<(), Error>)
    requires
        old(ctx).next_reg + 1 <= u32::MAX,
        *inst matches LInst::Call { dst: d, ret: t, callee: f, args: a } && d == *dst && t == *ret
            && f == *callee && a == *args,
        well_formed(*inst),
    ensures
        final(ctx).next_reg <= old(ctx).next_reg + 1,
        lowered_result(
            r,
            inst_views(final(out)@),
            final(ctx)@,
            inst_views(old(out)@),
            call_of(old(ctx)@, *inst, *dst, *ret, callee@, args@),
        ),
{
    if let Some(d) = dst {
        if let Some(size) = alloc_size(callee) {
            return emit_alloc(ctx, d, size, args, out);
        }
    }
    if let Some(i) = dealloc_ptr_arg(callee, args.len()) {
        return match ctx.operand(&args[i], 64) {
            Ok(p) => {
                let ghost before = inst_views(out@);
                let di = Inst::Dealloc { region: RegionKind::Heap, ptr: p };
                let ghost dv = di@;
                emit(out, di);
                assert(inst_views(out@) =~= before + seq![dv]);
                Ok(())
            },
            Err(e) => Err(e),
        };
    }
    if let Some(buf) = user_copy_kernel_arg(callee) {
        if buf < args.len() {
            return emit_user_copy(ctx, dst, ret, buf, args, out);
        }
    }
    match helper_barrier(callee) {
        None => emit_single(ctx, inst, out),
        Some(kind) => match lower_inst(ctx, inst) {
            Ok(i) => {
                let ghost before = inst_views(out@);
                let ghost iv = i@;
                if kind == 1 {
                    emit(out, Inst::Barrier { kind });
                    emit(out, i);
                    assert(inst_views(out@) =~= before + (seq![barrier(kind)] + seq![iv]));
                } else {
                    emit(out, i);
                    emit(out, Inst::Barrier { kind });
                    assert(inst_views(out@) =~= before + seq![iv].push(barrier(kind)));
                }
                Ok(())
            },
            Err(e) => Err(e),
        },
    }
}

/// Lower an instruction, appending what it becomes.
pub fn emit_inst(ctx: &mut Ctx, inst: &LInst, out: &mut Vec<Inst>) -> (r: Result<(), Error>)
    requires
        well_formed(*inst),
        old(ctx).next_reg + inst_cost(*inst) <= u32::MAX,
    ensures
        final(ctx).next_reg <= old(ctx).next_reg + inst_cost(*inst),
        lowered_result(
            r,
            inst_views(final(out)@),
            final(ctx)@,
            inst_views(old(out)@),
            insts_of(old(ctx)@, *inst),
        ),
{
    match inst {
        LInst::AtomicRmw { dst, ty, ptr, tuple } => emit_atomic(ctx, dst, ty, ptr, *tuple, out),
        LInst::GepField { dst, struct_ty, base, index, field } => emit_field(
            ctx,
            dst,
            struct_ty,
            base,
            index,
            *field,
            out,
        ),
        LInst::GepChain { dst, agg_ty, base, indices, .. } => lower_gep_chain(
            ctx,
            dst,
            lower_type(agg_ty),
            base,
            indices,
            out,
        ),
        LInst::Load { dst, align_meta, .. } => emit_load(ctx, inst, dst, *align_meta, out),
        LInst::Call { dst, ret, callee, args } => emit_call(
            ctx,
            inst,
            dst,
            ret,
            callee,
            args,
            out,
        ),
        _ => emit_single(ctx, inst, out),
    }
}

// ---- blocks ----

/// The parameters that phi nodes become.
pub open spec fn phi_params(c: CtxView, phis: Seq<LPhi>) -> Result<Seq<(RegId, Type)>, ErrorView>
    decreases phis.len(),
{
    if phis.len() == 0 {
        Ok(Seq::empty())
    } else {
        match both(phi_params(c, phis.drop_last()), reg_of(c, phis.last().dst@)) {
            Err(e) => Err(e),
            Ok((s, r)) => Ok(s.push((r, type_of(phis.last().ty)))),
        }
    }
}

/// What the instructions of a block become.
pub open spec fn body_of(c: CtxView, insts: Seq<LInst>) -> Result<Lowered, ErrorView>
    decreases insts.len(),
{
    if insts.len() == 0 {
        Ok((c, Seq::empty()))
    } else {
        match body_of(c, insts.drop_last()) {
            Err(e) => Err(e),
            Ok((c1, s)) => match insts_of(c1, insts.last()) {
                Err(e) => Err(e),
                Ok((c2, t)) => Ok((c2, s + t)),
            },
        }
    }
}

/// The cases for the targets of inline assembly after the first, numbered from 0 on.
pub open spec fn asm_cases(c: CtxView, targets: Seq<String>) -> Result<
    Seq<(BitVector, BlockId)>,
    ErrorView,
>
    decreases targets.len(),
{
    if targets.len() == 0 {
        Ok(Seq::empty())
    } else {
        match both(asm_cases(c, targets.drop_last()), block_of(c, targets.last()@)) {
            Err(e) => Err(e),
            Ok((s, b)) => Ok(
                s.push(
                    (
                        BitVector {
                            width: 64,
                            bits: crate::ir::low_bits(64, (targets.len() - 1) as u128),
                        },
                        b,
                    ),
                ),
            ),
        }
    }
}

/// How a block ends: the context after it, the instructions that it adds, and the
/// terminator. A call that may unwind branches to both successors on an unknown condition;
/// inline assembly with targets branches to each of them on an unknown value.
pub open spec fn end_of(c: CtxView, label: Seq<char>, term: LTerm) -> Result<
    (CtxView, Seq<InstView>, TermView),
    ErrorView,
> {
    match term {
        LTerm::Invoke { dst, ret, callee, args, ok, cleanup } => match both(
            both(
                both(
                    both(
                        both(opt_reg_of(c, dst), operands_of(c, args@, 64)),
                        edge_args(c, label, ok@),
                    ),
                    edge_args(c, label, cleanup@),
                ),
                block_of(c, ok@),
            ),
            block_of(c, cleanup@),
        ) {
            Err(e) => Err(e),
            Ok((((((d, ops), ta), fa), tb), fb)) => Ok(
                (
                    used(c, 1),
                    seq![
                        InstView::Call {
                            dst: d,
                            callee: callee_of(c, callee@),
                            args: ops,
                            ret_ty: type_of(ret),
                            ret_ref: None,
                        },
                    ],
                    TermView::CondBr {
                        cond: Operand::Reg(reg_at(c.next)),
                        then_blk: tb,
                        then_args: ta,
                        else_blk: fb,
                        else_args: fa,
                    },
                ),
            ),
        },
        LTerm::CallBr { dst, targets } => match both(
            both(opt_reg_of(c, dst), block_of(c, targets@[0]@)),
            asm_cases(c, targets@.subrange(1, targets@.len() as int)),
        ) {
            Err(e) => Err(e),
            Ok(((d, b), cases)) => Ok(
                (
                    used(c, 1),
                    seq![
                        InstView::Call {
                            dst: d,
                            callee: CalleeView::Symbol("<inline asm>"@),
                            args: Seq::empty(),
                            ret_ty: Type::Int { bits: 64 },
                            ret_ref: None,
                        },
                    ],
                    TermView::Switch {
                        value: Operand::Reg(reg_at(c.next)),
                        cases,
                        default: b,
                    },
                ),
            ),
        },
        _ => match term_of(c, label, term) {
            Err(e) => Err(e),
            Ok(t) => Ok((c, Seq::empty(), t)),
        },
    }
}

/// What a block becomes, with the context after it.
pub open spec fn block_lowered(c: CtxView, b: LBlock, id: BlockId) -> Result<
    (CtxView, BlockView),
    ErrorView,
> {
    match phi_params(c, b.phis@) {
        Err(e) => Err(e),
        Ok(params) => match body_of(c, b.insts@) {
            Err(e) => Err(e),
            Ok((c1, insts)) => match end_of(c1, b.label@, b.term) {
                Err(e) => Err(e),
                Ok((c2, more, term)) => Ok(
                    (
                        c2,
                        BlockView {
                            id,
                            params,
                            insts: insts + more,
                            term,
                            spans: Seq::empty(),
                        },
                    ),
                ),
            },
        },
    }
}

/// Every instruction is well formed, and inline assembly has a target.
pub open spec fn block_well_formed(b: LBlock) -> bool {
    &&& forall|i: int| 0 <= i < b.insts@.len() ==> well_formed(#[trigger] b.insts@[i])
    &&& b.term matches LTerm::CallBr { targets, .. } ==> targets@.len() > 0
}

/// A bound on the registers that lowering instructions uses.
pub open spec fn body_cost(insts: Seq<LInst>) -> nat
    decreases insts.len(),
{
    if insts.len() == 0 {
        0
    } else {
        body_cost(insts.drop_last()) + inst_cost(insts.last())
    }
}

/// A bound on the registers that lowering a block uses.
pub open spec fn block_cost(b: LBlock) -> nat {
    body_cost(b.insts@) + 1
}

proof fn lemma_cost_grows(insts: Seq<LInst>, k: int)
    requires
        0 <= k <= insts.len(),
    ensures
        body_cost(insts.take(k)) <= body_cost(insts),
    decreases insts.len(),
{
    if k == insts.len() {
        assert(insts.take(k) =~= insts);
    } else {
        assert(insts.drop_last().take(k) =~= insts.take(k));
        lemma_cost_grows(insts.drop_last(), k);
    }
}

proof fn lemma_body_stop(c: CtxView, insts: Seq<LInst>, k: int)
    requires
        0 <= k <= insts.len(),
        body_of(c, insts.take(k)) is Err,
    ensures
        body_of(c, insts) == body_of(c, insts.take(k)),
    decreases insts.len(),
{
    if k == insts.len() {
        assert(insts.take(k) =~= insts);
    } else {
        assert(insts.drop_last().take(k) =~= insts.take(k));
        lemma_body_stop(c, insts.drop_last(), k);
    }
}

fn lower_body(ctx: &mut Ctx, insts: &Vec<LInst>) -> (r: Result<Vec<Inst>, Error>)
    requires
        forall|i: int| 0 <= i < insts@.len() ==> well_formed(#[trigger] insts@[i]),
        old(ctx).next_reg + body_cost(insts@) <= u32::MAX,
    ensures
        final(ctx).next_reg <= old(ctx).next_reg + body_cost(insts@),
        match r {
            Ok(v) => body_of(old(ctx)@, insts@) == Ok::<Lowered, ErrorView>(
                (final(ctx)@, inst_views(v@)),
            ),
            Err(e) => body_of(old(ctx)@, insts@) == Err::<Lowered, ErrorView>(e@),
        },
{
    let mut out: Vec<Inst> = Vec::new();
    let mut k: usize = 0;
    assert(insts@.take(0) =~= Seq::<LInst>::empty());
    assert(inst_views(out@) =~= Seq::<InstView>::empty());
    while k < insts.len()
        invariant
            k <= insts@.len(),
            forall|i: int| 0 <= i < insts@.len() ==> well_formed(#[trigger] insts@[i]),
            old(ctx).next_reg + body_cost(insts@) <= u32::MAX,
            ctx.next_reg <= old(ctx).next_reg + body_cost(insts@.take(k as int)),
            body_of(old(ctx)@, insts@.take(k as int)) == Ok::<Lowered, ErrorView>(
                (ctx@, inst_views(out@)),
            ),
        decreases insts@.len() - k,
    {
        assert(insts@.take(k + 1).drop_last() =~= insts@.take(k as int));
        assert(insts@.take(k + 1).last() == insts@[k as int]);
        proof {
            lemma_cost_grows(insts@, k + 1);
            lemma_cost_grows(insts@, k as int);
        }
        match emit_inst(ctx, &insts[k], &mut out) {
            Ok(_) => {},
            Err(e) => {
                proof {
                    lemma_body_stop(old(ctx)@, insts@, k + 1);
                }
                return Err(e);
            },
        }
        k += 1;
    }
    assert(insts@.take(insts@.len() as int) =~= insts@);
    Ok(out)
}

proof fn lemma_params_stop(c: CtxView, phis: Seq<LPhi>, k: int)
    requires
        0 <= k <= phis.len(),
        phi_params(c, phis.take(k)) is Err,
    ensures
        phi_params(c, phis) == phi_params(c, phis.take(k)),
    decreases phis.len(),
{
    if k == phis.len() {
        assert(phis.take(k) =~= phis);
    } else {
        assert(phis.drop_last().take(k) =~= phis.take(k));
        lemma_params_stop(c, phis.drop_last(), k);
    }
}

fn lower_phis(ctx: &Ctx, phis: &Vec<LPhi>) -> (r: Result<Vec<(RegId, Type)>, Error>)
    ensures
        match r {
            Ok(v) => phi_params(ctx@, phis@) == Ok::<Seq<(RegId, Type)>, ErrorView>(v@),
            Err(e) => phi_params(ctx@, phis@) == Err::<Seq<(RegId, Type)>, ErrorView>(e@),
        },
{
    let mut out: Vec<(RegId, Type)> = Vec::new();
    let mut k: usize = 0;
    assert(phis@.take(0) =~= Seq::<LPhi>::empty());
    assert(out@ =~= Seq::<(RegId, Type)>::empty());
    while k < phis.len()
        invariant
            k <= phis@.len(),
            phi_params(ctx@, phis@.take(k as int)) == Ok::<Seq<(RegId, Type)>, ErrorView>(out@),
        decreases phis@.len() - k,
    {
        assert(phis@.take(k + 1).drop_last() =~= phis@.take(k as int));
        assert(phis@.take(k + 1).last() == phis@[k as int]);
        match ctx.reg(&phis[k].dst) {
            Ok(r) => {
                out.push((r, lower_type(&phis[k].ty)));
            },
            Err(e) => {
                proof {
                    lemma_params_stop(ctx@, phis@, k + 1);
                }
                return Err(e);
            },
        }
        k += 1;
    }
    assert(phis@.take(phis@.len() as int) =~= phis@);
    Ok(out)
}

proof fn lemma_asm_stop(c: CtxView, targets: Seq<String>, k: int)
    requires
        0 <= k <= targets.len(),
        asm_cases(c, targets.take(k)) is Err,
    ensures
        asm_cases(c, targets) == asm_cases(c, targets.take(k)),
    decreases targets.len(),
{
    if k == targets.len() {
        assert(targets.take(k) =~= targets);
    } else {
        assert(targets.drop_last().take(k) =~= targets.take(k));
        lemma_asm_stop(c, targets.drop_last(), k);
    }
}

fn lower_asm_cases(ctx: &Ctx, targets: &Vec<String>) -> (r: Result<
    Vec<(BitVector, BlockId)>,
    Error,
>)
    requires
        targets@.len() > 0,
    ensures
        match r {
            Ok(v) => asm_cases(ctx@, targets@.subrange(1, targets@.len() as int)) == Ok::<
                Seq<(BitVector, BlockId)>,
                ErrorView,
            >(v@),
            Err(e) => asm_cases(ctx@, targets@.subrange(1, targets@.len() as int)) == Err::<
                Seq<(BitVector, BlockId)>,
                ErrorView,
            >(e@),
        },
{
    let ghost rest = targets@.subrange(1, targets@.len() as int);
    let mut out: Vec<(BitVector, BlockId)> = Vec::new();
    let mut k: usize = 1;
    assert(rest.take(0) =~= Seq::<String>::empty());
    assert(out@ =~= Seq::<(BitVector, BlockId)>::empty());
    while k < targets.len()
        invariant
            1 <= k <= targets@.len(),
            rest == targets@.subrange(1, targets@.len() as int),
            asm_cases(ctx@, rest.take(k - 1)) == Ok::<Seq<(BitVector, BlockId)>, ErrorView>(out@),
        decreases targets@.len() - k,
    {
        assert(rest.take(k as int).drop_last() =~= rest.take(k - 1));
        assert(rest.take(k as int).last() == targets@[k as int]);
        match ctx.block(&targets[k]) {
            Ok(b) => {
                out.push((BitVector::new(64, (k - 1) as u128), b));
            },
            Err(e) => {
                proof {
                    lemma_asm_stop(ctx@, rest, k as int);
                }
                return Err(e);
            },
        }
        k += 1;
    }
    assert(rest.take(rest.len() as int) =~= rest);
    Ok(out)
}

fn opt_reg(ctx: &Ctx, dst: &Option<String>) -> (r: Result<Option<RegId>, Error>)
    ensures
        result_is(r, opt_reg_of(ctx@, *dst)),
{
    match dst {
        None => Ok(None),
        Some(d) => match ctx.reg(d) {
            Ok(r) => Ok(Some(r)),
            Err(e) => Err(e),
        },
    }
}

/// The end of a block as the specified result.
pub open spec fn end_result(
    r: Result<Terminator, Error>,
    out: Seq<InstView>,
    c: CtxView,
    before: Seq<InstView>,
    s: Result<(CtxView, Seq<InstView>, TermView), ErrorView>,
) -> bool {
    match r {
        Err(e) => s == Err::<(CtxView, Seq<InstView>, TermView), ErrorView>(e@),
        Ok(t) => match s {
            Ok((c2, more, tv)) => c == c2 && out == before + more && t@ == tv,
            Err(_) => false,
        },
    }
}

fn lower_end(ctx: &mut Ctx, label: &String, term: &LTerm, out: &mut Vec<Inst>) -> (r: Result<
    Terminator,
    Error,
>)
    requires
        old(ctx).next_reg + 1 <= u32::MAX,
        *term matches LTerm::CallBr { targets, .. } ==> targets@.len() > 0,
    ensures
        final(ctx).next_reg <= old(ctx).next_reg + 1,
        end_result(
            r,
            inst_views(final(out)@),
            final(ctx)@,
            inst_views(old(out)@),
            end_of(old(ctx)@, label@, *term),
        ),
{
    let ghost before = inst_views(out@);
    match term {
        LTerm::Invoke { dst, ret, callee, args, ok, cleanup } => {
            let d = match opt_reg(ctx, dst) {
                Ok(d) => d,
                Err(e) => {
                    return Err(e);
                },
            };
            let ops = match ctx.operands(args, 64) {
                Ok(o) => o,
                Err(e) => {
                    return Err(e);
                },
            };
            let ta = match branch_args(ctx, label, ok) {
                Ok(a) => a,
                Err(e) => {
                    return Err(e);
                },
            };
            let fa = match branch_args(ctx, label, cleanup) {
                Ok(a) => a,
                Err(e) => {
                    return Err(e);
                },
            };
            let tb = match ctx.block(ok) {
                Ok(b) => b,
                Err(e) => {
                    return Err(e);
                },
            };
            let fb = match ctx.block(cleanup) {
                Ok(b) => b,
                Err(e) => {
                    return Err(e);
                },
            };
            emit(
                out,
                Inst::Call {
                    dst: d,
                    callee: ctx.callee(callee),
                    args: ops,
                    ret_ty: lower_type(ret),
                    ret_ref: None,
                },
            );
            let cond = ctx.fresh();
            let t = Terminator::CondBr {
                cond: Operand::Reg(cond),
                then_blk: tb,
                then_args: ta,
                else_blk: fb,
                else_args: fa,
            };
            proof {
                let s = end_of(old(ctx)@, label@, *term)->Ok_0;
                assert(inst_views(out@) =~= before + s.1);
            }
            Ok(t)
        },
        LTerm::CallBr { dst, targets } => {
            let d = match opt_reg(ctx, dst) {
                Ok(d) => d,
                Err(e) => {
                    return Err(e);
                },
            };
            let b = match ctx.block(&targets[0]) {
                Ok(b) => b,
                Err(e) => {
                    return Err(e);
                },
            };
            let cases = match lower_asm_cases(ctx, targets) {
                Ok(c) => c,
                Err(e) => {
                    return Err(e);
                },
            };
            let none: Vec<Operand> = Vec::new();
            assert(none@ =~= Seq::<Operand>::empty());
            emit(
                out,
                Inst::Call {
                    dst: d,
                    callee: Callee::Symbol("<inline asm>".to_owned()),
                    args: none,
                    ret_ty: Type::Int { bits: 64 },
                    ret_ref: None,
                },
            );
            let value = ctx.fresh();
            proof {
                let s = end_of(old(ctx)@, label@, *term)->Ok_0;
                assert(inst_views(out@) =~= before + s.1);
            }
            Ok(Terminator::Switch { value: Operand::Reg(value), cases, default: b })
        },
        _ => {
            assert(before + Seq::<InstView>::empty() =~= before);
            lower_term(ctx, label, term)
        },
    }
}

/// Lower a block.
pub fn lower_block(ctx: &mut Ctx, b: &LBlock, id: BlockId) -> (r: Result<BasicBlock, Error>)
    requires
        block_well_formed(*b),
        old(ctx).next_reg + block_cost(*b) <= u32::MAX,
    ensures
        final(ctx).next_reg <= old(ctx).next_reg + block_cost(*b),
        match r {
            Ok(bb) => block_lowered(old(ctx)@, *b, id) == Ok::<(CtxView, BlockView), ErrorView>(
                (final(ctx)@, bb@),
            ),
            Err(e) => block_lowered(old(ctx)@, *b, id) == Err::<(CtxView, BlockView), ErrorView>(
                e@,
            ),
        },
{
    let params = match lower_phis(ctx, &b.phis) {
        Ok(p) => p,
        Err(e) => {
            return Err(e);
        },
    };
    let mut insts = match lower_body(ctx, &b.insts) {
        Ok(i) => i,
        Err(e) => {
            return Err(e);
        },
    };
    match lower_end(ctx, &b.label, &b.term, &mut insts) {
        Ok(term) => {
            let bb = BasicBlock { id, params, insts, inst_spans: Vec::new(), term };
            assert(bb@.spans =~= Seq::<Option<Seq<char>>>::empty());
            Ok(bb)
        },
        Err(e) => Err(e),
    }
}

// ---- laws ----

proof fn lemma_phi_params(c: CtxView, phis: Seq<LPhi>)
    ensures
        phi_params(c, phis) matches Ok(s) ==> s.len() == phis.len(),
    decreases phis.len(),
{
    if phis.len() > 0 {
        lemma_phi_params(c, phis.drop_last());
    }
}

proof fn lemma_phi_args(c: CtxView, phis: Seq<LPhi>, pred: Seq<char>)
    ensures
        phi_args(c, phis, pred) matches Ok(s) ==> s.len() == phis.len(),
    decreases phis.len(),
{
    if phis.len() > 0 {
        lemma_phi_args(c, phis.drop_last(), pred);
    }
}

/// Every edge to a block passes as many arguments as the block has parameters.
pub proof fn edges_pass_every_parameter(c: CtxView, pred: Seq<char>, to: Seq<char>, b: LBlock)
    requires
        labelled(c.func.blocks@, to) == Some(b),
    ensures
        match (edge_args(c, pred, to), phi_params(c, b.phis@)) {
            (Ok(args), Ok(params)) => args.len() == params.len(),
            _ => true,
        },
{
    lemma_phi_args(c, b.phis@, pred);
    lemma_phi_params(c, b.phis@);
}

} // verus!
