//! How numbers that are used as pointers were computed.

use crate::exec::value::ScalarPtrCause;
use crate::ir::{
    BasicBlock, BinOp, CastOp, Const, Function, Inst, Operand, RValue, RegId, Type,
};
use crate::numbers::{at, find, lemma_numbered_has, lemma_numbered_push, numbered};
use vstd::prelude::*;

verus! {

// ---- which registers hold pointers ----

/// Whether the register that an instruction defines is of a pointer type.
pub open spec fn inst_note(inst: Inst) -> Option<(u32, bool)> {
    match inst {
        Inst::Assign { dst, ty, .. } => Some((dst.0, ty is Ptr)),
        Inst::Load { dst, ty, .. } => Some((dst.0, ty is Ptr)),
        Inst::PtrOffset { dst, .. } => Some((dst.0, true)),
        Inst::FieldPtr { dst, .. } => Some((dst.0, true)),
        Inst::Alloc { dst, .. } => Some((dst.0, true)),
        Inst::Call { dst: Some(dst), ret_ty, .. } => Some((dst.0, ret_ty is Ptr)),
        _ => None,
    }
}

/// Whether parameters are of a pointer type.
pub open spec fn param_notes(params: Seq<(RegId, Type)>) -> Seq<(u32, bool)> {
    Seq::new(params.len(), |i: int| ((params[i].0).0, params[i].1 is Ptr))
}

/// The notes of instructions.
pub open spec fn inst_notes(insts: Seq<Inst>) -> Seq<(u32, bool)>
    decreases insts.len(),
{
    if insts.len() == 0 {
        Seq::empty()
    } else {
        match inst_note(insts.last()) {
            Some(n) => inst_notes(insts.drop_last()).push(n),
            None => inst_notes(insts.drop_last()),
        }
    }
}

/// The notes of blocks.
pub open spec fn block_notes(blocks: Seq<BasicBlock>) -> Seq<(u32, bool)>
    decreases blocks.len(),
{
    if blocks.len() == 0 {
        Seq::empty()
    } else {
        block_notes(blocks.drop_last()) + param_notes(blocks.last().params@) + inst_notes(
            blocks.last().insts@,
        )
    }
}

/// Whether each register is of a pointer type, by its last definition.
pub open spec fn pointer_regs(f: Function) -> Map<u32, bool> {
    numbered(param_notes(f.params@) + block_notes(f.blocks@))
}

/// The register is of a pointer type.
pub open spec fn holds_ptr(ptrs: Map<u32, bool>, r: u32) -> bool {
    at(ptrs, r) == Some(true)
}

/// The operand is a register of a pointer type.
pub open spec fn ptr_operand(ptrs: Map<u32, bool>, o: Operand) -> bool {
    match o {
        Operand::Reg(r) => holds_ptr(ptrs, r.0),
        _ => false,
    }
}

// ---- causes ----

/// How an assigned value was computed.
pub open spec fn value_cause(ptrs: Map<u32, bool>, v: RValue) -> ScalarPtrCause {
    match v {
        RValue::Cast { op: CastOp::PtrToInt, .. } => ScalarPtrCause::PtrToInt,
        RValue::Cast { operand, .. } => if ptr_operand(ptrs, operand) {
            ScalarPtrCause::PtrCopy
        } else {
            ScalarPtrCause::IntArith
        },
        RValue::Use(Operand::Reg(src)) => if holds_ptr(ptrs, src.0) {
            ScalarPtrCause::PtrCopy
        } else {
            ScalarPtrCause::Copy
        },
        RValue::Use(Operand::Const(c)) => match c {
            Const::Undef => ScalarPtrCause::ConstUndef,
            Const::Symbol(_) => ScalarPtrCause::ConstSymbol,
            Const::SymbolOffset(_, _) => ScalarPtrCause::ConstSymbol,
            Const::Int(_) => ScalarPtrCause::ConstInt,
            Const::Null => ScalarPtrCause::ConstNull,
        },
        RValue::Bin { op, lhs, rhs } => match op {
            BinOp::And => ScalarPtrCause::BitMask,
            BinOp::Or => ScalarPtrCause::BitMask,
            BinOp::Xor => ScalarPtrCause::BitMask,
            BinOp::Shl => ScalarPtrCause::BitMask,
            BinOp::LShr => ScalarPtrCause::BitMask,
            BinOp::AShr => ScalarPtrCause::BitMask,
            _ => if ptr_operand(ptrs, lhs) || ptr_operand(ptrs, rhs) {
                ScalarPtrCause::PtrArith
            } else {
                ScalarPtrCause::IntArith
            },
        },
        RValue::Cmp { .. } => ScalarPtrCause::IntArith,
        RValue::Select { .. } => ScalarPtrCause::Other,
    }
}

/// How the register that an instruction defines was computed.
pub open spec fn inst_cause(ptrs: Map<u32, bool>, inst: Inst) -> Option<(u32, ScalarPtrCause)> {
    match inst {
        Inst::Load { dst, .. } => Some((dst.0, ScalarPtrCause::LoadedScalar)),
        Inst::Call { dst: Some(dst), .. } => Some((dst.0, ScalarPtrCause::CallResult)),
        Inst::PtrOffset { dst, .. } => Some((dst.0, ScalarPtrCause::PtrResult)),
        Inst::FieldPtr { dst, .. } => Some((dst.0, ScalarPtrCause::PtrResult)),
        Inst::Alloc { dst, .. } => Some((dst.0, ScalarPtrCause::PtrResult)),
        Inst::Assign { dst, value, .. } => Some((dst.0, value_cause(ptrs, value))),
        _ => None,
    }
}

/// The register that an instruction copies, where it is of no pointer type.
pub open spec fn inst_copy(ptrs: Map<u32, bool>, inst: Inst) -> Option<(u32, u32)> {
    match inst {
        Inst::Assign { dst, value: RValue::Use(Operand::Reg(src)), .. } => if holds_ptr(
            ptrs,
            src.0,
        ) {
            None
        } else {
            Some((dst.0, src.0))
        },
        _ => None,
    }
}

/// The causes of parameters of a function that are no pointers.
pub open spec fn param_causes(params: Seq<(RegId, Type)>) -> Seq<(u32, ScalarPtrCause)>
    decreases params.len(),
{
    if params.len() == 0 {
        Seq::empty()
    } else {
        let s = param_causes(params.drop_last());
        if params.last().1 is Ptr {
            s
        } else {
            s.push(((params.last().0).0, ScalarPtrCause::ScalarParam))
        }
    }
}

/// The causes of block parameters.
pub open spec fn join_causes(params: Seq<(RegId, Type)>) -> Seq<(u32, ScalarPtrCause)> {
    Seq::new(params.len(), |i: int| ((params[i].0).0, ScalarPtrCause::BlockParam))
}

/// The causes of the results of instructions.
pub open spec fn inst_causes(ptrs: Map<u32, bool>, insts: Seq<Inst>) -> Seq<(u32, ScalarPtrCause)>
    decreases insts.len(),
{
    if insts.len() == 0 {
        Seq::empty()
    } else {
        match inst_cause(ptrs, insts.last()) {
            Some(n) => inst_causes(ptrs, insts.drop_last()).push(n),
            None => inst_causes(ptrs, insts.drop_last()),
        }
    }
}

/// The causes of what blocks define.
pub open spec fn block_causes(ptrs: Map<u32, bool>, blocks: Seq<BasicBlock>) -> Seq<
    (u32, ScalarPtrCause),
>
    decreases blocks.len(),
{
    if blocks.len() == 0 {
        Seq::empty()
    } else {
        block_causes(ptrs, blocks.drop_last()) + join_causes(blocks.last().params@) + inst_causes(
            ptrs,
            blocks.last().insts@,
        )
    }
}

/// The copies among instructions.
pub open spec fn inst_copies(ptrs: Map<u32, bool>, insts: Seq<Inst>) -> Seq<(u32, u32)>
    decreases insts.len(),
{
    if insts.len() == 0 {
        Seq::empty()
    } else {
        match inst_copy(ptrs, insts.last()) {
            Some(n) => inst_copies(ptrs, insts.drop_last()).push(n),
            None => inst_copies(ptrs, insts.drop_last()),
        }
    }
}

/// The copies in blocks.
pub open spec fn block_copies(ptrs: Map<u32, bool>, blocks: Seq<BasicBlock>) -> Seq<(u32, u32)>
    decreases blocks.len(),
{
    if blocks.len() == 0 {
        Seq::empty()
    } else {
        block_copies(ptrs, blocks.drop_last()) + inst_copies(ptrs, blocks.last().insts@)
    }
}

/// The first cause of each register.
pub open spec fn first_causes(f: Function) -> Map<u32, ScalarPtrCause> {
    numbered(param_causes(f.params@) + block_causes(pointer_regs(f), f.blocks@))
}

/// The register that each register is a copy of.
pub open spec fn copies(f: Function) -> Map<u32, u32> {
    numbered(block_copies(pointer_regs(f), f.blocks@))
}

/// The cause of a register at which a chain of copies ends.
pub open spec fn root_cause(
    ptrs: Map<u32, bool>,
    causes: Map<u32, ScalarPtrCause>,
    r: u32,
) -> ScalarPtrCause {
    match at(causes, r) {
        Some(c) if c != ScalarPtrCause::Copy => c,
        _ => if holds_ptr(ptrs, r) {
            ScalarPtrCause::PtrRoot
        } else {
            ScalarPtrCause::Other
        },
    }
}

/// The cause at the end of a chain of at most `fuel` copies.
pub open spec fn resolved(
    ptrs: Map<u32, bool>,
    causes: Map<u32, ScalarPtrCause>,
    copy_of: Map<u32, u32>,
    r: u32,
    fuel: nat,
) -> ScalarPtrCause
    decreases fuel,
{
    if fuel == 0 {
        ScalarPtrCause::Other
    } else {
        match at(copy_of, r) {
            None => root_cause(ptrs, causes, r),
            Some(src) => if holds_ptr(ptrs, src) {
                ScalarPtrCause::PtrRoot
            } else {
                match at(causes, src) {
                    Some(c) if c != ScalarPtrCause::Copy => c,
                    _ => resolved(ptrs, causes, copy_of, src, (fuel - 1) as nat),
                }
            },
        }
    }
}

/// The number of copies that are followed.
pub const COPY_LIMIT: u32 = 1024;

/// Causes, with those of copies resolved.
pub open spec fn with_resolved(
    ptrs: Map<u32, bool>,
    causes: Map<u32, ScalarPtrCause>,
    copy_of: Map<u32, u32>,
    done: Map<u32, u32>,
) -> Map<u32, ScalarPtrCause> {
    Map::new(
        |r: u32| causes.contains_key(r) || done.contains_key(r),
        |r: u32|
            if done.contains_key(r) {
                resolved(ptrs, causes, copy_of, r, COPY_LIMIT as nat)
            } else {
                causes[r]
            },
    )
}

/// How each register was computed.
pub open spec fn classified(f: Function) -> Map<u32, ScalarPtrCause> {
    with_resolved(pointer_regs(f), first_causes(f), copies(f), copies(f))
}

// ---- computing the classification ----

fn note_params(params: &Vec<(RegId, Type)>, out: &mut Vec<(u32, bool)>)
    ensures
        final(out)@ == old(out)@ + param_notes(params@),
{
    let mut i: usize = 0;
    assert(out@ + param_notes(params@.take(0)) =~= out@);
    while i < params.len()
        invariant
            i <= params@.len(),
            out@ == old(out)@ + param_notes(params@.take(i as int)),
        decreases params@.len() - i,
    {
        out.push(((params[i].0).0, params[i].1.is_ptr()));
        assert(out@ =~= old(out)@ + param_notes(params@.take(i + 1)));
        i += 1;
    }
    assert(params@.take(params@.len() as int) =~= params@);
}

fn note_insts(insts: &Vec<Inst>, out: &mut Vec<(u32, bool)>)
    ensures
        final(out)@ == old(out)@ + inst_notes(insts@),
{
    let mut i: usize = 0;
    assert(insts@.take(0) =~= Seq::<Inst>::empty());
    assert(out@ + inst_notes(insts@.take(0)) =~= out@);
    while i < insts.len()
        invariant
            i <= insts@.len(),
            out@ == old(out)@ + inst_notes(insts@.take(i as int)),
        decreases insts@.len() - i,
    {
        assert(insts@.take(i + 1).drop_last() =~= insts@.take(i as int));
        assert(insts@.take(i + 1).last() == insts@[i as int]);
        let n: Option<(u32, bool)> = match &insts[i] {
            Inst::Assign { dst, ty, .. } => Some((dst.0, ty.is_ptr())),
            Inst::Load { dst, ty, .. } => Some((dst.0, ty.is_ptr())),
            Inst::PtrOffset { dst, .. } => Some((dst.0, true)),
            Inst::FieldPtr { dst, .. } => Some((dst.0, true)),
            Inst::Alloc { dst, .. } => Some((dst.0, true)),
            Inst::Call { dst: Some(dst), ret_ty, .. } => Some((dst.0, ret_ty.is_ptr())),
            _ => None,
        };
        if let Some(x) = n {
            out.push(x);
        }
        assert(out@ =~= old(out)@ + inst_notes(insts@.take(i + 1)));
        i += 1;
    }
    assert(insts@.take(insts@.len() as int) =~= insts@);
}

fn notes(f: &Function) -> (r: Vec<(u32, bool)>)
    ensures
        numbered(r@) == pointer_regs(*f),
{
    let mut out: Vec<(u32, bool)> = Vec::new();
    note_params(&f.params, &mut out);
    let ghost start = param_notes(f.params@);
    assert(out@ =~= start);
    let mut i: usize = 0;
    assert(f.blocks@.take(0) =~= Seq::<BasicBlock>::empty());
    assert(start + block_notes(f.blocks@.take(0)) =~= start);
    while i < f.blocks.len()
        invariant
            i <= f.blocks@.len(),
            out@ == start + block_notes(f.blocks@.take(i as int)),
        decreases f.blocks@.len() - i,
    {
        assert(f.blocks@.take(i + 1).drop_last() =~= f.blocks@.take(i as int));
        assert(f.blocks@.take(i + 1).last() == f.blocks@[i as int]);
        note_params(&f.blocks[i].params, &mut out);
        note_insts(&f.blocks[i].insts, &mut out);
        assert(out@ =~= start + block_notes(f.blocks@.take(i + 1)));
        i += 1;
    }
    assert(f.blocks@.take(f.blocks@.len() as int) =~= f.blocks@);
    out
}

fn is_ptr(ptrs: &Vec<(u32, bool)>, r: u32) -> (b: bool)
    ensures
        b == holds_ptr(numbered(ptrs@), r),
{
    match find(ptrs, r) {
        Some(p) => *p,
        None => false,
    }
}

fn operand_is_ptr(ptrs: &Vec<(u32, bool)>, o: &Operand) -> (b: bool)
    ensures
        b == ptr_operand(numbered(ptrs@), *o),
{
    match o {
        Operand::Reg(r) => is_ptr(ptrs, r.0),
        _ => false,
    }
}

fn cause_of_value(ptrs: &Vec<(u32, bool)>, v: &RValue) -> (c: ScalarPtrCause)
    ensures
        c == value_cause(numbered(ptrs@), *v),
{
    match v {
        RValue::Cast { op: CastOp::PtrToInt, .. } => ScalarPtrCause::PtrToInt,
        RValue::Cast { operand, .. } => if operand_is_ptr(ptrs, operand) {
            ScalarPtrCause::PtrCopy
        } else {
            ScalarPtrCause::IntArith
        },
        RValue::Use(Operand::Reg(src)) => if is_ptr(ptrs, src.0) {
            ScalarPtrCause::PtrCopy
        } else {
            ScalarPtrCause::Copy
        },
        RValue::Use(Operand::Const(c)) => match c {
            Const::Undef => ScalarPtrCause::ConstUndef,
            Const::Symbol(_) => ScalarPtrCause::ConstSymbol,
            Const::SymbolOffset(_, _) => ScalarPtrCause::ConstSymbol,
            Const::Int(_) => ScalarPtrCause::ConstInt,
            Const::Null => ScalarPtrCause::ConstNull,
        },
        RValue::Bin { op, lhs, rhs } => match op {
            BinOp::And => ScalarPtrCause::BitMask,
            BinOp::Or => ScalarPtrCause::BitMask,
            BinOp::Xor => ScalarPtrCause::BitMask,
            BinOp::Shl => ScalarPtrCause::BitMask,
            BinOp::LShr => ScalarPtrCause::BitMask,
            BinOp::AShr => ScalarPtrCause::BitMask,
            _ => if operand_is_ptr(ptrs, lhs) || operand_is_ptr(ptrs, rhs) {
                ScalarPtrCause::PtrArith
            } else {
                ScalarPtrCause::IntArith
            },
        },
        RValue::Cmp { .. } => ScalarPtrCause::IntArith,
        RValue::Select { .. } => ScalarPtrCause::Other,
    }
}

fn cause_of_inst(ptrs: &Vec<(u32, bool)>, inst: &Inst) -> (r: Option<(u32, ScalarPtrCause)>)
    ensures
        r == inst_cause(numbered(ptrs@), *inst),
{
    match inst {
        Inst::Load { dst, .. } => Some((dst.0, ScalarPtrCause::LoadedScalar)),
        Inst::Call { dst: Some(dst), .. } => Some((dst.0, ScalarPtrCause::CallResult)),
        Inst::PtrOffset { dst, .. } => Some((dst.0, ScalarPtrCause::PtrResult)),
        Inst::FieldPtr { dst, .. } => Some((dst.0, ScalarPtrCause::PtrResult)),
        Inst::Alloc { dst, .. } => Some((dst.0, ScalarPtrCause::PtrResult)),
        Inst::Assign { dst, value, .. } => Some((dst.0, cause_of_value(ptrs, value))),
        _ => None,
    }
}

fn copy_of_inst(ptrs: &Vec<(u32, bool)>, inst: &Inst) -> (r: Option<(u32, u32)>)
    ensures
        r == inst_copy(numbered(ptrs@), *inst),
{
    match inst {
        Inst::Assign { dst, value: RValue::Use(Operand::Reg(src)), .. } => if is_ptr(ptrs, src.0) {
            None
        } else {
            Some((dst.0, src.0))
        },
        _ => None,
    }
}

fn cause_insts(
    ptrs: &Vec<(u32, bool)>,
    insts: &Vec<Inst>,
    causes: &mut Vec<(u32, ScalarPtrCause)>,
    copy_of: &mut Vec<(u32, u32)>,
)
    ensures
        final(causes)@ == old(causes)@ + inst_causes(numbered(ptrs@), insts@),
        final(copy_of)@ == old(copy_of)@ + inst_copies(numbered(ptrs@), insts@),
{
    let ghost ps = numbered(ptrs@);
    let mut i: usize = 0;
    assert(insts@.take(0) =~= Seq::<Inst>::empty());
    assert(causes@ + inst_causes(ps, insts@.take(0)) =~= causes@);
    assert(copy_of@ + inst_copies(ps, insts@.take(0)) =~= copy_of@);
    while i < insts.len()
        invariant
            i <= insts@.len(),
            ps == numbered(ptrs@),
            causes@ == old(causes)@ + inst_causes(ps, insts@.take(i as int)),
            copy_of@ == old(copy_of)@ + inst_copies(ps, insts@.take(i as int)),
        decreases insts@.len() - i,
    {
        assert(insts@.take(i + 1).drop_last() =~= insts@.take(i as int));
        assert(insts@.take(i + 1).last() == insts@[i as int]);
        if let Some(c) = cause_of_inst(ptrs, &insts[i]) {
            causes.push(c);
        }
        if let Some(c) = copy_of_inst(ptrs, &insts[i]) {
            copy_of.push(c);
        }
        assert(causes@ =~= old(causes)@ + inst_causes(ps, insts@.take(i + 1)));
        assert(copy_of@ =~= old(copy_of)@ + inst_copies(ps, insts@.take(i + 1)));
        i += 1;
    }
    assert(insts@.take(insts@.len() as int) =~= insts@);
}

fn cause_joins(params: &Vec<(RegId, Type)>, out: &mut Vec<(u32, ScalarPtrCause)>)
    ensures
        final(out)@ == old(out)@ + join_causes(params@),
{
    let mut i: usize = 0;
    assert(out@ + join_causes(params@.take(0)) =~= out@);
    while i < params.len()
        invariant
            i <= params@.len(),
            out@ == old(out)@ + join_causes(params@.take(i as int)),
        decreases params@.len() - i,
    {
        out.push(((params[i].0).0, ScalarPtrCause::BlockParam));
        assert(out@ =~= old(out)@ + join_causes(params@.take(i + 1)));
        i += 1;
    }
    assert(params@.take(params@.len() as int) =~= params@);
}

fn cause_params(params: &Vec<(RegId, Type)>) -> (r: Vec<(u32, ScalarPtrCause)>)
    ensures
        r@ == param_causes(params@),
{
    let mut out: Vec<(u32, ScalarPtrCause)> = Vec::new();
    let mut i: usize = 0;
    assert(params@.take(0) =~= Seq::<(RegId, Type)>::empty());
    assert(out@ =~= Seq::<(u32, ScalarPtrCause)>::empty());
    while i < params.len()
        invariant
            i <= params@.len(),
            out@ == param_causes(params@.take(i as int)),
        decreases params@.len() - i,
    {
        assert(params@.take(i + 1).drop_last() =~= params@.take(i as int));
        assert(params@.take(i + 1).last() == params@[i as int]);
        if !params[i].1.is_ptr() {
            out.push(((params[i].0).0, ScalarPtrCause::ScalarParam));
        }
        i += 1;
    }
    assert(params@.take(params@.len() as int) =~= params@);
    out
}

fn all_causes(f: &Function, ptrs: &Vec<(u32, bool)>) -> (r: (
    Vec<(u32, ScalarPtrCause)>,
    Vec<(u32, u32)>,
))
    requires
        numbered(ptrs@) == pointer_regs(*f),
    ensures
        numbered((r.0)@) == first_causes(*f),
        numbered((r.1)@) == copies(*f),
{
    let ghost ps = numbered(ptrs@);
    let mut causes = cause_params(&f.params);
    let mut copy_of: Vec<(u32, u32)> = Vec::new();
    let ghost start = param_causes(f.params@);
    let mut i: usize = 0;
    assert(f.blocks@.take(0) =~= Seq::<BasicBlock>::empty());
    assert(start + block_causes(ps, f.blocks@.take(0)) =~= start);
    assert(copy_of@ =~= block_copies(ps, f.blocks@.take(0)));
    while i < f.blocks.len()
        invariant
            i <= f.blocks@.len(),
            ps == numbered(ptrs@),
            causes@ == start + block_causes(ps, f.blocks@.take(i as int)),
            copy_of@ == block_copies(ps, f.blocks@.take(i as int)),
        decreases f.blocks@.len() - i,
    {
        assert(f.blocks@.take(i + 1).drop_last() =~= f.blocks@.take(i as int));
        assert(f.blocks@.take(i + 1).last() == f.blocks@[i as int]);
        cause_joins(&f.blocks[i].params, &mut causes);
        cause_insts(ptrs, &f.blocks[i].insts, &mut causes, &mut copy_of);
        assert(causes@ =~= start + block_causes(ps, f.blocks@.take(i + 1)));
        i += 1;
    }
    assert(f.blocks@.take(f.blocks@.len() as int) =~= f.blocks@);
    (causes, copy_of)
}

fn resolve(
    ptrs: &Vec<(u32, bool)>,
    causes: &Vec<(u32, ScalarPtrCause)>,
    copy_of: &Vec<(u32, u32)>,
    start: u32,
) -> (c: ScalarPtrCause)
    ensures
        c == resolved(
            numbered(ptrs@),
            numbered(causes@),
            numbered(copy_of@),
            start,
            COPY_LIMIT as nat,
        ),
{
    let mut cur: u32 = start;
    let mut fuel: u32 = COPY_LIMIT;
    while fuel > 0
        invariant
            fuel <= COPY_LIMIT,
            resolved(
                numbered(ptrs@),
                numbered(causes@),
                numbered(copy_of@),
                start,
                COPY_LIMIT as nat,
            ) == resolved(
                numbered(ptrs@),
                numbered(causes@),
                numbered(copy_of@),
                cur,
                fuel as nat,
            ),
        decreases fuel,
    {
        match find(copy_of, cur) {
            None => {
                return match find(causes, cur) {
                    Some(c) if *c != ScalarPtrCause::Copy => *c,
                    _ => if is_ptr(ptrs, cur) {
                        ScalarPtrCause::PtrRoot
                    } else {
                        ScalarPtrCause::Other
                    },
                };
            },
            Some(src) => {
                if is_ptr(ptrs, *src) {
                    return ScalarPtrCause::PtrRoot;
                }
                match find(causes, *src) {
                    Some(c) if *c != ScalarPtrCause::Copy => {
                        return *c;
                    },
                    _ => {
                        cur = *src;
                        fuel = fuel - 1;
                    },
                }
            },
        }
    }
    ScalarPtrCause::Other
}

fn copy_causes(s: &Vec<(u32, ScalarPtrCause)>) -> (r: Vec<(u32, ScalarPtrCause)>)
    ensures
        r@ == s@,
{
    let mut out: Vec<(u32, ScalarPtrCause)> = Vec::new();
    let mut i: usize = 0;
    while i < s.len()
        invariant
            i <= s@.len(),
            out@ == s@.take(i as int),
        decreases s@.len() - i,
    {
        out.push((s[i].0, s[i].1));
        assert(out@ =~= s@.take(i + 1));
        i += 1;
    }
    assert(s@.take(s@.len() as int) =~= s@);
    out
}

/// How each register of a function was computed, for those that are used as pointers
/// though they are numbers. Copies are followed to what they copy.
pub fn classify_scalar_ptr_defs(f: &Function) -> (r: Vec<(u32, ScalarPtrCause)>)
    ensures
        numbered(r@) == classified(*f),
{
    let ptrs = notes(f);
    let (causes, copy_of) = all_causes(f, &ptrs);
    let ghost ps = numbered(ptrs@);
    let ghost cs = numbered(causes@);
    let ghost co = numbered(copy_of@);
    let mut out = copy_causes(&causes);
    let mut i: usize = 0;
    assert(copy_of@.take(0) =~= Seq::<(u32, u32)>::empty());
    assert(numbered(out@) =~= with_resolved(ps, cs, co, numbered(copy_of@.take(0))));
    while i < copy_of.len()
        invariant
            i <= copy_of@.len(),
            ps == numbered(ptrs@),
            cs == numbered(causes@),
            co == numbered(copy_of@),
            numbered(out@) == with_resolved(ps, cs, co, numbered(copy_of@.take(i as int))),
        decreases copy_of@.len() - i,
    {
        let start: u32 = copy_of[i].0;
        let c = resolve(&ptrs, &causes, &copy_of, start);
        proof {
            lemma_numbered_push(out@, (start, c));
            lemma_numbered_push(copy_of@.take(i as int), copy_of@[i as int]);
            assert(copy_of@.take(i + 1) =~= copy_of@.take(i as int).push(copy_of@[i as int]));
        }
        out.push((start, c));
        assert(numbered(out@) =~= with_resolved(ps, cs, co, numbered(copy_of@.take(i + 1))));
        i += 1;
    }
    assert(copy_of@.take(copy_of@.len() as int) =~= copy_of@);
    out
}

// ---- laws ----

proof fn lemma_resolved(
    ptrs: Map<u32, bool>,
    causes: Map<u32, ScalarPtrCause>,
    copy_of: Map<u32, u32>,
    r: u32,
    fuel: nat,
)
    ensures
        resolved(ptrs, causes, copy_of, r, fuel) != ScalarPtrCause::Copy,
    decreases fuel,
{
    if fuel > 0 {
        if let Some(src) = at(copy_of, r) {
            lemma_resolved(ptrs, causes, copy_of, src, (fuel - 1) as nat);
        }
    }
}

/// The register of every entry that is a copy has an entry among the copies.
spec fn copies_listed(cs: Seq<(u32, ScalarPtrCause)>, co: Seq<(u32, u32)>) -> bool {
    forall|i: int|
        0 <= i < cs.len() && (#[trigger] cs[i]).1 == ScalarPtrCause::Copy ==> numbered(
            co,
        ).contains_key(cs[i].0)
}

proof fn lemma_copies_grow(a: Seq<(u32, u32)>, b: Seq<(u32, u32)>, r: u32)
    requires
        numbered(a).contains_key(r) || numbered(b).contains_key(r),
    ensures
        numbered(a + b).contains_key(r),
{
    lemma_numbered_has(a, r);
    lemma_numbered_has(b, r);
    lemma_numbered_has(a + b, r);
    if numbered(a).contains_key(r) {
        let i = choose|i: int| 0 <= i < a.len() && (#[trigger] a[i]).0 == r;
        assert((a + b)[i].0 == r);
    } else {
        let i = choose|i: int| 0 <= i < b.len() && (#[trigger] b[i]).0 == r;
        assert((a + b)[a.len() + i].0 == r);
    }
}

proof fn lemma_insts_listed(ptrs: Map<u32, bool>, insts: Seq<Inst>)
    ensures
        copies_listed(inst_causes(ptrs, insts), inst_copies(ptrs, insts)),
    decreases insts.len(),
{
    if insts.len() > 0 {
        lemma_insts_listed(ptrs, insts.drop_last());
        let cs = inst_causes(ptrs, insts.drop_last());
        let co = inst_copies(ptrs, insts.drop_last());
        if let Some(c) = inst_copy(ptrs, insts.last()) {
            lemma_numbered_push(co, c);
        }
        assert forall|i: int|
            0 <= i < inst_causes(ptrs, insts).len() && (#[trigger] inst_causes(ptrs, insts)[i]).1
                == ScalarPtrCause::Copy implies numbered(inst_copies(ptrs, insts)).contains_key(
            inst_causes(ptrs, insts)[i].0,
        ) by {
            if i < cs.len() {
                assert(inst_causes(ptrs, insts)[i] == cs[i]);
            }
        }
    }
}

proof fn lemma_blocks_listed(ptrs: Map<u32, bool>, blocks: Seq<BasicBlock>)
    ensures
        copies_listed(block_causes(ptrs, blocks), block_copies(ptrs, blocks)),
    decreases blocks.len(),
{
    if blocks.len() > 0 {
        lemma_blocks_listed(ptrs, blocks.drop_last());
        lemma_insts_listed(ptrs, blocks.last().insts@);
        let a = block_causes(ptrs, blocks.drop_last());
        let j = join_causes(blocks.last().params@);
        let b = inst_causes(ptrs, blocks.last().insts@);
        let ca = block_copies(ptrs, blocks.drop_last());
        let cb = inst_copies(ptrs, blocks.last().insts@);
        let all = block_causes(ptrs, blocks);
        assert forall|i: int|
            0 <= i < all.len() && (#[trigger] all[i]).1 == ScalarPtrCause::Copy implies numbered(
            block_copies(ptrs, blocks),
        ).contains_key(all[i].0) by {
            if i < a.len() {
                assert(all[i] == a[i]);
                lemma_copies_grow(ca, cb, all[i].0);
            } else if i < a.len() + j.len() {
                assert(all[i] == j[i - a.len()]);
            } else {
                assert(all[i] == b[i - a.len() - j.len()]);
                lemma_copies_grow(ca, cb, all[i].0);
            }
        }
    }
}

proof fn lemma_last_entry(s: Seq<(u32, ScalarPtrCause)>, r: u32)
    requires
        numbered(s).contains_key(r),
    ensures
        exists|i: int| 0 <= i < s.len() && #[trigger] s[i] == (r, numbered(s)[r]),
    decreases s.len(),
{
    if s.len() > 0 {
        if s.last().0 == r {
            assert(s[s.len() - 1] == (r, numbered(s)[r]));
        } else {
            lemma_last_entry(s.drop_last(), r);
            let t = s.drop_last();
            let i = choose|i: int| 0 <= i < t.len() && #[trigger] t[i] == (r, numbered(t)[r]);
            assert(s[i] == (r, numbered(s)[r]));
        }
    }
}

proof fn lemma_params_listed(params: Seq<(RegId, Type)>)
    ensures
        forall|i: int|
            0 <= i < param_causes(params).len() ==> (#[trigger] param_causes(params)[i]).1
                == ScalarPtrCause::ScalarParam,
    decreases params.len(),
{
    if params.len() > 0 {
        lemma_params_listed(params.drop_last());
    }
}

/// No register is left classified as an unresolved copy.
pub proof fn no_copy_is_left(f: Function, r: u32)
    requires
        classified(f).contains_key(r),
    ensures
        classified(f)[r] != ScalarPtrCause::Copy,
{
    let ps = pointer_regs(f);
    lemma_resolved(ps, first_causes(f), copies(f), r, COPY_LIMIT as nat);
    if !copies(f).contains_key(r) {
        let a = param_causes(f.params@);
        let b = block_causes(ps, f.blocks@);
        lemma_last_entry(a + b, r);
        let i = choose|i: int| 0 <= i < (a + b).len() && #[trigger] (a + b)[i] == (r, first_causes(f)[r]);
        lemma_params_listed(f.params@);
        lemma_blocks_listed(ps, f.blocks@);
        if i < a.len() {
            assert((a + b)[i] == a[i]);
        } else {
            assert((a + b)[i] == b[i - a.len()]);
        }
    }
}

} // verus!
