//! What a function defines, and what its parameters may be assumed to be.

use crate::ir::{align_of, Assumption, BinOp, PtrContract, SizeSpec, Type};
use crate::llvm::ast::{LBlock, LFunc, LInst, LParam, LPhi, LTerm, LType, LValue};
use crate::llvm::calls::{overflow_intrinsic_op, overflow_op};
use crate::llvm::debuginfo::{DebugInfo, DiView};
use crate::llvm::lower::{defined_view, low_half, lower_type, type_of, CtxView};
use crate::llvm::slices::{all_insts, detect_slice, flat, sized, slice_at, values};
use crate::names::{lemma_table_push, table};
use vstd::prelude::*;

verus! {

// ---- what a function's instructions tell ----

/// The checked operation whose result an instruction names.
pub open spec fn checked_op(inst: LInst) -> Option<(Seq<char>, (BinOp, LValue, LValue))> {
    match inst {
        LInst::Call { dst: Some(dst), callee, args, .. } => match overflow_op(callee@) {
            Some(op) => if args@.len() == 2 {
                Some((dst@, (op, args@[0], args@[1])))
            } else {
                None
            },
            None => None,
        },
        _ => None,
    }
}

/// The checked operation whose result each value holds.
pub open spec fn checked_ops(insts: Seq<LInst>) -> Map<Seq<char>, (BinOp, LValue, LValue)>
    decreases insts.len(),
{
    if insts.len() == 0 {
        Map::empty()
    } else {
        let m = checked_ops(insts.drop_last());
        match checked_op(insts.last()) {
            Some((dst, e)) => m.insert(dst, e),
            None => m,
        }
    }
}

/// The checked operation whose result each value of a function holds.
pub fn checked_arith_map(f: &LFunc) -> (r: Vec<(String, (BinOp, LValue, LValue))>)
    ensures
        table(r@) == checked_ops(flat(f.blocks@)),
{
    let insts = all_insts(f);
    let ghost all = flat(f.blocks@);
    let mut out: Vec<(String, (BinOp, LValue, LValue))> = Vec::new();
    let mut i: usize = 0;
    assert(all.take(0) =~= Seq::<LInst>::empty());
    while i < insts.len()
        invariant
            i <= insts@.len(),
            values(insts@) == all,
            table(out@) == checked_ops(all.take(i as int)),
        decreases insts@.len() - i,
    {
        assert(all[i as int] == *insts@[i as int]);
        assert(all.take(i + 1).drop_last() =~= all.take(i as int));
        assert(all.take(i + 1).last() == all[i as int]);
        if let LInst::Call { dst: Some(dst), callee, args, .. } = insts[i] {
            if let Some(op) = overflow_intrinsic_op(callee) {
                if args.len() == 2 {
                    let e: (String, (BinOp, LValue, LValue)) = (
                        dst.clone(),
                        (op, args[0].copy(), args[1].copy()),
                    );
                    proof {
                        lemma_table_push(out@, e);
                    }
                    out.push(e);
                }
            }
        }
        i += 1;
    }
    assert(all.take(all.len() as int) =~= all);
    out
}

/// The type that an instruction shows the named pointer to point to one element of.
pub open spec fn shown_pointee(inst: LInst, name: Seq<char>) -> Option<Type> {
    match inst {
        LInst::GepChain { agg_ty, base: LValue::Local(b), indices, .. } => if b@ == name
            && indices@.len() > 0 && indices@[0] == LValue::Int(0) {
            Some(type_of(agg_ty))
        } else {
            None
        },
        _ => None,
    }
}

/// The size and alignment of the largest type that a pointer is shown to point to; the
/// first of several.
pub open spec fn largest_pointee(insts: Seq<LInst>, name: Seq<char>) -> Option<(u64, u32)>
    decreases insts.len(),
{
    if insts.len() == 0 {
        None
    } else {
        let best = largest_pointee(insts.drop_last(), name);
        match shown_pointee(insts.last(), name) {
            Some(t) => match sized(t) {
                Some(n) => if n > 0 && (best is None || n > (best->0).0) {
                    Some((n, low_half(align_of(t) as u64)))
                } else {
                    best
                },
                None => best,
            },
            None => best,
        }
    }
}

/// The size and alignment of what a raw pointer parameter points to, from its uses.
pub fn infer_raw_ptr_pointee(f: &LFunc, name: &String) -> (r: Option<(u64, u32)>)
    ensures
        r == largest_pointee(flat(f.blocks@), name@),
{
    let insts = all_insts(f);
    let ghost all = flat(f.blocks@);
    let mut best: Option<(u64, u32)> = None;
    let mut i: usize = 0;
    assert(all.take(0) =~= Seq::<LInst>::empty());
    while i < insts.len()
        invariant
            i <= insts@.len(),
            values(insts@) == all,
            best == largest_pointee(all.take(i as int), name@),
        decreases insts@.len() - i,
    {
        assert(all[i as int] == *insts@[i as int]);
        assert(all.take(i + 1).drop_last() =~= all.take(i as int));
        assert(all.take(i + 1).last() == all[i as int]);
        if let LInst::GepChain { agg_ty, base: LValue::Local(b), indices, .. } = insts[i] {
            if *b == *name && indices.len() > 0 {
                if let LValue::Int(0) = indices[0] {
                    let ty = lower_type(agg_ty);
                    if let Some(n) = ty.size_bytes() {
                        let better = match best {
                            Some((m, _)) => n > m,
                            None => true,
                        };
                        if n > 0 && better {
                            best = Some((n, (ty.align_bytes() % 0x1_0000_0000) as u32));
                        }
                    }
                }
            }
        }
        i += 1;
    }
    assert(all.take(all.len() as int) =~= all);
    best
}

// ---- names ----

/// The name that an instruction gives its result.
pub open spec fn dst_of(inst: LInst) -> Option<String> {
    match inst {
        LInst::Alloca { dst, .. } => Some(dst),
        LInst::Load { dst, .. } => Some(dst),
        LInst::Store { .. } => None,
        LInst::Gep { dst, .. } => Some(dst),
        LInst::GepField { dst, .. } => Some(dst),
        LInst::GepChain { dst, .. } => Some(dst),
        LInst::Bin { dst, .. } => Some(dst),
        LInst::Icmp { dst, .. } => Some(dst),
        LInst::Cast { dst, .. } => Some(dst),
        LInst::Select { dst, .. } => Some(dst),
        LInst::ExtractValue { dst, .. } => Some(dst),
        LInst::Opaque { dst } => Some(dst),
        LInst::AtomicRmw { dst, .. } => Some(dst),
        LInst::Call { dst, .. } => dst,
    }
}

/// The name that an instruction gives its result.
pub fn inst_dst(inst: &LInst) -> (r: Option<&String>)
    ensures
        match r {
            Some(s) => dst_of(*inst) == Some(*s),
            None => dst_of(*inst) is None,
        },
{
    match inst {
        LInst::Alloca { dst, .. } => Some(dst),
        LInst::Load { dst, .. } => Some(dst),
        LInst::Store { .. } => None,
        LInst::Gep { dst, .. } => Some(dst),
        LInst::GepField { dst, .. } => Some(dst),
        LInst::GepChain { dst, .. } => Some(dst),
        LInst::Bin { dst, .. } => Some(dst),
        LInst::Icmp { dst, .. } => Some(dst),
        LInst::Cast { dst, .. } => Some(dst),
        LInst::Select { dst, .. } => Some(dst),
        LInst::ExtractValue { dst, .. } => Some(dst),
        LInst::Opaque { dst } => Some(dst),
        LInst::AtomicRmw { dst, .. } => Some(dst),
        LInst::Call { dst, .. } => match dst {
            Some(d) => Some(d),
            None => None,
        },
    }
}

/// The names of phi nodes.
pub open spec fn phi_names(phis: Seq<LPhi>) -> Seq<Seq<char>> {
    Seq::new(phis.len(), |i: int| phis[i].dst@)
}

/// The names of instructions' results.
pub open spec fn inst_names(insts: Seq<LInst>) -> Seq<Seq<char>>
    decreases insts.len(),
{
    if insts.len() == 0 {
        Seq::empty()
    } else {
        let s = inst_names(insts.drop_last());
        match dst_of(insts.last()) {
            Some(n) => s.push(n@),
            None => s,
        }
    }
}

/// The name of a terminator's result.
pub open spec fn term_names(t: LTerm) -> Seq<Seq<char>> {
    match t {
        LTerm::Invoke { dst: Some(d), .. } => seq![d@],
        LTerm::CallBr { dst: Some(d), .. } => seq![d@],
        _ => Seq::empty(),
    }
}

/// The names that blocks define, in order.
pub open spec fn block_names(blocks: Seq<LBlock>) -> Seq<Seq<char>>
    decreases blocks.len(),
{
    if blocks.len() == 0 {
        Seq::empty()
    } else {
        let b = blocks.last();
        block_names(blocks.drop_last()) + phi_names(b.phis@) + inst_names(b.insts@) + term_names(
            b.term,
        )
    }
}

/// The context after definitions of names.
pub open spec fn defined_all(c: CtxView, names: Seq<Seq<char>>) -> CtxView
    decreases names.len(),
{
    if names.len() == 0 {
        c
    } else {
        defined_view(defined_all(c, names.drop_last()), names.last()).0
    }
}

/// The texts of strings.
pub open spec fn texts(s: Seq<&String>) -> Seq<Seq<char>> {
    Seq::new(s.len(), |i: int| s[i]@)
}

fn push_name<'a>(out: &mut Vec<&'a String>, s: &'a String)
    ensures
        texts(final(out)@) == texts(old(out)@).push(s@),
{
    let ghost before = out@;
    out.push(s);
    assert(texts(out@) =~= texts(before).push(s@));
}

fn names_in<'a>(b: &'a LBlock, out: &mut Vec<&'a String>)
    ensures
        texts(final(out)@) == texts(old(out)@) + phi_names(b.phis@) + inst_names(b.insts@)
            + term_names(b.term),
{
    let ghost start = texts(out@);
    let mut i: usize = 0;
    assert(start + phi_names(b.phis@.take(0)) =~= start);
    while i < b.phis.len()
        invariant
            i <= b.phis@.len(),
            texts(out@) == start + phi_names(b.phis@.take(i as int)),
        decreases b.phis@.len() - i,
    {
        push_name(out, &b.phis[i].dst);
        assert(texts(out@) =~= start + phi_names(b.phis@.take(i + 1)));
        i += 1;
    }
    assert(b.phis@.take(b.phis@.len() as int) =~= b.phis@);
    let ghost middle = texts(out@);
    let mut k: usize = 0;
    assert(b.insts@.take(0) =~= Seq::<LInst>::empty());
    assert(middle + inst_names(b.insts@.take(0)) =~= middle);
    while k < b.insts.len()
        invariant
            k <= b.insts@.len(),
            texts(out@) == middle + inst_names(b.insts@.take(k as int)),
        decreases b.insts@.len() - k,
    {
        assert(b.insts@.take(k + 1).drop_last() =~= b.insts@.take(k as int));
        assert(b.insts@.take(k + 1).last() == b.insts@[k as int]);
        if let Some(d) = inst_dst(&b.insts[k]) {
            push_name(out, d);
        }
        assert(texts(out@) =~= middle + inst_names(b.insts@.take(k + 1)));
        k += 1;
    }
    assert(b.insts@.take(b.insts@.len() as int) =~= b.insts@);
    match &b.term {
        LTerm::Invoke { dst: Some(d), .. } => {
            push_name(out, d);
        },
        LTerm::CallBr { dst: Some(d), .. } => {
            push_name(out, d);
        },
        _ => {},
    }
    assert(texts(out@) =~= middle + inst_names(b.insts@) + term_names(b.term));
}

/// The names that a function defines, in order.
pub fn all_names(f: &LFunc) -> (r: Vec<&String>)
    ensures
        texts(r@) == block_names(f.blocks@),
{
    let mut out: Vec<&String> = Vec::new();
    let mut i: usize = 0;
    assert(f.blocks@.take(0) =~= Seq::<LBlock>::empty());
    assert(texts(out@) =~= Seq::<Seq<char>>::empty());
    while i < f.blocks.len()
        invariant
            i <= f.blocks@.len(),
            texts(out@) == block_names(f.blocks@.take(i as int)),
        decreases f.blocks@.len() - i,
    {
        assert(f.blocks@.take(i + 1).drop_last() =~= f.blocks@.take(i as int));
        assert(f.blocks@.take(i + 1).last() == f.blocks@[i as int]);
        names_in(&f.blocks[i], &mut out);
        i += 1;
    }
    assert(f.blocks@.take(f.blocks@.len() as int) =~= f.blocks@);
    out
}

// ---- contracts of parameters ----

/// The contract of a parameter by its attributes, of the given size.
pub open spec fn attribute_contract(p: LParam, size: SizeSpec) -> PtrContract {
    PtrContract {
        assumption: None,
        refutable: true,
        size,
        align: match p.align {
            Some(a) => a,
            None => 1,
        },
        readable: !p.writeonly,
        writable: !p.readonly,
        sentinel: None,
    }
}

/// The bytes that a parameter's attributes promise: those that may be dereferenced, or a
/// buffer's.
pub open spec fn promised_bytes(p: LParam) -> Option<u64> {
    match p.deref {
        Some(n) => Some(n),
        None => match p.abi_buf {
            Some(t) => sized(type_of(t)),
            None => None,
        },
    }
}

/// The contract of a parameter: by its attributes, as a slice, or by debug information.
pub open spec fn contract_of(f: LFunc, di: DiView, idx: int) -> Option<PtrContract> {
    let p = f.params@[idx];
    if !(p.ty is Ptr) {
        None
    } else if promised_bytes(p) is Some {
        Some(attribute_contract(p, SizeSpec::Bytes(promised_bytes(p)->0)))
    } else if p.abi_buf is Some {
        None
    } else {
        match slice_at(f, idx) {
            Some((len_param, elem_size)) => Some(
                attribute_contract(p, SizeSpec::ParamElements { len_param, elem_size }),
            ),
            None => match f.dbg {
                None => None,
                Some(sp) => match di.param_ref(sp, (idx + 1) as u32) {
                    Some(c) => Some(
                        PtrContract {
                            assumption: Some(Assumption::DebugInfo),
                            writable: c.writable && !p.readonly,
                            ..attribute_contract(p, SizeSpec::Bytes(c.size))
                        },
                    ),
                    None => None,
                },
            },
        }
    }
}

/// The size and alignment that a pointer parameter without a contract is taken to have:
/// from debug information, or from its uses.
pub open spec fn hint_of(f: LFunc, di: DiView, idx: int) -> Option<(u64, u32)> {
    let p = f.params@[idx];
    let recorded = match f.dbg {
        Some(sp) => di.param_raw(sp, (idx + 1) as u32),
        None => None,
    };
    if !(p.ty is Ptr) || p.abi_buf is Some || contract_of(f, di, idx) is Some {
        None
    } else if recorded is Some {
        recorded
    } else {
        largest_pointee(flat(f.blocks@), p.name@)
    }
}

/// The contracts of the first parameters.
pub open spec fn contracts_of(f: LFunc, di: DiView, n: int) -> Seq<(u32, PtrContract)>
    decreases n,
{
    if n <= 0 {
        Seq::empty()
    } else {
        match contract_of(f, di, n - 1) {
            Some(c) => contracts_of(f, di, n - 1).push(((n - 1) as u32, c)),
            None => contracts_of(f, di, n - 1),
        }
    }
}

/// The hints of the first parameters.
pub open spec fn hints_of(f: LFunc, di: DiView, n: int) -> Seq<(u32, (u64, u32))>
    decreases n,
{
    if n <= 0 {
        Seq::empty()
    } else {
        match hint_of(f, di, n - 1) {
            Some(h) => hints_of(f, di, n - 1).push(((n - 1) as u32, h)),
            None => hints_of(f, di, n - 1),
        }
    }
}

fn by_attributes(p: &LParam, size: SizeSpec) -> (c: PtrContract)
    ensures
        c == attribute_contract(*p, size),
{
    PtrContract {
        assumption: None,
        refutable: true,
        size,
        align: match p.align {
            Some(a) => a,
            None => 1,
        },
        readable: !p.writeonly,
        writable: !p.readonly,
        sentinel: None,
    }
}

fn param_facts(f: &LFunc, di: &DebugInfo, idx: usize) -> (r: (
    Option<PtrContract>,
    Option<(u64, u32)>,
))
    requires
        idx < f.params@.len() <= u32::MAX,
    ensures
        r.0 == contract_of(*f, di@, idx as int),
        r.1 == hint_of(*f, di@, idx as int),
{
    let p = &f.params[idx];
    match p.ty {
        LType::Ptr => {},
        _ => {
            return (None, None);
        },
    }
    let bytes: Option<u64> = match p.deref {
        Some(n) => Some(n),
        None => match &p.abi_buf {
            Some(t) => lower_type(t).size_bytes(),
            None => None,
        },
    };
    if let Some(n) = bytes {
        return (Some(by_attributes(p, SizeSpec::Bytes(n))), None);
    }
    if p.abi_buf.is_some() {
        return (None, None);
    }
    if let Some((len_param, elem_size)) = detect_slice(f, idx) {
        return (Some(by_attributes(p, SizeSpec::ParamElements { len_param, elem_size })), None);
    }
    if let Some(sp) = f.dbg {
        if let Some(c) = di.param_ref(sp, (idx + 1) as u32) {
            return (
                Some(
                    PtrContract {
                        assumption: Some(Assumption::DebugInfo),
                        writable: c.writable && !p.readonly,
                        ..by_attributes(p, SizeSpec::Bytes(c.size))
                    },
                ),
                None,
            );
        }
        if let Some(h) = di.param_raw_ptr(sp, (idx + 1) as u32) {
            return (None, Some(h));
        }
    }
    (None, infer_raw_ptr_pointee(f, &p.name))
}

/// The contracts and hints of the parameters.
pub fn all_param_facts(f: &LFunc, di: &DebugInfo) -> (r: (
    Vec<(u32, PtrContract)>,
    Vec<(u32, (u64, u32))>,
))
    requires
        f.params@.len() <= u32::MAX,
    ensures
        (r.0)@ == contracts_of(*f, di@, f.params@.len() as int),
        (r.1)@ == hints_of(*f, di@, f.params@.len() as int),
{
    let mut contracts: Vec<(u32, PtrContract)> = Vec::new();
    let mut hints: Vec<(u32, (u64, u32))> = Vec::new();
    let mut i: usize = 0;
    assert(contracts@ =~= Seq::<(u32, PtrContract)>::empty());
    assert(hints@ =~= Seq::<(u32, (u64, u32))>::empty());
    while i < f.params.len()
        invariant
            i <= f.params@.len() <= u32::MAX,
            contracts@ == contracts_of(*f, di@, i as int),
            hints@ == hints_of(*f, di@, i as int),
        decreases f.params@.len() - i,
    {
        let (c, h) = param_facts(f, di, i);
        if let Some(c) = c {
            contracts.push((i as u32, c));
        }
        if let Some(h) = h {
            hints.push((i as u32, h));
        }
        i += 1;
    }
    (contracts, hints)
}

} // verus!
