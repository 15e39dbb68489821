//! Recognizing the shapes of loops.

use crate::exec::flow::{back_edge, facts_at, holds, loop_at, defined_reg, Flow};
use crate::exec::value::{PathState, PathView, Prov, SymPointer, SymValue, PTR_WIDTH};
use crate::expr::{width, width_of, Ex};
use crate::ir::{
    block_with, defined, BasicBlock, BinOp, BlockId, CastOp, CmpOp, Const, Function, Inst, Operand,
    RValue, RegId, Terminator, Type,
};
use crate::llvm::slices::sized;
use crate::numbers::{at, find};
use crate::summary::perfn::{all_insts, derefs, flat};
use vstd::prelude::*;

verus! {

// ---- definitions ----

/// The last instruction that defines a register.
pub open spec fn last_def(insts: Seq<Inst>, r: u32) -> Option<Inst>
    decreases insts.len(),
{
    if insts.len() == 0 {
        None
    } else if defined(insts.last()) == Some(RegId(r)) {
        Some(insts.last())
    } else {
        last_def(insts.drop_last(), r)
    }
}

/// How many copies are followed.
pub const CHAIN_LIMIT: u32 = 64;

/// The register that an instruction copies, where it is another.
pub open spec fn copy_source(d: Option<Inst>, r: u32) -> Option<u32> {
    match d {
        Some(Inst::Assign { value: RValue::Use(Operand::Reg(src)), .. }) => if src.0 != r {
            Some(src.0)
        } else {
            None
        },
        _ => None,
    }
}

/// The register that an instruction widens, where it is another.
pub open spec fn widen_source(d: Option<Inst>, r: u32) -> Option<u32> {
    match d {
        Some(
            Inst::Assign { value: RValue::Cast { op, operand: Operand::Reg(src), .. }, .. },
        ) => if (op == CastOp::SExt || op == CastOp::ZExt) && src.0 != r {
            Some(src.0)
        } else {
            None
        },
        _ => None,
    }
}

/// The register at the start of at most `fuel` copies.
pub open spec fn copy_root(insts: Seq<Inst>, r: u32, fuel: nat) -> u32
    decreases fuel,
{
    if fuel == 0 {
        r
    } else {
        match copy_source(last_def(insts, r), r) {
            Some(src) => copy_root(insts, src, (fuel - 1) as nat),
            None => r,
        }
    }
}

/// The register that a register is a copy of.
pub open spec fn root_of(insts: Seq<Inst>, r: u32) -> u32 {
    copy_root(insts, r, CHAIN_LIMIT as nat)
}

/// The register at the start of copies and at most `fuel` widenings.
pub open spec fn index_root(insts: Seq<Inst>, r: u32, fuel: nat) -> u32
    decreases fuel,
{
    if fuel == 0 {
        r
    } else {
        let c = root_of(insts, r);
        match widen_source(last_def(insts, c), c) {
            Some(src) => index_root(insts, src, (fuel - 1) as nat),
            None => c,
        }
    }
}

/// The operand is a copy of a register.
pub open spec fn copies_reg(insts: Seq<Inst>, o: Operand, reg: u32) -> bool {
    match o {
        Operand::Reg(r) => root_of(insts, r.0) == reg,
        _ => false,
    }
}

/// The operand is a constant of the given value.
pub open spec fn is_number(o: Operand, v: u128) -> bool {
    match o {
        Operand::Const(Const::Int(b)) => b.bits == v,
        _ => false,
    }
}

/// The operand is a register plus one, in either order.
pub open spec fn is_increment(insts: Seq<Inst>, o: Operand, reg: u32) -> Option<bool> {
    match o {
        Operand::Reg(m) => match last_def(insts, root_of(insts, m.0)) {
            Some(Inst::Assign { value: RValue::Bin { op: BinOp::Add, lhs, rhs }, .. }) => Some(
                (copies_reg(insts, lhs, reg) && is_number(rhs, 1)) || (copies_reg(insts, rhs, reg)
                    && is_number(lhs, 1)),
            ),
            _ => None,
        },
        _ => None,
    }
}

/// The arguments that a block passes along the edge to another.
pub open spec fn passed(f: Function, pred: u32, target: u32) -> Option<Seq<Operand>> {
    match block_with(f.blocks@, BlockId(pred)) {
        None => None,
        Some(b) => match b.term {
            Terminator::Br { target: t, args } => if t.0 == target {
                Some(args@)
            } else {
                None
            },
            Terminator::CondBr { then_blk, then_args, else_blk, else_args, .. } => if then_blk.0
                == target {
                Some(then_args@)
            } else if else_blk.0 == target {
                Some(else_args@)
            } else {
                None
            },
            _ => None,
        },
    }
}

/// The predecessors of a loop header.
pub open spec fn preds_of(flow: Flow, header: u32) -> Seq<u32> {
    match facts_at(flow.headers@, header) {
        Some(h) => h.preds@,
        None => Seq::empty(),
    }
}

/// A counter of a loop: whether it starts at a constant, or at 0 for `from_zero`, and
/// whether it goes up by one on the back edge, by the first `n` predecessors.
pub open spec fn counter(
    f: Function,
    flow: Flow,
    insts: Seq<Inst>,
    header: u32,
    reg: u32,
    pos: int,
    from_zero: bool,
    n: int,
) -> (bool, bool)
    decreases n,
{
    if n <= 0 {
        (false, false)
    } else {
        let (start, up) = counter(f, flow, insts, header, reg, pos, from_zero, n - 1);
        let pred = preds_of(flow, header)[n - 1];
        match passed(f, pred, header) {
            Some(args) => if 0 <= pos < args.len() {
                if back_edge(flow, pred, header) {
                    match is_increment(insts, args[pos], reg) {
                        Some(b) => (start, b),
                        None => (start, up),
                    }
                } else {
                    (
                        start || if from_zero {
                            is_number(args[pos], 0)
                        } else {
                            args[pos] matches Operand::Const(Const::Int(_))
                        },
                        up,
                    )
                }
            } else {
                (start, up)
            },
            None => (start, up),
        }
    }
}

/// The register counts up by one from a constant, or from 0.
pub open spec fn counts(
    f: Function,
    flow: Flow,
    header: u32,
    reg: u32,
    pos: int,
    from_zero: bool,
) -> bool {
    counter(
        f,
        flow,
        flat(f.blocks@),
        header,
        reg,
        pos,
        from_zero,
        preds_of(flow, header).len() as int,
    ) == (true, true)
}

/// The position of a register among block parameters.
pub open spec fn param_position(params: Seq<(RegId, Type)>, reg: u32) -> Option<int>
    decreases params.len(),
{
    if params.len() == 0 {
        None
    } else {
        match param_position(params.drop_last(), reg) {
            Some(i) => Some(i),
            None => if (params.last().0).0 == reg {
                Some(params.len() - 1)
            } else {
                None
            },
        }
    }
}

/// The condition is an upper bound of a register.
pub open spec fn bounds_above(insts: Seq<Inst>, c: u32, reg: u32) -> bool {
    match last_def(insts, root_of(insts, c)) {
        Some(Inst::Assign { value: RValue::Cmp { op, lhs, rhs }, .. }) => (op == CmpOp::Slt || op
            == CmpOp::Sle || op == CmpOp::Ult || op == CmpOp::Ule) && copies_reg(insts, lhs, reg)
            && !copies_reg(insts, rhs, reg),
        _ => false,
    }
}

/// The blocks of a loop.
pub open spec fn body_of(flow: Flow, header: u32) -> Seq<u32> {
    match loop_at(flow.loops@, header) {
        Some(l) => l.body@,
        None => Seq::empty(),
    }
}

/// The header's branch goes into the loop under an upper bound of a register, and out of
/// it otherwise.
pub open spec fn guarded(f: Function, hdr: BasicBlock, body: Seq<u32>, reg: u32) -> bool {
    match hdr.term {
        Terminator::CondBr { cond: Operand::Reg(c), then_blk, else_blk, .. } => bounds_above(
            flat(f.blocks@),
            c.0,
            reg,
        ) && body.contains(then_blk.0) && !body.contains(else_blk.0),
        _ => false,
    }
}

/// A block of a loop leaves it.
pub open spec fn leaves(f: Function, body: Seq<u32>, block: u32) -> bool {
    match block_with(f.blocks@, BlockId(block)) {
        None => false,
        Some(b) => match b.term {
            Terminator::Br { target, .. } => !body.contains(target.0),
            Terminator::CondBr { then_blk, else_blk, .. } => !body.contains(then_blk.0)
                || !body.contains(else_blk.0),
            _ => true,
        },
    }
}

/// Only the header leaves the loop.
pub open spec fn single_exit(f: Function, body: Seq<u32>, header: u32) -> bool {
    forall|i: int|
        0 <= i < body.len() && #[trigger] body[i] != header ==> !leaves(f, body, body[i])
}

/// A register that takes every value its loop guard admits: it counts up by one from a
/// constant, the guard bounds it, and nothing else leaves the loop.
pub open spec fn sound_counter(f: Function, flow: Flow, header: u32, reg: u32) -> bool {
    match block_with(f.blocks@, BlockId(header)) {
        None => false,
        Some(hdr) => match param_position(hdr.params@, reg) {
            None => false,
            Some(pos) => counts(f, flow, header, reg, pos, false) && guarded(
                f,
                hdr,
                body_of(flow, header),
                reg,
            ) && single_exit(f, body_of(flow, header), header),
        },
    }
}

// ---- sentinel scans ----

/// A register tests whether a value is zero.
pub open spec fn zero_test(insts: Seq<Inst>, c: u32, v: u32) -> bool {
    match last_def(insts, c) {
        Some(Inst::Assign { value: RValue::Cmp { op, lhs, rhs }, .. }) => (op == CmpOp::Eq || op
            == CmpOp::Ne) && ((lhs == Operand::Reg(RegId(v)) && is_number(rhs, 0)) || (rhs
            == Operand::Reg(RegId(v)) && is_number(lhs, 0))),
        _ => false,
    }
}

/// A block leaves the loop by a test whether a value is zero.
pub open spec fn gate_at(f: Function, body: Seq<u32>, v: u32, block: u32) -> bool {
    match block_with(f.blocks@, BlockId(block)) {
        None => false,
        Some(b) => match b.term {
            Terminator::CondBr { cond: Operand::Reg(c), then_blk, else_blk, .. } => zero_test(
                flat(f.blocks@),
                c.0,
                v,
            ) && (!body.contains(then_blk.0) || !body.contains(else_blk.0)),
            _ => false,
        },
    }
}

/// Some block leaves the loop by a test whether a value is zero.
pub open spec fn gates_exit(f: Function, body: Seq<u32>, v: u32) -> bool {
    exists|i: int| 0 <= i < body.len() && gate_at(f, body, v, #[trigger] body[i])
}

/// The bound that a load of `base[n]` shows: the index, the size of an element, and the
/// size of the region.
pub struct ScanBound {
    pub index: Ex,
    pub elem: u64,
    pub size: Ex,
}

/// The size of the region that a register points into, where it is terminated by an
/// element of the given width.
pub open spec fn terminated(s: PathView, base: u32, e: u64) -> Option<Ex> {
    match at(s.env, base) {
        Some(SymValue::Ptr(SymPointer { prov: Prov::Region(r), .. })) => if r < s.regions.len()
            && s.regions[r as int].sentinel == Some(e) {
            Some(s.regions[r as int].size)
        } else {
            None
        },
        _ => None,
    }
}

/// The bound that an instruction shows of a counter `n`.
pub open spec fn scan_at(f: Function, s: PathView, body: Seq<u32>, n: u32, inst: Inst) -> Option<
    ScanBound,
> {
    let insts = flat(f.blocks@);
    match inst {
        Inst::Load { dst: v, ty, ptr: Operand::Reg(q), .. } => match last_def(insts, q.0) {
            Some(
                Inst::PtrOffset { base: Operand::Reg(b), index: Operand::Reg(i), elem, .. },
            ) => match (sized(elem), at(s.env, n)) {
                (Some(e), Some(SymValue::Scalar(x))) => match terminated(
                    s,
                    root_of(insts, b.0),
                    e,
                ) {
                    Some(size) => if index_root(insts, i.0, CHAIN_LIMIT as nat) == n && sized(ty)
                        == Some(e) && gates_exit(f, body, v.0) && width_of(x) == PTR_WIDTH {
                        Some(ScanBound { index: x, elem: e, size })
                    } else {
                        None
                    },
                    None => None,
                },
                _ => None,
            },
            _ => None,
        },
        _ => None,
    }
}

/// The first bound that instructions show.
pub open spec fn scan_insts(
    f: Function,
    s: PathView,
    body: Seq<u32>,
    n: u32,
    insts: Seq<Inst>,
) -> Option<ScanBound>
    decreases insts.len(),
{
    if insts.len() == 0 {
        None
    } else {
        match scan_insts(f, s, body, n, insts.drop_last()) {
            Some(b) => Some(b),
            None => scan_at(f, s, body, n, insts.last()),
        }
    }
}

/// The first bound that the first `k` blocks of a loop show.
pub open spec fn scan_blocks(f: Function, s: PathView, body: Seq<u32>, n: u32, k: int) -> Option<
    ScanBound,
>
    decreases k,
{
    if k <= 0 {
        None
    } else {
        match scan_blocks(f, s, body, n, k - 1) {
            Some(b) => Some(b),
            None => match block_with(f.blocks@, BlockId(body[k - 1])) {
                Some(b) => scan_insts(f, s, body, n, b.insts@),
                None => None,
            },
        }
    }
}

/// The first bound that the loop shows of one of the first `k` header parameters.
pub open spec fn scan_params(
    f: Function,
    flow: Flow,
    s: PathView,
    header: u32,
    params: Seq<(RegId, Type)>,
    k: int,
) -> Option<ScanBound>
    decreases k,
{
    if k <= 0 {
        None
    } else {
        match scan_params(f, flow, s, header, params, k - 1) {
            Some(b) => Some(b),
            None => {
                let n = (params[k - 1].0).0;
                let body = body_of(flow, header);
                if counts(f, flow, header, n, k - 1, true) {
                    scan_blocks(f, s, body, n, body.len() as int)
                } else {
                    None
                }
            },
        }
    }
}

/// The bound of a scan for the end of a terminated region: a counter from 0 up by one, a
/// load at it, and an exit where the loaded value is zero.
pub open spec fn sentinel_scan(f: Function, flow: Flow, s: PathView, header: u32) -> Option<
    ScanBound,
> {
    match (loop_at(flow.loops@, header), block_with(f.blocks@, BlockId(header))) {
        (Some(_), Some(hdr)) => scan_params(
            f,
            flow,
            s,
            header,
            hdr.params@,
            hdr.params@.len() as int,
        ),
        _ => None,
    }
}

// ---- the recognizers at work ----

/// The last instruction that defines a register.
pub fn find_def<'f>(insts: &Vec<&'f Inst>, r: u32) -> (d: Option<&'f Inst>)
    ensures
        match d {
            Some(i) => last_def(derefs(insts@), r) == Some(*i),
            None => last_def(derefs(insts@), r) is None,
        },
{
    let ghost all = derefs(insts@);
    let mut k: usize = insts.len();
    assert(all.take(k as int) =~= all);
    while k > 0
        invariant
            k <= insts@.len(),
            all == derefs(insts@),
            last_def(all, r) == last_def(all.take(k as int), r),
        decreases k,
    {
        k -= 1;
        assert(all.take(k + 1).drop_last() =~= all.take(k as int));
        assert(all.take(k + 1).last() == *insts@[k as int]);
        if let Some(d) = defined_reg(insts[k]) {
            if d.0 == r {
                return Some(insts[k]);
            }
        }
    }
    None
}

/// The register that a register is a copy of.
pub fn resolve_copy(r: u32, insts: &Vec<&Inst>) -> (c: u32)
    ensures
        c == root_of(derefs(insts@), r),
{
    let mut cur: u32 = r;
    let mut fuel: u32 = CHAIN_LIMIT;
    while fuel > 0
        invariant
            fuel <= CHAIN_LIMIT,
            root_of(derefs(insts@), r) == copy_root(derefs(insts@), cur, fuel as nat),
        decreases fuel,
    {
        match find_def(insts, cur) {
            Some(Inst::Assign { value: RValue::Use(Operand::Reg(src)), .. }) => {
                if src.0 == cur {
                    return cur;
                }
                cur = src.0;
                fuel = fuel - 1;
            },
            _ => {
                return cur;
            },
        }
    }
    cur
}

/// The register that an index is a copy or a widening of.
pub fn resolve_index(r: u32, insts: &Vec<&Inst>) -> (c: u32)
    ensures
        c == index_root(derefs(insts@), r, CHAIN_LIMIT as nat),
{
    let mut cur: u32 = r;
    let mut fuel: u32 = CHAIN_LIMIT;
    while fuel > 0
        invariant
            fuel <= CHAIN_LIMIT,
            index_root(derefs(insts@), r, CHAIN_LIMIT as nat) == index_root(
                derefs(insts@),
                cur,
                fuel as nat,
            ),
        decreases fuel,
    {
        let c: u32 = resolve_copy(cur, insts);
        match find_def(insts, c) {
            Some(
                Inst::Assign { value: RValue::Cast { op, operand: Operand::Reg(src), .. }, .. },
            ) => {
                if (*op == CastOp::SExt || *op == CastOp::ZExt) && src.0 != c {
                    cur = src.0;
                    fuel = fuel - 1;
                } else {
                    return c;
                }
            },
            _ => {
                return c;
            },
        }
    }
    cur
}

/// The arguments that a block passes along the edge to another.
pub fn edge_args<'f>(f: &'f Function, pred: u32, target: u32) -> (r: Option<&'f Vec<Operand>>)
    ensures
        match r {
            Some(a) => passed(*f, pred, target) == Some(a@),
            None => passed(*f, pred, target) is None,
        },
{
    match f.block(BlockId(pred)) {
        None => None,
        Some(b) => match &b.term {
            Terminator::Br { target: t, args } => if t.0 == target {
                Some(args)
            } else {
                None
            },
            Terminator::CondBr { then_blk, then_args, else_blk, else_args, .. } => if then_blk.0
                == target {
                Some(then_args)
            } else if else_blk.0 == target {
                Some(else_args)
            } else {
                None
            },
            _ => None,
        },
    }
}

fn number_is(o: &Operand, v: u128) -> (r: bool)
    ensures
        r == is_number(*o, v),
{
    match o {
        Operand::Const(Const::Int(b)) => b.bits == v,
        _ => false,
    }
}

fn reg_is(o: &Operand, reg: u32, insts: &Vec<&Inst>) -> (r: bool)
    ensures
        r == copies_reg(derefs(insts@), *o, reg),
{
    match o {
        Operand::Reg(r) => resolve_copy(r.0, insts) == reg,
        _ => false,
    }
}

fn increments(o: &Operand, reg: u32, insts: &Vec<&Inst>) -> (r: Option<bool>)
    ensures
        r == is_increment(derefs(insts@), *o, reg),
{
    match o {
        Operand::Reg(m) => match find_def(insts, resolve_copy(m.0, insts)) {
            Some(Inst::Assign { value: RValue::Bin { op: BinOp::Add, lhs, rhs }, .. }) => Some(
                (reg_is(lhs, reg, insts) && number_is(rhs, 1)) || (reg_is(rhs, reg, insts)
                    && number_is(lhs, 1)),
            ),
            _ => None,
        },
        _ => None,
    }
}

fn is_constant(o: &Operand) -> (r: bool)
    ensures
        r == (*o matches Operand::Const(Const::Int(_))),
{
    match o {
        Operand::Const(Const::Int(_)) => true,
        _ => false,
    }
}

fn is_counter(
    f: &Function,
    flow: &Flow,
    insts: &Vec<&Inst>,
    header: u32,
    reg: u32,
    pos: usize,
    from_zero: bool,
) -> (r: bool)
    requires
        derefs(insts@) == flat(f.blocks@),
    ensures
        r == counts(*f, *flow, header, reg, pos as int, from_zero),
{
    let ghost all = flat(f.blocks@);
    let ghost preds = preds_of(*flow, header);
    let facts = flow.facts_of(header);
    let mut start = false;
    let mut up = false;
    if let Some(h) = facts {
        let mut k: usize = 0;
        while k < h.preds.len()
            invariant
                k <= h.preds@.len(),
                all == flat(f.blocks@),
                all == derefs(insts@),
                preds == preds_of(*flow, header),
                preds == h.preds@,
                (start, up) == counter(
                    *f,
                    *flow,
                    all,
                    header,
                    reg,
                    pos as int,
                    from_zero,
                    k as int,
                ),
            decreases h.preds@.len() - k,
        {
            let pred: u32 = h.preds[k];
            if let Some(args) = edge_args(f, pred, header) {
                if pos < args.len() {
                    if flow.is_back_edge(pred, header) {
                        if let Some(b) = increments(&args[pos], reg, insts) {
                            up = b;
                        }
                    } else {
                        let entry = if from_zero {
                            number_is(&args[pos], 0)
                        } else {
                            is_constant(&args[pos])
                        };
                        start = start || entry;
                    }
                }
            }
            k += 1;
        }
    }
    start && up
}

proof fn lemma_position(params: Seq<(RegId, Type)>, reg: u32, k: int)
    requires
        0 <= k <= params.len(),
        param_position(params.take(k), reg) is Some,
    ensures
        param_position(params, reg) == param_position(params.take(k), reg),
    decreases params.len(),
{
    if k == params.len() {
        assert(params.take(k) =~= params);
    } else {
        assert(params.drop_last().take(k) =~= params.take(k));
        lemma_position(params.drop_last(), reg, k);
    }
}

fn position_of(params: &Vec<(RegId, Type)>, reg: u32) -> (r: Option<usize>)
    ensures
        match r {
            Some(i) => param_position(params@, reg) == Some(i as int),
            None => param_position(params@, reg) is None,
        },
{
    let mut i: usize = 0;
    assert(params@.take(0) =~= Seq::<(RegId, Type)>::empty());
    while i < params.len()
        invariant
            i <= params@.len(),
            param_position(params@.take(i as int), reg) is None,
        decreases params@.len() - i,
    {
        assert(params@.take(i + 1).drop_last() =~= params@.take(i as int));
        assert(params@.take(i + 1).last() == params@[i as int]);
        if (params[i].0).0 == reg {
            proof {
                lemma_position(params@, reg, i + 1);
            }
            return Some(i);
        }
        i += 1;
    }
    assert(params@.take(params@.len() as int) =~= params@);
    None
}

fn is_upper_bound(c: u32, reg: u32, insts: &Vec<&Inst>) -> (r: bool)
    ensures
        r == bounds_above(derefs(insts@), c, reg),
{
    match find_def(insts, resolve_copy(c, insts)) {
        Some(Inst::Assign { value: RValue::Cmp { op, lhs, rhs }, .. }) => (*op == CmpOp::Slt || *op
            == CmpOp::Sle || *op == CmpOp::Ult || *op == CmpOp::Ule) && reg_is(lhs, reg, insts)
            && !reg_is(rhs, reg, insts),
        _ => false,
    }
}

fn leaves_loop(f: &Function, body: &Vec<u32>, block: u32) -> (r: bool)
    ensures
        r == leaves(*f, body@, block),
{
    match f.block(BlockId(block)) {
        None => false,
        Some(b) => match &b.term {
            Terminator::Br { target, .. } => !holds(body, target.0),
            Terminator::CondBr { then_blk, else_blk, .. } => !holds(body, then_blk.0) || !holds(
                body,
                else_blk.0,
            ),
            _ => true,
        },
    }
}

fn exits_once(f: &Function, body: &Vec<u32>, header: u32) -> (r: bool)
    ensures
        r == single_exit(*f, body@, header),
{
    let mut i: usize = 0;
    while i < body.len()
        invariant
            i <= body@.len(),
            forall|k: int|
                0 <= k < i && #[trigger] body@[k] != header ==> !leaves(*f, body@, body@[k]),
        decreases body@.len() - i,
    {
        if body[i] != header && leaves_loop(f, body, body[i]) {
            assert(body@[i as int] != header && leaves(*f, body@, body@[i as int]));
            return false;
        }
        i += 1;
    }
    true
}

/// Whether a register takes every value its loop guard admits.
pub fn sound_counting_induction(f: &Function, flow: &Flow, header: u32, reg: u32) -> (r: bool)
    ensures
        r == sound_counter(*f, *flow, header, reg),
{
    let hdr = match f.block(BlockId(header)) {
        Some(b) => b,
        None => {
            return false;
        },
    };
    let pos: usize = match position_of(&hdr.params, reg) {
        Some(p) => p,
        None => {
            return false;
        },
    };
    let insts = all_insts(f);
    if !is_counter(f, flow, &insts, header, reg, pos, false) {
        return false;
    }
    let none: Vec<u32> = Vec::new();
    assert(none@ =~= Seq::<u32>::empty());
    let body: &Vec<u32> = match flow.loop_of(header) {
        Some(l) => &l.body,
        None => &none,
    };
    assert(body@ == body_of(*flow, header));
    match &hdr.term {
        Terminator::CondBr { cond: Operand::Reg(c), then_blk, else_blk, .. } => {
            is_upper_bound(c.0, reg, &insts) && holds(body, then_blk.0) && !holds(body, else_blk.0)
                && exits_once(f, body, header)
        },
        _ => false,
    }
}

fn is_reg(o: &Operand, v: u32) -> (r: bool)
    ensures
        r == (*o == Operand::Reg(RegId(v))),
{
    match o {
        Operand::Reg(r) => r.0 == v,
        _ => false,
    }
}

fn tests_zero(c: u32, v: u32, insts: &Vec<&Inst>) -> (r: bool)
    ensures
        r == zero_test(derefs(insts@), c, v),
{
    match find_def(insts, c) {
        Some(Inst::Assign { value: RValue::Cmp { op, lhs, rhs }, .. }) => (*op == CmpOp::Eq || *op
            == CmpOp::Ne) && ((is_reg(lhs, v) && number_is(rhs, 0)) || (is_reg(rhs, v)
            && number_is(lhs, 0))),
        _ => false,
    }
}

/// Whether a loaded value gates an exit of the loop.
pub fn loaded_value_gates_exit(f: &Function, body: &Vec<u32>, v: u32) -> (r: bool)
    ensures
        r == gates_exit(*f, body@, v),
{
    let insts = all_insts(f);
    let mut i: usize = 0;
    while i < body.len()
        invariant
            i <= body@.len(),
            derefs(insts@) == flat(f.blocks@),
            forall|k: int| 0 <= k < i ==> !gate_at(*f, body@, v, #[trigger] body@[k]),
        decreases body@.len() - i,
    {
        let hit = match f.block(BlockId(body[i])) {
            None => false,
            Some(b) => match &b.term {
                Terminator::CondBr { cond: Operand::Reg(c), then_blk, else_blk, .. } => tests_zero(
                    c.0,
                    v,
                    &insts,
                ) && (!holds(body, then_blk.0) || !holds(body, else_blk.0)),
                _ => false,
            },
        };
        if hit {
            assert(gate_at(*f, body@, v, body@[i as int]));
            return true;
        }
        i += 1;
    }
    false
}

fn terminated_size(s: &PathState, base: u32, e: u64) -> (r: Option<Ex>)
    ensures
        r == terminated(s@, base, e),
{
    match find(&s.env, base) {
        Some(SymValue::Ptr(SymPointer { prov: Prov::Region(r), .. })) => {
            if *r < s.regions.len() {
                if let Some(x) = s.regions[*r].sentinel {
                    if x == e {
                        return Some(s.regions[*r].size.clone());
                    }
                }
            }
            None
        },
        _ => None,
    }
}

fn scan_inst(
    f: &Function,
    insts: &Vec<&Inst>,
    s: &PathState,
    body: &Vec<u32>,
    n: u32,
    inst: &Inst,
) -> (r: Option<ScanBound>)
    requires
        derefs(insts@) == flat(f.blocks@),
    ensures
        r == scan_at(*f, s@, body@, n, *inst),
{
    match inst {
        Inst::Load { dst: v, ty, ptr: Operand::Reg(q), .. } => match find_def(insts, q.0) {
            Some(
                Inst::PtrOffset { base: Operand::Reg(b), index: Operand::Reg(i), elem, .. },
            ) => {
                let e: u64 = match elem.size_bytes() {
                    Some(e) => e,
                    None => {
                        return None;
                    },
                };
                let x: Ex = match find(&s.env, n) {
                    Some(SymValue::Scalar(x)) => x.clone(),
                    _ => {
                        return None;
                    },
                };
                match terminated_size(s, resolve_copy(b.0, insts), e) {
                    Some(size) => {
                        let same_size = match ty.size_bytes() {
                            Some(t) => t == e,
                            None => false,
                        };
                        if resolve_index(i.0, insts) == n && same_size && loaded_value_gates_exit(
                            f,
                            body,
                            v.0,
                        ) && width(&x) == PTR_WIDTH {
                            Some(ScanBound { index: x, elem: e, size })
                        } else {
                            None
                        }
                    },
                    None => None,
                }
            },
            _ => None,
        },
        _ => None,
    }
}

proof fn lemma_scan_insts(
    f: Function,
    s: PathView,
    body: Seq<u32>,
    n: u32,
    insts: Seq<Inst>,
    k: int,
)
    requires
        0 <= k <= insts.len(),
        scan_insts(f, s, body, n, insts.take(k)) is Some,
    ensures
        scan_insts(f, s, body, n, insts) == scan_insts(f, s, body, n, insts.take(k)),
    decreases insts.len(),
{
    if k == insts.len() {
        assert(insts.take(k) =~= insts);
    } else {
        assert(insts.drop_last().take(k) =~= insts.take(k));
        lemma_scan_insts(f, s, body, n, insts.drop_last(), k);
    }
}

fn scan_block(
    f: &Function,
    insts: &Vec<&Inst>,
    s: &PathState,
    body: &Vec<u32>,
    n: u32,
    list: &Vec<Inst>,
) -> (r: Option<ScanBound>)
    requires
        derefs(insts@) == flat(f.blocks@),
    ensures
        r == scan_insts(*f, s@, body@, n, list@),
{
    let mut k: usize = 0;
    assert(list@.take(0) =~= Seq::<Inst>::empty());
    while k < list.len()
        invariant
            k <= list@.len(),
            derefs(insts@) == flat(f.blocks@),
            scan_insts(*f, s@, body@, n, list@.take(k as int)) is None,
        decreases list@.len() - k,
    {
        assert(list@.take(k + 1).drop_last() =~= list@.take(k as int));
        assert(list@.take(k + 1).last() == list@[k as int]);
        if let Some(b) = scan_inst(f, insts, s, body, n, &list[k]) {
            proof {
                lemma_scan_insts(*f, s@, body@, n, list@, k + 1);
            }
            return Some(b);
        }
        k += 1;
    }
    assert(list@.take(list@.len() as int) =~= list@);
    None
}

proof fn lemma_scan_blocks(f: Function, s: PathView, body: Seq<u32>, n: u32, k: int, last: int)
    requires
        0 <= k <= last,
        scan_blocks(f, s, body, n, k) is Some,
    ensures
        scan_blocks(f, s, body, n, last) == scan_blocks(f, s, body, n, k),
    decreases last,
{
    if k < last {
        lemma_scan_blocks(f, s, body, n, k, last - 1);
    }
}

fn scan_body(f: &Function, insts: &Vec<&Inst>, s: &PathState, body: &Vec<u32>, n: u32) -> (r:
    Option<ScanBound>)
    requires
        derefs(insts@) == flat(f.blocks@),
    ensures
        r == scan_blocks(*f, s@, body@, n, body@.len() as int),
{
    let mut k: usize = 0;
    while k < body.len()
        invariant
            k <= body@.len(),
            derefs(insts@) == flat(f.blocks@),
            scan_blocks(*f, s@, body@, n, k as int) is None,
        decreases body@.len() - k,
    {
        if let Some(b) = f.block(BlockId(body[k])) {
            if let Some(x) = scan_block(f, insts, s, body, n, &b.insts) {
                proof {
                    lemma_scan_blocks(*f, s@, body@, n, k + 1, body@.len() as int);
                }
                return Some(x);
            }
        }
        k += 1;
    }
    None
}

proof fn lemma_scan_params(
    f: Function,
    flow: Flow,
    s: PathView,
    header: u32,
    params: Seq<(RegId, Type)>,
    k: int,
    last: int,
)
    requires
        0 <= k <= last,
        scan_params(f, flow, s, header, params, k) is Some,
    ensures
        scan_params(f, flow, s, header, params, last) == scan_params(
            f,
            flow,
            s,
            header,
            params,
            k,
        ),
    decreases last,
{
    if k < last {
        lemma_scan_params(f, flow, s, header, params, k, last - 1);
    }
}

/// The bound of a scan for the end of a terminated region.
pub fn find_sentinel_scan(f: &Function, flow: &Flow, s: &PathState, header: u32) -> (r: Option<
    ScanBound,
>)
    ensures
        r == sentinel_scan(*f, *flow, s@, header),
{
    let body: &Vec<u32> = match flow.loop_of(header) {
        Some(l) => &l.body,
        None => {
            return None;
        },
    };
    let hdr = match f.block(BlockId(header)) {
        Some(b) => b,
        None => {
            return None;
        },
    };
    let insts = all_insts(f);
    let mut k: usize = 0;
    while k < hdr.params.len()
        invariant
            k <= hdr.params@.len(),
            derefs(insts@) == flat(f.blocks@),
            body@ == body_of(*flow, header),
            loop_at(flow.loops@, header) is Some,
            block_with(f.blocks@, BlockId(header)) == Some(*hdr),
            scan_params(*f, *flow, s@, header, hdr.params@, k as int) is None,
        decreases hdr.params@.len() - k,
    {
        let n: u32 = (hdr.params[k].0).0;
        if is_counter(f, flow, &insts, header, n, k, true) {
            if let Some(x) = scan_body(f, &insts, s, body, n) {
                proof {
                    lemma_scan_params(
                        *f,
                        *flow,
                        s@,
                        header,
                        hdr.params@,
                        k + 1,
                        hdr.params@.len() as int,
                    );
                }
                return Some(x);
            }
        }
        k += 1;
    }
    None
}

} // verus!
